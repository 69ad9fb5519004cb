//! Reading the compressed table one entry at a time.
use vstd::prelude::*;
use vstd::utf8::{decode_utf8, decode_utf8_encode_utf8};

use flate2::read::ZlibDecoder;

use crate::builder::{lemma_listing_fits, listing_result};
use crate::format::{
    decode_all, decode_payload, encode_all, entry_bytes, entry_fits, first_entry,
    lemma_first_entry, lemma_round_trip, payload_of,
};
use crate::filters::{matches_all, selects_all, Filter};
use crate::zlib::{inflated, intact, is_zlib, open_decoder, read_exactly, unread};

verus! {

/// A reader over a compressed table. Each reader owns its own decoder, so
/// readers over the same bytes go through the table independently.
pub struct Table {
    decoder: ZlibDecoder<&'static [u8]>,
    done: bool,
}

impl Table {
    /// The decompressed bytes that this reader has not consumed yet.
    pub closed spec fn rest(&self) -> Seq<u8> {
        unread(self.decoder)
    }

    /// True once the reader has ended: it hands out nothing more.
    pub closed spec fn is_done(&self) -> bool {
        self.done
    }

    /// True when the reader reads a well-formed stream and every read so far
    /// has succeeded.
    pub closed spec fn is_intact(&self) -> bool {
        intact(self.decoder)
    }

    /// The entries that the rest of the table holds.
    pub open spec fn pending(&self) -> Seq<(char, Seq<char>)> {
        decode_all(self.rest())
    }

    /// A reader at the start of the compressed table `data`. Nothing is
    /// decompressed until an entry is asked for.
    pub fn new(data: &'static [u8]) -> (t: Table)
        ensures
            t.rest() == inflated(data@),
            !t.is_done(),
            is_zlib(data@) ==> t.is_intact(),
    {
        Table { decoder: open_decoder(data), done: false }
    }

    /// The next entry, or `None` where the table ends: no byte left, a zero
    /// length byte, fewer bytes than declared, or a payload that is not UTF-8.
    /// Once it has returned `None` it returns `None` for good.
    pub fn next(&mut self) -> (r: Option<(char, String)>)
        ensures
            r matches Some((c, name)) ==> {
                &&& entry_fits(c, name@)
                &&& old(self).rest() == entry_bytes(c, name@) + final(self).rest()
                &&& old(self).pending() == seq![(c, name@)] + final(self).pending()
                &&& !final(self).is_done()
            },
            r is None ==> final(self).is_done(),
            old(self).is_done() ==> r is None,
            old(self).is_intact() && !old(self).is_done() ==> match first_entry(old(self).rest()) {
                Some((e, k)) => {
                    &&& r matches Some((c, name)) && (c, name@) == e
                    &&& final(self).rest() == old(self).rest().skip(k)
                    &&& final(self).is_intact()
                },
                None => r is None,
            },
    {
        if self.done {
            return None;
        }
        let ghost before = old(self).rest();
        let len = match read_exactly(&mut self.decoder, 1) {
            Some(b) => b[0],
            None => {
                self.done = true;
                return None;
            },
        };
        assert(len == before[0]);
        if len == 0 {
            self.done = true;
            return None;
        }
        let payload = match read_exactly(&mut self.decoder, len as usize) {
            Some(p) => p,
            None => {
                self.done = true;
                return None;
            },
        };
        let ghost bytes = payload@;
        proof {
            assert(bytes =~= before.subrange(1, 1 + len as int));
            assert(self.rest() =~= before.skip(1 + len as int));
        }
        match decode_payload(payload) {
            None => {
                self.done = true;
                None
            },
            Some((c, name)) => {
                proof {
                    decode_utf8_encode_utf8(bytes);
                    let text = decode_utf8(bytes);
                    assert(text =~= seq![c] + name@);
                    assert(payload_of(c, name@) == bytes);
                    assert(before =~= entry_bytes(c, name@) + self.rest());
                    lemma_first_entry(c, name@, self.rest());
                }
                Some((c, name))
            },
        }
    }
}

impl Table {
    /// The next entry that every filter selects, passing over the others.
    /// An empty filter list is no query (it asks for help), so it is not
    /// taken here.
    pub fn next_match(&mut self, filters: &Vec<Filter>) -> (r: Option<(char, String)>)
        requires
            filters@.len() > 0,
        ensures
            r matches Some((c, name)) ==> {
                &&& selects_all(filters@, c, name@)
                &&& exists|skipped: Seq<(char, Seq<char>)>|
                    #![trigger skipped.len()]
                    old(self).pending() == skipped + seq![(c, name@)] + final(self).pending()
                    && forall|i: int| 0 <= i < skipped.len() ==> !selects_all(filters@, #[trigger] skipped[i].0, skipped[i].1)
            },
            old(self).is_intact() && !old(self).is_done() && r is None ==> forall|i: int|
                0 <= i < old(self).pending().len() ==> !selects_all(
                    filters@,
                    #[trigger] old(self).pending()[i].0,
                    old(self).pending()[i].1,
                ),
            old(self).is_intact() && !old(self).is_done() && r is Some ==> final(self).is_intact() && !final(self).is_done(),
    {
        let ghost skipped: Seq<(char, Seq<char>)> = seq![];
        loop
            invariant
                old(self).pending() == skipped + self.pending(),
                forall|i: int| 0 <= i < skipped.len() ==> !selects_all(filters@, #[trigger] skipped[i].0, skipped[i].1),
                old(self).is_intact() && !old(self).is_done() ==> self.is_intact() && !self.is_done(),
            decreases self.rest().len(),
        {
            let ghost before = self.rest();
            let ghost pre = self.pending();
            match self.next() {
                None => {
                    proof {
                        if old(self).is_intact() && !old(self).is_done() {
                            assert(first_entry(before) is None);
                            assert(pre =~= Seq::<(char, Seq<char>)>::empty());
                            assert(old(self).pending() =~= skipped);
                        }
                    }
                    return None;
                },
                Some((c, name)) => {
                    proof {
                        assert(before.len() > self.rest().len());
                    }
                    if matches_all(filters, c, name.as_str()) {
                        assert(old(self).pending() == skipped + seq![(c, name@)] + self.pending());
                        return Some((c, name));
                    }
                    proof {
                        let s2 = skipped.push((c, name@));
                        assert(old(self).pending() =~= s2 + self.pending());
                        skipped = s2;
                    }
                },
            }
        }
    }
}

/// The entries of a table never outnumber its bytes.
pub proof fn lemma_pending_finite(bytes: Seq<u8>)
    ensures
        decode_all(bytes).len() <= bytes.len(),
    decreases bytes.len(),
{
    if let Some((e, n)) = first_entry(bytes) {
        lemma_pending_finite(bytes.skip(n));
    }
}

/// Readers over the same compressed table hold the same entries, in the
/// same order, and finitely many of them.
pub proof fn lemma_readers_agree(a: Table, b: Table, data: Seq<u8>)
    requires
        a.rest() == inflated(data),
        b.rest() == inflated(data),
    ensures
        a.pending() == b.pending(),
        a.pending().len() <= inflated(data).len(),
{
    lemma_pending_finite(inflated(data));
}

/// A reader over a table that the builder wrote holds exactly the entries of
/// the listing, in the order of its lines.
pub proof fn lemma_reader_round_trip(lines: Seq<Seq<char>>, t: Table, data: Seq<u8>)
    requires
        listing_result(lines) is Ok,
        inflated(data) == encode_all(listing_result(lines)->Ok_0),
        t.rest() == inflated(data),
    ensures
        t.pending() == listing_result(lines)->Ok_0,
{
    lemma_listing_fits(lines);
    lemma_round_trip(listing_result(lines)->Ok_0);
}

} // verus!
