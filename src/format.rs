//! The table format: each entry is one length byte, then the UTF-8 bytes of
//! the character, then the UTF-8 bytes of its name. The table ends where the
//! bytes end, or at a length byte of zero.
use vstd::prelude::*;
use vstd::utf8::{decode_utf8, encode_utf8, encode_utf8_decode_utf8, encode_utf8_valid_utf8, valid_utf8};

use crate::text::{remove_first_char, string_from_utf8};

verus! {

/// The bytes of an entry after its length byte.
pub open spec fn payload_of(c: char, name: Seq<char>) -> Seq<u8> {
    encode_utf8(seq![c] + name)
}

/// An entry can be written when its payload fits in the length byte.
pub open spec fn entry_fits(c: char, name: Seq<char>) -> bool {
    payload_of(c, name).len() <= 255
}

/// The encoded form of one entry.
pub open spec fn entry_bytes(c: char, name: Seq<char>) -> Seq<u8> {
    seq![payload_of(c, name).len() as u8] + payload_of(c, name)
}

/// The encoded form of a sequence of entries, one after the other.
pub open spec fn encode_all(entries: Seq<(char, Seq<char>)>) -> Seq<u8>
    decreases entries.len(),
{
    if entries.len() == 0 {
        seq![]
    } else {
        entry_bytes(entries[0].0, entries[0].1) + encode_all(entries.drop_first())
    }
}

/// The entry that a payload holds: its first character and the rest as name.
pub open spec fn entry_of_payload(payload: Seq<u8>) -> (char, Seq<char>) {
    let text = decode_utf8(payload);
    (text[0], text.drop_first())
}

/// The first entry at the start of `bytes` and the number of bytes it takes,
/// or `None` where the table stops: no byte left, a zero length byte, fewer
/// bytes than declared, or a payload that is not UTF-8.
pub open spec fn first_entry(bytes: Seq<u8>) -> Option<((char, Seq<char>), int)> {
    if bytes.len() == 0 || bytes[0] == 0 || bytes.len() < 1 + bytes[0] {
        None
    } else {
        let payload = bytes.subrange(1, 1 + bytes[0]);
        if valid_utf8(payload) {
            Some((entry_of_payload(payload), 1 + bytes[0]))
        } else {
            None
        }
    }
}

/// The entries that a reader produces from the decompressed bytes `bytes`.
pub open spec fn decode_all(bytes: Seq<u8>) -> Seq<(char, Seq<char>)>
    decreases bytes.len(),
{
    match first_entry(bytes) {
        None => seq![],
        Some((e, n)) => seq![e] + decode_all(bytes.skip(n)),
    }
}

/// True when every entry can be written.
pub open spec fn all_fit(entries: Seq<(char, Seq<char>)>) -> bool {
    forall|i: int| 0 <= i < entries.len() ==> entry_fits(#[trigger] entries[i].0, entries[i].1)
}

/// Reads the entry that a payload holds, or `None` where the payload is empty
/// or not UTF-8.
pub fn decode_payload(payload: Vec<u8>) -> (r: Option<(char, String)>)
    ensures
        r is Some <==> payload@.len() > 0 && valid_utf8(payload@),
        r matches Some((c, name)) ==> (c, name@) == entry_of_payload(payload@),
{
    if payload.len() == 0 {
        return None;
    }
    match string_from_utf8(payload) {
        None => None,
        Some(mut text) => {
            proof {
                reveal_with_fuel(decode_utf8, 2);
            }
            assert(text@.len() > 0);
            let c = remove_first_char(&mut text);
            Some((c, text))
        },
    }
}

/// The payload of an entry with character `c` and name `name`.
pub fn entry_payload(c: char, name: &str) -> (r: Vec<u8>)
    ensures
        r@ == payload_of(c, name@),
{
    let mut s = String::new();
    crate::text::push_char(&mut s, c);
    s.append(name);
    s.as_str().as_bytes_vec()
}

/// An entry that fits is read back from the front of any bytes that follow it.
pub proof fn lemma_first_entry(c: char, name: Seq<char>, rest: Seq<u8>)
    requires
        entry_fits(c, name),
    ensures
        first_entry(entry_bytes(c, name) + rest) == Some(((c, name), 1 + payload_of(c, name).len() as int)),
        (entry_bytes(c, name) + rest).skip(1 + payload_of(c, name).len() as int) == rest,
{
    let text = seq![c] + name;
    let p = payload_of(c, name);
    let bytes = entry_bytes(c, name) + rest;
    encode_utf8_valid_utf8(text);
    encode_utf8_decode_utf8(text);
    assert(p.len() >= 1) by {
        reveal_with_fuel(encode_utf8, 2);
    }
    assert(bytes[0] as int == p.len());
    assert(bytes.subrange(1, 1 + p.len() as int) =~= p);
    assert(text.drop_first() =~= name);
    assert(bytes.skip(1 + p.len() as int) =~= rest);
}

/// Entries that fit, followed by any bytes, are read back in order before
/// whatever those bytes hold.
pub proof fn lemma_decode_prefix(entries: Seq<(char, Seq<char>)>, tail: Seq<u8>)
    requires
        all_fit(entries),
    ensures
        decode_all(encode_all(entries) + tail) == entries + decode_all(tail),
    decreases entries.len(),
{
    if entries.len() == 0 {
        assert(encode_all(entries) + tail =~= tail);
        assert(entries + decode_all(tail) =~= decode_all(tail));
    } else {
        let (c, name) = entries[0];
        let rest = entries.drop_first();
        assert(all_fit(rest)) by {
            assert forall|i: int| 0 <= i < rest.len() implies entry_fits(#[trigger] rest[i].0, rest[i].1) by {
                assert(rest[i] == entries[i + 1]);
            }
        }
        assert(entry_fits(entries[0].0, entries[0].1));
        let bytes = encode_all(entries) + tail;
        assert(bytes =~= entry_bytes(c, name) + (encode_all(rest) + tail));
        lemma_first_entry(c, name, encode_all(rest) + tail);
        lemma_decode_prefix(rest, tail);
        assert(entries =~= seq![(c, name)] + rest);
        assert(decode_all(bytes) =~= seq![(c, name)] + (rest + decode_all(tail)));
    }
}

/// Every entry written is read back, in the order written, and nothing else.
pub proof fn lemma_round_trip(entries: Seq<(char, Seq<char>)>)
    requires
        all_fit(entries),
    ensures
        decode_all(encode_all(entries)) == entries,
{
    lemma_decode_prefix(entries, seq![]);
    assert(encode_all(entries) + seq![] =~= encode_all(entries));
    assert(entries + decode_all(seq![]) =~= entries);
}

/// A table cut inside an entry, after that entry's length byte, yields the
/// entries before the cut and stops there.
pub proof fn lemma_truncated(entries: Seq<(char, Seq<char>)>, tail: Seq<u8>)
    requires
        all_fit(entries),
        tail.len() > 0,
        tail.len() < 1 + tail[0],
    ensures
        decode_all(encode_all(entries) + tail) == entries,
{
    lemma_decode_prefix(entries, tail);
    assert(decode_all(tail) == Seq::<(char, Seq<char>)>::empty());
    assert(entries + decode_all(tail) =~= entries);
}

/// Each entry read states its own length: the length byte equals the
/// number of UTF-8 bytes of the character plus those of the name.
pub proof fn lemma_entry_length(bytes: Seq<u8>)
    requires
        first_entry(bytes) is Some,
    ensures
        ({
            let (e, n) = first_entry(bytes)->0;
            &&& n == 1 + bytes[0]
            &&& encode_utf8(seq![e.0]).len() + encode_utf8(e.1).len() == bytes[0]
        }),
{
    let payload = bytes.subrange(1, 1 + bytes[0]);
    let text = decode_utf8(payload);
    vstd::utf8::decode_utf8_encode_utf8(payload);
    reveal_with_fuel(decode_utf8, 2);
    assert(text.len() > 0);
    assert(text =~= seq![text[0]] + text.drop_first());
    lemma_encode_concat(seq![text[0]], text.drop_first());
}

/// The encoding of two character sequences one after the other.
pub proof fn lemma_encode_concat(a: Seq<char>, b: Seq<char>)
    ensures
        encode_utf8(a + b) == encode_utf8(a) + encode_utf8(b),
    decreases a.len(),
{
    if a.len() == 0 {
        assert(a + b =~= b);
        assert(encode_utf8(a) + encode_utf8(b) =~= encode_utf8(b));
    } else {
        lemma_encode_concat(a.drop_first(), b);
        assert((a + b).drop_first() =~= a.drop_first() + b);
        assert((a + b)[0] == a[0]);
        assert(encode_utf8(a + b) =~= encode_utf8(a) + encode_utf8(b));
    }
}

} // verus!
