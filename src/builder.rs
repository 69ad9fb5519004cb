//! Writing the table from a listing of code points and names.
//!
//! Each line of the listing reads `<hex code point>;<name>;<other fields>`.
use vstd::prelude::*;
use vstd::utf8::{char_u32_cast, is_scalar};

use crate::format::{all_fit, encode_all, entry_bytes, entry_fits, entry_payload, payload_of};
use crate::text::{
    after_first, before_first, char_from_u32, holds_char, lemma_split_first, parse_u32,
    radix_value, split_once_char,
};
use crate::zlib::{compress_best, inflated};

verus! {

/// Why a listing cannot be written as a table.
pub enum BuildError {
    /// A code point field that is not a hexadecimal `u32`.
    InvalidCode(String),
    /// A character whose entry would not fit in a length byte.
    EntryTooLong(char),
}

/// What one line of the listing gives.
pub enum Record {
    /// A line with no `;`, or whose code point is no scalar value.
    Skip,
    /// The character and name of an entry.
    Entry(char, Seq<char>),
    /// A code point field that is no hexadecimal `u32`.
    BadCode(Seq<char>),
    /// A character whose entry would not fit in a length byte.
    TooLong(char),
}

/// The reading of one line: the first field is the code point, the second
/// the name.
pub open spec fn record_of(line: Seq<char>) -> Record {
    if !holds_char(line, ';') {
        Record::Skip
    } else {
        let code = before_first(line, ';');
        let name = before_first(after_first(line, ';'), ';');
        match radix_value(code, 16) {
            None => Record::BadCode(code),
            Some(v) => if v > u32::MAX {
                Record::BadCode(code)
            } else if !is_scalar(v as u32) {
                Record::Skip
            } else if entry_fits((v as u32) as char, name) {
                Record::Entry((v as u32) as char, name)
            } else {
                Record::TooLong((v as u32) as char)
            },
        }
    }
}

/// The entries of a listing, in order, or the first line that fails.
pub open spec fn listing_result(lines: Seq<Seq<char>>) -> Result<Seq<(char, Seq<char>)>, Record>
    decreases lines.len(),
{
    if lines.len() == 0 {
        Ok(seq![])
    } else {
        match listing_result(lines.drop_last()) {
            Err(bad) => Err(bad),
            Ok(entries) => match record_of(lines.last()) {
                Record::Skip => Ok(entries),
                Record::Entry(c, name) => Ok(entries.push((c, name))),
                bad => Err(bad),
            },
        }
    }
}

/// The text of each line.
pub open spec fn texts(lines: Seq<String>) -> Seq<Seq<char>> {
    lines.map_values(|l: String| l@)
}

/// True when `r` is the error that a failing record owes.
pub open spec fn reports_record(r: BuildError, bad: Record) -> bool {
    match bad {
        Record::BadCode(t) => r matches BuildError::InvalidCode(u) && u@ == t,
        Record::TooLong(c) => r == BuildError::EntryTooLong(c),
        _ => false,
    }
}

/// Reads one line of the listing: `None` for a line to skip, else the
/// entry's character and its payload bytes.
fn read_record(line: &str) -> (r: Result<Option<(char, Vec<u8>)>, BuildError>)
    ensures
        match record_of(line@) {
            Record::Skip => r matches Ok(None),
            Record::Entry(c, name) => r matches Ok(Some((x, p))) && x == c && p@ == payload_of(c, name),
            bad => r matches Err(e) && reports_record(e, bad),
        },
{
    let (code, rest) = match split_once_char(line, ';') {
        Some(parts) => parts,
        None => return Ok(None),
    };
    proof {
        lemma_split_first(line@, ';', code@, rest@);
    }
    let name = match split_once_char(rest, ';') {
        Some((n, tail)) => {
            proof {
                lemma_split_first(rest@, ';', n@, tail@);
            }
            n
        },
        None => {
            assert(before_first(rest@, ';') =~= rest@) by {
                lemma_no_sep(rest@, ';');
            }
            rest
        },
    };
    let v = match parse_u32(code, 16) {
        Ok(v) => v,
        Err(_) => return Err(BuildError::InvalidCode(code.to_owned())),
    };
    let c = match char_from_u32(v) {
        Some(c) => c,
        None => return Ok(None),
    };
    proof {
        char_u32_cast(c, v);
    }
    let payload = entry_payload(c, name);
    if payload.len() > 255 {
        return Err(BuildError::EntryTooLong(c));
    }
    Ok(Some((c, payload)))
}

/// Where `s` holds no `sep`, its first field is all of it.
proof fn lemma_no_sep(s: Seq<char>, sep: char)
    requires
        !holds_char(s, sep),
    ensures
        crate::text::first_index(s, sep) == s.len(),
    decreases s.len(),
{
    if s.len() > 0 {
        assert(s[0] != sep);
        assert(!holds_char(s.drop_first(), sep)) by {
            if holds_char(s.drop_first(), sep) {
                let i = choose|i: int| 0 <= i < s.drop_first().len() && s.drop_first()[i] == sep;
                assert(s[i + 1] == sep);
            }
        }
        lemma_no_sep(s.drop_first(), sep);
    }
}

/// Writing one more entry appends its bytes.
pub proof fn lemma_encode_push(entries: Seq<(char, Seq<char>)>, c: char, name: Seq<char>)
    ensures
        encode_all(entries.push((c, name))) == encode_all(entries) + entry_bytes(c, name),
    decreases entries.len(),
{
    if entries.len() == 0 {
        assert(entries.push((c, name)).drop_first() =~= entries);
        assert(encode_all(entries.push((c, name))) =~= encode_all(entries) + entry_bytes(c, name));
    } else {
        lemma_encode_push(entries.drop_first(), c, name);
        assert(entries.push((c, name)).drop_first() =~= entries.drop_first().push((c, name)));
        assert(encode_all(entries.push((c, name))) =~= encode_all(entries) + entry_bytes(c, name));
    }
}

/// The uncompressed table of a listing: each line with a `;` and a scalar
/// value as code point gives one entry, in the order of the lines. A code
/// point that does not parse, or an entry too long for its length byte,
/// fails the whole listing.
pub fn encode_listing(lines: &Vec<String>) -> (r: Result<Vec<u8>, BuildError>)
    ensures
        match listing_result(texts(lines@)) {
            Ok(entries) => r matches Ok(bytes) && bytes@ == encode_all(entries),
            Err(bad) => r matches Err(e) && reports_record(e, bad),
        },
{
    let mut out: Vec<u8> = Vec::new();
    let ghost mut entries: Seq<(char, Seq<char>)> = seq![];
    let mut i: usize = 0;
    while i < lines.len()
        invariant
            i <= lines@.len(),
            listing_result(texts(lines@).take(i as int)) == Ok::<Seq<(char, Seq<char>)>, Record>(entries),
            out@ == encode_all(entries),
        decreases lines@.len() - i,
    {
        let ghost prefix = texts(lines@).take(i as int);
        assert(texts(lines@).take(i + 1).drop_last() =~= prefix);
        assert(texts(lines@).take(i + 1).last() == lines@[i as int]@);
        match read_record(lines[i].as_str()) {
            Err(e) => {
                assert(listing_result(texts(lines@).take(i + 1)) is Err);
                proof {
                    lemma_listing_err_extends(texts(lines@), i as int + 1);
                }
                return Err(e);
            },
            Ok(None) => {},
            Ok(Some((c, payload))) => {
                proof {
                    lemma_encode_push(entries, c, record_name(lines@[i as int]@));
                    entries = entries.push((c, record_name(lines@[i as int]@)));
                }
                out.push(payload.len() as u8);
                let mut k: usize = 0;
                let ghost start = out@;
                while k < payload.len()
                    invariant
                        k <= payload@.len(),
                        out@ == start + payload@.take(k as int),
                    decreases payload@.len() - k,
                {
                    out.push(payload[k]);
                    k += 1;
                    assert(payload@.take(k as int) =~= payload@.take(k - 1).push(payload@[k - 1]));
                }
                assert(payload@.take(payload@.len() as int) =~= payload@);
                assert(out@ =~= encode_all(entries));
            },
        }
        i += 1;
    }
    assert(texts(lines@).take(lines@.len() as int) =~= texts(lines@));
    Ok(out)
}

/// The name that a line gives.
pub open spec fn record_name(line: Seq<char>) -> Seq<char> {
    before_first(after_first(line, ';'), ';')
}

/// Once a prefix of a listing fails, every longer prefix fails the same way.
proof fn lemma_listing_err_extends(lines: Seq<Seq<char>>, n: int)
    requires
        0 <= n <= lines.len(),
        listing_result(lines.take(n)) is Err,
    ensures
        listing_result(lines) == listing_result(lines.take(n)),
    decreases lines.len() - n,
{
    if n < lines.len() {
        assert(lines.take(n + 1).drop_last() =~= lines.take(n));
        lemma_listing_err_extends(lines, n + 1);
    } else {
        assert(lines.take(n) =~= lines);
    }
}

/// The compressed table of a listing, as [`encode_listing`] writes it and
/// compressed with zlib at its best level.
pub fn build_table(lines: &Vec<String>) -> (r: Result<Vec<u8>, BuildError>)
    ensures
        match listing_result(texts(lines@)) {
            Ok(entries) => r matches Ok(data) && inflated(data@) == encode_all(entries),
            Err(bad) => r matches Err(e) && reports_record(e, bad),
        },
{
    match encode_listing(lines) {
        Ok(bytes) => Ok(compress_best(bytes.as_slice())),
        Err(e) => Err(e),
    }
}

/// Every entry that a listing gives fits in its length byte.
pub proof fn lemma_listing_fits(lines: Seq<Seq<char>>)
    requires
        listing_result(lines) is Ok,
    ensures
        all_fit(listing_result(lines)->Ok_0),
    decreases lines.len(),
{
    if lines.len() > 0 {
        lemma_listing_fits(lines.drop_last());
    }
}

} // verus!
