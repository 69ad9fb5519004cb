//! Contracts for the std text operations that the library relies on.
use vstd::prelude::*;
use vstd::utf8::{decode_utf8, is_scalar, valid_utf8};

use std::num::ParseIntError;

verus! {

/// True when `s` holds `sep`.
pub open spec fn holds_char(s: Seq<char>, sep: char) -> bool {
    exists|i: int| 0 <= i < s.len() && s[i] == sep
}

/// Relies on `String::from_utf8`: it accepts exactly the valid UTF-8 byte
/// sequences and yields the characters that they encode.
#[verifier::external_body]
pub(crate) fn string_from_utf8(bytes: Vec<u8>) -> (r: Option<String>)
    ensures
        r is Some <==> valid_utf8(bytes@),
        r matches Some(s) ==> s@ == decode_utf8(bytes@),
{
    String::from_utf8(bytes).ok()
}

/// Relies on `String::remove`: at index 0 of a non-empty string it takes out
/// the first character and returns it.
#[verifier::external_body]
pub(crate) fn remove_first_char(s: &mut String) -> (c: char)
    requires
        old(s)@.len() > 0,
    ensures
        c == old(s)@[0],
        final(s)@ == old(s)@.drop_first(),
{
    s.remove(0)
}

/// Relies on `str::split_once` with a `char` pattern: it splits at the first
/// occurrence of `sep`, or gives `None` when there is none.
#[verifier::external_body]
pub(crate) fn split_once_char<'a>(s: &'a str, sep: char) -> (r: Option<(&'a str, &'a str)>)
    ensures
        r is None <==> !holds_char(s@, sep),
        r matches Some((a, b)) ==> s@ == a@ + seq![sep] + b@ && !holds_char(a@, sep),
{
    s.split_once(sep)
}

/// Relies on `String::push`: it appends one character.
#[verifier::external_body]
pub(crate) fn push_char(s: &mut String, c: char)
    ensures
        final(s)@ == old(s)@.push(c),
{
    s.push(c)
}

/// The index of the first `sep` in `s`, or the length of `s` where there is none.
pub open spec fn first_index(s: Seq<char>, sep: char) -> int
    decreases s.len(),
{
    if s.len() == 0 || s[0] == sep {
        0
    } else {
        1 + first_index(s.drop_first(), sep)
    }
}

/// The part of `s` before its first `sep`.
pub open spec fn before_first(s: Seq<char>, sep: char) -> Seq<char> {
    s.take(first_index(s, sep))
}

/// The part of `s` after its first `sep`.
pub open spec fn after_first(s: Seq<char>, sep: char) -> Seq<char> {
    s.skip(first_index(s, sep) + 1)
}

/// A split at a `sep` that the part before it does not hold is the split at
/// the first `sep`.
pub proof fn lemma_split_first(s: Seq<char>, sep: char, a: Seq<char>, b: Seq<char>)
    requires
        s == a + seq![sep] + b,
        !holds_char(a, sep),
    ensures
        first_index(s, sep) == a.len(),
        before_first(s, sep) == a,
        after_first(s, sep) == b,
    decreases a.len(),
{
    if a.len() == 0 {
        assert(s[0] == sep);
    } else {
        assert(s[0] == a[0]);
        assert(a[0] != sep);
        assert(!holds_char(a.drop_first(), sep)) by {
            if holds_char(a.drop_first(), sep) {
                let i = choose|i: int| 0 <= i < a.drop_first().len() && a.drop_first()[i] == sep;
                assert(a[i + 1] == sep);
            }
        }
        assert(s.drop_first() =~= a.drop_first() + seq![sep] + b);
        lemma_split_first(s.drop_first(), sep, a.drop_first(), b);
    }
    assert(before_first(s, sep) =~= a);
    assert(after_first(s, sep) =~= b);
}

/// True when `p` occurs in `s` as a run of consecutive characters.
pub open spec fn is_substring(p: Seq<char>, s: Seq<char>) -> bool {
    exists|i: int| 0 <= i && i + p.len() <= s.len() && #[trigger] s.subrange(i, i + p.len()) == p
}

/// Relies on `str::contains` with a `&str` pattern.
#[verifier::external_body]
pub(crate) fn contains_str(s: &str, p: &str) -> (r: bool)
    ensures
        r == is_substring(p@, s@),
{
    s.contains(p)
}

/// The value of a digit in base `radix`: `0`-`9`, then `a`-`z` or `A`-`Z`
/// for ten onwards.
pub open spec fn digit_value(c: char, radix: u32) -> Option<nat> {
    let u = c as u32;
    let v: int = if 0x30 <= u <= 0x39 {
        u - 0x30
    } else if 0x61 <= u <= 0x7a {
        u - 0x61 + 10
    } else if 0x41 <= u <= 0x5a {
        u - 0x41 + 10
    } else {
        36
    };
    if v < radix {
        Some(v as nat)
    } else {
        None
    }
}

/// The number that the digits `s` write in base `radix`.
pub open spec fn digits_value(s: Seq<char>, radix: u32) -> nat
    decreases s.len(),
{
    if s.len() == 0 {
        0
    } else {
        (digits_value(s.drop_last(), radix) * radix + digit_value(s.last(), radix).unwrap_or(0)) as nat
    }
}

/// The number that `s` writes in base `radix`: an optional `+`, then one or
/// more digits; `None` for any other text.
pub open spec fn radix_value(s: Seq<char>, radix: u32) -> Option<nat> {
    if digits_of(s).len() > 0 && forall|i: int|
        0 <= i < digits_of(s).len() ==> (#[trigger] digit_value(digits_of(s)[i], radix)) is Some {
        Some(digits_value(digits_of(s), radix))
    } else {
        None
    }
}

/// The digits of a number: the text without a leading `+`.
pub open spec fn digits_of(s: Seq<char>) -> Seq<char> {
    if s.len() > 0 && s[0] == '+' {
        s.drop_first()
    } else {
        s
    }
}

#[verifier::external_type_specification]
#[verifier::external_body]
pub struct ExParseIntError(ParseIntError);

/// Relies on `u32::from_str_radix`: it reads an optional `+` and digits in
/// base `radix`, and fails on any other text and on a value above `u32::MAX`.
#[verifier::external_body]
pub(crate) fn parse_u32(s: &str, radix: u32) -> (r: Result<u32, ParseIntError>)
    requires
        2 <= radix <= 36,
    ensures
        r is Ok <==> (radix_value(s@, radix) matches Some(v) && v <= u32::MAX),
        r matches Ok(v) ==> radix_value(s@, radix) == Some(v as nat),
{
    u32::from_str_radix(s, radix)
}

/// Relies on `char::from_u32`: it gives the character of a Unicode scalar
/// value and `None` for any other number.
#[verifier::external_body]
pub(crate) fn char_from_u32(v: u32) -> (r: Option<char>)
    ensures
        r is Some <==> is_scalar(v),
        r matches Some(c) ==> c as u32 == v,
{
    char::from_u32(v)
}

/// The upper-case form of a text, as `str::to_uppercase` gives it.
pub uninterp spec fn upper_of(s: Seq<char>) -> Seq<char>;

/// Relies on `str::to_uppercase`: the result depends on the characters alone.
#[verifier::external_body]
pub(crate) fn uppercase(s: &str) -> (r: String)
    ensures
        r@ == upper_of(s@),
{
    s.to_uppercase()
}

} // verus!
