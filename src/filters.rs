//! Query filters over table entries, and how they are read from arguments.
use vstd::prelude::*;
use vstd::utf8::{char_u32_cast, is_scalar};

use std::num::ParseIntError;

use crate::text::{
    after_first, before_first, char_from_u32, contains_str, holds_char, is_substring,
    lemma_split_first, parse_u32, radix_value, split_once_char, upper_of, uppercase,
};

verus! {

/// A predicate over an entry of the table.
pub enum Filter {
    /// Selects the entries whose name holds this text.
    Name(String),
    /// Selects the entries whose character lies between these two, both included.
    Range(char, char),
}

impl Filter {
    /// True when this filter selects the entry `(c, name)`.
    pub open spec fn selects(&self, c: char, name: Seq<char>) -> bool {
        match self {
            Filter::Name(p) => is_substring(p@, name),
            Filter::Range(s, e) => (*s as u32) <= (c as u32) <= (*e as u32),
        }
    }

    /// Whether this filter selects the entry `(chr, name)`.
    pub fn matches(&self, chr: char, name: &str) -> (r: bool)
        ensures
            r == self.selects(chr, name@),
    {
        match self {
            Filter::Name(n) => contains_str(name, n.as_str()),
            Filter::Range(s, e) => (*s as u32) <= (chr as u32) && (chr as u32) <= (*e as u32),
        }
    }
}

/// True when every filter selects the entry `(c, name)`.
pub open spec fn selects_all(filters: Seq<Filter>, c: char, name: Seq<char>) -> bool {
    forall|i: int| 0 <= i < filters.len() ==> (#[trigger] filters[i]).selects(c, name)
}

/// Whether every filter selects the entry `(chr, name)`.
pub fn matches_all(filters: &Vec<Filter>, chr: char, name: &str) -> (r: bool)
    ensures
        r == selects_all(filters@, chr, name@),
{
    let mut i: usize = 0;
    while i < filters.len()
        invariant
            i <= filters@.len(),
            forall|j: int| 0 <= j < i ==> (#[trigger] filters@[j]).selects(chr, name@),
        decreases filters@.len() - i,
    {
        if !filters[i].matches(chr, name) {
            return false;
        }
        i += 1;
    }
    true
}

/// Why a range expression was refused.
pub enum RangeError {
    /// A number that does not parse: the text, and the reason.
    InvalidValue(String, ParseIntError),
    /// A number that is no Unicode scalar value.
    InvalidChar(u64),
    /// A value with neither `-` nor `+` in it.
    InvalidRange(String),
}

/// What a hexadecimal code point operand stands for.
pub enum Operand {
    /// Text that is no hexadecimal `u32`.
    Malformed,
    /// A number that is no Unicode scalar value.
    NotScalar(u32),
    /// The character of that scalar value.
    Scalar(char),
}

/// The reading of a hexadecimal code point operand.
pub open spec fn hex_operand(t: Seq<char>) -> Operand {
    match radix_value(t, 16) {
        Some(v) => if v > u32::MAX {
            Operand::Malformed
        } else if is_scalar(v as u32) {
            Operand::Scalar((v as u32) as char)
        } else {
            Operand::NotScalar(v as u32)
        },
        None => Operand::Malformed,
    }
}

/// What a range expression stands for.
pub enum RangeOutcome {
    /// The range between these two characters.
    Range(char, char),
    /// This text does not parse as a number.
    BadValue(Seq<char>),
    /// This number is no Unicode scalar value.
    BadChar(int),
    /// Neither `-` nor `+` separates two parts.
    NoSeparator,
}

/// The reading of the range expression `value`: `A-B` with both ends in
/// hexadecimal, else `A+N` with `A` in hexadecimal and the offset `N` in
/// decimal.
pub open spec fn range_outcome(value: Seq<char>) -> RangeOutcome {
    if holds_char(value, '-') {
        let a = before_first(value, '-');
        let b = after_first(value, '-');
        match hex_operand(a) {
            Operand::Malformed => RangeOutcome::BadValue(a),
            Operand::NotScalar(v) => RangeOutcome::BadChar(v as int),
            Operand::Scalar(s) => match hex_operand(b) {
                Operand::Malformed => RangeOutcome::BadValue(b),
                Operand::NotScalar(v) => RangeOutcome::BadChar(v as int),
                Operand::Scalar(e) => RangeOutcome::Range(s, e),
            },
        }
    } else if holds_char(value, '+') {
        let a = before_first(value, '+');
        let b = after_first(value, '+');
        match hex_operand(a) {
            Operand::Malformed => RangeOutcome::BadValue(a),
            Operand::NotScalar(v) => RangeOutcome::BadChar(v as int),
            Operand::Scalar(s) => match radix_value(b, 10) {
                Some(off) => if off > u32::MAX {
                    RangeOutcome::BadValue(value)
                } else {
                    let end = (s as u32) + off;
                    if end <= u32::MAX && is_scalar(end as u32) {
                        RangeOutcome::Range(s, (end as u32) as char)
                    } else {
                        RangeOutcome::BadChar(end)
                    }
                },
                None => RangeOutcome::BadValue(value),
            },
        }
    } else {
        RangeOutcome::NoSeparator
    }
}

/// True when `r` is what `parse_range` owes for the value `value`.
pub open spec fn reports_range(r: Result<(char, char), RangeError>, value: Seq<char>) -> bool {
    match range_outcome(value) {
        RangeOutcome::Range(s, e) => r == Ok::<(char, char), RangeError>((s, e)),
        RangeOutcome::BadValue(t) => r matches Err(RangeError::InvalidValue(u, _)) && u@ == t,
        RangeOutcome::BadChar(v) => r matches Err(RangeError::InvalidChar(x)) && x == v,
        RangeOutcome::NoSeparator => r matches Err(RangeError::InvalidRange(u)) && u@ == value,
    }
}

/// Reads a hexadecimal code point operand.
fn hex_char(t: &str) -> (r: Result<char, RangeError>)
    ensures
        match hex_operand(t@) {
            Operand::Malformed => r matches Err(RangeError::InvalidValue(u, _)) && u@ == t@,
            Operand::NotScalar(v) => r matches Err(RangeError::InvalidChar(x)) && x == v,
            Operand::Scalar(c) => r == Ok::<char, RangeError>(c),
        },
{
    match parse_u32(t, 16) {
        Err(e) => Err(RangeError::InvalidValue(t.to_owned(), e)),
        Ok(v) => match char_from_u32(v) {
            Some(c) => {
                proof {
                    char_u32_cast(c, v);
                }
                Ok(c)
            },
            None => Err(RangeError::InvalidChar(v as u64)),
        },
    }
}

/// Reads a range expression: `A-B`, the code points from `A` to `B`, or
/// `A+N`, the code points from `A` to `A` plus `N`. Code points are in
/// hexadecimal and the offset is in decimal. Where the value holds both `-`
/// and `+`, its first `-` splits it.
pub fn parse_range(value: &str) -> (r: Result<(char, char), RangeError>)
    ensures
        reports_range(r, value@),
{
    if let Some((start, end)) = split_once_char(value, '-') {
        proof {
            lemma_split_first(value@, '-', start@, end@);
        }
        let s = match hex_char(start) {
            Ok(c) => c,
            Err(e) => return Err(e),
        };
        let e = match hex_char(end) {
            Ok(c) => c,
            Err(e) => return Err(e),
        };
        return Ok((s, e));
    }
    if let Some((start, end)) = split_once_char(value, '+') {
        proof {
            lemma_split_first(value@, '+', start@, end@);
        }
        let s = match hex_char(start) {
            Ok(c) => c,
            Err(e) => return Err(e),
        };
        let offset = match parse_u32(end, 10) {
            Ok(v) => v,
            Err(e) => return Err(RangeError::InvalidValue(value.to_owned(), e)),
        };
        let sum: u64 = s as u64 + offset as u64;
        if sum > u32::MAX as u64 {
            return Err(RangeError::InvalidChar(sum));
        }
        return match char_from_u32(sum as u32) {
            Some(c) => {
                proof {
                    char_u32_cast(c, sum as u32);
                }
                Ok((s, c))
            },
            None => Err(RangeError::InvalidChar(sum)),
        };
    }
    Err(RangeError::InvalidRange(value.to_owned()))
}

/// The two forms of a range agree: `A-B` and `A+N` give the same range when
/// `N` is, in decimal, the distance from `A` to `B`.
pub proof fn lemma_range_forms_agree(a: Seq<char>, b: Seq<char>, n: Seq<char>)
    requires
        !holds_char(a, '-'),
        !holds_char(a, '+'),
        !holds_char(n, '-'),
        hex_operand(a) is Scalar,
        hex_operand(b) is Scalar,
        (hex_operand(a)->Scalar_0 as u32) <= (hex_operand(b)->Scalar_0 as u32),
        radix_value(n, 10) == Some(
            ((hex_operand(b)->Scalar_0 as u32) - (hex_operand(a)->Scalar_0 as u32)) as nat,
        ),
    ensures
        range_outcome(a + seq!['-'] + b) == range_outcome(a + seq!['+'] + n),
        range_outcome(a + seq!['-'] + b) == RangeOutcome::Range(
            hex_operand(a)->Scalar_0,
            hex_operand(b)->Scalar_0,
        ),
{
    let dash = a + seq!['-'] + b;
    let plus = a + seq!['+'] + n;
    let e = hex_operand(b)->Scalar_0;
    assert(dash[a.len() as int] == '-');
    lemma_split_first(dash, '-', a, b);
    assert(!holds_char(plus, '-')) by {
        if holds_char(plus, '-') {
            let i = choose|i: int| 0 <= i < plus.len() && plus[i] == '-';
            if i < a.len() {
                assert(a[i] == '-');
            } else if i > a.len() {
                assert(n[i - a.len() - 1] == '-');
            }
        }
    }
    assert(plus[a.len() as int] == '+');
    lemma_split_first(plus, '+', a, n);
    char_u32_cast(e, e as u32);
    vstd::utf8::char_is_scalar(e);
}

#[verifier::external_type_specification]
#[verifier::external_body]
pub struct ExParser(lexopt::Parser);

#[verifier::external_type_specification]
#[verifier::external_body]
pub struct ExLexoptError(lexopt::Error);

/// One argument as the command line splits it.
pub enum Arg {
    /// A short option such as `-r`.
    Short(char),
    /// A long option such as `--range`, without its dashes.
    Long(String),
    /// A bare value.
    Value(String),
}

/// What an argument asks for.
pub enum ArgAction {
    /// Stop and show the help.
    Help,
    /// Read a range from the next value.
    Range,
    /// Look for this text in names.
    Pattern,
    /// Refuse the argument.
    Reject,
}

/// The action that `arg` asks for: `-h` or `--help` asks for help, `-r` or
/// `--range` for a range, a bare value for a name pattern; any other option
/// is refused.
pub open spec fn action_of(arg: Arg) -> ArgAction {
    match arg {
        Arg::Short(c) => if c == 'h' {
            ArgAction::Help
        } else if c == 'r' {
            ArgAction::Range
        } else {
            ArgAction::Reject
        },
        Arg::Long(s) => if s@ == "help"@ {
            ArgAction::Help
        } else if s@ == "range"@ {
            ArgAction::Range
        } else {
            ArgAction::Reject
        },
        Arg::Value(_) => ArgAction::Pattern,
    }
}

/// The action that `arg` asks for.
pub fn action_for(arg: &Arg) -> (r: ArgAction)
    ensures
        r == action_of(*arg),
{
    match arg {
        Arg::Short(c) => if *c == 'h' {
            ArgAction::Help
        } else if *c == 'r' {
            ArgAction::Range
        } else {
            ArgAction::Reject
        },
        Arg::Long(s) => {
            let help = "help".to_owned();
            let range = "range".to_owned();
            proof {
                reveal_strlit("help");
                reveal_strlit("range");
            }
            if *s == help {
                ArgAction::Help
            } else if *s == range {
                ArgAction::Range
            } else {
                ArgAction::Reject
            }
        },
        Arg::Value(_) => ArgAction::Pattern,
    }
}

/// The filter for a bare value: its upper-case form, to be found in names.
pub fn name_filter(value: &str) -> (f: Filter)
    ensures
        f matches Filter::Name(p) && p@ == upper_of(value@),
{
    Filter::Name(uppercase(value))
}

/// The filter for the value of a range option.
pub fn range_filter(value: &str) -> (r: Result<Filter, RangeError>)
    ensures
        match range_outcome(value@) {
            RangeOutcome::Range(s, e) => r matches Ok(Filter::Range(x, y)) && x == s && y == e,
            RangeOutcome::BadValue(t) => r matches Err(RangeError::InvalidValue(u, _)) && u@ == t,
            RangeOutcome::BadChar(v) => r matches Err(RangeError::InvalidChar(x)) && x == v,
            RangeOutcome::NoSeparator => r matches Err(RangeError::InvalidRange(u)) && u@ == value@,
        },
{
    match parse_range(value) {
        Ok((s, e)) => Ok(Filter::Range(s, e)),
        Err(e) => Err(e),
    }
}

/// Why the arguments were refused.
pub enum ArgsError {
    /// The command line could not be split into arguments.
    Parser(lexopt::Error),
    /// The value of a range option, and why it is no range.
    InvalidRange(String, RangeError),
    /// An option that the query does not know.
    Unexpected(Arg),
}

/// How much a parser has still to read: the bytes of the argument it is
/// inside, plus, for each argument it has not started, one more than its
/// bytes. A parser over the process's arguments or over a list has such a
/// count.
pub uninterp spec fn args_left(p: lexopt::Parser) -> nat;

/// An argument as lexopt hands it out, or the end of the arguments, or a
/// failure to read one.
pub enum Token {
    Short(char),
    Long(Seq<char>),
    Value(Seq<char>),
    End,
    Failed,
}

/// The token of an argument.
pub open spec fn arg_token(a: Arg) -> Token {
    match a {
        Arg::Short(c) => Token::Short(c),
        Arg::Long(s) => Token::Long(s@),
        Arg::Value(v) => Token::Value(v@),
    }
}

/// What `Parser::next` hands out from a parser in this state (a value as
/// `OsStr::to_string_lossy` gives it), and the parser after that call.
pub uninterp spec fn lex_next(p: lexopt::Parser) -> (Token, lexopt::Parser);

/// What `Parser::value` followed by `ValueExt::string` gives from a parser
/// in this state (`None` where it fails), and the parser after that call.
pub uninterp spec fn lex_value(p: lexopt::Parser) -> (Option<Seq<char>>, lexopt::Parser);

/// Relies on lexopt's `Parser::next`, whose result and next state depend on
/// the parser's state alone: the next argument, if any. A value is turned
/// into text as `OsStr::to_string_lossy` does. Each argument handed out uses
/// up at least one byte of what is left.
#[verifier::external_body]
fn next_arg(parser: &mut lexopt::Parser) -> (r: Result<Option<Arg>, lexopt::Error>)
    ensures
        match lex_next(*old(parser)).0 {
            Token::End => r matches Ok(None),
            Token::Failed => r is Err,
            t => r matches Ok(Some(a)) && arg_token(a) == t,
        },
        *final(parser) == lex_next(*old(parser)).1,
        r matches Ok(Some(_)) ==> args_left(*final(parser)) < args_left(*old(parser)),
{
    match parser.next() {
        Ok(Some(lexopt::Arg::Short(c))) => Ok(Some(Arg::Short(c))),
        Ok(Some(lexopt::Arg::Long(s))) => Ok(Some(Arg::Long(s.to_owned()))),
        Ok(Some(lexopt::Arg::Value(v))) => Ok(Some(Arg::Value(v.to_string_lossy().into_owned()))),
        Ok(None) => Ok(None),
        Err(e) => Err(e),
    }
}

/// Relies on lexopt's `Parser::value` and `ValueExt::string`, whose result
/// and next state depend on the parser's state alone: the value of the
/// option just read, which must be valid Unicode.
#[verifier::external_body]
fn next_value(parser: &mut lexopt::Parser) -> (r: Result<String, lexopt::Error>)
    ensures
        match lex_value(*old(parser)).0 {
            None => r is Err,
            Some(v) => r matches Ok(s) && s@ == v,
        },
        *final(parser) == lex_value(*old(parser)).1,
        r is Ok ==> args_left(*final(parser)) <= args_left(*old(parser)),
{
    parser.value().and_then(lexopt::ValueExt::string)
}

/// A filter as its contents.
pub enum FilterView {
    Name(Seq<char>),
    Range(char, char),
}

/// The contents of a filter.
pub open spec fn filter_view(f: Filter) -> FilterView {
    match f {
        Filter::Name(p) => FilterView::Name(p@),
        Filter::Range(s, e) => FilterView::Range(s, e),
    }
}

/// The contents of a list of filters.
pub open spec fn filter_views(v: Seq<Filter>) -> Seq<FilterView> {
    v.map_values(|f: Filter| filter_view(f))
}

/// What reading the arguments comes to.
pub enum ArgsOutcome {
    /// These filters; empty where help was asked for or there were no arguments.
    Filters(Seq<FilterView>),
    /// lexopt could not read an argument or the value of a range option.
    ParserError,
    /// The value of a range option that is no range.
    BadRange(Seq<char>),
    /// An option that the query does not know.
    Unexpected(Token),
    /// More arguments than `steps` allowed; never the case with enough steps.
    OutOfSteps,
}

/// The outcome of reading the arguments from a parser in state `p`, having
/// read the filters `read`, within `steps` more filters: help gives no
/// filters, a bare value adds its upper-case form as a name, a range option
/// adds the range of its value, anything else fails.
pub open spec fn args_outcome(p: lexopt::Parser, read: Seq<FilterView>, steps: nat) -> ArgsOutcome
    decreases steps, 1nat,
{
    let t = lex_next(p).0;
    let after = lex_next(p).1;
    match t {
        Token::End => ArgsOutcome::Filters(read),
        Token::Failed => ArgsOutcome::ParserError,
        Token::Short(c) => if c == 'h' {
            ArgsOutcome::Filters(seq![])
        } else if c == 'r' {
            range_step(after, read, steps)
        } else {
            ArgsOutcome::Unexpected(t)
        },
        Token::Long(s) => if s == "help"@ {
            ArgsOutcome::Filters(seq![])
        } else if s == "range"@ {
            range_step(after, read, steps)
        } else {
            ArgsOutcome::Unexpected(t)
        },
        Token::Value(v) => if steps == 0 {
            ArgsOutcome::OutOfSteps
        } else {
            args_outcome(after, read.push(FilterView::Name(upper_of(v))), (steps - 1) as nat)
        },
    }
}

/// The outcome after a range option, from the parser state `p` that holds
/// its value.
pub open spec fn range_step(p: lexopt::Parser, read: Seq<FilterView>, steps: nat) -> ArgsOutcome
    decreases steps, 0nat,
{
    match lex_value(p).0 {
        None => ArgsOutcome::ParserError,
        Some(v) => match range_outcome(v) {
            RangeOutcome::Range(s, e) => if steps == 0 {
                ArgsOutcome::OutOfSteps
            } else {
                args_outcome(lex_value(p).1, read.push(FilterView::Range(s, e)), (steps - 1) as nat)
            },
            _ => ArgsOutcome::BadRange(v),
        },
    }
}

/// True when `r` is what `parse_args` owes for the outcome `o`.
pub open spec fn reports_args(r: Result<Vec<Filter>, ArgsError>, o: ArgsOutcome) -> bool {
    match o {
        ArgsOutcome::Filters(fs) => r matches Ok(v) && filter_views(v@) == fs,
        ArgsOutcome::ParserError => r matches Err(ArgsError::Parser(_)),
        ArgsOutcome::BadRange(v) => r matches Err(ArgsError::InvalidRange(s, e)) && s@ == v
            && reports_range(Err(e), v),
        ArgsOutcome::Unexpected(t) => r matches Err(ArgsError::Unexpected(a)) && arg_token(a) == t,
        ArgsOutcome::OutOfSteps => false,
    }
}

/// Reads the filters of a query from the arguments. `-h` or `--help` gives
/// an empty list, which asks for help, and ends the reading; so does a
/// command line without arguments. A bare value gives a name filter of its
/// upper-case form, `-r` or `--range` the range filter of its value, in the
/// order of the arguments.
pub fn parse_args(parser: &mut lexopt::Parser) -> (r: Result<Vec<Filter>, ArgsError>)
    ensures
        reports_args(r, args_outcome(*old(parser), seq![], args_left(*old(parser)))),
{
    let mut filters: Vec<Filter> = Vec::new();
    let ghost start = *parser;
    let ghost mut steps: nat = args_left(*parser);
    proof {
        assert(filter_views(filters@) =~= seq![]);
    }
    loop
        invariant
            start == *old(parser),
            args_outcome(start, seq![], args_left(start)) == args_outcome(
                *parser,
                filter_views(filters@),
                steps,
            ),
            steps >= args_left(*parser),
        decreases args_left(*parser),
    {
        proof {
            reveal_strlit("help");
            reveal_strlit("range");
        }
        let ghost cur = *parser;
        let arg = match next_arg(parser) {
            Ok(Some(a)) => a,
            Ok(None) => {
                assert(lex_next(cur).0 is End);
                assert(args_outcome(cur, filter_views(filters@), steps) == ArgsOutcome::Filters(
                    filter_views(filters@),
                ));
                assert(start == *old(parser));
                return Ok(filters);
            },
            Err(e) => {
                assert(lex_next(cur).0 is Failed);
                return Err(ArgsError::Parser(e));
            },
        };
        match action_for(&arg) {
            ArgAction::Help => {
                let empty: Vec<Filter> = Vec::new();
                assert(filter_views(empty@) =~= seq![]);
                return Ok(empty);
            },
            ArgAction::Range => {
                let ghost after = *parser;
                assert(args_outcome(cur, filter_views(filters@), steps) == range_step(
                    after,
                    filter_views(filters@),
                    steps,
                ));
                let value = match next_value(parser) {
                    Ok(v) => v,
                    Err(e) => {
                        assert(lex_value(after).0 is None);
                        return Err(ArgsError::Parser(e));
                    },
                };
                assert(lex_value(after).0 == Some(value@));
                match range_filter(value.as_str()) {
                    Ok(f) => {
                        proof {
                            assert(filter_views(filters@.push(f)) =~= filter_views(filters@).push(
                                filter_view(f),
                            ));
                            steps = (steps - 1) as nat;
                        }
                        filters.push(f);
                    },
                    Err(e) => return Err(ArgsError::InvalidRange(value, e)),
                }
            },
            ArgAction::Pattern => {
                if let Arg::Value(v) = &arg {
                    let f = name_filter(v.as_str());
                    proof {
                        assert(filter_views(filters@.push(f)) =~= filter_views(filters@).push(
                            filter_view(f),
                        ));
                        steps = (steps - 1) as nat;
                    }
                    filters.push(f);
                }
            },
            ArgAction::Reject => return Err(ArgsError::Unexpected(arg)),
        }
    }
}

} // verus!
