use unicode_names::filters::{
    action_for, matches_all, parse_args, parse_range, Arg, ArgAction, ArgsError, Filter,
    RangeError,
};

#[test]
fn range_matches_inclusive_bounds() {
    let f = Filter::Range('B', 'D');
    assert!(!f.matches('A', "ANY"));
    assert!(f.matches('B', "ANY"));
    assert!(f.matches('C', ""));
    assert!(f.matches('D', "ANY"));
    assert!(!f.matches('E', "ANY"));
    let single = Filter::Range('x', 'x');
    assert!(single.matches('x', ""));
    let empty = Filter::Range('z', 'a');
    assert!(!empty.matches('m', ""));
}

#[test]
fn name_matches_substring() {
    let f = Filter::Name("ALPHA".to_string());
    assert!(f.matches('α', "GREEK SMALL LETTER ALPHA"));
    assert!(f.matches('α', "ALPHA"));
    assert!(!f.matches('β', "GREEK SMALL LETTER BETA"));
    assert!(!f.matches('α', "greek small letter alpha"));
    assert!(Filter::Name(String::new()).matches('a', ""));
}

#[test]
fn all_filters_must_match() {
    let filters = vec![Filter::Name("LETTER".to_string()), Filter::Range('A', 'Z')];
    assert!(matches_all(&filters, 'A', "LATIN CAPITAL LETTER A"));
    assert!(!matches_all(&filters, 'α', "GREEK SMALL LETTER ALPHA"));
    assert!(!matches_all(&filters, '1', "DIGIT ONE"));
    assert!(matches_all(&Vec::new(), '1', "DIGIT ONE"));
}

#[test]
fn range_with_dash() {
    assert!(matches!(parse_range("48-4B"), Ok(('\u{48}', '\u{4B}'))));
    assert!(matches!(parse_range("1F600-1F64F"), Ok(('\u{1F600}', '\u{1F64F}'))));
    assert!(matches!(parse_range("+41-+42"), Ok(('A', 'B'))));
}

#[test]
fn range_with_offset() {
    assert!(matches!(parse_range("48+3"), Ok(('\u{48}', '\u{4B}'))));
    assert!(matches!(parse_range("41+0"), Ok(('A', 'A'))));
    assert!(matches!(parse_range("0+10"), Ok(('\u{0}', '\u{A}'))));
}

#[test]
fn both_range_forms_agree() {
    let a = parse_range("48-4B").ok().unwrap();
    let b = parse_range("48+3").ok().unwrap();
    assert_eq!(a, b);
}

#[test]
fn range_bad_start_names_token() {
    match parse_range("zz-11") {
        Err(RangeError::InvalidValue(token, _)) => assert_eq!(token, "zz"),
        _ => panic!("expected an invalid value"),
    }
}

#[test]
fn range_bad_end_names_token() {
    match parse_range("41-qq") {
        Err(RangeError::InvalidValue(token, _)) => assert_eq!(token, "qq"),
        _ => panic!("expected an invalid value"),
    }
    match parse_range("41-") {
        Err(RangeError::InvalidValue(token, _)) => assert_eq!(token, ""),
        _ => panic!("expected an invalid value"),
    }
}

#[test]
fn range_bad_offset_names_whole_value() {
    match parse_range("41+x") {
        Err(RangeError::InvalidValue(token, _)) => assert_eq!(token, "41+x"),
        _ => panic!("expected an invalid value"),
    }
    match parse_range("41+4294967296") {
        Err(RangeError::InvalidValue(token, _)) => assert_eq!(token, "41+4294967296"),
        _ => panic!("expected an invalid value"),
    }
}

#[test]
fn range_surrogate_is_invalid_char() {
    assert!(matches!(parse_range("D800-D8FF"), Err(RangeError::InvalidChar(0xD800))));
    assert!(matches!(parse_range("41-110000"), Err(RangeError::InvalidChar(0x110000))));
    assert!(matches!(parse_range("D7FF+1"), Err(RangeError::InvalidChar(0xD800))));
}

#[test]
fn range_offset_overflow_is_invalid_char() {
    assert!(matches!(
        parse_range("10FFFF+4294967295"),
        Err(RangeError::InvalidChar(0x1_0010_FFFE))
    ));
}

#[test]
fn range_without_separator() {
    match parse_range("4142") {
        Err(RangeError::InvalidRange(v)) => assert_eq!(v, "4142"),
        _ => panic!("expected an invalid range"),
    }
}

#[test]
fn range_dash_split_comes_first() {
    match parse_range("41+1-42") {
        Err(RangeError::InvalidValue(token, _)) => assert_eq!(token, "41+1"),
        _ => panic!("the first dash splits the value"),
    }
    assert!(matches!(parse_range("41-+42"), Ok(('A', 'B'))));
}

#[test]
fn actions_of_arguments() {
    assert!(matches!(action_for(&Arg::Short('h')), ArgAction::Help));
    assert!(matches!(action_for(&Arg::Long("help".to_string())), ArgAction::Help));
    assert!(matches!(action_for(&Arg::Short('r')), ArgAction::Range));
    assert!(matches!(action_for(&Arg::Long("range".to_string())), ArgAction::Range));
    assert!(matches!(action_for(&Arg::Value("-r".to_string())), ArgAction::Pattern));
    assert!(matches!(action_for(&Arg::Short('x')), ArgAction::Reject));
    assert!(matches!(action_for(&Arg::Long("helpme".to_string())), ArgAction::Reject));
}

#[test]
fn help_gives_empty_filters() {
    let f = parse_args(&mut lexopt::Parser::from_args(["ALPHA", "-h", "-r", "zz"])).ok().unwrap();
    assert!(f.is_empty());
    let f = parse_args(&mut lexopt::Parser::from_args(["--help"])).ok().unwrap();
    assert!(f.is_empty());
    let none: [&str; 0] = [];
    let f = parse_args(&mut lexopt::Parser::from_args(none)).ok().unwrap();
    assert!(f.is_empty());
}

#[test]
fn arguments_become_filters() {
    let f = parse_args(&mut lexopt::Parser::from_args(["beta", "--range", "41+2", "-r=61-7A"]))
        .ok()
        .unwrap();
    assert_eq!(f.len(), 3);
    assert!(matches!(&f[0], Filter::Name(p) if p == "BETA"));
    assert!(matches!(f[1], Filter::Range('A', 'C')));
    assert!(matches!(f[2], Filter::Range('a', 'z')));
    let f = parse_args(&mut lexopt::Parser::from_args(["--range=41-42"])).ok().unwrap();
    assert!(matches!(f[0], Filter::Range('A', 'B')));
}

#[test]
fn argument_errors() {
    match parse_args(&mut lexopt::Parser::from_args(["-r", "zz-11"])) {
        Err(ArgsError::InvalidRange(value, RangeError::InvalidValue(token, _))) => {
            assert_eq!(value, "zz-11");
            assert_eq!(token, "zz");
        }
        _ => panic!("expected an invalid range"),
    }
    assert!(matches!(
        parse_args(&mut lexopt::Parser::from_args(["-x"])),
        Err(ArgsError::Unexpected(Arg::Short('x')))
    ));
    match parse_args(&mut lexopt::Parser::from_args(["--frobnicate"])) {
        Err(ArgsError::Unexpected(Arg::Long(s))) => assert_eq!(s, "frobnicate"),
        _ => panic!("expected an unexpected option"),
    }
    assert!(matches!(
        parse_args(&mut lexopt::Parser::from_args(["-r"])),
        Err(ArgsError::Parser(lexopt::Error::MissingValue { .. }))
    ));
}

#[test]
fn help_discards_and_stops() {
    for args in [vec!["foo", "-h"], vec!["-r", "41-5A", "--help"], vec!["-h", "--bogus"]] {
        let f = parse_args(&mut lexopt::Parser::from_args(args)).ok().unwrap();
        assert!(f.is_empty());
    }
}

#[test]
fn filters_follow_argument_order() {
    let f = parse_args(&mut lexopt::Parser::from_args(["alpha", "-r", "41-5A", "greek"]))
        .ok()
        .unwrap();
    assert_eq!(f.len(), 3);
    assert!(matches!(&f[0], Filter::Name(p) if p == "ALPHA"));
    assert!(matches!(f[1], Filter::Range('A', 'Z')));
    assert!(matches!(&f[2], Filter::Name(p) if p == "GREEK"));
    for args in [vec!["-r", "41-5A"], vec!["--range", "41-5A"], vec!["--range=41-5A"]] {
        let f = parse_args(&mut lexopt::Parser::from_args(args)).ok().unwrap();
        assert_eq!(f.len(), 1);
        assert!(matches!(f[0], Filter::Range('A', 'Z')));
    }
}
