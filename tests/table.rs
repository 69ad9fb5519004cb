use std::collections::HashSet;
use std::io::Write;

use unicode_names::builder::{build_table, encode_listing, BuildError};
use unicode_names::filters::{Filter, name_filter, parse_args};
use unicode_names::format::decode_payload;
use unicode_names::table::Table;

fn listing(lines: &[&str]) -> Vec<String> {
    lines.iter().map(|l| l.to_string()).collect()
}

fn leak(data: Vec<u8>) -> &'static [u8] {
    Box::leak(data.into_boxed_slice())
}

fn compress(bytes: &[u8]) -> Vec<u8> {
    let mut e = flate2::write::ZlibEncoder::new(Vec::new(), flate2::Compression::best());
    e.write_all(bytes).unwrap();
    e.finish().unwrap()
}

fn all_entries(mut t: Table) -> Vec<(char, String)> {
    let mut out = Vec::new();
    while let Some(e) = t.next() {
        out.push(e);
    }
    out
}

fn greek_table() -> &'static [u8] {
    let lines = listing(&[
        "0041;LATIN CAPITAL LETTER A;Lu;0;L;;;;;N;;;;0061;",
        "0391;GREEK CAPITAL LETTER ALPHA;Lu;0;L;;;;;N;;;;03B1;",
        "03B1;GREEK SMALL LETTER ALPHA;Ll;0;L;;;;;N;;;0391;;0391",
        "D800;<Non Private Use High Surrogate, First>;Cs;0;L;;;;;N;;;;;",
        "1FB1;GREEK SMALL LETTER ALPHA WITH MACRON;Ll;0;L;03B1 0304;;;;N;;;1FB9;;1FB9",
        "1FB4;GREEK SMALL LETTER ALPHA WITH OXIA AND YPOGEGRAMMENI;Ll;0;L;03AC 0345;;;;N;;;;;",
    ]);
    match build_table(&lines) {
        Ok(data) => leak(data),
        Err(_) => panic!("the listing is well formed"),
    }
}

#[test]
fn extract_alpha_chars() {
    let mut expected = HashSet::new();
    for c in "αΑᾱᾴ".chars() {
        expected.insert(c);
    }

    let mut table = Table::new(greek_table());
    while let Some((c, _)) = table.next() {
        expected.remove(&c);
    }

    assert_eq!(expected, HashSet::new());
}

#[test]
fn builder_entries_read_back_in_order() {
    let entries = all_entries(Table::new(greek_table()));
    let expected = vec![
        ('A', "LATIN CAPITAL LETTER A".to_string()),
        ('Α', "GREEK CAPITAL LETTER ALPHA".to_string()),
        ('α', "GREEK SMALL LETTER ALPHA".to_string()),
        ('ᾱ', "GREEK SMALL LETTER ALPHA WITH MACRON".to_string()),
        ('ᾴ', "GREEK SMALL LETTER ALPHA WITH OXIA AND YPOGEGRAMMENI".to_string()),
    ];
    assert_eq!(entries, expected);
}

#[test]
fn lines_without_fields_are_skipped() {
    let lines = listing(&["", "no fields here", "0042;B", "0043"]);
    let data = build_table(&lines).ok().unwrap();
    assert_eq!(all_entries(Table::new(leak(data))), vec![('B', "B".to_string())]);
}

#[test]
fn length_byte_counts_character_and_name() {
    let lines = listing(&["03B1;GREEK SMALL LETTER ALPHA;Ll"]);
    let bytes = encode_listing(&lines).ok().unwrap();
    let name = "GREEK SMALL LETTER ALPHA";
    assert_eq!(bytes[0] as usize, 'α'.len_utf8() + name.len());
    assert_eq!(bytes[0], 26);
    assert_eq!(bytes.len(), 27);
    assert_eq!(&bytes[1..3], "α".as_bytes());
    assert_eq!(&bytes[3..], name.as_bytes());
}

#[test]
fn empty_listing_gives_empty_table() {
    let bytes = encode_listing(&Vec::new()).ok().unwrap();
    assert!(bytes.is_empty());
    let data = build_table(&Vec::new()).ok().unwrap();
    assert!(!data.is_empty());
    assert_eq!(all_entries(Table::new(leak(data))), vec![]);
}

#[test]
fn malformed_code_fails_the_build() {
    let lines = listing(&["0041;A", "ZZ;BAD", "0042;B"]);
    match encode_listing(&lines) {
        Err(BuildError::InvalidCode(code)) => assert_eq!(code, "ZZ"),
        _ => panic!("a malformed code point must fail"),
    }
    assert!(matches!(build_table(&lines), Err(BuildError::InvalidCode(_))));
}

#[test]
fn too_long_entry_fails_the_build() {
    let long = "X".repeat(255);
    let lines = vec![format!("0041;{}", long)];
    assert!(matches!(encode_listing(&lines), Err(BuildError::EntryTooLong('A'))));
    let fits = vec![format!("0041;{}", "X".repeat(254))];
    let bytes = encode_listing(&fits).ok().unwrap();
    assert_eq!(bytes[0], 255);
}

#[test]
fn readers_over_same_table_agree() {
    let data = greek_table();
    let first = all_entries(Table::new(data));
    let second = all_entries(Table::new(data));
    assert_eq!(first.len(), 5);
    assert_eq!(first, second);
}

#[test]
fn truncated_table_stops_before_cut_entry() {
    let mut bytes = encode_listing(&listing(&["0041;A", "0042;B"])).ok().unwrap();
    bytes.extend_from_slice(&[10, b'C', b'X']);
    let entries = all_entries(Table::new(leak(compress(&bytes))));
    assert_eq!(entries, vec![('A', "A".to_string()), ('B', "B".to_string())]);
}

#[test]
fn zero_length_byte_ends_table() {
    let mut bytes = encode_listing(&listing(&["0041;A"])).ok().unwrap();
    bytes.push(0);
    bytes.extend_from_slice(&encode_listing(&listing(&["0042;B"])).ok().unwrap());
    let entries = all_entries(Table::new(leak(compress(&bytes))));
    assert_eq!(entries, vec![('A', "A".to_string())]);
}

#[test]
fn invalid_utf8_payload_ends_table() {
    let mut bytes = encode_listing(&listing(&["0041;A"])).ok().unwrap();
    bytes.extend_from_slice(&[2, 0xff, 0xfe]);
    bytes.extend_from_slice(&encode_listing(&listing(&["0042;B"])).ok().unwrap());
    let entries = all_entries(Table::new(leak(compress(&bytes))));
    assert_eq!(entries, vec![('A', "A".to_string())]);
}

#[test]
fn corrupt_stream_yields_nothing() {
    let entries = all_entries(Table::new(b"not a zlib stream"));
    assert_eq!(entries, vec![]);
}

#[test]
fn payload_decoding() {
    assert_eq!(decode_payload("αBETA".as_bytes().to_vec()), Some(('α', "BETA".to_string())));
    assert_eq!(decode_payload(vec![b'x']), Some(('x', String::new())));
    assert_eq!(decode_payload(vec![]), None);
    assert_eq!(decode_payload(vec![0xc3]), None);
}

#[test]
fn query_by_name() {
    let mut parser = lexopt::Parser::from_args(["ALPHA"]);
    let filters = parse_args(&mut parser).ok().unwrap();
    let mut table = Table::new(greek_table());
    let mut found = Vec::new();
    while let Some((c, _)) = table.next_match(&filters) {
        found.push(c);
    }
    assert_eq!(found, vec!['Α', 'α', 'ᾱ', 'ᾴ']);
}

#[test]
fn end_to_end_two_entries() {
    let lines = listing(&["0041;LATIN CAPITAL LETTER A;Lu", "03B1;GREEK SMALL LETTER ALPHA;Ll"]);
    let data = leak(build_table(&lines).ok().unwrap());

    let filters = parse_args(&mut lexopt::Parser::from_args(["ALPHA"])).ok().unwrap();
    let mut table = Table::new(data);
    let mut found = Vec::new();
    while let Some(e) = table.next_match(&filters) {
        found.push(e);
    }
    assert_eq!(found, vec![('α', "GREEK SMALL LETTER ALPHA".to_string())]);

    let filters = parse_args(&mut lexopt::Parser::from_args(["-r", "41-5A"])).ok().unwrap();
    let mut table = Table::new(data);
    let mut found = Vec::new();
    while let Some(e) = table.next_match(&filters) {
        found.push(e);
    }
    assert_eq!(found, vec![('A', "LATIN CAPITAL LETTER A".to_string())]);
}

#[test]
fn lower_case_query_is_upper_cased() {
    match name_filter("alpha") {
        Filter::Name(p) => assert_eq!(p, "ALPHA"),
        Filter::Range(..) => panic!("a bare value gives a name filter"),
    }
    let filters = parse_args(&mut lexopt::Parser::from_args(["small", "alpha"])).ok().unwrap();
    let mut table = Table::new(greek_table());
    let mut found = Vec::new();
    while let Some((c, _)) = table.next_match(&filters) {
        found.push(c);
    }
    assert_eq!(found, vec!['α', 'ᾱ', 'ᾴ']);
}

#[test]
fn one_byte_entry_then_truncated_entry() {
    let mut t = Table::new(leak(compress(&[1u8, 0x41, 5, 0x42, 0x43])));
    assert_eq!(t.next(), Some(('A', String::new())));
    assert_eq!(t.next(), None);
    assert_eq!(t.next(), None);
}

#[test]
fn two_byte_character_then_name() {
    let mut t = Table::new(leak(compress(&[3u8, 0xCE, 0xB1, 0x41])));
    assert_eq!(t.next(), Some(('α', "A".to_string())));
    assert_eq!(t.next(), None);
}

#[test]
fn reader_stays_ended_after_none() {
    let mut bytes = encode_listing(&listing(&["0041;A"])).ok().unwrap();
    bytes.push(0);
    bytes.extend_from_slice(&encode_listing(&listing(&["0042;B"])).ok().unwrap());
    let mut t = Table::new(leak(compress(&bytes)));
    assert_eq!(t.next(), Some(('A', "A".to_string())));
    assert_eq!(t.next(), None);
    assert_eq!(t.next(), None);
    assert_eq!(t.next(), None);
}

#[test]
fn reader_made_later_starts_at_the_beginning() {
    let data = greek_table();
    let mut first = Table::new(data);
    let head = first.next();
    let second = all_entries(Table::new(data));
    let mut rest = vec![head.unwrap()];
    rest.extend(all_entries(first));
    assert_eq!(rest, second);
}
