use unicode_id_trie_rle::{Error, parse, parse_range};

#[test]
fn parse_breaks_cleanly_on_empty_input() {
    assert!(parse("".as_bytes()).unwrap().is_empty());
}

#[test]
fn parse_errors_when_missing_semicolon() {
    let contents = "  0041  # just whitespace and a comment\n0042; Valid\n";
    let err = parse(contents.as_bytes()).unwrap_err();
    assert!(matches!(err, Error::MissingDelimiter(_)));
}

#[test]
fn parse_reads_single_codepoints_and_ranges() {
    let contents = "# header comment\n\
                    \n\
                    0041..005A; XID_Start  # letters\n\
                    005F; XID_Continue\n\
                    \t 0100 .. 01FF ;  XID_Start \n";
    let ranges = parse(contents.as_bytes()).unwrap();
    assert_eq!(ranges.len(), 3);
    assert_eq!((ranges[0].start, ranges[0].end), (0x41, 0x5A));
    assert_eq!(ranges[0].name, b"XID_Start".to_vec());
    assert_eq!((ranges[1].start, ranges[1].end), (0x5F, 0x5F));
    assert_eq!(ranges[1].name, b"XID_Continue".to_vec());
    assert_eq!((ranges[2].start, ranges[2].end), (0x100, 0x1FF));
    assert_eq!(ranges[2].name, b"XID_Start".to_vec());
}

#[test]
fn parse_keeps_the_offending_line_for_a_missing_delimiter() {
    let err = parse("   0041 broken   # note\n".as_bytes()).unwrap_err();
    match err {
        Error::MissingDelimiter(line) => assert_eq!(line, b"0041 broken".to_vec()),
        other => panic!("wrong error: {other:?}"),
    }
}

#[test]
fn parse_rejects_malformed_hex() {
    let err = parse("00GG; Prop\n".as_bytes()).unwrap_err();
    assert!(matches!(err, Error::IntParseRangeError));
    let err = parse("; Prop\n".as_bytes()).unwrap_err();
    assert!(matches!(err, Error::IntParseRangeError));
    let err = parse("0041..; Prop\n".as_bytes()).unwrap_err();
    assert!(matches!(err, Error::IntParseRangeError));
}

#[test]
fn parse_rejects_oversized_hex() {
    let err = parse("100000000; Prop\n".as_bytes()).unwrap_err();
    assert!(matches!(err, Error::IntParseRangeError));
}

#[test]
fn parse_rejects_codepoints_beyond_the_scalar_range() {
    let err = parse("10FFF0..110004; Prop\n".as_bytes()).unwrap_err();
    assert!(matches!(err, Error::InvalidCodepoint));
}

#[test]
fn parse_rejects_surrogate_codepoints() {
    let err = parse("D7FF..D800; Prop\n".as_bytes()).unwrap_err();
    assert!(matches!(err, Error::InvalidCodepoint));
}

#[test]
fn parse_reports_the_first_bad_line() {
    let contents = "0041; Good\n00GG; BadHex\n0041 nosemicolon\n";
    let err = parse(contents.as_bytes()).unwrap_err();
    assert!(matches!(err, Error::IntParseRangeError));
}

#[test]
fn parse_range_reads_both_forms() {
    assert_eq!(parse_range(b"0041"), Some((0x41, 0x41)));
    assert_eq!(parse_range(b" 0041 .. 005a "), Some((0x41, 0x5A)));
    assert_eq!(parse_range(b"10FFFF"), Some((0x10FFFF, 0x10FFFF)));
    assert_eq!(parse_range(b""), None);
    assert_eq!(parse_range(b"41.."), None);
    assert_eq!(parse_range(b"..41"), None);
    assert_eq!(parse_range(b"xyz"), None);
}

#[test]
fn parse_reversed_ranges_are_kept_but_empty() {
    // A reversed range covers no codepoint: it parses, and marks
    // nothing.
    let ranges = parse("0050..0041; XID_Start\n".as_bytes()).unwrap();
    assert_eq!(ranges.len(), 1);
    assert_eq!((ranges[0].start, ranges[0].end), (0x50, 0x41));
    let raw = unicode_id_trie_rle::build_raw_table(&ranges);
    for cp in 0x40..=0x51u32 {
        assert_eq!(raw.value(cp), 0);
    }
}
