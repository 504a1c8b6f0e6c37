use unicode_id_trie_rle::{
    CompactTable, PropertyRange, build_raw_table, is_identifier, str_is_identifier,
    unicode_identifier_class,
};

fn range(start: u32, end: u32, name: &str) -> PropertyRange {
    PropertyRange { start, end, name: name.as_bytes().to_vec() }
}

/// A table over an empty property source: only the ASCII fast table
/// carries identifier characters.
fn ascii_only_table() -> CompactTable {
    let ranges: Vec<PropertyRange> = Vec::new();
    let raw = build_raw_table(&ranges);
    CompactTable::build(&raw)
}

/// A table that also marks a few non-ASCII ranges.
fn extended_table() -> CompactTable {
    let ranges = vec![
        range(0x100, 0x1FF, "XID_Start"),
        range(0x100, 0x1FF, "XID_Continue"),
        range(0x300, 0x36F, "XID_Continue"),
    ];
    let raw = build_raw_table(&ranges);
    CompactTable::build(&raw)
}

#[test]
fn empty_sequence_is_no_identifier() {
    let t = ascii_only_table();
    assert!(!is_identifier(&t, &[]));
    assert!(!str_is_identifier(&t, ""));
}

#[test]
fn ascii_identifier_is_accepted() {
    let t = ascii_only_table();
    assert!(is_identifier(&t, &['a', '1', '_']));
    assert!(str_is_identifier(&t, "a1_"));
}

#[test]
fn digit_cannot_start() {
    let t = ascii_only_table();
    assert!(!is_identifier(&t, &['1', 'a']));
    assert!(!str_is_identifier(&t, "1a"));
}

#[test]
fn joiner_in_the_middle_is_accepted() {
    let t = ascii_only_table();
    assert!(is_identifier(&t, &['a', '\u{200d}', 'b']));
    assert!(is_identifier(&t, &['a', '\u{200c}', 'b']));
    assert!(str_is_identifier(&t, "a\u{200d}b"));
}

#[test]
fn joiner_cannot_be_last() {
    let t = ascii_only_table();
    assert!(!is_identifier(&t, &['a', '\u{200d}']));
    assert!(!is_identifier(&t, &['a', '\u{200c}']));
    assert!(!str_is_identifier(&t, "a\u{200d}"));
}

#[test]
fn joiner_cannot_be_first() {
    let t = ascii_only_table();
    assert!(!is_identifier(&t, &['\u{200d}', 'a']));
}

#[test]
fn highest_codepoint_has_no_properties() {
    let t = ascii_only_table();
    let class = unicode_identifier_class(&t, '\u{10FFFF}');
    assert!(!class.is_start());
    assert!(!class.is_continue());
}

#[test]
fn non_ascii_start_and_continue() {
    let t = extended_table();
    assert!(is_identifier(&t, &['\u{100}', '\u{300}']));
    assert!(str_is_identifier(&t, "\u{100}\u{300}"));
    assert!(!is_identifier(&t, &['\u{300}', '\u{100}']));
    assert!(!is_identifier(&t, &['\u{200}']));
}

#[test]
fn string_and_sequence_forms_agree() {
    let t = extended_table();
    let cases = [
        "",
        "a",
        "9",
        "_x",
        "a1_",
        "1a",
        "a\u{200d}b",
        "a\u{200d}",
        "\u{100}\u{300}y",
        "\u{300}",
        "a b",
        "\u{10FFFF}",
    ];
    for s in cases {
        let chars: Vec<char> = s.chars().collect();
        assert_eq!(
            str_is_identifier(&t, s),
            is_identifier(&t, &chars),
            "string/sequence disagreement on {:?}",
            s
        );
    }
}
