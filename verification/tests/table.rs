use unicode_id_trie_rle::{
    CompactTable, PropertyRange, Run, build_raw_table, build_runs, expand_runs,
    unicode_identifier_class,
};

fn range(start: u32, end: u32, name: &str) -> PropertyRange {
    PropertyRange { start, end, name: name.as_bytes().to_vec() }
}

/// Property assignments that agree with the fixed ASCII rules below
/// 0x80 and mark a few scattered ranges above it, the way the Unicode
/// data clusters.
fn sample_ranges() -> Vec<PropertyRange> {
    vec![
        range(0x41, 0x5A, "XID_Start"),
        range(0x41, 0x5A, "XID_Continue"),
        range(0x61, 0x7A, "XID_Start"),
        range(0x61, 0x7A, "XID_Continue"),
        range(0x30, 0x39, "XID_Continue"),
        range(0x5F, 0x5F, "XID_Continue"),
        range(0x100, 0x2FF, "XID_Start"),
        range(0x100, 0x36F, "XID_Continue"),
        range(0x4E00, 0x9FFF, "XID_Start"),
        range(0x4E00, 0x9FFF, "XID_Continue"),
        range(0x10000, 0x1000F, "XID_Start"),
        range(0x10000, 0x1000F, "XID_Continue"),
        range(0xE0100, 0xE01EF, "XID_Continue"),
        range(0x2000, 0x2FFF, "Alphabetic"),
    ]
}

fn expected_bits(ranges: &[PropertyRange], cp: u32) -> u8 {
    if cp >= 0x100000 {
        return 0;
    }
    let mut bits = 0u8;
    for r in ranges {
        if r.start <= cp && cp <= r.end {
            if r.name == b"XID_Start" {
                bits |= 1;
            }
            if r.name == b"XID_Continue" {
                bits |= 2;
            }
        }
    }
    bits
}

#[test]
fn classify_matches_property_assignments() {
    let ranges = sample_ranges();
    let raw = build_raw_table(&ranges);
    let table = CompactTable::build(&raw);
    for cp in 0..=0x10FFFFu32 {
        let Some(ch) = char::from_u32(cp) else {
            continue;
        };
        let expected = expected_bits(&ranges, cp);
        let class = unicode_identifier_class(&table, ch);
        assert_eq!(class.is_start(), expected & 1 != 0, "start mismatch at U+{cp:04X}");
        assert_eq!(class.is_continue(), expected & 2 != 0, "continue mismatch at U+{cp:04X}");
    }
}

#[test]
fn codepoints_at_and_above_the_covered_limit_are_bare() {
    // A property range that runs past the covered maximum is clipped
    // there: the table answers only for codepoints it covers.
    let ranges = vec![range(0xFFF00, 0x10FFFF, "XID_Start")];
    let raw = build_raw_table(&ranges);
    let table = CompactTable::build(&raw);
    assert!(unicode_identifier_class(&table, '\u{FFFFF}').is_start());
    assert!(!unicode_identifier_class(&table, '\u{100000}').is_start());
    assert!(!unicode_identifier_class(&table, '\u{10FFFF}').is_start());
    assert!(!unicode_identifier_class(&table, '\u{10FFFF}').is_continue());
}

#[test]
fn ascii_fast_path_agrees_with_general_path() {
    let ranges = sample_ranges();
    let raw = build_raw_table(&ranges);
    let table = CompactTable::build(&raw);
    for cp in 0..0x80u32 {
        let ch = char::from_u32(cp).unwrap();
        let class = unicode_identifier_class(&table, ch);
        let general = table.general_class(cp);
        assert_eq!(class.is_start(), general & 1 != 0, "start path mismatch at U+{cp:02X}");
        assert_eq!(class.is_continue(), general & 2 != 0, "continue path mismatch at U+{cp:02X}");
    }
}

#[test]
fn ascii_fast_table_is_fixed() {
    // The ASCII table is populated from the fixed rules, independently
    // of the property source.
    let ranges: Vec<PropertyRange> = Vec::new();
    let raw = build_raw_table(&ranges);
    let table = CompactTable::build(&raw);
    for cp in 0..0x80u32 {
        let ch = char::from_u32(cp).unwrap();
        let class = unicode_identifier_class(&table, ch);
        let letter = (0x41..=0x5A).contains(&cp) || (0x61..=0x7A).contains(&cp);
        let digit_or_underscore = (0x30..=0x39).contains(&cp) || cp == 0x5F;
        assert_eq!(class.is_start(), letter);
        assert_eq!(class.is_continue(), letter || digit_or_underscore);
    }
}

#[test]
fn run_sequence_round_trips_to_the_raw_table() {
    let ranges = sample_ranges();
    let raw = build_raw_table(&ranges);
    let runs = build_runs(&raw, 0);
    let vals = expand_runs(&runs, 0);
    assert_eq!(vals.len(), 0x100000);
    for cp in 0..0x100000u32 {
        assert_eq!(vals[cp as usize], raw.value(cp), "round-trip mismatch at U+{cp:04X}");
    }
}

#[test]
fn run_sequence_from_an_offset_round_trips() {
    let ranges = sample_ranges();
    let raw = build_raw_table(&ranges);
    let runs = build_runs(&raw, 0x80);
    assert_eq!(runs[0].start, 0x80);
    let last: Run = *runs.last().unwrap();
    assert_eq!(last.start, 0x100000);
    assert_eq!(last.value, 0);
    let vals = expand_runs(&runs, 0x80);
    assert_eq!(vals.len(), 0x100000 - 0x80);
    for cp in 0x80..0x100000u32 {
        assert_eq!(vals[(cp - 0x80) as usize], raw.value(cp));
    }
}

#[test]
fn runs_are_maximal_and_ascending() {
    let ranges = sample_ranges();
    let raw = build_raw_table(&ranges);
    let runs = build_runs(&raw, 0);
    for w in runs.windows(2) {
        assert!(w[0].start < w[1].start);
    }
    for w in runs[..runs.len() - 1].windows(2) {
        assert_ne!(w[0].value, w[1].value, "non-maximal run at U+{:04X}", w[1].start);
    }
}

#[test]
fn raw_table_merges_bits_from_separate_ranges() {
    let ranges = vec![
        range(0x500, 0x50F, "XID_Start"),
        range(0x508, 0x51F, "XID_Continue"),
    ];
    let raw = build_raw_table(&ranges);
    assert_eq!(raw.value(0x500), 1);
    assert_eq!(raw.value(0x508), 3);
    assert_eq!(raw.value(0x510), 2);
    assert_eq!(raw.value(0x520), 0);
}

#[test]
fn only_the_exact_xid_names_count() {
    // The classification keys on the XID properties; other property
    // names, including the plain ID pair, do not mark codepoints.
    let ranges = vec![
        range(0x500, 0x50F, "ID_Start"),
        range(0x510, 0x51F, "Alphabetic"),
    ];
    let raw = build_raw_table(&ranges);
    let table = CompactTable::build(&raw);
    assert!(!unicode_identifier_class(&table, '\u{505}').is_start());
    assert!(!unicode_identifier_class(&table, '\u{515}').is_start());
    assert!(!unicode_identifier_class(&table, '\u{515}').is_continue());
}
