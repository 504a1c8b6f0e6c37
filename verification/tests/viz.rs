use unicode_id_trie_rle::{Class, PropertyRange, Rgb, compute_stats, props_table, row_color_runs};

fn range(start: u32, end: u32, name: &str) -> PropertyRange {
    PropertyRange { start, end, name: name.as_bytes().to_vec() }
}

#[test]
fn hex_spells_the_palette_colors() {
    assert_eq!(Rgb { r: 0x00, g: 0x00, b: 0x00 }.hex(), "#000000");
    assert_eq!(Rgb { r: 0xFF, g: 0xB4, b: 0x00 }.hex(), "#FFB400");
    assert_eq!(Rgb { r: 0x00, g: 0x66, b: 0xFF }.hex(), "#0066FF");
    assert_eq!(Rgb { r: 0x12, g: 0xAB, b: 0xCD }.hex(), "#12ABCD");
}

#[test]
fn stats_count_each_combination_once() {
    let ranges = vec![
        range(0x10, 0x1F, "XID_Start"),
        range(0x18, 0x27, "XID_Continue"),
        range(0x30, 0x30, "XID_Start"),
        range(0x30, 0x30, "XID_Continue"),
    ];
    let stats = compute_stats(&ranges);
    assert_eq!(stats.start, 17);
    assert_eq!(stats.continue_count, 17);
    assert_eq!(stats.start_only, 8);
    assert_eq!(stats.continue_only, 8);
    assert_eq!(stats.none, 0x110000 - 25);
}

#[test]
fn props_table_marks_the_asked_bits() {
    let ranges = vec![
        range(0x200, 0x2FF, "XID_Start"),
        range(0x280, 0x37F, "XID_Continue"),
        range(0x10FFF0, 0x10FFFF, "XID_Start"),
    ];
    let table = props_table(&ranges);
    assert_eq!(table.len(), 0x110000);
    assert_eq!(table[0x1FF], 0);
    assert_eq!(table[0x200], 1);
    assert_eq!(table[0x280], 3);
    assert_eq!(table[0x300], 2);
    assert_eq!(table[0x380], 0);
    assert_eq!(table[0x10FFF5], 1);
}

#[test]
fn row_runs_tile_the_row() {
    let ranges = vec![
        range(0x100, 0x13F, "XID_Start"),
        range(0x140, 0x17F, "XID_Continue"),
    ];
    let table = props_table(&ranges);
    let runs = row_color_runs(&table, 0);
    assert_eq!(runs.len(), 4);
    assert_eq!((runs[0].class, runs[0].start_col, runs[0].end_col), (Class::Background, 0, 0x100));
    assert_eq!((runs[1].class, runs[1].start_col, runs[1].end_col), (Class::Start, 0x100, 0x140));
    assert_eq!(
        (runs[2].class, runs[2].start_col, runs[2].end_col),
        (Class::ContinueOnly, 0x140, 0x180),
    );
    assert_eq!(
        (runs[3].class, runs[3].start_col, runs[3].end_col),
        (Class::Background, 0x180, 0x400),
    );
}

#[test]
fn row_runs_prefer_start_over_continue() {
    let ranges = vec![
        range(0x400, 0x40F, "XID_Start"),
        range(0x400, 0x41F, "XID_Continue"),
    ];
    let table = props_table(&ranges);
    let runs = row_color_runs(&table, 1);
    assert_eq!(runs.len(), 3);
    assert_eq!((runs[0].class, runs[0].start_col, runs[0].end_col), (Class::Start, 0, 0x10));
    assert_eq!(
        (runs[1].class, runs[1].start_col, runs[1].end_col),
        (Class::ContinueOnly, 0x10, 0x20),
    );
    assert_eq!(
        (runs[2].class, runs[2].start_col, runs[2].end_col),
        (Class::Background, 0x20, 0x400),
    );
}

#[test]
fn an_empty_source_paints_nothing() {
    let ranges: Vec<PropertyRange> = Vec::new();
    let table = props_table(&ranges);
    for row in [0u32, 1, 63, 1087] {
        let runs = row_color_runs(&table, row);
        assert_eq!(runs.len(), 1);
        assert_eq!(runs[0].class, Class::Background);
        assert_eq!((runs[0].start_col, runs[0].end_col), (0, 1024));
    }
}
