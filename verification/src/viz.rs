use vstd::prelude::*;

verus! {

use vstd::string::StringExecFns;

use crate::class::value_is_continue;
use crate::class::value_is_start;
use crate::props::PropertyRange;
use crate::props::props_continue;
use crate::props::props_start;
use crate::raw::SCALAR_LIMIT;
use crate::raw::props_table;

/// Codepoints per visualization row.
pub const ROW_WIDTH: u32 = 1024;

/// Number of visualization rows.
pub const ROW_COUNT: u32 = 1088;

/// How the visualization paints one codepoint: `XID_Start` wins, a
/// codepoint with only `XID_Continue` is painted separately, everything
/// else is background.
#[derive(Clone, Copy, Debug, PartialEq, Eq, Structural)]
pub enum Class {
    Background,
    ContinueOnly,
    Start,
}

/// The paint class of a 2-bit classification value.
pub open spec fn class_of_value(v: u8) -> Class {
    if v & 1 != 0 {
        Class::Start
    } else if v & 2 != 0 {
        Class::ContinueOnly
    } else {
        Class::Background
    }
}

/// The character spelling one hexadecimal digit, upper case.
pub open spec fn hex_digit_char(v: u8) -> char {
    if v == 0 {
        '0'
    } else if v == 1 {
        '1'
    } else if v == 2 {
        '2'
    } else if v == 3 {
        '3'
    } else if v == 4 {
        '4'
    } else if v == 5 {
        '5'
    } else if v == 6 {
        '6'
    } else if v == 7 {
        '7'
    } else if v == 8 {
        '8'
    } else if v == 9 {
        '9'
    } else if v == 10 {
        'A'
    } else if v == 11 {
        'B'
    } else if v == 12 {
        'C'
    } else if v == 13 {
        'D'
    } else if v == 14 {
        'E'
    } else {
        'F'
    }
}

fn nibble_str(v: u8) -> (r: &'static str)
    requires
        v < 16,
    ensures
        r@ =~= seq![hex_digit_char(v)],
{
    proof {
        reveal_strlit("0");
        reveal_strlit("1");
        reveal_strlit("2");
        reveal_strlit("3");
        reveal_strlit("4");
        reveal_strlit("5");
        reveal_strlit("6");
        reveal_strlit("7");
        reveal_strlit("8");
        reveal_strlit("9");
        reveal_strlit("A");
        reveal_strlit("B");
        reveal_strlit("C");
        reveal_strlit("D");
        reveal_strlit("E");
        reveal_strlit("F");
    }
    if v == 0 {
        "0"
    } else if v == 1 {
        "1"
    } else if v == 2 {
        "2"
    } else if v == 3 {
        "3"
    } else if v == 4 {
        "4"
    } else if v == 5 {
        "5"
    } else if v == 6 {
        "6"
    } else if v == 7 {
        "7"
    } else if v == 8 {
        "8"
    } else if v == 9 {
        "9"
    } else if v == 10 {
        "A"
    } else if v == 11 {
        "B"
    } else if v == 12 {
        "C"
    } else if v == 13 {
        "D"
    } else if v == 14 {
        "E"
    } else {
        "F"
    }
}

/// An RGB color of the visualization palette.
#[derive(Clone, Copy, Debug, PartialEq, Eq, Structural)]
pub struct Rgb {
    pub r: u8,
    pub g: u8,
    pub b: u8,
}

/// The characters of a color's `#RRGGBB` spelling.
pub open spec fn spec_hex(c: Rgb) -> Seq<char> {
    seq![
        '#',
        hex_digit_char((c.r / 16) as u8),
        hex_digit_char((c.r % 16) as u8),
        hex_digit_char((c.g / 16) as u8),
        hex_digit_char((c.g % 16) as u8),
        hex_digit_char((c.b / 16) as u8),
        hex_digit_char((c.b % 16) as u8),
    ]
}

impl Rgb {
    /// Spells the color as `#RRGGBB`, upper-case hexadecimal.
    pub fn hex(self) -> (r: String)
        ensures
            r@ == spec_hex(self),
    {
        proof {
            reveal_strlit("#");
            let rr = self.r;
            let gg = self.g;
            let bb = self.b;
            assert(rr >> 4u8 == rr / 16 && rr & 15 == rr % 16 && rr / 16 < 16 && rr % 16 < 16)
                by (bit_vector);
            assert(gg >> 4u8 == gg / 16 && gg & 15 == gg % 16 && gg / 16 < 16 && gg % 16 < 16)
                by (bit_vector);
            assert(bb >> 4u8 == bb / 16 && bb & 15 == bb % 16 && bb / 16 < 16 && bb % 16 < 16)
                by (bit_vector);
        }
        let s = String::from_str("#");
        let s = s.concat(nibble_str(self.r >> 4));
        let s = s.concat(nibble_str(self.r & 15));
        let s = s.concat(nibble_str(self.g >> 4));
        let s = s.concat(nibble_str(self.g & 15));
        let s = s.concat(nibble_str(self.b >> 4));
        let s = s.concat(nibble_str(self.b & 15));
        proof {
            assert(s@ =~= spec_hex(self));
        }
        s
    }
}

/// The paint class of one pixel: the codepoint at column `c` of row
/// `row`, 1024 codepoints per row.
pub open spec fn pixel_class(table: Seq<u8>, row: int, c: int) -> Class {
    class_of_value(table[row * 1024 + c])
}

/// One painted horizontal segment of a visualization row.
#[derive(Clone, Copy, Debug, PartialEq, Eq, Structural)]
pub struct ColorRun {
    pub class: Class,
    pub start_col: u32,
    pub end_col: u32,
}

/// Every column of the segment is painted with the segment's class.
pub open spec fn run_matches(table: Seq<u8>, row: int, r: ColorRun) -> bool {
    forall|c: int| #![trigger pixel_class(table, row, c)]
        r.start_col <= c < r.end_col ==> pixel_class(table, row, c) == r.class
}

/// Computes the painted segments of one visualization row: the maximal
/// same-class column runs, in order, tiling the whole row.  A consumer
/// paints every run whose class is not the background.
pub fn row_color_runs(table: &Vec<u8>, row: u32) -> (rs: Vec<ColorRun>)
    requires
        table@.len() == SCALAR_LIMIT,
        row < ROW_COUNT,
    ensures
        rs@.len() >= 1,
        rs@[0].start_col == 0,
        rs@[rs@.len() - 1].end_col == 1024,
        forall|i: int| #![trigger rs@[i]]
            0 <= i < rs@.len() ==> rs@[i].start_col < rs@[i].end_col <= 1024,
        forall|i: int, j: int| #![trigger rs@[i], rs@[j]]
            0 <= i < rs@.len() && j == i + 1 && j < rs@.len() ==> rs@[i].end_col
                == rs@[j].start_col && rs@[i].class != rs@[j].class,
        forall|i: int| #![trigger rs@[i]]
            0 <= i < rs@.len() ==> run_matches(table@, row as int, rs@[i]),
{
    let mut rs: Vec<ColorRun> = Vec::new();
    let first = table[(row * 1024) as usize];
    let mut cur: Class = if first & 1 != 0 {
        Class::Start
    } else if first & 2 != 0 {
        Class::ContinueOnly
    } else {
        Class::Background
    };
    proof {
        assert(pixel_class(table@, row as int, 0) == cur);
    }
    let mut cur_start: u32 = 0;
    let mut col: u32 = 1;
    while col < 1024
        invariant
            table@.len() == SCALAR_LIMIT,
            row < ROW_COUNT,
            cur_start < col <= 1024,
            forall|c: int| #![trigger pixel_class(table@, row as int, c)]
                cur_start <= c < col ==> pixel_class(table@, row as int, c) == cur,
            rs@.len() == 0 ==> cur_start == 0,
            rs@.len() > 0 ==> rs@[0].start_col == 0,
            rs@.len() > 0 ==> rs@[rs@.len() - 1].end_col == cur_start,
            rs@.len() > 0 ==> rs@[rs@.len() - 1].class != cur,
            forall|i: int| #![trigger rs@[i]]
                0 <= i < rs@.len() ==> rs@[i].start_col < rs@[i].end_col <= cur_start,
            forall|i: int, j: int| #![trigger rs@[i], rs@[j]]
                0 <= i < rs@.len() && j == i + 1 && j < rs@.len() ==> rs@[i].end_col
                    == rs@[j].start_col && rs@[i].class != rs@[j].class,
            forall|i: int| #![trigger rs@[i]]
                0 <= i < rs@.len() ==> run_matches(table@, row as int, rs@[i]),
        decreases 1024 - col,
    {
        let idx = (row * 1024 + col) as usize;
        let v = table[idx];
        let cls: Class = if v & 1 != 0 {
            Class::Start
        } else if v & 2 != 0 {
            Class::ContinueOnly
        } else {
            Class::Background
        };
        proof {
            assert(pixel_class(table@, row as int, col as int) == cls);
        }
        if cls != cur {
            rs.push(ColorRun { class: cur, start_col: cur_start, end_col: col });
            cur_start = col;
            cur = cls;
        }
        col = col + 1;
    }
    rs.push(ColorRun { class: cur, start_col: cur_start, end_col: 1024 });
    rs
}

/// Whether a codepoint's two property bits match the asked-for pattern:
/// `None` leaves a side unconstrained.
pub open spec fn stat_matches(
    ranges: Seq<PropertyRange>,
    cp: u32,
    want_start: Option<bool>,
    want_continue: Option<bool>,
) -> bool {
    &&& match want_start {
        Some(b) => props_start(ranges, cp) == b,
        None => true,
    }
    &&& match want_continue {
        Some(b) => props_continue(ranges, cp) == b,
        None => true,
    }
}

/// How many codepoints below `n` match the asked-for pattern.
pub open spec fn count_stat(
    ranges: Seq<PropertyRange>,
    n: int,
    want_start: Option<bool>,
    want_continue: Option<bool>,
) -> int
    decreases n,
{
    if n <= 0 {
        0
    } else {
        count_stat(ranges, n - 1, want_start, want_continue) + if stat_matches(
            ranges,
            (n - 1) as u32,
            want_start,
            want_continue,
        ) {
            1int
        } else {
            0int
        }
    }
}

/// Counts of the identifier properties over the whole codepoint space.
pub struct Stats {
    pub start: usize,
    pub continue_count: usize,
    pub start_only: usize,
    pub continue_only: usize,
    pub none: usize,
}

/// Counts, over every codepoint up to U+10FFFF, how many carry
/// `XID_Start`, how many carry `XID_Continue`, and the exclusive
/// combinations.
pub fn compute_stats(ranges: &Vec<PropertyRange>) -> (stats: Stats)
    ensures
        stats.start == count_stat(ranges@, SCALAR_LIMIT as int, Some(true), None),
        stats.continue_count == count_stat(ranges@, SCALAR_LIMIT as int, None, Some(true)),
        stats.start_only == count_stat(ranges@, SCALAR_LIMIT as int, Some(true), Some(false)),
        stats.continue_only == count_stat(ranges@, SCALAR_LIMIT as int, Some(false), Some(true)),
        stats.none == count_stat(ranges@, SCALAR_LIMIT as int, Some(false), Some(false)),
{
    let table = props_table(ranges);
    let mut start: usize = 0;
    let mut continue_count: usize = 0;
    let mut start_only: usize = 0;
    let mut continue_only: usize = 0;
    let mut none: usize = 0;
    let mut cp: u32 = 0;
    while cp < SCALAR_LIMIT
        invariant
            cp <= SCALAR_LIMIT,
            table@.len() == SCALAR_LIMIT,
            forall|c: u32| #![trigger table@[c as int]]
                c < SCALAR_LIMIT ==> table@[c as int] < 4 && value_is_start(table@[c as int])
                    == props_start(ranges@, c) && value_is_continue(table@[c as int])
                    == props_continue(ranges@, c),
            start == count_stat(ranges@, cp as int, Some(true), None),
            continue_count == count_stat(ranges@, cp as int, None, Some(true)),
            start_only == count_stat(ranges@, cp as int, Some(true), Some(false)),
            continue_only == count_stat(ranges@, cp as int, Some(false), Some(true)),
            none == count_stat(ranges@, cp as int, Some(false), Some(false)),
            start <= cp && continue_count <= cp && start_only <= cp && continue_only <= cp
                && none <= cp,
        decreases SCALAR_LIMIT - cp,
    {
        let v = table[cp as usize];
        let has_start = v & 1 != 0;
        let has_continue = v & 2 != 0;
        if has_start {
            start = start + 1;
        }
        if has_continue {
            continue_count = continue_count + 1;
        }
        if has_start && !has_continue {
            start_only = start_only + 1;
        }
        if has_continue && !has_start {
            continue_only = continue_only + 1;
        }
        if !has_start && !has_continue {
            none = none + 1;
        }
        cp = cp + 1;
    }
    Stats { start, continue_count, start_only, continue_only, none }
}

} // verus!
