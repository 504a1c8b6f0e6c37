use vstd::prelude::*;

verus! {

/// One parsed assignment of the property source: every codepoint of the
/// inclusive range `start..=end` carries the property called `name`.
#[derive(Debug)]
pub struct PropertyRange {
    pub start: u32,
    pub end: u32,
    pub name: Vec<u8>,
}

/// Whether `s` spells the property name `XID_Start`.
pub open spec fn is_xid_start_name(s: Seq<u8>) -> bool {
    &&& s.len() == 9
    &&& s[0] == 88
    &&& s[1] == 73
    &&& s[2] == 68
    &&& s[3] == 95
    &&& s[4] == 83
    &&& s[5] == 116
    &&& s[6] == 97
    &&& s[7] == 114
    &&& s[8] == 116
}

/// Whether `s` spells the property name `XID_Continue`.
pub open spec fn is_xid_continue_name(s: Seq<u8>) -> bool {
    &&& s.len() == 12
    &&& s[0] == 88
    &&& s[1] == 73
    &&& s[2] == 68
    &&& s[3] == 95
    &&& s[4] == 67
    &&& s[5] == 111
    &&& s[6] == 110
    &&& s[7] == 116
    &&& s[8] == 105
    &&& s[9] == 110
    &&& s[10] == 117
    &&& s[11] == 101
}

/// Whether, under the property assignments `ranges`, codepoint `cp`
/// carries `XID_Start`.
pub open spec fn props_start(ranges: Seq<PropertyRange>, cp: u32) -> bool {
    exists|i: int|
        0 <= i < ranges.len() && ranges[i].start <= cp <= ranges[i].end && is_xid_start_name(
            ranges[i].name@,
        )
}

/// Whether, under the property assignments `ranges`, codepoint `cp`
/// carries `XID_Continue`.
pub open spec fn props_continue(ranges: Seq<PropertyRange>, cp: u32) -> bool {
    exists|i: int|
        0 <= i < ranges.len() && ranges[i].start <= cp <= ranges[i].end && is_xid_continue_name(
            ranges[i].name@,
        )
}

pub(crate) fn name_is_xid_start(name: &Vec<u8>) -> (r: bool)
    ensures
        r == is_xid_start_name(name@),
{
    name.len() == 9 && name[0] == 88 && name[1] == 73 && name[2] == 68 && name[3] == 95
        && name[4] == 83 && name[5] == 116 && name[6] == 97 && name[7] == 114 && name[8] == 116
}

pub(crate) fn name_is_xid_continue(name: &Vec<u8>) -> (r: bool)
    ensures
        r == is_xid_continue_name(name@),
{
    name.len() == 12 && name[0] == 88 && name[1] == 73 && name[2] == 68 && name[3] == 95
        && name[4] == 67 && name[5] == 111 && name[6] == 110 && name[7] == 116 && name[8] == 105
        && name[9] == 110 && name[10] == 117 && name[11] == 101
}

/// Appending one more assignment extends the property of a codepoint by
/// exactly that assignment's contribution.
pub proof fn lemma_props_push(ranges: Seq<PropertyRange>, pr: PropertyRange, cp: u32)
    ensures
        props_start(ranges.push(pr), cp) == (props_start(ranges, cp) || (pr.start <= cp <= pr.end
            && is_xid_start_name(pr.name@))),
        props_continue(ranges.push(pr), cp) == (props_continue(ranges, cp) || (pr.start <= cp
            <= pr.end && is_xid_continue_name(pr.name@))),
{
    let withpr = ranges.push(pr);
    assert(withpr[ranges.len() as int] == pr);
    assert forall|i: int| 0 <= i < ranges.len() implies withpr[i] == ranges[i] by {}
    if props_start(ranges, cp) {
        let i = choose|i: int|
            0 <= i < ranges.len() && ranges[i].start <= cp <= ranges[i].end && is_xid_start_name(
                ranges[i].name@,
            );
        assert(withpr[i].start <= cp <= withpr[i].end && is_xid_start_name(withpr[i].name@));
    }
    if props_continue(ranges, cp) {
        let i = choose|i: int|
            0 <= i < ranges.len() && ranges[i].start <= cp <= ranges[i].end
                && is_xid_continue_name(ranges[i].name@);
        assert(withpr[i].start <= cp <= withpr[i].end && is_xid_continue_name(withpr[i].name@));
    }
    if props_start(withpr, cp) {
        let i = choose|i: int|
            0 <= i < withpr.len() && withpr[i].start <= cp <= withpr[i].end && is_xid_start_name(
                withpr[i].name@,
            );
        if i < ranges.len() {
            assert(ranges[i].start <= cp <= ranges[i].end && is_xid_start_name(ranges[i].name@));
        }
    }
    if props_continue(withpr, cp) {
        let i = choose|i: int|
            0 <= i < withpr.len() && withpr[i].start <= cp <= withpr[i].end
                && is_xid_continue_name(withpr[i].name@);
        if i < ranges.len() {
            assert(ranges[i].start <= cp <= ranges[i].end && is_xid_continue_name(
                ranges[i].name@,
            ));
        }
    }
}

/// ASCII whitespace, as stripped around tokens of the property source.
pub open spec fn is_ws(b: u8) -> bool {
    b == 32 || b == 9 || b == 10 || b == 13 || b == 11 || b == 12
}

/// Index of the first occurrence of `b` in `s`, or the length if absent.
pub open spec fn find_byte(s: Seq<u8>, b: u8) -> int
    decreases s.len(),
{
    if s.len() == 0 {
        0
    } else if s[0] == b {
        0
    } else {
        1 + find_byte(s.drop_first(), b)
    }
}

/// `find_byte` stays within the sequence bounds.
pub proof fn lemma_find_byte_bounds(s: Seq<u8>, b: u8)
    ensures
        0 <= find_byte(s, b) <= s.len(),
    decreases s.len(),
{
    if s.len() > 0 && s[0] != b {
        lemma_find_byte_bounds(s.drop_first(), b);
    }
}

/// `find_byte` is the unique index with nothing equal before it and the
/// byte itself at it (unless absent).
pub proof fn lemma_find_byte_is(s: Seq<u8>, b: u8, f: int)
    requires
        0 <= f <= s.len(),
        forall|j: int| 0 <= j < f ==> s[j] != b,
        f < s.len() ==> s[f] == b,
    ensures
        find_byte(s, b) == f,
    decreases s.len(),
{
    if s.len() == 0 {
    } else if s[0] == b {
        assert(f == 0);
    } else {
        assert(f >= 1);
        let t = s.drop_first();
        assert forall|j: int| 0 <= j < f - 1 implies t[j] != b by {
            assert(t[j] == s[j + 1]);
        }
        assert(f - 1 < t.len() ==> t[f - 1] == s[f]);
        lemma_find_byte_is(t, b, f - 1);
    }
}

/// Index of the first occurrence of `..` in `s`, or the length if absent.
pub open spec fn find_dotdot(s: Seq<u8>) -> int
    decreases s.len(),
{
    if s.len() < 2 {
        s.len() as int
    } else if s[0] == 46 && s[1] == 46 {
        0
    } else {
        1 + find_dotdot(s.drop_first())
    }
}

/// `find_dotdot` is the unique index of the first `..`, or the length
/// when there is none.
pub proof fn lemma_find_dotdot_is(s: Seq<u8>, f: int)
    requires
        0 <= f <= s.len(),
        f + 2 <= s.len() ==> s[f] == 46 && s[f + 1] == 46,
        forall|j: int| #![trigger s[j]] 0 <= j < f && j + 2 <= s.len() ==> !(s[j] == 46 && s[j + 1] == 46),
        f + 2 <= s.len() || f == s.len(),
    ensures
        find_dotdot(s) == f,
    decreases s.len(),
{
    if s.len() < 2 {
        assert(f == s.len());
    } else if s[0] == 46 && s[1] == 46 {
        assert(f == 0);
    } else {
        assert(f >= 1);
        let t = s.drop_first();
        assert forall|j: int| #![trigger t[j]] 0 <= j < f - 1 && j + 2 <= t.len() implies !(t[j] == 46
            && t[j + 1] == 46) by {
            assert(t[j] == s[j + 1] && t[j + 1] == s[j + 2]);
        }
        assert(f - 1 + 2 <= t.len() ==> t[f - 1] == s[f] && t[f] == s[f + 1]);
        lemma_find_dotdot_is(t, f - 1);
    }
}

/// The bytes of `s` before the first `#`: comments run to the end of the
/// line.
pub open spec fn strip_comment(line: Seq<u8>) -> Seq<u8> {
    line.take(find_byte(line, 35))
}

/// `s` without its leading ASCII whitespace.
pub open spec fn trim_start(s: Seq<u8>) -> Seq<u8>
    decreases s.len(),
{
    if s.len() > 0 && is_ws(s[0]) {
        trim_start(s.drop_first())
    } else {
        s
    }
}

/// `s` without its trailing ASCII whitespace.
pub open spec fn trim_end(s: Seq<u8>) -> Seq<u8>
    decreases s.len(),
{
    if s.len() > 0 && is_ws(s.last()) {
        trim_end(s.drop_last())
    } else {
        s
    }
}

/// `s` without leading and trailing ASCII whitespace.
pub open spec fn trim(s: Seq<u8>) -> Seq<u8> {
    trim_end(trim_start(s))
}

/// An ASCII hexadecimal digit.
pub open spec fn is_hex_digit(b: u8) -> bool {
    (48 <= b <= 57) || (97 <= b <= 102) || (65 <= b <= 70)
}

/// The value of an ASCII hexadecimal digit.
pub open spec fn hex_digit_val(b: u8) -> int {
    if 48 <= b <= 57 {
        b - 48
    } else if 97 <= b <= 102 {
        b - 87
    } else {
        b - 55
    }
}

/// Whether every byte of `s` is a hexadecimal digit.
pub open spec fn all_hex(s: Seq<u8>) -> bool {
    forall|i: int| 0 <= i < s.len() ==> is_hex_digit(s[i])
}

/// The number the digit string `s` spells in base 16.
pub open spec fn hex_nat(s: Seq<u8>) -> int
    decreases s.len(),
{
    if s.len() == 0 {
        0
    } else {
        16 * hex_nat(s.drop_last()) + hex_digit_val(s.last())
    }
}

/// The codepoint a hexadecimal token parses to: defined exactly for a
/// non-empty all-digit token whose value fits in 32 bits.
pub open spec fn spec_hex_u32(s: Seq<u8>) -> Option<u32> {
    if s.len() == 0 || !all_hex(s) || hex_nat(s) > 0xFFFF_FFFF {
        None
    } else {
        Some(hex_nat(s) as u32)
    }
}

/// A hexadecimal digit string spells a non-negative number.
pub proof fn lemma_hex_nat_nonneg(s: Seq<u8>)
    requires
        all_hex(s),
    ensures
        hex_nat(s) >= 0,
    decreases s.len(),
{
    if s.len() > 0 {
        let t = s.drop_last();
        assert forall|i: int| 0 <= i < t.len() implies is_hex_digit(t[i]) by {
            assert(t[i] == s[i]);
        }
        lemma_hex_nat_nonneg(t);
        assert(hex_digit_val(s.last()) >= 0);
    }
}

/// Extending a hexadecimal digit string never shrinks its value.
pub proof fn lemma_hex_nat_grow(s: Seq<u8>, i: int, j: int)
    requires
        all_hex(s),
        0 <= i <= j <= s.len(),
    ensures
        hex_nat(s.take(i)) <= hex_nat(s.take(j)),
    decreases j - i,
{
    if i < j {
        lemma_hex_nat_grow(s, i, j - 1);
        let t = s.take(j);
        assert(t.drop_last() =~= s.take(j - 1));
        assert forall|k: int| #![trigger s.take(j - 1)[k]] 0 <= k < j - 1 implies is_hex_digit(
            s.take(j - 1)[k],
        ) by {
            assert(s.take(j - 1)[k] == s[k]);
        }
        lemma_hex_nat_nonneg(s.take(j - 1));
        assert(t.last() == s[j - 1]);
        assert(is_hex_digit(s[j - 1]));
        assert(hex_nat(t) == 16 * hex_nat(s.take(j - 1)) + hex_digit_val(s[j - 1]));
    }
}

/// A Unicode scalar value: a codepoint outside the surrogate range and
/// at most U+10FFFF.
pub open spec fn is_scalar(c: u32) -> bool {
    c < 0xD800 || (0xE000 <= c <= 0x10FFFF)
}

/// Whether some codepoint of `start..=end` is not a Unicode scalar
/// value.
pub open spec fn range_has_invalid(start: u32, end: u32) -> bool {
    exists|c: u32| start <= c <= end && !is_scalar(c)
}

/// What a codepoint token parses to: a single codepoint `X`, or an
/// inclusive range `X..Y`, both read as hexadecimal after trimming.
pub open spec fn spec_parse_range(raw: Seq<u8>) -> Option<(u32, u32)> {
    let d = find_dotdot(raw);
    if d + 2 <= raw.len() {
        match (spec_hex_u32(trim(raw.take(d))), spec_hex_u32(trim(raw.skip(d + 2)))) {
            (Some(a), Some(b)) => Some((a, b)),
            _ => None,
        }
    } else {
        match spec_hex_u32(trim(raw)) {
            Some(a) => Some((a, a)),
            None => None,
        }
    }
}

/// What one line of the property source means, after comment stripping
/// and trimming: nothing, one of the three line-level errors, or a
/// property assignment.
pub enum SpecLine {
    Blank,
    NoDelim { line: Seq<u8> },
    BadHex,
    BadCodepoint,
    Data { start: u32, end: u32, name: Seq<u8> },
}

/// The meaning of one line: blank lines and pure comments are skipped, a
/// remaining line must hold a `;` delimiter, a parsable codepoint token
/// before it, codepoints in the scalar range, and carries the trimmed
/// property name after the delimiter.
pub open spec fn classify_line(line: Seq<u8>) -> SpecLine {
    let c = trim(strip_comment(line));
    if c.len() == 0 {
        SpecLine::Blank
    } else {
        let semi = find_byte(c, 59);
        if semi == c.len() {
            SpecLine::NoDelim { line: c }
        } else {
            match spec_parse_range(c.take(semi)) {
                None => SpecLine::BadHex,
                Some((s, e)) => if range_has_invalid(s, e) {
                    SpecLine::BadCodepoint
                } else {
                    SpecLine::Data { start: s, end: e, name: trim(c.skip(semi + 1)) }
                },
            }
        }
    }
}

/// A parsed property assignment, as a mathematical value.
pub struct SpecRange {
    pub start: u32,
    pub end: u32,
    pub name: Seq<u8>,
}

impl PropertyRange {
    /// The mathematical value of this assignment.
    pub open spec fn model(self) -> SpecRange {
        SpecRange { start: self.start, end: self.end, name: self.name@ }
    }
}

/// The meaning of a whole property source: its lines, split on newlines,
/// classified in order; the assignments of the data lines in order, or
/// the first line-level error.
pub open spec fn spec_parse(input: Seq<u8>) -> Result<Seq<SpecRange>, SpecLine>
    decreases input.len(),
    via spec_parse_decreases
{
    let nl = find_byte(input, 10);
    let head = classify_line(input.take(nl));
    let rest: Result<Seq<SpecRange>, SpecLine> = if nl < input.len() {
        spec_parse(input.skip(nl + 1))
    } else {
        Ok(Seq::empty())
    };
    match head {
        SpecLine::Blank => rest,
        SpecLine::Data { start, end, name } => match rest {
            Ok(rs) => Ok(seq![SpecRange { start, end, name }] + rs),
            Err(e) => Err(e),
        },
        err => Err(err),
    }
}

#[via_fn]
proof fn spec_parse_decreases(input: Seq<u8>) {
    lemma_find_byte_bounds(input, 10);
}

/// The error kinds of the property-source parser, one per failure mode:
/// an input that could not be read, a malformed or oversized hexadecimal
/// codepoint, a codepoint outside the scalar range, and a line missing
/// its `;` delimiter (carrying the offending line).
#[derive(Debug)]
pub enum Error {
    IoError,
    IntParseRangeError,
    InvalidCodepoint,
    MissingDelimiter(Vec<u8>),
}

/// Whether the returned error reports the line-level failure `k`.
pub open spec fn error_models(e: Error, k: SpecLine) -> bool {
    match k {
        SpecLine::NoDelim { line } => e matches Error::MissingDelimiter(l) && l@ == line,
        SpecLine::BadHex => e is IntParseRangeError,
        SpecLine::BadCodepoint => e is InvalidCodepoint,
        _ => false,
    }
}

/// Whether the outcome of one line was handled as its meaning demands.
pub open spec fn line_models(r: Result<Option<PropertyRange>, Error>, k: SpecLine) -> bool {
    match r {
        Ok(None) => k is Blank,
        Ok(Some(pr)) => k matches SpecLine::Data { start, end, name } && pr.start == start
            && pr.end == end && pr.name@ == name,
        Err(e) => error_models(e, k),
    }
}

fn ws_byte(b: u8) -> (r: bool)
    ensures
        r == is_ws(b),
{
    b == 32 || b == 9 || b == 10 || b == 13 || b == 11 || b == 12
}

/// Scans `[lo, hi)` of `s` for the first occurrence of `b`.
fn find_byte_at(s: &[u8], lo: usize, hi: usize, b: u8) -> (r: usize)
    requires
        lo <= hi <= s@.len(),
    ensures
        lo <= r <= hi,
        find_byte(s@.subrange(lo as int, hi as int), b) == r - lo,
        r < hi ==> s@[r as int] == b,
{
    let mut j = lo;
    while j < hi
        invariant
            lo <= j <= hi <= s@.len(),
            forall|k: int| #![trigger s@[k]] lo <= k < j ==> s@[k] != b,
        decreases hi - j,
    {
        if s[j] == b {
            proof {
                let t = s@.subrange(lo as int, hi as int);
                assert forall|k: int| 0 <= k < j - lo implies t[k] != b by {
                    assert(t[k] == s@[lo + k]);
                }
                assert(t[j - lo] == s@[j as int]);
                lemma_find_byte_is(t, b, j - lo);
            }
            return j;
        }
        j = j + 1;
    }
    proof {
        let t = s@.subrange(lo as int, hi as int);
        assert forall|k: int| 0 <= k < hi - lo implies t[k] != b by {
            assert(t[k] == s@[lo + k]);
        }
        lemma_find_byte_is(t, b, (hi - lo) as int);
    }
    hi
}

/// Scans `[lo, hi)` of `s` for the first occurrence of `..`.
fn find_dotdot_at(s: &[u8], lo: usize, hi: usize) -> (r: usize)
    requires
        lo <= hi <= s@.len(),
    ensures
        lo <= r <= hi,
        find_dotdot(s@.subrange(lo as int, hi as int)) == r - lo,
{
    let mut j = lo;
    while hi - j > 1
        invariant
            lo <= j <= hi <= s@.len(),
            forall|k: int| #![trigger s@[k]]
                lo <= k < j && k + 1 < hi ==> !(s@[k] == 46 && s@[k + 1] == 46),
        decreases hi - j,
    {
        if s[j] == 46 && s[j + 1] == 46 {
            proof {
                let t = s@.subrange(lo as int, hi as int);
                assert forall|k: int| #![trigger t[k]]
                    0 <= k < j - lo && k + 2 <= t.len() implies !(t[k] == 46 && t[k + 1]
                    == 46) by {
                    assert(t[k] == s@[lo + k] && t[k + 1] == s@[lo + k + 1]);
                }
                assert(t[j - lo] == s@[j as int] && t[j - lo + 1] == s@[j + 1]);
                lemma_find_dotdot_is(t, j - lo);
            }
            return j;
        }
        j = j + 1;
    }
    proof {
        let t = s@.subrange(lo as int, hi as int);
        assert forall|k: int| #![trigger t[k]]
            0 <= k < hi - lo && k + 2 <= t.len() implies !(t[k] == 46 && t[k + 1] == 46) by {
            assert(t[k] == s@[lo + k] && t[k + 1] == s@[lo + k + 1]);
        }
        lemma_find_dotdot_is(t, (hi - lo) as int);
    }
    hi
}

/// Trims ASCII whitespace from both ends of `[lo, hi)`, returning the
/// trimmed bounds.
fn trim_bounds(s: &[u8], lo: usize, hi: usize) -> (r: (usize, usize))
    requires
        lo <= hi <= s@.len(),
    ensures
        lo <= r.0 <= r.1 <= hi,
        trim(s@.subrange(lo as int, hi as int)) == s@.subrange(r.0 as int, r.1 as int),
{
    let mut a = lo;
    while a < hi && ws_byte(s[a])
        invariant
            lo <= a <= hi <= s@.len(),
            trim_start(s@.subrange(lo as int, hi as int)) == trim_start(
                s@.subrange(a as int, hi as int),
            ),
        decreases hi - a,
    {
        proof {
            assert(s@.subrange(a as int, hi as int).drop_first() =~= s@.subrange(
                a + 1,
                hi as int,
            ));
            assert(s@.subrange(a as int, hi as int)[0] == s@[a as int]);
        }
        a = a + 1;
    }
    proof {
        assert(trim_start(s@.subrange(lo as int, hi as int)) == s@.subrange(a as int, hi as int));
    }
    let mut b = hi;
    while b > a && ws_byte(s[b - 1])
        invariant
            lo <= a <= b <= hi <= s@.len(),
            trim_end(s@.subrange(a as int, hi as int)) == trim_end(
                s@.subrange(a as int, b as int),
            ),
        decreases b,
    {
        proof {
            assert(s@.subrange(a as int, b as int).drop_last() =~= s@.subrange(
                a as int,
                b - 1,
            ));
            assert(s@.subrange(a as int, b as int).last() == s@[b - 1]);
        }
        b = b - 1;
    }
    proof {
        assert(trim_end(s@.subrange(a as int, hi as int)) == s@.subrange(a as int, b as int));
    }
    (a, b)
}

/// Copies `[lo, hi)` of `s` into an owned byte vector.
fn copy_bytes(s: &[u8], lo: usize, hi: usize) -> (v: Vec<u8>)
    requires
        lo <= hi <= s@.len(),
    ensures
        v@ == s@.subrange(lo as int, hi as int),
{
    let mut v: Vec<u8> = Vec::new();
    let mut j = lo;
    while j < hi
        invariant
            lo <= j <= hi <= s@.len(),
            v@ == s@.subrange(lo as int, j as int),
        decreases hi - j,
    {
        proof {
            assert(s@.subrange(lo as int, j + 1) =~= s@.subrange(lo as int, j as int).push(
                s@[j as int],
            ));
        }
        v.push(s[j]);
        j = j + 1;
    }
    v
}

/// Reads `[lo, hi)` of `s` as a hexadecimal number fitting in 32 bits.
fn parse_hex_at(s: &[u8], lo: usize, hi: usize) -> (r: Option<u32>)
    requires
        lo <= hi <= s@.len(),
    ensures
        r == spec_hex_u32(s@.subrange(lo as int, hi as int)),
{
    let ghost t = s@.subrange(lo as int, hi as int);
    if lo == hi {
        return None;
    }
    let mut v: u32 = 0;
    let mut j: usize = lo;
    while j < hi
        invariant
            lo <= j <= hi <= s@.len(),
            t == s@.subrange(lo as int, hi as int),
            all_hex(t.take(j - lo)),
            v == hex_nat(t.take(j - lo)),
        decreases hi - j,
    {
        let byte = s[j];
        proof {
            assert(t[j - lo] == s@[j as int]);
        }
        let d: u32 = if 48 <= byte && byte <= 57 {
            (byte - 48) as u32
        } else if 97 <= byte && byte <= 102 {
            (byte - 87) as u32
        } else if 65 <= byte && byte <= 70 {
            (byte - 55) as u32
        } else {
            proof {
                assert(!is_hex_digit(t[j - lo]));
            }
            return None;
        };
        proof {
            assert(t.take(j - lo + 1).drop_last() =~= t.take(j - lo));
            assert(t.take(j - lo + 1).last() == t[j - lo]);
            assert forall|k: int| #![trigger t.take(j - lo + 1)[k]]
                0 <= k < j - lo + 1 implies is_hex_digit(t.take(j - lo + 1)[k]) by {
                assert(t.take(j - lo + 1)[k] == t.take(j - lo + 1)[k]);
                if k < j - lo {
                    assert(t.take(j - lo + 1)[k] == t.take(j - lo)[k]);
                } else {
                    assert(t.take(j - lo + 1)[k] == t[j - lo]);
                }
            }
        }
        let nv: u64 = (v as u64) * 16 + (d as u64);
        if nv > 0xFFFF_FFFFu64 {
            proof {
                if all_hex(t) {
                    assert(hex_nat(t.take(j - lo + 1)) == nv);
                    lemma_hex_nat_grow(t, j - lo + 1, t.len() as int);
                    assert(t.take(t.len() as int) =~= t);
                }
            }
            return None;
        }
        v = nv as u32;
        j = j + 1;
    }
    proof {
        assert(t.take(t.len() as int) =~= t);
    }
    Some(v)
}

/// Reads a codepoint token: a single hexadecimal codepoint, or an
/// inclusive `start..end` range, each side trimmed.
pub fn parse_range(raw: &[u8]) -> (r: Option<(u32, u32)>)
    ensures
        r == spec_parse_range(raw@),
{
    let r = parse_range_at(raw, 0, raw.len());
    proof {
        assert(raw@.subrange(0, raw@.len() as int) =~= raw@);
    }
    r
}

fn parse_range_at(s: &[u8], lo: usize, hi: usize) -> (r: Option<(u32, u32)>)
    requires
        lo <= hi <= s@.len(),
    ensures
        r == spec_parse_range(s@.subrange(lo as int, hi as int)),
{
    let ghost raw = s@.subrange(lo as int, hi as int);
    let d = find_dotdot_at(s, lo, hi);
    if hi - d >= 2 {
        proof {
            assert(raw.take(d - lo) =~= s@.subrange(lo as int, d as int));
            assert(raw.skip(d - lo + 2) =~= s@.subrange(d + 2, hi as int));
        }
        let (a1, b1) = trim_bounds(s, lo, d);
        let (a2, b2) = trim_bounds(s, d + 2, hi);
        let first = parse_hex_at(s, a1, b1);
        let second = parse_hex_at(s, a2, b2);
        match (first, second) {
            (Some(x), Some(y)) => Some((x, y)),
            _ => None,
        }
    } else {
        let (a1, b1) = trim_bounds(s, lo, hi);
        match parse_hex_at(s, a1, b1) {
            Some(x) => Some((x, x)),
            None => None,
        }
    }
}

/// Handles one line `[lo, hi)` of the property source: nothing for a
/// blank or comment line, the parsed assignment for a data line, the
/// line's error otherwise.
fn parse_line(s: &[u8], lo: usize, hi: usize) -> (r: Result<Option<PropertyRange>, Error>)
    requires
        lo <= hi <= s@.len(),
    ensures
        line_models(r, classify_line(s@.subrange(lo as int, hi as int))),
{
    let ghost line = s@.subrange(lo as int, hi as int);
    let h = find_byte_at(s, lo, hi, 35);
    proof {
        assert(line.take(h - lo) =~= s@.subrange(lo as int, h as int));
        assert(strip_comment(line) == s@.subrange(lo as int, h as int));
    }
    let (a, b) = trim_bounds(s, lo, h);
    let ghost c = trim(strip_comment(line));
    proof {
        assert(c == s@.subrange(a as int, b as int));
    }
    if a == b {
        return Ok(None);
    }
    let semi = find_byte_at(s, a, b, 59);
    proof {
        assert forall|k: int| 0 <= k < semi - a implies c[k] == s@.subrange(
            a as int,
            b as int,
        )[k] by {}
    }
    if semi == b {
        let payload = copy_bytes(s, a, b);
        return Err(Error::MissingDelimiter(payload));
    }
    proof {
        assert(c.take(semi - a) =~= s@.subrange(a as int, semi as int));
    }
    let parsed = parse_range_at(s, a, semi);
    match parsed {
        None => Err(Error::IntParseRangeError),
        Some((st, en)) => {
            if st <= en && (en > 0x10FFFF || (st <= 0xDFFF && en >= 0xD800)) {
                proof {
                    if en > 0x10FFFF {
                        let w: u32 = if st > 0x10FFFF {
                            st
                        } else {
                            0x110000
                        };
                        assert(st <= w <= en && !is_scalar(w));
                    } else {
                        let w: u32 = if st > 0xD800 {
                            st
                        } else {
                            0xD800
                        };
                        assert(st <= w <= en && !is_scalar(w));
                    }
                }
                Err(Error::InvalidCodepoint)
            } else {
                proof {
                    assert(!range_has_invalid(st, en)) by {
                        if range_has_invalid(st, en) {
                            let w = choose|w: u32| st <= w <= en && !is_scalar(w);
                            assert(false);
                        }
                    }
                    assert(c.skip(semi - a + 1) =~= s@.subrange(semi + 1, b as int));
                }
                let (na, nb) = trim_bounds(s, semi + 1, b);
                let name = copy_bytes(s, na, nb);
                Ok(Some(PropertyRange { start: st, end: en, name }))
            }
        },
    }
}

/// Reads the whole property source: line-oriented text, `#` comments
/// stripped, blank lines ignored, each remaining line a
/// `codepoint[..codepoint] ; PropertyName` assignment with hexadecimal
/// codepoints.  Returns the assignments in order, or the first line's
/// error.
pub fn parse(input: &[u8]) -> (r: Result<Vec<PropertyRange>, Error>)
    ensures
        r matches Ok(v) ==> spec_parse(input@) matches Ok(rs) && v@.map_values(
            |p: PropertyRange| p.model(),
        ) == rs,
        r matches Err(e) ==> spec_parse(input@) matches Err(k) && error_models(e, k),
{
    let n = input.len();
    let mut out: Vec<PropertyRange> = Vec::new();
    let mut pos: usize = 0;
    proof {
        assert(input@.subrange(0, n as int) =~= input@);
        assert(out@.map_values(|p: PropertyRange| p.model()) =~= Seq::<SpecRange>::empty());
        match spec_parse(input@) {
            Ok(rs) => {
                assert(Seq::<SpecRange>::empty() + rs =~= rs);
            },
            Err(e) => {},
        }
    }
    while pos < n
        invariant
            pos <= n == input@.len(),
            spec_parse(input@) == (match spec_parse(input@.subrange(pos as int, n as int)) {
                Ok(rs) => Ok::<Seq<SpecRange>, SpecLine>(
                    out@.map_values(|p: PropertyRange| p.model()) + rs,
                ),
                Err(e) => Err::<Seq<SpecRange>, SpecLine>(e),
            }),
        decreases n - pos,
    {
        let ghost rest = input@.subrange(pos as int, n as int);
        let nl = find_byte_at(input, pos, n, 10);
        proof {
            assert(rest.take(nl - pos) =~= input@.subrange(pos as int, nl as int));
        }
        let r = parse_line(input, pos, nl);
        let ghost head = classify_line(rest.take(find_byte(rest, 10)));
        match r {
            Err(e) => {
                proof {
                    assert(spec_parse(rest) == Err::<Seq<SpecRange>, SpecLine>(head));
                }
                return Err(e);
            },
            Ok(step) => {
                let ghost old_out = out@;
                if let Some(pr) = step {
                    out.push(pr);
                }
                if nl < n {
                    proof {
                        assert(rest.skip(nl - pos + 1) =~= input@.subrange(nl + 1, n as int));
                    }
                    pos = nl + 1;
                } else {
                    proof {
                        let empty = input@.subrange(n as int, n as int);
                        assert(empty.len() == 0);
                        assert(find_byte(empty, 10) == 0);
                        assert(empty.take(0) =~= empty);
                        assert(trim_start(empty) == empty && trim_end(empty) == empty);
                        assert(strip_comment(empty) =~= empty);
                        assert(classify_line(empty) is Blank);
                        assert(spec_parse(empty) == Ok::<Seq<SpecRange>, SpecLine>(Seq::empty()));
                    }
                    pos = n;
                }
                proof {
                    let newrest = input@.subrange(pos as int, n as int);
                    match head {
                        SpecLine::Blank => {
                            assert(out@ == old_out);
                            assert(spec_parse(rest) == spec_parse(newrest));
                        },
                        SpecLine::Data { start, end, name } => {
                            let d = SpecRange { start, end, name };
                            assert(out@.map_values(|p: PropertyRange| p.model())
                                =~= old_out.map_values(|p: PropertyRange| p.model()).push(d));
                            if spec_parse(newrest) is Ok {
                                let rs = spec_parse(newrest)->Ok_0;
                                assert(spec_parse(rest) == Ok::<Seq<SpecRange>, SpecLine>(
                                    seq![d] + rs,
                                ));
                                assert(old_out.map_values(|p: PropertyRange| p.model()) + (
                                seq![d] + rs) =~= out@.map_values(|p: PropertyRange| p.model())
                                    + rs);
                            }
                        },
                        _ => {
                            assert(false);
                        },
                    }
                }
            },
        }
    }
    proof {
        let empty = input@.subrange(n as int, n as int);
        assert(empty.len() == 0);
        assert(find_byte(empty, 10) == 0);
        assert(empty.take(0) =~= empty);
        assert(trim_start(empty) == empty && trim_end(empty) == empty);
        assert(strip_comment(empty) =~= empty);
        assert(classify_line(empty) is Blank);
        assert(spec_parse(empty) == Ok::<Seq<SpecRange>, SpecLine>(Seq::empty()));
        assert(out@.map_values(|p: PropertyRange| p.model()) + Seq::<SpecRange>::empty()
            =~= out@.map_values(|p: PropertyRange| p.model()));
    }
    Ok(out)
}

} // verus!
