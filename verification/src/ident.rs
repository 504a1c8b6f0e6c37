use vstd::prelude::*;

verus! {

use vstd::string::StrSliceExecFns;

use crate::class::value_is_continue;
use crate::class::value_is_start;
use crate::table::CompactTable;
use crate::table::unicode_identifier_class;

/// The two join-control codepoints allowed in the middle of an
/// identifier: U+200C ZERO WIDTH NON-JOINER and U+200D ZERO WIDTH JOINER.
pub open spec fn is_joiner(c: char) -> bool {
    c == '\u{200c}' || c == '\u{200d}'
}

/// Whether a position after the first is acceptable: its codepoint may
/// continue an identifier, or is a joiner standing before the end.
pub open spec fn continue_ok(t: CompactTable, s: Seq<char>, i: int) -> bool {
    value_is_continue(t.spec_classify(s[i] as u32)) || (is_joiner(s[i]) && i + 1 < s.len())
}

/// A UAX #31 default identifier under table `t`: non-empty, the first
/// codepoint may start an identifier, and every subsequent codepoint may
/// continue one or is a joiner that is not the last codepoint.
pub open spec fn spec_is_identifier(t: CompactTable, s: Seq<char>) -> bool {
    &&& s.len() > 0
    &&& value_is_start(t.spec_classify(s[0] as u32))
    &&& forall|i: int| 1 <= i < s.len() ==> continue_ok(t, s, i)
}

/// Checks if a sequence of codepoints is a Unicode identifier, defined by
/// Unicode Standard Annex #31.
///
/// This function implements the "Default Identifiers" specification,
/// specifically `UAX31-R1-1`, which does not add or modify any of the
/// character sequences or their properties.
pub fn is_identifier(table: &CompactTable, cp: &[char]) -> (r: bool)
    ensures
        r == spec_is_identifier(*table, cp@),
{
    if cp.len() == 0 {
        return false;
    }
    if !unicode_identifier_class(table, cp[0]).is_start() {
        return false;
    }
    let mut i: usize = 1;
    while i < cp.len()
        invariant
            1 <= i <= cp@.len(),
            forall|j: int| 1 <= j < i ==> continue_ok(*table, cp@, j),
        decreases cp@.len() - i,
    {
        let c = cp[i];
        if !unicode_identifier_class(table, c).is_continue() {
            // the two special characters are only allowed in the
            // middle, not the end.
            if (c != '\u{200c}' && c != '\u{200d}') || i + 1 == cp.len() {
                proof {
                    assert(!continue_ok(*table, cp@, i as int));
                }
                return false;
            }
        }
        i = i + 1;
    }
    true
}

/// Checks if a given string is a Unicode identifier, defined by Unicode
/// Standard Annex #31.
///
/// The string is decoded into its sequence of Unicode scalar values, in
/// order, and the sequence form [`is_identifier`] is applied: the two
/// entry points agree on every input by construction.
pub fn str_is_identifier(table: &CompactTable, s: &str) -> (r: bool)
    ensures
        r == spec_is_identifier(*table, s@),
{
    let n = s.unicode_len();
    let mut chars: Vec<char> = Vec::new();
    let mut i: usize = 0;
    while i < n
        invariant
            n == s@.len(),
            i <= n,
            chars@ == s@.subrange(0, i as int),
        decreases n - i,
    {
        let c = s.get_char(i);
        proof {
            assert(s@.subrange(0, i + 1) =~= s@.subrange(0, i as int).push(s@[i as int]));
        }
        chars.push(c);
        i = i + 1;
    }
    proof {
        assert(chars@ =~= s@);
    }
    is_identifier(table, chars.as_slice())
}

} // verus!
