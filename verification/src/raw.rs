use vstd::prelude::*;

verus! {

use crate::class::lemma_value_bits;
use crate::class::value_is_continue;
use crate::class::value_is_start;
use crate::props::PropertyRange;
use crate::props::is_xid_continue_name;
use crate::props::is_xid_start_name;
use crate::props::lemma_props_push;
use crate::props::name_is_xid_continue;
use crate::props::name_is_xid_start;
use crate::props::props_continue;
use crate::props::props_start;

/// The highest codepoint the table covers; everything above it is defined
/// to carry neither property.
pub const MAX_CODEPOINT: u32 = 0xFFFFF;

/// One past [`MAX_CODEPOINT`]: the number of covered codepoints, and the
/// start of the sentinel run.
pub const CODEPOINT_LIMIT: u32 = 0x100000;

/// One past U+10FFFF: the size of the whole codepoint space, surrogates
/// included.
pub const SCALAR_LIMIT: u32 = 0x110000;

/// Dense table of 2-bit classification values, one per codepoint in
/// `0..=MAX_CODEPOINT`.
pub struct RawTable {
    vals: Vec<u8>,
}

impl RawTable {
    #[verifier::type_invariant]
    spec fn inv(self) -> bool {
        &&& self.vals@.len() == CODEPOINT_LIMIT
        &&& forall|i: int| 0 <= i < self.vals@.len() ==> self.vals@[i] < 4
    }

    /// The table contents, one 2-bit value per covered codepoint.
    pub closed spec fn values(self) -> Seq<u8> {
        self.vals@
    }

    /// The classification value at position `cp`: the stored value below
    /// the covered limit, 0 outside it.
    pub open spec fn at(self, cp: int) -> u8 {
        if 0 <= cp < CODEPOINT_LIMIT {
            self.values()[cp]
        } else {
            0
        }
    }

    /// The classification value of a codepoint.
    pub open spec fn spec_value(self, cp: u32) -> u8 {
        self.at(cp as int)
    }

    /// Reads the classification value of a codepoint.
    pub fn value(&self, cp: u32) -> (v: u8)
        ensures
            v == self.spec_value(cp),
            v < 4,
    {
        proof {
            use_type_invariant(self);
        }
        if cp < CODEPOINT_LIMIT {
            self.vals[cp as usize]
        } else {
            0
        }
    }
}

/// Expands parsed property assignments into a dense table over the whole
/// codepoint space: bit 0 records `XID_Start`, bit 1 `XID_Continue`.
pub fn props_table(ranges: &Vec<PropertyRange>) -> (t: Vec<u8>)
    ensures
        t@.len() == SCALAR_LIMIT,
        forall|cp: u32| #![trigger t@[cp as int]]
            cp < SCALAR_LIMIT ==> t@[cp as int] < 4 && value_is_start(t@[cp as int])
                == props_start(ranges@, cp) && value_is_continue(t@[cp as int]) == props_continue(
                ranges@,
                cp,
            ),
{
    proof {
        lemma_value_bits();
    }
    let mut vals: Vec<u8> = Vec::new();
    while vals.len() < 0x110000
        invariant
            vals@.len() <= 0x110000,
            forall|i: int| 0 <= i < vals@.len() ==> vals@[i] == 0,
        decreases 0x110000 - vals@.len(),
    {
        vals.push(0);
    }
    assert forall|cp: u32| cp < SCALAR_LIMIT implies !value_is_start(vals@[cp as int])
        && !value_is_continue(vals@[cp as int]) by {
        assert(vals@[cp as int] == 0);
        assert(!value_is_start(0u8) && !value_is_continue(0u8)) by (bit_vector);
    }
    let mut r: usize = 0;
    while r < ranges.len()
        invariant
            r <= ranges@.len(),
            vals@.len() == 0x110000,
            forall|i: int| 0 <= i < vals@.len() ==> vals@[i] < 4,
            forall|cp: u32| #![trigger vals@[cp as int]]
                cp < SCALAR_LIMIT ==> value_is_start(vals@[cp as int]) == props_start(
                    ranges@.take(r as int),
                    cp,
                ) && value_is_continue(vals@[cp as int]) == props_continue(
                    ranges@.take(r as int),
                    cp,
                ),
        decreases ranges@.len() - r,
    {
        proof {
            lemma_value_bits();
        }
        let bit: u8 = if name_is_xid_start(&ranges[r].name) {
            1
        } else if name_is_xid_continue(&ranges[r].name) {
            2
        } else {
            0
        };
        let ghost pr = ranges@[r as int];
        let ghost old_vals = vals@;
        let start = ranges[r].start;
        let end = ranges[r].end;
        if bit != 0 {
            let mut cp: u32 = start;
            while cp < SCALAR_LIMIT && cp <= end
                invariant
                    vals@.len() == 0x110000,
                    old_vals.len() == 0x110000,
                    cp >= start,
                    cp == start || cp <= end + 1,
                    cp == start || cp <= SCALAR_LIMIT,
                    bit == 1 || bit == 2,
                    forall|c: int| 0 <= c < 0x110000 && !(start <= c < cp) ==> vals@[c]
                        == old_vals[c],
                    forall|c: int| #![trigger vals@[c]]
                        start <= c < cp && c < 0x110000 ==> vals@[c] == old_vals[c] | bit,
                decreases end + 1 - cp,
            {
                let v = vals[cp as usize];
                vals[cp as usize] = v | bit;
                cp = cp + 1;
            }
            assert(forall|c: int| #![trigger vals@[c]]
                start <= c <= end && c < 0x110000 ==> vals@[c] == old_vals[c] | bit);
            assert(forall|c: int| #![trigger vals@[c]]
                0 <= c < 0x110000 && !(start <= c <= end) ==> vals@[c] == old_vals[c]);
        }
        proof {
            let taken = ranges@.take(r as int);
            assert(ranges@.take(r as int + 1) =~= taken.push(pr));
            if bit == 1 {
                assert(crate::props::is_xid_start_name(pr.name@) && !crate::props::is_xid_continue_name(pr.name@));
            } else if bit == 2 {
                assert(!crate::props::is_xid_start_name(pr.name@) && crate::props::is_xid_continue_name(pr.name@));
            } else {
                assert(!crate::props::is_xid_start_name(pr.name@) && !crate::props::is_xid_continue_name(pr.name@));
            }
            assert forall|c: u32| c < SCALAR_LIMIT implies value_is_start(vals@[c as int])
                == props_start(ranges@.take(r as int + 1), c) && value_is_continue(
                vals@[c as int],
            ) == props_continue(ranges@.take(r as int + 1), c) && vals@[c as int] < 4 by {
                lemma_props_push(taken, pr, c);
                assert(old_vals[c as int] < 4);
                if bit != 0 && pr.start <= c <= pr.end {
                    assert(vals@[c as int] == old_vals[c as int] | bit);
                } else {
                    assert(vals@[c as int] == old_vals[c as int]);
                }
            }
        }
        r = r + 1;
    }
    assert(ranges@.take(ranges@.len() as int) =~= ranges@);
    vals
}

/// Expands parsed property assignments into the dense raw table: the
/// full-space table clipped to the covered range.  Assignments above
/// [`MAX_CODEPOINT`] are ignored; the table is defined to be 0 there.
pub fn build_raw_table(ranges: &Vec<PropertyRange>) -> (t: RawTable)
    ensures
        forall|cp: u32| #![trigger t.spec_value(cp)]
            cp < CODEPOINT_LIMIT ==> t.spec_value(cp) < 4 && value_is_start(t.spec_value(cp))
                == props_start(ranges@, cp) && value_is_continue(t.spec_value(cp))
                == props_continue(ranges@, cp),
{
    let mut vals = props_table(ranges);
    let ghost full = vals@;
    vals.truncate(0x100000);
    proof {
        assert(vals@ == full.subrange(0, 0x100000));
        assert forall|cp: u32| cp < CODEPOINT_LIMIT implies vals@[cp as int] == full[cp as int]
            && vals@[cp as int] < 4 by {
            assert(full[cp as int] < 4);
        }
    }
    RawTable { vals }
}

} // verus!
