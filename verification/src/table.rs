use vstd::prelude::*;

verus! {

use crate::class::IDENTIFIER_OTHER;
use crate::class::UnicodeIdentifierClass;
use crate::class::lemma_value_bits;
use crate::class::value_is_continue;
use crate::class::value_is_start;
use crate::props::PropertyRange;
use crate::props::props_continue;
use crate::props::props_start;
use crate::raw::CODEPOINT_LIMIT;
use crate::raw::RawTable;
use crate::runs::Run;
use crate::runs::build_runs;
use crate::runs::lemma_run_decode_interval;
use crate::runs::lemma_run_lookup;
use crate::runs::run_value_at;
use crate::runs::runs_match;
use crate::runs::runs_wf;

/// Number of low codepoint bits grouped into one block.
pub const SHIFT: u32 = 10;

/// Codepoints per block: `2^SHIFT`.
pub const BLOCK_SIZE: u32 = 1024;

/// Mask selecting the in-block offset of a codepoint.
pub const BLOCK_MASK: u32 = 0x3FF;

/// Number of blocks covering the supported codepoint range.
pub const BLOCK_COUNT: u32 = 1024;

/// High bits of a block index, resolved by the first-level table.  Must
/// stay below the block index width (10 bits for [`BLOCK_COUNT`] blocks)
/// so both index levels are non-degenerate.
pub const TOP_BITS: u32 = 6;

/// Number of first-level entries: `2^TOP_BITS`.
pub const TOP_SIZE: u32 = 64;

/// Low bits of a block index, resolved within a second-level table.
pub const LOWER_BITS: u32 = 4;

/// Entries per second-level table: `2^LOWER_BITS`.
pub const LOWER_SIZE: u32 = 16;

/// Mask selecting the low bits of a block index.
pub const LOWER_MASK: u32 = 0xF;

/// Codepoints below this bound answer from the ASCII fast table.
pub const START_CODEPOINT: u32 = 0x80;

/// The fixed classification of the ASCII fast table: letters may start
/// and continue an identifier, digits and `_` may only continue one.
pub open spec fn ascii_class(c: int) -> u8 {
    if (0x41 <= c <= 0x5A) || (0x61 <= c <= 0x7A) {
        3
    } else if (0x30 <= c <= 0x39) || c == 0x5F {
        2
    } else {
        0
    }
}

/// Builds the 128-entry ASCII fast table.
pub fn ascii_table() -> (t: Vec<u8>)
    ensures
        t@.len() == 128,
        forall|c: int| 0 <= c < 128 ==> t@[c] == ascii_class(c),
{
    let mut t: Vec<u8> = Vec::new();
    let mut c: u32 = 0;
    while c < 128
        invariant
            c <= 128,
            t@.len() == c,
            forall|i: int| 0 <= i < c ==> t@[i] == ascii_class(i),
        decreases 128 - c,
    {
        let v: u8 = if (0x41 <= c && c <= 0x5A) || (0x61 <= c && c <= 0x7A) {
            3
        } else if (0x30 <= c && c <= 0x39) || c == 0x5F {
            2
        } else {
            0
        };
        t.push(v);
        c = c + 1;
    }
    t
}

/// The run sequence spelled by parallel start and value arrays.
pub open spec fn pair_runs(starts: Seq<u16>, values: Seq<u8>) -> Seq<Run> {
    Seq::new(starts.len(), |j: int| Run { start: starts[j] as u32, value: values[j] })
}

/// The runs of leaf `k` in a pool of concatenated leaves: `offsets` bounds
/// each leaf's slice of the parallel `starts`/`values` storage.
pub open spec fn pool_leaf(offsets: Seq<u32>, starts: Seq<u16>, values: Seq<u8>, k: int) -> Seq<
    Run,
> {
    pair_runs(
        starts.subrange(offsets[k] as int, offsets[k + 1] as int),
        values.subrange(offsets[k] as int, offsets[k + 1] as int),
    )
}

/// The leaf decodes, at every in-block offset, the raw value of the
/// corresponding codepoint of block `b`.
pub open spec fn block_match(runs: Seq<Run>, raw: RawTable, b: int) -> bool {
    forall|c: int| 0 <= c < BLOCK_SIZE ==> run_value_at(runs, c) == raw.at(b * BLOCK_SIZE + c)
}

/// The compact two-level classification table: an ASCII fast table, a
/// first-level table from the high bits of a block index to a
/// second-level table id, concatenated deduplicated second-level tables
/// from the low bits to a leaf id, and a pool of deduplicated leaves,
/// each a run list in block-local coordinates.
pub struct CompactTable {
    ascii: Vec<u8>,
    level1: Vec<u16>,
    level2: Vec<u16>,
    leaf_offsets: Vec<u32>,
    leaf_starts: Vec<u16>,
    leaf_values: Vec<u8>,
}

impl CompactTable {
    /// Number of distinct leaves in the pool.
    pub closed spec fn leaf_count(self) -> int {
        self.leaf_offsets@.len() - 1
    }

    /// The runs of leaf `k`, in block-local coordinates.
    pub closed spec fn leaf_seq(self, k: int) -> Seq<Run> {
        pool_leaf(self.leaf_offsets@, self.leaf_starts@, self.leaf_values@, k)
    }

    /// The entry of the ASCII fast table.
    pub closed spec fn spec_ascii(self, c: int) -> u8 {
        self.ascii@[c]
    }

    /// The leaf id the two-level index resolves for block `b`.
    pub closed spec fn block_leaf(self, b: int) -> int {
        self.level2@[(self.level1@[b / (LOWER_SIZE as int)] as int) * (LOWER_SIZE as int) + b % (
        LOWER_SIZE as int)] as int
    }

    /// The classification value the general (two-level, run-length) path
    /// decodes for a codepoint below the covered limit.
    pub closed spec fn general_value(self, cp: int) -> u8 {
        run_value_at(
            self.leaf_seq(self.block_leaf(cp / (BLOCK_SIZE as int))),
            cp % (BLOCK_SIZE as int),
        )
    }

    /// The classification value of any codepoint: the ASCII fast table
    /// below [`START_CODEPOINT`], the general path within the covered
    /// range, 0 above it.
    pub open spec fn spec_classify(self, cp: u32) -> u8 {
        if cp < START_CODEPOINT {
            self.spec_ascii(cp as int)
        } else if cp >= CODEPOINT_LIMIT {
            0
        } else {
            self.general_value(cp as int)
        }
    }

    /// The table faithfully represents the raw table `raw`: the ASCII
    /// fast table follows the fixed ASCII rules, and the general path
    /// reproduces `raw` on the whole covered range.
    pub open spec fn represents(self, raw: RawTable) -> bool {
        &&& forall|c: int| #![trigger self.spec_ascii(c)] 0 <= c < 128 ==> self.spec_ascii(c) == ascii_class(c)
        &&& forall|cp: int| #![trigger self.general_value(cp)]
            0 <= cp < CODEPOINT_LIMIT ==> self.general_value(cp) == raw.at(cp)
    }

    #[verifier::type_invariant]
    spec fn inv(self) -> bool {
        &&& self.ascii@.len() == 128
        &&& forall|c: int| 0 <= c < 128 ==> self.ascii@[c] < 4
        &&& self.level1@.len() == TOP_SIZE
        &&& forall|t: int| #![trigger self.level1@[t]]
            0 <= t < TOP_SIZE ==> (self.level1@[t] as int + 1) * (LOWER_SIZE as int)
                <= self.level2@.len()
        &&& forall|j: int| #![trigger self.level2@[j]]
            0 <= j < self.level2@.len() ==> (self.level2@[j] as int) < self.leaf_count()
        &&& self.leaf_offsets@.len() >= 2
        &&& self.leaf_offsets@[self.leaf_offsets@.len() - 1] == self.leaf_starts@.len()
        &&& self.leaf_starts@.len() == self.leaf_values@.len()
        &&& forall|k: int| #![trigger self.leaf_offsets@[k]]
            0 <= k < self.leaf_count() ==> self.leaf_offsets@[k] < self.leaf_offsets@[k + 1]
        &&& forall|k: int| #![trigger self.leaf_offsets@[k]]
            0 <= k <= self.leaf_count() ==> self.leaf_offsets@[k] <= self.leaf_starts@.len()
        &&& forall|k: int| #![trigger self.leaf_seq(k)]
            0 <= k < self.leaf_count() ==> runs_wf(self.leaf_seq(k), 0, BLOCK_SIZE)
    }

    /// Decodes a codepoint of the covered range through the two-level
    /// index and the resolved leaf: the general path, without the ASCII
    /// shortcut.
    pub fn general_class(&self, cp: u32) -> (v: u8)
        requires
            cp < CODEPOINT_LIMIT,
        ensures
            v == self.general_value(cp as int),
    {
        proof {
            use_type_invariant(self);
        }
        let block = cp >> SHIFT;
        let top = (block >> LOWER_BITS) as usize;
        let bottom = (block & LOWER_MASK) as usize;
        proof {
            assert(cp >> 10u32 == cp / 1024 && cp / 1024 < 1024 && (cp >> 10u32) >> 4u32 == (cp
                >> 10u32) / 16 && (cp >> 10u32) & 0xF == (cp >> 10u32) % 16 && (cp >> 10u32) / 16
                < 64) by (bit_vector)
                requires
                    cp < 0x100000,
            ;
        }
        let level2_idx = self.level1[top] as usize;
        let leaf_idx = self.level2[level2_idx * 16 + bottom] as usize;
        let offset = (cp & BLOCK_MASK) as u16;
        proof {
            assert(cp & 0x3FF == cp % 1024 && cp % 1024 < 1024) by (bit_vector);
        }
        self.leaf_value(leaf_idx, offset)
    }

    /// Binary search within one leaf's run list: the value of the last
    /// run whose start is at most `offset`.
    fn leaf_value(&self, leaf: usize, offset: u16) -> (v: u8)
        requires
            self.inv(),
            leaf < self.leaf_count(),
            offset < 1024,
        ensures
            v == run_value_at(self.leaf_seq(leaf as int), offset as int),
    {
        let ghost lruns = self.leaf_seq(leaf as int);
        let n = self.leaf_offsets.len();
        assert(leaf + 1 < n);
        let off = self.leaf_offsets[leaf] as usize;
        let end = self.leaf_offsets[leaf + 1] as usize;
        assert(lruns.len() == end - off && runs_wf(lruns, 0, BLOCK_SIZE));
        assert(lruns[0].start == self.leaf_starts@[off as int]);
        assert(lruns[lruns.len() - 1].start == self.leaf_starts@[end - 1]);
        let mut lo: usize = off;
        let mut hi: usize = end - 1;
        while lo + 1 < hi
            invariant
                self.inv(),
                leaf < self.leaf_count(),
                off == self.leaf_offsets@[leaf as int],
                end == self.leaf_offsets@[leaf as int + 1],
                lruns == self.leaf_seq(leaf as int),
                off <= lo < hi <= end - 1,
                end <= self.leaf_starts@.len(),
                self.leaf_starts@[lo as int] <= offset,
                offset < self.leaf_starts@[hi as int],
            decreases hi - lo,
        {
            let mid = lo + (hi - lo) / 2;
            if self.leaf_starts[mid] <= offset {
                lo = mid;
            } else {
                hi = mid;
            }
        }
        proof {
            let j = lo - off;
            assert(lruns[j] == Run {
                start: self.leaf_starts@[lo as int] as u32,
                value: self.leaf_values@[lo as int],
            });
            assert(lruns[j + 1] == Run {
                start: self.leaf_starts@[lo as int + 1] as u32,
                value: self.leaf_values@[lo as int + 1],
            });
            lemma_run_lookup(lruns, 0, BLOCK_SIZE, j, offset as int);
        }
        self.leaf_values[lo]
    }
}

impl CompactTable {
    /// Builds the compact two-level table from a raw table: compresses it
    /// into runs, slices the runs into per-block leaves deduplicated by
    /// content into the leaf pool, and splits the block index into a
    /// first-level table over deduplicated second-level tables.  The
    /// finished table provably decodes, at every covered codepoint,
    /// exactly the raw table's value.
    ///
    /// Construction is total: every block contributes at most one new
    /// leaf, so leaf and second-level ids provably fit their 16-bit
    /// width, and the run-storage offsets are 32 bits, wide enough for
    /// the worst case of all-distinct leaves.  No index width can
    /// overflow, so no input is rejected.
    #[verifier::rlimit(100)]
    pub fn build(raw: &RawTable) -> (t: CompactTable)
        ensures
            t.represents(*raw),
    {
        let runs = build_runs(raw, 0);
        let bi = build_block_index(&runs);
        let mut leaf_offsets: Vec<u32> = Vec::new();
        leaf_offsets.push(0);
        let mut leaf_starts: Vec<u16> = Vec::new();
        let mut leaf_values: Vec<u8> = Vec::new();
        let mut block_ids: Vec<u16> = Vec::new();
        let mut b: usize = 0;
        while b < 1024
            invariant
                runs_wf(runs@, 0, CODEPOINT_LIMIT),
                runs_match(runs@, *raw),
                bi@.len() == 1024,
                forall|b2: int| #![trigger bi@[b2]]
                    0 <= b2 < 1024 ==> (bi@[b2] as int) < runs@.len() - 1 && runs@[bi@[
                    b2] as int].start <= b2 * 1024 && b2 * 1024 < runs@[bi@[b2] as int + 1].start,
                b <= 1024,
                block_ids@.len() == b,
                leaf_offsets@.len() >= 1,
                b > 0 ==> leaf_offsets@.len() >= 2,
                leaf_offsets@[0] == 0,
                leaf_offsets@.len() - 1 <= b,
                leaf_offsets@[leaf_offsets@.len() - 1] == leaf_starts@.len(),
                leaf_starts@.len() == leaf_values@.len(),
                leaf_starts@.len() <= 1025 * (leaf_offsets@.len() - 1),
                forall|k: int| #![trigger leaf_offsets@[k]]
                    0 <= k < leaf_offsets@.len() - 1 ==> leaf_offsets@[k] < leaf_offsets@[k + 1],
                forall|k: int| #![trigger leaf_offsets@[k]]
                    0 <= k < leaf_offsets@.len() ==> leaf_offsets@[k] <= leaf_starts@.len(),
                forall|k: int| #![trigger pool_leaf(leaf_offsets@, leaf_starts@, leaf_values@, k)]
                    0 <= k < leaf_offsets@.len() - 1 ==> runs_wf(
                        pool_leaf(leaf_offsets@, leaf_starts@, leaf_values@, k),
                        0,
                        BLOCK_SIZE,
                    ),
                forall|b2: int| #![trigger block_ids@[b2]]
                    0 <= b2 < b ==> (block_ids@[b2] as int) < leaf_offsets@.len() - 1
                        && block_match(
                        pool_leaf(
                            leaf_offsets@,
                            leaf_starts@,
                            leaf_values@,
                            block_ids@[b2] as int,
                        ),
                        *raw,
                        b2,
                    ),
            decreases 1024 - b,
        {
            let (ls, lv) = build_leaf(&runs, bi[b], b as u32, Ghost(*raw));
            let ghost lruns = pair_runs(ls@, lv@);
            let count = leaf_offsets.len() - 1;
            let mut id: usize = count;
            let mut k: usize = 0;
            while k < count
                invariant
                    count == leaf_offsets@.len() - 1,
                    leaf_starts@.len() == leaf_values@.len(),
                    forall|k2: int| #![trigger leaf_offsets@[k2]]
                        0 <= k2 < count ==> leaf_offsets@[k2] < leaf_offsets@[k2 + 1],
                    forall|k2: int| #![trigger leaf_offsets@[k2]]
                        0 <= k2 < leaf_offsets@.len() ==> leaf_offsets@[k2] <= leaf_starts@.len(),
                    k <= count,
                    id <= count,
                    ls@.len() == lv@.len(),
                    id < count ==> pool_leaf(leaf_offsets@, leaf_starts@, leaf_values@, id as int)
                        == pair_runs(ls@, lv@),
                decreases count - k,
            {
                if id == count {
                    let off = leaf_offsets[k] as usize;
                    let end = leaf_offsets[k + 1] as usize;
                    if leaf_equal(&leaf_starts, &leaf_values, off, end, &ls, &lv) {
                        id = k;
                    }
                }
                k = k + 1;
            }
            if id == count {
                proof {
                    crate::runs::lemma_run_starts_lower(lruns, lruns.len() - 1);
                    assert(ls@.len() <= 1025);
                }
                let ghost old_starts = leaf_starts@;
                let ghost old_values = leaf_values@;
                let ghost old_offsets = leaf_offsets@;
                let mut ls_in = ls;
                let mut lv_in = lv;
                leaf_starts.append(&mut ls_in);
                leaf_values.append(&mut lv_in);
                let new_len = leaf_starts.len();
                leaf_offsets.push(new_len as u32);
                proof {
                    assert forall|k2: int|
                        0 <= k2 < count implies pool_leaf(
                        leaf_offsets@,
                        leaf_starts@,
                        leaf_values@,
                        k2,
                    ) == pool_leaf(old_offsets, old_starts, old_values, k2) by {
                        lemma_subrange_extend(
                            old_starts,
                            ls@,
                            old_offsets[k2] as int,
                            old_offsets[k2 + 1] as int,
                        );
                        lemma_subrange_extend(
                            old_values,
                            lv@,
                            old_offsets[k2] as int,
                            old_offsets[k2 + 1] as int,
                        );
                        assert(leaf_offsets@[k2] == old_offsets[k2] && leaf_offsets@[k2 + 1]
                            == old_offsets[k2 + 1]);
                    }
                    assert(leaf_starts@.subrange(
                        old_starts.len() as int,
                        old_starts.len() + ls@.len() as int,
                    ) =~= ls@);
                    assert(leaf_values@.subrange(
                        old_values.len() as int,
                        old_values.len() + lv@.len() as int,
                    ) =~= lv@);
                    assert(pool_leaf(leaf_offsets@, leaf_starts@, leaf_values@, count as int)
                        == pair_runs(ls@, lv@));
                    assert forall|k2: int|
                        0 <= k2 < leaf_offsets@.len() - 1 implies runs_wf(
                        pool_leaf(leaf_offsets@, leaf_starts@, leaf_values@, k2),
                        0,
                        BLOCK_SIZE,
                    ) by {
                        if k2 < count {
                            assert(pool_leaf(leaf_offsets@, leaf_starts@, leaf_values@, k2)
                                == pool_leaf(old_offsets, old_starts, old_values, k2));
                        }
                    }
                    assert forall|b2: int| 0 <= b2 < b implies block_match(
                        pool_leaf(
                            leaf_offsets@,
                            leaf_starts@,
                            leaf_values@,
                            block_ids@[b2] as int,
                        ),
                        *raw,
                        b2,
                    ) by {
                        assert(pool_leaf(
                            leaf_offsets@,
                            leaf_starts@,
                            leaf_values@,
                            block_ids@[b2] as int,
                        ) == pool_leaf(old_offsets, old_starts, old_values, block_ids@[b2] as int));
                    }
                }
            }
            proof {
                assert(pool_leaf(leaf_offsets@, leaf_starts@, leaf_values@, id as int)
                    == pair_runs(ls@, lv@));
            }
            block_ids.push(id as u16);
            b = b + 1;
        }
        let ghost f_offsets = leaf_offsets@;
        let ghost f_starts = leaf_starts@;
        let ghost f_values = leaf_values@;
        let leaf_count = leaf_offsets.len() - 1;
        let mut level1: Vec<u16> = Vec::new();
        let mut level2: Vec<u16> = Vec::new();
        let mut top: usize = 0;
        while top < 64
            invariant
                block_ids@.len() == 1024,
                forall|b2: int| #![trigger block_ids@[b2]]
                    0 <= b2 < 1024 ==> (block_ids@[b2] as int) < f_offsets.len() - 1,
                top <= 64,
                level1@.len() == top,
                level2@.len() % 16 == 0,
                level2@.len() <= 16 * top,
                forall|j: int| #![trigger level2@[j]]
                    0 <= j < level2@.len() ==> (level2@[j] as int) < f_offsets.len() - 1,
                forall|t2: int| #![trigger level1@[t2]]
                    0 <= t2 < top ==> ((level1@[t2] as int) + 1) * 16 <= level2@.len()
                        && level2@.subrange(
                        (level1@[t2] as int) * 16,
                        ((level1@[t2] as int) + 1) * 16,
                    ) == block_ids@.subrange(t2 * 16, (t2 + 1) * 16),
            decreases 64 - top,
        {
            let t2count = level2.len() / 16;
            let mut id: usize = t2count;
            let mut k: usize = 0;
            while k < t2count
                invariant
                    block_ids@.len() == 1024,
                    top < 64,
                    t2count == level2@.len() / 16,
                    level2@.len() % 16 == 0,
                    level2@.len() <= 16 * top,
                    k <= t2count,
                    id <= t2count,
                    id < t2count ==> level2@.subrange(id * 16, (id + 1) * 16)
                        == block_ids@.subrange(top * 16, (top + 1) * 16),
                decreases t2count - k,
            {
                if id == t2count {
                    if table_equal(&level2, k, &block_ids, top) {
                        id = k;
                    }
                }
                k = k + 1;
            }
            if id == t2count {
                let ghost old_level2 = level2@;
                let ghost target = block_ids@.subrange(top * 16, (top + 1) * 16);
                let mut low: usize = 0;
                while low < 16
                    invariant
                        block_ids@.len() == 1024,
                        top < 64,
                        low <= 16,
                        target == block_ids@.subrange(top * 16, (top + 1) * 16),
                        level2@ == old_level2 + block_ids@.subrange(top * 16, top * 16 + low),
                    decreases 16 - low,
                {
                    proof {
                        assert(block_ids@.subrange(top * 16, top * 16 + (low + 1))
                            =~= block_ids@.subrange(top * 16, top * 16 + low).push(
                            block_ids@[top * 16 + low],
                        ));
                    }
                    level2.push(block_ids[top * 16 + low]);
                    low = low + 1;
                }
                proof {
                    assert(level2@ == old_level2 + target);
                    assert(level2@.subrange(old_level2.len() as int, old_level2.len() + 16int)
                        =~= target);
                    assert forall|j: int| 0 <= j < level2@.len() implies (level2@[j] as int)
                        < f_offsets.len() - 1 by {
                        if j >= old_level2.len() {
                            assert(level2@[j] == target[j - old_level2.len()]);
                            assert(target[j - old_level2.len()] == block_ids@[top * 16 + (j
                                - old_level2.len())]);
                        }
                    }
                    assert forall|t2: int|
                        0 <= t2 < top implies ((level1@[t2] as int) + 1) * 16 <= level2@.len()
                        && level2@.subrange((level1@[t2] as int) * 16, ((level1@[t2] as int) + 1)
                        * 16) == block_ids@.subrange(t2 * 16, (t2 + 1) * 16) by {
                        assert(((level1@[t2] as int) + 1) * 16 <= old_level2.len());
                        lemma_subrange_extend(
                            old_level2,
                            target,
                            (level1@[t2] as int) * 16,
                            ((level1@[t2] as int) + 1) * 16,
                        );
                    }
                    assert(level2@.subrange(t2count * 16, (t2count + 1) * 16) == block_ids@
                        .subrange(top * 16, (top + 1) * 16));
                }
            }
            level1.push(id as u16);
            top = top + 1;
        }
        let ascii = ascii_table();
        proof {
            assert forall|c: int| 0 <= c < 128 implies ascii@[c] < 4 by {
                assert(ascii@[c] == ascii_class(c));
            }
        }
        let t = CompactTable { ascii, level1, level2, leaf_offsets, leaf_starts, leaf_values };
        proof {
            lemma_decode_assembled(t, *raw, block_ids@);
        }
        t
    }
}

/// A table whose two-level index resolves every block to a leaf that
/// matches the raw table decodes every covered codepoint to its raw value.
proof fn lemma_decode_assembled(t: CompactTable, raw: RawTable, ids: Seq<u16>)
    requires
        ids.len() == 1024,
        forall|t2: int| #![trigger t.level1@[t2]]
            0 <= t2 < 64 ==> ((t.level1@[t2] as int) + 1) * 16 <= t.level2@.len()
                && t.level2@.subrange((t.level1@[t2] as int) * 16, ((t.level1@[t2] as int) + 1)
                * 16) == ids.subrange(t2 * 16, (t2 + 1) * 16),
        forall|b2: int| #![trigger ids[b2]]
            0 <= b2 < 1024 ==> block_match(t.leaf_seq(ids[b2] as int), raw, b2),
    ensures
        forall|cp: int| #![trigger t.general_value(cp)]
            0 <= cp < CODEPOINT_LIMIT ==> t.general_value(cp) == raw.at(cp),
{
    assert forall|cp: int| 0 <= cp < CODEPOINT_LIMIT implies t.general_value(cp) == raw.at(
        cp,
    ) by {
        vstd::arithmetic::div_mod::lemma_fundamental_div_mod(cp, 1024);
        vstd::arithmetic::div_mod::lemma_mod_bound(cp, 1024);
        let blk = cp / 1024;
        let c = cp % 1024;
        assert(0 <= blk < 1024);
        vstd::arithmetic::div_mod::lemma_fundamental_div_mod(blk, 16);
        vstd::arithmetic::div_mod::lemma_mod_bound(blk, 16);
        let t2 = blk / 16;
        let low = blk % 16;
        assert(0 <= t2 < 64);
        let l2id = t.level1@[t2] as int;
        assert(t.level2@.subrange(l2id * 16, (l2id + 1) * 16) == ids.subrange(
            t2 * 16,
            (t2 + 1) * 16,
        ));
        assert(t.level2@[l2id * 16 + low] == t.level2@.subrange(l2id * 16, (l2id + 1) * 16)[low]);
        assert(ids[t2 * 16 + low] == ids.subrange(t2 * 16, (t2 + 1) * 16)[low]);
        assert(t2 * 16 + low == blk);
        assert(t.block_leaf(blk) == ids[blk] as int);
        assert(block_match(t.leaf_seq(ids[blk] as int), raw, blk));
        assert(run_value_at(t.leaf_seq(ids[blk] as int), c) == raw.at(blk * 1024 + c));
    }
}

/// A subrange taken below the original length is unchanged by appending.
proof fn lemma_subrange_extend<T>(s: Seq<T>, t: Seq<T>, a: int, b: int)
    requires
        0 <= a <= b <= s.len(),
    ensures
        (s + t).subrange(a, b) =~= s.subrange(a, b),
{
}

/// Precomputes, for each block, the index of the run covering the block's
/// first codepoint.
fn build_block_index(runs: &Vec<Run>) -> (bi: Vec<usize>)
    requires
        runs_wf(runs@, 0, CODEPOINT_LIMIT),
    ensures
        bi@.len() == BLOCK_COUNT,
        forall|b: int| #![trigger bi@[b]]
            0 <= b < BLOCK_COUNT ==> (bi@[b] as int) < runs@.len() - 1
                && runs@[bi@[b] as int].start <= b * BLOCK_SIZE && b * BLOCK_SIZE < runs@[bi@[
                b] as int + 1].start,
{
    let mut bi: Vec<usize> = Vec::new();
    let mut run_idx: usize = 0;
    let mut block: u32 = 0;
    while block < BLOCK_COUNT
        invariant
            runs_wf(runs@, 0, CODEPOINT_LIMIT),
            block <= BLOCK_COUNT,
            bi@.len() == block,
            (run_idx as int) < runs@.len() - 1,
            runs@[run_idx as int].start <= block * BLOCK_SIZE,
            forall|b: int| #![trigger bi@[b]]
                0 <= b < block ==> (bi@[b] as int) < runs@.len() - 1
                    && runs@[bi@[b] as int].start <= b * BLOCK_SIZE && b * BLOCK_SIZE < runs@[bi@[
                    b] as int + 1].start,
        decreases BLOCK_COUNT - block,
    {
        let block_start = block << SHIFT;
        proof {
            assert(block << 10u32 == block * 1024) by (bit_vector)
                requires
                    block < 1024u32,
            ;
        }
        let n = runs.len();
        assert(run_idx + 1 < n);
        while runs[run_idx + 1].start <= block_start
            invariant
                runs_wf(runs@, 0, CODEPOINT_LIMIT),
                n == runs@.len(),
                (run_idx as int) < runs@.len() - 1,
                runs@[run_idx as int].start <= block_start,
                block < 1024,
                block_start == block * 1024,
            decreases runs@.len() - run_idx,
        {
            run_idx = run_idx + 1;
            proof {
                if run_idx as int == runs@.len() - 1 {
                    assert(runs@[run_idx as int].start == CODEPOINT_LIMIT);
                    assert(false);
                }
            }
        }
        bi.push(run_idx);
        block = block + 1;
    }
    bi
}

/// Slices the run sequence to one block: the runs overlapping the block,
/// clipped to its boundary and re-expressed in block-local coordinates,
/// closed by a local sentinel at the block size.  This is the block's
/// leaf shape.
fn build_leaf(runs: &Vec<Run>, start_idx: usize, block: u32, Ghost(raw): Ghost<RawTable>) -> (r: (
    Vec<u16>,
    Vec<u8>,
))
    requires
        runs_wf(runs@, 0, CODEPOINT_LIMIT),
        runs_match(runs@, raw),
        block < BLOCK_COUNT,
        (start_idx as int) < runs@.len() - 1,
        runs@[start_idx as int].start <= block * BLOCK_SIZE,
        block * BLOCK_SIZE < runs@[start_idx as int + 1].start,
    ensures
        r.0@.len() == r.1@.len(),
        runs_wf(pair_runs(r.0@, r.1@), 0, BLOCK_SIZE),
        block_match(pair_runs(r.0@, r.1@), raw, block as int),
{
    let block_start = block << SHIFT;
    proof {
        assert(block << 10u32 == block * 1024) by (bit_vector)
            requires
                block < 1024u32,
        ;
    }
    let block_end = block_start + BLOCK_SIZE;
    let n = runs.len();
    let mut idx = start_idx;
    let mut ls: Vec<u16> = Vec::new();
    let mut lv: Vec<u8> = Vec::new();
    ls.push(0);
    lv.push(runs[idx].value);
    assert(runs@[idx as int].start <= block_start + ls@[0]);
    while runs[idx + 1].start < block_end
        invariant
            runs_wf(runs@, 0, CODEPOINT_LIMIT),
            runs_match(runs@, raw),
            n == runs@.len(),
            block < 1024,
            block_start == block * 1024,
            block_end == block_start + 1024,
            (idx as int) < runs@.len() - 1,
            ls@.len() == lv@.len(),
            ls@.len() >= 1,
            ls@[0] == 0,
            forall|j: int| #![trigger ls@[j]] 0 <= j < ls@.len() - 1 ==> ls@[j] < ls@[j + 1],
            forall|j: int| #![trigger ls@[j]] 0 <= j < ls@.len() ==> ls@[j] < 1024,
            forall|j: int| #![trigger lv@[j]] 0 <= j < lv@.len() ==> lv@[j] < 4,
            lv@[ls@.len() - 1] == runs@[idx as int].value,
            runs@[idx as int].start <= block_start + ls@[ls@.len() - 1],
            block_start + ls@[ls@.len() - 1] < runs@[idx as int + 1].start,
            block_start < runs@[idx as int + 1].start,
            forall|j: int, a: int| #![trigger ls@[j], raw.at(a)]
                0 <= j < ls@.len() - 1 && block_start + ls@[j] <= a < block_start + ls@[j + 1]
                    ==> raw.at(a) == lv@[j],
        decreases runs@.len() - idx,
    {
        idx = idx + 1;
        proof {
            if idx as int == runs@.len() - 1 {
                assert(runs@[idx as int].start == CODEPOINT_LIMIT);
                assert(false);
            }
        }
        let s = runs[idx].start;
        let ghost prev = ls@.len() - 1;
        ls.push((s - block_start) as u16);
        lv.push(runs[idx].value);
        proof {
            assert forall|a: int|
                block_start + ls@[prev] <= a < block_start + ls@[prev + 1] implies raw.at(a)
                == lv@[prev] by {
                assert(runs@[idx - 1].start <= a < runs@[idx as int].start);
                assert(runs@[idx - 1].value == lv@[prev]);
            }
        }
    }
    let last = runs[idx].value;
    let ghost prev = ls@.len() - 1;
    ls.push(1024);
    lv.push(0);
    proof {
        assert forall|a: int|
            block_start + ls@[prev] <= a < block_start + ls@[prev + 1] implies raw.at(a)
            == lv@[prev] by {
            assert(runs@[idx as int].start <= a < runs@[idx as int + 1].start);
        }
        let lruns = pair_runs(ls@, lv@);
        assert(lruns.len() == ls@.len());
        assert forall|j: int| 0 <= j < lruns.len() implies lruns[j] == (Run {
            start: ls@[j] as u32,
            value: lv@[j],
        }) by {}
        assert(runs_wf(lruns, 0, BLOCK_SIZE));
        assert forall|c: int| 0 <= c < BLOCK_SIZE implies run_value_at(lruns, c) == raw.at(
            (block as int) * BLOCK_SIZE + c,
        ) by {
            let j = lemma_run_decode_interval(lruns, 0, BLOCK_SIZE, c);
            assert(ls@[j] <= (block as int) * 1024 + c - block_start < ls@[j + 1]);
            assert(raw.at((block as int) * 1024 + c) == lv@[j]);
        }
    }
    (ls, lv)
}

/// Compares the stored leaf slice `[off, end)` of the pool against a
/// candidate leaf, by full content equality.
fn leaf_equal(
    starts: &Vec<u16>,
    values: &Vec<u8>,
    off: usize,
    end: usize,
    ls: &Vec<u16>,
    lv: &Vec<u8>,
) -> (r: bool)
    requires
        off <= end <= starts@.len(),
        starts@.len() == values@.len(),
        ls@.len() == lv@.len(),
    ensures
        r == (starts@.subrange(off as int, end as int) == ls@ && values@.subrange(
            off as int,
            end as int,
        ) == lv@),
{
    if end - off != ls.len() {
        proof {
            assert(starts@.subrange(off as int, end as int).len() == end - off);
        }
        return false;
    }
    let mut j: usize = 0;
    while j < ls.len()
        invariant
            off <= end <= starts@.len(),
            starts@.len() == values@.len(),
            ls@.len() == lv@.len(),
            end - off == ls@.len(),
            j <= ls@.len(),
            forall|i: int| #![trigger ls@[i]] 0 <= i < j ==> starts@[off + i] == ls@[i],
            forall|i: int| #![trigger lv@[i]] 0 <= i < j ==> values@[off + i] == lv@[i],
        decreases ls@.len() - j,
    {
        if starts[off + j] != ls[j] {
            proof {
                assert(starts@.subrange(off as int, end as int)[j as int] == starts@[off + j]);
            }
            return false;
        }
        if values[off + j] != lv[j] {
            proof {
                assert(values@.subrange(off as int, end as int)[j as int] == values@[off + j]);
            }
            return false;
        }
        j = j + 1;
    }
    proof {
        assert(starts@.subrange(off as int, end as int) =~= ls@);
        assert(values@.subrange(off as int, end as int) =~= lv@);
    }
    true
}

/// Compares the stored second-level table `t2` against the 16 leaf ids of
/// block group `top`.
fn table_equal(level2: &Vec<u16>, t2: usize, ids: &Vec<u16>, top: usize) -> (r: bool)
    requires
        (t2 + 1) * 16 <= level2@.len(),
        (top + 1) * 16 <= ids@.len(),
    ensures
        r == (level2@.subrange(t2 * 16, (t2 + 1) * 16) == ids@.subrange(
            top * 16,
            (top + 1) * 16,
        )),
{
    let ghost sub1 = level2@.subrange(t2 * 16, (t2 + 1) * 16);
    let ghost sub2 = ids@.subrange(top * 16, (top + 1) * 16);
    let n1 = level2.len();
    let n2 = ids.len();
    let mut low: usize = 0;
    while low < 16
        invariant
            (t2 + 1) * 16 <= n1 == level2@.len(),
            (top + 1) * 16 <= n2 == ids@.len(),
            low <= 16,
            sub1 == level2@.subrange(t2 * 16, (t2 + 1) * 16),
            sub2 == ids@.subrange(top * 16, (top + 1) * 16),
            forall|i: int| #![trigger sub1[i]] 0 <= i < low ==> sub1[i] == sub2[i],
        decreases 16 - low,
    {
        proof {
            assert(sub1[low as int] == level2@[t2 * 16 + low]);
            assert(sub2[low as int] == ids@[top * 16 + low]);
        }
        if level2[t2 * 16 + low] != ids[top * 16 + low] {
            return false;
        }
        low = low + 1;
    }
    proof {
        assert(sub1 =~= sub2);
    }
    true
}

/// Returns whether the codepoint specified has the property `XID_Start`
/// or the property `XID_Continue` under the given table: the ASCII fast
/// table below 0x80, nothing at or above the covered limit, the two-level
/// index otherwise.
#[inline]
pub fn unicode_identifier_class(table: &CompactTable, cp: char) -> (r: UnicodeIdentifierClass)
    ensures
        r.bits() == table.spec_classify(cp as u32),
{
    let c = cp as u32;
    if c < START_CODEPOINT {
        proof {
            use_type_invariant(table);
        }
        UnicodeIdentifierClass::from_bits(table.ascii[c as usize])
    } else if c >= CODEPOINT_LIMIT {
        UnicodeIdentifierClass::from_bits(IDENTIFIER_OTHER)
    } else {
        UnicodeIdentifierClass::from_bits(table.general_class(c))
    }
}

/// Bounded-range totality: every codepoint at or above the covered limit
/// classifies as carrying neither identifier property.
pub proof fn lemma_bounded_range_totality(t: CompactTable, cp: u32)
    requires
        cp >= CODEPOINT_LIMIT,
    ensures
        t.spec_classify(cp) == 0,
        !value_is_start(t.spec_classify(cp)),
        !value_is_continue(t.spec_classify(cp)),
{
    assert(!value_is_start(0u8) && !value_is_continue(0u8)) by (bit_vector);
}

/// ASCII/general-path agreement: when the raw table agrees with the fixed
/// ASCII rules on the ASCII range — as the Unicode data does — the ASCII
/// fast path and the general two-level path decode every ASCII codepoint
/// identically.
pub proof fn lemma_ascii_agreement(t: CompactTable, raw: RawTable, cp: u32)
    requires
        t.represents(raw),
        forall|c: int| 0 <= c < 128 ==> raw.at(c) == ascii_class(c),
        cp < START_CODEPOINT,
    ensures
        t.spec_classify(cp) == t.general_value(cp as int),
{
    assert(raw.at(cp as int) == ascii_class(cp as int));
    assert(t.general_value(cp as int) == raw.at(cp as int));
}

/// Ground-truth equivalence: a compact table that represents the raw
/// table of the parsed property assignments classifies every Unicode
/// scalar value exactly as the assignments do — provided the assignments
/// match the fixed ASCII rules below 0x80 and assign nothing at or above
/// the covered limit, as the Unicode data does.
pub proof fn lemma_ground_truth_equivalence(
    t: CompactTable,
    raw: RawTable,
    ranges: Seq<PropertyRange>,
    cp: u32,
)
    requires
        t.represents(raw),
        forall|c: u32| #![trigger raw.spec_value(c)]
            c < CODEPOINT_LIMIT ==> value_is_start(raw.spec_value(c)) == props_start(ranges, c)
                && value_is_continue(raw.spec_value(c)) == props_continue(ranges, c),
        forall|c: int| 0 <= c < 128 ==> raw.at(c) == ascii_class(c),
        forall|c: u32| #![trigger props_start(ranges, c)]
            CODEPOINT_LIMIT <= c ==> !props_start(ranges, c) && !props_continue(ranges, c),
        cp <= 0x10FFFF,
    ensures
        value_is_start(t.spec_classify(cp)) == props_start(ranges, cp),
        value_is_continue(t.spec_classify(cp)) == props_continue(ranges, cp),
{
    lemma_value_bits();
    if cp < START_CODEPOINT {
        assert(t.spec_classify(cp) == ascii_class(cp as int));
        assert(raw.spec_value(cp) == ascii_class(cp as int));
    } else if cp < CODEPOINT_LIMIT {
        assert(t.spec_classify(cp) == t.general_value(cp as int));
        assert(t.general_value(cp as int) == raw.at(cp as int));
        assert(raw.spec_value(cp) == raw.at(cp as int));
    } else {
        assert(t.spec_classify(cp) == 0);
        assert(!value_is_start(0u8) && !value_is_continue(0u8)) by (bit_vector);
    }
}

} // verus!
