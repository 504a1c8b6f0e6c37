use vstd::prelude::*;

verus! {

use crate::raw::CODEPOINT_LIMIT;
use crate::raw::RawTable;

/// A run of the run-length encoding: from `start` (inclusive) until the
/// next run's start (exclusive), the classification is `value`.
#[derive(Clone, Copy, Debug, PartialEq, Eq, Structural)]
pub struct Run {
    pub start: u32,
    pub value: u8,
}

/// Shape of a well-formed run sequence covering `[start, limit)`:
/// strictly ascending starts beginning at `start`, 2-bit values, and a
/// final sentinel run at `limit` with value 0.
pub open spec fn runs_wf(runs: Seq<Run>, start: u32, limit: u32) -> bool {
    &&& runs.len() >= 2
    &&& runs[0].start == start
    &&& runs[runs.len() - 1].start == limit
    &&& runs[runs.len() - 1].value == 0
    &&& forall|i: int| #![trigger runs[i]] 0 <= i < runs.len() - 1 ==> runs[i].start < runs[i + 1].start
    &&& forall|i: int| #![trigger runs[i]] 0 <= i < runs.len() ==> runs[i].value < 4
}

/// No run (other than the sentinel) carries the same value as its
/// predecessor.
pub open spec fn runs_maximal(runs: Seq<Run>) -> bool {
    forall|i: int| #![trigger runs[i]] 0 <= i < runs.len() - 2 ==> runs[i].value != runs[i + 1].value
}

/// Every non-sentinel run's interval agrees with the raw table.
pub open spec fn runs_match(runs: Seq<Run>, raw: RawTable) -> bool {
    forall|i: int, c: int| #![trigger runs[i], raw.at(c)]
        0 <= i < runs.len() - 1 && runs[i].start <= c < runs[i + 1].start ==> raw.at(c)
            == runs[i].value
}

/// The index, below `hi`, of the last run whose start is at most `c`
/// (index 0 if there is none).
pub open spec fn run_index_of(runs: Seq<Run>, hi: int, c: int) -> int
    decreases hi,
{
    if hi <= 1 {
        0
    } else if runs[hi - 1].start <= c {
        hi - 1
    } else {
        run_index_of(runs, hi - 1, c)
    }
}

/// The decoded value of a run sequence at offset `c`: the value of the
/// last non-sentinel run whose start is at most `c`.
pub open spec fn run_value_at(runs: Seq<Run>, c: int) -> u8 {
    runs[run_index_of(runs, runs.len() - 1, c)].value
}

/// `run_index_of` names a run that starts at or before `c` and whose
/// successor (if any, below `hi`) starts after `c`.
pub proof fn lemma_run_index_of(runs: Seq<Run>, hi: int, c: int)
    requires
        1 <= hi <= runs.len(),
        runs[0].start <= c,
    ensures
        0 <= run_index_of(runs, hi, c) < hi,
        runs[run_index_of(runs, hi, c)].start <= c,
        run_index_of(runs, hi, c) + 1 < hi ==> c < runs[run_index_of(runs, hi, c) + 1].start,
    decreases hi,
{
    if hi <= 1 {
    } else if runs[hi - 1].start <= c {
    } else {
        lemma_run_index_of(runs, hi - 1, c);
    }
}

/// Starts are sorted across any distance, not only between neighbours.
pub proof fn lemma_runs_sorted(runs: Seq<Run>, a: int, b: int)
    requires
        forall|i: int| #![trigger runs[i]] 0 <= i < runs.len() - 1 ==> runs[i].start < runs[i + 1].start,
        0 <= a <= b < runs.len(),
    ensures
        runs[a].start <= runs[b].start,
    decreases b - a,
{
    if a < b {
        lemma_runs_sorted(runs, a, b - 1);
        assert(runs[b - 1].start < runs[b].start);
    }
}

/// A strictly ascending run sequence grows at least one start per index.
pub proof fn lemma_run_starts_lower(runs: Seq<Run>, j: int)
    requires
        forall|i: int| #![trigger runs[i]] 0 <= i < runs.len() - 1 ==> runs[i].start < runs[i + 1].start,
        0 <= j < runs.len(),
    ensures
        runs[j].start >= runs[0].start + j,
    decreases j,
{
    if j > 0 {
        lemma_run_starts_lower(runs, j - 1);
        assert(runs[j - 1].start < runs[j].start);
    }
}

/// In a well-formed run sequence, each offset of the covered range lies in
/// exactly one run's interval, and the decoded value is that run's value.
pub proof fn lemma_run_decode_interval(runs: Seq<Run>, start: u32, limit: u32, c: int) -> (i: int)
    requires
        runs_wf(runs, start, limit),
        start <= c < limit,
    ensures
        0 <= i < runs.len() - 1,
        runs[i].start <= c < runs[i + 1].start,
        run_value_at(runs, c) == runs[i].value,
{
    let hi = runs.len() - 1;
    lemma_run_index_of(runs, hi, c);
    let i = run_index_of(runs, hi, c);
    if i + 1 == hi {
        assert(runs[hi].start == limit);
    }
    i
}

/// Whichever run's interval an offset falls in, that run's value is the
/// decoded value: intervals of a well-formed sequence do not overlap.
pub proof fn lemma_run_lookup(runs: Seq<Run>, start: u32, limit: u32, j: int, c: int)
    requires
        runs_wf(runs, start, limit),
        0 <= j < runs.len() - 1,
        runs[j].start <= c < runs[j + 1].start,
    ensures
        run_value_at(runs, c) == runs[j].value,
{
    lemma_runs_sorted(runs, 0, j);
    assert(c < limit) by {
        lemma_runs_sorted(runs, j + 1, runs.len() - 1);
    }
    let i = lemma_run_decode_interval(runs, start, limit, c);
    if i < j {
        lemma_runs_sorted(runs, i + 1, j);
        assert(false);
    }
    if j < i {
        lemma_runs_sorted(runs, j + 1, i);
        assert(false);
    }
}

/// Decoding a well-formed, matching run sequence reproduces the raw table
/// bit-for-bit over its covered range.
pub proof fn lemma_run_round_trip(runs: Seq<Run>, raw: RawTable, start: u32, c: int)
    requires
        runs_wf(runs, start, CODEPOINT_LIMIT),
        runs_match(runs, raw),
        start <= c < CODEPOINT_LIMIT,
    ensures
        run_value_at(runs, c) == raw.at(c),
{
    let i = lemma_run_decode_interval(runs, start, CODEPOINT_LIMIT, c);
    assert(raw.at(c) == runs[i].value);
}

/// Compresses the raw table into maximal runs covering
/// `[start, CODEPOINT_LIMIT)`, closed by a sentinel run at the limit: a
/// single left-to-right scan that opens a new run whenever the
/// classification value changes.
pub fn build_runs(raw: &RawTable, start: u32) -> (runs: Vec<Run>)
    requires
        start < CODEPOINT_LIMIT,
    ensures
        runs_wf(runs@, start, CODEPOINT_LIMIT),
        runs_match(runs@, *raw),
        runs_maximal(runs@),
{
    let mut runs: Vec<Run> = Vec::new();
    let mut run_start: u32 = start;
    let mut current: u8 = raw.value(start);
    let mut cp: u32 = start + 1;
    while cp <= CODEPOINT_LIMIT
        invariant
            start < cp <= CODEPOINT_LIMIT + 1,
            start <= run_start < cp,
            current < 4,
            runs@.len() == 0 ==> run_start == start,
            runs@.len() > 0 ==> runs@[0].start == start,
            runs@.len() > 0 ==> runs@[runs@.len() - 1].start < run_start,
            runs@.len() > 0 ==> runs@[runs@.len() - 1].value != current,
            forall|i: int| #![trigger runs@[i]] 0 <= i < runs@.len() - 1 ==> runs@[i].start < runs@[i + 1].start,
            forall|i: int| #![trigger runs@[i]] 0 <= i < runs@.len() ==> runs@[i].value < 4,
            forall|i: int| #![trigger runs@[i]] 0 <= i < runs@.len() - 1 ==> runs@[i].value != runs@[i + 1].value,
            forall|i: int, c: int| #![trigger runs@[i], raw.at(c)]
                0 <= i < runs@.len() - 1 && runs@[i].start <= c < runs@[i + 1].start ==> raw.at(c)
                    == runs@[i].value,
            forall|c: int| #![trigger raw.at(c)]
                runs@.len() > 0 && runs@[runs@.len() - 1].start <= c < run_start ==> raw.at(c)
                    == runs@[runs@.len() - 1].value,
            forall|c: int| #![trigger raw.at(c)] run_start <= c < cp ==> raw.at(c) == current,
        decreases CODEPOINT_LIMIT + 1 - cp,
    {
        let value: u8 = if cp < CODEPOINT_LIMIT {
            raw.value(cp)
        } else {
            0
        };
        assert(value == raw.at(cp as int));
        if value != current {
            runs.push(Run { start: run_start, value: current });
            run_start = cp;
            current = value;
        }
        cp = cp + 1;
    }
    assert(raw.at(CODEPOINT_LIMIT as int) == current);
    assert(current == 0);
    let ghost before = runs@;
    runs.push(Run { start: run_start, value: current });
    if run_start != CODEPOINT_LIMIT {
        let ghost mid = runs@;
        runs.push(Run { start: CODEPOINT_LIMIT, value: 0 });
        proof {
            assert(runs@ =~= mid.push(Run { start: CODEPOINT_LIMIT, value: 0 }));
            assert(runs@[runs@.len() - 2] == Run { start: run_start, value: 0u8 });
        }
    }
    runs
}

/// Decompresses a run sequence back into the dense table segment it
/// covers, one value per codepoint of `[start, CODEPOINT_LIMIT)`.
pub fn expand_runs(runs: &Vec<Run>, start: u32) -> (vals: Vec<u8>)
    requires
        runs_wf(runs@, start, CODEPOINT_LIMIT),
    ensures
        vals@.len() == CODEPOINT_LIMIT - start,
        forall|k: int| 0 <= k < vals@.len() ==> vals@[k] == run_value_at(runs@, start + k),
{
    proof {
        lemma_runs_sorted(runs@, 0, runs@.len() - 1);
    }
    let mut vals: Vec<u8> = Vec::new();
    let mut idx: usize = 0;
    let mut cp: u32 = start;
    while cp < CODEPOINT_LIMIT
        invariant
            runs_wf(runs@, start, CODEPOINT_LIMIT),
            start <= cp <= CODEPOINT_LIMIT,
            vals@.len() == cp - start,
            0 <= idx < runs@.len() - 1,
            runs@[idx as int].start <= cp <= runs@[idx as int + 1].start,
            forall|k: int| 0 <= k < vals@.len() ==> vals@[k] == run_value_at(runs@, start + k),
        decreases CODEPOINT_LIMIT - cp,
    {
        let n = runs.len();
        assert(idx + 1 < n);
        if runs[idx + 1].start <= cp {
            proof {
                assert(runs@[idx as int + 1].start <= cp < CODEPOINT_LIMIT);
                assert(runs@[runs@.len() - 1].start == CODEPOINT_LIMIT);
                if idx as int + 1 == runs@.len() - 1 {
                    assert(false);
                }
            }
            idx = idx + 1;
        }
        let v = runs[idx].value;
        proof {
            lemma_run_lookup(runs@, start, CODEPOINT_LIMIT, idx as int, cp as int);
        }
        vals.push(v);
        cp = cp + 1;
    }
    vals
}

} // verus!
