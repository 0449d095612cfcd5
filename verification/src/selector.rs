use vstd::prelude::*;
use crate::errors::AppError;
use crate::ledger::{HistoryEntry, lemma_count_le_len, spec_count};
use crate::rng::rand_below;
use crate::weight::{Weight, is_weight_of};

verus! {

/// A candidate for the current selection round: a file path discovered by
/// the scan, and how often the ledger says it has been picked before.
/// Candidates are rebuilt from the ledger on every round and never
/// persisted.
pub struct VideoEntry {
    /// The full path to the video file.
    pub path: String,
    /// The number of times this video stands in the history ledger.
    pub pick_count: usize,
}

impl Clone for VideoEntry {
    fn clone(&self) -> (res: Self)
        ensures
            res == *self,
    {
        VideoEntry { path: self.path.clone(), pick_count: self.pick_count }
    }
}

impl VideoEntry {
    /// Packs a path and a pick count into a candidate.
    pub fn new(path: String, pick_count: usize) -> (e: Self)
        ensures
            e.path == path,
            e.pick_count == pick_count,
    {
        VideoEntry { path, pick_count }
    }

    /// The selection weight of this candidate: exactly `1 / (pick_count + 1)`.
    pub fn weight(&self) -> (w: Weight)
        requires
            self.pick_count < usize::MAX,
        ensures
            is_weight_of(w, self.pick_count as int),
    {
        Weight { num: 1, den: self.pick_count + 1 }
    }
}

/// `e` is a faithful candidate for `candidates` under `history`: its path is
/// one of the candidate paths and its pick count is that path's count in the
/// ledger.
pub open spec fn is_valid_selection(
    e: VideoEntry,
    candidates: Seq<String>,
    history: Seq<HistoryEntry>,
) -> bool {
    &&& exists|i: int| 0 <= i < candidates.len() && e.path@ == candidates[i]@
    &&& e.pick_count == spec_count(history, e.path@)
}

/// With a single candidate, a faithful selection can only be that candidate,
/// whatever the ledger holds.
pub proof fn lemma_single_candidate_selected(
    e: VideoEntry,
    candidates: Seq<String>,
    history: Seq<HistoryEntry>,
)
    requires
        candidates.len() == 1,
        is_valid_selection(e, candidates, history),
    ensures
        e.path@ == candidates[0]@,
{
}

/// One candidate per path, each with its pick count read from the ledger.
pub fn build_entries(candidates: &Vec<String>, history: &Vec<HistoryEntry>) -> (entries: Vec<
    VideoEntry,
>)
    ensures
        entries@.len() == candidates@.len(),
        forall|i: int|
            0 <= i < entries@.len() ==> entries@[i].path@ == candidates@[i]@
                && entries@[i].pick_count == spec_count(history@, candidates@[i]@),
{
    let mut entries: Vec<VideoEntry> = Vec::new();
    let mut i: usize = 0;
    while i < candidates.len()
        invariant
            i <= candidates@.len(),
            entries@.len() == i,
            forall|k: int|
                0 <= k < i ==> entries@[k].path@ == candidates@[k]@ && entries@[k].pick_count
                    == spec_count(history@, candidates@[k]@),
        decreases candidates@.len() - i,
    {
        let n = crate::ledger::count_picks(history, candidates[i].as_str());
        entries.push(VideoEntry::new(candidates[i].clone(), n));
        i += 1;
    }
    entries
}

/// The denominator scale the executable draw works at: weights are carried
/// as `WEIGHT_SCALE / (pick_count + 1)` rounded down, floored at 1 so that
/// no candidate's probability mass is ever zero.
pub const WEIGHT_SCALE: u64 = 4294967296;

/// The integer mass the draw gives a pick count `c`: the exact weight
/// `1 / (c + 1)` scaled by `WEIGHT_SCALE` and rounded down, floored at 1.
pub open spec fn spec_scaled_weight(c: int) -> int {
    let w = (WEIGHT_SCALE as int) / (c + 1);
    if w < 1 {
        1
    } else {
        w
    }
}

/// The scaled mass never vanishes and never grows with the pick count: a
/// candidate picked more often never draws a larger mass.
pub proof fn lemma_scaled_weight_monotone(c1: int, c2: int)
    requires
        0 <= c1 <= c2,
    ensures
        1 <= spec_scaled_weight(c2) <= spec_scaled_weight(c1) <= WEIGHT_SCALE,
{
    vstd::arithmetic::div_mod::lemma_div_is_ordered_by_denominator(
        WEIGHT_SCALE as int,
        c1 + 1,
        c2 + 1,
    );
    vstd::arithmetic::div_mod::lemma_div_is_ordered_by_denominator(WEIGHT_SCALE as int, 1, c1 + 1);
    assert((WEIGHT_SCALE as int) / 1 == WEIGHT_SCALE as int);
}

/// The integer mass handed to the draw for a candidate picked `pick_count`
/// times before.
pub fn scaled_weight(pick_count: usize) -> (w: u64)
    requires
        pick_count < usize::MAX,
    ensures
        w == spec_scaled_weight(pick_count as int),
        1 <= w <= WEIGHT_SCALE,
{
    let d = (pick_count + 1) as u64;
    let w = WEIGHT_SCALE / d;
    if w < 1 {
        1
    } else {
        w
    }
}

/// The total mass of a list of weights.
pub open spec fn spec_sum(ws: Seq<u64>) -> int
    decreases ws.len(),
{
    if ws.len() == 0 {
        0
    } else {
        ws[0] + spec_sum(ws.drop_first())
    }
}

/// Appending a weight adds exactly its mass to the total.
proof fn lemma_sum_push(ws: Seq<u64>, w: u64)
    ensures
        spec_sum(ws.push(w)) == spec_sum(ws) + w,
    decreases ws.len(),
{
    if ws.len() == 0 {
        assert(ws.push(w)[0] == w);
        assert(ws.push(w).drop_first() =~= ws);
    } else {
        assert(ws.push(w)[0] == ws[0]);
        assert(ws.push(w).drop_first() =~= ws.drop_first().push(w));
        lemma_sum_push(ws.drop_first(), w);
    }
}

/// A list of positive weights has at least one unit of mass per entry, and
/// at most `u64::MAX` units per entry.
proof fn lemma_sum_bounds(ws: Seq<u64>)
    requires
        forall|k: int| 0 <= k < ws.len() ==> ws[k] >= 1,
    ensures
        ws.len() <= spec_sum(ws) <= ws.len() * 0xffff_ffff_ffff_ffff,
    decreases ws.len(),
{
    if ws.len() > 0 {
        assert(forall|k: int| 0 <= k < ws.drop_first().len() ==> ws.drop_first()[k] >= 1);
        lemma_sum_bounds(ws.drop_first());
        assert((ws.len() - 1) * 0xffff_ffff_ffff_ffff + 0xffff_ffff_ffff_ffff == ws.len()
            * 0xffff_ffff_ffff_ffff) by (nonlinear_arith);
    }
}

/// One scaled mass per candidate, read from its pick count.
pub fn scaled_weights(entries: &Vec<VideoEntry>) -> (ws: Vec<u64>)
    requires
        forall|k: int| 0 <= k < entries@.len() ==> entries@[k].pick_count < usize::MAX,
    ensures
        ws@.len() == entries@.len(),
        forall|k: int|
            0 <= k < ws@.len() ==> ws@[k] == spec_scaled_weight(entries@[k].pick_count as int)
                && ws@[k] >= 1,
{
    let mut ws: Vec<u64> = Vec::new();
    let mut i: usize = 0;
    while i < entries.len()
        invariant
            i <= entries@.len(),
            ws@.len() == i,
            forall|k: int| 0 <= k < entries@.len() ==> entries@[k].pick_count < usize::MAX,
            forall|k: int|
                0 <= k < i ==> ws@[k] == spec_scaled_weight(entries@[k].pick_count as int)
                    && ws@[k] >= 1,
        decreases entries@.len() - i,
    {
        ws.push(scaled_weight(entries[i].pick_count));
        i += 1;
    }
    ws
}

/// The total mass of the weights, exactly.
pub fn sum_weights(ws: &Vec<u64>) -> (total: u128)
    ensures
        total == spec_sum(ws@),
{
    let mut total: u128 = 0;
    let mut i: usize = 0;
    while i < ws.len()
        invariant
            i <= ws@.len(),
            total == spec_sum(ws@.subrange(0, i as int)),
            total <= (i as int) * 0xffff_ffff_ffff_ffff,
        decreases ws@.len() - i,
    {
        proof {
            assert(ws@.subrange(0, i + 1 as int) =~= ws@.subrange(0, i as int).push(
                ws@[i as int],
            ));
            lemma_sum_push(ws@.subrange(0, i as int), ws@[i as int]);
            assert((i as int) * 0xffff_ffff_ffff_ffff + 0xffff_ffff_ffff_ffff == (i + 1 as int)
                * 0xffff_ffff_ffff_ffff) by (nonlinear_arith);
            assert((i + 1 as int) * 0xffff_ffff_ffff_ffff <= 0xffff_ffff_ffff_ffff
                * 0xffff_ffff_ffff_ffff) by (nonlinear_arith)
                requires i + 1 <= 0xffff_ffff_ffff_ffff;
        }
        total = total + (ws[i] as u128);
        i += 1;
    }
    proof {
        assert(ws@.subrange(0, ws@.len() as int) =~= ws@);
    }
    total
}

/// The deterministic half of the weighted draw: with `r` drawn uniformly
/// below the total mass, returns the index whose half-open span of the
/// cumulative mass contains `r`. A candidate's span is as long as its
/// weight, so a uniform `r` lands on each candidate with probability
/// exactly proportional to its weight.
pub fn pick_index(ws: &Vec<u64>, r: u128) -> (i: usize)
    requires
        r < spec_sum(ws@),
        spec_sum(ws@) <= 0xffff_ffff_ffff_ffff * 0xffff_ffff_ffff_ffff,
    ensures
        i < ws@.len(),
        spec_sum(ws@.subrange(0, i as int)) <= r < spec_sum(ws@.subrange(0, i as int + 1)),
{
    let mut i: usize = 0;
    let mut acc: u128 = 0;
    while i < ws.len()
        invariant
            i <= ws@.len(),
            acc == spec_sum(ws@.subrange(0, i as int)),
            acc <= r < spec_sum(ws@),
            spec_sum(ws@) <= 0xffff_ffff_ffff_ffff * 0xffff_ffff_ffff_ffff,
        decreases ws@.len() - i,
    {
        proof {
            assert(ws@.subrange(0, i + 1 as int) =~= ws@.subrange(0, i as int).push(
                ws@[i as int],
            ));
            lemma_sum_push(ws@.subrange(0, i as int), ws@[i as int]);
            lemma_sum_prefix_le(ws@, i as int + 1);
        }
        let w = ws[i];
        if r < acc + (w as u128) {
            return i;
        }
        acc = acc + (w as u128);
        i += 1;
    }
    proof {
        assert(ws@.subrange(0, ws@.len() as int) =~= ws@);
        assert(false);
    }
    0
}

/// A prefix of a weight list never holds more mass than the whole list.
proof fn lemma_sum_prefix_le(ws: Seq<u64>, k: int)
    requires
        0 <= k <= ws.len(),
    ensures
        spec_sum(ws.subrange(0, k)) <= spec_sum(ws),
    decreases ws.len() - k,
{
    if k == ws.len() {
        assert(ws.subrange(0, k) =~= ws);
    } else {
        assert(ws.subrange(0, k + 1) =~= ws.subrange(0, k).push(ws[k]));
        lemma_sum_push(ws.subrange(0, k), ws[k]);
        lemma_sum_prefix_le(ws, k + 1);
    }
}

/// Selects one candidate by a single weighted random draw, each candidate
/// weighing `1 / (pick_count + 1)` with its pick count taken from `history`:
/// the cumulative masses of the candidates partition the drawn range, and a
/// uniform draw below the total picks the candidate whose span it lands in.
/// Succeeds exactly when `candidates` is non-empty, returning a faithful
/// candidate; fails with the empty-candidate-set error exactly when
/// `candidates` is empty. Touches neither the ledger nor any shared state.
pub fn select(candidates: &Vec<String>, history: &Vec<HistoryEntry>) -> (r: Result<
    VideoEntry,
    AppError,
>)
    requires
        history@.len() < usize::MAX,
    ensures
        match r {
            Ok(e) => candidates@.len() > 0 && is_valid_selection(e, candidates@, history@),
            Err(err) => err == AppError::EmptyCandidateSet && candidates@.len() == 0,
        },
{
    if candidates.len() == 0 {
        return Err(AppError::EmptyCandidateSet);
    }
    let entries = build_entries(candidates, history);
    proof {
        assert forall|k: int| 0 <= k < entries@.len() implies entries@[k].pick_count
            < usize::MAX by {
            lemma_count_le_len(history@, candidates@[k]@);
        }
    }
    let ws = scaled_weights(&entries);
    let total = sum_weights(&ws);
    proof {
        lemma_sum_bounds(ws@);
    }
    let r = rand_below(total);
    let i = pick_index(&ws, r);
    Ok(entries[i].clone())
}

} // verus!
