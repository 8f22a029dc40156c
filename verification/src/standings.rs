//! The standings aggregator: per-team aggregates over all captured runs of an
//! event, ranked by the multi-key law (valid-run count descending, then total
//! time, best time and team id, with absent times sorting last).

use vstd::prelude::*;
use crate::model::{Event, Run, RunStatus};
use crate::seq_lemmas::{lemma_filter_push, lemma_perm_distinct_by};

verus! {

/// One ranked row of the standings table.
#[derive(Clone, Copy, Debug, PartialEq, Eq, Structural)]
pub struct Standing {
    /// 1-based position after ranking; never shared between two rows.
    pub rank: u64,
    pub team_id: u64,
    /// Count of completed runs with neither flag set.
    pub completed_runs: u64,
    /// Count of runs flagged no-time.
    pub nt_count: u64,
    /// Count of runs flagged dq.
    pub dq_count: u64,
    /// Sum of the totals of the valid completed runs; absent when none of
    /// them carries a total.
    pub total_time_ms: Option<u128>,
    /// Minimum single-run total, same absence rule.
    pub best_time_ms: Option<u64>,
    /// Mean of the carried totals rounded down, same absence rule.
    pub avg_time_ms: Option<u128>,
}

/// A valid completed run of the team: it counts toward the standings.
pub open spec fn counts_for(r: Run, t: u64) -> bool {
    r.team_id == t && r.valid_completed()
}

/// A valid completed run of the team that carries a total.
pub open spec fn timed_for(r: Run, t: u64) -> bool {
    counts_for(r, t) && r.total_ms is Some
}

/// Some run of the table belongs to this team.
pub open spec fn team_appears(runs: Seq<Run>, id: u64) -> bool {
    exists|j: int| 0 <= j < runs.len() && (#[trigger] runs[j]).team_id == id
}

pub open spec fn spec_completed_count(runs: Seq<Run>, t: u64) -> int {
    runs.filter(|r: Run| counts_for(r, t)).len() as int
}

pub open spec fn spec_timed_count(runs: Seq<Run>, t: u64) -> int {
    runs.filter(|r: Run| timed_for(r, t)).len() as int
}

pub open spec fn spec_nt_count(runs: Seq<Run>, t: u64) -> int {
    runs.filter(|r: Run| r.team_id == t && r.no_time).len() as int
}

pub open spec fn spec_dq_count(runs: Seq<Run>, t: u64) -> int {
    runs.filter(|r: Run| r.team_id == t && r.dq).len() as int
}

/// Sum of the totals carried by the team's valid completed runs.
pub open spec fn spec_total_sum(runs: Seq<Run>, t: u64) -> int
    decreases runs.len(),
{
    if runs.len() == 0 {
        0
    } else {
        spec_total_sum(runs.drop_last(), t) + (if timed_for(runs.last(), t) {
            runs.last().total_ms->Some_0 as int
        } else {
            0
        })
    }
}

/// Minimum total carried by the team's valid completed runs.
pub open spec fn spec_best_total(runs: Seq<Run>, t: u64) -> Option<u64>
    decreases runs.len(),
{
    if runs.len() == 0 {
        None
    } else {
        let rest = spec_best_total(runs.drop_last(), t);
        if timed_for(runs.last(), t) {
            match rest {
                None => Some(runs.last().total_ms->Some_0),
                Some(b) => if runs.last().total_ms->Some_0 < b {
                    Some(runs.last().total_ms->Some_0)
                } else {
                    Some(b)
                },
            }
        } else {
            rest
        }
    }
}

/// The standings row of one team, at a given rank.
pub open spec fn spec_standing_of(runs: Seq<Run>, t: u64, rank: u64) -> Standing {
    Standing {
        rank,
        team_id: t,
        completed_runs: spec_completed_count(runs, t) as u64,
        nt_count: spec_nt_count(runs, t) as u64,
        dq_count: spec_dq_count(runs, t) as u64,
        total_time_ms: if spec_timed_count(runs, t) == 0 {
            None
        } else {
            Some(spec_total_sum(runs, t) as u128)
        },
        best_time_ms: spec_best_total(runs, t),
        avg_time_ms: if spec_timed_count(runs, t) == 0 {
            None
        } else {
            Some((spec_total_sum(runs, t) / spec_timed_count(runs, t)) as u128)
        },
    }
}

/// Ascending order on optional times with absent values after all present
/// ones.
pub open spec fn opt_lt_u128(x: Option<u128>, y: Option<u128>) -> bool {
    match (x, y) {
        (Some(a), Some(b)) => a < b,
        (Some(_), None) => true,
        (None, _) => false,
    }
}

pub open spec fn opt_lt_u64(x: Option<u64>, y: Option<u64>) -> bool {
    match (x, y) {
        (Some(a), Some(b)) => a < b,
        (Some(_), None) => true,
        (None, _) => false,
    }
}

/// The ranking law: more valid runs first; then lower total time, lower best
/// time (absent values last each time), and lower team id.
pub open spec fn spec_le(a: Standing, b: Standing) -> bool {
    if a.completed_runs != b.completed_runs {
        a.completed_runs > b.completed_runs
    } else if opt_lt_u128(a.total_time_ms, b.total_time_ms) {
        true
    } else if opt_lt_u128(b.total_time_ms, a.total_time_ms) {
        false
    } else if opt_lt_u64(a.best_time_ms, b.best_time_ms) {
        true
    } else if opt_lt_u64(b.best_time_ms, a.best_time_ms) {
        false
    } else {
        a.team_id <= b.team_id
    }
}

/// The ranking law is a total order: any two rows are comparable; rows
/// comparable both ways can only be the same team; with equal valid-run
/// counts and equal total times the lower best time ranks higher, and with
/// equal best times the lower team id ranks higher. Ranks are assigned as
/// 1-based positions in this order, so no two teams ever share a rank.
pub proof fn lemma_ranking_total_order(a: Standing, b: Standing)
    ensures
        spec_le(a, b) || spec_le(b, a),
        (spec_le(a, b) && spec_le(b, a)) ==> a.team_id == b.team_id,
        (a.completed_runs == b.completed_runs && a.total_time_ms == b.total_time_ms && opt_lt_u64(
            a.best_time_ms,
            b.best_time_ms,
        )) ==> (spec_le(a, b) && !spec_le(b, a)),
        (a.completed_runs == b.completed_runs && a.total_time_ms == b.total_time_ms
            && a.best_time_ms == b.best_time_ms && a.team_id < b.team_id) ==> (spec_le(a, b)
            && !spec_le(b, a)),
{
}

/// The ranking law is transitive.
pub proof fn lemma_ranking_transitive(a: Standing, b: Standing, c: Standing)
    requires
        spec_le(a, b),
        spec_le(b, c),
    ensures
        spec_le(a, c),
{
}

/// Exec comparison matching the ranking law.
fn le_standing(a: &Standing, b: &Standing) -> (r: bool)
    ensures
        r == spec_le(*a, *b),
{
    if a.completed_runs != b.completed_runs {
        return a.completed_runs > b.completed_runs;
    }
    let t_lt_ab = match (a.total_time_ms, b.total_time_ms) {
        (Some(x), Some(y)) => x < y,
        (Some(_), None) => true,
        (None, _) => false,
    };
    if t_lt_ab {
        return true;
    }
    let t_lt_ba = match (b.total_time_ms, a.total_time_ms) {
        (Some(x), Some(y)) => x < y,
        (Some(_), None) => true,
        (None, _) => false,
    };
    if t_lt_ba {
        return false;
    }
    let b_lt_ab = match (a.best_time_ms, b.best_time_ms) {
        (Some(x), Some(y)) => x < y,
        (Some(_), None) => true,
        (None, _) => false,
    };
    if b_lt_ab {
        return true;
    }
    let b_lt_ba = match (b.best_time_ms, a.best_time_ms) {
        (Some(x), Some(y)) => x < y,
        (Some(_), None) => true,
        (None, _) => false,
    };
    if b_lt_ba {
        return false;
    }
    a.team_id <= b.team_id
}

/// Selection sort by the ranking law.
fn sort_standings(input: Vec<Standing>) -> (out: Vec<Standing>)
    ensures
        out@.len() == input@.len(),
        out@.to_multiset() == input@.to_multiset(),
        forall|i: int, j: int| 0 <= i < j < out@.len() ==> spec_le(#[trigger] out@[i], #[trigger] out@[j]),
{
    broadcast use vstd::seq_lib::group_to_multiset_ensures;
    broadcast use vstd::multiset::group_multiset_axioms;

    let ghost full = input@;
    let mut pool = input;
    let mut out: Vec<Standing> = Vec::new();
    while pool.len() > 0
        invariant
            out@.to_multiset().add(pool@.to_multiset()) == full.to_multiset(),
            out@.len() + pool@.len() == full.len(),
            forall|i: int, j: int| 0 <= i < j < out@.len() ==> spec_le(#[trigger] out@[i], #[trigger] out@[j]),
            forall|i: int, j: int|
                0 <= i < out@.len() && 0 <= j < pool@.len() ==> spec_le(
                    #[trigger] out@[i],
                    #[trigger] pool@[j],
                ),
        decreases pool@.len(),
    {
        let mut best: usize = 0;
        let mut i: usize = 1;
        while i < pool.len()
            invariant
                pool@.len() > 0,
                best < pool@.len(),
                i <= pool@.len(),
                forall|k: int| 0 <= k < i ==> spec_le(pool@[best as int], #[trigger] pool@[k]),
            decreases pool@.len() - i,
        {
            let pb = pool[best];
            let pi = pool[i];
            if !le_standing(&pb, &pi) {
                proof {
                    lemma_ranking_total_order(pool@[best as int], pool@[i as int]);
                    assert forall|k: int| 0 <= k < i + 1 implies spec_le(
                        pool@[i as int],
                        #[trigger] pool@[k],
                    ) by {
                        if k < i {
                            lemma_ranking_transitive(pool@[i as int], pool@[best as int], pool@[k]);
                        } else {
                            lemma_ranking_total_order(pool@[i as int], pool@[i as int]);
                        }
                    }
                }
                best = i;
            }
            i += 1;
        }
        let ghost pool_before = pool@;
        let ghost out_before = out@;
        let picked = pool.remove(best);
        out.push(picked);
        proof {
            vstd::seq_lib::to_multiset_remove::<Standing>(pool_before, best as int);
            vstd::seq_lib::to_multiset_build::<Standing>(out_before, picked);
            vstd::seq_lib::to_multiset_contains::<Standing>(pool_before, picked);
            assert(pool_before.contains(pool_before[best as int]));
            assert forall|x: Standing|
                out@.to_multiset().add(pool@.to_multiset()).count(x) == full.to_multiset().count(
                x,
            ) by {
                assert(out@.to_multiset().count(x) == out_before.to_multiset().insert(
                    picked,
                ).count(x));
                assert(pool@.to_multiset().count(x) == pool_before.to_multiset().remove(
                    picked,
                ).count(x));
            }
            assert(out@.to_multiset().add(pool@.to_multiset()) =~= full.to_multiset());
            assert forall|j: int| 0 <= j < pool@.len() implies spec_le(
                picked,
                #[trigger] pool@[j],
            ) by {
                if j < best {
                    assert(pool@[j] == pool_before[j]);
                } else {
                    assert(pool@[j] == pool_before[j + 1]);
                }
            }
        }
    }
    proof {
        assert forall|x: Standing| pool@.to_multiset().count(x) == 0 by {
            assert(!pool@.contains(x));
        }
        assert(out@.to_multiset() =~= full.to_multiset());
    }
    out
}

/// Whether an id is already collected.
fn contains_id(ids: &Vec<u64>, id: u64) -> (b: bool)
    ensures
        b == ids@.contains(id),
{
    let mut k: usize = 0;
    while k < ids.len()
        invariant
            k <= ids@.len(),
            forall|m: int| 0 <= m < k ==> ids@[m] != id,
        decreases ids@.len() - k,
    {
        if ids[k] == id {
            assert(ids@[k as int] == id);
            return true;
        }
        k += 1;
    }
    false
}

/// The distinct team ids appearing in the run table.
fn collect_team_ids(runs: &Vec<Run>) -> (ids: Vec<u64>)
    ensures
        forall|a: int, b: int| 0 <= a < b < ids@.len() ==> ids@[a] != ids@[b],
        forall|k: int| 0 <= k < ids@.len() ==> team_appears(runs@, #[trigger] ids@[k]),
        forall|j: int| 0 <= j < runs@.len() ==> ids@.contains((#[trigger] runs@[j]).team_id),
{
    let mut ids: Vec<u64> = Vec::new();
    let mut j: usize = 0;
    while j < runs.len()
        invariant
            j <= runs@.len(),
            forall|a: int, b: int| 0 <= a < b < ids@.len() ==> ids@[a] != ids@[b],
            forall|k: int| 0 <= k < ids@.len() ==> team_appears(runs@, #[trigger] ids@[k]),
            forall|m: int| 0 <= m < j ==> ids@.contains((#[trigger] runs@[m]).team_id),
        decreases runs@.len() - j,
    {
        let t = runs[j].team_id;
        if !contains_id(&ids, t) {
            let ghost prev = ids@;
            ids.push(t);
            proof {
                assert(ids@[prev.len() as int] == runs@[j as int].team_id);
                assert forall|m: int| 0 <= m <= j implies ids@.contains(
                    (#[trigger] runs@[m]).team_id,
                ) by {
                    if m < j {
                        let k = choose|k: int|
                            0 <= k < prev.len() && prev[k] == runs@[m].team_id;
                        assert(ids@[k] == runs@[m].team_id);
                    } else {
                        assert(ids@[prev.len() as int] == runs@[m].team_id);
                    }
                }
                assert forall|k2: int| 0 <= k2 < ids@.len() implies team_appears(
                    runs@,
                    #[trigger] ids@[k2],
                ) by {
                    if k2 < prev.len() {
                        assert(ids@[k2] == prev[k2]);
                        assert(team_appears(runs@, prev[k2]));
                    } else {
                        assert((runs@[j as int]).team_id == ids@[k2]);
                    }
                }
            }
        } else {
            proof {
                assert(ids@.contains(runs@[j as int].team_id));
            }
        }
        j += 1;
    }
    ids
}

/// The aggregates of one team over the whole run table, at rank 0.
fn aggregate_team(runs: &Vec<Run>, t: u64) -> (s: Standing)
    ensures
        s == spec_standing_of(runs@, t, 0),
{
    let mut completed: u64 = 0;
    let mut nt: u64 = 0;
    let mut dq: u64 = 0;
    let mut timed: u64 = 0;
    let mut sum: u128 = 0;
    let mut best: Option<u64> = None;
    let mut i: usize = 0;
    while i < runs.len()
        invariant
            i <= runs@.len(),
            completed <= i,
            nt <= i,
            dq <= i,
            timed <= i,
            sum <= (i as int) * 0xffff_ffff_ffff_ffff,
            completed == spec_completed_count(runs@.take(i as int), t),
            nt == spec_nt_count(runs@.take(i as int), t),
            dq == spec_dq_count(runs@.take(i as int), t),
            timed == spec_timed_count(runs@.take(i as int), t),
            sum == spec_total_sum(runs@.take(i as int), t),
            best == spec_best_total(runs@.take(i as int), t),
        decreases runs@.len() - i,
    {
        let r = runs[i];
        proof {
            let pre = runs@.take(i as int);
            assert(runs@.take(i as int + 1) =~= pre.push(runs@[i as int]));
            assert(pre.push(runs@[i as int]).drop_last() =~= pre);
            lemma_filter_push(pre, runs@[i as int], |r: Run| counts_for(r, t));
            lemma_filter_push(pre, runs@[i as int], |r: Run| timed_for(r, t));
            lemma_filter_push(pre, runs@[i as int], |r: Run| r.team_id == t && r.no_time);
            lemma_filter_push(pre, runs@[i as int], |r: Run| r.team_id == t && r.dq);
        }
        let is_counting = r.team_id == t && matches!(r.status, RunStatus::Completed) && !r.no_time
            && !r.dq;
        if is_counting {
            completed = completed + 1;
        }
        if r.team_id == t && r.no_time {
            nt = nt + 1;
        }
        if r.team_id == t && r.dq {
            dq = dq + 1;
        }
        if is_counting {
            match r.total_ms {
                Some(tot) => {
                    timed = timed + 1;
                    sum = sum + tot as u128;
                    best = match best {
                        None => Some(tot),
                        Some(b) => if tot < b {
                            Some(tot)
                        } else {
                            Some(b)
                        },
                    };
                },
                None => {},
            }
        }
        i += 1;
    }
    proof {
        assert(runs@.take(runs@.len() as int) =~= runs@);
    }
    let avg: Option<u128> = if timed == 0 {
        None
    } else {
        Some(sum / (timed as u128))
    };
    Standing {
        rank: 0,
        team_id: t,
        completed_runs: completed,
        nt_count: nt,
        dq_count: dq,
        total_time_ms: if timed == 0 {
            None
        } else {
            Some(sum)
        },
        best_time_ms: best,
        avg_time_ms: avg,
    }
}

impl Event {
    /// The ranked standings table: one row per team appearing in the run
    /// table, aggregated over all its runs and ordered by the ranking law,
    /// with ranks assigned as strictly increasing 1-based positions. Empty
    /// exactly when the event has no runs at all.
    #[verifier::rlimit(100)]
    #[verifier::spinoff_prover]
    pub fn standings(&self) -> (out: Vec<Standing>)
        requires
            self.wf(),
        ensures
            forall|k: int|
                0 <= k < out@.len() ==> #[trigger] out@[k] == spec_standing_of(
                    self.runs@,
                    out@[k].team_id,
                    (k + 1) as u64,
                ),
            forall|a: int, b: int|
                0 <= a < b < out@.len() ==> (#[trigger] out@[a]).team_id != (
                #[trigger] out@[b]).team_id,
            forall|a: int, b: int|
                0 <= a < b < out@.len() ==> spec_le(#[trigger] out@[a], #[trigger] out@[b]),
            forall|j: int|
                0 <= j < self.runs@.len() ==> exists|k: int|
                    0 <= k < out@.len() && (#[trigger] out@[k]).team_id == (
                    #[trigger] self.runs@[j]).team_id,
            forall|k: int|
                0 <= k < out@.len() ==> team_appears(self.runs@, (#[trigger] out@[k]).team_id),
            (out@.len() == 0 <==> self.runs@.len() == 0),
    {
        broadcast use vstd::seq_lib::group_to_multiset_ensures;

        let ids = collect_team_ids(&self.runs);
        let mut rows: Vec<Standing> = Vec::new();
        let mut k: usize = 0;
        while k < ids.len()
            invariant
                k <= ids@.len(),
                rows@.len() == k,
                forall|m: int|
                    0 <= m < k ==> #[trigger] rows@[m] == spec_standing_of(self.runs@, ids@[m], 0),
                forall|m: int| 0 <= m < k ==> (#[trigger] rows@[m]).team_id == ids@[m],
            decreases ids@.len() - k,
        {
            let s = aggregate_team(&self.runs, ids[k]);
            rows.push(s);
            k += 1;
        }

        let sorted = sort_standings(rows);
        let ghost rows_seq = (Ghost(rows@))@;
        proof {
            lemma_perm_distinct_by(rows_seq, sorted@, |s: Standing| s.team_id);
        }

        let mut out: Vec<Standing> = Vec::new();
        let mut w: usize = 0;
        while w < sorted.len()
            invariant
                w <= sorted@.len(),
                out@.len() == w,
                forall|m: int|
                    0 <= m < w ==> #[trigger] out@[m] == (Standing {
                        rank: (m + 1) as u64,
                        ..sorted@[m]
                    }),
            decreases sorted@.len() - w,
        {
            let s = sorted[w];
            out.push(Standing { rank: (w as u64) + 1, ..s });
            w += 1;
        }

        proof {
            lemma_standings_assemble(self.runs@, ids@, rows_seq, sorted@, out@);
        }
        out
    }
}

/// Gluing the pipeline together: aggregated rows, permuted into ranking
/// order and given 1-based ranks, form the table the contract promises.
#[verifier::rlimit(100)]
#[verifier::spinoff_prover]
proof fn lemma_standings_assemble(
    runs: Seq<Run>,
    ids: Seq<u64>,
    rows: Seq<Standing>,
    sorted: Seq<Standing>,
    out: Seq<Standing>,
)
    requires
        rows.len() == ids.len(),
        out.len() <= u64::MAX,
        forall|m: int| 0 <= m < rows.len() ==> #[trigger] rows[m] == spec_standing_of(runs, ids[m], 0),
        forall|m: int| 0 <= m < rows.len() ==> (#[trigger] rows[m]).team_id == ids[m],
        forall|a: int, b: int| 0 <= a < b < ids.len() ==> ids[a] != ids[b],
        forall|k: int| 0 <= k < ids.len() ==> team_appears(runs, #[trigger] ids[k]),
        forall|j: int| 0 <= j < runs.len() ==> ids.contains((#[trigger] runs[j]).team_id),
        sorted.len() == rows.len(),
        sorted.to_multiset() == rows.to_multiset(),
        forall|a: int, b: int|
            0 <= a < b < sorted.len() ==> spec_le(#[trigger] sorted[a], #[trigger] sorted[b]),
        forall|a: int, b: int|
            0 <= a < b < sorted.len() ==> (#[trigger] sorted[a]).team_id != (
            #[trigger] sorted[b]).team_id,
        out.len() == sorted.len(),
        forall|m: int|
            0 <= m < out.len() ==> #[trigger] out[m] == (Standing {
                rank: (m + 1) as u64,
                ..sorted[m]
            }),
    ensures
        forall|k: int|
            0 <= k < out.len() ==> #[trigger] out[k] == spec_standing_of(
                runs,
                out[k].team_id,
                (k + 1) as u64,
            ),
        forall|a: int, b: int|
            0 <= a < b < out.len() ==> (#[trigger] out[a]).team_id != (#[trigger] out[b]).team_id,
        forall|a: int, b: int|
            0 <= a < b < out.len() ==> spec_le(#[trigger] out[a], #[trigger] out[b]),
        forall|j: int|
            0 <= j < runs.len() ==> exists|k: int|
                0 <= k < out.len() && (#[trigger] out[k]).team_id == (#[trigger] runs[j]).team_id,
        forall|k: int| 0 <= k < out.len() ==> team_appears(runs, (#[trigger] out[k]).team_id),
        (out.len() == 0 <==> runs.len() == 0),
{
    broadcast use vstd::seq_lib::group_to_multiset_ensures;

    assert forall|m: int| 0 <= m < sorted.len() implies exists|q: int|
        0 <= q < rows.len() && rows[q] == #[trigger] sorted[m] by {
        assert(sorted.contains(sorted[m]));
        assert(rows.to_multiset().count(sorted[m]) > 0);
        assert(rows.contains(sorted[m]));
    }
    assert forall|m: int| 0 <= m < out.len() implies #[trigger] out[m] == spec_standing_of(
        runs,
        out[m].team_id,
        (m + 1) as u64,
    ) by {
        let q = choose|q: int| 0 <= q < rows.len() && rows[q] == sorted[m];
        assert(rows[q] == spec_standing_of(runs, ids[q], 0));
        assert(sorted[m].team_id == ids[q]);
    }
    assert forall|a: int, b: int| 0 <= a < b < out.len() implies (#[trigger] out[a]).team_id != (
    #[trigger] out[b]).team_id by {
        assert(sorted[a].team_id != sorted[b].team_id);
    }
    assert forall|a: int, b: int| 0 <= a < b < out.len() implies spec_le(
        #[trigger] out[a],
        #[trigger] out[b],
    ) by {
        assert(spec_le(sorted[a], sorted[b]));
    }
    assert forall|j: int| 0 <= j < runs.len() implies exists|k: int|
        0 <= k < out.len() && (#[trigger] out[k]).team_id == (#[trigger] runs[j]).team_id by {
        assert(ids.contains(runs[j].team_id));
        let q = choose|q: int| 0 <= q < ids.len() && #[trigger] ids[q] == runs[j].team_id;
        assert(rows[q].team_id == runs[j].team_id);
        assert(rows.contains(rows[q]));
        assert(sorted.to_multiset().count(rows[q]) > 0);
        assert(sorted.contains(rows[q]));
        let m = choose|m: int| 0 <= m < sorted.len() && sorted[m] == rows[q];
        assert(out[m].team_id == runs[j].team_id);
    }
    assert forall|k: int| 0 <= k < out.len() implies team_appears(
        runs,
        (#[trigger] out[k]).team_id,
    ) by {
        let q = choose|q: int| 0 <= q < rows.len() && rows[q] == sorted[k];
        assert(sorted[k].team_id == ids[q]);
        assert(team_appears(runs, ids[q]));
    }
    if runs.len() > 0 {
        assert(ids.contains(runs[0].team_id));
        assert(ids.len() > 0);
    }
    if out.len() > 0 {
        assert(team_appears(runs, ids[0]));
        let j = choose|j: int| 0 <= j < runs.len() && (#[trigger] runs[j]).team_id == ids[0];
        assert(runs.len() > 0);
    }
}

} // verus!
