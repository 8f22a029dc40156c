//! The run lifecycle: recording one team's result in a round and the cascade
//! that elimination (or its correction) applies to the team's later rounds.

use vstd::prelude::*;
use crate::model::{Event, Run, RunStatus, spec_total};

verus! {

/// A team is eliminated from the event when any of its runs carries a flag,
/// regardless of which round produced it.
pub open spec fn spec_eliminated(runs: Seq<Run>, team_id: u64) -> bool {
    exists|i: int| 0 <= i < runs.len() && (#[trigger] runs[i]).team_id == team_id && runs[i].flagged()
}

/// The row a submitted result is stored as: total computed from the inputs,
/// status forced to completed.
pub open spec fn spec_result_row(
    team_id: u64,
    round: u64,
    position: u64,
    time_ms: Option<u32>,
    penalty_ms: u32,
    no_time: bool,
    dq: bool,
) -> Run {
    Run {
        team_id,
        round,
        position,
        time_ms,
        penalty_ms,
        total_ms: spec_total(time_ms, penalty_ms, no_time, dq),
        no_time,
        dq,
        status: RunStatus::Completed,
    }
}

/// What the cascade does to one existing row when a result for `(team_id,
/// round)` comes in. A flagged result skips every later round of the team; a
/// valid result restores later rounds to pending, but only those currently
/// skipped — completed rounds are never altered.
pub open spec fn spec_cascaded(r: Run, team_id: u64, round: u64, flagged: bool) -> Run {
    if r.team_id == team_id && r.round > round {
        if flagged {
            Run { status: RunStatus::Skipped, ..r }
        } else if r.status == RunStatus::Skipped {
            Run { status: RunStatus::Pending, ..r }
        } else {
            r
        }
    } else {
        r
    }
}

/// The cascade never touches a row's flags, key or captured result: only the
/// status moves. So the evidence behind an elimination survives any result
/// submitted under a different `(round, team)` key, and only overwriting the
/// flagged run itself can lift the elimination.
pub proof fn lemma_cascade_keeps_result(r: Run, team_id: u64, round: u64, flagged: bool)
    ensures
        spec_cascaded(r, team_id, round, flagged).team_id == r.team_id,
        spec_cascaded(r, team_id, round, flagged).round == r.round,
        spec_cascaded(r, team_id, round, flagged).position == r.position,
        spec_cascaded(r, team_id, round, flagged).time_ms == r.time_ms,
        spec_cascaded(r, team_id, round, flagged).penalty_ms == r.penalty_ms,
        spec_cascaded(r, team_id, round, flagged).total_ms == r.total_ms,
        spec_cascaded(r, team_id, round, flagged).no_time == r.no_time,
        spec_cascaded(r, team_id, round, flagged).dq == r.dq,
{
}

impl Event {
    /// Whether `team_id` has any flagged run in this event.
    pub fn is_eliminated(&self, team_id: u64) -> (b: bool)
        ensures
            b == spec_eliminated(self.runs@, team_id),
    {
        let mut i: usize = 0;
        while i < self.runs.len()
            invariant
                i <= self.runs@.len(),
                forall|j: int|
                    0 <= j < i ==> !((#[trigger] self.runs@[j]).team_id == team_id && self.runs@[j].flagged()),
            decreases self.runs@.len() - i,
        {
            let r = self.runs[i];
            if r.team_id == team_id && (r.no_time || r.dq) {
                assert(self.runs@[i as int].team_id == team_id && self.runs@[i as int].flagged());
                return true;
            }
            i += 1;
        }
        false
    }

    /// Record a captured result: upsert the run row keyed `(round, team_id)`
    /// and cascade the team's later rounds as the flags dictate.
    pub fn record_run(
        &mut self,
        team_id: u64,
        round: u64,
        position: u64,
        time_ms: Option<u32>,
        penalty_ms: u32,
        no_time: bool,
        dq: bool,
    )
        requires
            old(self).wf(),
            round >= 1,
            position >= 1,
        ensures
            final(self).wf(),
            final(self).status == old(self).status,
            final(self).entry_fee == old(self).entry_fee,
            final(self).prize_pool == old(self).prize_pool,
            final(self).teams == old(self).teams,
            final(self).draws == old(self).draws,
            final(self).rules == old(self).rules,
            // every pre-existing row is either the overwritten key row or
            // exactly its cascaded image
            forall|i: int|
                0 <= i < old(self).runs@.len() ==> final(self).runs@[i] == (
                if (#[trigger] old(self).runs@[i]).round == round && old(self).runs@[i].team_id == team_id {
                    spec_result_row(team_id, round, position, time_ms, penalty_ms, no_time, dq)
                } else {
                    spec_cascaded(old(self).runs@[i], team_id, round, no_time || dq)
                }),
            // the row exists afterwards: in place if the key was present,
            // appended otherwise
            (exists|i: int|
                0 <= i < old(self).runs@.len() && (#[trigger] old(self).runs@[i]).round == round
                    && old(self).runs@[i].team_id == team_id) ==> final(self).runs@.len() == old(
                self,
            ).runs@.len(),
            !(exists|i: int|
                0 <= i < old(self).runs@.len() && (#[trigger] old(self).runs@[i]).round == round
                    && old(self).runs@[i].team_id == team_id) ==> {
                &&& final(self).runs@.len() == old(self).runs@.len() + 1
                &&& final(self).runs@.last() == spec_result_row(
                    team_id,
                    round,
                    position,
                    time_ms,
                    penalty_ms,
                    no_time,
                    dq,
                )
            },
    {
        let flagged = no_time || dq;
        let total: Option<u64> = if flagged {
            None
        } else {
            match time_ms {
                Some(t) => Some(t as u64 + penalty_ms as u64),
                None => None,
            }
        };
        let row = Run {
            team_id,
            round,
            position,
            time_ms,
            penalty_ms,
            total_ms: total,
            no_time,
            dq,
            status: RunStatus::Completed,
        };
        assert(row == spec_result_row(team_id, round, position, time_ms, penalty_ms, no_time, dq));

        let mut new_runs: Vec<Run> = Vec::new();
        let mut found: bool = false;
        let mut i: usize = 0;
        while i < self.runs.len()
            invariant
                self == old(self),
                i <= self.runs@.len(),
                new_runs@.len() == i,
                row == spec_result_row(team_id, round, position, time_ms, penalty_ms, no_time, dq),
                flagged == (no_time || dq),
                forall|j: int|
                    0 <= j < i ==> new_runs@[j] == (
                    if (#[trigger] self.runs@[j]).round == round && self.runs@[j].team_id == team_id {
                        row
                    } else {
                        spec_cascaded(self.runs@[j], team_id, round, flagged)
                    }),
                found == exists|j: int|
                    0 <= j < i && (#[trigger] self.runs@[j]).round == round && self.runs@[j].team_id
                        == team_id,
            decreases self.runs@.len() - i,
        {
            let r = self.runs[i];
            if r.round == round && r.team_id == team_id {
                new_runs.push(row);
                found = true;
                assert(self.runs@[i as int].round == round && self.runs@[i as int].team_id == team_id);
            } else if r.team_id == team_id && r.round > round {
                if flagged {
                    new_runs.push(Run { status: RunStatus::Skipped, ..r });
                } else if matches!(r.status, RunStatus::Skipped) {
                    new_runs.push(Run { status: RunStatus::Pending, ..r });
                } else {
                    new_runs.push(r);
                }
            } else {
                new_runs.push(r);
            }
            i += 1;
        }
        if !found {
            new_runs.push(row);
        }

        proof {
            let or = self.runs@;
            let nr = new_runs@;
            assert forall|a: int, b: int| 0 <= a < b < nr.len() implies !((#[trigger] nr[a]).round
                == (#[trigger] nr[b]).round && nr[a].team_id == nr[b].team_id) by {
                if b < or.len() {
                    assert(nr[a].round == or[a].round && nr[a].team_id == or[a].team_id);
                    assert(nr[b].round == or[b].round && nr[b].team_id == or[b].team_id);
                } else {
                    // b is the appended row; the key was absent from the table
                    assert(nr[b] == row);
                    assert(nr[a].round == or[a].round && nr[a].team_id == or[a].team_id);
                    assert(!(or[a].round == round && or[a].team_id == team_id));
                }
            }
            assert forall|a: int| 0 <= a < nr.len() implies (#[trigger] nr[a]).wf() by {
                if a < or.len() {
                    assert(or[a].wf());
                } else {
                    assert(nr[a] == row);
                }
            }
        }
        self.runs = new_runs;
    }
}

} // verus!
