//! Draw generation: eligibility, single-round generation with the guard
//! against reshuffling a started round, and the properties of the emitted
//! positions.

use vstd::prelude::*;
use crate::model::{CoreError, DrawEntry, Event, EventStatus, Run, RunStatus, Team, TeamStatus};
use crate::runs::spec_eliminated;
use crate::rng::shuffle_seeded;
use crate::seq_lemmas::{
    lemma_filter_push,
    lemma_filter_all_true,
    lemma_filter_all_false,
    lemma_filter_elements,
    lemma_filter_preserves_pairwise,
    lemma_perm_distinct_by,
};

verus! {

/// The draw rows of one round, in table order.
pub open spec fn round_draws(draws: Seq<DrawEntry>, round: u64) -> Seq<DrawEntry> {
    draws.filter(|d: DrawEntry| d.round == round)
}

/// The run rows of one round, in table order.
pub open spec fn round_runs(runs: Seq<Run>, round: u64) -> Seq<Run> {
    runs.filter(|r: Run| r.round == round)
}

/// Some draw row of this round sits at this position.
pub open spec fn has_draw_row(draws: Seq<DrawEntry>, round: u64, position: int) -> bool {
    exists|j: int|
        0 <= j < draws.len() && (#[trigger] draws[j]).round == round && draws[j].position
            == position
}

/// Some run row of this round belongs to this team.
pub open spec fn has_run_row(runs: Seq<Run>, round: u64, team_id: u64) -> bool {
    exists|j: int|
        0 <= j < runs.len() && (#[trigger] runs[j]).round == round && runs[j].team_id == team_id
}

/// An admissible order for one batched round: a permutation of the
/// eligibility snapshot — the snapshot itself when no shuffle was asked for,
/// and the greedy anti-repetition pass applied to some permutation of it
/// when one was.
pub open spec fn spec_batch_order(el: Seq<Team>, shuffle: bool, ord: Seq<Team>) -> bool {
    &&& ord.len() == el.len()
    &&& ord.to_multiset() == el.to_multiset()
    &&& (!shuffle ==> ord == el)
    &&& (shuffle ==> exists|perm: Seq<Team>|
        perm.to_multiset() == el.to_multiset() && ord == spec_space_out(perm))
}

/// The tables assign one round exactly as an order dictates: a draw row of
/// the round at an in-range position carries the order's team at that
/// position, and a run row of the round whose team is in the order sits at
/// that team's slot.
pub open spec fn spec_round_bound(
    draws: Seq<DrawEntry>,
    runs: Seq<Run>,
    rr: u64,
    n: int,
    ord: Seq<Team>,
) -> bool {
    &&& forall|j: int|
        0 <= j < draws.len() && (#[trigger] draws[j]).round == rr && 1 <= draws[j].position <= n
            ==> draws[j].team_id == ord[draws[j].position - 1].id
    &&& forall|j: int|
        0 <= j < runs.len() && (#[trigger] runs[j]).round == rr && (exists|m: int|
            0 <= m < ord.len() && (#[trigger] ord[m]).id == runs[j].team_id) ==> exists|m: int|
            0 <= m < ord.len() && (#[trigger] ord[m]).id == runs[j].team_id && runs[j].position == m
                + 1
}

/// Round `rr` of a generated batch follows some admissible order.
pub open spec fn spec_batch_round_ordered(
    ev: Event,
    draws: Seq<DrawEntry>,
    runs: Seq<Run>,
    rr: u64,
    shuffle: bool,
) -> bool {
    exists|ord: Seq<Team>|
        #![auto]
        spec_batch_order(ev.spec_eligible_teams(), shuffle, ord) && spec_round_bound(
            draws,
            runs,
            rr,
            ev.spec_eligible_teams().len() as int,
            ord,
        )
}

/// The freshly seeded pending row for a team drawn at a position.
pub open spec fn spec_pending_run(team_id: u64, round: u64, position: u64) -> Run {
    Run {
        team_id,
        round,
        position,
        time_ms: None,
        penalty_ms: 0,
        total_ms: None,
        no_time: false,
        dq: false,
        status: RunStatus::Pending,
    }
}

impl Event {
    /// A team takes part in draw generation when it is active and not
    /// eliminated.
    pub open spec fn spec_eligible(self, t: Team) -> bool {
        t.status == TeamStatus::Active && !spec_eliminated(self.runs@, t.id)
    }

    /// Some team of this event with this id is eligible.
    pub open spec fn spec_eligible_id(self, id: u64) -> bool {
        exists|i: int|
            0 <= i < self.teams@.len() && (#[trigger] self.teams@[i]).id == id && self.spec_eligible(
                self.teams@[i],
            )
    }

    /// The round has started: some run of it is already completed.
    pub open spec fn spec_round_started(self, round: u64) -> bool {
        exists|i: int|
            0 <= i < self.runs@.len() && (#[trigger] self.runs@[i]).round == round
                && self.runs@[i].status == RunStatus::Completed
    }

    /// Whether any run of `round` is completed.
    pub fn round_has_completed_runs(&self, round: u64) -> (b: bool)
        ensures
            b == self.spec_round_started(round),
    {
        let mut i: usize = 0;
        while i < self.runs.len()
            invariant
                i <= self.runs@.len(),
                forall|j: int|
                    0 <= j < i ==> !((#[trigger] self.runs@[j]).round == round && self.runs@[j].status
                        == RunStatus::Completed),
            decreases self.runs@.len() - i,
        {
            let r = self.runs[i];
            if r.round == round && matches!(r.status, RunStatus::Completed) {
                assert(self.runs@[i as int].round == round && self.runs@[i as int].status
                    == RunStatus::Completed);
                return true;
            }
            i += 1;
        }
        false
    }

    /// Ids of the teams eligible for draw generation, in ascending id order.
    pub fn eligible_team_ids(&self) -> (ids: Vec<u64>)
        requires
            self.wf(),
        ensures
            ids@.len() <= self.teams@.len(),
            ids@.len() == self.spec_eligible_teams().len(),
            forall|a: int, b: int| 0 <= a < b < ids@.len() ==> ids@[a] < ids@[b],
            forall|k: int| 0 <= k < ids@.len() ==> self.spec_eligible_id(#[trigger] ids@[k]),
            forall|i: int|
                0 <= i < self.teams@.len() && self.spec_eligible(#[trigger] self.teams@[i])
                    ==> ids@.contains(self.teams@[i].id),
    {
        let mut ids: Vec<u64> = Vec::new();
        let mut i: usize = 0;
        while i < self.teams.len()
            invariant
                self.wf(),
                i <= self.teams@.len(),
                ids@.len() <= i,
                ids@.len() == self.teams@.take(i as int).filter(|t: Team| self.spec_eligible(t)).len(),
                forall|a: int, b: int| 0 <= a < b < ids@.len() ==> ids@[a] < ids@[b],
                forall|k: int, j: int|
                    0 <= k < ids@.len() && i <= j < self.teams@.len() ==> #[trigger] ids@[k] < (
                    #[trigger] self.teams@[j]).id,
                forall|k: int| 0 <= k < ids@.len() ==> self.spec_eligible_id(#[trigger] ids@[k]),
                forall|j: int|
                    0 <= j < i && self.spec_eligible(#[trigger] self.teams@[j]) ==> ids@.contains(
                        self.teams@[j].id,
                    ),
            decreases self.teams@.len() - i,
        {
            let t = self.teams[i];
            proof {
                assert(self.teams@.take(i as int + 1) =~= self.teams@.take(i as int).push(
                    self.teams@[i as int],
                ));
                lemma_filter_push(
                    self.teams@.take(i as int),
                    self.teams@[i as int],
                    |t: Team| self.spec_eligible(t),
                );
            }
            if matches!(t.status, TeamStatus::Active) && !self.is_eliminated(t.id) {
                let ghost prev = ids@;
                proof {
                    assert(self.teams@[i as int].id == t.id && self.spec_eligible(
                        self.teams@[i as int],
                    ));
                }
                ids.push(t.id);
                proof {
                    assert forall|j: int|
                        0 <= j <= i && self.spec_eligible(#[trigger] self.teams@[j])
                            implies ids@.contains(self.teams@[j].id) by {
                        if j < i {
                            let k = choose|k: int| 0 <= k < prev.len() && prev[k] == self.teams@[j].id;
                            assert(ids@[k] == self.teams@[j].id);
                        } else {
                            assert(ids@[prev.len() as int] == self.teams@[j].id);
                        }
                    }
                }
            }
            i += 1;
        }
        proof {
            assert(self.teams@.take(self.teams@.len() as int) =~= self.teams@);
        }
        ids
    }

    /// The teams taking part in draw generation: the active, not eliminated
    /// ones, in the stored (ascending id) order.
    pub open spec fn spec_eligible_teams(self) -> Seq<Team> {
        self.teams@.filter(|t: Team| self.spec_eligible(t))
    }

    /// The eligible teams, in ascending id order.
    pub fn eligible_teams(&self) -> (out: Vec<Team>)
        requires
            self.wf(),
        ensures
            out@ == self.spec_eligible_teams(),
    {
        let mut out: Vec<Team> = Vec::new();
        let mut i: usize = 0;
        while i < self.teams.len()
            invariant
                self.wf(),
                i <= self.teams@.len(),
                out@ == self.teams@.take(i as int).filter(|t: Team| self.spec_eligible(t)),
            decreases self.teams@.len() - i,
        {
            let t = self.teams[i];
            let keep = matches!(t.status, TeamStatus::Active) && !self.is_eliminated(t.id);
            proof {
                assert(keep == self.spec_eligible(self.teams@[i as int]));
                assert(self.teams@.take(i as int + 1) =~= self.teams@.take(i as int).push(
                    self.teams@[i as int],
                ));
                lemma_filter_push(
                    self.teams@.take(i as int),
                    self.teams@[i as int],
                    |t: Team| self.spec_eligible(t),
                );
            }
            if keep {
                out.push(t);
            }
            i += 1;
        }
        proof {
            assert(self.teams@.take(self.teams@.len() as int) =~= self.teams@);
        }
        out
    }

    /// Generate the run order for one round.
    ///
    /// Refused when the event is in a terminal status or the round already
    /// has a completed run; refused when no team is eligible. On success the
    /// round's previous draw and run rows are dropped, every eligible team is
    /// drawn exactly once at positions `1..=n` (in ascending id order unless
    /// `reseed` asks for a fresh permutation), a pending run is seeded per
    /// position when `seed_runs` is set, and rows of other rounds are kept.
    #[verifier::rlimit(100)]
    #[verifier::spinoff_prover]
    pub fn generate_round(&mut self, round: u64, reseed: bool, seed_runs: bool, seed: u64) -> (res:
        Result<usize, CoreError>)
        requires
            old(self).wf(),
            round >= 1,
        ensures
            final(self).wf(),
            final(self).status == old(self).status,
            final(self).entry_fee == old(self).entry_fee,
            final(self).prize_pool == old(self).prize_pool,
            final(self).teams == old(self).teams,
            final(self).rules == old(self).rules,
            res.is_err() ==> *final(self) == *old(self),
            (res == Err::<usize, CoreError>(CoreError::State)) <==> (old(self).status
                == EventStatus::Completed || old(self).spec_round_started(round)),
            (res == Err::<usize, CoreError>(CoreError::EmptyInput)) <==> (old(self).status
                != EventStatus::Completed && !old(self).spec_round_started(round) && (forall|i: int|
                0 <= i < old(self).teams@.len() ==> !old(self).spec_eligible(
                    #[trigger] old(self).teams@[i],
                ))),
            res.is_ok() <==> (old(self).status != EventStatus::Completed && !old(
                self,
            ).spec_round_started(round) && (exists|i: int|
                0 <= i < old(self).teams@.len() && old(self).spec_eligible(
                    #[trigger] old(self).teams@[i],
                ))),
            res matches Ok(n) ==> ({
                let nd = round_draws(final(self).draws@, round);
                let nr = round_runs(final(self).runs@, round);
                &&& n == nd.len()
                &&& n == old(self).spec_eligible_teams().len()
                &&& n >= 1
                &&& forall|k: int| 0 <= k < nd.len() ==> (#[trigger] nd[k]).position == k + 1
                &&& forall|k: int|
                    0 <= k < nd.len() ==> old(self).spec_eligible_id((#[trigger] nd[k]).team_id)
                &&& forall|a: int, b: int|
                    0 <= a < b < nd.len() ==> (#[trigger] nd[a]).team_id != (
                    #[trigger] nd[b]).team_id
                &&& forall|i: int|
                    0 <= i < old(self).teams@.len() && old(self).spec_eligible(
                        #[trigger] old(self).teams@[i],
                    ) ==> exists|k: int|
                        0 <= k < nd.len() && (#[trigger] nd[k]).team_id == old(self).teams@[i].id
                &&& (!reseed ==> forall|a: int, b: int|
                    0 <= a < b < nd.len() ==> (#[trigger] nd[a]).team_id < (
                    #[trigger] nd[b]).team_id)
                &&& (seed_runs ==> nr.len() == nd.len() && forall|k: int|
                    0 <= k < nr.len() ==> #[trigger] nr[k] == spec_pending_run(
                        nd[k].team_id,
                        round,
                        (k + 1) as u64,
                    ))
                &&& (!seed_runs ==> nr.len() == 0)
            }),
            res.is_ok() ==> ({
                &&& forall|j: int|
                    0 <= j < final(self).draws@.len() && (#[trigger] final(self).draws@[j]).round
                        != round ==> old(self).draws@.contains(final(self).draws@[j])
                &&& forall|j: int|
                    0 <= j < old(self).draws@.len() && (#[trigger] old(self).draws@[j]).round
                        != round ==> final(self).draws@.contains(old(self).draws@[j])
                &&& forall|j: int|
                    0 <= j < final(self).runs@.len() && (#[trigger] final(self).runs@[j]).round
                        != round ==> old(self).runs@.contains(final(self).runs@[j])
                &&& forall|j: int|
                    0 <= j < old(self).runs@.len() && (#[trigger] old(self).runs@[j]).round
                        != round ==> final(self).runs@.contains(old(self).runs@[j])
            }),
    {
        if matches!(self.status, EventStatus::Completed) {
            return Err(CoreError::State);
        }
        if self.round_has_completed_runs(round) {
            return Err(CoreError::State);
        }
        let mut ids = self.eligible_team_ids();
        if ids.len() == 0 {
            proof {
                assert forall|i: int|
                    0 <= i < self.teams@.len() implies !self.spec_eligible(
                    #[trigger] self.teams@[i],
                ) by {
                    if self.spec_eligible(self.teams@[i]) {
                        assert(ids@.contains(self.teams@[i].id));
                    }
                }
            }
            return Err(CoreError::EmptyInput);
        }
        let ghost pre = ids@;
        if reseed {
            shuffle_seeded(&mut ids, seed);
        }
        proof {
            broadcast use vstd::seq_lib::group_to_multiset_ensures;

            assert(ids@.to_multiset() == pre.to_multiset());
            assert(pre.no_duplicates());
            pre.lemma_multiset_has_no_duplicates();
            ids@.lemma_multiset_has_no_duplicates_conv();
            assert forall|x: u64| ids@.contains(x) implies pre.contains(x) by {
                assert(pre.to_multiset().count(x) > 0);
            }
            assert forall|x: u64| pre.contains(x) implies ids@.contains(x) by {
                assert(ids@.to_multiset().count(x) > 0);
            }
        }

        let kept_draws = retain_draws_not_round(&self.draws, round);
        let kept_runs = retain_runs_not_round(&self.runs, round);
        let ghost base_d = kept_draws@;
        let ghost base_r = kept_runs@;
        let mut new_draws = kept_draws;
        let mut new_runs = kept_runs;
        let n = ids.len();
        let mut k: usize = 0;
        while k < n
            invariant
                n == ids@.len(),
                k <= n,
                new_draws@.len() == base_d.len() + k,
                forall|m: int| 0 <= m < base_d.len() ==> #[trigger] new_draws@[m] == base_d[m],
                forall|m: int|
                    0 <= m < k ==> #[trigger] new_draws@[base_d.len() + m] == (DrawEntry {
                        round,
                        position: (m + 1) as u64,
                        team_id: ids@[m],
                    }),
                seed_runs ==> new_runs@.len() == base_r.len() + k,
                seed_runs ==> forall|m: int|
                    0 <= m < base_r.len() ==> #[trigger] new_runs@[m] == base_r[m],
                seed_runs ==> forall|m: int|
                    0 <= m < k ==> #[trigger] new_runs@[base_r.len() + m] == spec_pending_run(
                        ids@[m],
                        round,
                        (m + 1) as u64,
                    ),
                !seed_runs ==> new_runs@ == base_r,
            decreases n - k,
        {
            let position: u64 = (k as u64) + 1;
            let tid = ids[k];
            new_draws.push(DrawEntry { round, position, team_id: tid });
            if seed_runs {
                new_runs.push(
                    Run {
                        team_id: tid,
                        round,
                        position,
                        time_ms: None,
                        penalty_ms: 0,
                        total_ms: None,
                        no_time: false,
                        dq: false,
                        status: RunStatus::Pending,
                    },
                );
            }
            k += 1;
        }

        self.draws = new_draws;
        self.runs = new_runs;

        proof {
            lemma_rebuild_draws(*old(self), *self, ids@, round, base_d);
            lemma_rebuild_runs(*old(self), *self, ids@, round, seed_runs, base_r);
            let fin_d = self.draws@;
            let nd = round_draws(fin_d, round);

            // each drawn team was eligible before the call
            assert forall|k: int| 0 <= k < nd.len() implies old(self).spec_eligible_id(
                (#[trigger] nd[k]).team_id,
            ) by {
                assert(ids@.contains(ids@[k]));
                assert(pre.contains(ids@[k]));
                let k0 = choose|k0: int| 0 <= k0 < pre.len() && pre[k0] == ids@[k];
                assert(old(self).spec_eligible_id(pre[k0]));
            }

            // the draw covers every eligible team
            assert forall|i: int|
                0 <= i < old(self).teams@.len() && old(self).spec_eligible(
                    #[trigger] old(self).teams@[i],
                ) implies exists|k: int|
                0 <= k < nd.len() && (#[trigger] nd[k]).team_id == old(self).teams@[i].id by {
                assert(pre.contains(old(self).teams@[i].id));
                assert(ids@.contains(old(self).teams@[i].id));
                let k = choose|k: int| 0 <= k < ids@.len() && ids@[k] == old(self).teams@[i].id;
                assert(nd[k].team_id == old(self).teams@[i].id);
            }

            // the event had an eligible team, so EmptyInput cannot describe it
            assert(old(self).spec_eligible_id(pre[0]));
            let w = choose|w: int|
                0 <= w < old(self).teams@.len() && (#[trigger] old(self).teams@[w]).id == pre[0]
                    && old(self).spec_eligible(old(self).teams@[w]);
            assert(old(self).spec_eligible(old(self).teams@[w]));
        }
        Ok(n)
    }

    /// Generate draws for rounds `1..=rounds` in one atomic batch, against a
    /// single eligibility snapshot taken at the start.
    ///
    /// Refused only for a locked event (a policy deliberately weaker than the
    /// single-round guard) and when no team is eligible. Rows are inserted or
    /// overwritten by key rather than deleted: an existing run row of a drawn
    /// team keeps its captured result and only moves position, so no captured
    /// time or flag is ever lost by a batch. When `shuffle` is set, each
    /// round's order is a fresh permutation re-sequenced by the greedy
    /// anti-repetition pass.
    #[verifier::rlimit(100)]
    #[verifier::spinoff_prover]
    pub fn generate_batch(&mut self, rounds: u64, shuffle: bool, seed: u64) -> (res: Result<
        u128,
        CoreError,
    >)
        requires
            old(self).wf(),
        ensures
            final(self).wf(),
            final(self).status == old(self).status,
            final(self).entry_fee == old(self).entry_fee,
            final(self).prize_pool == old(self).prize_pool,
            final(self).teams == old(self).teams,
            final(self).rules == old(self).rules,
            res.is_err() ==> *final(self) == *old(self),
            (res == Err::<u128, CoreError>(CoreError::State)) <==> old(self).status
                == EventStatus::Locked,
            (res == Err::<u128, CoreError>(CoreError::EmptyInput)) <==> (old(self).status
                != EventStatus::Locked && old(self).spec_eligible_teams().len() == 0),
            res.is_ok() <==> (old(self).status != EventStatus::Locked && old(
                self,
            ).spec_eligible_teams().len() > 0),
            res matches Ok(total) ==> ({
                let n = old(self).spec_eligible_teams().len();
                &&& total == n * rounds
                &&& n >= 1
                &&& final(self).runs@.len() >= old(self).runs@.len()
                &&& forall|j: int|
                    0 <= j < old(self).runs@.len() ==> {
                        &&& #[trigger] final(self).runs@[j] == (Run {
                            position: final(self).runs@[j].position,
                            ..old(self).runs@[j]
                        })
                        &&& (final(self).runs@[j] == old(self).runs@[j] || (1 <= old(
                            self,
                        ).runs@[j].round <= rounds && old(self).spec_eligible_id(
                            old(self).runs@[j].team_id,
                        )))
                    }
                &&& forall|j: int|
                    old(self).runs@.len() <= j < final(self).runs@.len() ==> {
                        &&& #[trigger] final(self).runs@[j] == spec_pending_run(
                            final(self).runs@[j].team_id,
                            final(self).runs@[j].round,
                            final(self).runs@[j].position,
                        )
                        &&& 1 <= final(self).runs@[j].round <= rounds
                        &&& 1 <= final(self).runs@[j].position <= n
                        &&& old(self).spec_eligible_id(final(self).runs@[j].team_id)
                    }
                &&& final(self).draws@.len() >= old(self).draws@.len()
                &&& forall|j: int|
                    0 <= j < old(self).draws@.len() ==> {
                        &&& (#[trigger] final(self).draws@[j]).round == old(self).draws@[j].round
                        &&& final(self).draws@[j].position == old(self).draws@[j].position
                        &&& (!(1 <= old(self).draws@[j].round <= rounds && 1 <= old(
                            self,
                        ).draws@[j].position <= n) ==> final(self).draws@[j] == old(self).draws@[j])
                        &&& ((1 <= old(self).draws@[j].round <= rounds && 1 <= old(
                            self,
                        ).draws@[j].position <= n) ==> old(self).spec_eligible_id(
                            final(self).draws@[j].team_id,
                        ))
                    }
                &&& forall|j: int|
                    old(self).draws@.len() <= j < final(self).draws@.len() ==> {
                        &&& 1 <= (#[trigger] final(self).draws@[j]).round <= rounds
                        &&& 1 <= final(self).draws@[j].position <= n
                        &&& old(self).spec_eligible_id(final(self).draws@[j].team_id)
                    }
                &&& forall|rr: u64, p: int|
                    1 <= rr <= rounds && 1 <= p <= n ==> has_draw_row(
                        final(self).draws@,
                        rr,
                        p,
                    )
                &&& forall|rr: u64, i: int|
                    1 <= rr <= rounds && 0 <= i < old(self).teams@.len() && old(
                        self,
                    ).spec_eligible(old(self).teams@[i]) ==> #[trigger] has_run_row(
                        final(self).runs@,
                        rr,
                        old(self).teams@[i].id,
                    )
                &&& forall|rr: u64|
                    1 <= rr <= rounds ==> #[trigger] spec_batch_round_ordered(
                        *old(self),
                        final(self).draws@,
                        final(self).runs@,
                        rr,
                        shuffle,
                    )
                &&& forall|j1: int, j2: int|
                    0 <= j1 < j2 < final(self).draws@.len()
                        && (#[trigger] final(self).draws@[j1]).round
                        == (#[trigger] final(self).draws@[j2]).round
                        && 1 <= final(self).draws@[j1].round <= rounds
                        && 1 <= final(self).draws@[j1].position <= n
                        && 1 <= final(self).draws@[j2].position <= n
                        ==> final(self).draws@[j1].team_id != final(self).draws@[j2].team_id
            }),
    {
        if matches!(self.status, EventStatus::Locked) {
            return Err(CoreError::State);
        }
        let mut order = self.eligible_teams();
        if order.len() == 0 {
            return Err(CoreError::EmptyInput);
        }
        let n = order.len();
        let ghost orig = *self;
        let ghost el = old(self).spec_eligible_teams();
        proof {
            lemma_filter_preserves_pairwise(
                self.teams@,
                |t: Team| self.spec_eligible(t),
                |x: Team, y: Team| x.id < y.id,
            );
        }

        let ghost mut orders: Seq<Seq<Team>> = Seq::<Seq<Team>>::empty();
        let mut done: u64 = 0;
        while done < rounds
            invariant
                self.wf(),
                self.status == orig.status,
                self.entry_fee == orig.entry_fee,
                self.prize_pool == orig.prize_pool,
                self.teams == orig.teams,
                self.rules == orig.rules,
                orig == *old(self),
                orig.wf(),
                el == orig.spec_eligible_teams(),
                done <= rounds,
                n == el.len(),
                n >= 1,
                order@.len() == n,
                order@.to_multiset() == el.to_multiset(),
                !shuffle ==> order@ == el,
                orders.len() == done,
                forall|r2: int|
                    0 <= r2 < done ==> spec_batch_order(el, shuffle, #[trigger] orders[r2]),
                forall|r2: int|
                    0 <= r2 < done ==> spec_round_bound(
                        self.draws@,
                        self.runs@,
                        (r2 + 1) as u64,
                        n as int,
                        #[trigger] orders[r2],
                    ),
                forall|a: int, b: int|
                    0 <= a < b < order@.len() ==> (#[trigger] order@[a]).id != (
                    #[trigger] order@[b]).id,
                self.runs@.len() >= orig.runs@.len(),
                forall|j: int|
                    0 <= j < orig.runs@.len() ==> {
                        &&& #[trigger] self.runs@[j] == (Run {
                            position: self.runs@[j].position,
                            ..orig.runs@[j]
                        })
                        &&& (self.runs@[j] == orig.runs@[j] || (1 <= orig.runs@[j].round <= done
                            && orig.spec_eligible_id(orig.runs@[j].team_id)))
                    },
                forall|j: int|
                    orig.runs@.len() <= j < self.runs@.len() ==> {
                        &&& #[trigger] self.runs@[j] == spec_pending_run(
                            self.runs@[j].team_id,
                            self.runs@[j].round,
                            self.runs@[j].position,
                        )
                        &&& 1 <= self.runs@[j].round <= done
                        &&& 1 <= self.runs@[j].position <= n
                        &&& orig.spec_eligible_id(self.runs@[j].team_id)
                    },
                self.draws@.len() >= orig.draws@.len(),
                forall|j: int|
                    0 <= j < orig.draws@.len() ==> {
                        &&& (#[trigger] self.draws@[j]).round == orig.draws@[j].round
                        &&& self.draws@[j].position == orig.draws@[j].position
                        &&& (!(1 <= orig.draws@[j].round <= done && 1 <= orig.draws@[j].position
                            <= n) ==> self.draws@[j] == orig.draws@[j])
                        &&& ((1 <= orig.draws@[j].round <= done && 1 <= orig.draws@[j].position
                            <= n) ==> orig.spec_eligible_id(self.draws@[j].team_id))
                    },
                forall|j: int|
                    orig.draws@.len() <= j < self.draws@.len() ==> {
                        &&& 1 <= (#[trigger] self.draws@[j]).round <= done
                        &&& 1 <= self.draws@[j].position <= n
                        &&& orig.spec_eligible_id(self.draws@[j].team_id)
                    },
                forall|rr: u64, p: int|
                    1 <= rr <= done && 1 <= p <= n ==> has_draw_row(self.draws@, rr, p),
                forall|rr: u64, i: int|
                    1 <= rr <= done && 0 <= i < orig.teams@.len() && orig.spec_eligible(
                        orig.teams@[i],
                    ) ==> #[trigger] has_run_row(self.runs@, rr, orig.teams@[i].id),
            decreases rounds - done,
        {
            let rr: u64 = done + 1;
            if shuffle {
                shuffle_seeded(&mut order, seed ^ rr);
                let ghost perm0 = order@;
                order = space_out(order);
                proof {
                    assert(order@ == spec_space_out(perm0));
                    assert(perm0.to_multiset() == el.to_multiset());
                    assert(spec_batch_order(el, shuffle, order@));
                }
            }
            proof {
                lemma_filter_preserves_pairwise(
                    orig.teams@,
                    |t: Team| orig.spec_eligible(t),
                    |x: Team, y: Team| x.id < y.id,
                );
                lemma_perm_distinct_ids(el, order@);
                lemma_order_members(orig, order@);
                assert(spec_batch_order(el, shuffle, order@));
            }
            let ghost mid = *self;
            upsert_round_draws(&mut self.draws, rr, &order);
            upsert_round_runs(&mut self.runs, rr, &order);
            proof {
                lemma_batch_step(orig, mid, *self, order@, rr, done, n as int);
                orders = orders.push(order@);
                assert forall|r2: int| 0 <= r2 < done + 1 implies spec_round_bound(
                    self.draws@,
                    self.runs@,
                    (r2 + 1) as u64,
                    n as int,
                    #[trigger] orders[r2],
                ) by {
                    if r2 < done {
                        assert(spec_round_bound(
                            mid.draws@,
                            mid.runs@,
                            (r2 + 1) as u64,
                            n as int,
                            orders[r2],
                        ));
                        // this round's upsert rewrote rows of round `rr` only,
                        // so earlier rounds keep their rows verbatim
                        assert forall|j: int|
                            0 <= j < self.draws@.len() && (#[trigger] self.draws@[j]).round == (r2
                                + 1) as u64 && 1 <= self.draws@[j].position <= n as int
                            implies self.draws@[j].team_id == orders[r2][self.draws@[j].position
                            - 1].id by {
                            assert(j < mid.draws@.len());
                            assert(self.draws@[j] == mid.draws@[j]);
                        }
                        assert forall|j: int|
                            0 <= j < self.runs@.len() && (#[trigger] self.runs@[j]).round == (r2
                                + 1) as u64 && (exists|m: int|
                                0 <= m < orders[r2].len() && (#[trigger] orders[r2][m]).id
                                    == self.runs@[j].team_id) implies exists|m: int|
                            0 <= m < orders[r2].len() && (#[trigger] orders[r2][m]).id
                                == self.runs@[j].team_id && self.runs@[j].position == m + 1 by {
                            assert(j < mid.runs@.len());
                            assert(self.runs@[j] == mid.runs@[j]);
                        }
                    } else {
                        assert(orders[r2] == order@);
                        assert forall|j: int|
                            0 <= j < self.draws@.len() && (#[trigger] self.draws@[j]).round == rr
                                && 1 <= self.draws@[j].position <= n as int
                            implies self.draws@[j].team_id == order@[self.draws@[j].position
                            - 1].id by {
                            if j < mid.draws@.len() {
                                assert(mid.draws@[j].round == rr && 1 <= mid.draws@[j].position
                                    <= n as int);
                            }
                        }
                        assert forall|j: int|
                            0 <= j < self.runs@.len() && (#[trigger] self.runs@[j]).round == rr
                                && (exists|m: int|
                                0 <= m < order@.len() && (#[trigger] order@[m]).id
                                    == self.runs@[j].team_id) implies exists|m: int|
                            0 <= m < order@.len() && (#[trigger] order@[m]).id
                                == self.runs@[j].team_id && self.runs@[j].position == m + 1 by {
                            if j < mid.runs@.len() {
                                assert(mid.runs@[j].round == rr && mid.runs@[j].team_id
                                    == self.runs@[j].team_id);
                            } else {
                                let m = choose|m: int|
                                    0 <= m < order@.len() && #[trigger] self.runs@[j]
                                        == spec_pending_run(order@[m].id, rr, (m + 1) as u64);
                                assert(order@[m].id == self.runs@[j].team_id && self.runs@[j].position
                                    == m + 1);
                            }
                        }
                    }
                }
            }
            done = done + 1;
        }
        proof {
            let x = n as u128;
            let y = rounds as u128;
            assert(x * y <= u128::MAX) by (nonlinear_arith)
                requires
                    x <= 0xffff_ffff_ffff_ffffu128,
                    y <= 0xffff_ffff_ffff_ffffu128,
            ;

            // each generated round follows one admissible order
            assert forall|rr: u64| 1 <= rr <= rounds implies #[trigger] spec_batch_round_ordered(
                *old(self),
                self.draws@,
                self.runs@,
                rr,
                shuffle,
            ) by {
                let ord = orders[rr as int - 1];
                assert(spec_batch_order(el, shuffle, ord));
                assert(spec_round_bound(self.draws@, self.runs@, ((rr as int - 1) + 1) as u64, n as int, ord));
                assert(((rr as int - 1) + 1) as u64 == rr);
            }

            // within one generated round, in-range positions carry pairwise
            // distinct teams
            assert forall|j1: int, j2: int|
                0 <= j1 < j2 < self.draws@.len() && (#[trigger] self.draws@[j1]).round == (
                #[trigger] self.draws@[j2]).round && 1 <= self.draws@[j1].round <= rounds && 1
                    <= self.draws@[j1].position <= n && 1 <= self.draws@[j2].position <= n
                implies self.draws@[j1].team_id != self.draws@[j2].team_id by {
                let rr = self.draws@[j1].round;
                let ord = orders[rr as int - 1];
                assert(spec_round_bound(self.draws@, self.runs@, ((rr as int - 1) + 1) as u64, n as int, ord));
                assert(((rr as int - 1) + 1) as u64 == rr);
                lemma_filter_preserves_pairwise(
                    orig.teams@,
                    |t: Team| orig.spec_eligible(t),
                    |x: Team, y: Team| x.id < y.id,
                );
                lemma_perm_distinct_ids(el, ord);
                assert(self.draws@[j1].team_id == ord[self.draws@[j1].position - 1].id);
                assert(self.draws@[j2].team_id == ord[self.draws@[j2].position - 1].id);
                assert(self.draws@[j1].position != self.draws@[j2].position);
            }
        }
        Ok((n as u128) * (rounds as u128))
    }

    /// The draw of one round, in ascending position order.
    pub fn draw_of_round(&self, round: u64) -> (out: Vec<DrawEntry>)
        requires
            self.wf(),
        ensures
            out@.to_multiset() == round_draws(self.draws@, round).to_multiset(),
            forall|i: int, j: int|
                0 <= i < j < out@.len() ==> (#[trigger] out@[i]).position <= (
                #[trigger] out@[j]).position,
            forall|k: int| 0 <= k < out@.len() ==> (#[trigger] out@[k]).round == round,
    {
        broadcast use vstd::seq_lib::group_to_multiset_ensures;

        let mut rows: Vec<DrawEntry> = Vec::new();
        let mut i: usize = 0;
        while i < self.draws.len()
            invariant
                i <= self.draws@.len(),
                rows@ == self.draws@.take(i as int).filter(|d: DrawEntry| d.round == round),
            decreases self.draws@.len() - i,
        {
            let d = self.draws[i];
            proof {
                assert(self.draws@.take(i as int + 1) =~= self.draws@.take(i as int).push(
                    self.draws@[i as int],
                ));
                lemma_filter_push(
                    self.draws@.take(i as int),
                    self.draws@[i as int],
                    |d: DrawEntry| d.round == round,
                );
            }
            if d.round == round {
                rows.push(d);
            }
            i += 1;
        }
        proof {
            assert(self.draws@.take(self.draws@.len() as int) =~= self.draws@);
        }
        let ghost fr = round_draws(self.draws@, round);
        let out = sort_draws_by_position(rows);
        proof {
            assert forall|k: int| 0 <= k < out@.len() implies (#[trigger] out@[k]).round
                == round by {
                assert(out@.contains(out@[k]));
                assert(fr.to_multiset().count(out@[k]) > 0);
                assert(fr.contains(out@[k]));
                let m = choose|m: int| 0 <= m < fr.len() && fr[m] == out@[k];
                self.draws@.lemma_filter_pred(|d: DrawEntry| d.round == round, m);
            }
        }
        out
    }

    /// The run rows of one round, in ascending position order.
    pub fn runs_of_round(&self, round: u64) -> (out: Vec<Run>)
        requires
            self.wf(),
        ensures
            out@.to_multiset() == round_runs(self.runs@, round).to_multiset(),
            forall|i: int, j: int|
                0 <= i < j < out@.len() ==> (#[trigger] out@[i]).position <= (
                #[trigger] out@[j]).position,
            forall|k: int| 0 <= k < out@.len() ==> (#[trigger] out@[k]).round == round,
    {
        broadcast use vstd::seq_lib::group_to_multiset_ensures;

        let mut rows: Vec<Run> = Vec::new();
        let mut i: usize = 0;
        while i < self.runs.len()
            invariant
                i <= self.runs@.len(),
                rows@ == self.runs@.take(i as int).filter(|r: Run| r.round == round),
            decreases self.runs@.len() - i,
        {
            let r = self.runs[i];
            proof {
                assert(self.runs@.take(i as int + 1) =~= self.runs@.take(i as int).push(
                    self.runs@[i as int],
                ));
                lemma_filter_push(
                    self.runs@.take(i as int),
                    self.runs@[i as int],
                    |r: Run| r.round == round,
                );
            }
            if r.round == round {
                rows.push(r);
            }
            i += 1;
        }
        proof {
            assert(self.runs@.take(self.runs@.len() as int) =~= self.runs@);
        }
        let ghost fr = round_runs(self.runs@, round);
        let out = sort_runs_by_position(rows);
        proof {
            assert forall|k: int| 0 <= k < out@.len() implies (#[trigger] out@[k]).round
                == round by {
                assert(out@.contains(out@[k]));
                assert(fr.to_multiset().count(out@[k]) > 0);
                assert(fr.contains(out@[k]));
                let m = choose|m: int| 0 <= m < fr.len() && fr[m] == out@[k];
                self.runs@.lemma_filter_pred(|r: Run| r.round == round, m);
            }
        }
        out
    }
}

/// How the rebuilt draw table of `generate_round` relates to the old one: the
/// rows of the generated round are exactly the appended entries, rows of
/// other rounds are kept, and uniqueness of (round, position) is preserved.
proof fn lemma_rebuild_draws(old_ev: Event, new_ev: Event, ids: Seq<u64>, round: u64, base: Seq<DrawEntry>)
    requires
        old_ev.draws_wf(),
        round >= 1,
        ids.len() <= u64::MAX,
        base == old_ev.draws@.filter(|d: DrawEntry| d.round != round),
        new_ev.draws@.len() == base.len() + ids.len(),
        forall|m: int| 0 <= m < base.len() ==> #[trigger] new_ev.draws@[m] == base[m],
        forall|m: int|
            0 <= m < ids.len() ==> #[trigger] new_ev.draws@[base.len() + m] == (DrawEntry {
                round,
                position: (m + 1) as u64,
                team_id: ids[m],
            }),
    ensures
        new_ev.draws_wf(),
        round_draws(new_ev.draws@, round).len() == ids.len(),
        forall|k: int|
            0 <= k < ids.len() ==> #[trigger] round_draws(new_ev.draws@, round)[k] == (DrawEntry {
                round,
                position: (k + 1) as u64,
                team_id: ids[k],
            }),
        forall|j: int|
            0 <= j < new_ev.draws@.len() && (#[trigger] new_ev.draws@[j]).round != round
                ==> old_ev.draws@.contains(new_ev.draws@[j]),
        forall|j: int|
            0 <= j < old_ev.draws@.len() && (#[trigger] old_ev.draws@[j]).round != round
                ==> new_ev.draws@.contains(old_ev.draws@[j]),
{
    let od = old_ev.draws@;
    let fin = new_ev.draws@;
    let fresh = fin.skip(base.len() as int);
    assert(fin =~= base + fresh);
    assert forall|m: int| 0 <= m < fresh.len() implies (#[trigger] fresh[m]) == (DrawEntry {
        round,
        position: (m + 1) as u64,
        team_id: ids[m],
    }) by {
        assert(fresh[m] == fin[base.len() + m]);
    }

    assert forall|m: int| 0 <= m < base.len() implies (#[trigger] base[m]).round != round by {
        od.lemma_filter_pred(|d: DrawEntry| d.round != round, m);
    }
    lemma_filter_elements(od, |d: DrawEntry| d.round != round);

    Seq::<DrawEntry>::filter_distributes_over_add(base, fresh, |d: DrawEntry| d.round == round);
    lemma_filter_all_false(base, |d: DrawEntry| d.round == round);
    lemma_filter_all_true(fresh, |d: DrawEntry| d.round == round);
    assert(round_draws(fin, round) =~= fresh);

    lemma_filter_preserves_pairwise(
        od,
        |d: DrawEntry| d.round != round,
        |x: DrawEntry, y: DrawEntry| !(x.round == y.round && x.position == y.position),
    );
    assert forall|a: int, b: int| 0 <= a < b < fin.len() implies !((#[trigger] fin[a]).round == (
    #[trigger] fin[b]).round && fin[a].position == fin[b].position) by {
        if b < base.len() {
        } else if a >= base.len() {
            assert(fin[a].position == a - base.len() + 1);
            assert(fin[b].position == b - base.len() + 1);
        } else {
            assert(fin[a].round != round && fin[b].round == round);
        }
    }
    assert forall|a: int| 0 <= a < fin.len() implies (#[trigger] fin[a]).round >= 1
        && fin[a].position >= 1 by {
        if a < base.len() {
            let j = choose|j: int| 0 <= j < od.len() && od[j] == base[a];
        } else {
            assert(fin[a].position == a - base.len() + 1);
        }
    }

    assert forall|j: int| 0 <= j < fin.len() && (#[trigger] fin[j]).round != round implies od.contains(
        fin[j],
    ) by {
        assert(j < base.len());
        assert(od.contains(od.filter(|d: DrawEntry| d.round != round)[j]));
    }
    assert forall|j: int| 0 <= j < od.len() && (#[trigger] od[j]).round != round implies fin.contains(
        od[j],
    ) by {
        od.lemma_filter_contains(|d: DrawEntry| d.round != round, j);
        let m = choose|m: int| 0 <= m < base.len() && base[m] == od[j];
        assert(fin[m] == od[j]);
    }
}

/// The run-table counterpart of `lemma_rebuild_draws`: seeded pending rows
/// are exactly the round's rows when asked for, none otherwise; rows of other
/// rounds are kept; uniqueness of (round, team) is preserved.
proof fn lemma_rebuild_runs(
    old_ev: Event,
    new_ev: Event,
    ids: Seq<u64>,
    round: u64,
    seed_runs: bool,
    base: Seq<Run>,
)
    requires
        old_ev.runs_wf(),
        round >= 1,
        ids.len() <= u64::MAX,
        ids.no_duplicates(),
        base == old_ev.runs@.filter(|r: Run| r.round != round),
        seed_runs ==> new_ev.runs@.len() == base.len() + ids.len(),
        seed_runs ==> forall|m: int| 0 <= m < base.len() ==> #[trigger] new_ev.runs@[m] == base[m],
        seed_runs ==> forall|m: int|
            0 <= m < ids.len() ==> #[trigger] new_ev.runs@[base.len() + m] == spec_pending_run(
                ids[m],
                round,
                (m + 1) as u64,
            ),
        !seed_runs ==> new_ev.runs@ == base,
    ensures
        new_ev.runs_wf(),
        seed_runs ==> round_runs(new_ev.runs@, round).len() == ids.len(),
        seed_runs ==> forall|k: int|
            0 <= k < ids.len() ==> #[trigger] round_runs(new_ev.runs@, round)[k]
                == spec_pending_run(ids[k], round, (k + 1) as u64),
        !seed_runs ==> round_runs(new_ev.runs@, round).len() == 0,
        forall|j: int|
            0 <= j < new_ev.runs@.len() && (#[trigger] new_ev.runs@[j]).round != round
                ==> old_ev.runs@.contains(new_ev.runs@[j]),
        forall|j: int|
            0 <= j < old_ev.runs@.len() && (#[trigger] old_ev.runs@[j]).round != round
                ==> new_ev.runs@.contains(old_ev.runs@[j]),
{
    let or = old_ev.runs@;
    let fin = new_ev.runs@;
    let fresh = fin.skip(base.len() as int);
    assert(fin =~= base + fresh);
    if seed_runs {
        assert forall|m: int| 0 <= m < fresh.len() implies (#[trigger] fresh[m])
            == spec_pending_run(ids[m], round, (m + 1) as u64) by {
            assert(fresh[m] == fin[base.len() + m]);
        }
    } else {
        assert(fresh.len() == 0);
    }

    assert forall|m: int| 0 <= m < base.len() implies (#[trigger] base[m]).round != round by {
        or.lemma_filter_pred(|r: Run| r.round != round, m);
    }
    lemma_filter_elements(or, |r: Run| r.round != round);

    Seq::<Run>::filter_distributes_over_add(base, fresh, |r: Run| r.round == round);
    lemma_filter_all_false(base, |r: Run| r.round == round);
    if seed_runs {
        lemma_filter_all_true(fresh, |r: Run| r.round == round);
    } else {
        Seq::<Run>::lemma_filter_len(fresh, |r: Run| r.round == round);
    }
    assert(round_runs(fin, round) =~= fresh.filter(|r: Run| r.round == round));
    if seed_runs {
        assert(round_runs(fin, round) =~= fresh);
    }

    lemma_filter_preserves_pairwise(
        or,
        |r: Run| r.round != round,
        |x: Run, y: Run| !(x.round == y.round && x.team_id == y.team_id),
    );
    assert forall|a: int, b: int| 0 <= a < b < fin.len() implies !((#[trigger] fin[a]).round == (
    #[trigger] fin[b]).round && fin[a].team_id == fin[b].team_id) by {
        if b < base.len() {
        } else if a >= base.len() {
            assert(fin[a].team_id == ids[a - base.len()]);
            assert(fin[b].team_id == ids[b - base.len()]);
        } else {
            assert(fin[a].round != round && fin[b].round == round);
        }
    }
    assert forall|a: int| 0 <= a < fin.len() implies (#[trigger] fin[a]).wf() by {
        if a < base.len() {
            let j = choose|j: int| 0 <= j < or.len() && or[j] == base[a];
            assert(or[j].wf());
        }
    }

    assert forall|j: int| 0 <= j < fin.len() && (#[trigger] fin[j]).round != round implies or.contains(
        fin[j],
    ) by {
        assert(j < base.len());
        assert(or.contains(or.filter(|r: Run| r.round != round)[j]));
    }
    assert forall|j: int| 0 <= j < or.len() && (#[trigger] or[j]).round != round implies fin.contains(
        or[j],
    ) by {
        or.lemma_filter_contains(|r: Run| r.round != round, j);
        let m = choose|m: int| 0 <= m < base.len() && base[m] == or[j];
        assert(fin[m] == or[j]);
    }
}

/// Copy of the draw table without the rows of one round.
fn retain_draws_not_round(v: &Vec<DrawEntry>, round: u64) -> (out: Vec<DrawEntry>)
    ensures
        out@ == v@.filter(|d: DrawEntry| d.round != round),
{
    let mut out: Vec<DrawEntry> = Vec::new();
    let mut i: usize = 0;
    while i < v.len()
        invariant
            i <= v@.len(),
            out@ == v@.take(i as int).filter(|d: DrawEntry| d.round != round),
        decreases v@.len() - i,
    {
        let d = v[i];
        proof {
            assert(v@.take(i as int + 1) =~= v@.take(i as int).push(v@[i as int]));
            lemma_filter_push(v@.take(i as int), v@[i as int], |d: DrawEntry| d.round != round);
        }
        if d.round != round {
            out.push(d);
        }
        i += 1;
    }
    proof {
        assert(v@.take(v@.len() as int) =~= v@);
    }
    out
}

/// Copy of the run table without the rows of one round.
fn retain_runs_not_round(v: &Vec<Run>, round: u64) -> (out: Vec<Run>)
    ensures
        out@ == v@.filter(|r: Run| r.round != round),
{
    let mut out: Vec<Run> = Vec::new();
    let mut i: usize = 0;
    while i < v.len()
        invariant
            i <= v@.len(),
            out@ == v@.take(i as int).filter(|r: Run| r.round != round),
        decreases v@.len() - i,
    {
        let r = v[i];
        proof {
            assert(v@.take(i as int + 1) =~= v@.take(i as int).push(v@[i as int]));
            lemma_filter_push(v@.take(i as int), v@[i as int], |r: Run| r.round != round);
        }
        if r.round != round {
            out.push(r);
        }
        i += 1;
    }
    proof {
        assert(v@.take(v@.len() as int) =~= v@);
    }
    out
}

/// Whether a draw row with key `(round, position)` exists.
fn find_draw_key(v: &Vec<DrawEntry>, round: u64, position: u64) -> (b: bool)
    ensures
        b == exists|j: int|
            0 <= j < v@.len() && (#[trigger] v@[j]).round == round && v@[j].position == position,
{
    let mut j: usize = 0;
    while j < v.len()
        invariant
            j <= v@.len(),
            forall|m: int|
                0 <= m < j ==> !((#[trigger] v@[m]).round == round && v@[m].position == position),
        decreases v@.len() - j,
    {
        let d = v[j];
        if d.round == round && d.position == position {
            assert(v@[j as int].round == round && v@[j as int].position == position);
            return true;
        }
        j += 1;
    }
    false
}

/// Whether a run row with key `(round, team_id)` exists.
fn find_run_key(v: &Vec<Run>, round: u64, team_id: u64) -> (b: bool)
    ensures
        b == exists|j: int|
            0 <= j < v@.len() && (#[trigger] v@[j]).round == round && v@[j].team_id == team_id,
{
    let mut j: usize = 0;
    while j < v.len()
        invariant
            j <= v@.len(),
            forall|m: int|
                0 <= m < j ==> !((#[trigger] v@[m]).round == round && v@[m].team_id == team_id),
        decreases v@.len() - j,
    {
        let r = v[j];
        if r.round == round && r.team_id == team_id {
            assert(v@[j as int].round == round && v@[j as int].team_id == team_id);
            return true;
        }
        j += 1;
    }
    false
}

/// Index of the team with the given id in a round's order, if present.
fn index_of_team(order: &Vec<Team>, id: u64) -> (r: Option<usize>)
    ensures
        match r {
            Some(m) => m < order@.len() && order@[m as int].id == id,
            None => forall|m: int| 0 <= m < order@.len() ==> (#[trigger] order@[m]).id != id,
        },
{
    let mut m: usize = 0;
    while m < order.len()
        invariant
            m <= order@.len(),
            forall|k: int| 0 <= k < m ==> (#[trigger] order@[k]).id != id,
        decreases order@.len() - m,
    {
        if order[m].id == id {
            return Some(m);
        }
        m += 1;
    }
    None
}

/// One step of batch generation: what holds of the tables after upserting
/// round `rr` on top of a state already holding rounds `1..=done`.
#[verifier::rlimit(100)]
#[verifier::spinoff_prover]
proof fn lemma_batch_step(
    orig: Event,
    mid: Event,
    cur: Event,
    order: Seq<Team>,
    rr: u64,
    done: u64,
    n: int,
)
    requires
        rr == done + 1,
        n == order.len(),
        n <= u64::MAX,
        // what held before this round (rounds 1..=done applied)
        mid.runs@.len() >= orig.runs@.len(),
        forall|j: int|
            0 <= j < orig.runs@.len() ==> {
                &&& #[trigger] mid.runs@[j] == (Run {
                    position: mid.runs@[j].position,
                    ..orig.runs@[j]
                })
                &&& (mid.runs@[j] == orig.runs@[j] || (1 <= orig.runs@[j].round <= done
                    && orig.spec_eligible_id(orig.runs@[j].team_id)))
            },
        forall|j: int|
            orig.runs@.len() <= j < mid.runs@.len() ==> {
                &&& #[trigger] mid.runs@[j] == spec_pending_run(
                    mid.runs@[j].team_id,
                    mid.runs@[j].round,
                    mid.runs@[j].position,
                )
                &&& 1 <= mid.runs@[j].round <= done
                &&& 1 <= mid.runs@[j].position <= n
                &&& orig.spec_eligible_id(mid.runs@[j].team_id)
            },
        mid.draws@.len() >= orig.draws@.len(),
        forall|j: int|
            0 <= j < orig.draws@.len() ==> {
                &&& (#[trigger] mid.draws@[j]).round == orig.draws@[j].round
                &&& mid.draws@[j].position == orig.draws@[j].position
                &&& (!(1 <= orig.draws@[j].round <= done && 1 <= orig.draws@[j].position <= n)
                    ==> mid.draws@[j] == orig.draws@[j])
                &&& ((1 <= orig.draws@[j].round <= done && 1 <= orig.draws@[j].position <= n)
                    ==> orig.spec_eligible_id(mid.draws@[j].team_id))
            },
        forall|j: int|
            orig.draws@.len() <= j < mid.draws@.len() ==> {
                &&& 1 <= (#[trigger] mid.draws@[j]).round <= done
                &&& 1 <= mid.draws@[j].position <= n
                &&& orig.spec_eligible_id(mid.draws@[j].team_id)
            },
        forall|r2: u64, p: int| 1 <= r2 <= done && 1 <= p <= n ==> has_draw_row(mid.draws@, r2, p),
        forall|r2: u64, i: int|
            1 <= r2 <= done && 0 <= i < orig.teams@.len() && orig.spec_eligible(orig.teams@[i])
                ==> #[trigger] has_run_row(mid.runs@, r2, orig.teams@[i].id),
        // what this round's upsert did (the helpers' contracts)
        cur.draws@.len() >= mid.draws@.len(),
        forall|j: int|
            0 <= j < mid.draws@.len() ==> {
                &&& (#[trigger] cur.draws@[j]).round == mid.draws@[j].round
                &&& cur.draws@[j].position == mid.draws@[j].position
                &&& (if mid.draws@[j].round == rr && 1 <= mid.draws@[j].position <= n {
                    cur.draws@[j].team_id == order[mid.draws@[j].position - 1].id
                } else {
                    cur.draws@[j] == mid.draws@[j]
                })
            },
        forall|j: int|
            mid.draws@.len() <= j < cur.draws@.len() ==> {
                &&& (#[trigger] cur.draws@[j]).round == rr
                &&& 1 <= cur.draws@[j].position <= n
                &&& cur.draws@[j].team_id == order[cur.draws@[j].position - 1].id
            },
        forall|p: int| 1 <= p <= n ==> has_draw_row(cur.draws@, rr, p),
        cur.runs@.len() >= mid.runs@.len(),
        forall|j: int|
            0 <= j < mid.runs@.len() ==> {
                &&& #[trigger] cur.runs@[j] == (Run {
                    position: cur.runs@[j].position,
                    ..mid.runs@[j]
                })
                &&& (if mid.runs@[j].round == rr && (exists|m: int|
                    0 <= m < order.len() && (#[trigger] order[m]).id == mid.runs@[j].team_id) {
                    exists|m: int|
                        0 <= m < order.len() && (#[trigger] order[m]).id == mid.runs@[j].team_id
                            && cur.runs@[j].position == m + 1
                } else {
                    cur.runs@[j] == mid.runs@[j]
                })
            },
        forall|j: int|
            mid.runs@.len() <= j < cur.runs@.len() ==> exists|m: int|
                0 <= m < order.len() && #[trigger] cur.runs@[j] == spec_pending_run(
                    order[m].id,
                    rr,
                    (m + 1) as u64,
                ),
        forall|m: int| 0 <= m < order.len() ==> has_run_row(cur.runs@, rr, (#[trigger] order[m]).id),
        // the round's order holds eligible teams, and all of them
        forall|m: int| 0 <= m < order.len() ==> orig.spec_eligible_id((#[trigger] order[m]).id),
        forall|i: int|
            0 <= i < orig.teams@.len() && orig.spec_eligible(#[trigger] orig.teams@[i])
                ==> exists|m: int|
                0 <= m < order.len() && (#[trigger] order[m]).id == orig.teams@[i].id,
    ensures
        cur.runs@.len() >= orig.runs@.len(),
        forall|j: int|
            0 <= j < orig.runs@.len() ==> {
                &&& #[trigger] cur.runs@[j] == (Run {
                    position: cur.runs@[j].position,
                    ..orig.runs@[j]
                })
                &&& (cur.runs@[j] == orig.runs@[j] || (1 <= orig.runs@[j].round <= rr
                    && orig.spec_eligible_id(orig.runs@[j].team_id)))
            },
        forall|j: int|
            orig.runs@.len() <= j < cur.runs@.len() ==> {
                &&& #[trigger] cur.runs@[j] == spec_pending_run(
                    cur.runs@[j].team_id,
                    cur.runs@[j].round,
                    cur.runs@[j].position,
                )
                &&& 1 <= cur.runs@[j].round <= rr
                &&& 1 <= cur.runs@[j].position <= n
                &&& orig.spec_eligible_id(cur.runs@[j].team_id)
            },
        cur.draws@.len() >= orig.draws@.len(),
        forall|j: int|
            0 <= j < orig.draws@.len() ==> {
                &&& (#[trigger] cur.draws@[j]).round == orig.draws@[j].round
                &&& cur.draws@[j].position == orig.draws@[j].position
                &&& (!(1 <= orig.draws@[j].round <= rr && 1 <= orig.draws@[j].position <= n)
                    ==> cur.draws@[j] == orig.draws@[j])
                &&& ((1 <= orig.draws@[j].round <= rr && 1 <= orig.draws@[j].position <= n)
                    ==> orig.spec_eligible_id(cur.draws@[j].team_id))
            },
        forall|j: int|
            orig.draws@.len() <= j < cur.draws@.len() ==> {
                &&& 1 <= (#[trigger] cur.draws@[j]).round <= rr
                &&& 1 <= cur.draws@[j].position <= n
                &&& orig.spec_eligible_id(cur.draws@[j].team_id)
            },
        forall|r2: u64, p: int| 1 <= r2 <= rr && 1 <= p <= n ==> has_draw_row(cur.draws@, r2, p),
        forall|r2: u64, i: int|
            1 <= r2 <= rr && 0 <= i < orig.teams@.len() && orig.spec_eligible(orig.teams@[i])
                ==> #[trigger] has_run_row(cur.runs@, r2, orig.teams@[i].id),
{
    // original run rows: captured fields survive, only in-scope rows move
    assert forall|j: int| 0 <= j < orig.runs@.len() implies {
        &&& #[trigger] cur.runs@[j] == (Run { position: cur.runs@[j].position, ..orig.runs@[j] })
        &&& (cur.runs@[j] == orig.runs@[j] || (1 <= orig.runs@[j].round <= rr
            && orig.spec_eligible_id(orig.runs@[j].team_id)))
    } by {
        assert(mid.runs@[j] == (Run { position: mid.runs@[j].position, ..orig.runs@[j] }));
        assert(cur.runs@[j] == (Run { position: cur.runs@[j].position, ..mid.runs@[j] }));
        if cur.runs@[j] != orig.runs@[j] {
            if cur.runs@[j] == mid.runs@[j] {
            } else {
                assert(mid.runs@[j].round == rr);
                let m = choose|m: int|
                    0 <= m < order.len() && (#[trigger] order[m]).id == mid.runs@[j].team_id;
                assert(orig.spec_eligible_id(order[m].id));
            }
        }
    }
    // pending rows appended by earlier rounds or by this one
    assert forall|j: int| orig.runs@.len() <= j < cur.runs@.len() implies {
        &&& #[trigger] cur.runs@[j] == spec_pending_run(
            cur.runs@[j].team_id,
            cur.runs@[j].round,
            cur.runs@[j].position,
        )
        &&& 1 <= cur.runs@[j].round <= rr
        &&& 1 <= cur.runs@[j].position <= n
        &&& orig.spec_eligible_id(cur.runs@[j].team_id)
    } by {
        if j < mid.runs@.len() {
            assert(mid.runs@[j].round <= done);
            assert(cur.runs@[j] == mid.runs@[j]);
        } else {
            let m = choose|m: int|
                0 <= m < order.len() && #[trigger] cur.runs@[j] == spec_pending_run(
                    order[m].id,
                    rr,
                    (m + 1) as u64,
                );
            assert(orig.spec_eligible_id(order[m].id));
            assert(cur.runs@[j].position == m + 1);
        }
    }
    // original draw rows: keys survive; rows out of the batch's range are
    // untouched, rows in range hold an eligible team
    assert forall|j: int| 0 <= j < orig.draws@.len() implies {
        &&& (#[trigger] cur.draws@[j]).round == orig.draws@[j].round
        &&& cur.draws@[j].position == orig.draws@[j].position
        &&& (!(1 <= orig.draws@[j].round <= rr && 1 <= orig.draws@[j].position <= n)
            ==> cur.draws@[j] == orig.draws@[j])
        &&& ((1 <= orig.draws@[j].round <= rr && 1 <= orig.draws@[j].position <= n)
            ==> orig.spec_eligible_id(cur.draws@[j].team_id))
    } by {
        if !(1 <= orig.draws@[j].round <= rr && 1 <= orig.draws@[j].position <= n) {
            assert(mid.draws@[j] == orig.draws@[j]);
            assert(cur.draws@[j] == mid.draws@[j]);
        } else {
            if orig.draws@[j].round == rr {
                assert(mid.draws@[j].round == rr && 1 <= mid.draws@[j].position <= n);
                assert(cur.draws@[j].team_id == order[mid.draws@[j].position - 1].id);
                assert(orig.spec_eligible_id(order[mid.draws@[j].position - 1].id));
            } else {
                assert(cur.draws@[j] == mid.draws@[j]);
                assert(orig.spec_eligible_id(mid.draws@[j].team_id));
            }
        }
    }
    // draw rows appended by earlier rounds or by this one
    assert forall|j: int| orig.draws@.len() <= j < cur.draws@.len() implies {
        &&& 1 <= (#[trigger] cur.draws@[j]).round <= rr
        &&& 1 <= cur.draws@[j].position <= n
        &&& orig.spec_eligible_id(cur.draws@[j].team_id)
    } by {
        if j < mid.draws@.len() {
            assert(mid.draws@[j].round <= done);
            assert(cur.draws@[j] == mid.draws@[j]);
        } else {
            assert(cur.draws@[j].team_id == order[cur.draws@[j].position - 1].id);
            assert(orig.spec_eligible_id(order[cur.draws@[j].position - 1].id));
        }
    }
    // coverage: earlier rounds keep their rows, this round was just written
    assert forall|r2: u64, p: int| 1 <= r2 <= rr && 1 <= p <= n implies has_draw_row(
        cur.draws@,
        r2,
        p,
    ) by {
        if r2 <= done {
            assert(has_draw_row(mid.draws@, r2, p));
            let jw = choose|jw: int|
                0 <= jw < mid.draws@.len() && (#[trigger] mid.draws@[jw]).round == r2
                    && mid.draws@[jw].position == p;
            assert(cur.draws@[jw].round == r2 && cur.draws@[jw].position == p);
        }
    }
    assert forall|r2: u64, i: int|
        1 <= r2 <= rr && 0 <= i < orig.teams@.len() && orig.spec_eligible(orig.teams@[i])
            implies #[trigger] has_run_row(cur.runs@, r2, orig.teams@[i].id) by {
        if r2 <= done {
            assert(has_run_row(mid.runs@, r2, orig.teams@[i].id));
            let jw = choose|jw: int|
                0 <= jw < mid.runs@.len() && (#[trigger] mid.runs@[jw]).round == r2
                    && mid.runs@[jw].team_id == orig.teams@[i].id;
            assert(cur.runs@[jw] == (Run { position: cur.runs@[jw].position, ..mid.runs@[jw] }));
            assert(cur.runs@[jw].round == r2 && cur.runs@[jw].team_id == orig.teams@[i].id);
        } else {
            let m = choose|m: int|
                0 <= m < order.len() && (#[trigger] order[m]).id == orig.teams@[i].id;
            assert(has_run_row(cur.runs@, rr, order[m].id));
        }
    }
}

/// Members of any permutation of the eligible-team list are eligible, and
/// every eligible team appears in it.
proof fn lemma_order_members(ev: Event, order: Seq<Team>)
    requires
        order.to_multiset() == ev.spec_eligible_teams().to_multiset(),
    ensures
        forall|m: int| 0 <= m < order.len() ==> ev.spec_eligible_id((#[trigger] order[m]).id),
        forall|i: int|
            0 <= i < ev.teams@.len() && ev.spec_eligible(#[trigger] ev.teams@[i]) ==> exists|m: int|
                0 <= m < order.len() && (#[trigger] order[m]).id == ev.teams@[i].id,
{
    broadcast use vstd::seq_lib::group_to_multiset_ensures;

    let el = ev.spec_eligible_teams();
    lemma_filter_elements(ev.teams@, |t: Team| ev.spec_eligible(t));
    assert forall|m: int| 0 <= m < order.len() implies ev.spec_eligible_id(
        (#[trigger] order[m]).id,
    ) by {
        assert(order.contains(order[m]));
        assert(el.to_multiset().count(order[m]) > 0);
        assert(el.contains(order[m]));
        let k = choose|k: int| 0 <= k < el.len() && el[k] == order[m];
        ev.teams@.lemma_filter_pred(|t: Team| ev.spec_eligible(t), k);
        assert(ev.teams@.contains(el[k]));
        let i = choose|i: int| 0 <= i < ev.teams@.len() && ev.teams@[i] == el[k];
        assert(ev.teams@[i].id == order[m].id && ev.spec_eligible(ev.teams@[i]));
    }
    assert forall|i: int|
        0 <= i < ev.teams@.len() && ev.spec_eligible(#[trigger] ev.teams@[i]) implies exists|m: int|
        0 <= m < order.len() && (#[trigger] order[m]).id == ev.teams@[i].id by {
        ev.teams@.lemma_filter_contains(|t: Team| ev.spec_eligible(t), i);
        assert(el.contains(ev.teams@[i]));
        assert(order.to_multiset().count(ev.teams@[i]) > 0);
        assert(order.contains(ev.teams@[i]));
        let m = choose|m: int| 0 <= m < order.len() && order[m] == ev.teams@[i];
        assert(order[m].id == ev.teams@[i].id);
    }
}

/// A permutation of a sequence of teams with pairwise distinct ids again has
/// pairwise distinct ids.
proof fn lemma_perm_distinct_ids(src: Seq<Team>, dst: Seq<Team>)
    requires
        dst.to_multiset() == src.to_multiset(),
        forall|a: int, b: int| 0 <= a < b < src.len() ==> (#[trigger] src[a]).id < (#[trigger] src[b]).id,
    ensures
        forall|a: int, b: int|
            0 <= a < b < dst.len() ==> (#[trigger] dst[a]).id != (#[trigger] dst[b]).id,
{
    lemma_perm_distinct_by(src, dst, |t: Team| t.id);
    assert forall|a: int, b: int|
        0 <= a < b < dst.len() implies (#[trigger] dst[a]).id != (#[trigger] dst[b]).id by {
        let f = |t: Team| t.id;
        assert(f(dst[a]) != f(dst[b]));
    }
}

/// Two teams conflict when they share a roster member in either role.
pub open spec fn spec_conflict(a: Team, b: Team) -> bool {
    a.header == b.header || a.header == b.heeler || a.heeler == b.header || a.heeler == b.heeler
}

/// The greedy score of a candidate against the placements so far, scanning
/// backwards from offset `back`: the 1-based distance to the nearest
/// conflicting team within the last 10 slots, or 100 when that window holds
/// no conflict.
pub open spec fn spec_score_from(ordered: Seq<Team>, cand: Team, back: int) -> int
    recommends
        0 <= back,
    decreases 10 - back,
{
    if back < 0 || back >= 10 || back >= ordered.len() {
        100
    } else if spec_conflict(ordered[ordered.len() - 1 - back], cand) {
        back + 1
    } else {
        spec_score_from(ordered, cand, back + 1)
    }
}

pub open spec fn spec_score(ordered: Seq<Team>, cand: Team) -> int {
    spec_score_from(ordered, cand, 0)
}

/// The pool index the greedy pass picks, scanning candidates from `i` with
/// the best seen so far: a candidate scoring at least 10 is taken at once;
/// otherwise the first candidate of maximal score wins.
pub open spec fn spec_pick_from(
    pool: Seq<Team>,
    ordered: Seq<Team>,
    i: int,
    best_idx: int,
    best_score: int,
) -> int
    decreases pool.len() - i,
{
    if i < 0 || i >= pool.len() {
        best_idx
    } else {
        let sc = spec_score(ordered, pool[i]);
        if sc > best_score {
            if sc >= 10 {
                i
            } else {
                spec_pick_from(pool, ordered, i + 1, i, sc)
            }
        } else {
            spec_pick_from(pool, ordered, i + 1, best_idx, best_score)
        }
    }
}

pub open spec fn spec_pick(pool: Seq<Team>, ordered: Seq<Team>) -> int {
    spec_pick_from(pool, ordered, 0, 0, -1)
}

/// The whole greedy re-sequencing: repeatedly move the picked candidate from
/// the pool to the order.
pub open spec fn spec_space_out_rec(pool: Seq<Team>, ordered: Seq<Team>) -> Seq<Team>
    decreases pool.len(),
{
    if pool.len() == 0 {
        ordered
    } else {
        let b = spec_pick(pool, ordered);
        if 0 <= b < pool.len() {
            spec_space_out_rec(pool.remove(b), ordered.push(pool[b]))
        } else {
            ordered + pool
        }
    }
}

/// What the anti-repetition pass returns for a given input order.
pub open spec fn spec_space_out(input: Seq<Team>) -> Seq<Team> {
    spec_space_out_rec(input, Seq::empty())
}

/// Greedy anti-repetition pass over one round's order: repeatedly pick from
/// the remaining pool the candidate whose distance back to the most recent
/// team sharing a roster member (scanning at most the last 10 placed slots)
/// is largest; a candidate with no conflict in that window is accepted at
/// once, and ties keep the first best seen. A deliberate, non-backtracking
/// heuristic: it improves spacing but does not promise a conflict-free
/// order. The result is exactly `spec_space_out` of the input.
fn space_out(input: Vec<Team>) -> (out: Vec<Team>)
    ensures
        out@.len() == input@.len(),
        out@.to_multiset() == input@.to_multiset(),
        out@ == spec_space_out(input@),
{
    broadcast use vstd::seq_lib::group_to_multiset_ensures;
    broadcast use vstd::multiset::group_multiset_axioms;

    let ghost full = input@;
    let mut pool = input;
    let mut ordered: Vec<Team> = Vec::new();
    while pool.len() > 0
        invariant
            ordered@.to_multiset().add(pool@.to_multiset()) == full.to_multiset(),
            ordered@.len() + pool@.len() == full.len(),
            spec_space_out_rec(pool@, ordered@) == spec_space_out(full),
        decreases pool@.len(),
    {
        let mut best_idx: usize = 0;
        let mut best_score: i64 = -1;
        let mut i: usize = 0;
        while i < pool.len()
            invariant_except_break
                spec_pick_from(pool@, ordered@, i as int, best_idx as int, best_score as int)
                    == spec_pick(pool@, ordered@),
            invariant
                pool@.len() > 0,
                best_idx < pool@.len(),
                i <= pool@.len(),
            ensures
                best_idx < pool@.len(),
                best_idx as int == spec_pick(pool@, ordered@),
            decreases pool@.len() - i,
        {
            let candidate = pool[i];
            let mut spacing: i64 = 0;
            let mut conflicts = false;
            // walk backwards over the most recent placements, ten at most
            let mut back: usize = 0;
            while back < 10 && back < ordered.len()
                invariant_except_break
                    !conflicts,
                    spec_score_from(ordered@, candidate, back as int) == spec_score(
                        ordered@,
                        candidate,
                    ),
                invariant
                    back <= 10,
                    back <= ordered@.len(),
                    spacing == back,
                ensures
                    conflicts ==> spacing == spec_score(ordered@, candidate),
                    !conflicts ==> spec_score(ordered@, candidate) == 100,
                decreases 10 - back,
            {
                let prev = ordered[ordered.len() - 1 - back];
                spacing = spacing + 1;
                back += 1;
                if prev.header == candidate.header || prev.header == candidate.heeler
                    || prev.heeler == candidate.header || prev.heeler == candidate.heeler {
                    proof {
                        assert(spec_score_from(ordered@, candidate, back - 1) == back);
                    }
                    conflicts = true;
                    break;
                }
                proof {
                    assert(spec_score_from(ordered@, candidate, back - 1) == spec_score_from(
                        ordered@,
                        candidate,
                        back as int,
                    ));
                }
            }
            let score: i64 = if conflicts {
                spacing
            } else {
                100
            };
            proof {
                assert(score == spec_score(ordered@, pool@[i as int]));
            }
            if score > best_score {
                best_score = score;
                best_idx = i;
                // a candidate already far enough from every conflict is kept
                // without scanning the rest
                if score >= 10 {
                    proof {
                        assert(spec_pick(pool@, ordered@) == i as int);
                    }
                    i += 1;
                    break;
                }
            }
            i += 1;
        }
        let ghost pool_before = pool@;
        let ghost ordered_before = ordered@;
        let picked = pool.remove(best_idx);
        ordered.push(picked);
        proof {
            assert(spec_space_out_rec(pool_before, ordered_before) == spec_space_out_rec(
                pool_before.remove(best_idx as int),
                ordered_before.push(pool_before[best_idx as int]),
            ));
            vstd::seq_lib::to_multiset_remove::<Team>(pool_before, best_idx as int);
            vstd::seq_lib::to_multiset_build::<Team>(ordered_before, picked);
            vstd::seq_lib::to_multiset_contains::<Team>(pool_before, picked);
            assert(pool_before.contains(pool_before[best_idx as int]));
            assert(pool_before.to_multiset().count(picked) > 0);
            assert forall|x: Team|
                ordered@.to_multiset().add(pool@.to_multiset()).count(x) == full.to_multiset().count(
                x,
            ) by {
                assert(ordered@.to_multiset().count(x) == ordered_before.to_multiset().insert(
                    picked,
                ).count(x));
                assert(pool@.to_multiset().count(x) == pool_before.to_multiset().remove(
                    picked,
                ).count(x));
            }
            assert(ordered@.to_multiset().add(pool@.to_multiset()) =~= full.to_multiset());
        }
    }
    proof {
        assert forall|x: Team| pool@.to_multiset().count(x) == 0 by {
            assert(!pool@.contains(x));
        }
        assert(ordered@.to_multiset() =~= full.to_multiset());
        assert(spec_space_out_rec(pool@, ordered@) == ordered@);
    }
    ordered
}

/// Insert-or-overwrite the draw rows of one round: existing rows at positions
/// `1..=n` get the round's new team, missing positions are appended; rows of
/// other rounds, and stale rows at higher positions, stay as they are.
#[verifier::rlimit(100)]
#[verifier::spinoff_prover]
fn upsert_round_draws(v: &mut Vec<DrawEntry>, round: u64, order: &Vec<Team>)
    requires
        round >= 1,
        forall|a: int, b: int|
            0 <= a < b < old(v)@.len() ==> !((#[trigger] old(v)@[a]).round == (
            #[trigger] old(v)@[b]).round && old(v)@[a].position == old(v)@[b].position),
        forall|j: int|
            0 <= j < old(v)@.len() ==> (#[trigger] old(v)@[j]).round >= 1 && old(v)@[j].position
                >= 1,
    ensures
        final(v)@.len() >= old(v)@.len(),
        forall|a: int, b: int|
            0 <= a < b < final(v)@.len() ==> !((#[trigger] final(v)@[a]).round == (
            #[trigger] final(v)@[b]).round && final(v)@[a].position == final(v)@[b].position),
        forall|j: int|
            0 <= j < final(v)@.len() ==> (#[trigger] final(v)@[j]).round >= 1
                && final(v)@[j].position >= 1,
        forall|j: int|
            0 <= j < old(v)@.len() ==> {
                &&& (#[trigger] final(v)@[j]).round == old(v)@[j].round
                &&& final(v)@[j].position == old(v)@[j].position
                &&& (if old(v)@[j].round == round && 1 <= old(v)@[j].position <= order@.len() {
                    final(v)@[j].team_id == order@[old(v)@[j].position - 1].id
                } else {
                    final(v)@[j] == old(v)@[j]
                })
            },
        forall|j: int|
            old(v)@.len() <= j < final(v)@.len() ==> {
                &&& (#[trigger] final(v)@[j]).round == round
                &&& 1 <= final(v)@[j].position <= order@.len()
                &&& final(v)@[j].team_id == order@[final(v)@[j].position - 1].id
            },
        forall|p: int| 1 <= p <= order@.len() ==> has_draw_row(final(v)@, round, p),
{
    let n = order.len();
    let orig_len = v.len();
    let mut j: usize = 0;
    while j < v.len()
        invariant
            v@.len() == old(v)@.len(),
            n == order@.len(),
            j <= v@.len(),
            forall|m: int| j <= m < v@.len() ==> #[trigger] v@[m] == old(v)@[m],
            forall|m: int|
                0 <= m < j ==> {
                    &&& (#[trigger] v@[m]).round == old(v)@[m].round
                    &&& v@[m].position == old(v)@[m].position
                    &&& (if old(v)@[m].round == round && 1 <= old(v)@[m].position <= n {
                        v@[m].team_id == order@[old(v)@[m].position - 1].id
                    } else {
                        v@[m] == old(v)@[m]
                    })
                },
        decreases v@.len() - j,
    {
        let d = v[j];
        if d.round == round && d.position >= 1 && d.position <= n as u64 {
            let idx: usize = (d.position - 1) as usize;
            v[j] = DrawEntry { round: d.round, position: d.position, team_id: order[idx].id };
        }
        j += 1;
    }

    let ghost mid = v@;
    proof {
        assert forall|a: int, b: int|
            0 <= a < b < mid.len() implies !((#[trigger] mid[a]).round == (#[trigger] mid[b]).round
            && mid[a].position == mid[b].position) by {
            assert(mid[a].round == old(v)@[a].round && mid[a].position == old(v)@[a].position);
            assert(mid[b].round == old(v)@[b].round && mid[b].position == old(v)@[b].position);
        }
    }

    let mut p: usize = 0;
    while p < n
        invariant
            n == order@.len(),
            p <= n,
            round >= 1,
            mid.len() == old(v)@.len(),
            v@.len() >= mid.len(),
            forall|m: int| 0 <= m < mid.len() ==> #[trigger] v@[m] == mid[m],
            forall|m: int|
                mid.len() <= m < v@.len() ==> {
                    &&& (#[trigger] v@[m]).round == round
                    &&& 1 <= v@[m].position <= n
                    &&& v@[m].team_id == order@[v@[m].position - 1].id
                },
            forall|a: int, b: int|
                0 <= a < b < v@.len() ==> !((#[trigger] v@[a]).round == (#[trigger] v@[b]).round
                    && v@[a].position == v@[b].position),
            forall|q: int| 1 <= q <= p ==> has_draw_row(v@, round, q),
        decreases n - p,
    {
        let pos: u64 = (p as u64) + 1;
        let present = find_draw_key(v, round, pos);
        let ghost before = v@;
        if !present {
            v.push(DrawEntry { round, position: pos, team_id: order[p].id });
        }
        proof {
            assert forall|q: int| 1 <= q <= p + 1 implies has_draw_row(v@, round, q) by {
                if q <= p {
                    assert(has_draw_row(before, round, q));
                    let jw = choose|jw: int|
                        0 <= jw < before.len() && (#[trigger] before[jw]).round == round
                            && before[jw].position == q;
                    assert(v@[jw].round == round && v@[jw].position == q);
                } else if present {
                    let jw = choose|jw: int|
                        0 <= jw < before.len() && (#[trigger] before[jw]).round == round
                            && before[jw].position == pos;
                    assert(v@[jw].round == round && v@[jw].position == q);
                } else {
                    assert(v@[before.len() as int].round == round && v@[before.len() as int].position
                        == q);
                }
            }
        }
        p += 1;
    }

    proof {
        assert forall|m: int|
            0 <= m < old(v)@.len() implies {
            &&& (#[trigger] v@[m]).round == old(v)@[m].round
            &&& v@[m].position == old(v)@[m].position
            &&& (if old(v)@[m].round == round && 1 <= old(v)@[m].position <= order@.len() {
                v@[m].team_id == order@[old(v)@[m].position - 1].id
            } else {
                v@[m] == old(v)@[m]
            })
        } by {
            assert(v@[m] == mid[m]);
        }
        assert forall|m: int| 0 <= m < v@.len() implies (#[trigger] v@[m]).round >= 1
            && v@[m].position >= 1 by {
            if m < mid.len() {
                assert(v@[m].round == old(v)@[m].round && v@[m].position == old(v)@[m].position);
            }
        }
    }
}

/// Insert-or-update the run rows of one round: an existing row of a drawn
/// team keeps its captured fields and gets the new position, a missing one is
/// seeded pending; rows of other rounds or teams outside the order stay.
#[verifier::rlimit(100)]
#[verifier::spinoff_prover]
fn upsert_round_runs(v: &mut Vec<Run>, round: u64, order: &Vec<Team>)
    requires
        round >= 1,
        forall|a: int, b: int|
            0 <= a < b < old(v)@.len() ==> !((#[trigger] old(v)@[a]).round == (
            #[trigger] old(v)@[b]).round && old(v)@[a].team_id == old(v)@[b].team_id),
        forall|j: int| 0 <= j < old(v)@.len() ==> (#[trigger] old(v)@[j]).wf(),
        forall|a: int, b: int|
            0 <= a < b < order@.len() ==> (#[trigger] order@[a]).id != (#[trigger] order@[b]).id,
    ensures
        final(v)@.len() >= old(v)@.len(),
        forall|a: int, b: int|
            0 <= a < b < final(v)@.len() ==> !((#[trigger] final(v)@[a]).round == (
            #[trigger] final(v)@[b]).round && final(v)@[a].team_id == final(v)@[b].team_id),
        forall|j: int| 0 <= j < final(v)@.len() ==> (#[trigger] final(v)@[j]).wf(),
        forall|j: int|
            0 <= j < old(v)@.len() ==> {
                &&& #[trigger] final(v)@[j] == (Run { position: final(v)@[j].position, ..old(v)@[j] })
                &&& (if old(v)@[j].round == round && (exists|m: int|
                    0 <= m < order@.len() && (#[trigger] order@[m]).id == old(v)@[j].team_id) {
                    exists|m: int|
                        0 <= m < order@.len() && (#[trigger] order@[m]).id == old(v)@[j].team_id
                            && final(v)@[j].position == m + 1
                } else {
                    final(v)@[j] == old(v)@[j]
                })
            },
        forall|j: int|
            old(v)@.len() <= j < final(v)@.len() ==> exists|m: int|
                0 <= m < order@.len() && #[trigger] final(v)@[j] == spec_pending_run(
                    order@[m].id,
                    round,
                    (m + 1) as u64,
                ),
        forall|m: int|
            0 <= m < order@.len() ==> has_run_row(final(v)@, round, (#[trigger] order@[m]).id),
{
    let n = order.len();
    let mut j: usize = 0;
    while j < v.len()
        invariant
            v@.len() == old(v)@.len(),
            n == order@.len(),
            j <= v@.len(),
            forall|m: int| j <= m < v@.len() ==> #[trigger] v@[m] == old(v)@[m],
            forall|m: int|
                0 <= m < j ==> {
                    &&& #[trigger] v@[m] == (Run { position: v@[m].position, ..old(v)@[m] })
                    &&& (if old(v)@[m].round == round && (exists|q: int|
                        0 <= q < order@.len() && (#[trigger] order@[q]).id == old(v)@[m].team_id) {
                        exists|q: int|
                            0 <= q < order@.len() && (#[trigger] order@[q]).id == old(v)@[m].team_id
                                && v@[m].position == q + 1
                    } else {
                        v@[m] == old(v)@[m]
                    })
                },
        decreases v@.len() - j,
    {
        let r = v[j];
        if r.round == round {
            match index_of_team(order, r.team_id) {
                Some(m) => {
                    let newpos: u64 = (m as u64) + 1;
                    v[j] = Run { position: newpos, ..r };
                    proof {
                        assert(order@[m as int].id == old(v)@[j as int].team_id && v@[j as int].position
                            == m + 1);
                    }
                },
                None => {},
            }
        }
        j += 1;
    }

    let ghost mid = v@;
    proof {
        assert forall|a: int, b: int|
            0 <= a < b < mid.len() implies !((#[trigger] mid[a]).round == (#[trigger] mid[b]).round
            && mid[a].team_id == mid[b].team_id) by {
            assert(mid[a] == (Run { position: mid[a].position, ..old(v)@[a] }));
            assert(mid[b] == (Run { position: mid[b].position, ..old(v)@[b] }));
        }
        assert forall|m: int| 0 <= m < mid.len() implies (#[trigger] mid[m]).wf() by {
            assert(mid[m] == (Run { position: mid[m].position, ..old(v)@[m] }));
            assert(old(v)@[m].wf());
            if mid[m] != old(v)@[m] {
                let q = choose|q: int|
                    0 <= q < order@.len() && (#[trigger] order@[q]).id == old(v)@[m].team_id
                        && mid[m].position == q + 1;
                assert(mid[m].position >= 1);
            }
        }
    }

    let mut m: usize = 0;
    while m < n
        invariant
            n == order@.len(),
            m <= n,
            round >= 1,
            mid.len() == old(v)@.len(),
            v@.len() >= mid.len(),
            forall|q: int| 0 <= q < mid.len() ==> #[trigger] v@[q] == mid[q],
            forall|q: int|
                mid.len() <= q < v@.len() ==> exists|w: int|
                    0 <= w < order@.len() && #[trigger] v@[q] == spec_pending_run(
                        order@[w].id,
                        round,
                        (w + 1) as u64,
                    ),
            forall|a: int, b: int|
                0 <= a < b < v@.len() ==> !((#[trigger] v@[a]).round == (#[trigger] v@[b]).round
                    && v@[a].team_id == v@[b].team_id),
            forall|q: int| 0 <= q < v@.len() ==> (#[trigger] v@[q]).wf(),
            forall|w: int| 0 <= w < m ==> has_run_row(v@, round, (#[trigger] order@[w]).id),
        decreases n - m,
    {
        let tid = order[m].id;
        let present = find_run_key(v, round, tid);
        let ghost before = v@;
        if !present {
            let newpos: u64 = (m as u64) + 1;
            v.push(
                Run {
                    team_id: tid,
                    round,
                    position: newpos,
                    time_ms: None,
                    penalty_ms: 0,
                    total_ms: None,
                    no_time: false,
                    dq: false,
                    status: RunStatus::Pending,
                },
            );
            proof {
                assert(v@[before.len() as int] == spec_pending_run(
                    order@[m as int].id,
                    round,
                    (m + 1) as u64,
                ));
            }
        }
        proof {
            assert forall|w: int| 0 <= w < m + 1 implies has_run_row(
                v@,
                round,
                (#[trigger] order@[w]).id,
            ) by {
                if w < m {
                    let jw = choose|jw: int|
                        0 <= jw < before.len() && (#[trigger] before[jw]).round == round
                            && before[jw].team_id == order@[w].id;
                    assert(v@[jw].round == round && v@[jw].team_id == order@[w].id);
                } else if present {
                    let jw = choose|jw: int|
                        0 <= jw < before.len() && (#[trigger] before[jw]).round == round
                            && before[jw].team_id == tid;
                    assert(v@[jw].round == round && v@[jw].team_id == order@[w].id);
                } else {
                    assert(v@[before.len() as int].round == round && v@[before.len() as int].team_id
                        == order@[w].id);
                }
            }
        }
        m += 1;
    }

    proof {
        assert forall|q: int|
            0 <= q < old(v)@.len() implies {
            &&& #[trigger] v@[q] == (Run { position: v@[q].position, ..old(v)@[q] })
            &&& (if old(v)@[q].round == round && (exists|w: int|
                0 <= w < order@.len() && (#[trigger] order@[w]).id == old(v)@[q].team_id) {
                exists|w: int|
                    0 <= w < order@.len() && (#[trigger] order@[w]).id == old(v)@[q].team_id
                        && v@[q].position == w + 1
            } else {
                v@[q] == old(v)@[q]
            })
        } by {
            assert(v@[q] == mid[q]);
        }
    }
}

/// A team with any flagged run is not eligible, whatever round produced the
/// flag: elimination is event-wide. Together with the contracts of
/// `generate_round` and `generate_batch`, which draw eligible teams only,
/// such a team appears in no generated draw of the event.
pub proof fn lemma_eliminated_never_eligible(ev: Event, team_id: u64)
    requires
        spec_eliminated(ev.runs@, team_id),
    ensures
        !ev.spec_eligible_id(team_id),
{
}

/// Selection sort of draw rows by position.
fn sort_draws_by_position(input: Vec<DrawEntry>) -> (out: Vec<DrawEntry>)
    ensures
        out@.len() == input@.len(),
        out@.to_multiset() == input@.to_multiset(),
        forall|i: int, j: int|
            0 <= i < j < out@.len() ==> (#[trigger] out@[i]).position <= (
            #[trigger] out@[j]).position,
{
    broadcast use vstd::seq_lib::group_to_multiset_ensures;
    broadcast use vstd::multiset::group_multiset_axioms;

    let ghost full = input@;
    let mut pool = input;
    let mut out: Vec<DrawEntry> = Vec::new();
    while pool.len() > 0
        invariant
            out@.to_multiset().add(pool@.to_multiset()) == full.to_multiset(),
            out@.len() + pool@.len() == full.len(),
            forall|i: int, j: int|
                0 <= i < j < out@.len() ==> (#[trigger] out@[i]).position <= (
                #[trigger] out@[j]).position,
            forall|i: int, j: int|
                0 <= i < out@.len() && 0 <= j < pool@.len() ==> (#[trigger] out@[i]).position <= (
                #[trigger] pool@[j]).position,
        decreases pool@.len(),
    {
        let mut best: usize = 0;
        let mut i: usize = 1;
        while i < pool.len()
            invariant
                pool@.len() > 0,
                best < pool@.len(),
                i <= pool@.len(),
                forall|k: int|
                    0 <= k < i ==> (#[trigger] pool@[k]).position >= pool@[best as int].position,
            decreases pool@.len() - i,
        {
            if pool[i].position < pool[best].position {
                best = i;
            }
            i += 1;
        }
        let ghost pool_before = pool@;
        let ghost out_before = out@;
        let picked = pool.remove(best);
        out.push(picked);
        proof {
            vstd::seq_lib::to_multiset_remove::<DrawEntry>(pool_before, best as int);
            vstd::seq_lib::to_multiset_build::<DrawEntry>(out_before, picked);
            vstd::seq_lib::to_multiset_contains::<DrawEntry>(pool_before, picked);
            assert(pool_before.contains(pool_before[best as int]));
            assert forall|x: DrawEntry|
                out@.to_multiset().add(pool@.to_multiset()).count(x) == full.to_multiset().count(
                x,
            ) by {
                assert(out@.to_multiset().count(x) == out_before.to_multiset().insert(
                    picked,
                ).count(x));
                assert(pool@.to_multiset().count(x) == pool_before.to_multiset().remove(
                    picked,
                ).count(x));
            }
            assert(out@.to_multiset().add(pool@.to_multiset()) =~= full.to_multiset());
            assert forall|j: int| 0 <= j < pool@.len() implies picked.position <= (
            #[trigger] pool@[j]).position by {
                if j < best {
                    assert(pool@[j] == pool_before[j]);
                } else {
                    assert(pool@[j] == pool_before[j + 1]);
                }
            }
        }
    }
    proof {
        assert forall|x: DrawEntry| pool@.to_multiset().count(x) == 0 by {
            assert(!pool@.contains(x));
        }
        assert(out@.to_multiset() =~= full.to_multiset());
    }
    out
}

/// Selection sort of run rows by position.
fn sort_runs_by_position(input: Vec<Run>) -> (out: Vec<Run>)
    ensures
        out@.len() == input@.len(),
        out@.to_multiset() == input@.to_multiset(),
        forall|i: int, j: int|
            0 <= i < j < out@.len() ==> (#[trigger] out@[i]).position <= (
            #[trigger] out@[j]).position,
{
    broadcast use vstd::seq_lib::group_to_multiset_ensures;
    broadcast use vstd::multiset::group_multiset_axioms;

    let ghost full = input@;
    let mut pool = input;
    let mut out: Vec<Run> = Vec::new();
    while pool.len() > 0
        invariant
            out@.to_multiset().add(pool@.to_multiset()) == full.to_multiset(),
            out@.len() + pool@.len() == full.len(),
            forall|i: int, j: int|
                0 <= i < j < out@.len() ==> (#[trigger] out@[i]).position <= (
                #[trigger] out@[j]).position,
            forall|i: int, j: int|
                0 <= i < out@.len() && 0 <= j < pool@.len() ==> (#[trigger] out@[i]).position <= (
                #[trigger] pool@[j]).position,
        decreases pool@.len(),
    {
        let mut best: usize = 0;
        let mut i: usize = 1;
        while i < pool.len()
            invariant
                pool@.len() > 0,
                best < pool@.len(),
                i <= pool@.len(),
                forall|k: int|
                    0 <= k < i ==> (#[trigger] pool@[k]).position >= pool@[best as int].position,
            decreases pool@.len() - i,
        {
            if pool[i].position < pool[best].position {
                best = i;
            }
            i += 1;
        }
        let ghost pool_before = pool@;
        let ghost out_before = out@;
        let picked = pool.remove(best);
        out.push(picked);
        proof {
            vstd::seq_lib::to_multiset_remove::<Run>(pool_before, best as int);
            vstd::seq_lib::to_multiset_build::<Run>(out_before, picked);
            vstd::seq_lib::to_multiset_contains::<Run>(pool_before, picked);
            assert(pool_before.contains(pool_before[best as int]));
            assert forall|x: Run|
                out@.to_multiset().add(pool@.to_multiset()).count(x) == full.to_multiset().count(
                x,
            ) by {
                assert(out@.to_multiset().count(x) == out_before.to_multiset().insert(
                    picked,
                ).count(x));
                assert(pool@.to_multiset().count(x) == pool_before.to_multiset().remove(
                    picked,
                ).count(x));
            }
            assert(out@.to_multiset().add(pool@.to_multiset()) =~= full.to_multiset());
            assert forall|j: int| 0 <= j < pool@.len() implies picked.position <= (
            #[trigger] pool@[j]).position by {
                if j < best {
                    assert(pool@[j] == pool_before[j]);
                } else {
                    assert(pool@[j] == pool_before[j + 1]);
                }
            }
        }
    }
    proof {
        assert forall|x: Run| pool@.to_multiset().count(x) == 0 by {
            assert(!pool@.contains(x));
        }
        assert(out@.to_multiset() =~= full.to_multiset());
    }
    out
}

} // verus!
