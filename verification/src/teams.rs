//! Team roster operations of one event: adding a pairing under the
//! uniqueness rules, updating rating or status, and soft-deleting.

use vstd::prelude::*;
use crate::model::{CoreError, Event, EventStatus, Team, TeamStatus};

verus! {

impl Event {
    /// Some team of the event carries this id.
    pub open spec fn spec_has_team(self, id: u64) -> bool {
        exists|k: int| 0 <= k < self.teams@.len() && (#[trigger] self.teams@[k]).id == id
    }

    /// Some team of the event pairs exactly these two roster members.
    pub open spec fn spec_has_pairing(self, header: u64, heeler: u64) -> bool {
        exists|k: int|
            0 <= k < self.teams@.len() && (#[trigger] self.teams@[k]).header == header
                && self.teams@[k].heeler == heeler
    }

    /// Index of the team with this id, if present.
    fn find_team(&self, id: u64) -> (r: Option<usize>)
        ensures
            match r {
                Some(k) => k < self.teams@.len() && self.teams@[k as int].id == id,
                None => !self.spec_has_team(id),
            },
    {
        let mut k: usize = 0;
        while k < self.teams.len()
            invariant
                k <= self.teams@.len(),
                forall|m: int| 0 <= m < k ==> (#[trigger] self.teams@[m]).id != id,
            decreases self.teams@.len() - k,
        {
            if self.teams[k].id == id {
                return Some(k);
            }
            k += 1;
        }
        None
    }

    /// Whether the pairing already exists.
    fn has_pairing(&self, header: u64, heeler: u64) -> (b: bool)
        ensures
            b == self.spec_has_pairing(header, heeler),
    {
        let mut k: usize = 0;
        while k < self.teams.len()
            invariant
                k <= self.teams@.len(),
                forall|m: int|
                    0 <= m < k ==> !((#[trigger] self.teams@[m]).header == header
                        && self.teams@[m].heeler == heeler),
            decreases self.teams@.len() - k,
        {
            let t = self.teams[k];
            if t.header == header && t.heeler == heeler {
                assert(self.teams@[k as int].header == header && self.teams@[k as int].heeler
                    == heeler);
                return true;
            }
            k += 1;
        }
        false
    }

    /// Register a team. Refused on a locked event, when header and heeler
    /// are the same person, and when the id or the exact pairing is already
    /// taken. The new team starts active.
    pub fn add_team(&mut self, id: u64, header: u64, heeler: u64, rating: u32) -> (res: Result<
        (),
        CoreError,
    >)
        requires
            old(self).wf(),
        ensures
            final(self).wf(),
            final(self).status == old(self).status,
            final(self).entry_fee == old(self).entry_fee,
            final(self).prize_pool == old(self).prize_pool,
            final(self).runs == old(self).runs,
            final(self).draws == old(self).draws,
            final(self).rules == old(self).rules,
            res.is_err() ==> *final(self) == *old(self),
            (res == Err::<(), CoreError>(CoreError::State)) <==> old(self).status
                == EventStatus::Locked,
            (res == Err::<(), CoreError>(CoreError::Validation)) <==> (old(self).status
                != EventStatus::Locked && header == heeler),
            (res == Err::<(), CoreError>(CoreError::Conflict)) <==> (old(self).status
                != EventStatus::Locked && header != heeler && (old(self).spec_has_team(id) || old(
                self,
            ).spec_has_pairing(header, heeler))),
            res.is_ok() <==> (old(self).status != EventStatus::Locked && header != heeler && !old(
                self,
            ).spec_has_team(id) && !old(self).spec_has_pairing(header, heeler)),
            res.is_ok() ==> final(self).teams@.len() == old(self).teams@.len() + 1
                && final(self).spec_has_team(id) && final(self).spec_has_pairing(header, heeler),
            res.is_ok() ==> exists|i: int|
                0 <= i <= old(self).teams@.len() && final(self).teams@ == old(
                    self,
                ).teams@.insert(
                    i,
                    Team { id, header, heeler, rating, status: TeamStatus::Active },
                ),
    {
        if matches!(self.status, EventStatus::Locked) {
            return Err(CoreError::State);
        }
        if header == heeler {
            return Err(CoreError::Validation);
        }
        if self.find_team(id).is_some() || self.has_pairing(header, heeler) {
            return Err(CoreError::Conflict);
        }
        let mut i: usize = 0;
        while i < self.teams.len() && self.teams[i].id < id
            invariant
                i <= self.teams@.len(),
                forall|m: int| 0 <= m < i ==> (#[trigger] self.teams@[m]).id < id,
            decreases self.teams@.len() - i,
        {
            i += 1;
        }
        let team = Team { id, header, heeler, rating, status: TeamStatus::Active };
        proof {
            if i < self.teams@.len() {
                assert(self.teams@[i as int].id != id);
            }
            assert forall|m: int| i <= m < self.teams@.len() implies id < (
            #[trigger] self.teams@[m]).id by {
                assert(self.teams@[m].id != id);
                if m > i {
                    assert(self.teams@[i as int].id < self.teams@[m].id);
                }
            }
        }
        self.teams.insert(i, team);
        assert(self.teams@ == old(self).teams@.insert(i as int, team));
        proof {
            assert(self.teams@[i as int] == team);
        }
        Ok(())
    }

    /// Patch a team: only the supplied fields change. Refused when the team
    /// is unknown or the event is locked.
    pub fn update_team(&mut self, id: u64, rating: Option<u32>, status: Option<TeamStatus>) -> (res:
        Result<(), CoreError>)
        requires
            old(self).wf(),
        ensures
            final(self).wf(),
            final(self).status == old(self).status,
            final(self).entry_fee == old(self).entry_fee,
            final(self).prize_pool == old(self).prize_pool,
            final(self).runs == old(self).runs,
            final(self).draws == old(self).draws,
            final(self).rules == old(self).rules,
            res.is_err() ==> *final(self) == *old(self),
            (res == Err::<(), CoreError>(CoreError::NotFound)) <==> !old(self).spec_has_team(id),
            (res == Err::<(), CoreError>(CoreError::State)) <==> (old(self).spec_has_team(id)
                && old(self).status == EventStatus::Locked),
            res.is_ok() <==> (old(self).spec_has_team(id) && old(self).status
                != EventStatus::Locked),
            res.is_ok() ==> final(self).teams@.len() == old(self).teams@.len() && (forall|k: int|
                0 <= k < old(self).teams@.len() ==> #[trigger] final(self).teams@[k] == (
                if old(self).teams@[k].id == id {
                    Team {
                        rating: (match rating {
                            Some(r) => r,
                            None => old(self).teams@[k].rating,
                        }),
                        status: (match status {
                            Some(s) => s,
                            None => old(self).teams@[k].status,
                        }),
                        ..old(self).teams@[k]
                    }
                } else {
                    old(self).teams@[k]
                })),
    {
        let found = self.find_team(id);
        match found {
            None => Err(CoreError::NotFound),
            Some(k) => {
                if matches!(self.status, EventStatus::Locked) {
                    proof {
                        assert(self.teams@[k as int].id == id);
                    }
                    return Err(CoreError::State);
                }
                let t = self.teams[k];
                let new_rating = match rating {
                    Some(r) => r,
                    None => t.rating,
                };
                let new_status = match status {
                    Some(s) => s,
                    None => t.status,
                };
                self.teams[k] = Team { rating: new_rating, status: new_status, ..t };
                proof {
                    assert(old(self).teams@[k as int].id == id);
                    assert forall|m: int|
                        0 <= m < old(self).teams@.len() implies #[trigger] self.teams@[m] == (
                    if old(self).teams@[m].id == id {
                        Team {
                            rating: (match rating {
                                Some(r) => r,
                                None => old(self).teams@[m].rating,
                            }),
                            status: (match status {
                                Some(s) => s,
                                None => old(self).teams@[m].status,
                            }),
                            ..old(self).teams@[m]
                        }
                    } else {
                        old(self).teams@[m]
                    }) by {
                        if m != k && old(self).teams@[m].id == id {
                            if m < k {
                                assert(old(self).teams@[m].id < old(self).teams@[k as int].id);
                            } else {
                                assert(old(self).teams@[k as int].id < old(self).teams@[m].id);
                            }
                        }
                    }
                }
                Ok(())
            },
        }
    }

    /// Soft-delete a team: its status becomes inactive, so it leaves
    /// eligibility and the pot, but its rows stay.
    pub fn deactivate_team(&mut self, id: u64) -> (res: Result<(), CoreError>)
        requires
            old(self).wf(),
        ensures
            final(self).wf(),
            final(self).status == old(self).status,
            final(self).entry_fee == old(self).entry_fee,
            final(self).prize_pool == old(self).prize_pool,
            final(self).runs == old(self).runs,
            final(self).draws == old(self).draws,
            final(self).rules == old(self).rules,
            res.is_err() ==> *final(self) == *old(self),
            (res == Err::<(), CoreError>(CoreError::NotFound)) <==> !old(self).spec_has_team(id),
            (res == Err::<(), CoreError>(CoreError::State)) <==> (old(self).spec_has_team(id)
                && old(self).status == EventStatus::Locked),
            res.is_ok() <==> (old(self).spec_has_team(id) && old(self).status
                != EventStatus::Locked),
            res.is_ok() ==> final(self).teams@.len() == old(self).teams@.len() && (forall|k: int|
                0 <= k < old(self).teams@.len() ==> #[trigger] final(self).teams@[k] == (
                if old(self).teams@[k].id == id {
                    Team { status: TeamStatus::Inactive, ..old(self).teams@[k] }
                } else {
                    old(self).teams@[k]
                })),
    {
        let found = self.find_team(id);
        match found {
            None => Err(CoreError::NotFound),
            Some(k) => {
                if matches!(self.status, EventStatus::Locked) {
                    proof {
                        assert(self.teams@[k as int].id == id);
                    }
                    return Err(CoreError::State);
                }
                let t = self.teams[k];
                self.teams[k] = Team { status: TeamStatus::Inactive, ..t };
                proof {
                    assert(old(self).teams@[k as int].id == id);
                    assert forall|m: int|
                        0 <= m < old(self).teams@.len() implies #[trigger] self.teams@[m] == (
                    if old(self).teams@[m].id == id {
                        Team { status: TeamStatus::Inactive, ..old(self).teams@[m] }
                    } else {
                        old(self).teams@[m]
                    }) by {
                        if m != k && old(self).teams@[m].id == id {
                            if m < k {
                                assert(old(self).teams@[m].id < old(self).teams@[k as int].id);
                            } else {
                                assert(old(self).teams@[k as int].id < old(self).teams@[m].id);
                            }
                        }
                    }
                }
                Ok(())
            },
        }
    }

    /// Remove every team of the event outright. Refused on a locked event.
    pub fn clear_teams(&mut self) -> (res: Result<(), CoreError>)
        requires
            old(self).wf(),
        ensures
            final(self).wf(),
            final(self).status == old(self).status,
            final(self).entry_fee == old(self).entry_fee,
            final(self).prize_pool == old(self).prize_pool,
            final(self).runs == old(self).runs,
            final(self).draws == old(self).draws,
            final(self).rules == old(self).rules,
            res.is_err() ==> *final(self) == *old(self),
            (res == Err::<(), CoreError>(CoreError::State)) <==> old(self).status
                == EventStatus::Locked,
            res.is_ok() <==> old(self).status != EventStatus::Locked,
            res.is_ok() ==> final(self).teams@.len() == 0,
    {
        if matches!(self.status, EventStatus::Locked) {
            return Err(CoreError::State);
        }
        self.teams.clear();
        Ok(())
    }

    /// The active teams, in ascending id order.
    pub fn active_teams(&self) -> (out: Vec<Team>)
        requires
            self.wf(),
        ensures
            out@ == self.teams@.filter(|t: Team| t.status == TeamStatus::Active),
    {
        let mut out: Vec<Team> = Vec::new();
        let mut i: usize = 0;
        while i < self.teams.len()
            invariant
                i <= self.teams@.len(),
                out@ == self.teams@.take(i as int).filter(|t: Team| t.status == TeamStatus::Active),
            decreases self.teams@.len() - i,
        {
            let t = self.teams[i];
            proof {
                assert(self.teams@.take(i as int + 1) =~= self.teams@.take(i as int).push(
                    self.teams@[i as int],
                ));
                crate::seq_lemmas::lemma_filter_push(
                    self.teams@.take(i as int),
                    self.teams@[i as int],
                    |t: Team| t.status == TeamStatus::Active,
                );
            }
            if matches!(t.status, TeamStatus::Active) {
                out.push(t);
            }
            i += 1;
        }
        proof {
            assert(self.teams@.take(self.teams@.len() as int) =~= self.teams@);
        }
        out
    }
}

} // verus!
