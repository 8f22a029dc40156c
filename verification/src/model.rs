//! Data model of one event: teams, runs, draw assignments and payoff rules,
//! together with the well-formedness invariants that every operation preserves.

use vstd::prelude::*;

verus! {

/// Lifecycle state of an event as a whole. This is the canonical set the
/// store accepts; looser labels arriving at the boundary (a draft, a
/// finalized event) are normalized onto it before they reach the engine.
#[derive(Clone, Copy, Debug, PartialEq, Eq, Structural)]
pub enum EventStatus {
    Upcoming,
    Active,
    Completed,
    Locked,
}

/// A status label as it arrives at the boundary, before normalization. The
/// transport layer only tokenizes the raw string; which labels are accepted,
/// and what they normalize to, is decided here.
#[derive(Clone, Copy, Debug, PartialEq, Eq, Structural)]
pub enum EventStatusLabel {
    Active,
    Upcoming,
    Completed,
    Locked,
    Draft,
    Finalized,
    Archived,
    Other,
}

/// Normalize a boundary status label onto the canonical set: a draft is
/// upcoming; a finalized or archived event is completed, hence terminal for
/// draw generation; an unrecognized label is rejected.
pub fn event_status_from_label(label: EventStatusLabel) -> (res: Result<EventStatus, CoreError>)
    ensures
        res == match label {
            EventStatusLabel::Active => Ok::<EventStatus, CoreError>(EventStatus::Active),
            EventStatusLabel::Upcoming => Ok(EventStatus::Upcoming),
            EventStatusLabel::Completed => Ok(EventStatus::Completed),
            EventStatusLabel::Locked => Ok(EventStatus::Locked),
            EventStatusLabel::Draft => Ok(EventStatus::Upcoming),
            EventStatusLabel::Finalized => Ok(EventStatus::Completed),
            EventStatusLabel::Archived => Ok(EventStatus::Completed),
            EventStatusLabel::Other => Err(CoreError::Validation),
        },
{
    match label {
        EventStatusLabel::Active => Ok(EventStatus::Active),
        EventStatusLabel::Upcoming => Ok(EventStatus::Upcoming),
        EventStatusLabel::Completed => Ok(EventStatus::Completed),
        EventStatusLabel::Locked => Ok(EventStatus::Locked),
        EventStatusLabel::Draft => Ok(EventStatus::Upcoming),
        EventStatusLabel::Finalized => Ok(EventStatus::Completed),
        EventStatusLabel::Archived => Ok(EventStatus::Completed),
        EventStatusLabel::Other => Err(CoreError::Validation),
    }
}

/// Soft-delete state of a team within its event.
#[derive(Clone, Copy, Debug, PartialEq, Eq, Structural)]
pub enum TeamStatus {
    Active,
    Inactive,
}

/// Lifecycle state of a single run row.
#[derive(Clone, Copy, Debug, PartialEq, Eq, Structural)]
pub enum RunStatus {
    Pending,
    Completed,
    Skipped,
}

/// A team: two roster members and a rating. Belongs to exactly one event.
#[derive(Clone, Copy, Debug, PartialEq, Eq, Structural)]
pub struct Team {
    pub id: u64,
    /// Roster member heading the steer.
    pub header: u64,
    /// Roster member heeling.
    pub heeler: u64,
    /// Combined rating, in hundredths of a point.
    pub rating: u32,
    pub status: TeamStatus,
}

/// The result of one team in one round.
#[derive(Clone, Copy, Debug, PartialEq, Eq, Structural)]
pub struct Run {
    pub team_id: u64,
    /// Round number, 1-based.
    pub round: u64,
    /// Order within the round, 1-based.
    pub position: u64,
    /// Elapsed time in milliseconds; absent when no valid time was captured.
    pub time_ms: Option<u32>,
    /// Penalty in milliseconds.
    pub penalty_ms: u32,
    /// Time plus penalty; present exactly when neither flag is set and a time is present.
    pub total_ms: Option<u64>,
    /// The team did not complete a valid catch.
    pub no_time: bool,
    /// The run was disqualified.
    pub dq: bool,
    pub status: RunStatus,
}

/// Assignment of a team to a position within a round.
#[derive(Clone, Copy, Debug, PartialEq, Eq, Structural)]
pub struct DrawEntry {
    pub round: u64,
    pub position: u64,
    pub team_id: u64,
}

/// A share of the net pot paid to one finishing position.
#[derive(Clone, Copy, Debug, PartialEq, Eq, Structural)]
pub struct PayoffRule {
    /// Finishing position the rule pays, 1-based.
    pub position: u64,
    /// Share of the net pot in basis points (10_000 = 100%).
    pub percentage_bp: u32,
    /// Soft-delete flag; an inactive rule can be reactivated in place.
    pub active: bool,
}

/// The error kinds the engine surfaces, each distinct.
#[derive(Clone, Copy, Debug, PartialEq, Eq, Structural)]
pub enum CoreError {
    /// A referenced team or rule does not exist.
    NotFound,
    /// An input breaks a validation rule (header equals heeler, percentage out of range).
    Validation,
    /// The operation is refused in the current lifecycle state.
    State,
    /// No eligible teams exist for draw generation.
    EmptyInput,
    /// A uniqueness constraint would be violated.
    Conflict,
}

/// The total a run scores: time plus penalty, defined only when neither flag
/// is set and a time is present.
pub open spec fn spec_total(time_ms: Option<u32>, penalty_ms: u32, no_time: bool, dq: bool) -> Option<u64> {
    if no_time || dq {
        None
    } else {
        match time_ms {
            Some(t) => Some((t + penalty_ms) as u64),
            None => None,
        }
    }
}

impl Team {
    /// A team never pairs a roster member with themselves.
    pub open spec fn wf(self) -> bool {
        self.header != self.heeler
    }
}

impl Run {
    pub open spec fn wf(self) -> bool {
        &&& self.round >= 1
        &&& self.position >= 1
        &&& self.total_ms == spec_total(self.time_ms, self.penalty_ms, self.no_time, self.dq)
    }

    /// A run that eliminates its team from the event.
    pub open spec fn flagged(self) -> bool {
        self.no_time || self.dq
    }

    /// A captured result that counts toward standings.
    pub open spec fn valid_completed(self) -> bool {
        self.status == RunStatus::Completed && !self.no_time && !self.dq
    }
}

/// All state of one event that the engine reads and writes.
#[derive(Clone, Debug)]
pub struct Event {
    pub status: EventStatus,
    /// Entry fee per team, in cents; absent means none was set.
    pub entry_fee: Option<u32>,
    /// Added prize money, in cents; absent means none was set.
    pub prize_pool: Option<u32>,
    pub teams: Vec<Team>,
    pub runs: Vec<Run>,
    pub draws: Vec<DrawEntry>,
    pub rules: Vec<PayoffRule>,
}

impl Event {
    /// Teams are stored in strictly ascending id order, pairings are unique,
    /// and no team pairs a member with themselves.
    pub open spec fn teams_wf(self) -> bool {
        &&& forall|i: int, j: int|
            0 <= i < j < self.teams@.len() ==> (#[trigger] self.teams@[i]).id < (#[trigger] self.teams@[j]).id
        &&& forall|i: int, j: int|
            0 <= i < j < self.teams@.len() ==> !((#[trigger] self.teams@[i]).header == (#[trigger] self.teams@[j]).header
                && self.teams@[i].heeler == self.teams@[j].heeler)
        &&& forall|i: int| 0 <= i < self.teams@.len() ==> (#[trigger] self.teams@[i]).wf()
    }

    /// At most one run per (round, team), and every run is internally consistent.
    pub open spec fn runs_wf(self) -> bool {
        &&& forall|i: int, j: int|
            0 <= i < j < self.runs@.len() ==> !((#[trigger] self.runs@[i]).round == (#[trigger] self.runs@[j]).round
                && self.runs@[i].team_id == self.runs@[j].team_id)
        &&& forall|i: int| 0 <= i < self.runs@.len() ==> (#[trigger] self.runs@[i]).wf()
    }

    /// At most one draw entry per (round, position).
    pub open spec fn draws_wf(self) -> bool {
        &&& forall|i: int, j: int|
            0 <= i < j < self.draws@.len() ==> !((#[trigger] self.draws@[i]).round == (#[trigger] self.draws@[j]).round
                && self.draws@[i].position == self.draws@[j].position)
        &&& forall|i: int|
            0 <= i < self.draws@.len() ==> (#[trigger] self.draws@[i]).round >= 1 && self.draws@[i].position >= 1
    }

    /// Rules are stored in strictly ascending position order (hence at most one
    /// per position, active or not), with percentages within range.
    pub open spec fn rules_wf(self) -> bool {
        &&& forall|i: int, j: int|
            0 <= i < j < self.rules@.len() ==> (#[trigger] self.rules@[i]).position < (#[trigger] self.rules@[j]).position
        &&& forall|i: int|
            0 <= i < self.rules@.len() ==> (#[trigger] self.rules@[i]).percentage_bp <= 10000
                && self.rules@[i].position >= 1
    }

    pub open spec fn wf(self) -> bool {
        &&& self.teams_wf()
        &&& self.runs_wf()
        &&& self.draws_wf()
        &&& self.rules_wf()
    }

    /// A fresh event with no teams, runs, draws or rules.
    pub fn new(status: EventStatus, entry_fee: Option<u32>, prize_pool: Option<u32>) -> (ev: Event)
        ensures
            ev.wf(),
            ev.status == status,
            ev.entry_fee == entry_fee,
            ev.prize_pool == prize_pool,
            ev.teams@.len() == 0,
            ev.runs@.len() == 0,
            ev.draws@.len() == 0,
            ev.rules@.len() == 0,
    {
        Event {
            status,
            entry_fee,
            prize_pool,
            teams: Vec::new(),
            runs: Vec::new(),
            draws: Vec::new(),
            rules: Vec::new(),
        }
    }

    /// Move the event to another lifecycle state; everything else is untouched.
    pub fn set_status(&mut self, status: EventStatus)
        requires
            old(self).wf(),
        ensures
            final(self).wf(),
            final(self).status == status,
            final(self).entry_fee == old(self).entry_fee,
            final(self).prize_pool == old(self).prize_pool,
            final(self).teams == old(self).teams,
            final(self).runs == old(self).runs,
            final(self).draws == old(self).draws,
            final(self).rules == old(self).rules,
    {
        self.status = status;
    }
}

} // verus!
