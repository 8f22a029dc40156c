//! Tournament engine for team-roping events: run-order draws under an
//! elimination and anti-repetition policy, the run lifecycle state machine,
//! standings with a multi-key ranking law, and payout computation.

pub mod draw;
pub mod model;
pub mod payout;
pub mod runs;
pub mod seq_lemmas;
pub mod standings;
pub mod teams;

mod rng;
