use roping_manager::model::{Event, EventStatus, RunStatus};

fn event_with_team() -> Event {
    let mut ev = Event::new(EventStatus::Active, None, None);
    assert!(ev.add_team(1, 10, 11, 0).is_ok());
    ev
}

fn status_of(ev: &Event, round: u64, team: u64) -> RunStatus {
    ev.runs
        .iter()
        .find(|r| r.round == round && r.team_id == team)
        .map(|r| r.status)
        .expect("run row missing")
}

#[test]
fn record_run_computes_total_from_time_and_penalty() {
    let mut ev = event_with_team();
    ev.record_run(1, 1, 1, Some(5000), 1000, false, false);
    let rows = ev.runs_of_round(1);
    assert_eq!(rows.len(), 1);
    assert_eq!(rows[0].total_ms, Some(6000));
    assert_eq!(rows[0].status, RunStatus::Completed);
}

#[test]
fn record_run_flag_leaves_total_absent() {
    let mut ev = event_with_team();
    ev.record_run(1, 1, 1, Some(5000), 1000, false, true);
    let rows = ev.runs_of_round(1);
    assert_eq!(rows[0].total_ms, None);
    assert!(rows[0].dq);
    assert_eq!(rows[0].status, RunStatus::Completed);
}

#[test]
fn record_run_without_time_has_no_total() {
    let mut ev = event_with_team();
    ev.record_run(1, 1, 1, None, 1000, false, false);
    assert_eq!(ev.runs_of_round(1)[0].total_ms, None);
}

#[test]
fn record_run_overwrites_the_same_key() {
    let mut ev = event_with_team();
    ev.record_run(1, 1, 1, Some(5000), 0, false, false);
    ev.record_run(1, 1, 1, Some(7000), 500, false, false);
    let rows = ev.runs_of_round(1);
    assert_eq!(rows.len(), 1);
    assert_eq!(rows[0].total_ms, Some(7500));
}

#[test]
fn flag_skips_every_later_round() {
    let mut ev = event_with_team();
    assert!(ev.generate_batch(3, false, 0).is_ok());
    ev.record_run(1, 1, 1, None, 0, true, false);
    assert_eq!(status_of(&ev, 2, 1), RunStatus::Skipped);
    assert_eq!(status_of(&ev, 3, 1), RunStatus::Skipped);
    assert!(ev.is_eliminated(1));
}

#[test]
fn correction_restores_only_skipped_rounds() {
    let mut ev = event_with_team();
    assert!(ev.generate_batch(3, false, 0).is_ok());
    // the team is flagged out in round 1: later rounds are skipped
    ev.record_run(1, 1, 1, None, 0, false, true);
    assert_eq!(status_of(&ev, 2, 1), RunStatus::Skipped);
    // a result is then captured for round 3 regardless
    ev.record_run(1, 3, 1, Some(8000), 0, false, false);
    assert_eq!(status_of(&ev, 3, 1), RunStatus::Completed);
    // correcting round 1 to a valid time restores round 2 only:
    // round 3, already completed, is untouched
    ev.record_run(1, 1, 1, Some(6000), 0, false, false);
    assert_eq!(status_of(&ev, 2, 1), RunStatus::Pending);
    assert_eq!(status_of(&ev, 3, 1), RunStatus::Completed);
    assert!(!ev.is_eliminated(1));
}

#[test]
fn elimination_is_event_wide() {
    let mut ev = Event::new(EventStatus::Active, None, None);
    assert!(ev.add_team(1, 10, 11, 0).is_ok());
    assert!(ev.add_team(2, 12, 13, 0).is_ok());
    ev.record_run(2, 5, 1, None, 0, true, false);
    assert!(ev.is_eliminated(2));
    assert!(!ev.is_eliminated(1));
    let ids = ev.eligible_team_ids();
    assert_eq!(ids, vec![1]);
}
