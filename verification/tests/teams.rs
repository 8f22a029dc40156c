use roping_manager::model::{CoreError, Event, EventStatus, TeamStatus};

fn fresh_event() -> Event {
    Event::new(EventStatus::Active, Some(20), Some(100))
}

#[test]
fn add_team_keeps_ascending_id_order() {
    let mut ev = fresh_event();
    assert!(ev.add_team(2, 20, 21, 0).is_ok());
    assert!(ev.add_team(1, 10, 11, 0).is_ok());
    assert!(ev.add_team(3, 30, 31, 0).is_ok());
    let active = ev.active_teams();
    let ids: Vec<u64> = active.iter().map(|t| t.id).collect();
    assert_eq!(ids, vec![1, 2, 3]);
    assert!(active.iter().all(|t| t.status == TeamStatus::Active));
}

#[test]
fn add_team_rejects_same_header_and_heeler() {
    let mut ev = fresh_event();
    assert_eq!(ev.add_team(1, 10, 10, 0), Err(CoreError::Validation));
    assert_eq!(ev.active_teams().len(), 0);
}

#[test]
fn add_team_rejects_duplicate_pairing() {
    let mut ev = fresh_event();
    assert!(ev.add_team(1, 10, 11, 0).is_ok());
    assert_eq!(ev.add_team(2, 10, 11, 0), Err(CoreError::Conflict));
}

#[test]
fn add_team_rejects_duplicate_id() {
    let mut ev = fresh_event();
    assert!(ev.add_team(1, 10, 11, 0).is_ok());
    assert_eq!(ev.add_team(1, 12, 13, 0), Err(CoreError::Conflict));
}

#[test]
fn add_team_rejects_locked_event() {
    let mut ev = fresh_event();
    ev.set_status(EventStatus::Locked);
    assert_eq!(ev.add_team(1, 10, 11, 0), Err(CoreError::State));
}

#[test]
fn reversed_pairing_is_a_different_team() {
    let mut ev = fresh_event();
    assert!(ev.add_team(1, 10, 11, 0).is_ok());
    assert!(ev.add_team(2, 11, 10, 0).is_ok());
    assert_eq!(ev.active_teams().len(), 2);
}

#[test]
fn update_team_patches_only_given_fields() {
    let mut ev = fresh_event();
    assert!(ev.add_team(1, 10, 11, 500).is_ok());
    assert!(ev.update_team(1, Some(700), None).is_ok());
    let t = ev.active_teams()[0];
    assert_eq!(t.rating, 700);
    assert_eq!(t.status, TeamStatus::Active);
    assert_eq!(t.header, 10);
    assert_eq!(t.heeler, 11);
}

#[test]
fn update_team_unknown_is_not_found() {
    let mut ev = fresh_event();
    assert_eq!(ev.update_team(9, Some(1), None), Err(CoreError::NotFound));
}

#[test]
fn update_team_locked_event_is_refused() {
    let mut ev = fresh_event();
    assert!(ev.add_team(1, 10, 11, 0).is_ok());
    ev.set_status(EventStatus::Locked);
    assert_eq!(ev.update_team(1, Some(1), None), Err(CoreError::State));
}

#[test]
fn deactivate_team_leaves_roster_but_not_active() {
    let mut ev = fresh_event();
    assert!(ev.add_team(1, 10, 11, 0).is_ok());
    assert!(ev.add_team(2, 12, 13, 0).is_ok());
    assert!(ev.deactivate_team(1).is_ok());
    let ids: Vec<u64> = ev.active_teams().iter().map(|t| t.id).collect();
    assert_eq!(ids, vec![2]);
    assert_eq!(ev.active_team_count(), 1);
}

#[test]
fn deactivate_team_unknown_is_not_found() {
    let mut ev = fresh_event();
    assert_eq!(ev.deactivate_team(5), Err(CoreError::NotFound));
}

#[test]
fn clear_teams_empties_the_roster() {
    let mut ev = fresh_event();
    assert!(ev.add_team(1, 10, 11, 0).is_ok());
    assert!(ev.add_team(2, 12, 13, 0).is_ok());
    assert!(ev.clear_teams().is_ok());
    assert_eq!(ev.active_teams().len(), 0);
}

#[test]
fn clear_teams_locked_event_is_refused() {
    let mut ev = fresh_event();
    assert!(ev.add_team(1, 10, 11, 0).is_ok());
    ev.set_status(EventStatus::Locked);
    assert_eq!(ev.clear_teams(), Err(CoreError::State));
}
