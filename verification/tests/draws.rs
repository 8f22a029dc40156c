use roping_manager::model::{CoreError, Event, EventStatus, RunStatus};

fn event_with_teams(n: u64) -> Event {
    let mut ev = Event::new(EventStatus::Active, None, None);
    let mut id: u64 = 1;
    while id <= n {
        assert!(ev.add_team(id, 100 + 2 * id, 101 + 2 * id, 0).is_ok());
        id += 1;
    }
    ev
}

#[test]
fn round_without_reseed_orders_by_team_id() {
    let mut ev = event_with_teams(3);
    let res = ev.generate_round(1, false, true, 0);
    assert_eq!(res, Ok(3));
    let draw = ev.draw_of_round(1);
    let pairs: Vec<(u64, u64)> = draw.iter().map(|d| (d.position, d.team_id)).collect();
    assert_eq!(pairs, vec![(1, 1), (2, 2), (3, 3)]);
    let runs = ev.runs_of_round(1);
    assert_eq!(runs.len(), 3);
    assert!(runs.iter().all(|r| r.status == RunStatus::Pending && r.time_ms.is_none()));
}

#[test]
fn seeded_rows_match_the_draw() {
    let mut ev = event_with_teams(4);
    let res = ev.generate_round(2, true, true, 7);
    assert_eq!(res, Ok(4));
    let draw = ev.draw_of_round(2);
    let runs = ev.runs_of_round(2);
    assert_eq!(draw.len(), runs.len());
    assert_eq!(draw.len(), 4);
    for (d, r) in draw.iter().zip(runs.iter()) {
        assert_eq!(d.position, r.position);
        assert_eq!(d.team_id, r.team_id);
    }
}

#[test]
fn reseed_emits_positions_one_to_n_without_gaps() {
    let mut ev = event_with_teams(6);
    assert_eq!(ev.generate_round(1, true, true, 42), Ok(6));
    let draw = ev.draw_of_round(1);
    let positions: Vec<u64> = draw.iter().map(|d| d.position).collect();
    assert_eq!(positions, vec![1, 2, 3, 4, 5, 6]);
    let mut teams: Vec<u64> = draw.iter().map(|d| d.team_id).collect();
    teams.sort();
    assert_eq!(teams, vec![1, 2, 3, 4, 5, 6]);
}

#[test]
fn some_seed_actually_permutes() {
    let sorted: Vec<u64> = (1..=6).collect();
    let mut moved = false;
    for seed in 0..20 {
        let mut ev = event_with_teams(6);
        assert!(ev.generate_round(1, true, false, seed).is_ok());
        let order: Vec<u64> = ev.draw_of_round(1).iter().map(|d| d.team_id).collect();
        if order != sorted {
            moved = true;
        }
    }
    assert!(moved);
}

#[test]
fn skipping_run_seeding_leaves_no_runs() {
    let mut ev = event_with_teams(2);
    assert_eq!(ev.generate_round(1, false, false, 0), Ok(2));
    assert_eq!(ev.draw_of_round(1).len(), 2);
    assert_eq!(ev.runs_of_round(1).len(), 0);
}

#[test]
fn regeneration_drops_stale_positions() {
    let mut ev = event_with_teams(3);
    assert_eq!(ev.generate_round(1, false, true, 0), Ok(3));
    // team 3 is flagged out, the round is regenerated before it starts:
    // the round must shrink to the two eligible teams, leaving no stale row
    ev.record_run(3, 2, 1, None, 0, true, false);
    assert_eq!(ev.generate_round(1, false, true, 0), Ok(2));
    let draw = ev.draw_of_round(1);
    let pairs: Vec<(u64, u64)> = draw.iter().map(|d| (d.position, d.team_id)).collect();
    assert_eq!(pairs, vec![(1, 1), (2, 2)]);
}

#[test]
fn flagged_team_is_excluded_from_later_draws() {
    let mut ev = event_with_teams(3);
    assert_eq!(ev.generate_round(1, false, true, 0), Ok(3));
    // team 2 records a dq in round 1
    ev.record_run(2, 1, 2, None, 0, false, true);
    let res = ev.generate_round(2, false, true, 0);
    assert_eq!(res, Ok(2));
    let teams: Vec<u64> = ev.draw_of_round(2).iter().map(|d| d.team_id).collect();
    assert_eq!(teams, vec![1, 3]);
}

#[test]
fn started_round_is_never_regenerated() {
    let mut ev = event_with_teams(3);
    assert_eq!(ev.generate_round(1, false, true, 0), Ok(3));
    ev.record_run(1, 1, 1, Some(7000), 0, false, false);
    let before_draw = ev.draw_of_round(1);
    let before_runs = ev.runs_of_round(1);
    assert_eq!(ev.generate_round(1, true, true, 9), Err(CoreError::State));
    assert_eq!(ev.draw_of_round(1), before_draw);
    assert_eq!(ev.runs_of_round(1), before_runs);
}

#[test]
fn completed_event_blocks_single_round_generation() {
    let mut ev = event_with_teams(2);
    ev.set_status(EventStatus::Completed);
    assert_eq!(ev.generate_round(1, false, true, 0), Err(CoreError::State));
}

#[test]
fn locked_event_still_allows_single_round_generation() {
    let mut ev = event_with_teams(2);
    ev.set_status(EventStatus::Locked);
    assert_eq!(ev.generate_round(1, false, true, 0), Ok(2));
}

#[test]
fn no_eligible_teams_is_empty_input() {
    let mut ev = Event::new(EventStatus::Active, None, None);
    assert_eq!(ev.generate_round(1, false, true, 0), Err(CoreError::EmptyInput));
    assert!(ev.add_team(1, 10, 11, 0).is_ok());
    ev.record_run(1, 1, 1, None, 0, true, false);
    assert_eq!(ev.generate_round(2, false, true, 0), Err(CoreError::EmptyInput));
}

#[test]
fn regenerating_one_round_leaves_other_rounds_alone() {
    let mut ev = event_with_teams(3);
    assert_eq!(ev.generate_round(1, true, true, 1), Ok(3));
    assert_eq!(ev.generate_round(2, true, true, 2), Ok(3));
    let round_one_draw = ev.draw_of_round(1);
    let round_one_runs = ev.runs_of_round(1);
    assert_eq!(ev.generate_round(2, true, true, 3), Ok(3));
    assert_eq!(ev.draw_of_round(1), round_one_draw);
    assert_eq!(ev.runs_of_round(1), round_one_runs);
}

#[test]
fn batch_fills_every_round() {
    let mut ev = event_with_teams(3);
    assert_eq!(ev.generate_batch(3, false, 0), Ok(9));
    for round in 1..=3 {
        let draw = ev.draw_of_round(round);
        let positions: Vec<u64> = draw.iter().map(|d| d.position).collect();
        assert_eq!(positions, vec![1, 2, 3]);
        assert_eq!(ev.runs_of_round(round).len(), 3);
    }
}

#[test]
fn batch_on_locked_event_is_refused() {
    let mut ev = event_with_teams(2);
    ev.set_status(EventStatus::Locked);
    assert_eq!(ev.generate_batch(2, false, 0), Err(CoreError::State));
}

#[test]
fn batch_without_teams_is_empty_input() {
    let mut ev = Event::new(EventStatus::Active, None, None);
    assert_eq!(ev.generate_batch(2, false, 0), Err(CoreError::EmptyInput));
}

#[test]
fn batch_preserves_captured_results() {
    let mut ev = event_with_teams(3);
    assert_eq!(ev.generate_batch(2, false, 0), Ok(6));
    ev.record_run(2, 1, 2, Some(9000), 500, false, false);
    // regenerating the batch must not erase the captured time
    assert_eq!(ev.generate_batch(2, true, 5), Ok(6));
    let row = ev
        .runs_of_round(1)
        .into_iter()
        .find(|r| r.team_id == 2)
        .expect("run row of team 2 missing");
    assert_eq!(row.total_ms, Some(9500));
    assert_eq!(row.status, RunStatus::Completed);
}

#[test]
fn batch_shuffle_emits_permutations_each_round() {
    let mut ev = event_with_teams(5);
    assert_eq!(ev.generate_batch(4, true, 11), Ok(20));
    for round in 1..=4 {
        let draw = ev.draw_of_round(round);
        let positions: Vec<u64> = draw.iter().map(|d| d.position).collect();
        assert_eq!(positions, vec![1, 2, 3, 4, 5]);
        let mut teams: Vec<u64> = draw.iter().map(|d| d.team_id).collect();
        teams.sort();
        assert_eq!(teams, vec![1, 2, 3, 4, 5]);
    }
}

#[test]
fn batch_excludes_eliminated_teams() {
    let mut ev = event_with_teams(3);
    assert_eq!(ev.generate_round(1, false, true, 0), Ok(3));
    ev.record_run(2, 1, 2, None, 0, true, false);
    assert_eq!(ev.generate_batch(2, false, 0), Ok(4));
    for round in 1..=2 {
        let teams: Vec<u64> = ev.draw_of_round(round).iter().map(|d| d.team_id).collect();
        assert!(!teams.contains(&2));
    }
}

#[test]
fn batch_regeneration_replaces_every_in_range_row() {
    let mut ev = event_with_teams(3);
    assert_eq!(ev.generate_batch(2, false, 0), Ok(6));
    // team 2 drops out; the regenerated batch has two eligible teams, so
    // positions 1..=2 of every round must both be rewritten with distinct
    // eligible teams, while the stale row at position 3 stays behind
    ev.record_run(2, 1, 2, None, 0, true, false);
    assert_eq!(ev.generate_batch(2, false, 0), Ok(4));
    for round in 1..=2 {
        let draw = ev.draw_of_round(round);
        let in_range: Vec<(u64, u64)> = draw
            .iter()
            .filter(|d| d.position <= 2)
            .map(|d| (d.position, d.team_id))
            .collect();
        assert_eq!(in_range, vec![(1, 1), (2, 3)]);
        let stale: Vec<u64> = draw.iter().filter(|d| d.position > 2).map(|d| d.position).collect();
        assert_eq!(stale, vec![3]);
    }
}

#[test]
fn batch_shares_one_eligibility_snapshot() {
    // teams sharing a roster member still all appear in every round of a
    // fresh batch: eligibility is computed once, before any round
    let mut ev = Event::new(EventStatus::Active, None, None);
    assert!(ev.add_team(1, 10, 11, 0).is_ok());
    assert!(ev.add_team(2, 10, 12, 0).is_ok());
    assert!(ev.add_team(3, 13, 11, 0).is_ok());
    assert_eq!(ev.generate_batch(3, true, 3), Ok(9));
    for round in 1..=3 {
        let mut teams: Vec<u64> = ev.draw_of_round(round).iter().map(|d| d.team_id).collect();
        teams.sort();
        assert_eq!(teams, vec![1, 2, 3]);
    }
}
