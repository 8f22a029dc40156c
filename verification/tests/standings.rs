use roping_manager::model::{Event, EventStatus};

fn event_with_teams(n: u64) -> Event {
    let mut ev = Event::new(EventStatus::Active, None, None);
    let mut id: u64 = 1;
    while id <= n {
        assert!(ev.add_team(id, 100 + 2 * id, 101 + 2 * id, 0).is_ok());
        id += 1;
    }
    ev
}

#[test]
fn standings_empty_without_runs() {
    let ev = event_with_teams(3);
    assert_eq!(ev.standings().len(), 0);
}

#[test]
fn standings_aggregate_one_team() {
    let mut ev = event_with_teams(1);
    ev.record_run(1, 1, 1, Some(5000), 1000, false, false);
    ev.record_run(1, 2, 1, Some(7000), 0, false, false);
    ev.record_run(1, 3, 1, None, 0, true, false);
    let table = ev.standings();
    assert_eq!(table.len(), 1);
    let row = table[0];
    assert_eq!(row.rank, 1);
    assert_eq!(row.team_id, 1);
    assert_eq!(row.completed_runs, 2);
    assert_eq!(row.nt_count, 1);
    assert_eq!(row.dq_count, 0);
    assert_eq!(row.total_time_ms, Some(13000));
    assert_eq!(row.best_time_ms, Some(6000));
    assert_eq!(row.avg_time_ms, Some(6500));
}

#[test]
fn average_rounds_down() {
    let mut ev = event_with_teams(1);
    ev.record_run(1, 1, 1, Some(5000), 0, false, false);
    ev.record_run(1, 2, 1, Some(5001), 0, false, false);
    assert_eq!(ev.standings()[0].avg_time_ms, Some(5000));
}

#[test]
fn more_valid_runs_outrank_fewer_even_with_worse_times() {
    let mut ev = event_with_teams(2);
    // team 1: two slow valid runs; team 2: one fast valid run
    ev.record_run(1, 1, 1, Some(20000), 0, false, false);
    ev.record_run(1, 2, 1, Some(20000), 0, false, false);
    ev.record_run(2, 1, 2, Some(4000), 0, false, false);
    let table = ev.standings();
    assert_eq!(table[0].team_id, 1);
    assert_eq!(table[1].team_id, 2);
}

#[test]
fn team_with_only_flagged_runs_ranks_below_zero_valid_is_still_listed() {
    let mut ev = event_with_teams(2);
    ev.record_run(1, 1, 1, Some(9000), 0, false, false);
    ev.record_run(2, 1, 2, None, 0, false, true);
    let table = ev.standings();
    assert_eq!(table.len(), 2);
    assert_eq!(table[0].team_id, 1);
    assert_eq!(table[1].team_id, 2);
    assert_eq!(table[1].completed_runs, 0);
    assert_eq!(table[1].dq_count, 1);
    assert_eq!(table[1].total_time_ms, None);
}

#[test]
fn equal_counts_rank_by_total_time() {
    let mut ev = event_with_teams(2);
    ev.record_run(1, 1, 1, Some(9000), 0, false, false);
    ev.record_run(2, 1, 2, Some(8000), 0, false, false);
    let table = ev.standings();
    assert_eq!(table[0].team_id, 2);
    assert_eq!(table[1].team_id, 1);
}

#[test]
fn equal_totals_rank_by_best_time_then_id() {
    let mut ev = event_with_teams(3);
    // all three teams: two valid runs, total 10000
    ev.record_run(1, 1, 1, Some(5000), 0, false, false);
    ev.record_run(1, 2, 1, Some(5000), 0, false, false);
    ev.record_run(2, 1, 2, Some(4000), 0, false, false);
    ev.record_run(2, 2, 2, Some(6000), 0, false, false);
    ev.record_run(3, 1, 3, Some(5000), 0, false, false);
    ev.record_run(3, 2, 3, Some(5000), 0, false, false);
    let table = ev.standings();
    // team 2 has the lower best (4000); teams 1 and 3 tie on best and fall
    // back to team id
    assert_eq!(table[0].team_id, 2);
    assert_eq!(table[1].team_id, 1);
    assert_eq!(table[2].team_id, 3);
    // ranks are strictly increasing and never shared
    assert_eq!(table[0].rank, 1);
    assert_eq!(table[1].rank, 2);
    assert_eq!(table[2].rank, 3);
}
