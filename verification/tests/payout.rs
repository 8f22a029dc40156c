use roping_manager::model::{CoreError, Event, EventStatus};

fn event_with_active_teams(n: u64, fee: Option<u32>, pool: Option<u32>) -> Event {
    let mut ev = Event::new(EventStatus::Active, fee, pool);
    let mut id: u64 = 1;
    while id <= n {
        assert!(ev.add_team(id, 100 + 2 * id, 101 + 2 * id, 0).is_ok());
        id += 1;
    }
    ev
}

#[test]
fn breakdown_scenario_with_three_rules() {
    // entry fee 20, prize pool 100, five active teams: total pot 200;
    // 50% / 30% / 20% of a net pot of 200 allocate 100, 60 and 40
    let mut ev = event_with_active_teams(5, Some(20), Some(100));
    assert!(ev.upsert_payoff_rule(1, 5000).is_ok());
    assert!(ev.upsert_payoff_rule(2, 3000).is_ok());
    assert!(ev.upsert_payoff_rule(3, 2000).is_ok());
    let b = ev.payout_breakdown();
    assert_eq!(b.total_pot, 200);
    assert_eq!(b.deductions, 0);
    assert_eq!(b.net_pot, 200);
    let got: Vec<(u64, u32, u128)> =
        b.payouts.iter().map(|p| (p.position, p.percentage_bp, p.amount_e4)).collect();
    // amounts are exact, in ten-thousandths of the money unit:
    // 100 * 10000, 60 * 10000, 40 * 10000
    assert_eq!(got, vec![(1, 5000, 1_000_000), (2, 3000, 600_000), (3, 2000, 400_000)]);
}

#[test]
fn amounts_double_when_the_net_pot_doubles() {
    let mut small = event_with_active_teams(5, Some(20), Some(100));
    let mut large = event_with_active_teams(5, Some(40), Some(200));
    for ev in [&mut small, &mut large] {
        assert!(ev.upsert_payoff_rule(1, 5000).is_ok());
        assert!(ev.upsert_payoff_rule(2, 3000).is_ok());
        assert!(ev.upsert_payoff_rule(3, 1500).is_ok());
    }
    let b1 = small.payout_breakdown();
    let b2 = large.payout_breakdown();
    assert_eq!(b2.net_pot, 2 * b1.net_pot);
    assert_eq!(b1.payouts.len(), b2.payouts.len());
    for (p1, p2) in b1.payouts.iter().zip(b2.payouts.iter()) {
        assert_eq!(p2.amount_e4, 2 * p1.amount_e4);
    }
}

#[test]
fn absent_financials_default_to_zero() {
    let mut ev = event_with_active_teams(3, None, None);
    assert!(ev.upsert_payoff_rule(1, 10000).is_ok());
    let b = ev.payout_breakdown();
    assert_eq!(b.total_pot, 0);
    assert_eq!(b.net_pot, 0);
    assert_eq!(b.payouts[0].amount_e4, 0);
}

#[test]
fn inactive_teams_pay_no_entry_fee() {
    let mut ev = event_with_active_teams(4, Some(25), None);
    assert!(ev.deactivate_team(4).is_ok());
    let b = ev.payout_breakdown();
    assert_eq!(b.total_pot, 75);
}

#[test]
fn percentages_need_not_sum_to_one() {
    let mut ev = event_with_active_teams(2, Some(50), None);
    assert!(ev.upsert_payoff_rule(1, 9000).is_ok());
    assert!(ev.upsert_payoff_rule(2, 9000).is_ok());
    let b = ev.payout_breakdown();
    assert_eq!(b.payouts[0].amount_e4, 900_000);
    assert_eq!(b.payouts[1].amount_e4, 900_000);
}

#[test]
fn rule_percentage_out_of_range_is_rejected() {
    let mut ev = event_with_active_teams(1, None, None);
    assert_eq!(ev.upsert_payoff_rule(1, 10001), Err(CoreError::Validation));
    assert_eq!(ev.active_rules().len(), 0);
    assert!(ev.upsert_payoff_rule(1, 10000).is_ok());
    assert!(ev.upsert_payoff_rule(2, 0).is_ok());
}

#[test]
fn recreating_a_deactivated_rule_reactivates_it_in_place() {
    let mut ev = event_with_active_teams(1, None, None);
    assert!(ev.upsert_payoff_rule(1, 3000).is_ok());
    assert!(ev.deactivate_payoff_rule(1).is_ok());
    assert_eq!(ev.active_rules().len(), 0);
    assert!(ev.upsert_payoff_rule(1, 5000).is_ok());
    let rules = ev.active_rules();
    assert_eq!(rules.len(), 1);
    assert_eq!(rules[0].position, 1);
    assert_eq!(rules[0].percentage_bp, 5000);
}

#[test]
fn rules_come_out_in_position_order() {
    let mut ev = event_with_active_teams(1, None, None);
    assert!(ev.upsert_payoff_rule(3, 1000).is_ok());
    assert!(ev.upsert_payoff_rule(1, 5000).is_ok());
    assert!(ev.upsert_payoff_rule(2, 2000).is_ok());
    let positions: Vec<u64> = ev.active_rules().iter().map(|r| r.position).collect();
    assert_eq!(positions, vec![1, 2, 3]);
}

#[test]
fn deactivating_a_missing_rule_is_not_found() {
    let mut ev = event_with_active_teams(1, None, None);
    assert_eq!(ev.deactivate_payoff_rule(7), Err(CoreError::NotFound));
}
