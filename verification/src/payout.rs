//! The payout calculator: pot arithmetic over event financials and the
//! active percentage rules, and the rule upsert/deactivate operations.
//!
//! Money is held in cents; percentages in basis points (10_000 = 100%). An
//! allocated amount is kept exact as `net_pot * percentage_bp`, that is in
//! ten-thousandths of a cent, so no rounding policy is baked in.

use vstd::prelude::*;
use crate::model::{CoreError, Event, PayoffRule, Team, TeamStatus};
use crate::seq_lemmas::lemma_filter_push;

verus! {

/// Share of the pot withheld before allocation, in basis points. A reserved
/// policy knob; currently nothing is withheld.
pub const DEDUCTION_RATE_BP: u64 = 0;

/// One allocation of the breakdown.
#[derive(Clone, Copy, Debug, PartialEq, Eq, Structural)]
pub struct PayoutEntry {
    /// Finishing position the entry pays.
    pub position: u64,
    /// Share of the net pot in basis points.
    pub percentage_bp: u32,
    /// Allocated amount, in ten-thousandths of a cent.
    pub amount_e4: u128,
}

/// The full payout breakdown of an event.
#[derive(Clone, Debug)]
pub struct PayoutBreakdown {
    /// Prize pool plus entry fees of the active teams, in cents.
    pub total_pot: u128,
    /// Withheld share, in cents (rounded down).
    pub deductions: u128,
    /// What is left to allocate, in cents.
    pub net_pot: u128,
    /// One entry per active rule, in ascending position order.
    pub payouts: Vec<PayoutEntry>,
}

/// The pot before deductions: prize pool plus entry fee per active team.
pub open spec fn spec_total_pot(entry_fee: Option<u32>, prize_pool: Option<u32>, active_count: int) -> int {
    (match prize_pool {
        Some(p) => p as int,
        None => 0,
    }) + (match entry_fee {
        Some(f) => f as int,
        None => 0,
    }) * active_count
}

/// The amount a rule allocates from the net pot, in ten-thousandths of a
/// cent.
pub open spec fn spec_amount(net_pot: int, percentage_bp: int) -> int {
    net_pot * percentage_bp
}

/// Payout amounts are linear in the net pot: doubling the net pot doubles
/// every allocated amount.
pub proof fn lemma_payout_linear(net_pot: int, percentage_bp: int)
    ensures
        spec_amount(2 * net_pot, percentage_bp) == 2 * spec_amount(net_pot, percentage_bp),
{
    assert((2 * net_pot) * percentage_bp == 2 * (net_pot * percentage_bp)) by (nonlinear_arith);
}

impl Event {
    /// The number of active teams.
    pub open spec fn spec_active_count(self) -> int {
        self.teams@.filter(|t: Team| t.status == TeamStatus::Active).len() as int
    }

    /// Count the active teams.
    pub fn active_team_count(&self) -> (n: usize)
        ensures
            n == self.spec_active_count(),
    {
        let mut n: usize = 0;
        let mut i: usize = 0;
        while i < self.teams.len()
            invariant
                i <= self.teams@.len(),
                n <= i,
                n == self.teams@.take(i as int).filter(|t: Team| t.status == TeamStatus::Active).len(),
            decreases self.teams@.len() - i,
        {
            let t = self.teams[i];
            proof {
                assert(self.teams@.take(i as int + 1) =~= self.teams@.take(i as int).push(
                    self.teams@[i as int],
                ));
                lemma_filter_push(
                    self.teams@.take(i as int),
                    self.teams@[i as int],
                    |t: Team| t.status == TeamStatus::Active,
                );
            }
            if matches!(t.status, TeamStatus::Active) {
                n = n + 1;
            }
            i += 1;
        }
        proof {
            assert(self.teams@.take(self.teams@.len() as int) =~= self.teams@);
        }
        n
    }

    /// The active payoff rules, in ascending position order.
    pub fn active_rules(&self) -> (out: Vec<PayoffRule>)
        requires
            self.wf(),
        ensures
            out@ == self.rules@.filter(|r: PayoffRule| r.active),
    {
        let mut out: Vec<PayoffRule> = Vec::new();
        let mut i: usize = 0;
        while i < self.rules.len()
            invariant
                i <= self.rules@.len(),
                out@ == self.rules@.take(i as int).filter(|r: PayoffRule| r.active),
            decreases self.rules@.len() - i,
        {
            let r = self.rules[i];
            proof {
                assert(self.rules@.take(i as int + 1) =~= self.rules@.take(i as int).push(
                    self.rules@[i as int],
                ));
                lemma_filter_push(
                    self.rules@.take(i as int),
                    self.rules@[i as int],
                    |r: PayoffRule| r.active,
                );
            }
            if r.active {
                out.push(r);
            }
            i += 1;
        }
        proof {
            assert(self.rules@.take(self.rules@.len() as int) =~= self.rules@);
        }
        out
    }

    /// The payout breakdown: `total_pot = prize_pool + entry_fee * active
    /// teams`, deductions at the policy rate, and one exact allocation per
    /// active rule. Percentages are not required to sum to 100%: under- and
    /// over-allocation pass through unchecked by design.
    pub fn payout_breakdown(&self) -> (b: PayoutBreakdown)
        requires
            self.wf(),
        ensures
            b.total_pot == spec_total_pot(self.entry_fee, self.prize_pool, self.spec_active_count()),
            b.deductions == b.total_pot * (DEDUCTION_RATE_BP as int) / 10000,
            b.net_pot == b.total_pot - b.deductions,
            ({
                let fr = self.rules@.filter(|r: PayoffRule| r.active);
                &&& b.payouts@.len() == fr.len()
                &&& forall|k: int|
                    0 <= k < fr.len() ==> #[trigger] b.payouts@[k] == (PayoutEntry {
                        position: fr[k].position,
                        percentage_bp: fr[k].percentage_bp,
                        amount_e4: spec_amount(b.net_pot as int, fr[k].percentage_bp as int) as u128,
                    })
            }),
    {
        let count = self.active_team_count();
        let fee: u128 = match self.entry_fee {
            Some(f) => f as u128,
            None => 0,
        };
        let pool: u128 = match self.prize_pool {
            Some(p) => p as u128,
            None => 0,
        };
        proof {
            assert(fee * (count as u128) <= 0xffff_ffff * (0xffff_ffff_ffff_ffff as int))
                by (nonlinear_arith)
                requires
                    fee <= 0xffff_ffff,
                    count as u128 <= 0xffff_ffff_ffff_ffff,
            ;
        }
        let total_pot: u128 = pool + fee * (count as u128);
        proof {
            assert(total_pot <= 0xffff_ffff_0000_0000_0000_0000u128);
        }
        let deductions: u128 = total_pot * (DEDUCTION_RATE_BP as u128) / 10000;
        proof {
            assert(total_pot * 0 == 0) by (nonlinear_arith);
        }
        let net_pot: u128 = total_pot - deductions;

        let rules = self.active_rules();
        let mut payouts: Vec<PayoutEntry> = Vec::new();
        let ghost fr = self.rules@.filter(|r: PayoffRule| r.active);
        let mut k: usize = 0;
        while k < rules.len()
            invariant
                k <= rules@.len(),
                rules@ == fr,
                net_pot <= 0xffff_ffff_0000_0000_0000_0000u128,
                payouts@.len() == k,
                forall|m: int|
                    0 <= m < k ==> #[trigger] payouts@[m] == (PayoutEntry {
                        position: fr[m].position,
                        percentage_bp: fr[m].percentage_bp,
                        amount_e4: spec_amount(net_pot as int, fr[m].percentage_bp as int) as u128,
                    }),
            decreases rules@.len() - k,
        {
            let r = rules[k];
            proof {
                let x = net_pot as int;
                let y = r.percentage_bp as int;
                assert(x * y <= 0xffff_ffff_0000_0000_0000_0000 * 0xffff_ffff && x * y >= 0)
                    by (nonlinear_arith)
                    requires
                        0 <= x <= 0xffff_ffff_0000_0000_0000_0000,
                        0 <= y <= 0xffff_ffff,
                ;
            }
            let amount: u128 = net_pot * (r.percentage_bp as u128);
            payouts.push(
                PayoutEntry { position: r.position, percentage_bp: r.percentage_bp, amount_e4: amount },
            );
            k += 1;
        }
        PayoutBreakdown { total_pot, deductions, net_pot, payouts }
    }

    /// Create or overwrite the rule paying `position`: an existing rule at
    /// that position gets the new percentage and is reactivated if it was
    /// deactivated; otherwise the rule is inserted. The percentage must lie
    /// in `[0, 10000]` basis points.
    pub fn upsert_payoff_rule(&mut self, position: u64, percentage_bp: u32) -> (res: Result<
        (),
        CoreError,
    >)
        requires
            old(self).wf(),
            position >= 1,
        ensures
            final(self).wf(),
            final(self).status == old(self).status,
            final(self).entry_fee == old(self).entry_fee,
            final(self).prize_pool == old(self).prize_pool,
            final(self).teams == old(self).teams,
            final(self).runs == old(self).runs,
            final(self).draws == old(self).draws,
            res.is_err() ==> *final(self) == *old(self),
            (res == Err::<(), CoreError>(CoreError::Validation)) <==> percentage_bp > 10000,
            res.is_ok() <==> percentage_bp <= 10000,
            res.is_ok() ==> exists|k: int|
                0 <= k < final(self).rules@.len() && #[trigger] final(self).rules@[k]
                    == (PayoffRule { position, percentage_bp, active: true }),
            res.is_ok() ==> ({
                let rule = PayoffRule { position, percentage_bp, active: true };
                &&& ((exists|k: int|
                    0 <= k < old(self).rules@.len() && (#[trigger] old(self).rules@[k]).position
                        == position) ==> final(self).rules@.len() == old(self).rules@.len()
                    && (forall|k: int|
                    0 <= k < old(self).rules@.len() ==> #[trigger] final(self).rules@[k] == (
                    if old(self).rules@[k].position == position {
                        rule
                    } else {
                        old(self).rules@[k]
                    })))
                &&& (!(exists|k: int|
                    0 <= k < old(self).rules@.len() && (#[trigger] old(self).rules@[k]).position
                        == position) ==> exists|i: int|
                    0 <= i <= old(self).rules@.len() && final(self).rules@ == old(
                        self,
                    ).rules@.insert(i, rule))
            }),
    {
        if percentage_bp > 10000 {
            return Err(CoreError::Validation);
        }
        let rule = PayoffRule { position, percentage_bp, active: true };
        let mut i: usize = 0;
        while i < self.rules.len() && self.rules[i].position < position
            invariant
                i <= self.rules@.len(),
                forall|m: int| 0 <= m < i ==> (#[trigger] self.rules@[m]).position < position,
            decreases self.rules@.len() - i,
        {
            i += 1;
        }
        if i < self.rules.len() && self.rules[i].position == position {
            assert(self.rules@[i as int].position == position);
            self.rules[i] = rule;
            proof {
                assert(self.rules@[i as int] == rule);
                assert forall|k: int| 0 <= k < old(self).rules@.len() implies #[trigger] self.rules@[k]
                    == (if old(self).rules@[k].position == position {
                    rule
                } else {
                    old(self).rules@[k]
                }) by {
                    if k != i && old(self).rules@[k].position == position {
                        if k < i {
                            assert(old(self).rules@[k].position < old(self).rules@[i as int].position);
                        } else {
                            assert(old(self).rules@[i as int].position < old(self).rules@[k].position);
                        }
                    }
                }
            }
            Ok(())
        } else {
            proof {
                assert forall|k: int|
                    0 <= k < self.rules@.len() implies (#[trigger] self.rules@[k]).position
                    != position by {
                    if k >= i && i < self.rules@.len() {
                        if k > i {
                            assert(self.rules@[i as int].position < self.rules@[k].position);
                        }
                    }
                }
            }
            self.rules.insert(i, rule);
            assert(self.rules@ == old(self).rules@.insert(i as int, rule));
            proof {
                assert(self.rules@[i as int] == rule);
            }
            Ok(())
        }
    }

    /// Soft-delete the rule paying `position`; it can be recreated in place
    /// later.
    pub fn deactivate_payoff_rule(&mut self, position: u64) -> (res: Result<(), CoreError>)
        requires
            old(self).wf(),
        ensures
            final(self).wf(),
            final(self).status == old(self).status,
            final(self).entry_fee == old(self).entry_fee,
            final(self).prize_pool == old(self).prize_pool,
            final(self).teams == old(self).teams,
            final(self).runs == old(self).runs,
            final(self).draws == old(self).draws,
            res.is_err() ==> *final(self) == *old(self),
            (res == Err::<(), CoreError>(CoreError::NotFound)) <==> !(exists|k: int|
                0 <= k < old(self).rules@.len() && (#[trigger] old(self).rules@[k]).position
                    == position),
            res.is_ok() <==> (exists|k: int|
                0 <= k < old(self).rules@.len() && (#[trigger] old(self).rules@[k]).position
                    == position),
            res.is_ok() ==> final(self).rules@.len() == old(self).rules@.len() && (forall|k: int|
                0 <= k < old(self).rules@.len() ==> #[trigger] final(self).rules@[k] == (
                if old(self).rules@[k].position == position {
                    PayoffRule { active: false, ..old(self).rules@[k] }
                } else {
                    old(self).rules@[k]
                })),
    {
        let mut i: usize = 0;
        while i < self.rules.len()
            invariant
                self == old(self),
                old(self).wf(),
                i <= self.rules@.len(),
                forall|m: int| 0 <= m < i ==> (#[trigger] self.rules@[m]).position != position,
            decreases self.rules@.len() - i,
        {
            let r = self.rules[i];
            if r.position == position {
                assert(self.rules@[i as int].position == position);
                self.rules[i] = PayoffRule { active: false, ..r };
                proof {
                    assert forall|k: int| 0 <= k < old(self).rules@.len() implies #[trigger] self.rules@[k]
                        == (if old(self).rules@[k].position == position {
                        PayoffRule { active: false, ..old(self).rules@[k] }
                    } else {
                        old(self).rules@[k]
                    }) by {
                        if k != i && old(self).rules@[k].position == position {
                            if k < i {
                                assert(old(self).rules@[k].position < old(
                                    self,
                                ).rules@[i as int].position);
                            } else {
                                assert(old(self).rules@[i as int].position < old(
                                    self,
                                ).rules@[k].position);
                            }
                        }
                    }
                }
                return Ok(());
            }
            i += 1;
        }
        Err(CoreError::NotFound)
    }
}

} // verus!
