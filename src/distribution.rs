//! Lazy fair-share distribution of rewards over reward power.
//!
//! A distribution raises the shares owed per point of reward power; an account's
//! rewards are computed on withdrawal from its current power and a correction
//! term that cancels the effect of earlier changes of its power.
use vstd::prelude::*;

use crate::error::{OverflowError, OverflowOperation};

verus! {

/// Bits by which reward amounts are shifted to keep fractional shares.
pub const SHARES_SHIFT: u32 = 32;

/// `2^SHARES_SHIFT`, the fixed-point unit of shares.
pub const SHARES_UNIT: u128 = 4294967296;

/// Global state of the reward pool.
#[derive(Clone, Copy, Debug, PartialEq, Eq, Structural)]
pub struct Distribution {
    /// How many shares a single point of reward power is worth.
    pub shares_per_point: u128,
    /// Shares not handed out by earlier distributions, kept for the next one.
    pub shares_leftover: u128,
    /// Total rewards distributed so far.
    pub distributed_total: u128,
    /// Total rewards distributed and not withdrawn yet.
    pub withdrawable_total: u128,
}

/// Per-account terms of the reward computation.
#[derive(Clone, Debug)]
pub struct WithdrawAdjustment {
    /// Shares added to (or removed from) what the current power would earn.
    pub shares_correction: i128,
    /// Rewards this account has withdrawn so far.
    pub withdrawn_rewards: u128,
    /// The second account allowed to withdraw on this account's behalf.
    pub delegated: String,
}

/// Shares that an account with `points` of reward power and the given
/// correction holds at the rate `shares_per_point`.
pub open spec fn adjusted_shares(shares_per_point: int, points: int, correction: int) -> int {
    shares_per_point * points + correction
}

/// Rewards an account may withdraw: its shares in whole tokens, less what it withdrew.
pub open spec fn withdrawable(shares_per_point: int, points: int, correction: int, withdrawn: int) -> int {
    adjusted_shares(shares_per_point, points, correction) / (SHARES_UNIT as int) - withdrawn
}

/// Shares to hand out for `amount`, together with the `leftover` of earlier distributions.
pub open spec fn distributed_points(amount: int, leftover: int) -> int {
    amount * (SHARES_UNIT as int) + leftover
}

impl Distribution {
    /// The pool before any distribution.
    pub fn new() -> (r: Distribution)
        ensures
            r == (Distribution {
                shares_per_point: 0,
                shares_leftover: 0,
                distributed_total: 0,
                withdrawable_total: 0,
            }),
    {
        Distribution { shares_per_point: 0, shares_leftover: 0, distributed_total: 0, withdrawable_total: 0 }
    }

    /// The pool after distributing `amount` over `total` points of reward power.
    pub open spec fn distribution_result(self, amount: int, total: int) -> Distribution
        recommends
            total > 0,
    {
        Distribution {
            shares_per_point: (self.shares_per_point + distributed_points(amount, self.shares_leftover as int) / total) as u128,
            shares_leftover: (distributed_points(amount, self.shares_leftover as int) % total) as u128,
            distributed_total: (self.distributed_total + amount) as u128,
            withdrawable_total: (self.withdrawable_total + amount) as u128,
        }
    }

    /// Whether distributing `amount` over `total` points stays within 128 bits.
    pub open spec fn distribution_fits(self, amount: int, total: int) -> bool {
        &&& distributed_points(amount, self.shares_leftover as int) <= u128::MAX
        &&& self.shares_per_point + distributed_points(amount, self.shares_leftover as int) / total <= u128::MAX
        &&& self.distributed_total + amount <= u128::MAX
        &&& self.withdrawable_total + amount <= u128::MAX
    }

    /// Spreads `amount` over `total` points of reward power: every point gains
    /// the same number of shares, and what does not divide evenly is kept for
    /// the next distribution.
    pub fn distribute(&mut self, amount: u128, total: u128) -> (r: Result<(), OverflowError>)
        requires
            total > 0,
        ensures
            old(self).distribution_fits(amount as int, total as int) ==> r is Ok && *final(self)
                == old(self).distribution_result(amount as int, total as int),
            !old(self).distribution_fits(amount as int, total as int) ==> r is Err && *final(self)
                == *old(self),
    {
        if amount > (u128::MAX - self.shares_leftover) / SHARES_UNIT {
            return Err(OverflowError { operation: OverflowOperation::Mul, operand1: amount, operand2: SHARES_UNIT });
        }
        proof {
            let m = u128::MAX - self.shares_leftover;
            assert(amount * 4294967296 <= m) by (nonlinear_arith)
                requires
                    amount <= m / 4294967296,
            ;
        }
        let points = amount * SHARES_UNIT + self.shares_leftover;
        let per_point = points / total;
        let leftover = points % total;
        if self.shares_per_point > u128::MAX - per_point {
            return Err(OverflowError { operation: OverflowOperation::Add, operand1: self.shares_per_point, operand2: per_point });
        }
        if self.distributed_total > u128::MAX - amount {
            return Err(OverflowError { operation: OverflowOperation::Add, operand1: self.distributed_total, operand2: amount });
        }
        if self.withdrawable_total > u128::MAX - amount {
            return Err(OverflowError { operation: OverflowOperation::Add, operand1: self.withdrawable_total, operand2: amount });
        }
        self.shares_per_point = self.shares_per_point + per_point;
        self.shares_leftover = leftover;
        self.distributed_total = self.distributed_total + amount;
        self.withdrawable_total = self.withdrawable_total + amount;
        Ok(())
    }
}

impl WithdrawAdjustment {
    /// Adjustment of an account that has not earned or withdrawn anything.
    pub fn new(delegated: String) -> (r: WithdrawAdjustment)
        ensures
            r.shares_correction == 0,
            r.withdrawn_rewards == 0,
            r.delegated@ == delegated@,
    {
        WithdrawAdjustment { shares_correction: 0, withdrawn_rewards: 0, delegated }
    }
}

/// Whether the correction for a change of `diff` points at the rate
/// `shares_per_point` can be computed in signed 128-bit arithmetic.
pub open spec fn correction_fits(correction: int, shares_per_point: int, diff: int) -> bool {
    &&& shares_per_point <= i128::MAX || diff == 0
    &&& i128::MIN <= shares_per_point * diff <= i128::MAX
    &&& i128::MIN <= correction - shares_per_point * diff <= i128::MAX
}

/// Applies the correction for a change of `diff` points at the rate
/// `shares_per_point`, so the change does not alter shares already earned.
pub fn apply_points_correction(adjustment: &mut WithdrawAdjustment, shares_per_point: u128, diff: i128) -> (r: Result<(), OverflowError>)
    ensures
        final(adjustment).withdrawn_rewards == old(adjustment).withdrawn_rewards,
        final(adjustment).delegated == old(adjustment).delegated,
        correction_fits(old(adjustment).shares_correction as int, shares_per_point as int, diff as int) ==> r is Ok
            && final(adjustment).shares_correction == old(adjustment).shares_correction - shares_per_point * diff,
        !correction_fits(old(adjustment).shares_correction as int, shares_per_point as int, diff as int) ==> r is Err
            && final(adjustment).shares_correction == old(adjustment).shares_correction,
{
    let c = adjustment.shares_correction;
    let bad = Err(OverflowError { operation: OverflowOperation::Mul, operand1: shares_per_point, operand2: 0 });
    if diff == 0 {
        return Ok(());
    }
    if shares_per_point > i128::MAX as u128 {
        return bad;
    }
    let spp = shares_per_point as i128;
    match spp.checked_mul(diff) {
        Some(prod) => match c.checked_sub(prod) {
            Some(v) => {
                adjustment.shares_correction = v;
                Ok(())
            },
            None => bad,
        },
        None => bad,
    }
}

/// Whether the withdrawable rewards of an account can be computed: the shares
/// fit in signed 128 bits, are not negative, and cover what was withdrawn.
pub open spec fn withdrawable_fits(shares_per_point: int, points: int, correction: int, withdrawn: int) -> bool {
    &&& shares_per_point * points <= i128::MAX
    &&& 0 <= adjusted_shares(shares_per_point, points, correction) <= i128::MAX
    &&& adjusted_shares(shares_per_point, points, correction) / (SHARES_UNIT as int) >= withdrawn
}

/// Rewards that an account with `points` of reward power may withdraw now;
/// `None` when the computation goes out of range.
pub fn withdrawable_rewards(distribution: &Distribution, points: u128, adjustment: &WithdrawAdjustment) -> (r: Option<u128>)
    ensures
        withdrawable_fits(distribution.shares_per_point as int, points as int, adjustment.shares_correction as int, adjustment.withdrawn_rewards as int)
            ==> r == Some(withdrawable(distribution.shares_per_point as int, points as int, adjustment.shares_correction as int, adjustment.withdrawn_rewards as int) as u128),
        !withdrawable_fits(distribution.shares_per_point as int, points as int, adjustment.shares_correction as int, adjustment.withdrawn_rewards as int)
            ==> r is None,
{
    let prod = match distribution.shares_per_point.checked_mul(points) {
        Some(p) => p,
        None => {
            return None;
        },
    };
    if prod > i128::MAX as u128 {
        return None;
    }
    let adjusted = match (prod as i128).checked_add(adjustment.shares_correction) {
        Some(a) => a,
        None => {
            return None;
        },
    };
    if adjusted < 0 {
        return None;
    }
    let amount = (adjusted as u128) / SHARES_UNIT;
    if amount < adjustment.withdrawn_rewards {
        return None;
    }
    Some(amount - adjustment.withdrawn_rewards)
}

/// A change of an account's reward power by `diff`, together with the
/// correction applied at the current rate, neither grants nor removes shares
/// already earned; a later raise of the rate by `gain` pays the new power only.
pub proof fn lemma_power_change_keeps_earned(shares_per_point: int, points: int, correction: int, diff: int, gain: int)
    ensures
        adjusted_shares(shares_per_point, points + diff, correction - shares_per_point * diff)
            == adjusted_shares(shares_per_point, points, correction),
        adjusted_shares(shares_per_point + gain, points + diff, correction - shares_per_point * diff)
            == adjusted_shares(shares_per_point, points, correction) + gain * (points + diff),
{
    assert(shares_per_point * (points + diff) == shares_per_point * points + shares_per_point * diff) by (nonlinear_arith);
    assert((shares_per_point + gain) * (points + diff) == shares_per_point * (points + diff) + gain * (points + diff)) by (nonlinear_arith);
}

/// Two distributions in a row hand out the same shares per point as one
/// distribution of their sum; what is left over is carried, and stays below `total`.
pub proof fn lemma_distributions_accumulate(d: Distribution, a: int, b: int, total: int)
    requires
        0 < total <= u128::MAX,
        a >= 0,
        b >= 0,
        d.shares_leftover < total,
        d.distribution_fits(a, total),
        d.distribution_result(a, total).distribution_fits(b, total),
    ensures
        d.distribution_result(a, total).distribution_result(b, total).shares_per_point
            == d.shares_per_point + distributed_points(a + b, d.shares_leftover as int) / total,
        d.distribution_result(a, total).distribution_result(b, total).shares_leftover
            == distributed_points(a + b, d.shares_leftover as int) % total,
        d.distribution_result(a, total).distribution_result(b, total).shares_leftover < total,
{
    let left0 = d.shares_leftover as int;
    let first_points = distributed_points(a, left0);
    let first_share = first_points / total;
    let first_left = first_points % total;
    let second_points = distributed_points(b, first_left);
    let s = SHARES_UNIT as int;
    assert(first_points == first_share * total + first_left) by (nonlinear_arith) requires first_share == first_points / total, first_left == first_points % total, total > 0;
    assert(distributed_points(a + b, left0) == second_points + first_share * total) by (nonlinear_arith)
        requires first_points == a * s + left0, second_points == b * s + first_left, first_points == first_share * total + first_left, distributed_points(a + b, left0) == (a + b) * s + left0;
    lemma_div_mod_shift(second_points, first_share, total);
}

proof fn lemma_div_mod_shift(x: int, q: int, d: int)
    requires
        d > 0,
        x >= 0,
        q >= 0,
    ensures
        (x + q * d) / d == x / d + q,
        (x + q * d) % d == x % d,
{
    vstd::arithmetic::div_mod::lemma_fundamental_div_mod(x, d);
    let y = x + q * d;
    let qq = x / d + q;
    let rr = x % d;
    assert(y == qq * d + rr) by (nonlinear_arith) requires x == d * (x / d) + rr, qq == x / d + q, y == x + q * d;
    vstd::arithmetic::div_mod::lemma_fundamental_div_mod_converse_mod(y, d, qq, rr);
    vstd::arithmetic::div_mod::lemma_fundamental_div_mod_converse_div(y, d, qq, rr);
}

/// Sum of a sequence of reward powers.
pub open spec fn sum_points(p: Seq<int>) -> int
    decreases p.len(),
{
    if p.len() == 0 {
        0
    } else {
        sum_points(p.drop_last()) + p.last()
    }
}

/// What accounts with the given reward powers, fresh to the pool, may withdraw
/// once the rate is `shares_per_point`.
pub open spec fn sum_payouts(shares_per_point: int, p: Seq<int>) -> int
    decreases p.len(),
{
    if p.len() == 0 {
        0
    } else {
        sum_payouts(shares_per_point, p.drop_last()) + withdrawable(shares_per_point, p.last(), 0, 0)
    }
}

proof fn lemma_payouts_below_pooled(shares_per_point: int, p: Seq<int>)
    requires
        shares_per_point >= 0,
        forall|i: int| 0 <= i < p.len() ==> p[i] >= 0,
    ensures
        sum_payouts(shares_per_point, p) <= shares_per_point * sum_points(p) / (SHARES_UNIT as int),
        sum_points(p) >= 0,
    decreases p.len(),
{
    if p.len() > 0 {
        let q = p.drop_last();
        lemma_payouts_below_pooled(shares_per_point, q);
        let x = shares_per_point * sum_points(q);
        let y = shares_per_point * p.last();
        let s = SHARES_UNIT as int;
        assert(x >= 0 && y >= 0) by (nonlinear_arith)
            requires
                shares_per_point >= 0,
                sum_points(q) >= 0,
                p.last() >= 0,
                x == shares_per_point * sum_points(q),
                y == shares_per_point * p.last(),
        ;
        assert(x / s + y / s <= (x + y) / s) by (nonlinear_arith) requires x >= 0, y >= 0, s > 0;
        assert(shares_per_point * sum_points(p) == x + y) by (nonlinear_arith)
            requires sum_points(p) == sum_points(q) + p.last(), x == shares_per_point * sum_points(q), y == shares_per_point * p.last();
    }
}

/// A distribution of `amount` over accounts fresh to the pool whose reward
/// powers sum to `total` lets them withdraw at most `amount` together, and each
/// at most its proportional share `amount * p / total`, rounded down.
pub proof fn lemma_distribution_bounded(amount: int, p: Seq<int>)
    requires
        amount >= 0,
        0 < sum_points(p) <= u128::MAX,
        Distribution::new_spec().distribution_fits(amount, sum_points(p)),
        forall|i: int| 0 <= i < p.len() ==> p[i] >= 0,
    ensures
        ({
            let spp = Distribution::new_spec().distribution_result(amount, sum_points(p)).shares_per_point as int;
            &&& sum_payouts(spp, p) <= amount
            &&& forall|i: int| 0 <= i < p.len() ==> withdrawable(spp, #[trigger] p[i], 0, 0) <= amount * p[i] / sum_points(p)
        }),
{
    let total = sum_points(p);
    let s = SHARES_UNIT as int;
    let spp = distributed_points(amount, 0) / total;
    assert(spp >= 0) by (nonlinear_arith) requires spp == (amount * s + 0) / total, amount >= 0, total > 0, s > 0;
    lemma_payouts_below_pooled(spp, p);
    assert(spp * total <= amount * s) by (nonlinear_arith) requires spp == (amount * s + 0) / total, total > 0;
    assert(spp * total / s <= amount) by (nonlinear_arith) requires spp * total <= amount * s, s > 0, spp >= 0;
    assert forall|i: int| 0 <= i < p.len() implies withdrawable(spp, #[trigger] p[i], 0, 0) <= amount * p[i] / total by {
        let pi = p[i];
        assert(spp * pi * total <= amount * s * pi) by (nonlinear_arith) requires spp * total <= amount * s, pi >= 0;
        assert((spp * pi) / s <= amount * pi / total) by (nonlinear_arith)
            requires spp * pi * total <= amount * s * pi, s > 0, total > 0, pi >= 0, spp >= 0;
    };
}

impl Distribution {
    /// The pool before any distribution, as a value.
    pub open spec fn new_spec() -> Distribution {
        Distribution { shares_per_point: 0, shares_leftover: 0, distributed_total: 0, withdrawable_total: 0 }
    }
}

} // verus!
