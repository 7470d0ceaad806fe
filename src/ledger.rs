//! The staking ledger: buckets, stake records, claims, voting power and rewards.
use vstd::prelude::*;

use crate::bonding::{BondingInfo, locked_sum, lemma_sum_nonneg};
use crate::claims::{Claim, claims_sum, claims_total, copy_claims, matured_sum, pending, release_matured};
use crate::distribution::{Distribution, WithdrawAdjustment, adjusted_shares, withdrawable, withdrawable_fits, withdrawable_rewards, SHARES_UNIT};
use crate::error::{ContractError, OverflowError, OverflowOperation};
use crate::power::{power, power_fits, calc_power};
use crate::voting::{VotingIndex, current_power, total_at};

verus! {

/// Configuration of one unbonding period as given at instantiation.
#[derive(Clone, Copy, Debug, PartialEq, Eq, Structural)]
pub struct StakeConfig {
    /// Unbonding period in seconds.
    pub unbonding_period: u64,
    /// Voting multiplier, in atomic units (`10^18` is `1.0`).
    pub voting_multiplier: u128,
    /// Reward multiplier, in atomic units (`10^18` is `1.0`).
    pub reward_multiplier: u128,
}

/// Multipliers of a bucket and the stake it holds.
#[derive(Clone, Copy, Debug, PartialEq, Eq, Structural)]
pub struct StakeMultipliers {
    /// Voting multiplier, in atomic units.
    pub voting: u128,
    /// Reward multiplier, in atomic units.
    pub reward: u128,
    /// Total stake in this bucket.
    pub staked: u128,
}

/// Static parameters of the ledger.
#[derive(Clone, Debug)]
pub struct Config {
    /// Address of the token contract whose tokens are staked.
    pub cw20_contract: String,
    pub tokens_per_power: u128,
    pub min_bond: u128,
    /// Configured unbonding periods in seconds, in the order given.
    pub unbonding_periods: Vec<u64>,
}

/// Stake held by the ledger.
#[derive(Clone, Copy, Debug, PartialEq, Eq, Structural)]
pub struct TokenInfo {
    /// Tokens that are bonded.
    pub staked: u128,
    /// Tokens that were unbonded and wait to be claimed.
    pub unbonding: u128,
}

/// Stake of `addr` in the bucket of `unbonding_period`.
#[derive(Clone, Debug)]
pub struct StakeRecord {
    pub addr: String,
    pub unbonding_period: u64,
    pub info: BondingInfo,
}

/// Pending claims of one account.
#[derive(Clone, Debug)]
pub struct AccountClaims {
    pub addr: String,
    pub claims: Vec<Claim>,
}

/// Reward power of one account and the terms of its withdrawals.
#[derive(Clone, Debug)]
pub struct RewardAccount {
    pub addr: String,
    pub points: u128,
    pub adjustment: WithdrawAdjustment,
}

/// Change of an account's voting power; `None` stands for no membership.
#[derive(Clone, Debug)]
pub struct MemberDiff {
    pub key: String,
    pub old: Option<u128>,
    pub new: Option<u128>,
}

/// Stake of an account in one bucket.
#[derive(Clone, Debug, PartialEq, Eq)]
pub struct StakedResponse {
    /// All stake, locked or not.
    pub stake: u128,
    /// Stake still locked.
    pub total_locked: u128,
    pub unbonding_period: u64,
    pub cw20_contract: String,
}

/// Configuration and stake of one bucket.
#[derive(Clone, Copy, Debug, PartialEq, Eq, Structural)]
pub struct BondingPeriodInfo {
    pub unbonding_period: u64,
    pub voting_multiplier: u128,
    pub reward_multiplier: u128,
    pub total_staked: u128,
}

/// An instruction that the host carries out after the command.
#[derive(Clone, Debug)]
pub enum Outbound {
    /// Ask the token contract to return `amount` of delegated tokens to `recipient`.
    Undelegate { contract: String, recipient: String, amount: u128 },
    /// Ask the token contract to transfer `amount` to `recipient`.
    Transfer { contract: String, recipient: String, amount: u128 },
    /// Tell the observer `hook` of the changes of voting power.
    MemberChangedHook { hook: String, diffs: Vec<MemberDiff> },
}

/// Selects what a record contributes to a sum: `0` its stake if it is in
/// bucket `p`; `1` its votes if it belongs to `a`; `2` its rewards if it belongs
/// to `a`; `3` its votes; `4` its rewards.
pub open spec fn sel(r: StakeRecord, k: int, a: Seq<char>, p: u64) -> int {
    if k == 0 {
        if r.unbonding_period == p { r.info.total() } else { 0 }
    } else if k == 1 {
        if r.addr@ == a { r.info.votes as int } else { 0 }
    } else if k == 2 {
        if r.addr@ == a { r.info.rewards as int } else { 0 }
    } else if k == 3 {
        r.info.votes as int
    } else if k == 4 {
        r.info.rewards as int
    } else {
        0
    }
}

/// Sum over the records of what `sel` selects.
pub open spec fn rec_sum(s: Seq<StakeRecord>, k: int, a: Seq<char>, p: u64) -> int
    decreases s.len(),
{
    if s.len() == 0 {
        0
    } else {
        rec_sum(s.drop_last(), k, a, p) + sel(s.last(), k, a, p)
    }
}

pub proof fn lemma_rec_sum_update(s: Seq<StakeRecord>, i: int, r: StakeRecord, k: int, a: Seq<char>, p: u64)
    requires
        0 <= i < s.len(),
    ensures
        rec_sum(s.update(i, r), k, a, p) == rec_sum(s, k, a, p) - sel(s[i], k, a, p) + sel(r, k, a, p),
    decreases s.len(),
{
    if i == s.len() - 1 {
        assert(s.update(i, r).drop_last() =~= s.drop_last());
    } else {
        lemma_rec_sum_update(s.drop_last(), i, r, k, a, p);
        assert(s.update(i, r).drop_last() =~= s.drop_last().update(i, r));
    }
}

pub proof fn lemma_rec_sum_push(s: Seq<StakeRecord>, r: StakeRecord, k: int, a: Seq<char>, p: u64)
    ensures
        rec_sum(s.push(r), k, a, p) == rec_sum(s, k, a, p) + sel(r, k, a, p),
{
    assert(s.push(r).drop_last() =~= s);
}

/// Index of the bucket of period `p`, or `-1`.
pub open spec fn period_index(periods: Seq<u64>, p: u64) -> int
    decreases periods.len(),
{
    if periods.len() == 0 {
        -1
    } else if periods.last() == p {
        periods.len() - 1
    } else {
        period_index(periods.drop_last(), p)
    }
}

/// Index of the record of `a` in bucket `p`, or `-1`.
pub open spec fn record_index(s: Seq<StakeRecord>, a: Seq<char>, p: u64) -> int
    decreases s.len(),
{
    if s.len() == 0 {
        -1
    } else if s.last().addr@ == a && s.last().unbonding_period == p {
        s.len() - 1
    } else {
        record_index(s.drop_last(), a, p)
    }
}

/// Index of the reward account of `a`, or `-1`.
pub open spec fn reward_index(s: Seq<RewardAccount>, a: Seq<char>) -> int
    decreases s.len(),
{
    if s.len() == 0 {
        -1
    } else if s.last().addr@ == a {
        s.len() - 1
    } else {
        reward_index(s.drop_last(), a)
    }
}

/// Index of the claims of `a`, or `-1`.
pub open spec fn claims_index(s: Seq<AccountClaims>, a: Seq<char>) -> int
    decreases s.len(),
{
    if s.len() == 0 {
        -1
    } else if s.last().addr@ == a {
        s.len() - 1
    } else {
        claims_index(s.drop_last(), a)
    }
}

pub proof fn lemma_period_index(periods: Seq<u64>, p: u64)
    ensures
        -1 <= period_index(periods, p) < periods.len(),
        period_index(periods, p) >= 0 ==> periods[period_index(periods, p)] == p,
        period_index(periods, p) == -1 ==> forall|j: int| 0 <= j < periods.len() ==> periods[j] != p,
    decreases periods.len(),
{
    if periods.len() > 0 {
        lemma_period_index(periods.drop_last(), p);
        assert(forall|j: int| 0 <= j < periods.len() - 1 ==> periods.drop_last()[j] == periods[j]);
    }
}

pub proof fn lemma_record_index(s: Seq<StakeRecord>, a: Seq<char>, p: u64)
    ensures
        -1 <= record_index(s, a, p) < s.len(),
        record_index(s, a, p) >= 0 ==> s[record_index(s, a, p)].addr@ == a
            && s[record_index(s, a, p)].unbonding_period == p,
        record_index(s, a, p) == -1 ==> forall|j: int| 0 <= j < s.len() ==> !(s[j].addr@ == a && s[j].unbonding_period == p),
    decreases s.len(),
{
    if s.len() > 0 {
        lemma_record_index(s.drop_last(), a, p);
        assert(forall|j: int| 0 <= j < s.len() - 1 ==> s.drop_last()[j] == s[j]);
    }
}

pub proof fn lemma_reward_index(s: Seq<RewardAccount>, a: Seq<char>)
    ensures
        -1 <= reward_index(s, a) < s.len(),
        reward_index(s, a) >= 0 ==> s[reward_index(s, a)].addr@ == a,
        reward_index(s, a) == -1 ==> forall|j: int| 0 <= j < s.len() ==> s[j].addr@ != a,
    decreases s.len(),
{
    if s.len() > 0 {
        lemma_reward_index(s.drop_last(), a);
        assert(forall|j: int| 0 <= j < s.len() - 1 ==> s.drop_last()[j] == s[j]);
    }
}

pub proof fn lemma_claims_index(s: Seq<AccountClaims>, a: Seq<char>)
    ensures
        -1 <= claims_index(s, a) < s.len(),
        claims_index(s, a) >= 0 ==> s[claims_index(s, a)].addr@ == a,
        claims_index(s, a) == -1 ==> forall|j: int| 0 <= j < s.len() ==> s[j].addr@ != a,
    decreases s.len(),
{
    if s.len() > 0 {
        lemma_claims_index(s.drop_last(), a);
        assert(forall|j: int| 0 <= j < s.len() - 1 ==> s.drop_last()[j] == s[j]);
    }
}

/// Selects what a reward account contributes to a sum: `0` its points, `1`
/// its shares at the rate `spp`, `2` what it withdrew, `3` what it may
/// withdraw at the rate `spp`.
pub open spec fn rsel(r: RewardAccount, k: int, spp: int) -> int {
    if k == 0 {
        r.points as int
    } else if k == 1 {
        adjusted_shares(spp, r.points as int, r.adjustment.shares_correction as int)
    } else if k == 2 {
        r.adjustment.withdrawn_rewards as int
    } else if k == 3 {
        withdrawable(spp, r.points as int, r.adjustment.shares_correction as int, r.adjustment.withdrawn_rewards as int)
    } else {
        0
    }
}

/// Sum over the reward accounts of what `rsel` selects.
pub open spec fn reward_sum(s: Seq<RewardAccount>, k: int, spp: int) -> int
    decreases s.len(),
{
    if s.len() == 0 {
        0
    } else {
        reward_sum(s.drop_last(), k, spp) + rsel(s.last(), k, spp)
    }
}

pub proof fn lemma_reward_sum_update(s: Seq<RewardAccount>, i: int, r: RewardAccount, k: int, spp: int)
    requires
        0 <= i < s.len(),
    ensures
        reward_sum(s.update(i, r), k, spp) == reward_sum(s, k, spp) - rsel(s[i], k, spp) + rsel(r, k, spp),
    decreases s.len(),
{
    if i == s.len() - 1 {
        assert(s.update(i, r).drop_last() =~= s.drop_last());
    } else {
        lemma_reward_sum_update(s.drop_last(), i, r, k, spp);
        assert(s.update(i, r).drop_last() =~= s.drop_last().update(i, r));
    }
}

pub proof fn lemma_reward_sum_push(s: Seq<RewardAccount>, r: RewardAccount, k: int, spp: int)
    ensures
        reward_sum(s.push(r), k, spp) == reward_sum(s, k, spp) + rsel(r, k, spp),
{
    assert(s.push(r).drop_last() =~= s);
}

/// Raising the rate by `gain` raises the shares of all accounts by `gain` per point.
pub proof fn lemma_reward_sum_rate(s: Seq<RewardAccount>, spp: int, gain: int)
    ensures
        reward_sum(s, 1, spp + gain) == reward_sum(s, 1, spp) + gain * reward_sum(s, 0, 0),
    decreases s.len(),
{
    if s.len() > 0 {
        lemma_reward_sum_rate(s.drop_last(), spp, gain);
        let r = s.last();
        let p = r.points as int;
        let c = r.adjustment.shares_correction as int;
        let x = reward_sum(s.drop_last(), 0, 0);
        assert((spp + gain) * p + c == spp * p + c + gain * p) by (nonlinear_arith);
        assert(gain * x + gain * p == gain * (x + p)) by (nonlinear_arith);
    }
}

/// What accounts may withdraw together is at most their pooled shares in
/// whole tokens, less what they withdrew.
pub proof fn lemma_payable_below_pooled(s: Seq<RewardAccount>, spp: int)
    requires
        forall|i: int| 0 <= i < s.len() ==> rsel(#[trigger] s[i], 1, spp) >= 0 && rsel(s[i], 3, spp) >= 0,
    ensures
        reward_sum(s, 3, spp) <= reward_sum(s, 1, spp) / (SHARES_UNIT as int) - reward_sum(s, 2, 0),
        reward_sum(s, 1, spp) >= 0,
        reward_sum(s, 3, spp) >= 0,
        forall|i: int| 0 <= i < s.len() ==> rsel(#[trigger] s[i], 3, spp) <= reward_sum(s, 3, spp),
    decreases s.len(),
{
    if s.len() > 0 {
        let q = s.drop_last();
        assert forall|i: int| 0 <= i < q.len() implies rsel(#[trigger] q[i], 1, spp) >= 0 && rsel(q[i], 3, spp) >= 0 by {
            assert(q[i] == s[i]);
        };
        lemma_payable_below_pooled(q, spp);
        let x = reward_sum(q, 1, spp);
        let y = rsel(s.last(), 1, spp);
        let u = SHARES_UNIT as int;
        assert(rsel(s[s.len() - 1], 1, spp) >= 0);
        assert(x / u + y / u <= (x + y) / u) by (nonlinear_arith) requires x >= 0, y >= 0, u > 0;
        assert forall|i: int| 0 <= i < s.len() implies rsel(#[trigger] s[i], 3, spp) <= reward_sum(s, 3, spp) by {
            if i < s.len() - 1 {
                assert(q[i] == s[i]);
            }
        };
    }
}

/// The staking ledger.
#[derive(Clone, Debug)]
pub struct Ledger {
    pub config: Config,
    /// Multipliers and stake of each bucket, in the order of `config.unbonding_periods`.
    pub stake_config: Vec<StakeMultipliers>,
    pub admin: Option<String>,
    /// Registered observers of voting power changes, in order of registration.
    pub hooks: Vec<String>,
    pub stakes: Vec<StakeRecord>,
    pub claims: Vec<AccountClaims>,
    pub votes: VotingIndex,
    pub rewards: Vec<RewardAccount>,
    pub total_rewards: u128,
    pub total_staked: TokenInfo,
    pub distribution: Distribution,
}

impl Ledger {
    pub open spec fn periods(&self) -> Seq<u64> {
        self.config.unbonding_periods@
    }

    /// Stake held by `a` in bucket `p`.
    pub open spec fn stake_of(&self, a: Seq<char>, p: u64) -> int {
        let i = record_index(self.stakes@, a, p);
        if i >= 0 { self.stakes@[i].info.total() } else { 0 }
    }

    /// Stake held in bucket `p` by all accounts.
    pub open spec fn bucket_stake(&self, p: u64) -> int {
        rec_sum(self.stakes@, 0, Seq::empty(), p)
    }

    /// Voting power of `a`: the sum of its records' votes.
    pub open spec fn account_votes(&self, a: Seq<char>) -> int {
        rec_sum(self.stakes@, 1, a, 0)
    }

    /// Reward power of `a`: the sum of its records' rewards.
    pub open spec fn account_rewards(&self, a: Seq<char>) -> int {
        rec_sum(self.stakes@, 2, a, 0)
    }

    /// Index of the bucket of period `p`, or `-1`.
    pub open spec fn bucket(&self, p: u64) -> int {
        period_index(self.periods(), p)
    }

    /// Power of `stake` in the bucket at index `j`: voting if `voting`, else reward.
    pub open spec fn power_in(&self, j: int, stake: int, voting: bool) -> int {
        power(
            self.config.min_bond as int,
            self.config.tokens_per_power as int,
            stake,
            if voting { self.stake_config@[j].voting as int } else { self.stake_config@[j].reward as int },
        )
    }

    pub open spec fn wf_config(&self) -> bool {
        &&& self.config.tokens_per_power > 0
        &&& self.config.min_bond >= 1
        &&& self.periods().len() == self.stake_config@.len()
        &&& forall|i: int, j: int| 0 <= i < j < self.periods().len() ==> self.periods()[i] != self.periods()[j]
    }

    /// A record is well formed, lies in a known bucket, and its votes and
    /// rewards are the powers of its stake there.
    pub open spec fn wf_record(&self, r: StakeRecord) -> bool {
        let j = self.bucket(r.unbonding_period);
        &&& r.info.wf()
        &&& j >= 0
        &&& r.info.votes == self.power_in(j, r.info.total(), true)
        &&& r.info.rewards == self.power_in(j, r.info.total(), false)
    }

    pub open spec fn wf_records(&self) -> bool {
        &&& forall|i: int| 0 <= i < self.stakes@.len() ==> self.wf_record(#[trigger] self.stakes@[i])
        &&& forall|i: int, j: int|
            0 <= i < j < self.stakes@.len() ==> !(self.stakes@[i].addr@ == self.stakes@[j].addr@
                && self.stakes@[i].unbonding_period == self.stakes@[j].unbonding_period)
    }

    /// Each bucket's stake is the sum of the stake of its records.
    pub open spec fn wf_buckets(&self) -> bool {
        forall|j: int| 0 <= j < self.periods().len() ==> #[trigger] self.stake_config@[j].staked == self.bucket_stake(self.periods()[j])
    }

    /// The bonded total is the sum over the buckets, and the unbonding
    /// total is the sum of all pending claims.
    pub open spec fn wf_total(&self) -> bool {
        &&& self.total_staked.staked == buckets_sum(self.stake_config@)
        &&& self.total_staked.unbonding == all_claims_sum(self.claims@)
    }

    /// The voting power index agrees with the records.
    pub open spec fn wf_votes(&self) -> bool {
        &&& self.votes.wf()
        &&& total_at(self.votes.totals@, u64::MAX as int) == rec_sum(self.stakes@, 3, Seq::empty(), 0)
        &&& forall|a: Seq<char>| #[trigger] current_power(self.votes.members@, a) == self.account_votes(a)
    }

    /// The reward accounts agree with the records and never owe more than they earned.
    pub open spec fn wf_rewards(&self) -> bool {
        &&& self.total_rewards == rec_sum(self.stakes@, 4, Seq::empty(), 0)
        &&& forall|i: int, j: int| 0 <= i < j < self.rewards@.len() ==> self.rewards@[i].addr@ != self.rewards@[j].addr@
        &&& forall|a: Seq<char>| #[trigger] self.account_rewards(a) == {
            let i = reward_index(self.rewards@, a);
            if i >= 0 { self.rewards@[i].points as int } else { 0 }
        }
        &&& forall|i: int| 0 <= i < self.rewards@.len() ==> {
            let r = #[trigger] self.rewards@[i];
            let s = adjusted_shares(self.distribution.shares_per_point as int, r.points as int, r.adjustment.shares_correction as int);
            s >= 0 && s / (SHARES_UNIT as int) >= r.adjustment.withdrawn_rewards
        }
    }

    pub open spec fn wf_claims(&self) -> bool {
        &&& forall|i: int, j: int| 0 <= i < j < self.claims@.len() ==> self.claims@[i].addr@ != self.claims@[j].addr@
        &&& forall|i: int| 0 <= i < self.claims@.len() ==> claims_sum((#[trigger] self.claims@[i]).claims@) <= u128::MAX
    }

    /// The reward pool balances: the points of the reward accounts make up
    /// the total reward power; their shares and the leftover make up all that
    /// was distributed; what they withdrew and what stays withdrawable make up
    /// the same.
    pub open spec fn wf_pool(&self) -> bool {
        let spp = self.distribution.shares_per_point as int;
        &&& reward_sum(self.rewards@, 0, 0) == self.total_rewards
        &&& reward_sum(self.rewards@, 1, spp) + self.distribution.shares_leftover
            == self.distribution.distributed_total * (SHARES_UNIT as int)
        &&& reward_sum(self.rewards@, 2, 0) + self.distribution.withdrawable_total == self.distribution.distributed_total
    }

    /// Every invariant of the ledger.
    pub open spec fn wf(&self) -> bool {
        &&& self.wf_config()
        &&& self.wf_records()
        &&& self.wf_buckets()
        &&& self.wf_votes()
        &&& self.wf_rewards()
        &&& self.wf_claims()
        &&& self.wf_pool()
        &&& self.wf_total()
    }
}


/// `Some(p)` for a member with power `p`, `None` for no membership.
pub open spec fn membership(p: int) -> Option<u128> {
    if p == 0 { None } else { Some(p as u128) }
}

/// `msgs` tells each observer in `hooks`, in order, of the one change of `key`.
pub open spec fn hook_batch(msgs: Seq<Outbound>, hooks: Seq<String>, key: Seq<char>, old: Option<u128>, new: Option<u128>) -> bool {
    &&& msgs.len() == hooks.len()
    &&& forall|k: int| 0 <= k < msgs.len() ==> match #[trigger] msgs[k] {
        Outbound::MemberChangedHook { hook, diffs } => hook@ == hooks[k]@ && diffs@.len() == 1
            && diffs@[0].key@ == key && diffs@[0].old == old && diffs@[0].new == new,
        _ => false,
    }
}

/// New account-level totals for a change of one account's powers.
struct AccountPlan {
    member_old: u128,
    member_new: u128,
    total_votes_new: u128,
    points_new: u128,
    total_rewards_new: u128,
    correction_new: i128,
}

impl Ledger {
    /// A ledger with the given parameters and no stake. A minimum bond below
    /// one is raised to one, so that no stake never gives power.
    pub fn instantiate(
        cw20_contract: String,
        tokens_per_power: u128,
        min_bond: u128,
        stake_config: Vec<StakeConfig>,
        admin: Option<String>,
        height: u64,
    ) -> (r: Ledger)
        requires
            tokens_per_power > 0,
            forall|i: int, j: int| 0 <= i < j < stake_config@.len() ==> stake_config@[i].unbonding_period != stake_config@[j].unbonding_period,
        ensures
            r.wf(),
            r.config.cw20_contract@ == cw20_contract@,
            r.config.tokens_per_power == tokens_per_power,
            r.config.min_bond == if min_bond < 1 { 1 } else { min_bond },
            r.periods().len() == stake_config@.len(),
            forall|i: int| 0 <= i < stake_config@.len() ==> r.periods()[i] == stake_config@[i].unbonding_period
                && r.stake_config@[i] == (StakeMultipliers {
                    voting: stake_config@[i].voting_multiplier,
                    reward: stake_config@[i].reward_multiplier,
                    staked: 0,
                }),
            r.admin == admin,
            r.hooks@.len() == 0,
            r.stakes@.len() == 0,
            r.claims@.len() == 0,
            r.rewards@.len() == 0,
            r.votes.members@.len() == 0,
            r.votes.totals@ == seq![(height, 0u128)],
            r.total_rewards == 0,
            r.total_staked == (TokenInfo { staked: 0, unbonding: 0 }),
            r.distribution == Distribution::new_spec(),
    {
        let min_bond = if min_bond < 1 { 1 } else { min_bond };
        let mut periods: Vec<u64> = Vec::new();
        let mut multipliers: Vec<StakeMultipliers> = Vec::new();
        let mut i: usize = 0;
        while i < stake_config.len()
            invariant
                0 <= i <= stake_config@.len(),
                periods@.len() == i,
                multipliers@.len() == i,
                buckets_sum(multipliers@) == 0,
                forall|k: int| 0 <= k < i ==> periods@[k] == stake_config@[k].unbonding_period
                    && multipliers@[k] == (StakeMultipliers {
                        voting: stake_config@[k].voting_multiplier,
                        reward: stake_config@[k].reward_multiplier,
                        staked: 0,
                    }),
            decreases stake_config@.len() - i,
        {
            let c = stake_config[i];
            periods.push(c.unbonding_period);
            let ghost before = multipliers@;
            multipliers.push(StakeMultipliers { voting: c.voting_multiplier, reward: c.reward_multiplier, staked: 0 });
            proof {
                assert(multipliers@.drop_last() =~= before);
            }
            i = i + 1;
        }
        let r = Ledger {
            config: Config { cw20_contract, tokens_per_power, min_bond, unbonding_periods: periods },
            stake_config: multipliers,
            admin,
            hooks: Vec::new(),
            stakes: Vec::new(),
            claims: Vec::new(),
            votes: VotingIndex::new(height),
            rewards: Vec::new(),
            total_rewards: 0,
            total_staked: TokenInfo { staked: 0, unbonding: 0 },
            distribution: Distribution::new(),
        };
        proof {
            assert(r.votes.totals@.drop_last().len() == 0);
            assert(total_at(r.votes.totals@, u64::MAX as int) == 0);
        }
        r
    }

    /// Index of the bucket of period `p`.
    pub fn find_period(&self, p: u64) -> (r: Option<usize>)
        requires
            self.wf_config(),
        ensures
            r is Some <==> self.bucket(p) >= 0,
            r is Some ==> r->0 == self.bucket(p),
    {
        let periods = &self.config.unbonding_periods;
        let mut i: usize = periods.len();
        proof {
            assert(periods@.take(i as int) =~= periods@);
        }
        while i > 0
            invariant
                0 <= i <= periods@.len(),
                periods@ == self.periods(),
                forall|j: int| i <= j < periods@.len() ==> periods@[j] != p,
                period_index(periods@.take(i as int), p) == period_index(periods@, p),
            decreases i,
        {
            proof {
                assert(periods@.take(i as int).drop_last() =~= periods@.take(i - 1));
            }
            if periods[i - 1] == p {
                return Some(i - 1);
            }
            i = i - 1;
        }
        None
    }

    /// Index of the record of `a` in bucket `p`.
    pub fn find_record(&self, a: &String, p: u64) -> (r: Option<usize>)
        ensures
            r is Some <==> record_index(self.stakes@, a@, p) >= 0,
            r is Some ==> r->0 == record_index(self.stakes@, a@, p),
    {
        let s = &self.stakes;
        let mut i: usize = s.len();
        proof {
            assert(s@.take(i as int) =~= s@);
        }
        while i > 0
            invariant
                0 <= i <= s@.len(),
                s@ == self.stakes@,
                record_index(s@.take(i as int), a@, p) == record_index(s@, a@, p),
            decreases i,
        {
            proof {
                assert(s@.take(i as int).drop_last() =~= s@.take(i - 1));
            }
            if s[i - 1].addr == *a && s[i - 1].unbonding_period == p {
                return Some(i - 1);
            }
            i = i - 1;
        }
        None
    }

    /// Index of the reward account of `a`.
    pub fn find_reward(&self, a: &String) -> (r: Option<usize>)
        ensures
            r is Some <==> reward_index(self.rewards@, a@) >= 0,
            r is Some ==> r->0 == reward_index(self.rewards@, a@),
    {
        let s = &self.rewards;
        let mut i: usize = s.len();
        proof {
            assert(s@.take(i as int) =~= s@);
        }
        while i > 0
            invariant
                0 <= i <= s@.len(),
                s@ == self.rewards@,
                reward_index(s@.take(i as int), a@) == reward_index(s@, a@),
            decreases i,
        {
            proof {
                assert(s@.take(i as int).drop_last() =~= s@.take(i - 1));
            }
            if s[i - 1].addr == *a {
                return Some(i - 1);
            }
            i = i - 1;
        }
        None
    }

    /// Index of the claims of `a`.
    pub fn find_claims(&self, a: &String) -> (r: Option<usize>)
        ensures
            r is Some <==> claims_index(self.claims@, a@) >= 0,
            r is Some ==> r->0 == claims_index(self.claims@, a@),
    {
        let s = &self.claims;
        let mut i: usize = s.len();
        proof {
            assert(s@.take(i as int) =~= s@);
        }
        while i > 0
            invariant
                0 <= i <= s@.len(),
                s@ == self.claims@,
                claims_index(s@.take(i as int), a@) == claims_index(s@, a@),
            decreases i,
        {
            proof {
                assert(s@.take(i as int).drop_last() =~= s@.take(i - 1));
            }
            if s[i - 1].addr == *a {
                return Some(i - 1);
            }
            i = i - 1;
        }
        None
    }
}

pub proof fn lemma_account_le_total(s: Seq<StakeRecord>, a: Seq<char>)
    ensures
        0 <= rec_sum(s, 1, a, 0) <= rec_sum(s, 3, Seq::empty(), 0),
        0 <= rec_sum(s, 2, a, 0) <= rec_sum(s, 4, Seq::empty(), 0),
    decreases s.len(),
{
    if s.len() > 0 {
        lemma_account_le_total(s.drop_last(), a);
    }
}

pub proof fn lemma_reward_index_update(s: Seq<RewardAccount>, i: int, e: RewardAccount, a: Seq<char>)
    requires
        0 <= i < s.len(),
        e.addr@ == s[i].addr@,
    ensures
        reward_index(s.update(i, e), a) == reward_index(s, a),
    decreases s.len(),
{
    if i < s.len() - 1 {
        lemma_reward_index_update(s.drop_last(), i, e, a);
        assert(s.update(i, e).drop_last() =~= s.drop_last().update(i, e));
    } else {
        assert(s.update(i, e).drop_last() =~= s.drop_last());
    }
}

impl Ledger {
    /// Points of the reward account of `a`, zero if it has none.
    pub open spec fn points_of(&self, a: Seq<char>) -> int {
        let i = reward_index(self.rewards@, a);
        if i >= 0 { self.rewards@[i].points as int } else { 0 }
    }

    /// Shares correction of `a`, zero if it has no reward account.
    pub open spec fn correction_of(&self, a: Seq<char>) -> int {
        let i = reward_index(self.rewards@, a);
        if i >= 0 { self.rewards@[i].adjustment.shares_correction as int } else { 0 }
    }

    /// Rewards `a` has withdrawn, zero if it has no reward account.
    pub open spec fn withdrawn_of(&self, a: Seq<char>) -> int {
        let i = reward_index(self.rewards@, a);
        if i >= 0 { self.rewards@[i].adjustment.withdrawn_rewards as int } else { 0 }
    }

    /// The terms of `a`'s rewards: points, correction, withdrawn rewards and delegate.
    pub open spec fn reward_terms(&self, a: Seq<char>) -> (int, int, int, Seq<char>) {
        (self.points_of(a), self.correction_of(a), self.withdrawn_of(a), self.delegated_of(a))
    }

    /// What `a` may withdraw at the current rate.
    pub open spec fn account_withdrawable(&self, a: Seq<char>) -> int {
        withdrawable(self.distribution.shares_per_point as int, self.points_of(a), self.correction_of(a), self.withdrawn_of(a))
    }

    /// After a change of `a`'s reward power from `old`: its correction moves by
    /// the rate times the change, nothing else of the reward accounts changes,
    /// and so what every account may withdraw stays as it was.
    pub open spec fn rewards_kept(&self, old: &Ledger, a: Seq<char>) -> bool {
        &&& forall|b: Seq<char>| b != a ==> #[trigger] self.reward_terms(b) == old.reward_terms(b)
        &&& self.correction_of(a) == old.correction_of(a) - old.distribution.shares_per_point * (self.points_of(a) - old.points_of(a))
        &&& self.withdrawn_of(a) == old.withdrawn_of(a)
        &&& self.delegated_of(a) == old.delegated_of(a)
        &&& forall|b: Seq<char>| #[trigger] self.account_withdrawable(b) == old.account_withdrawable(b)
    }

    /// Whether the account-level totals of a change of `addr`'s powers stay in range.
    pub open spec fn plan_fits(&self, addr: Seq<char>, ov: int, nv: int, or: int, nr: int) -> bool {
        &&& self.account_votes(addr) - ov + nv <= u128::MAX
        &&& rec_sum(self.stakes@, 3, Seq::empty(), 0) - ov + nv <= u128::MAX
        &&& self.account_rewards(addr) - or + nr <= u128::MAX
        &&& self.total_rewards - or + nr <= u128::MAX
        &&& nr <= i128::MAX
        &&& or <= i128::MAX
        &&& crate::distribution::correction_fits(self.correction_of(addr), self.distribution.shares_per_point as int, nr - or)
    }

    /// Computes the account-level totals after `addr`'s votes drop by `ov`
    /// and rise by `nv`, and its rewards drop by `or` and rise by `nr`.
    fn plan_account(&self, addr: &String, ov: u128, nv: u128, or: u128, nr: u128) -> (r: Option<AccountPlan>)
        requires
            self.wf(),
            ov <= self.account_votes(addr@),
            or <= self.account_rewards(addr@),
        ensures
            r is Some <==> self.plan_fits(addr@, ov as int, nv as int, or as int, nr as int),
            r is Some ==> {
                let p = r->0;
                &&& p.member_old == self.account_votes(addr@)
                &&& p.member_new == self.account_votes(addr@) - ov + nv
                &&& p.total_votes_new == rec_sum(self.stakes@, 3, Seq::empty(), 0) - ov + nv
                &&& p.points_new == self.account_rewards(addr@) - or + nr
                &&& p.total_rewards_new == self.total_rewards - or + nr
                &&& p.correction_new == self.correction_of(addr@) - self.distribution.shares_per_point * (nr - or)
            },
    {
        proof {
            lemma_account_le_total(self.stakes@, addr@);
        }
        let member_old = self.votes.power(addr);
        let total_votes = self.votes.total();
        let member_new = match (member_old - ov).checked_add(nv) {
            Some(v) => v,
            None => {
                return None;
            },
        };
        let total_votes_new = match (total_votes - ov).checked_add(nv) {
            Some(v) => v,
            None => {
                return None;
            },
        };
        let ri = self.find_reward(addr);
        proof {
            lemma_reward_index(self.rewards@, addr@);
        }
        let (points, mut adjustment) = match ri {
            Some(i) => (self.rewards[i].points, WithdrawAdjustment::new(addr.clone())),
            None => (0, WithdrawAdjustment::new(addr.clone())),
        };
        if let Some(i) = ri {
            adjustment.shares_correction = self.rewards[i].adjustment.shares_correction;
        }
        let points_new = match (points - or).checked_add(nr) {
            Some(v) => v,
            None => {
                return None;
            },
        };
        let total_rewards_new = match (self.total_rewards - or).checked_add(nr) {
            Some(v) => v,
            None => {
                return None;
            },
        };
        if nr > i128::MAX as u128 || or > i128::MAX as u128 {
            return None;
        }
        let diff = nr as i128 - or as i128;
        match crate::distribution::apply_points_correction(&mut adjustment, self.distribution.shares_per_point, diff) {
            Ok(()) => {},
            Err(_) => {
                return None;
            },
        }
        Some(AccountPlan {
            member_old,
            member_new,
            total_votes_new,
            points_new,
            total_rewards_new,
            correction_new: adjustment.shares_correction,
        })
    }
}

impl Ledger {
    /// Every invariant but those tying `addr`'s account-level totals to its
    /// records, which `plan` brings back.
    spec fn wf_pending(&self, addr: Seq<char>, plan: AccountPlan, height: u64) -> bool {
        &&& self.wf_config()
        &&& self.wf_records()
        &&& self.wf_buckets()
        &&& self.wf_claims()
        &&& self.wf_total()
        &&& self.votes.wf()
        &&& self.votes.last_height() <= height
        &&& plan.member_old == current_power(self.votes.members@, addr)
        &&& plan.member_new == self.account_votes(addr)
        &&& forall|a: Seq<char>| a != addr ==> #[trigger] current_power(self.votes.members@, a) == self.account_votes(a)
        &&& (plan.member_new == plan.member_old ==> total_at(self.votes.totals@, u64::MAX as int) == plan.total_votes_new)
        &&& plan.total_votes_new == rec_sum(self.stakes@, 3, Seq::empty(), 0)
        &&& plan.points_new == self.account_rewards(addr)
        &&& forall|a: Seq<char>| a != addr ==> #[trigger] self.account_rewards(a) == self.points_of(a)
        &&& plan.total_rewards_new == rec_sum(self.stakes@, 4, Seq::empty(), 0)
        &&& (plan.points_new == self.points_of(addr) ==> self.total_rewards == plan.total_rewards_new)
        &&& plan.correction_new == self.correction_of(addr) - self.distribution.shares_per_point * (plan.points_new - self.points_of(addr))
        &&& plan.total_rewards_new - self.total_rewards == plan.points_new - self.points_of(addr)
        &&& self.wf_pool()
        &&& forall|i: int, j: int| 0 <= i < j < self.rewards@.len() ==> self.rewards@[i].addr@ != self.rewards@[j].addr@
        &&& forall|i: int| 0 <= i < self.rewards@.len() ==> {
            let r = #[trigger] self.rewards@[i];
            let s = adjusted_shares(self.distribution.shares_per_point as int, r.points as int, r.adjustment.shares_correction as int);
            s >= 0 && s / (SHARES_UNIT as int) >= r.adjustment.withdrawn_rewards
        }
    }

    /// Writes the account-level totals of `plan` for `addr`, and returns one
    /// notification per observer when its voting power changed.
    fn apply_account(&mut self, addr: &String, plan: AccountPlan, height: u64) -> (r: Vec<Outbound>)
        requires
            old(self).wf_pending(addr@, plan, height),
        ensures
            final(self).wf(),
            final(self).config == old(self).config,
            final(self).stake_config == old(self).stake_config,
            final(self).stakes == old(self).stakes,
            final(self).claims == old(self).claims,
            final(self).hooks == old(self).hooks,
            final(self).admin == old(self).admin,
            final(self).total_staked == old(self).total_staked,
            final(self).distribution == old(self).distribution,
            plan.member_new == plan.member_old ==> r@.len() == 0 && final(self).votes == old(self).votes,
            plan.member_new != plan.member_old ==> hook_batch(r@, old(self).hooks@, addr@,
                membership(plan.member_old as int), membership(plan.member_new as int)),
            plan.member_new != plan.member_old ==> final(self).votes.last_height() == height,
            forall|a: Seq<char>, h: int| h < height ==> #[trigger] crate::voting::power_at(final(self).votes.members@, a, h)
                == crate::voting::power_at(old(self).votes.members@, a, h),
            forall|h: int| h < height ==> #[trigger] total_at(final(self).votes.totals@, h) == total_at(old(self).votes.totals@, h),
            forall|a: Seq<char>| a != addr@ ==> #[trigger] final(self).reward_terms(a) == old(self).reward_terms(a),
            final(self).points_of(addr@) == plan.points_new,
            final(self).correction_of(addr@) == old(self).correction_of(addr@)
                - old(self).distribution.shares_per_point * (plan.points_new - old(self).points_of(addr@)),
            final(self).withdrawn_of(addr@) == old(self).withdrawn_of(addr@),
            final(self).delegated_of(addr@) == old(self).delegated_of(addr@),
    {
        let mut msgs: Vec<Outbound> = Vec::new();
        if plan.member_new != plan.member_old {
            self.votes.set_power(addr.clone(), height, plan.member_new);
            self.votes.set_total(height, plan.total_votes_new);
            let old_m = if plan.member_old == 0 { None } else { Some(plan.member_old) };
            let new_m = if plan.member_new == 0 { None } else { Some(plan.member_new) };
            let mut k: usize = 0;
            while k < self.hooks.len()
                invariant
                    0 <= k <= self.hooks@.len(),
                    self.hooks == old(self).hooks,
                    msgs@.len() == k,
                    old_m == membership(plan.member_old as int),
                    new_m == membership(plan.member_new as int),
                    forall|q: int| 0 <= q < k ==> match #[trigger] msgs@[q] {
                        Outbound::MemberChangedHook { hook, diffs } => hook@ == self.hooks@[q]@ && diffs@.len() == 1
                            && diffs@[0].key@ == addr@ && diffs@[0].old == old_m && diffs@[0].new == new_m,
                        _ => false,
                    },
                decreases self.hooks@.len() - k,
            {
                let mut diffs: Vec<MemberDiff> = Vec::new();
                diffs.push(MemberDiff { key: addr.clone(), old: old_m, new: new_m });
                msgs.push(Outbound::MemberChangedHook { hook: self.hooks[k].clone(), diffs });
                k = k + 1;
            }
        }
        let ghost s0 = self.rewards@;
        let ri = self.find_reward(addr);
        proof {
            lemma_reward_index(self.rewards@, addr@);
        }
        let old_points: u128 = match ri {
            Some(i) => self.rewards[i].points,
            None => 0,
        };
        if plan.points_new != old_points {
            match ri {
                Some(i) => {
                    let e = RewardAccount {
                        addr: self.rewards[i].addr.clone(),
                        points: plan.points_new,
                        adjustment: WithdrawAdjustment {
                            shares_correction: plan.correction_new,
                            withdrawn_rewards: self.rewards[i].adjustment.withdrawn_rewards,
                            delegated: self.rewards[i].adjustment.delegated.clone(),
                        },
                    };
                    self.rewards.set(i, e);
                    proof {
                        assert forall|a: Seq<char>| reward_index(self.rewards@, a) == reward_index(s0, a) by {
                            lemma_reward_index_update(s0, i as int, e, a);
                        };
                        crate::distribution::lemma_power_change_keeps_earned(
                            old(self).distribution.shares_per_point as int, s0[i as int].points as int,
                            s0[i as int].adjustment.shares_correction as int, plan.points_new - s0[i as int].points, 0);
                        let spp = self.distribution.shares_per_point as int;
                        lemma_reward_sum_update(s0, i as int, e, 0, 0);
                        lemma_reward_sum_update(s0, i as int, e, 1, spp);
                        lemma_reward_sum_update(s0, i as int, e, 2, 0);
                    }
                },
                None => {
                    let e = RewardAccount {
                        addr: addr.clone(),
                        points: plan.points_new,
                        adjustment: WithdrawAdjustment {
                            shares_correction: plan.correction_new,
                            withdrawn_rewards: 0,
                            delegated: addr.clone(),
                        },
                    };
                    self.rewards.push(e);
                    proof {
                        assert forall|a: Seq<char>| reward_index(self.rewards@, a) == if a == addr@ { s0.len() as int } else { reward_index(s0, a) } by {
                            assert(self.rewards@.drop_last() =~= s0);
                        };
                        crate::distribution::lemma_power_change_keeps_earned(
                            old(self).distribution.shares_per_point as int, 0, 0, plan.points_new as int, 0);
                        let spp = self.distribution.shares_per_point as int;
                        lemma_reward_sum_push(s0, e, 0, 0);
                        lemma_reward_sum_push(s0, e, 1, spp);
                        lemma_reward_sum_push(s0, e, 2, 0);
                    }
                },
            }
            self.total_rewards = plan.total_rewards_new;
        }
        proof {
            assert(forall|a: Seq<char>| a != addr@ ==> reward_index(self.rewards@, a) == reward_index(s0, a));
            assert(forall|j: int| 0 <= j < s0.len() && s0[j].addr@ != addr@ ==> self.rewards@[j] == s0[j]);
            assert forall|a: Seq<char>| a != addr@ implies self.points_of(a) == old(self).points_of(a) by {
                lemma_reward_index(s0, a);
            };
            assert forall|a: Seq<char>| a != addr@ implies #[trigger] self.reward_terms(a) == old(self).reward_terms(a) by {
                lemma_reward_index(s0, a);
            };
            if plan.points_new == old_points {
                let spp0 = old(self).distribution.shares_per_point as int;
                let d = plan.points_new - old_points;
                assert(spp0 * d == 0) by (nonlinear_arith)
                    requires d == 0;
            }
            lemma_reward_index(self.rewards@, addr@);
        }
        proof {
            assert forall|a: Seq<char>| #[trigger] current_power(self.votes.members@, a) == self.account_votes(a) by {
                if a != addr@ {
                    assert(current_power(old(self).votes.members@, a) == old(self).account_votes(a));
                }
            };
            assert forall|a: Seq<char>| #[trigger] self.account_rewards(a) == self.points_of(a) by {
                if a != addr@ {
                    assert(old(self).account_rewards(a) == old(self).points_of(a));
                }
            };
            assert forall|i: int| 0 <= i < self.rewards@.len() implies {
                let r = #[trigger] self.rewards@[i];
                let s = adjusted_shares(self.distribution.shares_per_point as int, r.points as int, r.adjustment.shares_correction as int);
                s >= 0 && s / (SHARES_UNIT as int) >= r.adjustment.withdrawn_rewards
            } by {
                if i < s0.len() {
                    assert(old(self).rewards@[i] == s0[i]);
                }
            };
        }
        msgs
    }
}

impl Ledger {
    /// Stores `rec` as the record of its account and bucket, replacing the
    /// record at `i` or appending it, and sets the bucket's stake to `staked`.
    fn put_record(&mut self, i: Option<usize>, rec: StakeRecord, j: usize, staked: u128)
        requires
            old(self).wf_config(),
            old(self).wf_records(),
            old(self).wf_buckets(),
            j < old(self).periods().len(),
            old(self).periods()[j as int] == rec.unbonding_period,
            i is Some ==> i->0 == record_index(old(self).stakes@, rec.addr@, rec.unbonding_period),
            i is None ==> record_index(old(self).stakes@, rec.addr@, rec.unbonding_period) == -1,
            old(self).wf_record(rec),
            staked == old(self).bucket_stake(rec.unbonding_period) - old(self).stake_of(rec.addr@, rec.unbonding_period)
                + rec.info.total(),
        ensures
            final(self).wf_config(),
            final(self).wf_records(),
            final(self).wf_buckets(),
            final(self).config == old(self).config,
            final(self).claims == old(self).claims,
            final(self).votes == old(self).votes,
            final(self).rewards == old(self).rewards,
            final(self).hooks == old(self).hooks,
            final(self).admin == old(self).admin,
            final(self).total_rewards == old(self).total_rewards,
            final(self).total_staked == old(self).total_staked,
            final(self).distribution == old(self).distribution,
            final(self).stake_config@ == old(self).stake_config@.update(j as int, StakeMultipliers { staked, ..old(self).stake_config@[j as int] }),
            forall|k: int, a: Seq<char>, p: u64| #[trigger] rec_sum(final(self).stakes@, k, a, p) == rec_sum(old(self).stakes@, k, a, p)
                - (if i is Some { sel(old(self).stakes@[i->0 as int], k, a, p) } else { 0 }) + sel(rec, k, a, p),
            forall|a: Seq<char>, p: u64| #[trigger] final(self).stake_of(a, p) == if a == rec.addr@ && p == rec.unbonding_period {
                rec.info.total()
            } else {
                old(self).stake_of(a, p)
            },
            forall|a: Seq<char>, p: u64| !(a == rec.addr@ && p == rec.unbonding_period) ==>
                #[trigger] record_index(final(self).stakes@, a, p) == record_index(old(self).stakes@, a, p),
            record_index(final(self).stakes@, rec.addr@, rec.unbonding_period) >= 0,
            final(self).stakes@[record_index(final(self).stakes@, rec.addr@, rec.unbonding_period)] == rec,
            forall|q: int| 0 <= q < old(self).stakes@.len() && (i is None || q != i->0) ==> #[trigger] final(self).stakes@[q] == old(self).stakes@[q],
    {
        let ghost s0 = self.stakes@;
        let ghost addr0 = rec.addr@;
        let ghost period0 = rec.unbonding_period;
        proof {
            lemma_record_index(s0, addr0, period0);
        }
        match i {
            Some(i) => {
                self.stakes.set(i, rec);
                proof {
                    assert forall|k: int, a: Seq<char>, p: u64| #[trigger] rec_sum(self.stakes@, k, a, p) == rec_sum(s0, k, a, p)
                        - sel(s0[i as int], k, a, p) + sel(self.stakes@[i as int], k, a, p) by {
                        lemma_rec_sum_update(s0, i as int, self.stakes@[i as int], k, a, p);
                    };
                    assert forall|a: Seq<char>, p: u64| record_index(self.stakes@, a, p) == record_index(s0, a, p) by {
                        lemma_record_index_update(s0, i as int, self.stakes@[i as int], a, p);
                    };
                }
            },
            None => {
                self.stakes.push(rec);
                proof {
                    assert forall|k: int, a: Seq<char>, p: u64| #[trigger] rec_sum(self.stakes@, k, a, p) == rec_sum(s0, k, a, p)
                        + sel(self.stakes@.last(), k, a, p) by {
                        lemma_rec_sum_push(s0, self.stakes@.last(), k, a, p);
                    };
                    assert(self.stakes@.drop_last() =~= s0);
                    assert forall|a: Seq<char>, p: u64| record_index(self.stakes@, a, p) == if a == addr0 && p == period0 {
                        s0.len() as int
                    } else {
                        record_index(s0, a, p)
                    } by {};
                }
            },
        }
        let mut m = self.stake_config[j];
        m.staked = staked;
        self.stake_config.set(j, m);
        proof {
            let ps = self.periods();
            assert forall|q: int| 0 <= q < ps.len() implies #[trigger] self.stake_config@[q].staked == self.bucket_stake(ps[q]) by {
                if q != j {
                    assert(old(self).stake_config@[q].staked == old(self).bucket_stake(ps[q]));
                    assert(ps[q] != period0);
                }
            };
            assert(forall|q: int| 0 <= q < ps.len() ==> self.stake_config@[q].voting == old(self).stake_config@[q].voting
                && self.stake_config@[q].reward == old(self).stake_config@[q].reward);
            assert forall|r: StakeRecord| old(self).wf_record(r) implies self.wf_record(r) by {
                lemma_period_index(ps, r.unbonding_period);
            };
            assert forall|a: Seq<char>, p: u64| #[trigger] self.stake_of(a, p) == if a == addr0 && p == period0 {
                rec.info.total()
            } else {
                old(self).stake_of(a, p)
            } by {
                lemma_record_index(s0, a, p);
            };
            lemma_record_index(self.stakes@, addr0, period0);
            assert forall|x: int| 0 <= x < self.stakes@.len() implies self.wf_record(#[trigger] self.stakes@[x]) by {
                if x < s0.len() && (i is None || x != i->0) {
                    assert(old(self).wf_record(s0[x]));
                }
            };
        }
    }
}

pub proof fn lemma_record_index_update(s: Seq<StakeRecord>, i: int, e: StakeRecord, a: Seq<char>, p: u64)
    requires
        0 <= i < s.len(),
        e.addr@ == s[i].addr@,
        e.unbonding_period == s[i].unbonding_period,
    ensures
        record_index(s.update(i, e), a, p) == record_index(s, a, p),
    decreases s.len(),
{
    if i < s.len() - 1 {
        lemma_record_index_update(s.drop_last(), i, e, a, p);
        assert(s.update(i, e).drop_last() =~= s.drop_last().update(i, e));
    } else {
        assert(s.update(i, e).drop_last() =~= s.drop_last());
    }
}

pub proof fn lemma_record_le_account(s: Seq<StakeRecord>, i: int, a: Seq<char>)
    requires
        0 <= i < s.len(),
        s[i].addr@ == a,
    ensures
        s[i].info.votes <= rec_sum(s, 1, a, 0),
        s[i].info.rewards <= rec_sum(s, 2, a, 0),
    decreases s.len(),
{
    lemma_account_le_total(s.drop_last(), a);
    if i < s.len() - 1 {
        lemma_record_le_account(s.drop_last(), i, a);
    }
}

impl Ledger {
    /// Frame of a successful change of stake: what no such change touches.
    pub open spec fn same_setup(&self, other: &Ledger) -> bool {
        &&& self.config == other.config
        &&& self.hooks == other.hooks
        &&& self.admin == other.admin
        &&& self.distribution == other.distribution
    }

    /// Whether bonding `amount` for `a` in bucket `p` keeps every amount in
    /// range: the stake of the bucket and of the ledger, the powers of the
    /// new stake, and the account-level totals.
    pub open spec fn bond_fits(&self, a: Seq<char>, amount: int, p: u64) -> bool {
        let j = self.bucket(p);
        let st = self.stake_of(a, p);
        let m = self.stake_config@[j];
        &&& m.staked + amount <= u128::MAX
        &&& self.total_staked.staked + amount <= u128::MAX
        &&& st + amount <= u128::MAX
        &&& power_fits(self.config.min_bond as int, st + amount, m.voting as int)
        &&& power_fits(self.config.min_bond as int, st + amount, m.reward as int)
        &&& self.plan_fits(a, self.power_in(j, st, true), self.power_in(j, st + amount, true),
            self.power_in(j, st, false), self.power_in(j, st + amount, false))
    }

    /// Bonds `amount` of `sender` into the bucket of `unbonding_period`. The
    /// tokens arrive through the token contract `cw20_sender`, which must be the
    /// configured one.
    pub fn execute_bond(&mut self, cw20_sender: &String, sender: String, amount: u128, unbonding_period: u64, height: u64)
        -> (r: Result<Vec<Outbound>, ContractError>)
        requires
            old(self).wf(),
            old(self).votes.last_height() <= height,
        ensures
            final(self).wf(),
            amount == 0 ==> r == Err::<Vec<Outbound>, ContractError>(ContractError::NoFunds),
            amount != 0 && cw20_sender@ != old(self).config.cw20_contract@ ==> r is Err && r->Err_0 == (ContractError::Cw20AddressesNotMatch {
                got: *cw20_sender,
                expected: old(self).config.cw20_contract,
            }),
            amount != 0 && cw20_sender@ == old(self).config.cw20_contract@ && old(self).bucket(unbonding_period) < 0 ==> r
                == Err::<Vec<Outbound>, ContractError>(ContractError::NoUnbondingPeriodFound(unbonding_period)),
            amount != 0 && cw20_sender@ == old(self).config.cw20_contract@ && old(self).bucket(unbonding_period) >= 0 ==> (r is Ok
                <==> old(self).bond_fits(sender@, amount as int, unbonding_period)),
            amount != 0 && cw20_sender@ == old(self).config.cw20_contract@ && old(self).bucket(unbonding_period) >= 0 && r is Err
                ==> r->Err_0 is Overflow,
            r is Err ==> *final(self) == *old(self),
            r is Ok ==> final(self).votes.last_height() <= height,
            r is Ok ==> {
                let j = old(self).bucket(unbonding_period);
                &&& final(self).same_setup(old(self))
                &&& final(self).claims == old(self).claims
                &&& final(self).stake_of(sender@, unbonding_period) == old(self).stake_of(sender@, unbonding_period) + amount
                &&& forall|a: Seq<char>, p: u64| !(a == sender@ && p == unbonding_period) ==>
                    #[trigger] final(self).stake_of(a, p) == old(self).stake_of(a, p)
                &&& final(self).stake_config@ == old(self).stake_config@.update(j, StakeMultipliers {
                    staked: (old(self).stake_config@[j].staked + amount) as u128,
                    ..old(self).stake_config@[j]
                })
                &&& final(self).total_staked == TokenInfo {
                    staked: (old(self).total_staked.staked + amount) as u128,
                    ..old(self).total_staked
                }
                &&& forall|a: Seq<char>, h: int| h < height ==> #[trigger] crate::voting::power_at(final(self).votes.members@, a, h)
                    == crate::voting::power_at(old(self).votes.members@, a, h)
                &&& forall|h: int| h < height ==> #[trigger] total_at(final(self).votes.totals@, h) == total_at(old(self).votes.totals@, h)
                &&& final(self).rewards_kept(old(self), sender@)
                &&& final(self).account_votes(sender@) == old(self).account_votes(sender@) ==> r->Ok_0@.len() == 0
                &&& final(self).account_votes(sender@) != old(self).account_votes(sender@) ==> hook_batch(r->Ok_0@,
                    old(self).hooks@, sender@, membership(old(self).account_votes(sender@)),
                    membership(final(self).account_votes(sender@)))
            },
    {
        if amount == 0 {
            return Err(ContractError::NoFunds);
        }
        if *cw20_sender != self.config.cw20_contract {
            return Err(ContractError::Cw20AddressesNotMatch { got: cw20_sender.clone(), expected: self.config.cw20_contract.clone() });
        }
        let j = match self.find_period(unbonding_period) {
            Some(j) => j,
            None => {
                return Err(ContractError::NoUnbondingPeriodFound(unbonding_period));
            },
        };
        proof {
            lemma_period_index(self.periods(), unbonding_period);
        }
        let mult = self.stake_config[j];
        let bucket_new = match mult.staked.checked_add(amount) {
            Some(v) => v,
            None => {
                return Err(ContractError::Overflow(OverflowError { operation: OverflowOperation::Add, operand1: mult.staked, operand2: amount }));
            },
        };
        let token_new = match self.total_staked.staked.checked_add(amount) {
            Some(v) => v,
            None => {
                return Err(ContractError::Overflow(OverflowError { operation: OverflowOperation::Add, operand1: self.total_staked.staked, operand2: amount }));
            },
        };
        let ri = self.find_record(&sender, unbonding_period);
        proof {
            lemma_record_index(self.stakes@, sender@, unbonding_period);
        }
        let mut info = match ri {
            Some(i) => self.stakes[i].info.duplicate(),
            None => BondingInfo::new(),
        };
        proof {
            lemma_account_le_total(self.stakes@, sender@);
            if let Some(i) = ri {
                assert(self.wf_record(self.stakes@[i as int]));
                lemma_record_le_account(self.stakes@, i as int, sender@);
            }
        }
        let old_total = info.total_stake();
        assert(old_total == old(self).stake_of(sender@, unbonding_period));
        let new_total = match old_total.checked_add(amount) {
            Some(v) => v,
            None => {
                return Err(ContractError::Overflow(OverflowError { operation: OverflowOperation::Add, operand1: old_total, operand2: amount }));
            },
        };
        let ov = info.votes;
        let or = info.rewards;
        let nv = match calc_power(self.config.min_bond, self.config.tokens_per_power, new_total, mult.voting) {
            Some(v) => v,
            None => {
                return Err(ContractError::Overflow(OverflowError { operation: OverflowOperation::Mul, operand1: new_total, operand2: mult.voting }));
            },
        };
        let nr = match calc_power(self.config.min_bond, self.config.tokens_per_power, new_total, mult.reward) {
            Some(v) => v,
            None => {
                return Err(ContractError::Overflow(OverflowError { operation: OverflowOperation::Mul, operand1: new_total, operand2: mult.reward }));
            },
        };
        let plan = match self.plan_account(&sender, ov, nv, or, nr) {
            Some(p) => p,
            None => {
                return Err(ContractError::Overflow(OverflowError { operation: OverflowOperation::Add, operand1: ov, operand2: nv }));
            },
        };
        info.add_unlocked_tokens(amount);
        info.votes = nv;
        info.rewards = nr;
        let rec = StakeRecord { addr: sender.clone(), unbonding_period, info };
        assert(rec.info.total() == old(self).stake_of(sender@, unbonding_period) + amount);
        let ghost s0 = self.stakes@;
        self.put_record(ri, rec, j, bucket_new);
        let ghost mid = self.stakes@;
        let ghost midl = *self;
        assert(forall|a: Seq<char>, p: u64| #[trigger] self.stake_of(a, p) == if a == sender@ && p == unbonding_period {
                old(self).stake_of(sender@, unbonding_period) + amount
            } else {
                old(self).stake_of(a, p)
            });
        self.total_staked.staked = token_new;
        proof {
            lemma_buckets_sum_update(old(self).stake_config@, j as int, self.stake_config@[j as int]);
            assert forall|a: Seq<char>| a != sender@ implies #[trigger] current_power(self.votes.members@, a) == self.account_votes(a) by {
                assert(rec_sum(self.stakes@, 1, a, 0) == rec_sum(s0, 1, a, 0));
                assert(current_power(old(self).votes.members@, a) == old(self).account_votes(a));
            };
            assert forall|a: Seq<char>| a != sender@ implies #[trigger] self.account_rewards(a) == self.points_of(a) by {
                assert(rec_sum(self.stakes@, 2, a, 0) == rec_sum(s0, 2, a, 0));
                assert(old(self).account_rewards(a) == old(self).points_of(a));
            };
            assert(old(self).account_rewards(sender@) == old(self).points_of(sender@));
        }
        let ghost pre = *self;
        let msgs = self.apply_account(&sender, plan, height);
        proof {
            lemma_rewards_kept(*self, pre, *old(self), sender@);
        }
        proof {
            assert(self.stakes@ == mid);
            assert forall|a: Seq<char>, p: u64| #[trigger] self.stake_of(a, p) == if a == sender@ && p == unbonding_period {
                old(self).stake_of(sender@, unbonding_period) + amount
            } else {
                old(self).stake_of(a, p)
            } by {
                assert(midl.stake_of(a, p) == self.stake_of(a, p));
            };
            let jj = old(self).bucket(unbonding_period);
            assert(self.same_setup(old(self)));
            assert(self.stake_of(sender@, unbonding_period) == old(self).stake_of(sender@, unbonding_period) + amount);
            assert(self.stake_config@ == old(self).stake_config@.update(jj, StakeMultipliers {
                    staked: (old(self).stake_config@[jj].staked + amount) as u128,
                    ..old(self).stake_config@[jj]
                }));
            assert(self.total_staked == TokenInfo {
                    staked: (old(self).total_staked.staked + amount) as u128,
                    ..old(self).total_staked
                });
        }
        Ok(msgs)
    }
}

impl Ledger {
    /// Claims of `a`, in the order they were made.
    pub open spec fn claims_of(&self, a: Seq<char>) -> Seq<Claim> {
        let i = claims_index(self.claims@, a);
        if i >= 0 { self.claims@[i].claims@ } else { Seq::empty() }
    }

    /// Appends `claim` to the claims of `addr`.
    #[verifier::rlimit(50)]
    fn add_claim(&mut self, addr: &String, claim: Claim)
        requires
            old(self).wf_claims(),
            claims_sum(old(self).claims_of(addr@)) + claim.amount <= u128::MAX,
        ensures
            final(self).wf_claims(),
            final(self).claims_of(addr@) == old(self).claims_of(addr@).push(claim),
            forall|a: Seq<char>| a != addr@ ==> #[trigger] final(self).claims_of(a) == old(self).claims_of(a),
            all_claims_sum(final(self).claims@) == all_claims_sum(old(self).claims@) + claim.amount,
            final(self).config == old(self).config,
            final(self).stake_config == old(self).stake_config,
            final(self).stakes == old(self).stakes,
            final(self).votes == old(self).votes,
            final(self).rewards == old(self).rewards,
            final(self).hooks == old(self).hooks,
            final(self).admin == old(self).admin,
            final(self).total_rewards == old(self).total_rewards,
            final(self).total_staked == old(self).total_staked,
            final(self).distribution == old(self).distribution,
    {
        let ghost s0 = self.claims@;
        proof {
            lemma_claims_index(s0, addr@);
        }
        match self.find_claims(addr) {
            Some(ci) => {
                let mut entry = self.claims.remove(ci);
                proof {
                    crate::claims::lemma_claims_push(entry.claims@, claim);
                    lemma_all_claims_remove(s0, ci as int);
                    assert(s0.remove(ci as int) =~= self.claims@);
                }
                entry.claims.push(claim);
                let ghost s1 = self.claims@;
                self.claims.push(entry);
                proof {
                    lemma_all_claims_push(s1, self.claims@.last());
                    assert(self.claims@.drop_last() =~= s1);
                    assert(s1 =~= s0.remove(ci as int));
                    assert forall|a: Seq<char>| #[trigger] self.claims_of(a) == if a == addr@ {
                        old(self).claims_of(addr@).push(claim)
                    } else {
                        old(self).claims_of(a)
                    } by {
                        lemma_claims_index(self.claims@, a);
                        lemma_claims_index(s0, a);
                        let k = claims_index(self.claims@, a);
                        let k0 = claims_index(s0, a);
                        if a != addr@ {
                            if k0 >= 0 {
                                let kk = if k0 < ci { k0 } else { k0 - 1 };
                                assert(self.claims@[kk].addr@ == a);
                                if k != kk {
                                    assert(self.claims@[k].addr@ == a);
                                    if k < s1.len() {
                                        let ko = if k < ci { k } else { k + 1 };
                                        assert(s0[ko].addr@ == a);
                                    }
                                }
                            } else if k >= 0 {
                                if k < s1.len() {
                                    let ko = if k < ci { k } else { k + 1 };
                                    assert(s0[ko].addr@ == a);
                                }
                            }
                        } else {
                            if k < s1.len() && k >= 0 {
                                let ko = if k < ci { k } else { k + 1 };
                                assert(s0[ko].addr@ == a);
                            }
                        }
                    };
                    assert forall|i: int, j: int| 0 <= i < j < self.claims@.len() implies self.claims@[i].addr@ != self.claims@[j].addr@ by {
                        if j < s1.len() {
                            let io = if i < ci { i } else { i + 1 };
                            let jo = if j < ci { j } else { j + 1 };
                            assert(s0[io].addr@ != s0[jo].addr@);
                        } else {
                            let io = if i < ci { i } else { i + 1 };
                            assert(s0[io].addr@ != s0[ci as int].addr@);
                        }
                    };
                    assert forall|i: int| 0 <= i < self.claims@.len() implies claims_sum((#[trigger] self.claims@[i]).claims@) <= u128::MAX by {
                        if i < s1.len() {
                            let io = if i < ci { i } else { i + 1 };
                            assert(self.claims@[i] == s0[io]);
                        }
                    };
                }
            },
            None => {
                let mut claims: Vec<Claim> = Vec::new();
                claims.push(claim);
                self.claims.push(AccountClaims { addr: addr.clone(), claims });
                proof {
                    lemma_all_claims_push(s0, self.claims@.last());
                    crate::claims::lemma_claims_push(Seq::<Claim>::empty(), claim);
                    assert(Seq::<Claim>::empty().push(claim).drop_last() =~= Seq::<Claim>::empty());
                    assert(self.claims@.drop_last() =~= s0);
                    assert(claims@ =~= Seq::<Claim>::empty().push(claim));
                    assert forall|a: Seq<char>| a != addr@ implies #[trigger] self.claims_of(a) == old(self).claims_of(a) by {
                        lemma_claims_index(s0, a);
                    };
                }
            },
        }
    }

    /// Whether unbonding `amount` for `a` from bucket `p` at `now` keeps every
    /// amount in range: the claim's maturity, the account's claims, the
    /// unbonding total, the powers of the new stake and the account-level totals.
    pub open spec fn unbond_fits(&self, a: Seq<char>, amount: int, p: u64, now: u64) -> bool {
        let j = self.bucket(p);
        let st = self.stake_of(a, p);
        let m = self.stake_config@[j];
        &&& now + p <= u64::MAX
        &&& claims_sum(self.claims_of(a)) + amount <= u128::MAX
        &&& self.total_staked.unbonding + amount <= u128::MAX
        &&& power_fits(self.config.min_bond as int, st - amount, m.voting as int)
        &&& power_fits(self.config.min_bond as int, st - amount, m.reward as int)
        &&& self.plan_fits(a, self.power_in(j, st, true), self.power_in(j, st - amount, true),
            self.power_in(j, st, false), self.power_in(j, st - amount, false))
    }

    /// Unbonds `amount` of `sender`'s stake in the bucket of
    /// `unbonding_period`: matured locks are freed first, the free stake must
    /// cover the amount, and a claim maturing after the period is queued.
    pub fn execute_unbond(&mut self, sender: String, amount: u128, unbonding_period: u64, now: u64, height: u64)
        -> (r: Result<Vec<Outbound>, ContractError>)
        requires
            old(self).wf(),
            old(self).votes.last_height() <= height,
        ensures
            final(self).wf(),
            amount == 0 ==> r == Err::<Vec<Outbound>, ContractError>(ContractError::InvalidZeroAmount),
            amount != 0 && old(self).bucket(unbonding_period) < 0 ==> r
                == Err::<Vec<Outbound>, ContractError>(ContractError::NoUnbondingPeriodFound(unbonding_period)),
            amount != 0 && old(self).bucket(unbonding_period) >= 0 && amount > old(self).unlocked_of(sender@, unbonding_period, now)
                ==> r == Err::<Vec<Outbound>, ContractError>(ContractError::Overflow(OverflowError {
                    operation: OverflowOperation::Sub,
                    operand1: old(self).unlocked_of(sender@, unbonding_period, now) as u128,
                    operand2: amount,
                })),
            amount != 0 && old(self).bucket(unbonding_period) >= 0 && r is Err ==> r->Err_0 is Overflow,
            amount != 0 && old(self).bucket(unbonding_period) >= 0 ==> (r is Ok <==> amount <= old(self).unlocked_of(sender@, unbonding_period, now)
                && old(self).unbond_fits(sender@, amount as int, unbonding_period, now)),
            r is Ok ==> final(self).votes.last_height() <= height,
            r is Err ==> *final(self) == *old(self),
            r is Ok ==> {
                let j = old(self).bucket(unbonding_period);
                &&& amount <= old(self).unlocked_of(sender@, unbonding_period, now)
                &&& final(self).same_setup(old(self))
                &&& final(self).stake_of(sender@, unbonding_period) == old(self).stake_of(sender@, unbonding_period) - amount
                &&& forall|a: Seq<char>, p: u64| !(a == sender@ && p == unbonding_period) ==>
                    #[trigger] final(self).stake_of(a, p) == old(self).stake_of(a, p)
                &&& final(self).stake_config@ == old(self).stake_config@.update(j, StakeMultipliers {
                    staked: (old(self).stake_config@[j].staked - amount) as u128,
                    ..old(self).stake_config@[j]
                })
                &&& final(self).claims_of(sender@) == old(self).claims_of(sender@).push(
                    Claim { amount, release_at: (now + unbonding_period) as u64 })
                &&& forall|a: Seq<char>| a != sender@ ==> #[trigger] final(self).claims_of(a) == old(self).claims_of(a)
                &&& final(self).total_staked == TokenInfo {
                    staked: (old(self).total_staked.staked - amount) as u128,
                    unbonding: (old(self).total_staked.unbonding + amount) as u128,
                }
                &&& forall|a: Seq<char>, h: int| h < height ==> #[trigger] crate::voting::power_at(final(self).votes.members@, a, h)
                    == crate::voting::power_at(old(self).votes.members@, a, h)
                &&& forall|h: int| h < height ==> #[trigger] total_at(final(self).votes.totals@, h) == total_at(old(self).votes.totals@, h)
                &&& final(self).rewards_kept(old(self), sender@)
                &&& final(self).account_votes(sender@) == old(self).account_votes(sender@) ==> r->Ok_0@.len() == 0
                &&& final(self).account_votes(sender@) != old(self).account_votes(sender@) ==> hook_batch(r->Ok_0@,
                    old(self).hooks@, sender@, membership(old(self).account_votes(sender@)),
                    membership(final(self).account_votes(sender@)))
            },
    {
        if amount == 0 {
            return Err(ContractError::InvalidZeroAmount);
        }
        let j = match self.find_period(unbonding_period) {
            Some(j) => j,
            None => {
                return Err(ContractError::NoUnbondingPeriodFound(unbonding_period));
            },
        };
        proof {
            lemma_period_index(self.periods(), unbonding_period);
            self.lemma_unlocked_le_bucket(sender@, unbonding_period, now);
        }
        let mult = self.stake_config[j];
        let ri = self.find_record(&sender, unbonding_period);
        proof {
            lemma_record_index(self.stakes@, sender@, unbonding_period);
            lemma_account_le_total(self.stakes@, sender@);
        }
        let mut info = match ri {
            Some(i) => self.stakes[i].info.duplicate(),
            None => BondingInfo::new(),
        };
        proof {
            if let Some(i) = ri {
                assert(self.wf_record(self.stakes@[i as int]));
                lemma_record_le_account(self.stakes@, i as int, sender@);
            }
        }
        assert(info.total() == old(self).stake_of(sender@, unbonding_period));
        assert(info.unlocked_at(now) == old(self).unlocked_of(sender@, unbonding_period, now));
        let ov = info.votes;
        let or = info.rewards;
        match info.release_stake(now, amount) {
            Ok(_) => {},
            Err(e) => {
                return Err(ContractError::Overflow(e));
            },
        }
        let bucket_new = mult.staked - amount;
        let release_at = match now.checked_add(unbonding_period) {
            Some(t) => t,
            None => {
                return Err(ContractError::Overflow(OverflowError { operation: OverflowOperation::Add, operand1: now as u128, operand2: unbonding_period as u128 }));
            },
        };
        proof {
            lemma_claims_index(self.claims@, sender@);
        }
        let queued = match self.find_claims(&sender) {
            Some(ci) => {
                let q = claims_total(&self.claims[ci].claims);
                assert(self.claims_of(sender@) == self.claims@[ci as int].claims@);
                q
            },
            None => {
                assert(self.claims_of(sender@) == Seq::<Claim>::empty());
                assert(claims_sum(Seq::<Claim>::empty()) == 0);
                Some(0)
            },
        };
        assert(queued is Some ==> queued->0 == claims_sum(old(self).claims_of(sender@)));
        let queued = match queued {
            Some(q) => q,
            None => {
                return Err(ContractError::Overflow(OverflowError { operation: OverflowOperation::Add, operand1: 0, operand2: amount }));
            },
        };
        proof {
            lemma_claims_index(self.claims@, sender@);
            if claims_index(self.claims@, sender@) < 0 {
                assert(claims_sum(Seq::<Claim>::empty()) == 0);
            }
        }
        if queued > u128::MAX - amount {
            return Err(ContractError::Overflow(OverflowError { operation: OverflowOperation::Add, operand1: queued, operand2: amount }));
        }
        let unbonding_new = match self.total_staked.unbonding.checked_add(amount) {
            Some(v) => v,
            None => {
                return Err(ContractError::Overflow(OverflowError { operation: OverflowOperation::Add, operand1: self.total_staked.unbonding, operand2: amount }));
            },
        };
        let new_total = info.total_stake();
        let nv = match calc_power(self.config.min_bond, self.config.tokens_per_power, new_total, mult.voting) {
            Some(v) => v,
            None => {
                return Err(ContractError::Overflow(OverflowError { operation: OverflowOperation::Mul, operand1: new_total, operand2: mult.voting }));
            },
        };
        let nr = match calc_power(self.config.min_bond, self.config.tokens_per_power, new_total, mult.reward) {
            Some(v) => v,
            None => {
                return Err(ContractError::Overflow(OverflowError { operation: OverflowOperation::Mul, operand1: new_total, operand2: mult.reward }));
            },
        };
        let plan = match self.plan_account(&sender, ov, nv, or, nr) {
            Some(p) => p,
            None => {
                return Err(ContractError::Overflow(OverflowError { operation: OverflowOperation::Add, operand1: ov, operand2: nv }));
            },
        };
        info.votes = nv;
        info.rewards = nr;
        let rec = StakeRecord { addr: sender.clone(), unbonding_period, info };
        assert(rec.info.total() == old(self).stake_of(sender@, unbonding_period) - amount);
        let ghost s0 = self.stakes@;
        self.put_record(ri, rec, j, bucket_new);
        let ghost midl = *self;
        proof {
            lemma_bucket_le_sum(old(self).stake_config@, j as int);
            lemma_buckets_sum_update(old(self).stake_config@, j as int, self.stake_config@[j as int]);
        }
        self.total_staked = TokenInfo {
            staked: self.total_staked.staked - amount,
            unbonding: unbonding_new,
        };
        self.add_claim(&sender, Claim { amount, release_at });
        let ghost cl = *self;
        proof {
            assert forall|a: Seq<char>| a != sender@ implies #[trigger] current_power(self.votes.members@, a) == self.account_votes(a) by {
                assert(rec_sum(self.stakes@, 1, a, 0) == rec_sum(s0, 1, a, 0));
                assert(current_power(old(self).votes.members@, a) == old(self).account_votes(a));
            };
            assert forall|a: Seq<char>| a != sender@ implies #[trigger] self.account_rewards(a) == self.points_of(a) by {
                assert(rec_sum(self.stakes@, 2, a, 0) == rec_sum(s0, 2, a, 0));
                assert(old(self).account_rewards(a) == old(self).points_of(a));
            };
            assert(old(self).account_rewards(sender@) == old(self).points_of(sender@));
        }
        let ghost pre = *self;
        let msgs = self.apply_account(&sender, plan, height);
        proof {
            lemma_rewards_kept(*self, pre, *old(self), sender@);
        }
        proof {
            assert forall|a: Seq<char>, p: u64| #[trigger] self.stake_of(a, p) == midl.stake_of(a, p) by {};
            assert forall|a: Seq<char>| #[trigger] self.claims_of(a) == cl.claims_of(a) by {};
            assert(self.claims_of(sender@) == old(self).claims_of(sender@).push(Claim { amount, release_at }));
            assert(self.stake_of(sender@, unbonding_period) == old(self).stake_of(sender@, unbonding_period) - amount);
        }
        Ok(msgs)
    }

    /// Stake of `a` in bucket `p` that is free at `now`.
    pub open spec fn unlocked_of(&self, a: Seq<char>, p: u64, now: u64) -> int {
        let i = record_index(self.stakes@, a, p);
        if i >= 0 { self.stakes@[i].info.unlocked_at(now) } else { 0 }
    }

    proof fn lemma_unlocked_le_bucket(&self, a: Seq<char>, p: u64, now: u64)
        requires
            self.wf(),
            self.bucket(p) >= 0,
        ensures
            self.unlocked_of(a, p, now) <= self.stake_config@[self.bucket(p)].staked,
    {
        lemma_period_index(self.periods(), p);
        lemma_record_index(self.stakes@, a, p);
        let i = record_index(self.stakes@, a, p);
        if i >= 0 {
            let info = self.stakes@[i].info;
            assert(self.wf_record(self.stakes@[i]));
            crate::bonding::lemma_sum_parts(info.locked_tokens@, now);
            crate::bonding::lemma_sum_all_any_time(info.locked_tokens@, now);
            lemma_sum_nonneg(info.locked_tokens@, now, 2);
            assert forall|q: int| 0 <= q < self.stakes@.len() implies (#[trigger] self.stakes@[q]).info.total() >= 0 by {
                lemma_sum_nonneg(self.stakes@[q].info.locked_tokens@, 0, 0);
            };
            lemma_record_le_bucket(self.stakes@, i, p);
        }
    }
}

pub proof fn lemma_record_le_bucket(s: Seq<StakeRecord>, i: int, p: u64)
    requires
        0 <= i < s.len(),
        s[i].unbonding_period == p,
        forall|q: int| 0 <= q < s.len() ==> (#[trigger] s[q]).info.total() >= 0,
    ensures
        s[i].info.total() <= rec_sum(s, 0, Seq::empty(), p),
    decreases s.len(),
{
    lemma_bucket_nonneg(s.drop_last(), p);
    if i < s.len() - 1 {
        lemma_record_le_bucket(s.drop_last(), i, p);
    }
}

pub proof fn lemma_bucket_nonneg(s: Seq<StakeRecord>, p: u64)
    requires
        forall|q: int| 0 <= q < s.len() ==> (#[trigger] s[q]).info.total() >= 0,
    ensures
        rec_sum(s, 0, Seq::empty(), p) >= 0,
    decreases s.len(),
{
    if s.len() > 0 {
        lemma_bucket_nonneg(s.drop_last(), p);
    }
}

pub proof fn lemma_two_records_le_account(s: Seq<StakeRecord>, i: int, k: int, a: Seq<char>)
    requires
        0 <= i < s.len(),
        0 <= k < s.len(),
        i != k,
        s[i].addr@ == a,
        s[k].addr@ == a,
    ensures
        s[i].info.votes + s[k].info.votes <= rec_sum(s, 1, a, 0),
        s[i].info.rewards + s[k].info.rewards <= rec_sum(s, 2, a, 0),
    decreases s.len(),
{
    let n = s.len() - 1;
    if i == n {
        lemma_record_le_account(s.drop_last(), k, a);
    } else if k == n {
        lemma_record_le_account(s.drop_last(), i, a);
    } else {
        lemma_two_records_le_account(s.drop_last(), i, k, a);
    }
}

impl Ledger {
    /// Whether moving `amount` of `a`'s stake from bucket `from` to bucket `to`
    /// at `now` keeps every amount in range: the destination's stake, the end
    /// of a lock, the powers of both new stakes and the account-level totals.
    pub open spec fn rebond_fits(&self, a: Seq<char>, amount: int, from: u64, to: u64, now: u64) -> bool {
        let jf = self.bucket(from);
        let jt = self.bucket(to);
        let sf = self.stake_of(a, from);
        let st = self.stake_of(a, to);
        let mf = self.stake_config@[jf];
        let mt = self.stake_config@[jt];
        &&& mt.staked + amount <= u128::MAX
        &&& st + amount <= u128::MAX
        &&& (from < to ==> now + (to - from) <= u64::MAX)
        &&& power_fits(self.config.min_bond as int, sf - amount, mf.voting as int)
        &&& power_fits(self.config.min_bond as int, sf - amount, mf.reward as int)
        &&& power_fits(self.config.min_bond as int, st + amount, mt.voting as int)
        &&& power_fits(self.config.min_bond as int, st + amount, mt.reward as int)
        &&& self.power_in(jf, sf - amount, true) + self.power_in(jt, st + amount, true) <= u128::MAX
        &&& self.power_in(jf, sf - amount, false) + self.power_in(jt, st + amount, false) <= u128::MAX
        &&& self.plan_fits(a,
            self.power_in(jf, sf, true) + self.power_in(jt, st, true),
            self.power_in(jf, sf - amount, true) + self.power_in(jt, st + amount, true),
            self.power_in(jf, sf, false) + self.power_in(jt, st, false),
            self.power_in(jf, sf - amount, false) + self.power_in(jt, st + amount, false))
    }

    /// Moves `amount` of `sender`'s stake from the bucket of `bond_from` to the
    /// bucket of `bond_to`. Matured locks in the source are freed first and its
    /// free stake must cover the amount. Moving to a shorter period frees the
    /// amount at once; moving to a longer one locks it for the difference of
    /// the periods.
    pub fn execute_rebond(&mut self, sender: String, amount: u128, bond_from: u64, bond_to: u64, now: u64, height: u64)
        -> (r: Result<Vec<Outbound>, ContractError>)
        requires
            old(self).wf(),
            old(self).votes.last_height() <= height,
        ensures
            final(self).wf(),
            amount == 0 ==> r == Err::<Vec<Outbound>, ContractError>(ContractError::NoRebondAmount),
            amount != 0 && bond_from == bond_to ==> r == Err::<Vec<Outbound>, ContractError>(ContractError::SameUnbondingRebond),
            amount != 0 && bond_from != bond_to && old(self).bucket(bond_from) < 0 ==> r
                == Err::<Vec<Outbound>, ContractError>(ContractError::NoUnbondingPeriodFound(bond_from)),
            amount != 0 && bond_from != bond_to && old(self).bucket(bond_from) >= 0 && old(self).bucket(bond_to) < 0 ==> r
                == Err::<Vec<Outbound>, ContractError>(ContractError::NoUnbondingPeriodFound(bond_to)),
            amount != 0 && bond_from != bond_to && old(self).bucket(bond_from) >= 0 && old(self).bucket(bond_to) >= 0
                && amount > old(self).unlocked_of(sender@, bond_from, now) ==> r == Err::<Vec<Outbound>, ContractError>(
                ContractError::Overflow(OverflowError {
                    operation: OverflowOperation::Sub,
                    operand1: old(self).unlocked_of(sender@, bond_from, now) as u128,
                    operand2: amount,
                }),
            ),
            amount != 0 && bond_from != bond_to && old(self).bucket(bond_from) >= 0 && old(self).bucket(bond_to) >= 0
                ==> (r is Ok <==> amount <= old(self).unlocked_of(sender@, bond_from, now)
                    && old(self).rebond_fits(sender@, amount as int, bond_from, bond_to, now)),
            r is Err ==> *final(self) == *old(self),
            r is Ok ==> final(self).votes.last_height() <= height,
            r is Ok ==> {
                let jf = old(self).bucket(bond_from);
                let jt = old(self).bucket(bond_to);
                &&& amount <= old(self).unlocked_of(sender@, bond_from, now)
                &&& final(self).same_setup(old(self))
                &&& final(self).claims == old(self).claims
                &&& final(self).total_staked == old(self).total_staked
                &&& final(self).stake_of(sender@, bond_from) == old(self).stake_of(sender@, bond_from) - amount
                &&& final(self).stake_of(sender@, bond_to) == old(self).stake_of(sender@, bond_to) + amount
                &&& bond_from < bond_to ==> final(self).locked_of(sender@, bond_to, now) == old(self).locked_of(sender@, bond_to, now) + amount
                &&& bond_from < bond_to ==> forall|t: u64| t >= now + (bond_to - bond_from) ==>
                    #[trigger] final(self).locked_of(sender@, bond_to, t) == old(self).locked_of(sender@, bond_to, t)
                &&& bond_from < bond_to ==> forall|t: u64| t < now + (bond_to - bond_from) ==>
                    #[trigger] final(self).locked_of(sender@, bond_to, t) == old(self).locked_of(sender@, bond_to, t) + amount
                &&& bond_from > bond_to ==> forall|t: u64| #[trigger] final(self).unlocked_of(sender@, bond_to, t)
                    == old(self).unlocked_of(sender@, bond_to, t) + amount
                &&& bond_from > bond_to ==> forall|t: u64| #[trigger] final(self).locked_of(sender@, bond_to, t)
                    == old(self).locked_of(sender@, bond_to, t)
                &&& forall|a: Seq<char>, p: u64| !(a == sender@ && (p == bond_from || p == bond_to)) ==>
                    #[trigger] final(self).stake_of(a, p) == old(self).stake_of(a, p)
                &&& final(self).stake_config@ == old(self).stake_config@.update(jf, StakeMultipliers {
                    staked: (old(self).stake_config@[jf].staked - amount) as u128,
                    ..old(self).stake_config@[jf]
                }).update(jt, StakeMultipliers {
                    staked: (old(self).stake_config@[jt].staked + amount) as u128,
                    ..old(self).stake_config@[jt]
                })
                &&& forall|a: Seq<char>, h: int| h < height ==> #[trigger] crate::voting::power_at(final(self).votes.members@, a, h)
                    == crate::voting::power_at(old(self).votes.members@, a, h)
                &&& forall|h: int| h < height ==> #[trigger] total_at(final(self).votes.totals@, h) == total_at(old(self).votes.totals@, h)
                &&& final(self).rewards_kept(old(self), sender@)
                &&& final(self).account_votes(sender@) == old(self).account_votes(sender@) ==> r->Ok_0@.len() == 0
                &&& final(self).account_votes(sender@) != old(self).account_votes(sender@) ==> hook_batch(r->Ok_0@,
                    old(self).hooks@, sender@, membership(old(self).account_votes(sender@)),
                    membership(final(self).account_votes(sender@)))
            },
    {
        if amount == 0 {
            return Err(ContractError::NoRebondAmount);
        }
        if bond_from == bond_to {
            return Err(ContractError::SameUnbondingRebond);
        }
        let jf = match self.find_period(bond_from) {
            Some(j) => j,
            None => {
                return Err(ContractError::NoUnbondingPeriodFound(bond_from));
            },
        };
        proof {
            lemma_period_index(self.periods(), bond_from);
            lemma_period_index(self.periods(), bond_to);
        }
        let jt = match self.find_period(bond_to) {
            Some(j) => j,
            None => {
                return Err(ContractError::NoUnbondingPeriodFound(bond_to));
            },
        };
        let mf = self.stake_config[jf];
        let mt = self.stake_config[jt];
        proof {
            self.lemma_unlocked_le_bucket(sender@, bond_from, now);
        }
        let rf = self.find_record(&sender, bond_from);
        let rt = self.find_record(&sender, bond_to);
        proof {
            lemma_record_index(self.stakes@, sender@, bond_from);
            lemma_record_index(self.stakes@, sender@, bond_to);
            lemma_account_le_total(self.stakes@, sender@);
        }
        let mut from_info = match rf {
            Some(i) => self.stakes[i].info.duplicate(),
            None => BondingInfo::new(),
        };
        let mut to_info = match rt {
            Some(i) => self.stakes[i].info.duplicate(),
            None => BondingInfo::new(),
        };
        proof {
            if let Some(i) = rf {
                assert(self.wf_record(self.stakes@[i as int]));
                lemma_record_le_account(self.stakes@, i as int, sender@);
            }
            if let Some(k) = rt {
                assert(self.wf_record(self.stakes@[k as int]));
                lemma_record_le_account(self.stakes@, k as int, sender@);
                if let Some(i) = rf {
                    lemma_two_records_le_account(self.stakes@, i as int, k as int, sender@);
                }
            }
        }
        assert(from_info.unlocked_at(now) == old(self).unlocked_of(sender@, bond_from, now));
        assert(to_info.total() == old(self).stake_of(sender@, bond_to));
        let ov_f = from_info.votes;
        let or_f = from_info.rewards;
        let ov_t = to_info.votes;
        let or_t = to_info.rewards;
        match from_info.release_stake(now, amount) {
            Ok(_) => {},
            Err(e) => {
                return Err(ContractError::Overflow(e));
            },
        }
        let from_bucket_new = mf.staked - amount;
        let to_bucket_new = match mt.staked.checked_add(amount) {
            Some(v) => v,
            None => {
                return Err(ContractError::Overflow(OverflowError { operation: OverflowOperation::Add, operand1: mt.staked, operand2: amount }));
            },
        };
        let to_old_total = to_info.total_stake();
        if to_old_total > u128::MAX - amount {
            return Err(ContractError::Overflow(OverflowError { operation: OverflowOperation::Add, operand1: to_old_total, operand2: amount }));
        }
        let ghost to_before = to_info;
        assert(to_before.locked_at(now) == old(self).locked_of(sender@, bond_to, now));
        assert(forall|t: u64| #[trigger] to_before.locked_at(t) == old(self).locked_of(sender@, bond_to, t));
        assert(forall|t: u64| #[trigger] to_before.unlocked_at(t) == old(self).unlocked_of(sender@, bond_to, t));
        if bond_from < bond_to {
            let expires = match now.checked_add(bond_to - bond_from) {
                Some(t) => t,
                None => {
                    return Err(ContractError::Overflow(OverflowError { operation: OverflowOperation::Add, operand1: now as u128, operand2: (bond_to - bond_from) as u128 }));
                },
            };
            to_info.add_locked_tokens(expires, amount);
        } else {
            to_info.add_unlocked_tokens(amount);
        }
        let ghost to_after = to_info;
        assert(bond_from < bond_to ==> to_info.locked_at(now) == to_before.locked_at(now) + amount);
        assert(bond_from < bond_to ==> forall|t: u64| t >= now + (bond_to - bond_from) ==>
            #[trigger] to_after.locked_at(t) == to_before.locked_at(t));
        assert(bond_from > bond_to ==> forall|t: u64| #[trigger] to_info.unlocked_at(t) == to_before.unlocked_at(t) + amount);
        assert(bond_from > bond_to ==> forall|t: u64| #[trigger] to_after.locked_at(t) == to_before.locked_at(t));
        assert(bond_from < bond_to ==> forall|t: u64| t < now + (bond_to - bond_from) ==>
            #[trigger] to_after.locked_at(t) == to_before.locked_at(t) + amount);
        let from_total = from_info.total_stake();
        let to_total = to_info.total_stake();
        let nv_f = match calc_power(self.config.min_bond, self.config.tokens_per_power, from_total, mf.voting) {
            Some(v) => v,
            None => {
                return Err(ContractError::Overflow(OverflowError { operation: OverflowOperation::Mul, operand1: from_total, operand2: mf.voting }));
            },
        };
        let nr_f = match calc_power(self.config.min_bond, self.config.tokens_per_power, from_total, mf.reward) {
            Some(v) => v,
            None => {
                return Err(ContractError::Overflow(OverflowError { operation: OverflowOperation::Mul, operand1: from_total, operand2: mf.reward }));
            },
        };
        let nv_t = match calc_power(self.config.min_bond, self.config.tokens_per_power, to_total, mt.voting) {
            Some(v) => v,
            None => {
                return Err(ContractError::Overflow(OverflowError { operation: OverflowOperation::Mul, operand1: to_total, operand2: mt.voting }));
            },
        };
        let nr_t = match calc_power(self.config.min_bond, self.config.tokens_per_power, to_total, mt.reward) {
            Some(v) => v,
            None => {
                return Err(ContractError::Overflow(OverflowError { operation: OverflowOperation::Mul, operand1: to_total, operand2: mt.reward }));
            },
        };
        let ov = ov_f + ov_t;
        let or = or_f + or_t;
        let nv = match nv_f.checked_add(nv_t) {
            Some(v) => v,
            None => {
                return Err(ContractError::Overflow(OverflowError { operation: OverflowOperation::Add, operand1: nv_f, operand2: nv_t }));
            },
        };
        let nr = match nr_f.checked_add(nr_t) {
            Some(v) => v,
            None => {
                return Err(ContractError::Overflow(OverflowError { operation: OverflowOperation::Add, operand1: nr_f, operand2: nr_t }));
            },
        };
        let plan = match self.plan_account(&sender, ov, nv, or, nr) {
            Some(p) => p,
            None => {
                return Err(ContractError::Overflow(OverflowError { operation: OverflowOperation::Add, operand1: ov, operand2: nv }));
            },
        };
        from_info.votes = nv_f;
        from_info.rewards = nr_f;
        to_info.votes = nv_t;
        to_info.rewards = nr_t;
        let ghost s0 = self.stakes@;
        let from_rec = StakeRecord { addr: sender.clone(), unbonding_period: bond_from, info: from_info };
        let to_rec = StakeRecord { addr: sender.clone(), unbonding_period: bond_to, info: to_info };
        let ghost m0 = self.stake_config@;
        self.put_record(rf, from_rec, jf, from_bucket_new);
        let ghost m1 = self.stake_config@;
        let ghost s1 = self.stakes@;
        self.put_record(rt, to_rec, jt, to_bucket_new);
        let ghost l2 = *self;
        proof {
            lemma_buckets_sum_update(m0, jf as int, m1[jf as int]);
            lemma_buckets_sum_update(m1, jt as int, self.stake_config@[jt as int]);
        }
        assert(l2.stakes@[record_index(l2.stakes@, sender@, bond_to)] == to_rec);
        assert(l2.locked_of(sender@, bond_to, now) == to_rec.info.locked_at(now));
        proof {
            assert forall|k: int, a: Seq<char>, p: u64| #[trigger] rec_sum(self.stakes@, k, a, p) == rec_sum(s0, k, a, p)
                - (if rf is Some { sel(s0[rf->0 as int], k, a, p) } else { 0 }) + sel(from_rec, k, a, p)
                - (if rt is Some { sel(s0[rt->0 as int], k, a, p) } else { 0 }) + sel(to_rec, k, a, p) by {
                assert(rec_sum(s1, k, a, p) == rec_sum(s0, k, a, p)
                    - (if rf is Some { sel(s0[rf->0 as int], k, a, p) } else { 0 }) + sel(from_rec, k, a, p));
                if let Some(k2) = rt {
                    assert(s1[k2 as int] == s0[k2 as int]);
                }
            };
            assert forall|a: Seq<char>| a != sender@ implies #[trigger] current_power(self.votes.members@, a) == self.account_votes(a) by {
                assert(rec_sum(self.stakes@, 1, a, 0) == rec_sum(s0, 1, a, 0));
                assert(current_power(old(self).votes.members@, a) == old(self).account_votes(a));
            };
            assert forall|a: Seq<char>| a != sender@ implies #[trigger] self.account_rewards(a) == self.points_of(a) by {
                assert(rec_sum(self.stakes@, 2, a, 0) == rec_sum(s0, 2, a, 0));
                assert(old(self).account_rewards(a) == old(self).points_of(a));
            };
            assert(old(self).account_rewards(sender@) == old(self).points_of(sender@));
            assert(rec_sum(self.stakes@, 1, sender@, 0) == rec_sum(s0, 1, sender@, 0) - ov + nv);
            assert(rec_sum(self.stakes@, 2, sender@, 0) == rec_sum(s0, 2, sender@, 0) - or + nr);
        }
        let ghost pre = *self;
        let msgs = self.apply_account(&sender, plan, height);
        proof {
            lemma_rewards_kept(*self, pre, *old(self), sender@);
        }
        proof {
            assert forall|a: Seq<char>, p: u64| #[trigger] self.stake_of(a, p) == l2.stake_of(a, p) by {};
            assert forall|a: Seq<char>, p: u64, t: u64| #[trigger] self.locked_of(a, p, t) == l2.locked_of(a, p, t) by {};
            assert forall|a: Seq<char>, p: u64, t: u64| #[trigger] self.unlocked_of(a, p, t) == l2.unlocked_of(a, p, t) by {};
            let jf2 = old(self).bucket(bond_from);
            let jt2 = old(self).bucket(bond_to);
            assert(self.stake_of(sender@, bond_from) == old(self).stake_of(sender@, bond_from) - amount);
            assert(self.stake_of(sender@, bond_to) == old(self).stake_of(sender@, bond_to) + amount);
            assert forall|t: u64| bond_from < bond_to && t >= now + (bond_to - bond_from) implies
                #[trigger] self.locked_of(sender@, bond_to, t) == old(self).locked_of(sender@, bond_to, t) by {
                assert(l2.locked_of(sender@, bond_to, t) == to_rec.info.locked_at(t));
                assert(to_rec.info.locked_tokens@ == to_after.locked_tokens@);
                assert(to_rec.info.locked_at(t) == to_after.locked_at(t));
            };
            assert forall|t: u64| bond_from < bond_to && t < now + (bond_to - bond_from) implies
                #[trigger] self.locked_of(sender@, bond_to, t) == old(self).locked_of(sender@, bond_to, t) + amount by {
                assert(l2.locked_of(sender@, bond_to, t) == to_rec.info.locked_at(t));
                assert(to_rec.info.locked_tokens@ == to_after.locked_tokens@);
                assert(to_rec.info.locked_at(t) == to_after.locked_at(t));
            };
            assert forall|t: u64| bond_from > bond_to implies #[trigger] self.locked_of(sender@, bond_to, t)
                == old(self).locked_of(sender@, bond_to, t) by {
                assert(l2.locked_of(sender@, bond_to, t) == to_rec.info.locked_at(t));
                assert(to_rec.info.locked_tokens@ == to_after.locked_tokens@);
                assert(to_rec.info.locked_at(t) == to_after.locked_at(t));
            };
            assert forall|t: u64| bond_from > bond_to implies #[trigger] self.unlocked_of(sender@, bond_to, t)
                == old(self).unlocked_of(sender@, bond_to, t) + amount by {
                assert(l2.unlocked_of(sender@, bond_to, t) == to_rec.info.unlocked_at(t));
            };
            assert(bond_from < bond_to ==> self.locked_of(sender@, bond_to, now) == old(self).locked_of(sender@, bond_to, now) + amount);
            assert(forall|a: Seq<char>, p: u64| !(a == sender@ && (p == bond_from || p == bond_to)) ==>
                    #[trigger] self.stake_of(a, p) == old(self).stake_of(a, p));
            assert(self.stake_config@ == old(self).stake_config@.update(jf2, StakeMultipliers {
                    staked: (old(self).stake_config@[jf2].staked - amount) as u128,
                    ..old(self).stake_config@[jf2]
                }).update(jt2, StakeMultipliers {
                    staked: (old(self).stake_config@[jt2].staked + amount) as u128,
                    ..old(self).stake_config@[jt2]
                }));
        }
        Ok(msgs)
    }

    /// Stake of `a` in bucket `p` that is still locked at `now`.
    pub open spec fn locked_of(&self, a: Seq<char>, p: u64, now: u64) -> int {
        let i = record_index(self.stakes@, a, p);
        if i >= 0 { self.stakes@[i].info.locked_at(now) } else { 0 }
    }
}

impl Ledger {
    /// Everything but the claims is as in `other`.
    pub open spec fn same_but_claims(&self, other: &Ledger) -> bool {
        &&& self.same_setup(other)
        &&& self.stake_config == other.stake_config
        &&& self.stakes == other.stakes
        &&& self.votes == other.votes
        &&& self.rewards == other.rewards
        &&& self.total_rewards == other.total_rewards
    }

    /// Releases the claims of `sender` that have matured by `now`, and asks
    /// the token contract to return their sum. Fails if nothing has matured.
    pub fn execute_claim(&mut self, sender: &String, now: u64) -> (r: Result<Vec<Outbound>, ContractError>)
        requires
            old(self).wf(),
        ensures
            final(self).wf(),
            matured_sum(old(self).claims_of(sender@), now) == 0 ==> r == Err::<Vec<Outbound>, ContractError>(
                ContractError::NothingToClaim,
            ) && *final(self) == *old(self),
            matured_sum(old(self).claims_of(sender@), now) > 0 ==> {
                let amount = matured_sum(old(self).claims_of(sender@), now);
                &&& r is Ok
                &&& r->Ok_0@.len() == 1
                &&& r->Ok_0@[0] == (Outbound::Undelegate {
                    contract: old(self).config.cw20_contract,
                    recipient: *sender,
                    amount: amount as u128,
                })
                &&& final(self).same_but_claims(old(self))
                &&& final(self).claims_of(sender@) == pending(old(self).claims_of(sender@), now)
                &&& forall|a: Seq<char>| a != sender@ ==> #[trigger] final(self).claims_of(a) == old(self).claims_of(a)
                &&& final(self).total_staked == TokenInfo {
                    unbonding: (old(self).total_staked.unbonding - amount) as u128,
                    ..old(self).total_staked
                }
            },
    {
        let ci = match self.find_claims(sender) {
            Some(ci) => ci,
            None => {
                proof {
                    lemma_claims_index(self.claims@, sender@);
                }
                return Err(ContractError::NothingToClaim);
            },
        };
        proof {
            lemma_claims_index(self.claims@, sender@);
        }
        proof {
            lemma_claims_le_all(self.claims@, ci as int);
        }
        let mut kept = copy_claims(&self.claims[ci].claims);
        let released = release_matured(&mut kept, now);
        if released == 0 {
            return Err(ContractError::NothingToClaim);
        }
        proof {
            crate::claims::lemma_claims_nonneg(kept@);
        }
        self.total_staked.unbonding = self.total_staked.unbonding - released;
        let ghost s0 = self.claims@;
        let entry = AccountClaims { addr: self.claims[ci].addr.clone(), claims: kept };
        self.claims.set(ci, entry);
        proof {
            lemma_all_claims_update(s0, ci as int, entry);
            crate::claims::lemma_claims_split(s0[ci as int].claims@, now);
            assert forall|a: Seq<char>| #[trigger] claims_index(self.claims@, a) == claims_index(s0, a) by {
                lemma_claims_index_update(s0, ci as int, entry, a);
            };
            assert forall|i: int| 0 <= i < self.claims@.len() implies claims_sum((#[trigger] self.claims@[i]).claims@) <= u128::MAX by {
                if i != ci {
                    assert(self.claims@[i] == s0[i]);
                }
            };
            assert forall|i: int, j: int| 0 <= i < j < self.claims@.len() implies self.claims@[i].addr@ != self.claims@[j].addr@ by {
                assert(s0[i].addr@ != s0[j].addr@);
            };
            assert forall|a: Seq<char>| a != sender@ implies #[trigger] self.claims_of(a) == old(self).claims_of(a) by {
                lemma_claims_index(s0, a);
            };
            assert(self.claims_of(sender@) == pending(old(self).claims_of(sender@), now));
            lemma_wf_frame(*self, *old(self));
        }
        let mut msgs: Vec<Outbound> = Vec::new();
        msgs.push(Outbound::Undelegate { contract: self.config.cw20_contract.clone(), recipient: sender.clone(), amount: released });
        Ok(msgs)
    }
}

pub proof fn lemma_claims_index_update(s: Seq<AccountClaims>, i: int, e: AccountClaims, a: Seq<char>)
    requires
        0 <= i < s.len(),
        e.addr@ == s[i].addr@,
    ensures
        claims_index(s.update(i, e), a) == claims_index(s, a),
    decreases s.len(),
{
    if i < s.len() - 1 {
        lemma_claims_index_update(s.drop_last(), i, e, a);
        assert(s.update(i, e).drop_last() =~= s.drop_last().update(i, e));
    } else {
        assert(s.update(i, e).drop_last() =~= s.drop_last());
    }
}

/// The invariants other than those on claims only read the configuration,
/// the records, the voting index, the reward accounts and the pool.
pub proof fn lemma_wf_frame(l: Ledger, o: Ledger)
    requires
        o.wf(),
        l.wf_claims(),
        l.config == o.config,
        l.stake_config == o.stake_config,
        l.stakes == o.stakes,
        l.votes == o.votes,
        l.rewards == o.rewards,
        l.total_rewards == o.total_rewards,
        l.distribution == o.distribution,
        l.total_staked.staked == o.total_staked.staked,
        l.total_staked.unbonding == all_claims_sum(l.claims@),
    ensures
        l.wf(),
{
    assert forall|a: Seq<char>| #[trigger] l.account_rewards(a) == l.points_of(a) by {
        assert(o.account_rewards(a) == o.points_of(a));
    };
    assert forall|a: Seq<char>| #[trigger] current_power(l.votes.members@, a) == l.account_votes(a) by {
        assert(current_power(o.votes.members@, a) == o.account_votes(a));
    };
    assert forall|r: StakeRecord| o.wf_record(r) implies l.wf_record(r) by {};
    assert forall|x: int| 0 <= x < l.stakes@.len() implies l.wf_record(#[trigger] l.stakes@[x]) by {
        assert(o.wf_record(o.stakes@[x]));
    };
}

impl Ledger {
    /// Tokens in the ledger's balance that are neither stake, unbonding stake,
    /// nor rewards distributed and not yet withdrawn.
    pub open spec fn undistributed(&self, balance: int) -> int {
        balance - (self.total_staked.staked + self.total_staked.unbonding) - self.distribution.withdrawable_total
    }

    /// Distributes what arrived since the last distribution over the reward
    /// power of all accounts. `balance` is the ledger's balance in the token;
    /// the amount distributed is returned.
    pub fn execute_distribute_rewards(&mut self, balance: u128) -> (r: Result<u128, ContractError>)
        requires
            old(self).wf(),
        ensures
            final(self).wf(),
            old(self).total_rewards == 0 ==> r == Err::<u128, ContractError>(ContractError::NoMembersToDistributeTo),
            old(self).total_rewards > 0 && old(self).undistributed(balance as int) < 0 ==> r is Err && r->Err_0 is Overflow,
            old(self).total_rewards > 0 && old(self).undistributed(balance as int) == 0 ==> r == Ok::<u128, ContractError>(0),
            old(self).total_rewards > 0 && old(self).undistributed(balance as int) > 0
                && old(self).total_staked.staked + old(self).total_staked.unbonding <= u128::MAX ==> {
                let amount = old(self).undistributed(balance as int);
                if old(self).distribution.distribution_fits(amount, old(self).total_rewards as int) {
                    &&& r == Ok::<u128, ContractError>(amount as u128)
                    &&& final(self).distribution == old(self).distribution.distribution_result(amount, old(self).total_rewards as int)
                } else {
                    r is Err && r->Err_0 is Overflow
                }
            },
            r is Err || r == Ok::<u128, ContractError>(0) ==> *final(self) == *old(self),
            final(self).config == old(self).config,
            final(self).stake_config == old(self).stake_config,
            final(self).stakes == old(self).stakes,
            final(self).claims == old(self).claims,
            final(self).votes == old(self).votes,
            final(self).rewards == old(self).rewards,
            final(self).hooks == old(self).hooks,
            final(self).admin == old(self).admin,
            final(self).total_rewards == old(self).total_rewards,
            final(self).total_staked == old(self).total_staked,
    {
        let total = self.total_rewards;
        if total == 0 {
            return Err(ContractError::NoMembersToDistributeTo);
        }
        let held = match self.total_staked.total() {
            Some(v) => v,
            None => {
                return Err(ContractError::Overflow(OverflowError { operation: OverflowOperation::Add, operand1: self.total_staked.staked, operand2: self.total_staked.unbonding }));
            },
        };
        if balance < held {
            return Err(ContractError::Overflow(OverflowError { operation: OverflowOperation::Sub, operand1: balance, operand2: held }));
        }
        let free = balance - held;
        let withdrawable = self.distribution.withdrawable_total;
        if free < withdrawable {
            return Err(ContractError::Overflow(OverflowError { operation: OverflowOperation::Sub, operand1: free, operand2: withdrawable }));
        }
        let amount = free - withdrawable;
        if amount == 0 {
            return Ok(0);
        }
        let mut d = self.distribution;
        match d.distribute(amount, total) {
            Ok(()) => {},
            Err(e) => {
                return Err(ContractError::Overflow(e));
            },
        }
        let ghost spp0 = self.distribution.shares_per_point as int;
        self.distribution = d;
        proof {
            let gain = d.shares_per_point - spp0;
            assert(gain >= 0);
            lemma_reward_sum_rate(self.rewards@, spp0, gain);
            let pts = crate::distribution::distributed_points(amount as int, old(self).distribution.shares_leftover as int);
            let t = total as int;
            assert(gain * t + d.shares_leftover == pts) by (nonlinear_arith)
                requires gain == pts / t, d.shares_leftover == pts % t, t > 0;
            assert(pts == amount * (SHARES_UNIT as int) + old(self).distribution.shares_leftover);
            let dt0 = old(self).distribution.distributed_total as int;
            let dt1 = self.distribution.distributed_total as int;
            let unit = SHARES_UNIT as int;
            assert(dt1 * unit == dt0 * unit + amount * unit) by (nonlinear_arith)
                requires dt1 == dt0 + amount;
            assert forall|i: int| 0 <= i < self.rewards@.len() implies {
                let r = #[trigger] self.rewards@[i];
                let s = adjusted_shares(self.distribution.shares_per_point as int, r.points as int, r.adjustment.shares_correction as int);
                s >= 0 && s / (SHARES_UNIT as int) >= r.adjustment.withdrawn_rewards
            } by {
                let r = self.rewards@[i];
                let s0 = adjusted_shares(spp0, r.points as int, r.adjustment.shares_correction as int);
                let s1 = adjusted_shares(self.distribution.shares_per_point as int, r.points as int, r.adjustment.shares_correction as int);
                assert(old(self).rewards@[i] == r);
                let p = r.points as int;
                assert(s1 == s0 + gain * p) by (nonlinear_arith)
                    requires
                        s1 == (spp0 + gain) * p + r.adjustment.shares_correction,
                        s0 == spp0 * p + r.adjustment.shares_correction,
                ;
                assert(gain * p >= 0) by (nonlinear_arith) requires gain >= 0, p >= 0;
                assert(s1 / (SHARES_UNIT as int) >= s0 / (SHARES_UNIT as int)) by (nonlinear_arith)
                    requires s1 >= s0;
            };
            assert forall|a: Seq<char>| #[trigger] self.account_rewards(a) == self.points_of(a) by {
                assert(old(self).account_rewards(a) == old(self).points_of(a));
            };
            assert forall|a: Seq<char>| #[trigger] current_power(self.votes.members@, a) == self.account_votes(a) by {
                assert(current_power(old(self).votes.members@, a) == old(self).account_votes(a));
            };
            assert forall|x: int| 0 <= x < self.stakes@.len() implies self.wf_record(#[trigger] self.stakes@[x]) by {
                assert(old(self).wf_record(old(self).stakes@[x]));
            };
        }
        Ok(amount)
    }

    /// What the reward account at index `i` may withdraw now.
    pub open spec fn withdrawable_of(&self, i: int) -> int {
        let r = self.rewards@[i];
        withdrawable(self.distribution.shares_per_point as int, r.points as int,
            r.adjustment.shares_correction as int, r.adjustment.withdrawn_rewards as int)
    }

    /// Whether what the reward account at index `i` may withdraw can be
    /// computed in range.
    pub open spec fn withdrawable_fits_of(&self, i: int) -> bool {
        let r = self.rewards@[i];
        withdrawable_fits(self.distribution.shares_per_point as int, r.points as int,
            r.adjustment.shares_correction as int, r.adjustment.withdrawn_rewards as int)
    }

    /// Withdraws the rewards of `owner` (the caller if `None`) and sends them
    /// to `receiver` (the caller if `None`). Only the owner and its
    /// delegate may withdraw.
    pub fn execute_withdraw_rewards(&mut self, caller: &String, owner: Option<String>, receiver: Option<String>)
        -> (r: Result<Vec<Outbound>, ContractError>)
        requires
            old(self).wf(),
        ensures
            final(self).wf(),
            ({
                let o = match owner { Some(x) => x@, None => caller@ };
                let i = reward_index(old(self).rewards@, o);
                let to = match receiver { Some(x) => x, None => *caller };
                &&& i < 0 ==> r == Err::<Vec<Outbound>, ContractError>(ContractError::NotFound)
                &&& i >= 0 && caller@ != o && caller@ != old(self).rewards@[i].adjustment.delegated@
                    ==> r == Err::<Vec<Outbound>, ContractError>(ContractError::Unauthorized)
                &&& i >= 0 && (caller@ == o || caller@ == old(self).rewards@[i].adjustment.delegated@) ==> {
                    let w = old(self).withdrawable_of(i);
                    &&& !old(self).withdrawable_fits_of(i) ==> r is Err && r->Err_0 is Overflow
                    &&& old(self).withdrawable_fits_of(i) && w == 0 ==> r is Ok && r->Ok_0@.len() == 0
                    &&& old(self).withdrawable_fits_of(i) && 0 < w ==> {
                        &&& r is Ok
                        &&& r->Ok_0@ == seq![Outbound::Transfer { contract: old(self).config.cw20_contract, recipient: to, amount: w as u128 }]
                        &&& final(self).rewards@ == old(self).rewards@.update(i, RewardAccount {
                            adjustment: WithdrawAdjustment {
                                withdrawn_rewards: (old(self).rewards@[i].adjustment.withdrawn_rewards + w) as u128,
                                ..old(self).rewards@[i].adjustment
                            },
                            ..old(self).rewards@[i]
                        })
                        &&& final(self).distribution == Distribution {
                            withdrawable_total: (old(self).distribution.withdrawable_total - w) as u128,
                            ..old(self).distribution
                        }
                    }
                }
            }),
            r is Err || r->Ok_0@.len() == 0 ==> *final(self) == *old(self),
            final(self).config == old(self).config,
            final(self).stake_config == old(self).stake_config,
            final(self).stakes == old(self).stakes,
            final(self).claims == old(self).claims,
            final(self).votes == old(self).votes,
            final(self).hooks == old(self).hooks,
            final(self).admin == old(self).admin,
            final(self).total_rewards == old(self).total_rewards,
            final(self).total_staked == old(self).total_staked,
    {
        let owner = match owner {
            Some(o) => o,
            None => caller.clone(),
        };
        let i = match self.find_reward(&owner) {
            Some(i) => i,
            None => {
                return Err(ContractError::NotFound);
            },
        };
        proof {
            lemma_reward_index(self.rewards@, owner@);
        }
        if *caller != owner && *caller != self.rewards[i].adjustment.delegated {
            return Err(ContractError::Unauthorized);
        }
        let reward = match withdrawable_rewards(&self.distribution, self.rewards[i].points, &self.rewards[i].adjustment) {
            Some(w) => w,
            None => {
                return Err(ContractError::Overflow(OverflowError { operation: OverflowOperation::Mul, operand1: self.distribution.shares_per_point, operand2: self.rewards[i].points }));
            },
        };
        let receiver = match receiver {
            Some(x) => x,
            None => caller.clone(),
        };
        if reward == 0 {
            return Ok(Vec::new());
        }
        proof {
            lemma_rewards_covered(*self);
            assert(self.withdrawable_of(i as int) <= self.distribution.withdrawable_total);
        }
        let ghost s0 = self.rewards@;
        let old_entry = &self.rewards[i];
        let e = RewardAccount {
            addr: old_entry.addr.clone(),
            points: old_entry.points,
            adjustment: WithdrawAdjustment {
                shares_correction: old_entry.adjustment.shares_correction,
                withdrawn_rewards: old_entry.adjustment.withdrawn_rewards + reward,
                delegated: old_entry.adjustment.delegated.clone(),
            },
        };
        self.rewards.set(i, e);
        self.distribution.withdrawable_total = self.distribution.withdrawable_total - reward;
        proof {
            let spp = self.distribution.shares_per_point as int;
            lemma_reward_sum_update(s0, i as int, e, 0, 0);
            lemma_reward_sum_update(s0, i as int, e, 1, spp);
            lemma_reward_sum_update(s0, i as int, e, 2, 0);
            assert forall|a: Seq<char>| #[trigger] reward_index(self.rewards@, a) == reward_index(s0, a) by {
                lemma_reward_index_update(s0, i as int, e, a);
            };
            assert forall|a: Seq<char>| #[trigger] self.account_rewards(a) == self.points_of(a) by {
                assert(old(self).account_rewards(a) == old(self).points_of(a));
                lemma_reward_index(s0, a);
            };
            assert forall|a: Seq<char>| #[trigger] current_power(self.votes.members@, a) == self.account_votes(a) by {
                assert(current_power(old(self).votes.members@, a) == old(self).account_votes(a));
            };
            assert forall|x: int| 0 <= x < self.stakes@.len() implies self.wf_record(#[trigger] self.stakes@[x]) by {
                assert(old(self).wf_record(old(self).stakes@[x]));
            };
            assert forall|q: int, j: int| 0 <= q < j < self.rewards@.len() implies self.rewards@[q].addr@ != self.rewards@[j].addr@ by {
                assert(s0[q].addr@ != s0[j].addr@);
            };
            assert forall|q: int| 0 <= q < self.rewards@.len() implies {
                let r = #[trigger] self.rewards@[q];
                let s = adjusted_shares(self.distribution.shares_per_point as int, r.points as int, r.adjustment.shares_correction as int);
                s >= 0 && s / (SHARES_UNIT as int) >= r.adjustment.withdrawn_rewards
            } by {
                assert(old(self).rewards@[q] == s0[q]);
            };
            assert(e.adjustment.delegated == s0[i as int].adjustment.delegated);
            assert(e.addr == s0[i as int].addr);
        }
        let mut msgs: Vec<Outbound> = Vec::new();
        msgs.push(Outbound::Transfer { contract: self.config.cw20_contract.clone(), recipient: receiver, amount: reward });
        proof {
            assert(msgs@ =~= seq![Outbound::Transfer { contract: old(self).config.cw20_contract, recipient: receiver, amount: reward }]);
        }
        Ok(msgs)
    }
}

/// Whether `hooks` holds `addr`.
pub open spec fn has_hook(hooks: Seq<String>, addr: Seq<char>) -> bool {
    exists|i: int| 0 <= i < hooks.len() && #[trigger] hooks[i]@ == addr
}

/// Position of `addr` among the observers.
fn hook_position(hooks: &Vec<String>, addr: &String) -> (r: Option<usize>)
    ensures
        r is Some <==> has_hook(hooks@, addr@),
        r is Some ==> r->0 < hooks@.len() && hooks@[r->0 as int]@ == addr@,
{
    let mut i: usize = 0;
    while i < hooks.len()
        invariant
            0 <= i <= hooks@.len(),
            forall|j: int| 0 <= j < i ==> hooks@[j]@ != addr@,
        decreases hooks@.len() - i,
    {
        if hooks[i] == *addr {
            return Some(i);
        }
        i = i + 1;
    }
    None
}

impl Ledger {
    /// Everything but the reward accounts is as in `other`.
    pub open spec fn same_but_rewards(&self, other: &Ledger) -> bool {
        &&& self.same_setup(other)
        &&& self.stake_config == other.stake_config
        &&& self.stakes == other.stakes
        &&& self.claims == other.claims
        &&& self.votes == other.votes
        &&& self.total_rewards == other.total_rewards
        &&& self.total_staked == other.total_staked
    }

    /// The account allowed to withdraw for `owner` besides itself.
    pub open spec fn delegated_of(&self, owner: Seq<char>) -> Seq<char> {
        let i = reward_index(self.rewards@, owner);
        if i >= 0 { self.rewards@[i].adjustment.delegated@ } else { owner }
    }

    /// Lets `delegated` withdraw the rewards of `caller`.
    pub fn execute_delegate_withdrawal(&mut self, caller: &String, delegated: String)
        requires
            old(self).wf(),
        ensures
            final(self).wf(),
            final(self).same_but_rewards(old(self)),
            final(self).delegated_of(caller@) == delegated@,
            final(self).points_of(caller@) == old(self).points_of(caller@),
            forall|a: Seq<char>| a != caller@ ==> #[trigger] final(self).delegated_of(a) == old(self).delegated_of(a),
            forall|a: Seq<char>| #[trigger] final(self).points_of(a) == old(self).points_of(a),
            final(self).correction_of(caller@) == old(self).correction_of(caller@),
            final(self).withdrawn_of(caller@) == old(self).withdrawn_of(caller@),
            forall|a: Seq<char>| a != caller@ ==> #[trigger] final(self).reward_terms(a) == old(self).reward_terms(a),
            forall|a: Seq<char>| #[trigger] final(self).account_withdrawable(a) == old(self).account_withdrawable(a),
    {
        let ghost s0 = self.rewards@;
        proof {
            lemma_reward_index(s0, caller@);
        }
        match self.find_reward(caller) {
            Some(i) => {
                let old_entry = &self.rewards[i];
                let e = RewardAccount {
                    addr: old_entry.addr.clone(),
                    points: old_entry.points,
                    adjustment: WithdrawAdjustment {
                        shares_correction: old_entry.adjustment.shares_correction,
                        withdrawn_rewards: old_entry.adjustment.withdrawn_rewards,
                        delegated,
                    },
                };
                self.rewards.set(i, e);
                proof {
                    let spp = self.distribution.shares_per_point as int;
                    lemma_reward_sum_update(s0, i as int, e, 0, 0);
                    lemma_reward_sum_update(s0, i as int, e, 1, spp);
                    lemma_reward_sum_update(s0, i as int, e, 2, 0);
                    assert forall|a: Seq<char>| #[trigger] reward_index(self.rewards@, a) == reward_index(s0, a) by {
                        lemma_reward_index_update(s0, i as int, e, a);
                    };
                    assert forall|a: Seq<char>| a != caller@ implies #[trigger] self.delegated_of(a) == old(self).delegated_of(a) by {
                        lemma_reward_index(s0, a);
                    };
                    assert forall|a: Seq<char>| #[trigger] self.points_of(a) == old(self).points_of(a) by {
                        lemma_reward_index(s0, a);
                    };
                    assert forall|q: int, j: int| 0 <= q < j < self.rewards@.len() implies self.rewards@[q].addr@ != self.rewards@[j].addr@ by {
                        assert(s0[q].addr@ != s0[j].addr@);
                    };
                    assert forall|q: int| 0 <= q < self.rewards@.len() implies {
                        let r = #[trigger] self.rewards@[q];
                        let s = adjusted_shares(self.distribution.shares_per_point as int, r.points as int, r.adjustment.shares_correction as int);
                        s >= 0 && s / (SHARES_UNIT as int) >= r.adjustment.withdrawn_rewards
                    } by {
                        assert(old(self).rewards@[q] == s0[q]);
                    };
                }
            },
            None => {
                let e = RewardAccount {
                    addr: caller.clone(),
                    points: 0,
                    adjustment: WithdrawAdjustment { shares_correction: 0, withdrawn_rewards: 0, delegated },
                };
                self.rewards.push(e);
                proof {
                    let spp = self.distribution.shares_per_point as int;
                    lemma_reward_sum_push(s0, e, 0, 0);
                    lemma_reward_sum_push(s0, e, 1, spp);
                    lemma_reward_sum_push(s0, e, 2, 0);
                    assert(self.rewards@.drop_last() =~= s0);
                    assert forall|a: Seq<char>| #[trigger] reward_index(self.rewards@, a) == if a == caller@ {
                        s0.len() as int
                    } else {
                        reward_index(s0, a)
                    } by {};
                    assert forall|a: Seq<char>| a != caller@ implies #[trigger] self.delegated_of(a) == old(self).delegated_of(a) by {
                        lemma_reward_index(s0, a);
                    };
                    assert forall|a: Seq<char>| #[trigger] self.points_of(a) == old(self).points_of(a) by {
                        lemma_reward_index(s0, a);
                    };
                    assert forall|q: int, j: int| 0 <= q < j < self.rewards@.len() implies self.rewards@[q].addr@ != self.rewards@[j].addr@ by {
                        if j < s0.len() {
                            assert(s0[q].addr@ != s0[j].addr@);
                        }
                    };
                    assert forall|q: int| 0 <= q < self.rewards@.len() implies {
                        let r = #[trigger] self.rewards@[q];
                        let s = adjusted_shares(self.distribution.shares_per_point as int, r.points as int, r.adjustment.shares_correction as int);
                        s >= 0 && s / (SHARES_UNIT as int) >= r.adjustment.withdrawn_rewards
                    } by {
                        if q < s0.len() {
                            assert(old(self).rewards@[q] == s0[q]);
                        }
                    };
                }
            },
        }
        proof {
            lemma_reward_index(s0, caller@);
            lemma_reward_index(self.rewards@, caller@);
            assert forall|a: Seq<char>| a != caller@ implies #[trigger] self.reward_terms(a) == old(self).reward_terms(a) by {
                lemma_reward_index(s0, a);
                assert(self.points_of(a) == old(self).points_of(a));
                assert(self.delegated_of(a) == old(self).delegated_of(a));
            };
            assert forall|a: Seq<char>| #[trigger] self.account_withdrawable(a) == old(self).account_withdrawable(a) by {
                lemma_reward_index(s0, a);
                assert(self.points_of(a) == old(self).points_of(a));
            };
        }
        proof {
            assert forall|a: Seq<char>| #[trigger] self.account_rewards(a) == self.points_of(a) by {
                assert(old(self).account_rewards(a) == old(self).points_of(a));
            };
            assert forall|a: Seq<char>| #[trigger] current_power(self.votes.members@, a) == self.account_votes(a) by {
                assert(current_power(old(self).votes.members@, a) == old(self).account_votes(a));
            };
            assert forall|x: int| 0 <= x < self.stakes@.len() implies self.wf_record(#[trigger] self.stakes@[x]) by {
                assert(old(self).wf_record(old(self).stakes@[x]));
            };
        }
    }

    /// Whether `caller` is the admin.
    pub open spec fn is_admin(&self, caller: Seq<char>) -> bool {
        self.admin is Some && self.admin->0@ == caller
    }

    fn check_admin(&self, caller: &String) -> (r: bool)
        ensures
            r == self.is_admin(caller@),
    {
        match &self.admin {
            Some(a) => *a == *caller,
            None => false,
        }
    }

    /// Registers the observer `addr`. Only the admin may do so.
    pub fn add_hook(&mut self, caller: &String, addr: String) -> (r: Result<(), ContractError>)
        requires
            old(self).wf(),
        ensures
            final(self).wf(),
            !old(self).is_admin(caller@) ==> r == Err::<(), ContractError>(ContractError::NotAdmin),
            old(self).is_admin(caller@) && has_hook(old(self).hooks@, addr@) ==> r == Err::<(), ContractError>(ContractError::HookAlreadyRegistered),
            old(self).is_admin(caller@) && !has_hook(old(self).hooks@, addr@) ==> r is Ok && final(self).hooks@ == old(self).hooks@.push(addr),
            r is Err ==> *final(self) == *old(self),
            final(self).admin == old(self).admin,
    {
        if !self.check_admin(caller) {
            return Err(ContractError::NotAdmin);
        }
        if hook_position(&self.hooks, &addr).is_some() {
            return Err(ContractError::HookAlreadyRegistered);
        }
        let ghost o = *self;
        self.hooks.push(addr);
        proof {
            lemma_wf_frame(*self, o);
        }
        Ok(())
    }

    /// Unregisters the observer `addr`. Only the admin may do so.
    pub fn remove_hook(&mut self, caller: &String, addr: &String) -> (r: Result<(), ContractError>)
        requires
            old(self).wf(),
        ensures
            final(self).wf(),
            !old(self).is_admin(caller@) ==> r == Err::<(), ContractError>(ContractError::NotAdmin),
            old(self).is_admin(caller@) && !has_hook(old(self).hooks@, addr@) ==> r == Err::<(), ContractError>(ContractError::HookNotRegistered),
            old(self).is_admin(caller@) && has_hook(old(self).hooks@, addr@) ==> r is Ok && exists|i: int|
                0 <= i < old(self).hooks@.len() && old(self).hooks@[i]@ == addr@ && final(self).hooks@ == old(self).hooks@.remove(i),
            r is Err ==> *final(self) == *old(self),
            final(self).admin == old(self).admin,
    {
        if !self.check_admin(caller) {
            return Err(ContractError::NotAdmin);
        }
        let i = match hook_position(&self.hooks, addr) {
            Some(i) => i,
            None => {
                return Err(ContractError::HookNotRegistered);
            },
        };
        let ghost o = *self;
        self.hooks.remove(i);
        proof {
            lemma_wf_frame(*self, o);
        }
        Ok(())
    }

    /// Replaces the admin. Only the admin may do so.
    pub fn update_admin(&mut self, caller: &String, admin: Option<String>) -> (r: Result<(), ContractError>)
        requires
            old(self).wf(),
        ensures
            final(self).wf(),
            !old(self).is_admin(caller@) ==> r == Err::<(), ContractError>(ContractError::NotAdmin) && *final(self) == *old(self),
            old(self).is_admin(caller@) ==> r is Ok && final(self).admin == admin && final(self).hooks == old(self).hooks,
    {
        if !self.check_admin(caller) {
            return Err(ContractError::NotAdmin);
        }
        let ghost o = *self;
        self.admin = admin;
        proof {
            lemma_wf_frame(*self, o);
        }
        Ok(())
    }
}

impl Ledger {
    /// Stake of `addr` in the bucket of `unbonding_period`, and how much of it
    /// is still locked at `now`.
    pub fn query_staked(&self, addr: &String, unbonding_period: u64, now: u64) -> (r: Result<StakedResponse, ContractError>)
        requires
            self.wf(),
        ensures
            self.bucket(unbonding_period) < 0 ==> r == Err::<StakedResponse, ContractError>(ContractError::NoUnbondingPeriodFound(unbonding_period)),
            self.bucket(unbonding_period) >= 0 ==> r is Ok && r->Ok_0.stake == self.stake_of(addr@, unbonding_period)
                && r->Ok_0.total_locked == self.locked_of(addr@, unbonding_period, now)
                && r->Ok_0.unbonding_period == unbonding_period
                && r->Ok_0.cw20_contract == self.config.cw20_contract,
    {
        if self.find_period(unbonding_period).is_none() {
            return Err(ContractError::NoUnbondingPeriodFound(unbonding_period));
        }
        let (stake, locked) = match self.find_record(addr, unbonding_period) {
            Some(i) => {
                proof {
                    lemma_record_index(self.stakes@, addr@, unbonding_period);
                    assert(self.wf_record(self.stakes@[i as int]));
                }
                (self.stakes[i].info.total_stake(), self.stakes[i].info.total_locked(now))
            },
            None => (0, 0),
        };
        Ok(StakedResponse { stake, total_locked: locked, unbonding_period, cw20_contract: self.config.cw20_contract.clone() })
    }

    /// Stake of `a` in the first `n` configured buckets where it has a
    /// record, in the configured order.
    pub open spec fn all_staked(&self, a: Seq<char>, now: u64, n: int) -> Seq<StakedResponse>
        decreases n,
    {
        if n <= 0 {
            Seq::empty()
        } else {
            let prev = self.all_staked(a, now, n - 1);
            let p = self.periods()[n - 1];
            if record_index(self.stakes@, a, p) >= 0 {
                prev.push(StakedResponse {
                    stake: self.stake_of(a, p) as u128,
                    total_locked: self.locked_of(a, p, now) as u128,
                    unbonding_period: p,
                    cw20_contract: self.config.cw20_contract,
                })
            } else {
                prev
            }
        }
    }

    /// Stake of `addr` in each bucket where it has a record, in the order of
    /// the configured periods.
    pub fn query_all_staked(&self, addr: &String, now: u64) -> (r: Vec<StakedResponse>)
        requires
            self.wf(),
        ensures
            r@ == self.all_staked(addr@, now, self.periods().len() as int),
    {
        let mut out: Vec<StakedResponse> = Vec::new();
        let mut j: usize = 0;
        let n = self.config.unbonding_periods.len();
        while j < n
            invariant
                self.wf(),
                n == self.periods().len(),
                0 <= j <= n,
                out@ == self.all_staked(addr@, now, j as int),
            decreases n - j,
        {
            let p = self.config.unbonding_periods[j];
            match self.find_record(addr, p) {
                Some(i) => {
                    proof {
                        lemma_record_index(self.stakes@, addr@, p);
                        assert(self.wf_record(self.stakes@[i as int]));
                    }
                    let e = StakedResponse {
                        stake: self.stakes[i].info.total_stake(),
                        total_locked: self.stakes[i].info.total_locked(now),
                        unbonding_period: p,
                        cw20_contract: self.config.cw20_contract.clone(),
                    };
                    out.push(e);
                },
                None => {},
            }
            j = j + 1;
        }
        out
    }

    /// Configuration and stake of every bucket, in the configured order.
    pub fn query_bonding_info(&self) -> (r: Vec<BondingPeriodInfo>)
        requires
            self.wf_config(),
        ensures
            r@.len() == self.periods().len(),
            forall|j: int| 0 <= j < r@.len() ==> #[trigger] r@[j] == (BondingPeriodInfo {
                unbonding_period: self.periods()[j],
                voting_multiplier: self.stake_config@[j].voting,
                reward_multiplier: self.stake_config@[j].reward,
                total_staked: self.stake_config@[j].staked,
            }),
    {
        let mut out: Vec<BondingPeriodInfo> = Vec::new();
        let mut j: usize = 0;
        while j < self.config.unbonding_periods.len()
            invariant
                self.wf_config(),
                0 <= j <= self.periods().len(),
                out@.len() == j,
                forall|q: int| 0 <= q < j ==> #[trigger] out@[q] == (BondingPeriodInfo {
                    unbonding_period: self.periods()[q],
                    voting_multiplier: self.stake_config@[q].voting,
                    reward_multiplier: self.stake_config@[q].reward,
                    total_staked: self.stake_config@[q].staked,
                }),
            decreases self.periods().len() - j,
        {
            let m = self.stake_config[j];
            out.push(BondingPeriodInfo {
                unbonding_period: self.config.unbonding_periods[j],
                voting_multiplier: m.voting,
                reward_multiplier: m.reward,
                total_staked: m.staked,
            });
            j = j + 1;
        }
        out
    }

    /// Pending claims of `addr`.
    pub fn query_claims(&self, addr: &String) -> (r: Vec<Claim>)
        ensures
            r@ == self.claims_of(addr@),
    {
        match self.find_claims(addr) {
            Some(i) => {
                proof {
                    lemma_claims_index(self.claims@, addr@);
                }
                copy_claims(&self.claims[i].claims)
            },
            None => Vec::new(),
        }
    }

    /// Voting power of `addr` as of `height`, or now when `None`.
    pub fn query_voting_power(&self, addr: &String, height: Option<u64>) -> (r: u128)
        requires
            self.wf(),
        ensures
            height is None ==> r == self.account_votes(addr@),
            height is Some ==> r == crate::voting::power_at(self.votes.members@, addr@, height->0 as int),
    {
        match height {
            Some(h) => self.votes.power_at_height(addr, h),
            None => self.votes.power(addr),
        }
    }

    /// Total voting power as of `height`, or now when `None`.
    pub fn query_total_power(&self, height: Option<u64>) -> (r: u128)
        requires
            self.wf(),
        ensures
            height is None ==> r == rec_sum(self.stakes@, 3, Seq::empty(), 0),
            height is Some ==> r == total_at(self.votes.totals@, height->0 as int),
    {
        match height {
            Some(h) => self.votes.total_at_height(h),
            None => self.votes.total(),
        }
    }

    /// Reward power of `addr`.
    pub fn query_rewards(&self, addr: &String) -> (r: u128)
        requires
            self.wf(),
        ensures
            r == self.account_rewards(addr@),
    {
        proof {
            lemma_reward_index(self.rewards@, addr@);
        }
        match self.find_reward(addr) {
            Some(i) => self.rewards[i].points,
            None => 0,
        }
    }

    /// Rewards that `owner` may withdraw now: zero without a reward account,
    /// `None` when the computation goes out of range.
    pub fn query_withdrawable_rewards(&self, owner: &String) -> (r: Option<u128>)
        requires
            self.wf(),
        ensures
            reward_index(self.rewards@, owner@) < 0 ==> r == Some(0u128),
            reward_index(self.rewards@, owner@) >= 0 ==> {
                let i = reward_index(self.rewards@, owner@);
                &&& self.withdrawable_fits_of(i) ==> r == Some(self.withdrawable_of(i) as u128)
                &&& !self.withdrawable_fits_of(i) ==> r is None
            },
    {
        proof {
            lemma_reward_index(self.rewards@, owner@);
        }
        match self.find_reward(owner) {
            Some(i) => withdrawable_rewards(&self.distribution, self.rewards[i].points, &self.rewards[i].adjustment),
            None => Some(0),
        }
    }

    /// Tokens received and not distributed yet; `balance` is the ledger's
    /// balance in the token.
    pub fn query_undistributed_rewards(&self, balance: u128) -> (r: Option<u128>)
        ensures
            0 <= self.undistributed(balance as int) && self.total_staked.staked + self.total_staked.unbonding <= u128::MAX
                ==> r == Some(self.undistributed(balance as int) as u128),
            self.undistributed(balance as int) < 0 || self.total_staked.staked + self.total_staked.unbonding > u128::MAX ==> r is None,
    {
        let held = match self.total_staked.total() {
            Some(v) => v,
            None => {
                return None;
            },
        };
        if balance < held || balance - held < self.distribution.withdrawable_total {
            return None;
        }
        Some(balance - held - self.distribution.withdrawable_total)
    }

    /// Terms of `owner`'s withdrawals; for an account without a reward
    /// account, no correction, nothing withdrawn and no delegate but itself.
    pub fn query_withdraw_adjustment_data(&self, owner: &String) -> (r: WithdrawAdjustment)
        requires
            self.wf(),
        ensures
            reward_index(self.rewards@, owner@) >= 0 ==> {
                let a = self.rewards@[reward_index(self.rewards@, owner@)].adjustment;
                r.shares_correction == a.shares_correction && r.withdrawn_rewards == a.withdrawn_rewards
                    && r.delegated@ == a.delegated@
            },
            reward_index(self.rewards@, owner@) < 0 ==> r.shares_correction == 0 && r.withdrawn_rewards == 0
                && r.delegated@ == owner@,
    {
        proof {
            lemma_reward_index(self.rewards@, owner@);
        }
        match self.find_reward(owner) {
            Some(i) => {
                let a = &self.rewards[i].adjustment;
                WithdrawAdjustment {
                    shares_correction: a.shares_correction,
                    withdrawn_rewards: a.withdrawn_rewards,
                    delegated: a.delegated.clone(),
                }
            },
            None => WithdrawAdjustment::new(owner.clone()),
        }
    }

    /// Tokens bonded by all accounts.
    pub fn query_total_staked(&self) -> (r: u128)
        ensures
            r == self.total_staked.staked,
    {
        self.total_staked.staked
    }

    /// Tokens unbonded by all accounts and not claimed yet.
    pub fn query_total_unbonding(&self) -> (r: u128)
        ensures
            r == self.total_staked.unbonding,
    {
        self.total_staked.unbonding
    }

    /// Reward power of all accounts.
    pub fn query_total_rewards(&self) -> (r: u128)
        ensures
            r == self.total_rewards,
    {
        self.total_rewards
    }

    /// Rewards distributed so far, and those of them not withdrawn yet.
    pub fn query_distributed_rewards(&self) -> (r: (u128, u128))
        ensures
            r == (self.distribution.distributed_total, self.distribution.withdrawable_total),
    {
        (self.distribution.distributed_total, self.distribution.withdrawable_total)
    }

    /// The account allowed to withdraw for `owner`; the owner itself if none was set.
    pub fn query_delegated(&self, owner: &String) -> (r: String)
        requires
            self.wf(),
        ensures
            r@ == self.delegated_of(owner@),
    {
        proof {
            lemma_reward_index(self.rewards@, owner@);
        }
        match self.find_reward(owner) {
            Some(i) => self.rewards[i].adjustment.delegated.clone(),
            None => owner.clone(),
        }
    }
}

/// Sum of the stake recorded in the buckets.
pub open spec fn buckets_sum(m: Seq<StakeMultipliers>) -> int
    decreases m.len(),
{
    if m.len() == 0 {
        0
    } else {
        buckets_sum(m.drop_last()) + m.last().staked
    }
}

impl TokenInfo {
    /// All tokens the ledger holds as stake, bonded or unbonding; `None` when
    /// the sum does not fit in 128 bits.
    pub fn total(&self) -> (r: Option<u128>)
        ensures
            self.staked + self.unbonding <= u128::MAX ==> r == Some((self.staked + self.unbonding) as u128),
            self.staked + self.unbonding > u128::MAX ==> r is None,
    {
        self.staked.checked_add(self.unbonding)
    }
}

/// Rewards are never paid twice: together, and so each on its own, what the
/// reward accounts may withdraw is covered by what was distributed and not
/// withdrawn yet.
pub proof fn lemma_rewards_covered(l: Ledger)
    requires
        l.wf(),
    ensures
        reward_sum(l.rewards@, 3, l.distribution.shares_per_point as int) <= l.distribution.withdrawable_total,
        forall|i: int| 0 <= i < l.rewards@.len() ==> #[trigger] l.withdrawable_of(i) <= l.distribution.withdrawable_total,
{
    let spp = l.distribution.shares_per_point as int;
    let s = l.rewards@;
    assert forall|i: int| 0 <= i < s.len() implies rsel(#[trigger] s[i], 1, spp) >= 0 && rsel(s[i], 3, spp) >= 0 by {
        let r = s[i];
        assert(adjusted_shares(spp, r.points as int, r.adjustment.shares_correction as int) >= 0);
    };
    lemma_payable_below_pooled(s, spp);
    let x = reward_sum(s, 1, spp);
    let dt = l.distribution.distributed_total as int;
    let u = SHARES_UNIT as int;
    assert(x / u <= dt) by (nonlinear_arith)
        requires x + l.distribution.shares_leftover == dt * u, l.distribution.shares_leftover >= 0, u > 0;
    assert forall|i: int| 0 <= i < s.len() implies #[trigger] l.withdrawable_of(i) <= l.distribution.withdrawable_total by {
        assert(rsel(s[i], 3, spp) == l.withdrawable_of(i));
    };
}

pub proof fn lemma_buckets_sum_update(m: Seq<StakeMultipliers>, j: int, e: StakeMultipliers)
    requires
        0 <= j < m.len(),
    ensures
        buckets_sum(m.update(j, e)) == buckets_sum(m) - m[j].staked + e.staked,
    decreases m.len(),
{
    if j == m.len() - 1 {
        assert(m.update(j, e).drop_last() =~= m.drop_last());
    } else {
        lemma_buckets_sum_update(m.drop_last(), j, e);
        assert(m.update(j, e).drop_last() =~= m.drop_last().update(j, e));
    }
}

pub proof fn lemma_bucket_le_sum(m: Seq<StakeMultipliers>, j: int)
    requires
        0 <= j < m.len(),
    ensures
        m[j].staked <= buckets_sum(m),
    decreases m.len(),
{
    lemma_buckets_sum_nonneg(m.drop_last());
    if j < m.len() - 1 {
        lemma_bucket_le_sum(m.drop_last(), j);
    }
}

pub proof fn lemma_buckets_sum_nonneg(m: Seq<StakeMultipliers>)
    ensures
        buckets_sum(m) >= 0,
    decreases m.len(),
{
    if m.len() > 0 {
        lemma_buckets_sum_nonneg(m.drop_last());
    }
}

/// Sum of the pending claims of all accounts.
pub open spec fn all_claims_sum(s: Seq<AccountClaims>) -> int
    decreases s.len(),
{
    if s.len() == 0 {
        0
    } else {
        all_claims_sum(s.drop_last()) + claims_sum(s.last().claims@)
    }
}

pub proof fn lemma_all_claims_update(s: Seq<AccountClaims>, i: int, e: AccountClaims)
    requires
        0 <= i < s.len(),
    ensures
        all_claims_sum(s.update(i, e)) == all_claims_sum(s) - claims_sum(s[i].claims@) + claims_sum(e.claims@),
    decreases s.len(),
{
    if i == s.len() - 1 {
        assert(s.update(i, e).drop_last() =~= s.drop_last());
    } else {
        lemma_all_claims_update(s.drop_last(), i, e);
        assert(s.update(i, e).drop_last() =~= s.drop_last().update(i, e));
    }
}

pub proof fn lemma_all_claims_remove(s: Seq<AccountClaims>, i: int)
    requires
        0 <= i < s.len(),
    ensures
        all_claims_sum(s.remove(i)) == all_claims_sum(s) - claims_sum(s[i].claims@),
    decreases s.len(),
{
    if i == s.len() - 1 {
        assert(s.remove(i) =~= s.drop_last());
    } else {
        lemma_all_claims_remove(s.drop_last(), i);
        assert(s.remove(i).drop_last() =~= s.drop_last().remove(i));
    }
}

pub proof fn lemma_all_claims_push(s: Seq<AccountClaims>, e: AccountClaims)
    ensures
        all_claims_sum(s.push(e)) == all_claims_sum(s) + claims_sum(e.claims@),
{
    assert(s.push(e).drop_last() =~= s);
}

pub proof fn lemma_claims_le_all(s: Seq<AccountClaims>, i: int)
    requires
        0 <= i < s.len(),
    ensures
        claims_sum(s[i].claims@) <= all_claims_sum(s),
    decreases s.len(),
{
    lemma_all_claims_nonneg(s.drop_last());
    crate::claims::lemma_claims_nonneg(s.last().claims@);
    if i < s.len() - 1 {
        lemma_claims_le_all(s.drop_last(), i);
    }
}

pub proof fn lemma_all_claims_nonneg(s: Seq<AccountClaims>)
    ensures
        all_claims_sum(s) >= 0,
    decreases s.len(),
{
    if s.len() > 0 {
        lemma_all_claims_nonneg(s.drop_last());
        crate::claims::lemma_claims_nonneg(s.last().claims@);
    }
}

/// The account commit of a change of `a`'s powers keeps the rewards of every account.
pub proof fn lemma_rewards_kept(n: Ledger, m: Ledger, o: Ledger, a: Seq<char>)
    requires
        m.rewards == o.rewards,
        m.distribution == o.distribution,
        n.distribution == m.distribution,
        forall|b: Seq<char>| b != a ==> #[trigger] n.reward_terms(b) == m.reward_terms(b),
        n.correction_of(a) == m.correction_of(a) - m.distribution.shares_per_point * (n.points_of(a) - m.points_of(a)),
        n.withdrawn_of(a) == m.withdrawn_of(a),
        n.delegated_of(a) == m.delegated_of(a),
    ensures
        n.rewards_kept(&o, a),
{
    assert forall|b: Seq<char>| b != a implies #[trigger] n.reward_terms(b) == o.reward_terms(b) by {
        assert(n.reward_terms(b) == m.reward_terms(b));
    };
    assert forall|b: Seq<char>| #[trigger] n.account_withdrawable(b) == o.account_withdrawable(b) by {
        if b != a {
            assert(n.reward_terms(b) == m.reward_terms(b));
        } else {
            crate::distribution::lemma_power_change_keeps_earned(m.distribution.shares_per_point as int, m.points_of(a),
                m.correction_of(a), n.points_of(a) - m.points_of(a), 0);
        }
    };
}
} // verus!
