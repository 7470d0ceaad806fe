//! Per-(account, bucket) stake record: free stake plus time-locked entries.
use vstd::prelude::*;

use crate::error::{OverflowError, OverflowOperation};

verus! {

/// Amount of one locked entry that counts for the given selector:
/// `0` every entry, `1` entries unlocked at `now`, `2` entries still locked at `now`.
pub open spec fn pick(e: (u64, u128), now: u64, k: int) -> int {
    if k == 0 || (k == 1 && e.0 <= now) || (k == 2 && e.0 > now) {
        e.1 as int
    } else {
        0
    }
}

/// Sum of the locked entries selected by `k` (see `pick`).
pub open spec fn sum_sel(s: Seq<(u64, u128)>, now: u64, k: int) -> int
    decreases s.len(),
{
    if s.len() == 0 {
        0
    } else {
        sum_sel(s.drop_last(), now, k) + pick(s.last(), now, k)
    }
}

/// Sum of all locked amounts.
pub open spec fn locked_sum(s: Seq<(u64, u128)>) -> int {
    sum_sel(s, 0, 0)
}

/// Locked entries are ordered by strictly increasing unlock time.
pub open spec fn sorted_by_time(s: Seq<(u64, u128)>) -> bool {
    forall|i: int, j: int| 0 <= i < j < s.len() ==> s[i].0 < s[j].0
}

pub proof fn lemma_sum_nonneg(s: Seq<(u64, u128)>, now: u64, k: int)
    ensures
        sum_sel(s, now, k) >= 0,
    decreases s.len(),
{
    if s.len() > 0 {
        lemma_sum_nonneg(s.drop_last(), now, k);
    }
}

/// The sum over all entries does not depend on the time.
pub proof fn lemma_sum_all_any_time(s: Seq<(u64, u128)>, now: u64)
    ensures
        sum_sel(s, now, 0) == locked_sum(s),
    decreases s.len(),
{
    if s.len() > 0 {
        lemma_sum_all_any_time(s.drop_last(), now);
    }
}

/// Every entry is either unlocked or still locked at `now`.
pub proof fn lemma_sum_parts(s: Seq<(u64, u128)>, now: u64)
    ensures
        sum_sel(s, now, 0) == sum_sel(s, now, 1) + sum_sel(s, now, 2),
    decreases s.len(),
{
    if s.len() > 0 {
        lemma_sum_parts(s.drop_last(), now);
    }
}

pub proof fn lemma_sum_split(s: Seq<(u64, u128)>, i: int, now: u64, k: int)
    requires
        0 <= i <= s.len(),
    ensures
        sum_sel(s, now, k) == sum_sel(s.take(i), now, k) + sum_sel(s.skip(i), now, k),
    decreases s.len(),
{
    if i == s.len() {
        assert(s.take(i) =~= s);
        assert(s.skip(i).len() == 0);
    } else {
        lemma_sum_split(s.drop_last(), i, now, k);
        assert(s.drop_last().take(i) =~= s.take(i));
        assert(s.drop_last().skip(i) =~= s.skip(i).drop_last());
    }
}

pub proof fn lemma_sum_insert(s: Seq<(u64, u128)>, i: int, e: (u64, u128), now: u64, k: int)
    requires
        0 <= i <= s.len(),
    ensures
        sum_sel(s.insert(i, e), now, k) == sum_sel(s, now, k) + pick(e, now, k),
    decreases s.len(),
{
    if i == s.len() {
        assert(s.insert(i, e).drop_last() =~= s);
    } else {
        lemma_sum_insert(s.drop_last(), i, e, now, k);
        assert(s.insert(i, e).drop_last() =~= s.drop_last().insert(i, e));
    }
}

pub proof fn lemma_sum_update(s: Seq<(u64, u128)>, i: int, e: (u64, u128), now: u64, k: int)
    requires
        0 <= i < s.len(),
    ensures
        sum_sel(s.update(i, e), now, k) == sum_sel(s, now, k) - pick(s[i], now, k) + pick(e, now, k),
    decreases s.len(),
{
    if i == s.len() - 1 {
        assert(s.update(i, e).drop_last() =~= s.drop_last());
    } else {
        lemma_sum_update(s.drop_last(), i, e, now, k);
        assert(s.update(i, e).drop_last() =~= s.drop_last().update(i, e));
    }
}

/// A sum that selects nothing in `s` is zero.
pub proof fn lemma_sum_none(s: Seq<(u64, u128)>, now: u64, k: int)
    requires
        forall|j: int| 0 <= j < s.len() ==> pick(#[trigger] s[j], now, k) == 0,
    ensures
        sum_sel(s, now, k) == 0,
    decreases s.len(),
{
    if s.len() > 0 {
        lemma_sum_none(s.drop_last(), now, k);
        assert(pick(s[s.len() - 1], now, k) == 0);
    }
}

/// Stake of one account in one bucket.
#[derive(Clone, Debug)]
pub struct BondingInfo {
    /// Stake that is not locked.
    pub stake: u128,
    /// Voting power of this record.
    pub votes: u128,
    /// Reward power of this record.
    pub rewards: u128,
    /// Locked entries `(unlock_time, amount)`, ordered by unlock time.
    pub locked_tokens: Vec<(u64, u128)>,
}

impl BondingInfo {
    /// Free stake plus every locked amount.
    pub open spec fn total(&self) -> int {
        self.stake + locked_sum(self.locked_tokens@)
    }

    /// Locked amounts that are still locked at `now`.
    pub open spec fn locked_at(&self, now: u64) -> int {
        sum_sel(self.locked_tokens@, now, 2)
    }

    /// Free stake plus the locked amounts that have matured by `now`.
    pub open spec fn unlocked_at(&self, now: u64) -> int {
        self.stake + sum_sel(self.locked_tokens@, now, 1)
    }

    /// The entries are ordered and the whole stake fits in 128 bits.
    pub open spec fn wf(&self) -> bool {
        &&& sorted_by_time(self.locked_tokens@)
        &&& self.total() <= u128::MAX
    }

    /// An empty record.
    pub fn new() -> (r: BondingInfo)
        ensures
            r.wf(),
            r.stake == 0,
            r.votes == 0,
            r.rewards == 0,
            r.locked_tokens@.len() == 0,
            r.total() == 0,
    {
        BondingInfo { stake: 0, votes: 0, rewards: 0, locked_tokens: Vec::new() }
    }

    /// Adds `amount` to the free stake and returns the new free stake.
    pub fn add_unlocked_tokens(&mut self, amount: u128) -> (r: u128)
        requires
            old(self).wf(),
            old(self).total() + amount <= u128::MAX,
        ensures
            final(self).wf(),
            r == final(self).stake,
            final(self).stake == old(self).stake + amount,
            final(self).locked_tokens@ == old(self).locked_tokens@,
            final(self).votes == old(self).votes,
            final(self).rewards == old(self).rewards,
            final(self).total() == old(self).total() + amount,
    {
        proof {
            lemma_sum_nonneg(self.locked_tokens@, 0, 0);
        }
        self.stake = self.stake + amount;
        self.stake
    }

    /// Adds a locked entry of `amount` that matures at `expires`, keeping the
    /// entries ordered; an entry with the same time absorbs the amount.
    pub fn add_locked_tokens(&mut self, expires: u64, amount: u128)
        requires
            old(self).wf(),
            old(self).total() + amount <= u128::MAX,
        ensures
            final(self).wf(),
            final(self).stake == old(self).stake,
            final(self).votes == old(self).votes,
            final(self).rewards == old(self).rewards,
            final(self).total() == old(self).total() + amount,
            forall|now: u64|
                #![trigger final(self).locked_at(now)]
                final(self).locked_at(now) == old(self).locked_at(now) + if expires > now {
                    amount as int
                } else {
                    0
                },
            forall|now: u64|
                #![trigger final(self).unlocked_at(now)]
                final(self).unlocked_at(now) == old(self).unlocked_at(now) + if expires <= now {
                    amount as int
                } else {
                    0
                },
    {
        let ghost s = self.locked_tokens@;
        let n = self.locked_tokens.len();
        let mut i: usize = 0;
        while i < n && self.locked_tokens[i].0 < expires
            invariant
                n == s.len(),
                self.locked_tokens@ == s,
                0 <= i <= n,
                forall|j: int| 0 <= j < i ==> s[j].0 < expires,
            decreases n - i,
        {
            i = i + 1;
        }
        let e = (expires, amount);
        if i < n && self.locked_tokens[i].0 == expires {
            let old_amount = self.locked_tokens[i].1;
            proof {
                lemma_sum_split(s, i as int, 0, 0);
                lemma_sum_split(s.skip(i as int), 1, 0, 0);
                lemma_sum_nonneg(s.take(i as int), 0, 0);
                lemma_sum_nonneg(s.skip(i as int).skip(1), 0, 0);
                let t = s.skip(i as int).take(1);
                assert(t.drop_last().len() == 0);
                assert(sum_sel(t.drop_last(), 0, 0) == 0);
                assert(sum_sel(t, 0, 0) == sum_sel(t.drop_last(), 0, 0) + pick(t.last(), 0, 0));
                assert(s.skip(i as int).take(1).last() == s[i as int]);
                assert(sum_sel(s.skip(i as int).take(1), 0, 0) == old_amount);
            }
            let ne = (expires, old_amount + amount);
            self.locked_tokens.set(i, ne);
            proof {
                assert forall|now: u64, k: int|
                    sum_sel(self.locked_tokens@, now, k) == sum_sel(s, now, k) + pick(e, now, k) by {
                    lemma_sum_update(s, i as int, ne, now, k);
                };
                assert(self.locked_tokens@.len() == s.len());
                assert(forall|j: int| 0 <= j < s.len() && j != i ==> self.locked_tokens@[j] == s[j]);
            }
        } else {
            self.locked_tokens.insert(i, e);
            proof {
                assert(self.locked_tokens@ == s.insert(i as int, e));
                assert forall|now: u64, k: int|
                    sum_sel(self.locked_tokens@, now, k) == sum_sel(s, now, k) + pick(e, now, k) by {
                    lemma_sum_insert(s, i as int, e, now, k);
                };
            }
        }
        proof {
            assert(locked_sum(self.locked_tokens@) == locked_sum(s) + amount);
            assert forall|now: u64| #![trigger self.locked_at(now)]
                self.locked_at(now) == old(self).locked_at(now) + pick(e, now, 2) by {};
            assert forall|now: u64| #![trigger self.unlocked_at(now)]
                self.unlocked_at(now) == old(self).unlocked_at(now) + pick(e, now, 1) by {};
        }
    }

    /// Moves every locked entry that has matured by `now` into the free stake.
    pub fn free_unlocked_tokens(&mut self, now: u64)
        requires
            old(self).wf(),
        ensures
            final(self).wf(),
            final(self).stake == old(self).unlocked_at(now),
            final(self).locked_at(now) == old(self).locked_at(now),
            sum_sel(final(self).locked_tokens@, now, 1) == 0,
            forall|j: int|
                0 <= j < final(self).locked_tokens@.len() ==> #[trigger] final(self).locked_tokens@[j].0
                    > now,
            final(self).total() == old(self).total(),
            final(self).votes == old(self).votes,
            final(self).rewards == old(self).rewards,
            old(self).locked_tokens@.len() >= final(self).locked_tokens@.len(),
            final(self).locked_tokens@ == old(self).locked_tokens@.skip(
                old(self).locked_tokens@.len() - final(self).locked_tokens@.len(),
            ),
            forall|j: int|
                0 <= j < old(self).locked_tokens@.len() - final(self).locked_tokens@.len() ==> #[trigger] old(
                    self,
                ).locked_tokens@[j].0 <= now,
    {
        let ghost s = self.locked_tokens@;
        let n = self.locked_tokens.len();
        let mut i: usize = 0;
        let mut unlocked: u128 = 0;
        proof {
            lemma_sum_parts(s, now);
            lemma_sum_all_any_time(s, now);
            lemma_sum_nonneg(s, now, 1);
            lemma_sum_nonneg(s, now, 2);
        }
        while i < n && self.locked_tokens[i].0 <= now
            invariant
                n == s.len(),
                self.locked_tokens@ == s,
                0 <= i <= n,
                forall|j: int| 0 <= j < i ==> s[j].0 <= now,
                unlocked == sum_sel(s.take(i as int), now, 0),
                unlocked == sum_sel(s.take(i as int), now, 1),
                sum_sel(s, now, 1) <= locked_sum(s),
                self.stake + locked_sum(s) <= u128::MAX,
            decreases n - i,
        {
            proof {
                lemma_sum_split(s.take(i as int + 1), i as int, now, 0);
                lemma_sum_split(s.take(i as int + 1), i as int, now, 1);
                lemma_sum_split(s, i as int + 1, now, 1);
                lemma_sum_nonneg(s.skip(i as int + 1), now, 1);
                let t = s.take(i as int + 1).skip(i as int);
                assert(t.drop_last().len() == 0);
                assert(sum_sel(t.drop_last(), now, 0) == 0);
                assert(sum_sel(t.drop_last(), now, 1) == 0);
                assert(t.last() == s[i as int]);
                assert(s.take(i as int + 1).take(i as int) =~= s.take(i as int));
            }
            unlocked = unlocked + self.locked_tokens[i].1;
            i = i + 1;
        }
        proof {
            assert forall|a: int, b: int| i <= a < b < n implies s[a].0 < s[b].0 by {};
            assert forall|j: int| 0 <= j < s.skip(i as int).len() implies #[trigger] s.skip(i as int)[j].0 > now by {
                if i < n {
                    assert(s[i as int].0 > now);
                    if j > 0 {
                        assert(s[i as int].0 < s[i + j].0);
                    }
                }
            };
            lemma_sum_split(s, i as int, now, 0);
            lemma_sum_split(s, i as int, now, 1);
            lemma_sum_split(s, i as int, now, 2);
            lemma_sum_none(s.skip(i as int), now, 1);
            assert forall|j: int| 0 <= j < s.take(i as int).len() implies pick(#[trigger] s.take(i as int)[j], now, 2) == 0 by {};
            lemma_sum_none(s.take(i as int), now, 2);
            lemma_sum_parts(s.skip(i as int), now);
            lemma_sum_all_any_time(s.skip(i as int), now);
        }
        let remaining = self.locked_tokens.split_off(i);
        self.locked_tokens = remaining;
        proof {
            assert(self.locked_tokens@ =~= s.skip(i as int));
        }
        self.stake = self.stake + unlocked;
    }

    /// Releases matured entries, then takes `amount` from the free stake.
    /// Fails with a subtraction overflow when the free stake is too small.
    pub fn release_stake(&mut self, now: u64, amount: u128) -> (r: Result<u128, OverflowError>)
        requires
            old(self).wf(),
        ensures
            final(self).wf(),
            final(self).votes == old(self).votes,
            final(self).rewards == old(self).rewards,
            final(self).locked_at(now) == old(self).locked_at(now),
            old(self).locked_tokens@.len() >= final(self).locked_tokens@.len(),
            final(self).locked_tokens@ == old(self).locked_tokens@.skip(
                old(self).locked_tokens@.len() - final(self).locked_tokens@.len(),
            ),
            forall|j: int|
                0 <= j < old(self).locked_tokens@.len() - final(self).locked_tokens@.len() ==> #[trigger] old(
                    self,
                ).locked_tokens@[j].0 <= now,
            amount <= old(self).unlocked_at(now) ==> {
                &&& r == Ok::<u128, OverflowError>(final(self).stake)
                &&& final(self).stake == old(self).unlocked_at(now) - amount
                &&& final(self).total() == old(self).total() - amount
            },
            amount > old(self).unlocked_at(now) ==> {
                &&& r == Err::<u128, OverflowError>(
                    OverflowError {
                        operation: OverflowOperation::Sub,
                        operand1: old(self).unlocked_at(now) as u128,
                        operand2: amount,
                    },
                )
                &&& final(self).stake == old(self).unlocked_at(now)
                &&& final(self).total() == old(self).total()
            },
    {
        self.free_unlocked_tokens(now);
        if self.stake < amount {
            return Err(
                OverflowError { operation: OverflowOperation::Sub, operand1: self.stake, operand2: amount },
            );
        }
        self.stake = self.stake - amount;
        Ok(self.stake)
    }

    /// Sum of the entries still locked at `now`.
    pub fn total_locked(&self, now: u64) -> (r: u128)
        requires
            self.wf(),
        ensures
            r == self.locked_at(now),
    {
        let ghost s = self.locked_tokens@;
        let n = self.locked_tokens.len();
        let mut i: usize = 0;
        let mut sum: u128 = 0;
        proof {
            lemma_sum_parts(s, now);
            lemma_sum_all_any_time(s, now);
            lemma_sum_nonneg(s, now, 1);
        }
        while i < n
            invariant
                n == s.len(),
                self.locked_tokens@ == s,
                0 <= i <= n,
                sum == sum_sel(s.take(i as int), now, 2),
                sum_sel(s, now, 2) <= u128::MAX,
            decreases n - i,
        {
            proof {
                assert(s.take(i as int + 1).drop_last() =~= s.take(i as int));
                lemma_sum_split(s, i as int + 1, now, 2);
                lemma_sum_nonneg(s.skip(i as int + 1), now, 2);
            }
            if self.locked_tokens[i].0 > now {
                sum = sum + self.locked_tokens[i].1;
            }
            i = i + 1;
        }
        proof {
            assert(s.take(n as int) =~= s);
        }
        sum
    }

    /// Free stake plus the entries that have matured by `now`.
    pub fn total_unlocked(&self, now: u64) -> (r: u128)
        requires
            self.wf(),
        ensures
            r == self.unlocked_at(now),
    {
        let ghost s = self.locked_tokens@;
        let n = self.locked_tokens.len();
        let mut i: usize = 0;
        let mut sum: u128 = self.stake;
        proof {
            lemma_sum_parts(s, now);
            lemma_sum_all_any_time(s, now);
            lemma_sum_nonneg(s, now, 2);
        }
        while i < n
            invariant
                n == s.len(),
                self.locked_tokens@ == s,
                0 <= i <= n,
                sum == self.stake + sum_sel(s.take(i as int), now, 1),
                self.stake + sum_sel(s, now, 1) <= u128::MAX,
            decreases n - i,
        {
            proof {
                assert(s.take(i as int + 1).drop_last() =~= s.take(i as int));
                lemma_sum_split(s, i as int + 1, now, 1);
                lemma_sum_nonneg(s.skip(i as int + 1), now, 1);
            }
            if self.locked_tokens[i].0 <= now {
                sum = sum + self.locked_tokens[i].1;
            }
            i = i + 1;
        }
        proof {
            assert(s.take(n as int) =~= s);
        }
        sum
    }

    /// Free stake plus every locked entry.
    pub fn total_stake(&self) -> (r: u128)
        requires
            self.wf(),
        ensures
            r == self.total(),
    {
        let ghost s = self.locked_tokens@;
        let n = self.locked_tokens.len();
        let mut i: usize = 0;
        let mut sum: u128 = self.stake;
        while i < n
            invariant
                n == s.len(),
                self.locked_tokens@ == s,
                0 <= i <= n,
                sum == self.stake + sum_sel(s.take(i as int), 0, 0),
                self.stake + sum_sel(s, 0, 0) <= u128::MAX,
            decreases n - i,
        {
            proof {
                assert(s.take(i as int + 1).drop_last() =~= s.take(i as int));
                lemma_sum_split(s, i as int + 1, 0, 0);
                lemma_sum_nonneg(s.skip(i as int + 1), 0, 0);
            }
            sum = sum + self.locked_tokens[i].1;
            i = i + 1;
        }
        proof {
            assert(s.take(n as int) =~= s);
        }
        sum
    }

    /// A copy of this record.
    pub fn duplicate(&self) -> (r: BondingInfo)
        ensures
            r.stake == self.stake,
            r.votes == self.votes,
            r.rewards == self.rewards,
            r.locked_tokens@ == self.locked_tokens@,
    {
        let mut locked: Vec<(u64, u128)> = Vec::new();
        let mut i: usize = 0;
        while i < self.locked_tokens.len()
            invariant
                0 <= i <= self.locked_tokens@.len(),
                locked@ == self.locked_tokens@.take(i as int),
            decreases self.locked_tokens@.len() - i,
        {
            locked.push(self.locked_tokens[i]);
            i = i + 1;
            proof {
                assert(locked@ =~= self.locked_tokens@.take(i as int));
            }
        }
        proof {
            assert(locked@ =~= self.locked_tokens@);
        }
        BondingInfo { stake: self.stake, votes: self.votes, rewards: self.rewards, locked_tokens: locked }
    }
}

} // verus!
