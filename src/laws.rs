//! Laws of the ledger that relate several of its parts: conservation of
//! stake, powers determined by stake, and locked stake that cannot leave.
use vstd::prelude::*;

use crate::ledger::{
    buckets_sum, lemma_period_index, lemma_rec_sum_push, lemma_record_index, period_index, rec_sum,
    record_index, sel, Ledger, StakeMultipliers, StakeRecord,
};
use crate::power::power;

verus! {

/// Sum of the stake of all records.
pub open spec fn records_sum(s: Seq<StakeRecord>) -> int
    decreases s.len(),
{
    if s.len() == 0 {
        0
    } else {
        records_sum(s.drop_last()) + s.last().info.total()
    }
}

/// Sum over the periods `ps` of the stake the records hold in each.
pub open spec fn per_period_sum(s: Seq<StakeRecord>, ps: Seq<u64>) -> int
    decreases ps.len(),
{
    if ps.len() == 0 {
        0
    } else {
        per_period_sum(s, ps.drop_last()) + rec_sum(s, 0, Seq::empty(), ps.last())
    }
}

/// What one record contributes over the periods `ps`.
pub open spec fn record_over_periods(r: StakeRecord, ps: Seq<u64>) -> int
    decreases ps.len(),
{
    if ps.len() == 0 {
        0
    } else {
        record_over_periods(r, ps.drop_last()) + sel(r, 0, Seq::empty(), ps.last())
    }
}

proof fn lemma_per_period_push(s: Seq<StakeRecord>, r: StakeRecord, ps: Seq<u64>)
    ensures
        per_period_sum(s.push(r), ps) == per_period_sum(s, ps) + record_over_periods(r, ps),
    decreases ps.len(),
{
    if ps.len() > 0 {
        lemma_per_period_push(s, r, ps.drop_last());
        lemma_rec_sum_push(s, r, 0, Seq::empty(), ps.last());
    }
}

proof fn lemma_record_over_unique_periods(r: StakeRecord, ps: Seq<u64>)
    requires
        forall|i: int, j: int| 0 <= i < j < ps.len() ==> ps[i] != ps[j],
        period_index(ps, r.unbonding_period) >= 0,
    ensures
        record_over_periods(r, ps) == r.info.total(),
    decreases ps.len(),
{
    let q = ps.drop_last();
    if ps.last() == r.unbonding_period {
        lemma_period_index(q, r.unbonding_period);
        lemma_record_over_absent(r, q);
    } else {
        lemma_record_over_unique_periods(r, q);
    }
}

proof fn lemma_record_over_absent(r: StakeRecord, ps: Seq<u64>)
    requires
        forall|j: int| 0 <= j < ps.len() ==> ps[j] != r.unbonding_period,
    ensures
        record_over_periods(r, ps) == 0,
    decreases ps.len(),
{
    if ps.len() > 0 {
        lemma_record_over_absent(r, ps.drop_last());
    }
}

proof fn lemma_per_period_is_records(s: Seq<StakeRecord>, ps: Seq<u64>)
    requires
        forall|i: int, j: int| 0 <= i < j < ps.len() ==> ps[i] != ps[j],
        forall|k: int| 0 <= k < s.len() ==> period_index(ps, (#[trigger] s[k]).unbonding_period) >= 0,
    ensures
        per_period_sum(s, ps) == records_sum(s),
    decreases s.len(),
{
    if s.len() == 0 {
        lemma_per_period_empty(ps);
        assert(s =~= Seq::<StakeRecord>::empty());
    } else {
        let q = s.drop_last();
        lemma_per_period_is_records(q, ps);
        assert(q.push(s.last()) =~= s);
        lemma_per_period_push(q, s.last(), ps);
        assert(period_index(ps, s[s.len() - 1].unbonding_period) >= 0);
        lemma_record_over_unique_periods(s.last(), ps);
        assert(forall|k: int| 0 <= k < q.len() ==> q[k] == s[k]);
    }
}

proof fn lemma_per_period_empty(ps: Seq<u64>)
    ensures
        per_period_sum(Seq::empty(), ps) == 0,
    decreases ps.len(),
{
    if ps.len() > 0 {
        lemma_per_period_empty(ps.drop_last());
    }
}

proof fn lemma_buckets_are_per_period(m: Seq<StakeMultipliers>, ps: Seq<u64>, s: Seq<StakeRecord>)
    requires
        m.len() == ps.len(),
        forall|j: int| 0 <= j < ps.len() ==> #[trigger] m[j].staked == rec_sum(s, 0, Seq::empty(), ps[j]),
    ensures
        buckets_sum(m) == per_period_sum(s, ps),
    decreases m.len(),
{
    if m.len() > 0 {
        lemma_buckets_are_per_period(m.drop_last(), ps.drop_last(), s);
    }
}

/// Conservation: the stake recorded over all buckets, and the ledger's
/// bonded total, are the stake of all records of all accounts, in every
/// state the ledger's operations reach.
pub proof fn lemma_conservation(l: Ledger)
    requires
        l.wf(),
    ensures
        buckets_sum(l.stake_config@) == records_sum(l.stakes@),
        l.total_staked.staked == records_sum(l.stakes@),
{
    assert forall|k: int| 0 <= k < l.stakes@.len() implies period_index(l.periods(), (#[trigger] l.stakes@[k]).unbonding_period) >= 0 by {
        assert(l.wf_record(l.stakes@[k]));
    };
    lemma_per_period_is_records(l.stakes@, l.periods());
    lemma_buckets_are_per_period(l.stake_config@, l.periods(), l.stakes@);
}

/// Power determinism: in every state the ledger's operations reach, the
/// votes and rewards of each account in each bucket are the powers of its
/// whole stake there under the bucket's multipliers.
pub proof fn lemma_power_determined(l: Ledger, a: Seq<char>, p: u64)
    requires
        l.wf(),
        record_index(l.stakes@, a, p) >= 0,
    ensures
        ({
            let r = l.stakes@[record_index(l.stakes@, a, p)];
            let j = l.bucket(p);
            &&& j >= 0
            &&& r.info.votes == power(l.config.min_bond as int, l.config.tokens_per_power as int,
                l.stake_of(a, p), l.stake_config@[j].voting as int)
            &&& r.info.rewards == power(l.config.min_bond as int, l.config.tokens_per_power as int,
                l.stake_of(a, p), l.stake_config@[j].reward as int)
        }),
{
    lemma_record_index(l.stakes@, a, p);
    assert(l.wf_record(l.stakes@[record_index(l.stakes@, a, p)]));
}

/// Locked stake cannot be unbonded: at any time, the stake of a record that
/// is free is its whole stake less what is still locked. So after a rebond
/// that locks `amount` until some time, unbonding or rebonding more than the
/// rest of the destination's stake before then fails, by the contracts of
/// `execute_unbond` and `execute_rebond`.
pub proof fn lemma_locked_not_free(l: Ledger, a: Seq<char>, p: u64, t: u64, amount: int)
    requires
        l.wf(),
        l.locked_of(a, p, t) >= amount,
    ensures
        l.unlocked_of(a, p, t) <= l.stake_of(a, p) - amount,
        l.unlocked_of(a, p, t) == l.stake_of(a, p) - l.locked_of(a, p, t),
{
    lemma_record_index(l.stakes@, a, p);
    let i = record_index(l.stakes@, a, p);
    if i >= 0 {
        let s = l.stakes@[i].info.locked_tokens@;
        crate::bonding::lemma_sum_parts(s, t);
        crate::bonding::lemma_sum_all_any_time(s, t);
    }
}

} // verus!
