//! Claims of unbonded stake, released once they mature.
use vstd::prelude::*;

verus! {

/// Unbonded stake that can be taken back from `release_at` on.
#[derive(Clone, Copy, Debug, PartialEq, Eq, Structural)]
pub struct Claim {
    pub amount: u128,
    pub release_at: u64,
}

/// Sum of all claimed amounts.
pub open spec fn claims_sum(s: Seq<Claim>) -> int
    decreases s.len(),
{
    if s.len() == 0 {
        0
    } else {
        claims_sum(s.drop_last()) + s.last().amount
    }
}

/// Sum of the claims that have matured by `now`.
pub open spec fn matured_sum(s: Seq<Claim>, now: u64) -> int
    decreases s.len(),
{
    if s.len() == 0 {
        0
    } else {
        matured_sum(s.drop_last(), now) + if s.last().release_at <= now {
            s.last().amount as int
        } else {
            0
        }
    }
}

/// The claims that have not matured by `now`, in their order.
pub open spec fn pending(s: Seq<Claim>, now: u64) -> Seq<Claim>
    decreases s.len(),
{
    if s.len() == 0 {
        Seq::empty()
    } else if s.last().release_at <= now {
        pending(s.drop_last(), now)
    } else {
        pending(s.drop_last(), now).push(s.last())
    }
}

pub proof fn lemma_claims_split(s: Seq<Claim>, now: u64)
    ensures
        claims_sum(s) == matured_sum(s, now) + claims_sum(pending(s, now)),
        matured_sum(s, now) >= 0,
        claims_sum(pending(s, now)) >= 0,
    decreases s.len(),
{
    if s.len() > 0 {
        lemma_claims_split(s.drop_last(), now);
        let p = pending(s.drop_last(), now);
        if s.last().release_at > now {
            assert(p.push(s.last()).drop_last() =~= p);
        }
    }
}

pub proof fn lemma_claims_push(s: Seq<Claim>, c: Claim)
    ensures
        claims_sum(s.push(c)) == claims_sum(s) + c.amount,
{
    assert(s.push(c).drop_last() =~= s);
}

/// Removes the claims that have matured by `now` and returns their sum.
pub fn release_matured(claims: &mut Vec<Claim>, now: u64) -> (r: u128)
    requires
        claims_sum(old(claims)@) <= u128::MAX,
    ensures
        r == matured_sum(old(claims)@, now),
        final(claims)@ == pending(old(claims)@, now),
        claims_sum(old(claims)@) == r + claims_sum(final(claims)@),
{
    let ghost s = claims@;
    let n = claims.len();
    let mut kept: Vec<Claim> = Vec::new();
    let mut released: u128 = 0;
    let mut i: usize = 0;
    proof {
        lemma_claims_split(s, now);
    }
    while i < n
        invariant
            n == s.len(),
            claims@ == s,
            0 <= i <= n,
            kept@ == pending(s.take(i as int), now),
            released == matured_sum(s.take(i as int), now),
            claims_sum(s) <= u128::MAX,
        decreases n - i,
    {
        proof {
            assert(s.take(i as int + 1).drop_last() =~= s.take(i as int));
            lemma_claims_split(s.take(i as int + 1), now);
            lemma_claims_prefix(s, i as int + 1);
        }
        let c = claims[i];
        if c.release_at <= now {
            released = released + c.amount;
        } else {
            kept.push(c);
        }
        i = i + 1;
    }
    proof {
        assert(s.take(n as int) =~= s);
    }
    *claims = kept;
    released
}

proof fn lemma_claims_prefix(s: Seq<Claim>, i: int)
    requires
        0 <= i <= s.len(),
    ensures
        claims_sum(s.take(i)) <= claims_sum(s),
    decreases s.len(),
{
    if i < s.len() {
        lemma_claims_prefix(s.drop_last(), i);
        assert(s.drop_last().take(i) =~= s.take(i));
        lemma_claims_split(s, 0);
        lemma_claims_nonneg(s.drop_last());
    } else {
        assert(s.take(i) =~= s);
    }
}

pub proof fn lemma_claims_nonneg(s: Seq<Claim>)
    ensures
        claims_sum(s) >= 0,
    decreases s.len(),
{
    if s.len() > 0 {
        lemma_claims_nonneg(s.drop_last());
    }
}

/// Sum of the claims; `None` when it does not fit in 128 bits.
pub fn claims_total(claims: &Vec<Claim>) -> (r: Option<u128>)
    ensures
        claims_sum(claims@) >= 0,
        claims_sum(claims@) <= u128::MAX ==> r == Some(claims_sum(claims@) as u128),
        claims_sum(claims@) > u128::MAX ==> r is None,
{
    let ghost s = claims@;
    proof {
        lemma_claims_nonneg(s);
    }
    let mut sum: u128 = 0;
    let mut i: usize = 0;
    while i < claims.len()
        invariant
            0 <= i <= s.len(),
            claims@ == s,
            sum == claims_sum(s.take(i as int)),
        decreases s.len() - i,
    {
        proof {
            assert(s.take(i as int + 1).drop_last() =~= s.take(i as int));
            lemma_claims_prefix(s, i as int + 1);
        }
        match sum.checked_add(claims[i].amount) {
            Some(v) => {
                sum = v;
            },
            None => {
                return None;
            },
        }
        i = i + 1;
    }
    proof {
        assert(s.take(s.len() as int) =~= s);
    }
    Some(sum)
}

/// A copy of the claims.
pub fn copy_claims(claims: &Vec<Claim>) -> (r: Vec<Claim>)
    ensures
        r@ == claims@,
{
    let mut out: Vec<Claim> = Vec::new();
    let mut i: usize = 0;
    while i < claims.len()
        invariant
            0 <= i <= claims@.len(),
            out@ == claims@.take(i as int),
        decreases claims@.len() - i,
    {
        out.push(claims[i]);
        i = i + 1;
        proof {
            assert(out@ =~= claims@.take(i as int));
        }
    }
    proof {
        assert(out@ =~= claims@);
    }
    out
}

} // verus!
