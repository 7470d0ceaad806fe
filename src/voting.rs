//! Height-versioned voting power of each account and of all accounts.
use vstd::prelude::*;

verus! {

/// Power of `addr` written at `height`; zero marks an account that left.
#[derive(Clone, Debug)]
pub struct Checkpoint {
    pub addr: String,
    pub height: u64,
    pub power: u128,
}

/// Power of `addr` as of `height`: the last write at or before that height.
pub open spec fn power_at(log: Seq<Checkpoint>, addr: Seq<char>, height: int) -> int
    decreases log.len(),
{
    if log.len() == 0 {
        0
    } else if log.last().addr@ == addr && log.last().height <= height {
        log.last().power as int
    } else {
        power_at(log.drop_last(), addr, height)
    }
}

/// Current power of `addr`: its last write.
pub open spec fn current_power(log: Seq<Checkpoint>, addr: Seq<char>) -> int {
    power_at(log, addr, u64::MAX as int)
}

/// Total power as of `height`: the last write at or before that height.
pub open spec fn total_at(log: Seq<(u64, u128)>, height: int) -> int
    decreases log.len(),
{
    if log.len() == 0 {
        0
    } else if log.last().0 <= height {
        log.last().1 as int
    } else {
        total_at(log.drop_last(), height)
    }
}

/// Heights of the writes never decrease.
pub open spec fn heights_ordered(log: Seq<Checkpoint>) -> bool {
    forall|i: int, j: int| 0 <= i < j < log.len() ==> log[i].height <= log[j].height
}

/// Heights of the writes of the total never decrease.
pub open spec fn total_heights_ordered(log: Seq<(u64, u128)>) -> bool {
    forall|i: int, j: int| 0 <= i < j < log.len() ==> log[i].0 <= log[j].0
}

/// Voting power index: a changelog per account and one for the total.
#[derive(Clone, Debug)]
pub struct VotingIndex {
    pub members: Vec<Checkpoint>,
    pub totals: Vec<(u64, u128)>,
}

impl VotingIndex {
    pub open spec fn wf(&self) -> bool {
        &&& heights_ordered(self.members@)
        &&& total_heights_ordered(self.totals@)
    }

    /// Height of the last write, zero if none.
    pub open spec fn last_height(&self) -> int {
        let a = if self.members@.len() == 0 { 0 } else { self.members@.last().height as int };
        let b = if self.totals@.len() == 0 { 0 } else { self.totals@.last().0 as int };
        if a < b { b } else { a }
    }

    /// An index whose total is zero from `height` on.
    pub fn new(height: u64) -> (r: VotingIndex)
        ensures
            r.wf(),
            r.members@.len() == 0,
            r.totals@ == seq![(height, 0u128)],
            r.last_height() == height,
    {
        let mut totals: Vec<(u64, u128)> = Vec::new();
        totals.push((height, 0));
        VotingIndex { members: Vec::new(), totals }
    }

    /// Power of `addr` as of `height`.
    pub fn power_at_height(&self, addr: &String, height: u64) -> (r: u128)
        ensures
            r == power_at(self.members@, addr@, height as int),
    {
        let mut i: usize = self.members.len();
        proof {
            assert(self.members@.take(i as int) =~= self.members@);
        }
        while i > 0
            invariant
                0 <= i <= self.members@.len(),
                power_at(self.members@, addr@, height as int) == power_at(self.members@.take(i as int), addr@, height as int),
            decreases i,
        {
            let c = &self.members[i - 1];
            proof {
                assert(self.members@.take(i as int).drop_last() =~= self.members@.take(i - 1));
            }
            if c.addr == *addr && c.height <= height {
                return c.power;
            }
            i = i - 1;
        }
        0
    }

    /// Current power of `addr`.
    pub fn power(&self, addr: &String) -> (r: u128)
        ensures
            r == current_power(self.members@, addr@),
    {
        self.power_at_height(addr, u64::MAX)
    }

    /// Total power as of `height`.
    pub fn total_at_height(&self, height: u64) -> (r: u128)
        ensures
            r == total_at(self.totals@, height as int),
    {
        let mut i: usize = self.totals.len();
        proof {
            assert(self.totals@.take(i as int) =~= self.totals@);
        }
        while i > 0
            invariant
                0 <= i <= self.totals@.len(),
                total_at(self.totals@, height as int) == total_at(self.totals@.take(i as int), height as int),
            decreases i,
        {
            let c = self.totals[i - 1];
            proof {
                assert(self.totals@.take(i as int).drop_last() =~= self.totals@.take(i - 1));
            }
            if c.0 <= height {
                return c.1;
            }
            i = i - 1;
        }
        0
    }

    /// Current total power.
    pub fn total(&self) -> (r: u128)
        ensures
            r == total_at(self.totals@, u64::MAX as int),
    {
        self.total_at_height(u64::MAX)
    }

    /// Records `power` for `addr` from `height` on.
    pub fn set_power(&mut self, addr: String, height: u64, power: u128)
        requires
            old(self).wf(),
            old(self).last_height() <= height,
        ensures
            final(self).wf(),
            final(self).totals@ == old(self).totals@,
            final(self).last_height() == height,
            forall|a: Seq<char>, h: int| #[trigger] power_at(final(self).members@, a, h) == if a == addr@ && height <= h {
                power as int
            } else {
                power_at(old(self).members@, a, h)
            },
    {
        let ghost s = self.members@;
        self.members.push(Checkpoint { addr, height, power });
        proof {
            assert(self.members@.drop_last() =~= s);
        }
    }

    /// Records `total` as the total power from `height` on.
    pub fn set_total(&mut self, height: u64, total: u128)
        requires
            old(self).wf(),
            old(self).last_height() <= height,
        ensures
            final(self).wf(),
            final(self).members@ == old(self).members@,
            final(self).last_height() == height,
            forall|h: int| #[trigger] total_at(final(self).totals@, h) == if height <= h {
                total as int
            } else {
                total_at(old(self).totals@, h)
            },
    {
        let ghost s = self.totals@;
        self.totals.push((height, total));
        proof {
            assert(self.totals@.drop_last() =~= s);
        }
    }
}

} // verus!
