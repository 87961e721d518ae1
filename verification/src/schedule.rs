//! The per-symbol index schedule.
//!
//! For a symbol with fingerprint `h`, the schedule is a deterministic,
//! strictly increasing sequence of coded-symbol slot indices, seeded solely
//! from `h`: two symbols with equal fingerprints get identical schedules.
//! The first index is always 0.  Each later index is drawn uniformly from
//! `slot + 1 ..= slot + slot/2 + 1`, so indices grow geometrically and a
//! symbol participates in `O(log N)` of the first `N` slots, which keeps
//! coded symbols sparse while every symbol is present in slot 0.

use vstd::prelude::*;

verus! {

/// Multiplier of the multiplicative congruential generator that drives the
/// schedule.
pub const PRNG_MULTIPLIER: u64 = 0xda942042e4dd58b5;

/// One step of the pseudorandom state: a wrapping multiply.
pub open spec fn prng_step(s: u64) -> u64 {
    s.wrapping_mul(PRNG_MULTIPLIER)
}

/// The gap to the next slot index: between 1 and `slot / 2 + 1`, picked by
/// the pseudorandom word `r`.
pub open spec fn sched_gap(slot: u64, r: u64) -> u64 {
    ((r as int % (slot as int / 2 + 1)) + 1) as u64
}

/// The slot index after `slot`: `slot` plus the gap, saturating at
/// `u64::MAX`.  A saturated cursor is past every slot that can ever be
/// materialized, since a table of `u64::MAX` entries is unreachable.
pub open spec fn sched_next(slot: u64, r: u64) -> u64 {
    if slot + sched_gap(slot, r) <= u64::MAX {
        (slot + sched_gap(slot, r)) as u64
    } else {
        u64::MAX
    }
}

/// The schedule strictly increases until it saturates.
pub proof fn lemma_sched_next_increases(slot: u64, r: u64)
    ensures
        sched_next(slot, r) >= slot,
        slot < u64::MAX ==> sched_next(slot, r) > slot,
{
    assert(slot as int / 2 + 1 > 0);
    assert(r as int % (slot as int / 2 + 1) >= 0);
}

/// A symbol's position in its index schedule: the pseudorandom state and the
/// current slot index.
pub struct IndexSchedule {
    pub prng: u64,
    pub slot: u64,
}

impl IndexSchedule {
    /// Start the schedule of a symbol with fingerprint `fp`: the first slot
    /// is always 0.
    pub fn new(fp: u64) -> (r: IndexSchedule)
        ensures
            r.prng == fp,
            r.slot == 0,
    {
        IndexSchedule { prng: fp, slot: 0 }
    }

    /// Move to the next slot index of the schedule.
    pub fn advance(&mut self)
        ensures
            final(self).prng == prng_step(old(self).prng),
            final(self).slot == sched_next(old(self).slot, prng_step(old(self).prng)),
    {
        let p = self.prng.wrapping_mul(PRNG_MULTIPLIER);
        self.prng = p;
        let modulus = self.slot / 2 + 1;
        let gap = (p % modulus) + 1;
        proof {
            lemma_sched_next_increases(self.slot, p);
        }
        if self.slot <= u64::MAX - gap {
            self.slot = self.slot + gap;
        } else {
            self.slot = u64::MAX;
        }
    }
}

} // verus!
