//! Hybrid logical clock: physical milliseconds in the high 48 bits, a 16-bit logical
//! counter in the low ones. Across hosts, events are ordered by clock and replica; a
//! clock alone does not order them all.

use crate::clock;
use vstd::prelude::*;
use vstd::std_specs::convert::{FromSpec, FromSpecImpl};

verus! {

/// Values of the counter.
pub const COUNTER_RANGE: u64 = 65_536;

/// A clock value.
#[derive(Debug, Clone, Copy, PartialEq, Eq, Structural, PartialOrd, Ord, Hash)]
pub struct Hlc(u64);

/// The clock issued after `last` at a wall time: the fresh millisecond where it is
/// ahead, else one more than the last. The last of all clocks is issued again and again.
pub open spec fn issued(last: u64, wall_ms: u64) -> u64 {
    let base = (wall_ms % 0x1_0000_0000_0000) * COUNTER_RANGE;
    if base > last {
        base as u64
    } else if last < u64::MAX {
        (last + 1) as u64
    } else {
        last
    }
}

/// A clock that has seen another one.
pub open spec fn merged(own: u64, other: u64) -> u64 {
    let m = if own > other {
        own
    } else {
        other
    };
    if m / COUNTER_RANGE == own / COUNTER_RANGE && m < u64::MAX {
        (m + 1) as u64
    } else {
        m
    }
}

impl Hlc {
    /// The clock as a number.
    pub closed spec fn value(self) -> u64 {
        self.0
    }

    /// The next clock after the last one issued, by the given wall clock.
    pub fn issue(last: Hlc, wall_ms: u64) -> (h: Hlc)
        ensures
            h.value() == issued(last.value(), wall_ms),
    {
        let base: u64 = (wall_ms % 0x1_0000_0000_0000) * COUNTER_RANGE;
        if base > last.0 {
            Hlc(base)
        } else {
            Hlc(last.0.saturating_add(1))
        }
    }

    /// The next clock by the wall clock; `last` is the last one issued. Two clocks of
    /// one millisecond differ.
    pub fn now(last: &mut Hlc) -> (h: Hlc)
        ensures
            h == *final(last),
            exists|wall_ms: u64| h.value() == #[trigger] issued(old(last).value(), wall_ms),
            old(last).value() < u64::MAX ==> h.value() > old(last).value(),
    {
        let h = Hlc::issue(*last, clock::wall_ms());
        *last = h;
        h
    }

    /// Merge another clock into this one. It never goes back; in the same millisecond
    /// the counter advances, into the next one where it is used up.
    pub fn observed(&mut self, other: Hlc)
        ensures
            final(self).value() == merged(old(self).value(), other.value()),
    {
        let m: u64 = if self.0 > other.0 {
            self.0
        } else {
            other.0
        };
        if m / COUNTER_RANGE == self.0 / COUNTER_RANGE {
            self.0 = m.saturating_add(1);
        } else {
            self.0 = m;
        }
    }

    /// The physical milliseconds.
    pub fn ms(&self) -> (r: u64)
        ensures
            r == self.value() / COUNTER_RANGE,
    {
        self.0 / COUNTER_RANGE
    }

    /// The logical counter.
    pub fn counter(&self) -> (r: u16)
        ensures
            r == self.value() % COUNTER_RANGE,
    {
        (self.0 % COUNTER_RANGE) as u16
    }

    pub fn to_u64(&self) -> (r: u64)
        ensures
            r == self.value(),
    {
        self.0
    }
}

impl FromSpecImpl<u64> for Hlc {
    open spec fn obeys_from_spec() -> bool {
        true
    }

    closed spec fn from_spec(v: u64) -> Hlc {
        Hlc(v)
    }
}

impl From<u64> for Hlc {
    fn from(v: u64) -> (h: Hlc) {
        Hlc(v)
    }
}

impl FromSpecImpl<Hlc> for u64 {
    open spec fn obeys_from_spec() -> bool {
        true
    }

    open spec fn from_spec(h: Hlc) -> u64 {
        h.value()
    }
}

impl From<Hlc> for u64 {
    fn from(h: Hlc) -> (v: u64) {
        h.0
    }
}

// ---------- laws ----------

/// A clock and its number stand for each other.
pub proof fn law_number_round_trip(v: u64, h: Hlc)
    ensures
        <Hlc as FromSpec<u64>>::from_spec(v).value() == v,
        <Hlc as FromSpec<u64>>::from_spec(h.value()) == h,
{
}

/// Issued clocks ascend strictly, whatever the wall clock does.
pub proof fn law_issued_ascend(last: u64, wall_ms: u64)
    requires
        last < u64::MAX,
    ensures
        issued(last, wall_ms) > last,
{
}

/// Seeing another clock never takes a clock back, nor behind the one seen; where the
/// millisecond stays, it advances past both.
pub proof fn law_merge_is_monotone(own: u64, other: u64)
    ensures
        merged(own, other) >= own,
        merged(own, other) >= other,
        merged(own, other) / COUNTER_RANGE >= own / COUNTER_RANGE,
        own < u64::MAX && other < u64::MAX ==> merged(own, other) > own,
        own / COUNTER_RANGE >= other / COUNTER_RANGE && own < u64::MAX && other < u64::MAX ==> merged(
            own,
            other,
        ) > other,
{
    if other > own && other / COUNTER_RANGE == own / COUNTER_RANGE {
    } else if other <= own {
        assert(own / COUNTER_RANGE == own / COUNTER_RANGE);
    }
    let m = if own > other {
        own
    } else {
        other
    };
    assert(m / COUNTER_RANGE >= own / COUNTER_RANGE);
    assert(other > own ==> other / COUNTER_RANGE >= own / COUNTER_RANGE);
    assert((m + 1) / COUNTER_RANGE as int >= m / COUNTER_RANGE);
}

/// A used-up counter spills into the next millisecond.
pub proof fn law_counter_spills(own: u64, other: u64)
    requires
        own <= other,
        own / COUNTER_RANGE == other / COUNTER_RANGE,
        other % COUNTER_RANGE == COUNTER_RANGE - 1,
        other < u64::MAX,
    ensures
        merged(own, other) / COUNTER_RANGE == other / COUNTER_RANGE + 1,
        merged(own, other) % COUNTER_RANGE == 0,
{
}

/// An issued clock is the least one that is later than the last and not before the wall
/// clock, whose milliseconds stand in its high bits.
pub proof fn law_issued_is_the_least(last: u64, wall_ms: u64, x: int)
    requires
        last < u64::MAX,
        wall_ms < 0x1_0000_0000_0000,
        x > last,
        x >= wall_ms * 65_536,
    ensures
        issued(last, wall_ms) > last,
        issued(last, wall_ms) >= wall_ms * 65_536,
        issued(last, wall_ms) <= x,
{
    assert(wall_ms % 0x1_0000_0000_0000 == wall_ms);
}

/// A clock that has seen another one is no further than one step beyond the later of
/// the two, and is the other one itself where that is of a later millisecond.
pub proof fn law_merge_goes_no_further(own: u64, other: u64)
    ensures
        merged(own, other) <= (if own > other {
            own
        } else {
            other
        }) + 1,
        other as int / 65_536 > own as int / 65_536 ==> merged(own, other) == other,
{
}

} // verus!
