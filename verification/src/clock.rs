//! The simulation clock: the current and the next tick, and the simulation time they stand for.
use vstd::prelude::*;

verus! {

/// Distance between two points in time.
pub open spec fn time_gap(a: int, b: int) -> int {
    if a >= b {
        a - b
    } else {
        b - a
    }
}

/// `time` is the instant closest to `current` among the instants a clock with step `delta` visits:
/// it lies strictly less than half a step away.
pub open spec fn spec_is_time(current: int, delta: int, time: int) -> bool {
    2 * time_gap(current, time) < delta
}

/// Number of whole steps of size `delta` closest to `span` (`span / delta` rounded to nearest).
pub open spec fn nearest_steps(span: int, delta: int) -> int
    recommends
        delta > 0,
{
    if 2 * (span % delta) < delta {
        span / delta
    } else {
        span / delta + 1
    }
}

/// `span` is not exactly half way between two multiples of `delta`.
pub open spec fn not_half_step(span: int, delta: int) -> bool {
    2 * (span % delta) != delta
}

/// Clock of a simulation. Time advances by `timestep_delta` every tick, starting from zero.
///
/// The first tick of a simulation happens at time zero: `current_*` is the tick being (or last)
/// processed and `next_*` the one the next call to [SimClock::advance] moves to.
pub struct SimClock {
    timestep_delta: u64,
    current_time: u64,
    current_tick: usize,
    next_time: u64,
    next_tick: usize,
}

impl SimClock {
    /// The clock is either fresh (no tick done yet, current and next coincide) or one step behind
    /// its next tick.
    pub closed spec fn wf(&self) -> bool {
        ||| (self.next_tick == self.current_tick && self.next_time == self.current_time)
        ||| (self.next_tick == self.current_tick + 1 && self.next_time == self.current_time
            + self.timestep_delta)
    }

    pub closed spec fn delta(&self) -> int {
        self.timestep_delta as int
    }

    pub closed spec fn time(&self) -> int {
        self.current_time as int
    }

    pub closed spec fn tick_number(&self) -> int {
        self.current_tick as int
    }

    pub closed spec fn upcoming_time(&self) -> int {
        self.next_time as int
    }

    pub closed spec fn upcoming_tick(&self) -> int {
        self.next_tick as int
    }

    /// No tick has been done since the clock was created: the next tick happens at the current time.
    pub closed spec fn is_fresh(&self) -> bool {
        self.next_tick == self.current_tick
    }

    /// The clock after one more tick.
    pub closed spec fn spec_advanced(&self) -> SimClock {
        SimClock {
            timestep_delta: self.timestep_delta,
            current_time: self.next_time,
            current_tick: self.next_tick,
            next_time: (self.next_time + self.timestep_delta) as u64,
            next_tick: (self.next_tick + 1) as usize,
        }
    }

    /// Advancing once more stays within the machine integers.
    pub open spec fn can_advance(&self) -> bool {
        &&& self.upcoming_time() + self.delta() <= u64::MAX
        &&& self.upcoming_tick() + 1 <= usize::MAX
    }

    /// What a well-formed clock's next tick is: the current one if fresh, else one step later.
    pub proof fn lemma_wf(&self)
        requires
            self.wf(),
        ensures
            self.delta() >= 0,
            self.time() >= 0,
            self.tick_number() >= 0,
            self.is_fresh() ==> self.upcoming_time() == self.time() && self.upcoming_tick()
                == self.tick_number(),
            !self.is_fresh() ==> self.upcoming_time() == self.time() + self.delta()
                && self.upcoming_tick() == self.tick_number() + 1,
    {
    }

    /// What advancing a well-formed clock gives: the next tick becomes the current one, and the
    /// clock is then one step behind its next tick.
    pub proof fn lemma_advanced(&self)
        requires
            self.wf(),
            self.can_advance(),
        ensures
            self.spec_advanced().wf(),
            !self.spec_advanced().is_fresh(),
            self.spec_advanced().delta() == self.delta(),
            self.spec_advanced().time() == self.upcoming_time(),
            self.spec_advanced().tick_number() == self.upcoming_tick(),
            self.spec_advanced().upcoming_time() == self.upcoming_time() + self.delta(),
            self.spec_advanced().upcoming_tick() == self.upcoming_tick() + 1,
    {
    }

    /// A clock at time zero, at tick zero.
    pub fn new(timestep_delta: u64) -> (c: SimClock)
        ensures
            c.wf(),
            c.delta() == timestep_delta,
            c.time() == 0,
            c.tick_number() == 0,
            c.is_fresh(),
    {
        SimClock { timestep_delta, current_time: 0, current_tick: 0, next_time: 0, next_tick: 0 }
    }

    /// The clock after `k` more ticks.
    pub open spec fn advanced_by(&self, k: nat) -> SimClock
        decreases k,
    {
        if k == 0 {
            *self
        } else {
            self.advanced_by((k - 1) as nat).spec_advanced()
        }
    }

    /// `k` ticks of a well-formed clock, where the times and tick numbers stay within the machine
    /// integers: each moves the next tick on by one and the next time on by the step, and after
    /// at least one tick the current tick is the last one moved to.
    pub proof fn lemma_advanced_by(&self, k: nat)
        requires
            self.wf(),
            self.upcoming_time() + k * self.delta() <= u64::MAX,
            self.upcoming_tick() + k <= usize::MAX,
        ensures
            self.advanced_by(k).wf(),
            self.advanced_by(k).delta() == self.delta(),
            self.advanced_by(k).upcoming_time() == self.upcoming_time() + k * self.delta(),
            self.advanced_by(k).upcoming_tick() == self.upcoming_tick() + k,
            k > 0 ==> !self.advanced_by(k).is_fresh() && self.advanced_by(k).time()
                == self.upcoming_time() + (k - 1) * self.delta() && self.advanced_by(k).tick_number()
                == self.upcoming_tick() + k - 1,
        decreases k,
    {
        if k > 0 {
            let j = (k - 1) as nat;
            assert(j * self.delta() + self.delta() == k * self.delta()) by (nonlinear_arith)
                requires
                    j == k - 1,
            ;
            assert(0 <= j * self.delta()) by (nonlinear_arith)
                requires
                    self.delta() >= 0,
            ;
            self.lemma_advanced_by(j);
            self.advanced_by(j).lemma_advanced();
        } else {
            assert(k * self.delta() == 0) by (nonlinear_arith)
                requires
                    k == 0,
            ;
        }
    }

    /// The clock of a simulation after `k >= 1` ticks from its start (a fresh clock at time zero
    /// and tick zero): the current tick is `k - 1`, at time `(k - 1) * delta`, with the step
    /// unchanged.
    pub proof fn lemma_ticks_from_start(&self, k: nat)
        requires
            self.wf(),
            self.is_fresh(),
            self.time() == 0,
            self.tick_number() == 0,
            k >= 1,
            k * self.delta() <= u64::MAX,
            k <= usize::MAX,
        ensures
            self.advanced_by(k).tick_number() == k - 1,
            self.advanced_by(k).time() == (k - 1) * self.delta(),
            self.advanced_by(k).delta() == self.delta(),
    {
        self.lemma_advanced_by(k);
    }

    /// Get the configured timestep delta.
    pub fn timestep_delta(&self) -> (d: u64)
        ensures
            d == self.delta(),
    {
        self.timestep_delta
    }

    /// Get the current simulation time in this tick.
    pub fn current_time(&self) -> (t: u64)
        ensures
            t == self.time(),
    {
        self.current_time
    }

    /// Get the current simulation tick number.
    pub fn current_tick(&self) -> (t: usize)
        ensures
            t == self.tick_number(),
    {
        self.current_tick
    }

    /// Check if the current time is the closest one to `time` that the clock visits.
    pub fn is_time(&self, time: u64) -> (b: bool)
        ensures
            b == spec_is_time(self.time(), self.delta(), time as int),
    {
        let gap: u64 = if self.current_time >= time {
            self.current_time - time
        } else {
            time - self.current_time
        };
        (gap as u128) * 2 < self.timestep_delta as u128
    }

    /// Move to the next tick.
    pub fn advance(&mut self)
        requires
            old(self).wf(),
            old(self).can_advance(),
        ensures
            *final(self) == old(self).spec_advanced(),
            final(self).wf(),
            !final(self).is_fresh(),
            final(self).delta() == old(self).delta(),
            final(self).time() == old(self).upcoming_time(),
            final(self).tick_number() == old(self).upcoming_tick(),
    {
        self.current_time = self.next_time;
        self.current_tick = self.next_tick;
        self.next_time = self.next_time + self.timestep_delta;
        self.next_tick = self.next_tick + 1;
    }
}

/// Splitting `span` into whole steps of `delta` and a remainder.
proof fn lemma_div_mod(span: int, delta: int)
    requires
        span >= 0,
        delta > 0,
    ensures
        span == delta * (span / delta) + span % delta,
        0 <= span % delta < delta,
        span / delta >= 0,
{
    vstd::arithmetic::div_mod::lemma_fundamental_div_mod(span, delta);
    vstd::arithmetic::div_mod::lemma_mod_bound(span, delta);
    vstd::arithmetic::div_mod::lemma_div_pos_is_pos(span, delta);
}

/// Of the instants `start + m * delta` (for `m >= 0`) exactly one is the closest to
/// `start + span`, namely the one at `m == nearest_steps(span, delta)`, provided `span` is not
/// half way between two steps.
pub proof fn lemma_is_time_exactly_at_nearest(start: int, span: int, delta: int, m: int)
    requires
        span >= 0,
        delta > 0,
        m >= 0,
        not_half_step(span, delta),
    ensures
        spec_is_time(start + m * delta, delta, start + span) <==> m == nearest_steps(span, delta),
        nearest_steps(span, delta) >= 0,
        nearest_steps(span, delta) * delta <= span + delta,
{
    lemma_div_mod(span, delta);
    let q = span / delta;
    let r = span % delta;
    let here = start + m * delta;
    let target = start + span;
    if m <= q {
        assert((q - m) * delta >= 0) by (nonlinear_arith)
            requires
                q - m >= 0,
                delta > 0,
        ;
        assert(span - m * delta == (q - m) * delta + r) by (nonlinear_arith)
            requires
                span == delta * q + r,
        ;
        assert(time_gap(here, target) == (q - m) * delta + r);
        if m < q {
            assert((q - m) * delta >= delta) by (nonlinear_arith)
                requires
                    q - m >= 1,
                    delta > 0,
            ;
        }
    } else {
        assert((m - q) * delta >= delta) by (nonlinear_arith)
            requires
                m - q >= 1,
                delta > 0,
        ;
        assert(m * delta - span == (m - q) * delta - r) by (nonlinear_arith)
            requires
                span == delta * q + r,
        ;
        assert(time_gap(here, target) == (m - q) * delta - r);
        if m > q + 1 {
            assert((m - q) * delta >= 2 * delta) by (nonlinear_arith)
                requires
                    m - q >= 2,
                    delta > 0,
            ;
        }
    }
    if m == q {
        assert((q - m) * delta == 0) by (nonlinear_arith)
            requires
                q == m,
        ;
        assert(spec_is_time(here, delta, target) <==> 2 * r < delta);
    } else if m == q + 1 {
        assert((m - q) * delta == delta) by (nonlinear_arith)
            requires
                m == q + 1,
        ;
        assert(spec_is_time(here, delta, target) <==> 2 * r > delta);
    } else {
        assert(!spec_is_time(here, delta, target));
    }
    assert(nearest_steps(span, delta) * delta <= span + delta) by (nonlinear_arith)
        requires
            span == delta * q + r,
            0 <= r,
            delta > 0,
            nearest_steps(span, delta) == q || nearest_steps(span, delta) == q + 1,
    ;
}

} // verus!
