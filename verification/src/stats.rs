//! Statistics and events recorded during a tick.
use crate::node::NodeID;
use vstd::prelude::*;

verus! {

/// Counters the simulation keeps itself.
#[derive(PartialEq, Eq, Structural, Clone, Copy, Debug)]
pub enum InternalStatKey {
    /// Packets transmitted.
    PacketTransmits,
    /// Packets handed to node behaviours.
    PacketReceives,
}

/// Events the simulation records itself.
#[derive(PartialEq, Eq, Clone, Copy, Debug)]
pub enum InternalEvent {
    /// A node transmitted a packet.
    PacketTransmit(NodeID),
    /// A source sent a packet to a destination.
    PacketLink((NodeID, NodeID)),
}

/// `a + b`, held within the bounds of `isize`.
pub open spec fn saturating_sum(a: int, b: int) -> int {
    if a + b > isize::MAX {
        isize::MAX as int
    } else if a + b < isize::MIN {
        isize::MIN as int
    } else {
        a + b
    }
}

/// Adds two counters, holding the sum within the bounds of `isize`.
fn add_saturating(a: isize, b: isize) -> (r: isize)
    ensures
        r == saturating_sum(a as int, b as int),
{
    let sum: i128 = a as i128 + b as i128;
    if sum > isize::MAX as i128 {
        isize::MAX
    } else if sum < isize::MIN as i128 {
        isize::MIN
    } else {
        sum as isize
    }
}

/// Subtracts two counters, holding the difference within the bounds of `isize`.
fn sub_saturating(a: isize, b: isize) -> (r: isize)
    ensures
        r == saturating_sum(a as int, -(b as int)),
{
    let diff: i128 = a as i128 - b as i128;
    if diff > isize::MAX as i128 {
        isize::MAX
    } else if diff < isize::MIN as i128 {
        isize::MIN
    } else {
        diff as isize
    }
}

/// Stats recorded for a given timestep: the internal counters, user-defined counters keyed by
/// index, the internal events and the user-defined events.
pub struct TimestepStats<E> {
    packet_transmits: isize,
    packet_receives: isize,
    user: Vec<isize>,
    internal_events: Vec<InternalEvent>,
    user_events: Vec<E>,
}

impl<E> TimestepStats<E> {
    /// Value of an internal counter.
    pub closed spec fn internal(&self, key: InternalStatKey) -> int {
        match key {
            InternalStatKey::PacketTransmits => self.packet_transmits as int,
            InternalStatKey::PacketReceives => self.packet_receives as int,
        }
    }

    /// Values of the user-defined counters; counter `k` is at index `k`.
    pub closed spec fn user(&self) -> Seq<int> {
        self.user@.map_values(|v: isize| v as int)
    }

    /// Internal events, in the order they were recorded.
    pub closed spec fn events_seq(&self) -> Seq<InternalEvent> {
        self.internal_events@
    }

    /// User-defined events, in the order they were recorded.
    pub closed spec fn user_events_seq(&self) -> Seq<E> {
        self.user_events@
    }

    /// Every counter is zero and no event is recorded.
    pub open spec fn is_empty_for(&self, user_keys: nat) -> bool {
        &&& self.internal(InternalStatKey::PacketTransmits) == 0
        &&& self.internal(InternalStatKey::PacketReceives) == 0
        &&& self.user() == Seq::new(user_keys, |k: int| 0int)
        &&& self.events_seq() == Seq::<InternalEvent>::empty()
        &&& self.user_events_seq() == Seq::<E>::empty()
    }

    /// Counters are within `isize`.
    pub proof fn lemma_counter_bounds(&self)
        ensures
            isize::MIN <= self.internal(InternalStatKey::PacketTransmits) <= isize::MAX,
            isize::MIN <= self.internal(InternalStatKey::PacketReceives) <= isize::MAX,
            forall|k: int|
                0 <= k < self.user().len() ==> isize::MIN <= #[trigger] self.user()[k] <= isize::MAX,
    {
    }

    /// Stats with `user_keys` user-defined counters, all zero, and no events.
    pub fn new(user_keys: usize) -> (s: Self)
        ensures
            s.is_empty_for(user_keys as nat),
    {
        let mut user: Vec<isize> = Vec::with_capacity(user_keys);
        for i in 0..user_keys
            invariant
                user@.len() == i,
                forall|k: int| 0 <= k < i ==> #[trigger] user@[k] == 0,
        {
            user.push(0);
        }
        let s = TimestepStats {
            packet_transmits: 0,
            packet_receives: 0,
            user,
            internal_events: Vec::new(),
            user_events: Vec::new(),
        };
        assert(s.user() =~= Seq::new(user_keys as nat, |k: int| 0int));
        s
    }

    /// Number of user-defined counters.
    pub fn user_key_count(&self) -> (n: usize)
        ensures
            n == self.user().len(),
    {
        self.user.len()
    }

    /// Value of an internal counter.
    pub fn internal_stat(&self, key: InternalStatKey) -> (v: isize)
        ensures
            v == self.internal(key),
    {
        match key {
            InternalStatKey::PacketTransmits => self.packet_transmits,
            InternalStatKey::PacketReceives => self.packet_receives,
        }
    }

    /// Value of a user-defined counter.
    pub fn user_stat(&self, key: usize) -> (v: isize)
        requires
            key < self.user().len(),
        ensures
            v == self.user()[key as int],
    {
        self.user[key]
    }

    /// Increment a user-defined counter.
    pub fn inc(&mut self, key: usize, by: isize)
        requires
            key < old(self).user().len(),
            isize::MIN <= old(self).user()[key as int] + by <= isize::MAX,
        ensures
            final(self).user() == old(self).user().update(key as int, old(self).user()[key as int] + by),
            final(self).internal(InternalStatKey::PacketTransmits) == old(self).internal(
                InternalStatKey::PacketTransmits,
            ),
            final(self).internal(InternalStatKey::PacketReceives) == old(self).internal(
                InternalStatKey::PacketReceives,
            ),
            final(self).events_seq() == old(self).events_seq(),
            final(self).user_events_seq() == old(self).user_events_seq(),
    {
        let v = self.user[key] + by;
        self.user.set(key, v);
        assert(self.user() =~= old(self).user().update(key as int, old(self).user()[key as int] + by));
    }

    /// Decrement a user-defined counter.
    pub fn dec(&mut self, key: usize, by: isize)
        requires
            key < old(self).user().len(),
            isize::MIN <= old(self).user()[key as int] - by <= isize::MAX,
        ensures
            final(self).user() == old(self).user().update(key as int, old(self).user()[key as int] - by),
            final(self).internal(InternalStatKey::PacketTransmits) == old(self).internal(
                InternalStatKey::PacketTransmits,
            ),
            final(self).internal(InternalStatKey::PacketReceives) == old(self).internal(
                InternalStatKey::PacketReceives,
            ),
            final(self).events_seq() == old(self).events_seq(),
            final(self).user_events_seq() == old(self).user_events_seq(),
    {
        let v = self.user[key] - by;
        self.user.set(key, v);
        assert(self.user() =~= old(self).user().update(key as int, old(self).user()[key as int] - by));
    }

    /// Add to an internal counter; the counter saturates at the bounds of `isize`.
    pub fn inc_internal(&mut self, key: InternalStatKey, by: isize)
        ensures
            final(self).internal(key) == saturating_sum(old(self).internal(key), by as int),
            forall|other: InternalStatKey|
                other != key ==> #[trigger] final(self).internal(other) == old(self).internal(other),
            final(self).user() == old(self).user(),
            final(self).events_seq() == old(self).events_seq(),
            final(self).user_events_seq() == old(self).user_events_seq(),
    {
        match key {
            InternalStatKey::PacketTransmits => {
                self.packet_transmits = add_saturating(self.packet_transmits, by);
            },
            InternalStatKey::PacketReceives => {
                self.packet_receives = add_saturating(self.packet_receives, by);
            },
        }
    }

    /// Subtract from an internal counter; the counter saturates at the bounds of `isize`.
    pub fn dec_internal(&mut self, key: InternalStatKey, by: isize)
        ensures
            final(self).internal(key) == saturating_sum(old(self).internal(key), -(by as int)),
            forall|other: InternalStatKey|
                other != key ==> #[trigger] final(self).internal(other) == old(self).internal(other),
            final(self).user() == old(self).user(),
            final(self).events_seq() == old(self).events_seq(),
            final(self).user_events_seq() == old(self).user_events_seq(),
    {
        match key {
            InternalStatKey::PacketTransmits => {
                self.packet_transmits = sub_saturating(self.packet_transmits, by);
            },
            InternalStatKey::PacketReceives => {
                self.packet_receives = sub_saturating(self.packet_receives, by);
            },
        }
    }

    /// Record an internal event.
    pub fn add_internal_event(&mut self, event: InternalEvent)
        ensures
            final(self).events_seq() == old(self).events_seq().push(event),
            forall|key: InternalStatKey| #[trigger]
                final(self).internal(key) == old(self).internal(key),
            final(self).user() == old(self).user(),
            final(self).user_events_seq() == old(self).user_events_seq(),
    {
        self.internal_events.push(event);
    }

    /// Record a user-defined event.
    pub fn add_user_event(&mut self, event: E)
        ensures
            final(self).user_events_seq() == old(self).user_events_seq().push(event),
            forall|key: InternalStatKey| #[trigger]
                final(self).internal(key) == old(self).internal(key),
            final(self).user() == old(self).user(),
            final(self).events_seq() == old(self).events_seq(),
    {
        self.user_events.push(event);
    }

    /// Adds the counters of `other` into these (internal counters saturating) and appends its
    /// events after these.
    pub fn consume(&mut self, other: Self)
        requires
            other.user().len() == old(self).user().len(),
            forall|k: int|
                0 <= k < old(self).user().len() ==> isize::MIN <= #[trigger] old(self).user()[k]
                    + other.user()[k] <= isize::MAX,
        ensures
            forall|key: InternalStatKey| #[trigger]
                final(self).internal(key) == saturating_sum(old(self).internal(key), other.internal(key)),
            final(self).user().len() == old(self).user().len(),
            forall|k: int|
                0 <= k < old(self).user().len() ==> #[trigger] final(self).user()[k] == old(self).user()[k]
                    + other.user()[k],
            final(self).events_seq() == old(self).events_seq() + other.events_seq(),
            final(self).user_events_seq() == old(self).user_events_seq() + other.user_events_seq(),
    {
        assert forall|k: int| 0 <= k < old(self).user@.len() implies isize::MIN <= #[trigger] old(
            self,
        ).user@[k] + other.user@[k] <= isize::MAX by {
            assert(old(self).user()[k] == old(self).user@[k]);
            assert(other.user()[k] == other.user@[k]);
        }
        let TimestepStats {
            packet_transmits,
            packet_receives,
            user: other_user,
            internal_events: mut other_internal,
            user_events: mut other_user_events,
        } = other;
        self.packet_transmits = add_saturating(self.packet_transmits, packet_transmits);
        self.packet_receives = add_saturating(self.packet_receives, packet_receives);
        let n = self.user.len();
        for i in 0..n
            invariant
                n == self.user@.len(),
                n == other_user@.len(),
                self.packet_transmits == saturating_sum(old(self).packet_transmits as int, packet_transmits as int),
                self.packet_receives == saturating_sum(old(self).packet_receives as int, packet_receives as int),
                self.internal_events@ == old(self).internal_events@,
                self.user_events@ == old(self).user_events@,
                forall|k: int| 0 <= k < i ==> #[trigger] self.user@[k] == old(self).user@[k] + other_user@[k],
                forall|k: int| i <= k < n ==> #[trigger] self.user@[k] == old(self).user@[k],
                forall|k: int|
                    0 <= k < n ==> isize::MIN <= #[trigger] old(self).user@[k] + other_user@[k] <= isize::MAX,
        {
            let v = self.user[i] + other_user[i];
            self.user.set(i, v);
        }
        self.internal_events.append(&mut other_internal);
        self.user_events.append(&mut other_user_events);
    }

    /// The internal events recorded, in order.
    pub fn events(self) -> (v: Vec<InternalEvent>)
        ensures
            v@ == self.events_seq(),
    {
        self.internal_events
    }

    /// Borrows the internal events recorded, in order.
    pub fn internal_events(&self) -> (v: &Vec<InternalEvent>)
        ensures
            v@ == self.events_seq(),
    {
        &self.internal_events
    }

    /// The user-defined events recorded, in order.
    pub fn user_events(&self) -> (v: &Vec<E>)
        ensures
            v@ == self.user_events_seq(),
    {
        &self.user_events
    }
}

impl<E> Default for TimestepStats<E> {
    /// Stats with no user-defined counters, the internal counters at zero and no events.
    fn default() -> (s: Self)
        ensures
            s.is_empty_for(0),
    {
        TimestepStats::new(0)
    }
}

/// Incrementing a user-defined counter and then decrementing it by the same amount leaves all
/// user-defined counters as they were.
pub proof fn lemma_inc_then_dec_restores<E>(
    start: TimestepStats<E>,
    incremented: TimestepStats<E>,
    restored: TimestepStats<E>,
    key: int,
    by: int,
)
    requires
        0 <= key < start.user().len(),
        incremented.user() == start.user().update(key, start.user()[key] + by),
        restored.user() == incremented.user().update(key, incremented.user()[key] - by),
    ensures
        restored.user() == start.user(),
{
    assert(restored.user() =~= start.user());
}

} // verus!
