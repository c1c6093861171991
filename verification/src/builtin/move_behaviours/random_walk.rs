//! Movement behaviour which walks a node in random directions at a constant velocity.
use crate::behaviours::MoveBehaviour;
use crate::clock::SimClock;
use crate::managers::GlobalStateManager;
use crate::node::{NodeData, Position};
use crate::packets::Packet;
use crate::propagation_models::{PropagationModel, PropagationParams};
use vstd::prelude::*;

verus! {

/// `a + b`, held within the bounds of `i32`.
pub open spec fn clamped_sum(a: int, b: int) -> int {
    if a + b > i32::MAX {
        i32::MAX as int
    } else if a + b < i32::MIN {
        i32::MIN as int
    } else {
        a + b
    }
}

/// Moves a coordinate by `by`, stopping at the edge of the coordinate space.
pub fn step_coordinate(a: i32, by: i32) -> (r: i32)
    ensures
        r == clamped_sum(a as int, by as int),
{
    let sum: i64 = a as i64 + by as i64;
    if sum > i32::MAX as i64 {
        i32::MAX
    } else if sum < i32::MIN as i64 {
        i32::MIN
    } else {
        sum as i32
    }
}

/// The largest `r` with `r * r <= n`.
pub open spec fn is_integer_sqrt(n: int, r: int) -> bool {
    &&& r >= 0
    &&& r * r <= n
    &&& n < (r + 1) * (r + 1)
}

/// Integer square root, rounded down.
pub fn integer_sqrt(n: u128) -> (r: u128)
    ensures
        is_integer_sqrt(n as int, r as int),
{
    let mut low: u128 = 0;
    let mut high: u128 = 0x1_0000_0000_0000_0000;
    assert(n < high * high) by (nonlinear_arith)
        requires
            n <= u128::MAX,
            high == 0x1_0000_0000_0000_0000,
    ;
    while low + 1 < high
        invariant
            low < high <= 0x1_0000_0000_0000_0000,
            low * low <= n,
            n < high * high,
        decreases high - low,
    {
        let mid: u128 = low + (high - low) / 2;
        assert(mid * mid < 0x1_0000_0000_0000_0000 * 0x1_0000_0000_0000_0000) by (nonlinear_arith)
            requires
                mid < 0x1_0000_0000_0000_0000,
        ;
        let square: u128 = mid * mid;
        if square <= n {
            low = mid;
        } else {
            high = mid;
        }
    }
    assert(high == low + 1);
    low
}

/// `r` is component `c` of a draw whose squared length is `squared`, rescaled to length `speed`:
/// it has the sign of `c`, and its size is the integer square root, rounded down, of
/// `c² · speed² / squared` (itself rounded down); that is, `|c| · speed / √squared` rounded down.
pub open spec fn rescaled_component(r: int, c: int, squared: int, speed: int) -> bool {
    &&& c >= 0 ==> r >= 0
    &&& c < 0 ==> r <= 0
    &&& is_integer_sqrt(c * c * (speed * speed) / squared, if r >= 0 { r } else { -r })
}

/// Components `r0` and `r1` make a vector of length `speed` up to rounding each component down:
/// it is no longer than `speed`, and `speed` is below the length it would have were each
/// component one larger in size.
pub open spec fn within_rounding(r0: int, r1: int, speed: int) -> bool {
    let m0 = if r0 >= 0 { r0 } else { -r0 };
    let m1 = if r1 >= 0 { r1 } else { -r1 };
    &&& m0 * m0 + m1 * m1 <= speed * speed
    &&& speed * speed < (m0 + 1) * (m0 + 1) + (m1 + 1) * (m1 + 1)
}

/// A draw rescaled to `speed` component by component (see [rescaled_component]) has length
/// `speed` up to rounding (see [within_rounding]).
pub proof fn lemma_rescaled_length(r0: int, r1: int, dx: int, dy: int, speed: int)
    requires
        speed >= 0,
        dx * dx + dy * dy > 0,
        rescaled_component(r0, dx, dx * dx + dy * dy, speed),
        rescaled_component(r1, dy, dx * dx + dy * dy, speed),
    ensures
        within_rounding(r0, r1, speed),
{
    let sq = dx * dx + dy * dy;
    let ss = speed * speed;
    let a = dx * dx * ss;
    let b = dy * dy * ss;
    assert(a >= 0 && b >= 0 && a + b == sq * ss) by (nonlinear_arith)
        requires
            ss == speed * speed,
            a == dx * dx * ss,
            b == dy * dy * ss,
            sq == dx * dx + dy * dy,
    ;
    let q0 = a / sq;
    let q1 = b / sq;
    vstd::arithmetic::div_mod::lemma_fundamental_div_mod(a, sq);
    vstd::arithmetic::div_mod::lemma_fundamental_div_mod(b, sq);
    vstd::arithmetic::div_mod::lemma_mod_bound(a, sq);
    vstd::arithmetic::div_mod::lemma_mod_bound(b, sq);
    assert(q0 + q1 <= ss && ss < q0 + q1 + 2) by (nonlinear_arith)
        requires
            a == sq * q0 + a % sq,
            b == sq * q1 + b % sq,
            0 <= a % sq < sq,
            0 <= b % sq < sq,
            a + b == sq * ss,
            sq > 0,
    ;
    let m0 = if r0 >= 0 { r0 } else { -r0 };
    let m1 = if r1 >= 0 { r1 } else { -r1 };
    assert(is_integer_sqrt(q0, m0));
    assert(is_integer_sqrt(q1, m1));
}

/// Rescales component `c` of a draw with squared length `squared` to length `speed` (see
/// [rescaled_component]).
fn rescale_component(c: i32, squared: u64, speed: u64) -> (r: i32)
    requires
        c * c <= squared,
        0 < squared <= 2 * 1024 * 1024,
        speed <= i32::MAX,
    ensures
        rescaled_component(r as int, c as int, squared as int, speed as int),
{
    let magnitude: u128 = if c >= 0 {
        c as u128
    } else {
        (-(c as i64)) as u128
    };
    assert(magnitude * magnitude == c * c) by (nonlinear_arith)
        requires
            magnitude == c || magnitude == -c,
    ;
    assert(speed * speed <= 0x8000_0000 * 0x8000_0000) by (nonlinear_arith)
        requires
            speed <= 0x8000_0000,
    ;
    let m2: u128 = magnitude * magnitude;
    let s2: u128 = speed as u128 * speed as u128;
    assert(m2 <= 0x20_0000);
    assert(s2 <= 0x4000_0000_0000_0000);
    assert(m2 * s2 <= 0x8_0000_0000_0000_0000_0000) by (nonlinear_arith)
        requires
            0 <= m2 <= 0x20_0000,
            0 <= s2 <= 0x4000_0000_0000_0000,
    ;
    let numerator: u128 = m2 * s2;
    let quotient: u128 = numerator / squared as u128;
    assert(quotient <= speed * speed) by (nonlinear_arith)
        requires
            quotient as int == (numerator as int) / (squared as int),
            numerator == magnitude * magnitude * (speed * speed),
            magnitude * magnitude <= squared,
            squared > 0,
    ;
    let root = integer_sqrt(quotient);
    assert(root <= speed) by (nonlinear_arith)
        requires
            root * root <= quotient,
            quotient <= speed * speed,
            root >= 0,
            speed >= 0,
    ;
    assert(c * c * (speed * speed) == numerator);
    if c >= 0 {
        root as i32
    } else {
        -(root as i32)
    }
}

/// Number of distinct values, on each side of zero, a random direction component is drawn from.
pub const DIRECTION_RESOLUTION: i32 = 1024;

/// Movement behaviour which moves nodes at a constant velocity, changing direction randomly
/// every `change_delay` ticks.
#[derive(Clone, Copy)]
pub struct RandomWalk {
    /// Ticks between changes of direction.
    change_delay: u64,
    /// The tick number at which the direction will next change.
    next_change: u64,
    /// Displacement per tick.
    direction: Position,
    /// Distance moved per time unit.
    velocity: u32,
}

impl RandomWalk {
    pub closed spec fn spec_change_delay(&self) -> u64 {
        self.change_delay
    }

    pub closed spec fn spec_next_change(&self) -> u64 {
        self.next_change
    }

    pub closed spec fn spec_direction(&self) -> Position {
        self.direction
    }

    pub closed spec fn spec_velocity(&self) -> u32 {
        self.velocity
    }

    /// # Arguments
    ///
    /// * `velocity`: The node will always move at this distance per time unit.
    /// * `change_delay`: Number of ticks between changes of direction; the first change happens
    ///   at the first tick (tick zero).
    pub fn new(velocity: u32, change_delay: u64) -> (r: Self)
        ensures
            r.spec_change_delay() == change_delay,
            r.spec_next_change() == 0,
            r.spec_direction() == [0i32, 0i32],
            r.spec_velocity() == velocity,
    {
        RandomWalk { next_change: 0, change_delay, direction: [0, 0], velocity }
    }

    /// The current displacement per tick.
    pub fn direction(&self) -> (d: Position)
        ensures
            d == self.spec_direction(),
    {
        self.direction
    }
}

/// Distance covered in one tick at `velocity`, capped at the largest coordinate step.
pub open spec fn tick_distance(velocity: u32, delta: int) -> int {
    if velocity * delta > i32::MAX {
        i32::MAX as int
    } else {
        velocity * delta
    }
}

/// `direction` is the random draw `(dx, dy)`, each drawn from
/// `-DIRECTION_RESOLUTION..DIRECTION_RESOLUTION`, rescaled to length `speed` component by
/// component (see [rescaled_component]); a draw of zero length gives no direction.
pub open spec fn drawn_direction(direction: Position, dx: int, dy: int, speed: int) -> bool {
    &&& -DIRECTION_RESOLUTION <= dx < DIRECTION_RESOLUTION
    &&& -DIRECTION_RESOLUTION <= dy < DIRECTION_RESOLUTION
    &&& if dx * dx + dy * dy == 0 {
        direction[0] == 0 && direction[1] == 0
    } else {
        &&& rescaled_component(direction[0] as int, dx, dx * dx + dy * dy, speed)
        &&& rescaled_component(direction[1] as int, dy, dx * dx + dy * dy, speed)
        &&& moves_at_speed(direction, speed)
    }
}

/// `direction` has length `speed` up to rounding each component down: it is no longer than
/// `speed`, and `speed` is below the length it would have were each component one larger in size.
pub open spec fn moves_at_speed(direction: Position, speed: int) -> bool {
    within_rounding(direction[0] as int, direction[1] as int, speed)
}

impl<PP: PropagationParams> MoveBehaviour<PP> for RandomWalk {
    /// At a tick numbered `next_change` or later, the next change is scheduled `change_delay`
    /// ticks on and a new direction is drawn (see [drawn_direction]) at the distance covered in one
    /// tick; otherwise the direction stays. The node moves by the direction, stopping at the edge
    /// of the coordinate space.
    open spec fn spec_ticks_to(
        &self,
        data: NodeData<PP>,
        clock: SimClock,
        world: Seq<NodeData<PP>>,
        next: (Self, Position),
    ) -> bool {
        &&& next.0.spec_change_delay() == self.spec_change_delay()
        &&& next.0.spec_velocity() == self.spec_velocity()
        &&& next.1[0] == clamped_sum(data.position[0] as int, next.0.spec_direction()[0] as int)
        &&& next.1[1] == clamped_sum(data.position[1] as int, next.0.spec_direction()[1] as int)
        &&& if clock.tick_number() >= self.spec_next_change() {
            &&& next.0.spec_next_change() == (clock.tick_number() as u64).saturating_add(
                self.spec_change_delay(),
            )
            &&& exists|dx: int, dy: int|
                #[trigger] drawn_direction(
                    next.0.spec_direction(),
                    dx,
                    dy,
                    tick_distance(self.spec_velocity(), clock.delta()),
                )
        } else {
            &&& next.0.spec_next_change() == self.spec_next_change()
            &&& next.0.spec_direction() == self.spec_direction()
        }
    }

    /// When a change is due, draws a direction with both components in
    /// `-DIRECTION_RESOLUTION..DIRECTION_RESOLUTION` from the node's generator (two draws; no
    /// draw at all when no change is due) and rescales it to
    /// the distance covered in one tick; then moves the node by the direction, stopping at the edge
    /// of the coordinate space.
    #[verifier::spinoff_prover]
    fn tick<PM: PropagationModel<P = PP>, P: Packet, E>(
        self,
        data: &NodeData<PP>,
        global_state_manager: &mut GlobalStateManager<PM, P, E>,
    ) -> (next: (Self, Position))
        ensures
            !(old(global_state_manager).clock().tick_number() >= self.spec_next_change())
                ==> *final(global_state_manager) == *old(global_state_manager),
            old(global_state_manager).clock().tick_number() >= self.spec_next_change()
                ==> final(global_state_manager).draws() == old(global_state_manager).draws()
                + seq![data.id, data.id],
            final(global_state_manager).outbox() == old(global_state_manager).outbox(),
            final(global_state_manager).stats() == old(global_state_manager).stats(),
            final(global_state_manager).deliveries() == old(global_state_manager).deliveries(),
            final(global_state_manager).calls() == old(global_state_manager).calls(),
            forall|j: int|
                0 <= j < old(global_state_manager).world().len() && j != data.id
                    ==> #[trigger] final(global_state_manager).generator(j) == old(
                    global_state_manager,
                ).generator(j),
    {
        let mut walk = self;
        let mut direction = walk.direction;
        let ghost start = *global_state_manager;
        let tick = global_state_manager.current_tick() as u64;
        if tick >= walk.next_change {
            walk.next_change = tick.saturating_add(walk.change_delay);
            let dx = global_state_manager.get_random_range(
                data.id,
                -DIRECTION_RESOLUTION,
                DIRECTION_RESOLUTION,
            );
            let ghost after_first = *global_state_manager;
            proof {
                GlobalStateManager::<PM, P, E>::lemma_same_world_equivalence(after_first, start, start);
            }
            let dy = global_state_manager.get_random_range(
                data.id,
                -DIRECTION_RESOLUTION,
                DIRECTION_RESOLUTION,
            );
            proof {
                GlobalStateManager::<PM, P, E>::lemma_same_world_equivalence(
                    *global_state_manager,
                    after_first,
                    start,
                );
            }
            assert(0 <= dx * dx <= 1024 * 1024 && 0 <= dy * dy <= 1024 * 1024) by (nonlinear_arith)
                requires
                    -1024 <= dx < 1024,
                    -1024 <= dy < 1024,
            ;
            let squared: u64 = (dx as i64 * dx as i64 + dy as i64 * dy as i64) as u64;
            assert(dx * dx + dy * dy <= 2 * 1024 * 1024) by (nonlinear_arith)
                requires
                    0 <= dx * dx <= 1024 * 1024,
                    0 <= dy * dy <= 1024 * 1024,
            ;
            assert(dx * dx <= dx * dx + dy * dy && dy * dy <= dx * dx + dy * dy) by (nonlinear_arith)
                requires
                    0 <= dx * dx,
                    0 <= dy * dy,
            ;
            let delta = global_state_manager.timestep_delta();
            assert(walk.velocity as u128 * delta as u128 <= 0xffff_ffff * 0xffff_ffff_ffff_ffff)
                by (nonlinear_arith)
                requires
                    walk.velocity <= 0xffff_ffff,
                    delta <= 0xffff_ffff_ffff_ffff,
            ;
            let distance: u128 = walk.velocity as u128 * delta as u128;
            let speed: u64 = if distance > i32::MAX as u128 {
                i32::MAX as u64
            } else {
                distance as u64
            };
            if squared > 0 {
                direction = [
                    rescale_component(dx, squared, speed),
                    rescale_component(dy, squared, speed),
                ];
                proof {
                    lemma_rescaled_length(
                        direction[0] as int,
                        direction[1] as int,
                        dx as int,
                        dy as int,
                        speed as int,
                    );
                }
            } else {
                direction = [0, 0];
            }
            proof {
                assert(global_state_manager.draws() =~= start.draws() + seq![data.id, data.id]);
                assert(speed == tick_distance(walk.velocity, global_state_manager.clock().delta()));
                assert(drawn_direction(direction, dx as int, dy as int, speed as int));
                assert(global_state_manager.clock() == start.clock());
                assert(drawn_direction(
                    direction,
                    dx as int,
                    dy as int,
                    tick_distance(self.spec_velocity(), start.clock().delta()),
                ));
            }
        }
        proof {
            GlobalStateManager::<PM, P, E>::lemma_same_world_equivalence(
                *global_state_manager,
                start,
                start,
            );
            GlobalStateManager::<PM, P, E>::lemma_keeps_history(start, start, start);
            assert(global_state_manager.outbox() == start.outbox());
        }
        let position = [
            step_coordinate(data.position[0], direction[0]),
            step_coordinate(data.position[1], direction[1]),
        ];
        walk.direction = direction;
        assert(self.spec_ticks_to(*data, start.clock(), start.world(), (walk, position)));
        (walk, position)
    }
}

/// The first tick at or after tick `k` whose number is a multiple of `d`.
pub open spec fn next_multiple(k: int, d: int) -> int {
    if k == 0 {
        0
    } else {
        d * ((k - 1) / d) + d
    }
}

/// Arithmetic of [next_multiple]: it is at least `k`, it is `k` exactly when `k` is a multiple of
/// `d`, and from tick `k` to tick `k + 1` it stays unless it was `k`, when it moves on by `d`.
proof fn lemma_next_multiple(k: int, d: int)
    requires
        k >= 0,
        d >= 1,
    ensures
        next_multiple(k, d) >= k,
        (k >= next_multiple(k, d)) <==> (k % d == 0),
        next_multiple(k + 1, d) == if k % d == 0 {
            k + d
        } else {
            next_multiple(k, d)
        },
{
    vstd::arithmetic::div_mod::lemma_fundamental_div_mod(k, d);
    vstd::arithmetic::div_mod::lemma_mod_bound(k, d);
    if k == 0 {
        assert(0int % d == 0) by {
            vstd::arithmetic::div_mod::lemma_fundamental_div_mod_converse(0, d, 0, 0);
        }
        assert(0int / d == 0) by {
            vstd::arithmetic::div_mod::lemma_fundamental_div_mod_converse(0, d, 0, 0);
        }
        assert(d * 0 == 0) by (nonlinear_arith);
    } else {
        vstd::arithmetic::div_mod::lemma_fundamental_div_mod(k - 1, d);
        vstd::arithmetic::div_mod::lemma_mod_bound(k - 1, d);
        let a = (k - 1) / d;
        let r = (k - 1) % d;
        assert(k - 1 == d * a + r);
        if r == d - 1 {
            assert(k == (a + 1) * d + 0) by (nonlinear_arith)
                requires
                    k - 1 == d * a + r,
                    r == d - 1,
            ;
            vstd::arithmetic::div_mod::lemma_fundamental_div_mod_converse(k, d, a + 1, 0);
            assert(d * a + d == k) by (nonlinear_arith)
                requires
                    k == (a + 1) * d + 0,
            ;
            assert(d * (k / d) + d == k + d) by (nonlinear_arith)
                requires
                    k / d == a + 1,
                    k == (a + 1) * d,
            ;
        } else {
            assert(k == a * d + (r + 1)) by (nonlinear_arith)
                requires
                    k - 1 == d * a + r,
            ;
            vstd::arithmetic::div_mod::lemma_fundamental_div_mod_converse(k, d, a, r + 1);
            assert(d * a + d > k) by (nonlinear_arith)
                requires
                    k == a * d + (r + 1),
                    r + 1 < d,
            ;
        }
    }
}

/// `direction` is a freshly drawn direction rescaled to length `speed` (see [drawn_direction]).
pub open spec fn redrawn(direction: Position, speed: int) -> bool {
    exists|dx: int, dy: int| #[trigger] drawn_direction(direction, dx, dy, speed)
}

/// A random walk made with [RandomWalk::new] and a change delay of `d >= 1` ticks, ticked at every
/// tick of a simulation from its start (its `k`-th tick has tick number `k`), changes direction
/// exactly at the ticks whose numbers are multiples of `d`: a change is due at tick `k` exactly
/// when `k` is a multiple of `d`, a new direction is then drawn, after a change at tick `t` the
/// next is due at tick `t + d`, and the direction stays at every tick in between.
pub proof fn lemma_direction_changes_every_delay<PP: PropagationParams>(
    states: Seq<RandomWalk>,
    clocks: Seq<SimClock>,
    data: Seq<NodeData<PP>>,
    worlds: Seq<Seq<NodeData<PP>>>,
    positions: Seq<Position>,
    d: int,
)
    requires
        states.len() == clocks.len() + 1,
        d >= 1,
        states[0].spec_change_delay() == d,
        states[0].spec_next_change() == 0,
        clocks.len() + d <= u64::MAX,
        forall|k: int| 0 <= k < clocks.len() ==> (#[trigger] clocks[k]).tick_number() == k,
        forall|k: int|
            0 <= k < clocks.len() ==> <RandomWalk as MoveBehaviour<PP>>::spec_ticks_to(
                &states[k],
                data[k],
                #[trigger] clocks[k],
                worlds[k],
                (states[k + 1], positions[k]),
            ),
    ensures
        forall|k: int|
            #![trigger states[k + 1].spec_next_change()]
            0 <= k < clocks.len() && k % d == 0 ==> states[k + 1].spec_next_change() == k + d,
        forall|k: int|
            #![trigger states[k + 1].spec_direction()]
            0 <= k < clocks.len() && k % d != 0 ==> states[k + 1].spec_direction()
                == states[k].spec_direction() && states[k + 1].spec_next_change()
                == states[k].spec_next_change(),
        forall|k: int|
            #![trigger states[k].spec_next_change()]
            0 <= k < clocks.len() ==> (states[k].spec_next_change() <= k <==> k % d == 0),
        forall|k: int|
            #![trigger clocks[k]]
            0 <= k < clocks.len() && k % d == 0 ==> redrawn(
                states[k + 1].spec_direction(),
                tick_distance(states[0].spec_velocity(), clocks[k].delta()),
            ),
{
    assert forall|k: int| #![trigger states[k + 1].spec_next_change()] 0 <= k < clocks.len() && k % d
        == 0 implies states[k + 1].spec_next_change() == k + d by {
        lemma_next_multiple(k, d);
        lemma_schedule_up_to::<PP>(states, clocks, data, worlds, positions, d, k);
        lemma_schedule_up_to::<PP>(states, clocks, data, worlds, positions, d, k + 1);
    }
    assert forall|k: int| #![trigger states[k + 1].spec_direction()] 0 <= k < clocks.len() && k % d
        != 0 implies states[k + 1].spec_direction() == states[k].spec_direction() && states[k + 1].spec_next_change()
        == states[k].spec_next_change() by {
        lemma_next_multiple(k, d);
        lemma_schedule_up_to::<PP>(states, clocks, data, worlds, positions, d, k);
        lemma_schedule_up_to::<PP>(states, clocks, data, worlds, positions, d, k + 1);
        assert(clocks[k].tick_number() == k);
        assert(<RandomWalk as MoveBehaviour<PP>>::spec_ticks_to(
            &states[k],
            data[k],
            clocks[k],
            worlds[k],
            (states[k + 1], positions[k]),
        ));
    }
    assert forall|k: int| #![trigger states[k].spec_next_change()] 0 <= k < clocks.len() implies (
    states[k].spec_next_change() <= k <==> k % d == 0) by {
        lemma_next_multiple(k, d);
        lemma_schedule_up_to::<PP>(states, clocks, data, worlds, positions, d, k);
    }
    assert forall|k: int| #![trigger clocks[k]] 0 <= k < clocks.len() && k % d == 0 implies redrawn(
        states[k + 1].spec_direction(),
        tick_distance(states[0].spec_velocity(), clocks[k].delta()),
    ) by {
        lemma_next_multiple(k, d);
        lemma_schedule_up_to::<PP>(states, clocks, data, worlds, positions, d, k);
        assert(clocks[k].tick_number() == k);
        assert(<RandomWalk as MoveBehaviour<PP>>::spec_ticks_to(
            &states[k],
            data[k],
            clocks[k],
            worlds[k],
            (states[k + 1], positions[k]),
        ));
    }
}

/// Before its `k`-th tick, the walk of [lemma_direction_changes_every_delay] has its next change
/// due at the first multiple of `d` at or after `k`.
proof fn lemma_schedule_up_to<PP: PropagationParams>(
    states: Seq<RandomWalk>,
    clocks: Seq<SimClock>,
    data: Seq<NodeData<PP>>,
    worlds: Seq<Seq<NodeData<PP>>>,
    positions: Seq<Position>,
    d: int,
    k: int,
)
    requires
        states.len() == clocks.len() + 1,
        d >= 1,
        states[0].spec_change_delay() == d,
        states[0].spec_next_change() == 0,
        clocks.len() + d <= u64::MAX,
        forall|k: int| 0 <= k < clocks.len() ==> (#[trigger] clocks[k]).tick_number() == k,
        forall|k: int|
            0 <= k < clocks.len() ==> <RandomWalk as MoveBehaviour<PP>>::spec_ticks_to(
                &states[k],
                data[k],
                #[trigger] clocks[k],
                worlds[k],
                (states[k + 1], positions[k]),
            ),
        0 <= k < states.len(),
    ensures
        states[k].spec_change_delay() == d,
        states[k].spec_velocity() == states[0].spec_velocity(),
        states[k].spec_next_change() == next_multiple(k, d),
    decreases k,
{
    if k > 0 {
        let j = k - 1;
        lemma_schedule_up_to::<PP>(states, clocks, data, worlds, positions, d, j);
        lemma_next_multiple(j, d);
        assert(clocks[j].tick_number() == j);
        assert(<RandomWalk as MoveBehaviour<PP>>::spec_ticks_to(
            &states[j],
            data[j],
            clocks[j],
            worlds[j],
            (states[j + 1], positions[j]),
        ));
    }
}

} // verus!
