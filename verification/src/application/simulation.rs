use vstd::prelude::*;

use crate::application::chunks::ChunkSet;
use crate::application::streaming::StreamWindow;
use crate::application::world::WorldState;
use crate::domain::simulation::clock::{SimulationClock, MAX_ACCUMULATED_NANOS, MAX_STEPS_PER_FRAME, NANOS_PER_STEP};
use crate::domain::simulation::queue::{drained_all, drained_from, kept_from, ScheduledTickQueue};
use crate::domain::simulation::region::{area_high, area_low, SimulationRegionProvider, TickingArea};
use crate::domain::world::{ChunkLayer, ScheduledTick};

verus! {

/// Whether an area covers chunk `x`: within its radius, inside the `i64` range.
pub open spec fn area_covers(area: TickingArea, x: i64) -> bool {
    area_low(area.center_chunk, area.radius) <= x <= area_high(area.center_chunk, area.radius)
}

/// The active region of a single-player session: the streaming window's simulation band plus
/// any bounded ticking areas.
#[derive(Debug, Clone, PartialEq, Eq)]
pub struct PlayerSimulationRegions {
    window: StreamWindow,
    areas: Vec<TickingArea>,
}

impl PlayerSimulationRegions {
    pub closed spec fn spec_window(&self) -> StreamWindow {
        self.window
    }

    pub closed spec fn spec_areas(&self) -> Seq<TickingArea> {
        self.areas@
    }

    /// The band the window simulates, as a ticking area.
    pub open spec fn band(&self) -> TickingArea {
        TickingArea {
            center_chunk: self.spec_window().spec_center(),
            radius: self.spec_window().spec_config().simulation_radius,
        }
    }

    /// Whether the region covers chunk `x`.
    pub open spec fn covers(&self, x: i64) -> bool {
        area_covers(self.band(), x) || exists|i: int| 0 <= i < self.spec_areas().len() && area_covers(#[trigger] self.spec_areas()[i], x)
    }

    pub fn new(window: StreamWindow, areas: Vec<TickingArea>) -> (result: PlayerSimulationRegions)
        ensures
            result.spec_window() == window,
            result.spec_areas() == areas@,
    {
        PlayerSimulationRegions { window, areas }
    }
}

/// Adds every chunk of an area to a set.
fn add_area(set: &mut ChunkSet, area: TickingArea)
    requires
        old(set).wf(),
    ensures
        final(set).wf(),
        forall|x: i64| #[trigger] final(set).view_set().contains(x) <==> old(set).view_set().contains(x) || area_covers(area, x),
{
    let chunks = area.chunks();
    let ghost lo = area_low(area.center_chunk, area.radius);
    let mut i: usize = 0;
    while i < chunks.len()
        invariant
            set.wf(),
            i <= chunks@.len(),
            chunks@ == Seq::new(
                (area_high(area.center_chunk, area.radius) - lo + 1) as nat,
                |k: int| (lo + k) as i64,
            ),
            lo == area_low(area.center_chunk, area.radius),
            forall|x: i64| #[trigger] set.view_set().contains(x) <==> old(set).view_set().contains(x) || (lo <= x < lo + i),
        decreases chunks@.len() - i,
    {
        set.insert(chunks[i]);
        i += 1;
    }
}

impl SimulationRegionProvider for PlayerSimulationRegions {
    /// The chunks of the simulation band and of every ticking area.
    open spec fn active_set(&self) -> Set<i64> {
        Set::new(|x: i64| self.covers(x))
    }

    /// The simulation band and every ticking area, merged, sorted and free of duplicates.
    fn active_chunks(&self) -> (result: Vec<i64>)
        ensures
            forall|x: i64| #[trigger] result@.contains(x) <==> self.covers(x),
    {
        let mut set = ChunkSet::new();
        proof {
            assert(set.view_set() =~= Set::<i64>::empty());
        }
        add_area(&mut set, TickingArea::new(self.window.center_chunk(), self.window.config().simulation_radius));
        let mut i: usize = 0;
        while i < self.areas.len()
            invariant
                set.wf(),
                i <= self.areas@.len(),
                forall|x: i64| #[trigger] set.view_set().contains(x) <==> area_covers(self.band(), x) || exists|k: int|
                    0 <= k < i && area_covers(#[trigger] self.spec_areas()[k], x),
            decreases self.areas@.len() - i,
        {
            add_area(&mut set, self.areas[i]);
            proof {
                assert forall|x: i64| #[trigger] set.view_set().contains(x) <==> area_covers(self.band(), x) || exists|k: int|
                    0 <= k < i + 1 && area_covers(#[trigger] self.spec_areas()[k], x) by {
                    if area_covers(self.spec_areas()[i as int], x) {
                        assert(0 <= i < i + 1);
                    }
                    if exists|k: int| 0 <= k < i + 1 && area_covers(#[trigger] self.spec_areas()[k], x) {
                        let k = choose|k: int| 0 <= k < i + 1 && area_covers(#[trigger] self.spec_areas()[k], x);
                        if k < i {
                            assert(0 <= k < i && area_covers(self.spec_areas()[k], x));
                        }
                    }
                }
            }
            i += 1;
        }
        proof {
            set.lemma_sorted();
        }
        let keys = set.keys();
        let result = keys.clone();
        proof {
            assert(result@ =~= set.spec_keys());
            assert forall|x: i64| #[trigger] result@.contains(x) <==> self.covers(x) by {
                assert(set.view_set().contains(x) <==> result@.contains(x));
            }
        }
        result
    }
}

/// One completed logical simulation step.
#[derive(Debug, Clone, PartialEq, Eq)]
pub struct SimulationStep {
    pub world_tick: u64,
    pub processed: Vec<ScheduledTick>,
}

/// The active chunks that are actually loaded, in the provider's order. A ticking area over an
/// unloaded chunk is skipped rather than force-loading a frontier chunk; its queued work stays
/// queued until streaming brings the chunk back.
fn active_loaded_chunks<R: SimulationRegionProvider>(world: &WorldState, regions: &R) -> (result: Vec<i64>)
    requires
        world.wf(),
    ensures
        forall|i: int, j: int| 0 <= i < j < result@.len() ==> #[trigger] result@[i] < #[trigger] result@[j],
        forall|x: i64|
            #[trigger] result@.contains(x) <==> regions.active_set().contains(x) && world.spec_grid().spec_chunks().contains_key(x),
{
    let active = regions.active_chunks();
    let mut result: Vec<i64> = Vec::new();
    let mut i: usize = 0;
    while i < active.len()
        invariant
            world.wf(),
            i <= active@.len(),
            forall|a: int, b: int| 0 <= a < b < active@.len() ==> #[trigger] active@[a] < #[trigger] active@[b],
            forall|a: int, b: int| 0 <= a < b < result@.len() ==> #[trigger] result@[a] < #[trigger] result@[b],
            forall|a: int| 0 <= a < result@.len() ==> world.spec_grid().spec_chunks().contains_key(#[trigger] result@[a]),
            forall|a: int| #![trigger result@[a]] 0 <= a < result@.len() ==> exists|b: int| 0 <= b < i && #[trigger] active@[b] == result@[a],
            forall|x: i64| #[trigger] active@.contains(x) <==> regions.active_set().contains(x),
            forall|x: i64|
                #[trigger] result@.contains(x) <==> (exists|b: int| 0 <= b < i && active@[b] == x)
                    && world.spec_grid().spec_chunks().contains_key(x),
        decreases active@.len() - i,
    {
        let x = active[i];
        let ghost previous = result@;
        if world.view().contains_chunk(ChunkLayer::foreground(x)) {
            let ghost before = result@;
            result.push(x);
            proof {
                assert forall|a: int, b: int| 0 <= a < b < result@.len() implies #[trigger] result@[a] < #[trigger] result@[b] by {
                    if b == result@.len() - 1 {
                        let c = choose|c: int| 0 <= c < i && #[trigger] active@[c] == before[a];
                        assert(active@[c] < active@[i as int]);
                    }
                }
                assert forall|a: int| #![trigger result@[a]] 0 <= a < result@.len() implies exists|b: int| 0 <= b < i + 1 && #[trigger] active@[b] == result@[a] by {
                    if a == result@.len() - 1 {
                        assert(active@[i as int] == result@[a]);
                    } else {
                        let c = choose|c: int| 0 <= c < i && #[trigger] active@[c] == before[a];
                        assert(active@[c] == result@[a]);
                    }
                }
            }
        }
        proof {
            assert forall|y: i64| #[trigger] result@.contains(y) <==> (exists|b: int| 0 <= b < i + 1 && active@[b] == y)
                && world.spec_grid().spec_chunks().contains_key(y) by {
                if result@.contains(y) {
                    let a = choose|a: int| 0 <= a < result@.len() && result@[a] == y;
                    if a < previous.len() {
                        assert(previous[a] == y);
                        assert(previous.contains(y));
                    }
                }
                if (exists|b: int| 0 <= b < i + 1 && active@[b] == y) && world.spec_grid().spec_chunks().contains_key(y) {
                    let b = choose|b: int| 0 <= b < i + 1 && active@[b] == y;
                    if b < i {
                        assert(previous.contains(y));
                        let a = choose|a: int| 0 <= a < previous.len() && previous[a] == y;
                        assert(result@[a] == y);
                    } else {
                        assert(result@[result@.len() - 1] == y);
                    }
                }
            }
        }
        i += 1;
    }
    proof {
        assert forall|x: i64| #[trigger] result@.contains(x) <==> regions.active_set().contains(x)
            && world.spec_grid().spec_chunks().contains_key(x) by {
            if active@.contains(x) {
                let b = choose|b: int| 0 <= b < active@.len() && active@[b] == x;
                assert(exists|b: int| 0 <= b < i && active@[b] == x);
            }
        }
    }
    result
}

/// The clock's time once a frame of `frame_nanos` is added: capped at `MAX_ACCUMULATED_NANOS`.
pub open spec fn accumulated(clock_nanos: u64, frame_nanos: u64) -> int {
    if clock_nanos + frame_nanos >= MAX_ACCUMULATED_NANOS {
        MAX_ACCUMULATED_NANOS as int
    } else {
        clock_nanos + frame_nanos
    }
}

/// The whole steps the clock releases out of `nanos`, at most `MAX_STEPS_PER_FRAME`.
pub open spec fn released_steps(nanos: int) -> int {
    if nanos / (NANOS_PER_STEP as int) <= MAX_STEPS_PER_FRAME {
        nanos / (NANOS_PER_STEP as int)
    } else {
        MAX_STEPS_PER_FRAME as int
    }
}

/// The work a chunk still owes after `n` steps from world tick `start`, each step draining
/// what is due at its own tick.
pub open spec fn ticks_after_steps(s: Seq<ScheduledTick>, start: u64, n: nat) -> Seq<ScheduledTick>
    decreases n,
{
    if n == 0 {
        s
    } else {
        kept_from(ticks_after_steps(s, start, (n - 1) as nat), (start + n) as u64)
    }
}

/// What a step at `tick` drains from the chunks `active`, in their order, when chunk `c` owes
/// `work(c)`.
pub open spec fn drained_chunks(work: spec_fn(i64) -> Seq<ScheduledTick>, active: Seq<i64>, tick: u64) -> Seq<
    ScheduledTick,
>
    decreases active.len(),
{
    if active.len() == 0 {
        Seq::empty()
    } else {
        drained_chunks(work, active.drop_last(), tick) + drained_from(work(active.last()), tick)
    }
}

/// The work of the queue `q` after `n` steps from tick `start` over the chunks `active`.
pub open spec fn queue_after_steps(q: ScheduledTickQueue, active: Seq<i64>, start: u64, n: nat) -> spec_fn(i64) -> Seq<
    ScheduledTick,
> {
    |c: i64|
        if active.contains(c) {
            ticks_after_steps(q.chunk_ticks(c as int), start, n)
        } else {
            q.chunk_ticks(c as int)
        }
}

/// Draining a queue drains each chunk's own work.
proof fn lemma_drained_chunks(q: ScheduledTickQueue, work: spec_fn(i64) -> Seq<ScheduledTick>, active: Seq<i64>, tick: u64)
    requires
        forall|i: int| 0 <= i < active.len() ==> q.chunk_ticks(active[i] as int) == work(#[trigger] active[i]),
    ensures
        drained_all(q, active, tick) == drained_chunks(work, active, tick),
    decreases active.len(),
{
    if active.len() > 0 {
        let rest = active.drop_last();
        assert forall|i: int| 0 <= i < rest.len() implies q.chunk_ticks(rest[i] as int) == work(#[trigger] rest[i]) by {
            assert(rest[i] == active[i]);
        }
        lemma_drained_chunks(q, work, rest, tick);
        assert(q.chunk_ticks(active.last() as int) == work(active[active.len() - 1]));
    }
}

/// Advances the logical simulation steps one rendered frame pays for. The frame's time, in
/// whole nanoseconds, goes into the clock; each whole step the clock releases advances the
/// world tick and drains the work due then in the active, loaded chunks, which are taken once,
/// in increasing order, before the first step. Chunks outside them keep their work untouched.
pub fn run_simulation<R: SimulationRegionProvider>(
    world: &mut WorldState,
    clock: &mut SimulationClock,
    regions: &R,
    frame_nanos: u64,
) -> (steps: Vec<SimulationStep>)
    requires
        old(world).wf(),
        old(clock).wf(),
        old(world).spec_world_tick() + MAX_STEPS_PER_FRAME <= u64::MAX,
    ensures
        final(world).wf(),
        final(clock).wf(),
        steps@.len() == released_steps(accumulated(old(clock).spec_nanos(), frame_nanos)),
        final(clock).spec_nanos() == accumulated(old(clock).spec_nanos(), frame_nanos) - steps@.len() * NANOS_PER_STEP,
        steps@.len() <= MAX_STEPS_PER_FRAME,
        final(world).spec_world_tick() == old(world).spec_world_tick() + steps@.len(),
        forall|k: int| 0 <= k < steps@.len() ==> #[trigger] steps@[k].world_tick == old(world).spec_world_tick() + k + 1,
        final(world).spec_grid() == old(world).spec_grid(),
        final(world).spec_revision() == old(world).spec_revision(),
        final(world).spec_persisted() == old(world).spec_persisted(),
        final(world).spec_dirty() == old(world).spec_dirty(),
        final(world).spec_origin() == old(world).spec_origin(),
        final(world).spec_seed() == old(world).spec_seed(),
        final(world).spec_queue().spec_next_sequence() == old(world).spec_queue().spec_next_sequence(),
        forall|c: i64|
            !old(world).spec_grid().spec_chunks().contains_key(c) ==> #[trigger] final(world).spec_queue().chunk_ticks(c as int)
                == old(world).spec_queue().chunk_ticks(c as int),
        steps@.len() == 0 ==> forall|c: i64|
            #[trigger] final(world).spec_queue().chunk_ticks(c as int) == old(world).spec_queue().chunk_ticks(c as int),
        steps@.len() > 0 ==> exists|active: Seq<i64>|
            #![trigger active.len()]
            {
                &&& forall|i: int, j: int| 0 <= i < j < active.len() ==> #[trigger] active[i] < #[trigger] active[j]
                &&& forall|x: i64|
                    #[trigger] active.contains(x) <==> regions.active_set().contains(x)
                        && old(world).spec_grid().spec_chunks().contains_key(x)
                &&& forall|k: int|
                    0 <= k < steps@.len() ==> #[trigger] steps@[k].processed@ == drained_chunks(
                        queue_after_steps(old(world).spec_queue(), active, old(world).spec_world_tick(), k as nat),
                        active,
                        (old(world).spec_world_tick() + k + 1) as u64,
                    )
                &&& forall|c: i64|
                    #[trigger] final(world).spec_queue().chunk_ticks(c as int) == queue_after_steps(
                        old(world).spec_queue(),
                        active,
                        old(world).spec_world_tick(),
                        steps@.len() as nat,
                    )(c)
            },
{
    clock.accumulate_nanos(frame_nanos);
    let count = clock.take_steps();
    let mut steps: Vec<SimulationStep> = Vec::new();
    if count == 0 {
        return steps;
    }
    let active = active_loaded_chunks(world, regions);
    let ghost start = *world;
    let ghost t0 = start.spec_world_tick();
    let ghost q0 = start.spec_queue();
    let mut k: u32 = 0;
    while k < count
        invariant
            world.wf(),
            count <= MAX_STEPS_PER_FRAME,
            k <= count,
            steps@.len() == k,
            t0 == start.spec_world_tick(),
            q0 == start.spec_queue(),
            world.spec_world_tick() == t0 + k,
            t0 + MAX_STEPS_PER_FRAME <= u64::MAX,
            forall|j: int| 0 <= j < steps@.len() ==> #[trigger] steps@[j].world_tick == t0 + j + 1,
            world.spec_grid() == start.spec_grid(),
            world.spec_revision() == start.spec_revision(),
            world.spec_persisted() == start.spec_persisted(),
            world.spec_dirty() == start.spec_dirty(),
            world.spec_origin() == start.spec_origin(),
            world.spec_seed() == start.spec_seed(),
            world.spec_queue().spec_next_sequence() == q0.spec_next_sequence(),
            forall|a: int, b: int| 0 <= a < b < active@.len() ==> #[trigger] active@[a] < #[trigger] active@[b],
            forall|x: i64|
                #[trigger] active@.contains(x) <==> regions.active_set().contains(x)
                    && start.spec_grid().spec_chunks().contains_key(x),
            forall|c: i64|
                #[trigger] world.spec_queue().chunk_ticks(c as int) == queue_after_steps(q0, active@, t0, k as nat)(c),
            forall|j: int|
                0 <= j < steps@.len() ==> #[trigger] steps@[j].processed@ == drained_chunks(
                    queue_after_steps(q0, active@, t0, j as nat),
                    active@,
                    (t0 + j + 1) as u64,
                ),
        decreases count - k,
    {
        let ghost before = *world;
        let world_tick = world.advance_world_tick();
        let processed = world.take_due_ticks(active.as_slice());
        proof {
            lemma_drained_chunks(before.spec_queue(), queue_after_steps(q0, active@, t0, k as nat), active@, world_tick);
            assert forall|c: i64| #[trigger] world.spec_queue().chunk_ticks(c as int) == queue_after_steps(
                q0,
                active@,
                t0,
                (k + 1) as nat,
            )(c) by {
                assert(before.spec_queue().chunk_ticks(c as int) == queue_after_steps(q0, active@, t0, k as nat)(c));
            }
        }
        steps.push(SimulationStep { world_tick, processed });
        proof {
            assert(steps@[k as int].processed@ == drained_chunks(
                queue_after_steps(q0, active@, t0, k as nat),
                active@,
                (t0 + k + 1) as u64,
            ));
        }
        k += 1;
    }
    proof {
        assert forall|c: i64| !start.spec_grid().spec_chunks().contains_key(c) implies #[trigger] world.spec_queue().chunk_ticks(
            c as int,
        ) == q0.chunk_ticks(c as int) by {
            assert(!active@.contains(c));
            assert(world.spec_queue().chunk_ticks(c as int) == queue_after_steps(q0, active@, t0, k as nat)(c));
        }
        let a = active@;
        assert(forall|i: int, j: int| 0 <= i < j < a.len() ==> #[trigger] a[i] < #[trigger] a[j]);
        assert(forall|x: i64|
            #[trigger] a.contains(x) <==> regions.active_set().contains(x) && start.spec_grid().spec_chunks().contains_key(x));
        assert(forall|j: int|
            0 <= j < steps@.len() ==> #[trigger] steps@[j].processed@ == drained_chunks(
                queue_after_steps(q0, a, t0, j as nat),
                a,
                (t0 + j + 1) as u64,
            ));
        assert(forall|c: i64|
            #[trigger] world.spec_queue().chunk_ticks(c as int) == queue_after_steps(q0, a, t0, steps@.len() as nat)(c));
    }
    steps
}

} // verus!
