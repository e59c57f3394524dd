use vstd::prelude::*;

use crate::domain::block::BlockState;
use crate::domain::mutation::pos_lt;
use crate::domain::world::{
    chunk_of, layer_depth, world_to_chunk, MutationPriority, ScheduledTick, VoxelLayer, VoxelPos,
};

verus! {

/// Scheduled ticks one active chunk may process in one logical tick. Overflow stays queued in
/// stable order rather than extending the tick.
pub const MAX_SCHEDULED_PER_CHUNK_PER_TICK: usize = 4096;

/// The stable drain order of scheduled ticks: by due tick, then priority, then position
/// (global column first), then sequence.
pub open spec fn tick_before(a: ScheduledTick, b: ScheduledTick) -> bool {
    ||| a.due_world_tick < b.due_world_tick
    ||| a.due_world_tick == b.due_world_tick && a.priority.0 < b.priority.0
    ||| a.due_world_tick == b.due_world_tick && a.priority == b.priority && pos_lt(a.position, b.position)
    ||| a.due_world_tick == b.due_world_tick && a.priority == b.priority && a.position == b.position
        && a.sequence < b.sequence
}

/// The drain order is the lexicographic order of `(due_world_tick, priority, position,
/// sequence)`: an earlier due tick drains first; on the same due tick the smaller priority
/// number; then the position, by global column, then row, then the foreground before the
/// backwall, whatever the sequences; and only for the same position the smaller sequence.
/// No tick drains before itself, and of two ticks at most one drains before the other.
pub proof fn lemma_drain_order_is_lexicographic(a: ScheduledTick, b: ScheduledTick)
    ensures
        a.due_world_tick < b.due_world_tick ==> tick_before(a, b),
        a.due_world_tick == b.due_world_tick && a.priority.0 < b.priority.0 ==> tick_before(a, b),
        a.due_world_tick == b.due_world_tick && a.priority == b.priority && a.position.global_x
            < b.position.global_x ==> tick_before(a, b),
        a.due_world_tick == b.due_world_tick && a.priority == b.priority && a.position.global_x
            == b.position.global_x && a.position.y < b.position.y ==> tick_before(a, b),
        a.due_world_tick == b.due_world_tick && a.priority == b.priority && a.position.global_x
            == b.position.global_x && a.position.y == b.position.y && a.position.layer == VoxelLayer::Foreground
            && b.position.layer == VoxelLayer::Backwall ==> tick_before(a, b),
        a.due_world_tick == b.due_world_tick && a.priority == b.priority && a.position == b.position && a.sequence
            < b.sequence ==> tick_before(a, b),
        !tick_before(a, a),
        tick_before(a, b) ==> !tick_before(b, a),
{
}

/// Whether two ticks share their identity `(due_world_tick, priority, position, sequence)`.
pub open spec fn same_tick_key(a: ScheduledTick, b: ScheduledTick) -> bool {
    a.due_world_tick == b.due_world_tick && a.priority == b.priority && a.position == b.position
        && a.sequence == b.sequence
}

/// The chunk a tick belongs to.
pub open spec fn tick_chunk(t: ScheduledTick) -> int {
    chunk_of(t.position.global_x as int)
}

/// Every tick comes strictly before every later one in drain order.
pub open spec fn in_drain_order(s: Seq<ScheduledTick>) -> bool {
    forall|i: int, j: int| 0 <= i < j < s.len() ==> tick_before(#[trigger] s[i], #[trigger] s[j])
}

/// How many leading ticks of `s` are due at `world_tick`, at most `budget`.
pub open spec fn due_run(s: Seq<ScheduledTick>, world_tick: u64, budget: nat) -> nat
    decreases budget,
{
    if budget == 0 || s.len() == 0 || s[0].due_world_tick > world_tick {
        0
    } else {
        1 + due_run(s.drop_first(), world_tick, (budget - 1) as nat)
    }
}

/// The ticks that one call of `take_due` drains from a chunk's queue `s`.
pub open spec fn drained_from(s: Seq<ScheduledTick>, world_tick: u64) -> Seq<ScheduledTick> {
    s.take(due_run(s, world_tick, MAX_SCHEDULED_PER_CHUNK_PER_TICK as nat) as int)
}

/// The ticks that one call of `take_due` leaves in a chunk's queue `s`.
pub open spec fn kept_from(s: Seq<ScheduledTick>, world_tick: u64) -> Seq<ScheduledTick> {
    s.skip(due_run(s, world_tick, MAX_SCHEDULED_PER_CHUNK_PER_TICK as nat) as int)
}

/// Every tick of a list of per-chunk runs.
pub open spec fn listed_ticks(chunks: Seq<(i64, Vec<ScheduledTick>)>) -> Set<ScheduledTick> {
    Set::new(|t: ScheduledTick| exists|i: int, j: int| 0 <= i < chunks.len() && 0 <= j < chunks[i].1@.len() && #[trigger] chunks[i].1@[j] == t)
}

proof fn lemma_tick_order(a: ScheduledTick, b: ScheduledTick, c: ScheduledTick)
    ensures
        !tick_before(a, a),
        tick_before(a, b) ==> !tick_before(b, a),
        tick_before(a, b) && tick_before(b, c) ==> tick_before(a, c),
        !tick_before(a, b) && !tick_before(b, a) ==> same_tick_key(a, b),
        tick_before(a, b) ==> !same_tick_key(a, b),
{
    if !tick_before(a, b) && !tick_before(b, a) {
        assert(a.priority.0 == b.priority.0);
        assert(a.position.layer == b.position.layer) by {
            assert(layer_depth(a.position.layer) == layer_depth(b.position.layer));
        }
    }
}

proof fn lemma_due_run_step(s: Seq<ScheduledTick>, world_tick: u64, k: int, budget: nat)
    requires
        0 <= k < s.len(),
        budget > 0,
        s[k].due_world_tick <= world_tick,
    ensures
        due_run(s.skip(k), world_tick, budget) == 1 + due_run(s.skip(k + 1), world_tick, (budget - 1) as nat),
{
    assert(s.skip(k).drop_first() =~= s.skip(k + 1));
}

proof fn lemma_due_run_bound(s: Seq<ScheduledTick>, world_tick: u64, budget: nat)
    ensures
        due_run(s, world_tick, budget) <= s.len(),
        due_run(s, world_tick, budget) <= budget,
        forall|i: int| 0 <= i < due_run(s, world_tick, budget) ==> #[trigger] s[i].due_world_tick <= world_tick,
    decreases budget,
{
    if !(budget == 0 || s.len() == 0 || s[0].due_world_tick > world_tick) {
        lemma_due_run_bound(s.drop_first(), world_tick, (budget - 1) as nat);
        assert forall|i: int| 0 <= i < due_run(s, world_tick, budget) implies #[trigger] s[i].due_world_tick <= world_tick by {
            if i > 0 {
                assert(s[i] == s.drop_first()[i - 1]);
            }
        }
    }
}

/// Whether `a` comes before `b` in drain order.
fn tick_precedes(a: &ScheduledTick, b: &ScheduledTick) -> (result: bool)
    ensures
        result == tick_before(*a, *b),
{
    if a.due_world_tick != b.due_world_tick {
        return a.due_world_tick < b.due_world_tick;
    }
    if a.priority.0 != b.priority.0 {
        return a.priority.0 < b.priority.0;
    }
    if a.position.global_x != b.position.global_x {
        return a.position.global_x < b.position.global_x;
    }
    if a.position.y != b.position.y {
        return a.position.y < b.position.y;
    }
    let da = a.position.layer.depth();
    let db = b.position.layer.depth();
    if da != db {
        return da < db;
    }
    proof {
        assert(a.priority == b.priority);
        assert(a.position.layer == b.position.layer);
        assert(a.position == b.position);
    }
    a.sequence < b.sequence
}

/// Simulation work owed by the world, grouped by global chunk.
///
/// Grouping is what makes activation cheap: an inactive chunk is frozen simply by never being
/// inspected, and its entry is exactly what persistence writes back.
#[derive(Debug, Clone, PartialEq, Eq)]
pub struct ScheduledTickQueue {
    by_chunk: Vec<(i64, Vec<ScheduledTick>)>,
    next_sequence: u64,
}

impl ScheduledTickQueue {
    /// The chunks that owe work, in increasing order.
    pub closed spec fn spec_chunks(&self) -> Seq<i64> {
        self.by_chunk@.map_values(|e: (i64, Vec<ScheduledTick>)| e.0)
    }

    /// A chunk's queued work, in drain order; empty for a chunk that owes none.
    pub closed spec fn chunk_ticks(&self, chunk_x: int) -> Seq<ScheduledTick> {
        let s = self.by_chunk@;
        if exists|i: int| 0 <= i < s.len() && s[i].0 == chunk_x {
            s[choose|i: int| 0 <= i < s.len() && s[i].0 == chunk_x].1@
        } else {
            Seq::empty()
        }
    }

    /// The sequence the next scheduled tick receives.
    pub closed spec fn spec_next_sequence(&self) -> u64 {
        self.next_sequence
    }

    /// Every queued tick.
    pub open spec fn queued(&self) -> Set<ScheduledTick> {
        Set::new(|t: ScheduledTick| self.chunk_ticks(tick_chunk(t)).contains(t))
    }

    /// Chunk entries are sorted and unique; each holds at least one tick, all of its own
    /// chunk, in drain order, with sequences below the next one.
    pub closed spec fn wf(&self) -> bool {
        let s = self.by_chunk@;
        &&& forall|i: int, j: int| 0 <= i < j < s.len() ==> #[trigger] s[i].0 < #[trigger] s[j].0
        &&& forall|i: int|
            0 <= i < s.len() ==> {
                let e = #[trigger] s[i];
                &&& e.1@.len() > 0
                &&& in_drain_order(e.1@)
                &&& forall|k: int|
                    0 <= k < e.1@.len() ==> tick_chunk(#[trigger] e.1@[k]) == e.0 && e.1@[k].sequence
                        < self.next_sequence
            }
    }

    proof fn lemma_lookup(&self, i: int)
        requires
            self.wf(),
            0 <= i < self.by_chunk@.len(),
        ensures
            self.chunk_ticks(self.by_chunk@[i].0 as int) == self.by_chunk@[i].1@,
    {
        let s = self.by_chunk@;
        let c = s[i].0 as int;
        let j = choose|j: int| 0 <= j < s.len() && s[j].0 == c;
        if j != i {
            if j < i {
                assert(s[j].0 < s[i].0);
            } else {
                assert(s[i].0 < s[j].0);
            }
        }
    }

    proof fn lemma_absent(&self, c: int)
        requires
            forall|i: int| 0 <= i < self.by_chunk@.len() ==> #[trigger] self.by_chunk@[i].0 != c,
        ensures
            self.chunk_ticks(c) == Seq::<ScheduledTick>::empty(),
    {
    }

    /// What a well-formed queue guarantees about each chunk's work.
    pub proof fn lemma_wf_facts(&self, c: i64)
        requires
            self.wf(),
        ensures
            in_drain_order(self.chunk_ticks(c as int)),
            forall|k: int|
                0 <= k < self.chunk_ticks(c as int).len() ==> tick_chunk(#[trigger] self.chunk_ticks(c as int)[k]) == c
                    && self.chunk_ticks(c as int)[k].sequence < self.spec_next_sequence(),
            self.spec_chunks().contains(c) <==> self.chunk_ticks(c as int).len() > 0,
            forall|i: int, j: int|
                0 <= i < j < self.spec_chunks().len() ==> #[trigger] self.spec_chunks()[i]
                    < #[trigger] self.spec_chunks()[j],
    {
        let s = self.by_chunk@;
        if exists|i: int| 0 <= i < s.len() && s[i].0 == c {
            let i = choose|i: int| 0 <= i < s.len() && s[i].0 == c;
            self.lemma_lookup(i);
            assert(self.spec_chunks()[i] == c);
        } else {
            if self.spec_chunks().contains(c) {
                let i = choose|i: int| 0 <= i < self.spec_chunks().len() && self.spec_chunks()[i] == c;
                assert(s[i].0 == c);
            }
        }
        assert forall|i: int, j: int| 0 <= i < j < self.spec_chunks().len() implies #[trigger] self.spec_chunks()[i]
            < #[trigger] self.spec_chunks()[j] by {
            assert(s[i].0 < s[j].0);
        }
    }

    /// The empty queue, whose first tick gets sequence `0`.
    pub fn new() -> (result: ScheduledTickQueue)
        ensures
            result.wf(),
            result.spec_next_sequence() == 0,
            forall|c: int| #[trigger] result.chunk_ticks(c) == Seq::<ScheduledTick>::empty(),
    {
        ScheduledTickQueue { by_chunk: Vec::new(), next_sequence: 0 }
    }

    /// Where chunk `chunk_x` stands, or where it would be inserted.
    fn locate(&self, chunk_x: i64) -> (result: (usize, bool))
        requires
            self.wf(),
        ensures
            result.0 <= self.by_chunk@.len(),
            result.1 ==> result.0 < self.by_chunk@.len() && self.by_chunk@[result.0 as int].0 == chunk_x,
            !result.1 ==> forall|i: int| 0 <= i < self.by_chunk@.len() ==> (#[trigger] self.by_chunk@[i].0
                < chunk_x <==> i < result.0) && self.by_chunk@[i].0 != chunk_x,
    {
        let mut i: usize = 0;
        while i < self.by_chunk.len()
            invariant
                self.wf(),
                i <= self.by_chunk@.len(),
                forall|j: int| 0 <= j < i ==> #[trigger] self.by_chunk@[j].0 < chunk_x,
            decreases self.by_chunk@.len() - i,
        {
            let key = self.by_chunk[i].0;
            if key == chunk_x {
                return (i, true);
            }
            if key > chunk_x {
                proof {
                    assert forall|j: int| 0 <= j < self.by_chunk@.len() implies (#[trigger] self.by_chunk@[j].0
                        < chunk_x <==> j < i) && self.by_chunk@[j].0 != chunk_x by {
                        if j > i {
                            assert(self.by_chunk@[i as int].0 < self.by_chunk@[j].0);
                        }
                    }
                }
                return (i, false);
            }
            i += 1;
        }
        (i, false)
    }

    /// Inserts a tick into its chunk's run, keeping drain order.
    fn insert(&mut self, chunk_x: i64, tick: ScheduledTick)
        requires
            old(self).wf(),
            tick_chunk(tick) == chunk_x,
            tick.sequence < old(self).spec_next_sequence(),
            forall|k: int|
                0 <= k < old(self).chunk_ticks(chunk_x as int).len() ==> !same_tick_key(
                    #[trigger] old(self).chunk_ticks(chunk_x as int)[k],
                    tick,
                ),
        ensures
            final(self).wf(),
            final(self).spec_next_sequence() == old(self).spec_next_sequence(),
            final(self).chunk_ticks(chunk_x as int).to_set() == old(self).chunk_ticks(chunk_x as int).to_set().insert(tick),
            forall|c: int| c != chunk_x ==> #[trigger] final(self).chunk_ticks(c) == old(self).chunk_ticks(c),
    {
        let ghost before = *self;
        let (i, found) = self.locate(chunk_x);
        if found {
            proof {
                before.lemma_lookup(i as int);
            }
            let (key, mut run) = self.by_chunk.remove(i);
            let ghost old_run = run@;
            let mut p: usize = 0;
            while p < run.len() && !tick_precedes(&tick, &run[p])
                invariant
                    p <= run@.len(),
                    run@ == old_run,
                    forall|k: int| 0 <= k < p ==> !tick_before(tick, #[trigger] old_run[k]),
                decreases run@.len() - p,
            {
                p += 1;
            }
            run.insert(p, tick);
            proof {
                assert forall|a: int, b: int| 0 <= a < b < run@.len() implies tick_before(
                    #[trigger] run@[a],
                    #[trigger] run@[b],
                ) by {
                    if a < p && b < p + 1 {
                        if b == p {
                            lemma_tick_order(old_run[a], tick, tick);
                            assert(!same_tick_key(old_run[a], tick));
                            lemma_tick_order(tick, old_run[a], tick);
                        } else {
                            assert(tick_before(old_run[a], old_run[b]));
                        }
                    } else if a == p {
                        assert(run@[b] == old_run[b - 1]);
                        if b - 1 > p {
                            assert(tick_before(old_run[p as int], old_run[b - 1]));
                            lemma_tick_order(tick, old_run[p as int], old_run[b - 1]);
                        }
                    } else if a < p {
                        assert(run@[b] == old_run[b - 1]);
                        assert(tick_before(old_run[a], old_run[b - 1]));
                    } else {
                        assert(run@[a] == old_run[a - 1]);
                        assert(run@[b] == old_run[b - 1]);
                        assert(tick_before(old_run[a - 1], old_run[b - 1]));
                    }
                }
                assert(run@.to_set() =~= old_run.to_set().insert(tick)) by {
                    assert forall|t: ScheduledTick| run@.to_set().contains(t) implies old_run.to_set().insert(tick).contains(t) by {
                        let k = choose|k: int| 0 <= k < run@.len() && run@[k] == t;
                        if k < p {
                            assert(old_run[k] == t);
                        } else if k > p {
                            assert(old_run[k - 1] == t);
                        }
                    }
                    assert forall|t: ScheduledTick| old_run.to_set().insert(tick).contains(t) implies run@.to_set().contains(t) by {
                        if t == tick {
                            assert(run@[p as int] == tick);
                        } else {
                            let k = choose|k: int| 0 <= k < old_run.len() && old_run[k] == t;
                            if k < p {
                                assert(run@[k] == t);
                            } else {
                                assert(run@[k + 1] == t);
                            }
                        }
                    }
                }
            }
            self.by_chunk.insert(i, (key, run));
            proof {
                assert(self.by_chunk@ =~= before.by_chunk@.update(i as int, (key, run)));
                let s = self.by_chunk@;
                assert forall|a: int| 0 <= a < s.len() implies {
                    let e = #[trigger] s[a];
                    &&& e.1@.len() > 0
                    &&& in_drain_order(e.1@)
                    &&& forall|k: int|
                        0 <= k < e.1@.len() ==> tick_chunk(#[trigger] e.1@[k]) == e.0 && e.1@[k].sequence
                            < self.next_sequence
                } by {
                    if a == i {
                        assert forall|k: int| 0 <= k < run@.len() implies tick_chunk(#[trigger] run@[k])
                            == key && run@[k].sequence < self.next_sequence by {
                            if k < p {
                                assert(run@[k] == old_run[k]);
                            } else if k > p {
                                assert(run@[k] == old_run[k - 1]);
                            }
                        }
                    }
                }
                assert(self.wf());
                self.lemma_lookup(i as int);
                assert forall|c: int| c != chunk_x implies #[trigger] self.chunk_ticks(c) == before.chunk_ticks(c) by {
                    if exists|j: int| 0 <= j < s.len() && s[j].0 == c {
                        let j = choose|j: int| 0 <= j < s.len() && s[j].0 == c;
                        self.lemma_lookup(j);
                        before.lemma_lookup(j);
                    } else {
                        assert forall|j: int| 0 <= j < before.by_chunk@.len() implies #[trigger] before.by_chunk@[j].0 != c by {
                            assert(s[j].0 == before.by_chunk@[j].0);
                        }
                        before.lemma_absent(c);
                        self.lemma_absent(c);
                    }
                }
            }
        } else {
            let mut run: Vec<ScheduledTick> = Vec::new();
            run.push(tick);
            self.by_chunk.insert(i, (chunk_x, run));
            proof {
                before.lemma_absent(chunk_x as int);
                let s = self.by_chunk@;
                let bs = before.by_chunk@;
                assert(s =~= bs.insert(i as int, (chunk_x, run)));
                assert forall|a: int, b: int| 0 <= a < b < s.len() implies #[trigger] s[a].0 < #[trigger] s[b].0 by {
                    if a < i && b > i {
                        assert(bs[a].0 < chunk_x);
                        assert(!(bs[b - 1].0 < chunk_x));
                    } else if a == i {
                        assert(!(bs[b - 1].0 < chunk_x));
                        assert(bs[b - 1].0 != chunk_x);
                    } else if b == i {
                        assert(bs[a].0 < chunk_x);
                    } else if b < i {
                        assert(bs[a].0 < bs[b].0);
                    } else {
                        assert(bs[a - 1].0 < bs[b - 1].0);
                    }
                }
                assert forall|a: int| 0 <= a < s.len() implies {
                    let e = #[trigger] s[a];
                    &&& e.1@.len() > 0
                    &&& in_drain_order(e.1@)
                    &&& forall|k: int|
                        0 <= k < e.1@.len() ==> tick_chunk(#[trigger] e.1@[k]) == e.0 && e.1@[k].sequence
                            < self.next_sequence
                } by {
                    if a < i {
                        assert(s[a] == bs[a]);
                    } else if a > i {
                        assert(s[a] == bs[a - 1]);
                    }
                }
                assert(self.wf());
                self.lemma_lookup(i as int);
                assert(run@.to_set() =~= Seq::<ScheduledTick>::empty().to_set().insert(tick)) by {
                    assert(run@[0] == tick);
                }
                assert forall|c: int| c != chunk_x implies #[trigger] self.chunk_ticks(c) == before.chunk_ticks(c) by {
                    if exists|j: int| 0 <= j < s.len() && s[j].0 == c {
                        let j = choose|j: int| 0 <= j < s.len() && s[j].0 == c;
                        self.lemma_lookup(j);
                        if j < i {
                            before.lemma_lookup(j);
                        } else {
                            assert(j > i);
                            before.lemma_lookup(j - 1);
                        }
                    } else {
                        assert forall|j: int| 0 <= j < bs.len() implies #[trigger] bs[j].0 != c by {
                            if j < i {
                                assert(s[j] == bs[j]);
                            } else {
                                assert(s[j + 1] == bs[j]);
                            }
                        }
                        before.lemma_absent(c);
                        self.lemma_absent(c);
                    }
                }
            }
        }
    }
}

/// The ticks of `chunks` that come before run `i`, position `j`, in reading order.
pub open spec fn listed_before(chunks: Seq<(i64, Vec<ScheduledTick>)>, i: int, j: int) -> Set<ScheduledTick> {
    Set::new(
        |t: ScheduledTick|
            exists|a: int, b: int|
                0 <= a < chunks.len() && 0 <= b < chunks[a].1@.len() && (a < i || (a == i && b < j))
                    && #[trigger] chunks[a].1@[b] == t,
    )
}

/// The ticks of chunk `c` among `ticks`.
pub open spec fn of_chunk(ticks: Set<ScheduledTick>, c: int) -> Set<ScheduledTick> {
    ticks.filter(|t: ScheduledTick| tick_chunk(t) == c)
}

/// Everything one call of `take_due` drains, active chunk by active chunk.
pub open spec fn drained_all(q: ScheduledTickQueue, active: Seq<i64>, world_tick: u64) -> Seq<ScheduledTick>
    decreases active.len(),
{
    if active.len() == 0 {
        Seq::empty()
    } else {
        drained_all(q, active.drop_last(), world_tick) + drained_from(q.chunk_ticks(active.last() as int), world_tick)
    }
}

/// The number of queued ticks, chunk by chunk over the first `n` owing chunks.
pub open spec fn queued_count(q: ScheduledTickQueue, n: int) -> int
    decreases n,
{
    if n <= 0 {
        0
    } else {
        queued_count(q, n - 1) + q.chunk_ticks(q.spec_chunks()[n - 1] as int).len()
    }
}

impl ScheduledTickQueue {
    /// Removes the first `k` ticks of entry `i` and hands them out, dropping the entry once it
    /// is empty.
    fn take_front(&mut self, i: usize, k: usize) -> (front: Vec<ScheduledTick>)
        requires
            old(self).wf(),
            i < old(self).by_chunk@.len(),
            k <= old(self).by_chunk@[i as int].1@.len(),
        ensures
            final(self).wf(),
            final(self).spec_next_sequence() == old(self).spec_next_sequence(),
            ({
                let c = old(self).by_chunk@[i as int].0 as int;
                &&& front@ == old(self).chunk_ticks(c).take(k as int)
                &&& final(self).chunk_ticks(c) == old(self).chunk_ticks(c).skip(k as int)
                &&& forall|d: int| d != c ==> #[trigger] final(self).chunk_ticks(d) == old(self).chunk_ticks(d)
            }),
    {
        let ghost before = *self;
        proof {
            before.lemma_lookup(i as int);
        }
        let (key, mut run) = self.by_chunk.remove(i);
        let ghost old_run = run@;
        let rest = run.split_off(k);
        let ghost bs = before.by_chunk@;
        if rest.len() > 0 {
            self.by_chunk.insert(i, (key, rest));
            proof {
                let s = self.by_chunk@;
                assert(s =~= bs.update(i as int, (key, rest)));
                assert forall|a: int| 0 <= a < s.len() implies {
                    let e = #[trigger] s[a];
                    &&& e.1@.len() > 0
                    &&& in_drain_order(e.1@)
                    &&& forall|m: int|
                        0 <= m < e.1@.len() ==> tick_chunk(#[trigger] e.1@[m]) == e.0 && e.1@[m].sequence
                            < self.next_sequence
                } by {
                    if a == i {
                        assert forall|x: int, y: int| 0 <= x < y < rest@.len() implies tick_before(
                            #[trigger] rest@[x],
                            #[trigger] rest@[y],
                        ) by {
                            assert(rest@[x] == old_run[x + k]);
                            assert(rest@[y] == old_run[y + k]);
                        }
                        assert forall|m: int| 0 <= m < rest@.len() implies tick_chunk(#[trigger] rest@[m])
                            == key && rest@[m].sequence < self.next_sequence by {
                            assert(rest@[m] == old_run[m + k]);
                        }
                    }
                }
                assert(self.wf());
                self.lemma_lookup(i as int);
                assert(rest@ =~= old_run.skip(k as int));
                assert forall|d: int| d != key implies #[trigger] self.chunk_ticks(d) == before.chunk_ticks(d) by {
                    if exists|j: int| 0 <= j < s.len() && s[j].0 == d {
                        let j = choose|j: int| 0 <= j < s.len() && s[j].0 == d;
                        self.lemma_lookup(j);
                        before.lemma_lookup(j);
                    } else {
                        assert forall|j: int| 0 <= j < bs.len() implies #[trigger] bs[j].0 != d by {
                            assert(s[j].0 == bs[j].0);
                        }
                        before.lemma_absent(d);
                        self.lemma_absent(d);
                    }
                }
            }
        } else {
            proof {
                let s = self.by_chunk@;
                assert(s =~= bs.remove(i as int));
                assert forall|a: int, b: int| 0 <= a < b < s.len() implies #[trigger] s[a].0 < #[trigger] s[b].0 by {
                    if a < i && b >= i {
                        assert(s[b] == bs[b + 1]);
                        assert(bs[a].0 < bs[b + 1].0);
                    } else if a >= i {
                        assert(bs[a + 1].0 < bs[b + 1].0);
                    } else {
                        assert(bs[a].0 < bs[b].0);
                    }
                }
                assert forall|a: int| 0 <= a < s.len() implies {
                    let e = #[trigger] s[a];
                    &&& e.1@.len() > 0
                    &&& in_drain_order(e.1@)
                    &&& forall|m: int|
                        0 <= m < e.1@.len() ==> tick_chunk(#[trigger] e.1@[m]) == e.0 && e.1@[m].sequence
                            < self.next_sequence
                } by {
                    if a >= i {
                        assert(s[a] == bs[a + 1]);
                    } else {
                        assert(s[a] == bs[a]);
                    }
                }
                assert(self.wf());
                assert forall|j: int| 0 <= j < s.len() implies #[trigger] s[j].0 != key by {
                    if j < i {
                        assert(bs[j].0 < bs[i as int].0);
                    } else {
                        assert(s[j] == bs[j + 1]);
                        assert(bs[i as int].0 < bs[j + 1].0);
                    }
                }
                self.lemma_absent(key as int);
                assert(old_run.skip(k as int) =~= Seq::<ScheduledTick>::empty());
                assert forall|d: int| d != key implies #[trigger] self.chunk_ticks(d) == before.chunk_ticks(d) by {
                    if exists|j: int| 0 <= j < s.len() && s[j].0 == d {
                        let j = choose|j: int| 0 <= j < s.len() && s[j].0 == d;
                        self.lemma_lookup(j);
                        if j < i {
                            before.lemma_lookup(j);
                        } else {
                            assert(s[j] == bs[j + 1]);
                            before.lemma_lookup(j + 1);
                        }
                    } else {
                        assert forall|j: int| 0 <= j < bs.len() implies #[trigger] bs[j].0 != d by {
                            if j < i {
                                assert(s[j] == bs[j]);
                            } else if j > i {
                                assert(s[j - 1] == bs[j]);
                            }
                        }
                        before.lemma_absent(d);
                        self.lemma_absent(d);
                    }
                }
            }
        }
        proof {
            assert(run@ =~= old_run.take(k as int));
        }
        run
    }

    /// Queues work for a later tick and allocates its stable sequence.
    ///
    /// The caller is responsible for the chunk being loaded.
    pub fn schedule(
        &mut self,
        position: VoxelPos,
        priority: MutationPriority,
        due_world_tick: u64,
        expected: Option<BlockState>,
    ) -> (tick: ScheduledTick)
        requires
            old(self).wf(),
            old(self).spec_next_sequence() < u64::MAX,
        ensures
            tick == (ScheduledTick {
                due_world_tick,
                priority,
                position,
                sequence: old(self).spec_next_sequence(),
                expected,
            }),
            final(self).wf(),
            final(self).spec_next_sequence() == old(self).spec_next_sequence() + 1,
            final(self).chunk_ticks(tick_chunk(tick)).to_set() == old(self).chunk_ticks(tick_chunk(tick)).to_set().insert(
                tick,
            ),
            forall|c: int| c != tick_chunk(tick) ==> #[trigger] final(self).chunk_ticks(c) == old(self).chunk_ticks(c),
    {
        let tick = ScheduledTick { due_world_tick, priority, position, sequence: self.next_sequence, expected };
        let chunk_x = world_to_chunk(position.global_x);
        proof {
            self.lemma_wf_facts(chunk_x);
        }
        self.next_sequence = self.next_sequence + 1;
        proof {
            let s = self.by_chunk@;
            assert forall|a: int| 0 <= a < s.len() implies {
                let e = #[trigger] s[a];
                &&& e.1@.len() > 0
                &&& in_drain_order(e.1@)
                &&& forall|m: int|
                    0 <= m < e.1@.len() ==> tick_chunk(#[trigger] e.1@[m]) == e.0 && e.1@[m].sequence
                        < self.next_sequence
            } by {
                let e = s[a];
                assert forall|m: int| 0 <= m < e.1@.len() implies tick_chunk(#[trigger] e.1@[m]) == e.0
                    && e.1@[m].sequence < self.next_sequence by {
                    assert(old(self).by_chunk@[a] == e);
                }
            }
            assert(self.wf());
            assert(self.chunk_ticks(chunk_x as int) == old(self).chunk_ticks(chunk_x as int));
        }
        self.insert(chunk_x, tick);
        tick
    }

    /// Removes the work due at `world_tick` for the given active chunks, which must be sorted
    /// and free of duplicates. Chunks outside `active` are never inspected, which is how
    /// inactive chunks freeze. Each chunk yields at most `MAX_SCHEDULED_PER_CHUNK_PER_TICK`
    /// ticks, from the front of its drain order; the rest stay queued.
    pub fn take_due(&mut self, world_tick: u64, active: &[i64]) -> (due: Vec<ScheduledTick>)
        requires
            old(self).wf(),
            forall|i: int, j: int| 0 <= i < j < active@.len() ==> #[trigger] active@[i] < #[trigger] active@[j],
        ensures
            final(self).wf(),
            final(self).spec_next_sequence() == old(self).spec_next_sequence(),
            due@ == drained_all(*old(self), active@, world_tick),
            forall|c: i64|
                #[trigger] final(self).chunk_ticks(c as int) == if active@.contains(c) {
                    kept_from(old(self).chunk_ticks(c as int), world_tick)
                } else {
                    old(self).chunk_ticks(c as int)
                },
    {
        let ghost start = *self;
        let mut due: Vec<ScheduledTick> = Vec::new();
        let mut n: usize = 0;
        while n < active.len()
            invariant
                self.wf(),
                self.spec_next_sequence() == start.spec_next_sequence(),
                n <= active@.len(),
                forall|i: int, j: int| 0 <= i < j < active@.len() ==> #[trigger] active@[i] < #[trigger] active@[j],
                due@ == drained_all(start, active@.take(n as int), world_tick),
                forall|c: i64|
                    #[trigger] self.chunk_ticks(c as int) == if active@.take(n as int).contains(c) {
                        kept_from(start.chunk_ticks(c as int), world_tick)
                    } else {
                        start.chunk_ticks(c as int)
                    },
            decreases active@.len() - n,
        {
            let c = active[n];
            proof {
                assert(!active@.take(n as int).contains(c)) by {
                    if active@.take(n as int).contains(c) {
                        let j = choose|j: int| 0 <= j < n && #[trigger] active@.take(n as int)[j] == c;
                        assert(active@[j] < active@[n as int]);
                    }
                }
                assert(active@.take(n as int + 1).drop_last() =~= active@.take(n as int));
                assert(active@.take(n as int + 1).last() == c);
            }
            let ghost here = *self;
            let ghost s = start.chunk_ticks(c as int);
            let (i, found) = self.locate(c);
            if found {
                proof {
                    self.lemma_lookup(i as int);
                    assert(self.chunk_ticks(c as int) == s);
                    assert(s.skip(0) =~= s);
                }
                let mut k: usize = 0;
                while k < MAX_SCHEDULED_PER_CHUNK_PER_TICK && k < self.by_chunk[i].1.len()
                    && self.by_chunk[i].1[k].due_world_tick <= world_tick
                    invariant
                        *self == here,
                        i < self.by_chunk@.len(),
                        self.by_chunk@[i as int].1@ == s,
                        k <= MAX_SCHEDULED_PER_CHUNK_PER_TICK,
                        k <= s.len(),
                        due_run(s, world_tick, MAX_SCHEDULED_PER_CHUNK_PER_TICK as nat) == k + due_run(
                            s.skip(k as int),
                            world_tick,
                            (MAX_SCHEDULED_PER_CHUNK_PER_TICK - k) as nat,
                        ),
                    decreases s.len() - k,
                {
                    proof {
                        lemma_due_run_step(s, world_tick, k as int, (MAX_SCHEDULED_PER_CHUNK_PER_TICK - k) as nat);
                    }
                    k += 1;
                }
                proof {
                    assert(due_run(s.skip(k as int), world_tick, (MAX_SCHEDULED_PER_CHUNK_PER_TICK - k) as nat) == 0);
                }
                let mut front = self.take_front(i, k);
                due.append(&mut front);
            } else {
                proof {
                    self.lemma_absent(c as int);
                    assert(s.len() == 0);
                    assert(drained_from(s, world_tick) =~= Seq::<ScheduledTick>::empty());
                    assert(kept_from(s, world_tick) =~= s);
                }
            }
            proof {
                assert forall|d: i64| #[trigger] self.chunk_ticks(d as int) == if active@.take(n as int + 1).contains(d) {
                    kept_from(start.chunk_ticks(d as int), world_tick)
                } else {
                    start.chunk_ticks(d as int)
                } by {
                    if d == c {
                        assert(active@.take(n as int + 1)[n as int] == c);
                    } else {
                        if active@.take(n as int + 1).contains(d) {
                            let j = choose|j: int| 0 <= j < n + 1 && #[trigger] active@.take(n as int + 1)[j] == d;
                            assert(active@.take(n as int)[j] == d);
                        }
                        if active@.take(n as int).contains(d) {
                            let j = choose|j: int| 0 <= j < n && #[trigger] active@.take(n as int)[j] == d;
                            assert(active@.take(n as int + 1)[j] == d);
                        }
                    }
                }
            }
            n += 1;
        }
        proof {
            assert(active@.take(n as int) =~= active@);
        }
        due
    }
}

impl ScheduledTickQueue {
    /// Rebuilds the queue from persisted per-chunk work. The runs must come from a validated
    /// snapshot: every tick under its own chunk, with a sequence below `next_sequence`, and no
    /// two ticks sharing a key.
    pub fn from_chunks(chunks: Vec<(i64, Vec<ScheduledTick>)>, next_sequence: u64) -> (result: ScheduledTickQueue)
        requires
            forall|i: int, j: int|
                0 <= i < chunks@.len() && 0 <= j < chunks@[i].1@.len() ==> tick_chunk(
                    #[trigger] chunks@[i].1@[j],
                ) == chunks@[i].0 && chunks@[i].1@[j].sequence < next_sequence,
            forall|a: int, b: int, c: int, d: int|
                0 <= a < chunks@.len() && 0 <= b < chunks@[a].1@.len() && 0 <= c < chunks@.len() && 0 <= d
                    < chunks@[c].1@.len() && (a != c || b != d) ==> !same_tick_key(
                    #[trigger] chunks@[a].1@[b],
                    #[trigger] chunks@[c].1@[d],
                ),
        ensures
            result.wf(),
            result.spec_next_sequence() == next_sequence,
            forall|c: int| #[trigger] result.chunk_ticks(c).to_set() == of_chunk(listed_ticks(chunks@), c),
    {
        let mut queue = ScheduledTickQueue { by_chunk: Vec::new(), next_sequence };
        let mut i: usize = 0;
        while i < chunks.len()
            invariant
                queue.wf(),
                queue.spec_next_sequence() == next_sequence,
                i <= chunks@.len(),
                forall|i: int, j: int|
                    0 <= i < chunks@.len() && 0 <= j < chunks@[i].1@.len() ==> tick_chunk(
                        #[trigger] chunks@[i].1@[j],
                    ) == chunks@[i].0 && chunks@[i].1@[j].sequence < next_sequence,
                forall|a: int, b: int, c: int, d: int|
                    0 <= a < chunks@.len() && 0 <= b < chunks@[a].1@.len() && 0 <= c < chunks@.len() && 0
                        <= d < chunks@[c].1@.len() && (a != c || b != d) ==> !same_tick_key(
                        #[trigger] chunks@[a].1@[b],
                        #[trigger] chunks@[c].1@[d],
                    ),
                forall|c: int| #[trigger] queue.chunk_ticks(c).to_set() == of_chunk(listed_before(chunks@, i as int, 0), c),
            decreases chunks@.len() - i,
        {
            let chunk_x = chunks[i].0;
            let mut j: usize = 0;
            while j < chunks[i].1.len()
                invariant
                    queue.wf(),
                    queue.spec_next_sequence() == next_sequence,
                    i < chunks@.len(),
                    j <= chunks@[i as int].1@.len(),
                    chunk_x == chunks@[i as int].0,
                    forall|i: int, j: int|
                        0 <= i < chunks@.len() && 0 <= j < chunks@[i].1@.len() ==> tick_chunk(
                            #[trigger] chunks@[i].1@[j],
                        ) == chunks@[i].0 && chunks@[i].1@[j].sequence < next_sequence,
                    forall|a: int, b: int, c: int, d: int|
                        0 <= a < chunks@.len() && 0 <= b < chunks@[a].1@.len() && 0 <= c < chunks@.len() && 0
                            <= d < chunks@[c].1@.len() && (a != c || b != d) ==> !same_tick_key(
                            #[trigger] chunks@[a].1@[b],
                            #[trigger] chunks@[c].1@[d],
                        ),
                    forall|c: int| #[trigger] queue.chunk_ticks(c).to_set() == of_chunk(
                        listed_before(chunks@, i as int, j as int),
                        c,
                    ),
                decreases chunks@[i as int].1@.len() - j,
            {
                let tick = chunks[i].1[j];
                let ghost before = queue;
                let ghost done = listed_before(chunks@, i as int, j as int);
                proof {
                    assert(tick == chunks@[i as int].1@[j as int]);
                    assert forall|k: int| 0 <= k < before.chunk_ticks(chunk_x as int).len() implies !same_tick_key(
                        #[trigger] before.chunk_ticks(chunk_x as int)[k],
                        tick,
                    ) by {
                        let t = before.chunk_ticks(chunk_x as int)[k];
                        assert(before.chunk_ticks(chunk_x as int).to_set().contains(t));
                        assert(done.contains(t));
                        let (a, b) = choose|a: int, b: int|
                            0 <= a < chunks@.len() && 0 <= b < chunks@[a].1@.len() && (a < i || (a == i && b < j))
                                && #[trigger] chunks@[a].1@[b] == t;
                    }
                }
                queue.insert(chunk_x, tick);
                proof {
                    let next_done = listed_before(chunks@, i as int, j as int + 1);
                    assert(next_done =~= done.insert(tick)) by {
                        assert forall|t: ScheduledTick| next_done.contains(t) implies done.insert(tick).contains(t) by {
                            let (a, b) = choose|a: int, b: int|
                                0 <= a < chunks@.len() && 0 <= b < chunks@[a].1@.len() && (a < i || (a == i && b < j + 1))
                                    && #[trigger] chunks@[a].1@[b] == t;
                            if !(a == i && b == j) {
                                assert(done.contains(t));
                            }
                        }
                    }
                    assert forall|c: int| #[trigger] queue.chunk_ticks(c).to_set() == of_chunk(next_done, c) by {
                        if c == chunk_x {
                            assert(of_chunk(next_done, c) =~= of_chunk(done, c).insert(tick));
                        } else {
                            assert(of_chunk(next_done, c) =~= of_chunk(done, c));
                        }
                    }
                }
                j += 1;
            }
            proof {
                assert forall|c: int| #[trigger] queue.chunk_ticks(c).to_set() == of_chunk(
                    listed_before(chunks@, i as int + 1, 0),
                    c,
                ) by {
                    assert(listed_before(chunks@, i as int + 1, 0) =~= listed_before(chunks@, i as int, j as int));
                }
            }
            i += 1;
        }
        proof {
            assert forall|c: int| #[trigger] queue.chunk_ticks(c).to_set() == of_chunk(listed_ticks(chunks@), c) by {
                assert(listed_ticks(chunks@) =~= listed_before(chunks@, i as int, 0));
            }
        }
        queue
    }

    /// This chunk's queued work in drain order, as persistence writes it.
    pub fn pending_for_chunk(&self, chunk_x: i64) -> (result: Vec<ScheduledTick>)
        requires
            self.wf(),
        ensures
            result@ == self.chunk_ticks(chunk_x as int),
            in_drain_order(result@),
            forall|k: int| 0 <= k < result@.len() ==> tick_chunk(#[trigger] result@[k]) == chunk_x,
            result@.len() > 0 <==> self.spec_chunks().contains(chunk_x),
    {
        proof {
            self.lemma_wf_facts(chunk_x);
        }
        let (i, found) = self.locate(chunk_x);
        if found {
            proof {
                self.lemma_lookup(i as int);
            }
            self.by_chunk[i].1.clone()
        } else {
            proof {
                self.lemma_absent(chunk_x as int);
            }
            Vec::new()
        }
    }

    /// Whether this chunk must stay persisted even if none of its blocks were edited.
    pub fn owes_work(&self, chunk_x: i64) -> (result: bool)
        requires
            self.wf(),
        ensures
            result == (self.chunk_ticks(chunk_x as int).len() > 0),
    {
        let (i, found) = self.locate(chunk_x);
        proof {
            if found {
                self.lemma_lookup(i as int);
            } else {
                self.lemma_absent(chunk_x as int);
            }
        }
        found
    }

    /// The chunks that owe work, in increasing order.
    pub fn chunks_owing_work(&self) -> (result: Vec<i64>)
        requires
            self.wf(),
        ensures
            result@ == self.spec_chunks(),
    {
        let mut result: Vec<i64> = Vec::new();
        let mut i: usize = 0;
        while i < self.by_chunk.len()
            invariant
                i <= self.by_chunk@.len(),
                result@ == self.spec_chunks().take(i as int),
            decreases self.by_chunk@.len() - i,
        {
            result.push(self.by_chunk[i].0);
            i += 1;
            proof {
                assert(result@ =~= self.spec_chunks().take(i as int));
            }
        }
        proof {
            assert(self.spec_chunks().take(i as int) =~= self.spec_chunks());
        }
        result
    }

    /// The sequence the next scheduled tick receives.
    pub fn next_sequence(&self) -> (result: u64)
        ensures
            result == self.spec_next_sequence(),
    {
        self.next_sequence
    }

    /// The number of queued ticks, saturating at `usize::MAX`.
    pub fn queued_len(&self) -> (result: usize)
        requires
            self.wf(),
        ensures
            result == if queued_count(*self, self.spec_chunks().len() as int) <= usize::MAX {
                queued_count(*self, self.spec_chunks().len() as int)
            } else {
                usize::MAX as int
            },
    {
        let mut total: usize = 0;
        let mut saturated = false;
        let mut i: usize = 0;
        while i < self.by_chunk.len()
            invariant
                self.wf(),
                i <= self.by_chunk@.len(),
                saturated ==> total == usize::MAX && queued_count(*self, i as int) >= usize::MAX,
                !saturated ==> total == queued_count(*self, i as int),
            decreases self.by_chunk@.len() - i,
        {
            proof {
                self.lemma_lookup(i as int);
                assert(self.spec_chunks()[i as int] == self.by_chunk@[i as int].0);
            }
            let len = self.by_chunk[i].1.len();
            if !saturated {
                match total.checked_add(len) {
                    Some(sum) => total = sum,
                    None => {
                        total = usize::MAX;
                        saturated = true;
                    },
                }
            }
            i += 1;
        }
        total
    }
}

impl Default for ScheduledTickQueue {
    fn default() -> (result: ScheduledTickQueue)
        ensures
            result.wf(),
            result.spec_next_sequence() == 0,
            forall|c: int| #[trigger] result.chunk_ticks(c) == Seq::<ScheduledTick>::empty(),
    {
        ScheduledTickQueue::new()
    }
}

/// One chunk's drain: what `take_due` hands out and what it keeps make up the chunk's queue
/// again; at most `MAX_SCHEDULED_PER_CHUNK_PER_TICK` ticks leave, none of them due after
/// `world_tick`; and when a chunk's queue is in drain order, the work it keeps is all in the
/// future unless the budget stopped the drain.
pub proof fn lemma_drain_is_due_and_bounded(s: Seq<ScheduledTick>, world_tick: u64)
    ensures
        drained_from(s, world_tick) + kept_from(s, world_tick) == s,
        drained_from(s, world_tick).len() <= MAX_SCHEDULED_PER_CHUNK_PER_TICK,
        forall|i: int|
            0 <= i < drained_from(s, world_tick).len() ==> #[trigger] drained_from(s, world_tick)[i].due_world_tick
                <= world_tick,
        in_drain_order(s) && drained_from(s, world_tick).len() < MAX_SCHEDULED_PER_CHUNK_PER_TICK ==> forall|i: int|
            0 <= i < kept_from(s, world_tick).len() ==> #[trigger] kept_from(s, world_tick)[i].due_world_tick
                > world_tick,
{
    let budget = MAX_SCHEDULED_PER_CHUNK_PER_TICK as nat;
    lemma_due_run_bound(s, world_tick, budget);
    let k = due_run(s, world_tick, budget) as int;
    assert(drained_from(s, world_tick) + kept_from(s, world_tick) =~= s);
    assert forall|i: int| 0 <= i < drained_from(s, world_tick).len() implies #[trigger] drained_from(
        s,
        world_tick,
    )[i].due_world_tick <= world_tick by {
        assert(drained_from(s, world_tick)[i] == s[i]);
    }
    if in_drain_order(s) && k < budget && k < s.len() {
        lemma_due_run_stop(s, world_tick, budget);
        assert forall|i: int| 0 <= i < kept_from(s, world_tick).len() implies #[trigger] kept_from(
            s,
            world_tick,
        )[i].due_world_tick > world_tick by {
            assert(kept_from(s, world_tick)[i] == s[k + i]);
            if i > 0 {
                assert(tick_before(s[k], s[k + i]));
            }
        }
    }
}

proof fn lemma_due_run_stop(s: Seq<ScheduledTick>, world_tick: u64, budget: nat)
    requires
        due_run(s, world_tick, budget) < budget,
        due_run(s, world_tick, budget) < s.len(),
    ensures
        s[due_run(s, world_tick, budget) as int].due_world_tick > world_tick,
    decreases budget,
{
    if !(budget == 0 || s.len() == 0 || s[0].due_world_tick > world_tick) {
        lemma_due_run_stop(s.drop_first(), world_tick, (budget - 1) as nat);
    }
}

/// Two queues in drain order that hold the same ticks are the same sequence: drain order is a
/// function of what is queued, not of the order it was queued in.
pub proof fn lemma_drain_order_unique(a: Seq<ScheduledTick>, b: Seq<ScheduledTick>)
    requires
        in_drain_order(a),
        in_drain_order(b),
        a.to_set() == b.to_set(),
    ensures
        a == b,
    decreases a.len(),
{
    if a.len() == 0 {
        if b.len() > 0 {
            assert(b.to_set().contains(b[0]));
        }
        assert(a =~= b);
    } else {
        assert(a.to_set().contains(a[0]));
        let m = choose|m: int| 0 <= m < b.len() && b[m] == a[0];
        assert(b.to_set().contains(b[0]));
        let n = choose|n: int| 0 <= n < a.len() && a[n] == b[0];
        if m > 0 {
            assert(tick_before(b[0], b[m]));
            if n > 0 {
                assert(tick_before(a[0], a[n]));
                lemma_tick_order(a[0], a[n], a[0]);
            } else {
                lemma_tick_order(a[0], a[0], a[0]);
            }
        }
        assert(a[0] == b[0]);
        let (a1, b1) = (a.drop_first(), b.drop_first());
        assert(in_drain_order(a1)) by {
            assert forall|i: int, j: int| 0 <= i < j < a1.len() implies tick_before(#[trigger] a1[i], #[trigger] a1[j]) by {
                assert(tick_before(a[i + 1], a[j + 1]));
            }
        }
        assert(in_drain_order(b1)) by {
            assert forall|i: int, j: int| 0 <= i < j < b1.len() implies tick_before(#[trigger] b1[i], #[trigger] b1[j]) by {
                assert(tick_before(b[i + 1], b[j + 1]));
            }
        }
        assert(a1.to_set() =~= b1.to_set()) by {
            assert forall|t: ScheduledTick| a1.to_set().contains(t) implies b1.to_set().contains(t) by {
                let i = choose|i: int| 0 <= i < a1.len() && a1[i] == t;
                assert(a.to_set().contains(t));
                let j = choose|j: int| 0 <= j < b.len() && b[j] == t;
                if j == 0 {
                    assert(tick_before(a[0], a[i + 1]));
                    lemma_tick_order(a[0], a[0], a[0]);
                }
                assert(b1[j - 1] == t);
            }
            assert forall|t: ScheduledTick| b1.to_set().contains(t) implies a1.to_set().contains(t) by {
                let i = choose|i: int| 0 <= i < b1.len() && b1[i] == t;
                assert(b.to_set().contains(t));
                let j = choose|j: int| 0 <= j < a.len() && a[j] == t;
                if j == 0 {
                    assert(tick_before(b[0], b[i + 1]));
                    lemma_tick_order(b[0], b[0], b[0]);
                }
                assert(a1[j - 1] == t);
            }
        }
        lemma_drain_order_unique(a1, b1);
        assert(a =~= b) by {
            assert forall|i: int| 0 <= i < a.len() implies a[i] == b[i] by {
                if i > 0 {
                    assert(a[i] == a1[i - 1]);
                    assert(b[i] == b1[i - 1]);
                }
            }
        }
    }
}

/// What persistence writes back rebuilds the same queue: listing each owing chunk with its
/// pending work and reloading that list with the same next sequence gives back every chunk's
/// work, in the same order.
pub proof fn lemma_reload_round_trip(q: ScheduledTickQueue, chunks: Seq<(i64, Vec<ScheduledTick>)>, reloaded: ScheduledTickQueue)
    requires
        q.wf(),
        chunks.len() == q.spec_chunks().len(),
        forall|i: int| 0 <= i < chunks.len() ==> (#[trigger] chunks[i]).0 == q.spec_chunks()[i] && chunks[i].1@
            == q.chunk_ticks(q.spec_chunks()[i] as int),
        reloaded.wf(),
        forall|c: int| #[trigger] reloaded.chunk_ticks(c).to_set() == of_chunk(listed_ticks(chunks), c),
    ensures
        forall|c: int| #[trigger] reloaded.chunk_ticks(c) == q.chunk_ticks(c),
{
    assert forall|c: int| #[trigger] reloaded.chunk_ticks(c) == q.chunk_ticks(c) by {
        assert(q.chunk_ticks(c).to_set() =~= of_chunk(listed_ticks(chunks), c)) by {
            assert forall|t: ScheduledTick| q.chunk_ticks(c).to_set().contains(t) implies of_chunk(listed_ticks(chunks), c).contains(t) by {
                let k = choose|k: int| 0 <= k < q.chunk_ticks(c).len() && q.chunk_ticks(c)[k] == t;
                if c < i64::MIN || c > i64::MAX {
                    q.lemma_absent(c);
                }
                q.lemma_wf_facts(c as i64);
                let i = choose|i: int| 0 <= i < q.spec_chunks().len() && q.spec_chunks()[i] == c as i64;
                assert(chunks[i].1@[k] == t);
            }
            assert forall|t: ScheduledTick| of_chunk(listed_ticks(chunks), c).contains(t) implies q.chunk_ticks(c).to_set().contains(t) by {
                let (i, j) = choose|i: int, j: int| 0 <= i < chunks.len() && 0 <= j < chunks[i].1@.len() && #[trigger] chunks[i].1@[j] == t;
                let d = q.spec_chunks()[i];
                q.lemma_wf_facts(d);
                assert(q.chunk_ticks(d as int)[j] == t);
                assert(tick_chunk(t) == d);
            }
        }
        if c < i64::MIN || c > i64::MAX {
            q.lemma_absent(c);
            reloaded.lemma_absent(c);
            assert(reloaded.chunk_ticks(c) =~= q.chunk_ticks(c));
        } else {
            q.lemma_wf_facts(c as i64);
            reloaded.lemma_wf_facts(c as i64);
            lemma_drain_order_unique(reloaded.chunk_ticks(c), q.chunk_ticks(c));
        }
    }
}

} // verus!
