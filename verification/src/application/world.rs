use vstd::prelude::*;

use crate::application::chunks::{ChunkSet, ChunkStore};
use crate::application::session::WorldSession;
use crate::application::snapshot::{ChunkSnapshot, PlayerSnapshot, WorldSnapshot};
use crate::domain::block::{id_def, mount_support_offset, state_id, state_torch_mount, torch_state, BlockState, TorchMount};
use crate::domain::mutation::{
    apply_writes_from, batch, chunk_report, current, insert_index_from, lemma_changes_grow, lemma_sole_proposal_applies, run,
    stable_sort, step,
};
use crate::domain::simulation::queue::{
    drained_all, kept_from, listed_ticks, of_chunk, same_tick_key, tick_chunk, ScheduledTickQueue,
};
use crate::domain::world::{
    chunk_of, representable, valid_code, world_to_chunk, BlockChunk, BlockPrecondition, BlockWrite,
    ProposalOutcome, VoxelCell, BlockGrid, CellChange, ChunkLayer, MutationBatchResult,
    MutationPriority, MutationProposal, MutationReport, ScheduledTick, VoxelLayer, VoxelPos, WorldView, ChunkChange,
};
use crate::domain::{CHUNK_AREA, WORLD_HEIGHT};

verus! {

/// Why a player command was refused.
#[derive(Debug, Clone, Copy, PartialEq, Eq, Structural)]
pub enum WorldCommandError {
    Unavailable,
    Occupied,
    Unsupported,
    Unbreakable,
}

/// Why the world refused to queue simulation work.
#[derive(Debug, Clone, Copy, PartialEq, Eq, Structural)]
pub enum ScheduleRejection {
    /// The target chunk is not loaded. Simulation never force-loads a frontier chunk, so callers
    /// defer this work until the chunk activates.
    Unloaded,
    /// The target cell lies outside the world height.
    OutOfBounds,
}

/// The authoritative world of a session: the loaded grid, chunks kept for the next save, the
/// simulation work owed, and the counters a save records.
#[derive(Debug)]
pub struct WorldState {
    grid: BlockGrid,
    persisted_chunks: ChunkStore,
    dirty_chunks: ChunkSet,
    pending_ticks: ScheduledTickQueue,
    origin_chunk: i64,
    revision: u64,
    seed: u64,
    world_tick: u64,
}

/// A world fresh from a snapshot, with the report of the chunk it loaded first.
#[derive(Debug)]
pub struct InitializedWorld {
    pub state: WorldState,
    pub report: MutationReport,
}

impl WorldState {
    /// The loaded blocks.
    pub closed spec fn spec_grid(&self) -> BlockGrid {
        self.grid
    }

    /// Unloaded chunks kept for the next save.
    pub closed spec fn spec_persisted(&self) -> ChunkStore {
        self.persisted_chunks
    }

    /// Loaded chunks edited since they were loaded.
    pub closed spec fn spec_dirty(&self) -> Set<i64> {
        self.dirty_chunks.view_set()
    }

    /// The simulation work owed.
    pub closed spec fn spec_queue(&self) -> ScheduledTickQueue {
        self.pending_ticks
    }

    pub closed spec fn spec_origin(&self) -> i64 {
        self.origin_chunk
    }

    pub closed spec fn spec_revision(&self) -> u64 {
        self.revision
    }

    pub closed spec fn spec_seed(&self) -> u64 {
        self.seed
    }

    pub closed spec fn spec_world_tick(&self) -> u64 {
        self.world_tick
    }

    /// The parts are well formed, the grid is a full-height world, and every chunk that owes
    /// work has a dense array a save can attach it to: kept, or loaded and edited.
    pub closed spec fn wf(&self) -> bool {
        &&& self.grid.wf()
        &&& self.grid.spec_height() == WORLD_HEIGHT
        &&& self.persisted_chunks.wf()
        &&& self.dirty_chunks.wf()
        &&& self.pending_ticks.wf()
        &&& forall|c: i64|
            #![trigger self.pending_ticks.chunk_ticks(c as int)]
            self.pending_ticks.chunk_ticks(c as int).len() > 0 ==> self.persisted_chunks.has(c) || (
            self.dirty_chunks.view_set().contains(c) && self.grid.spec_chunks().contains_key(c))
    }

    /// A well-formed world holds a well-formed grid of the world's full height.
    pub proof fn lemma_grid_wf(&self)
        requires
            self.wf(),
        ensures
            self.spec_grid().wf(),
            self.spec_grid().spec_height() == WORLD_HEIGHT,
    {
    }

    /// A read-only view of the loaded blocks.
    pub fn view(&self) -> (result: WorldView<'_>)
        ensures
            *result.grid == self.spec_grid(),
    {
        self.grid.view()
    }

    pub fn origin_chunk(&self) -> (result: i64)
        ensures
            result == self.spec_origin(),
    {
        self.origin_chunk
    }

    /// How many batches have changed blocks, wrapping.
    pub fn revision(&self) -> (result: u64)
        ensures
            result == self.spec_revision(),
    {
        self.revision
    }

    pub fn seed(&self) -> (result: u64)
        ensures
            result == self.spec_seed(),
    {
        self.seed
    }

    pub fn world_tick(&self) -> (result: u64)
        ensures
            result == self.spec_world_tick(),
    {
        self.world_tick
    }

    /// Completes one logical simulation step and returns the new tick.
    pub fn advance_world_tick(&mut self) -> (result: u64)
        requires
            old(self).wf(),
            old(self).spec_world_tick() < u64::MAX,
        ensures
            final(self).wf(),
            result == old(self).spec_world_tick() + 1,
            final(self).spec_world_tick() == result,
            final(self).spec_grid() == old(self).spec_grid(),
            final(self).spec_queue() == old(self).spec_queue(),
            final(self).spec_revision() == old(self).spec_revision(),
            final(self).spec_persisted() == old(self).spec_persisted(),
            final(self).spec_dirty() == old(self).spec_dirty(),
            final(self).spec_origin() == old(self).spec_origin(),
            final(self).spec_seed() == old(self).spec_seed(),
    {
        self.world_tick = self.world_tick + 1;
        self.world_tick
    }

    /// The number of queued ticks, saturating at `usize::MAX`.
    pub fn queued_ticks(&self) -> (result: usize)
        requires
            self.wf(),
        ensures
            result == if crate::domain::simulation::queue::queued_count(
                self.spec_queue(),
                self.spec_queue().spec_chunks().len() as int,
            ) <= usize::MAX {
                crate::domain::simulation::queue::queued_count(
                    self.spec_queue(),
                    self.spec_queue().spec_chunks().len() as int,
                )
            } else {
                usize::MAX as int
            },
    {
        self.pending_ticks.queued_len()
    }

    /// Queues simulation work for a later tick.
    ///
    /// Scheduling requires a loaded chunk and marks that chunk edited, because a save can only
    /// attach pending ticks to a chunk that owns a dense block array. Work for an unloaded chunk
    /// is refused so callers defer it instead of creating state that could not be saved.
    pub fn schedule_tick(
        &mut self,
        position: VoxelPos,
        priority: MutationPriority,
        due_world_tick: u64,
        expected: Option<BlockState>,
    ) -> (result: Result<ScheduledTick, ScheduleRejection>)
        requires
            old(self).wf(),
            old(self).spec_queue().spec_next_sequence() < u64::MAX,
        ensures
            final(self).wf(),
            final(self).spec_grid() == old(self).spec_grid(),
            final(self).spec_revision() == old(self).spec_revision(),
            final(self).spec_world_tick() == old(self).spec_world_tick(),
            !(0 <= position.y < WORLD_HEIGHT) ==> result == Err::<ScheduledTick, ScheduleRejection>(
                ScheduleRejection::OutOfBounds,
            ),
            (0 <= position.y < WORLD_HEIGHT && !old(self).spec_grid().spec_chunks().contains_key(
                chunk_of(position.global_x as int) as i64,
            )) ==> result == Err::<ScheduledTick, ScheduleRejection>(ScheduleRejection::Unloaded),
            result is Err ==> final(self).spec_queue() == old(self).spec_queue(),
            (0 <= position.y < WORLD_HEIGHT && old(self).spec_grid().spec_chunks().contains_key(
                chunk_of(position.global_x as int) as i64,
            )) ==> {
                let tick = ScheduledTick {
                    due_world_tick,
                    priority,
                    position,
                    sequence: old(self).spec_queue().spec_next_sequence(),
                    expected,
                };
                &&& result == Ok::<ScheduledTick, ScheduleRejection>(tick)
                &&& final(self).spec_queue().spec_next_sequence() == old(self).spec_queue().spec_next_sequence() + 1
                &&& final(self).spec_queue().chunk_ticks(tick_chunk(tick)).to_set() == old(self).spec_queue().chunk_ticks(
                    tick_chunk(tick),
                ).to_set().insert(tick)
                &&& forall|c: int|
                    c != tick_chunk(tick) ==> #[trigger] final(self).spec_queue().chunk_ticks(c) == old(
                        self,
                    ).spec_queue().chunk_ticks(c)
            },
    {
        if !(0 <= position.y && position.y < self.grid.height()) {
            return Err(ScheduleRejection::OutOfBounds);
        }
        let chunk_x = world_to_chunk(position.global_x);
        if !self.grid.contains_chunk(ChunkLayer::new(chunk_x, position.layer)) {
            return Err(ScheduleRejection::Unloaded);
        }
        self.dirty_chunks.insert(chunk_x);
        let tick = self.pending_ticks.schedule(position, priority, due_world_tick, expected);
        proof {
            assert forall|c: i64| #![trigger self.pending_ticks.chunk_ticks(c as int)]
                self.pending_ticks.chunk_ticks(c as int).len() > 0 implies self.persisted_chunks.has(c) || (
                self.dirty_chunks.view_set().contains(c) && self.grid.spec_chunks().contains_key(c)) by {
                if c != chunk_x {
                    assert(self.pending_ticks.chunk_ticks(c as int) == old(self).pending_ticks.chunk_ticks(c as int));
                }
            }
        }
        Ok(tick)
    }

    /// Removes the work due at the current tick for the given active chunks, which must be
    /// sorted and free of duplicates.
    pub fn take_due_ticks(&mut self, active: &[i64]) -> (due: Vec<ScheduledTick>)
        requires
            old(self).wf(),
            forall|i: int, j: int| 0 <= i < j < active@.len() ==> #[trigger] active@[i] < #[trigger] active@[j],
        ensures
            final(self).wf(),
            final(self).spec_grid() == old(self).spec_grid(),
            final(self).spec_revision() == old(self).spec_revision(),
            final(self).spec_world_tick() == old(self).spec_world_tick(),
            final(self).spec_queue().spec_next_sequence() == old(self).spec_queue().spec_next_sequence(),
            final(self).spec_persisted() == old(self).spec_persisted(),
            final(self).spec_dirty() == old(self).spec_dirty(),
            final(self).spec_origin() == old(self).spec_origin(),
            final(self).spec_seed() == old(self).spec_seed(),
            due@ == drained_all(old(self).spec_queue(), active@, old(self).spec_world_tick()),
            forall|c: i64|
                #[trigger] final(self).spec_queue().chunk_ticks(c as int) == if active@.contains(c) {
                    kept_from(old(self).spec_queue().chunk_ticks(c as int), old(self).spec_world_tick())
                } else {
                    old(self).spec_queue().chunk_ticks(c as int)
                },
    {
        let due = self.pending_ticks.take_due(self.world_tick, active);
        proof {
            assert forall|c: i64| #![trigger self.pending_ticks.chunk_ticks(c as int)]
                self.pending_ticks.chunk_ticks(c as int).len() > 0 implies self.persisted_chunks.has(c) || (
                self.dirty_chunks.view_set().contains(c) && self.grid.spec_chunks().contains_key(c)) by {
                assert(old(self).pending_ticks.chunk_ticks(c as int).len() > 0);
            }
        }
        due
    }

    /// A copy of the chunk kept for `global_chunk_x`, if any.
    pub fn persisted_chunk(&self, global_chunk_x: i64) -> (result: Option<BlockChunk>)
        requires
            self.wf(),
        ensures
            result is Some <==> self.spec_persisted().has(global_chunk_x),
            result matches Some(chunk) ==> chunk.same_content(&self.spec_persisted().at(global_chunk_x)) && chunk.wf(),
    {
        match self.persisted_chunks.get(global_chunk_x) {
            Some(chunk) => {
                proof {
                    self.persisted_chunks.lemma_sorted();
                    let i = choose|i: int| 0 <= i < self.persisted_chunks.spec_chunks().len() && #[trigger] self.persisted_chunks.spec_chunks()[i].spec_x() == global_chunk_x;
                    self.persisted_chunks.lemma_at(i);
                }
                Some(chunk.duplicate())
            },
            None => None,
        }
    }

    /// Loads a chunk into the grid, replacing any loaded chunk at its coordinate.
    pub fn integrate_chunk(&mut self, chunk: BlockChunk) -> (report: MutationReport)
        requires
            old(self).wf(),
            chunk.wf(),
        ensures
            final(self).wf(),
            final(self).spec_grid().spec_chunks() == old(self).spec_grid().spec_chunks().insert(chunk.spec_x(), chunk),
            final(self).spec_queue() == old(self).spec_queue(),
            final(self).spec_revision() == old(self).spec_revision(),
            report.cell_changes@.len() == 0,
            report.chunk_changes@ == chunk_report(chunk.spec_x(), true),
    {
        let report = self.grid.integrate_chunk(chunk);
        proof {
            assert forall|c: i64| #![trigger self.pending_ticks.chunk_ticks(c as int)]
                self.pending_ticks.chunk_ticks(c as int).len() > 0 implies self.persisted_chunks.has(c) || (
                self.dirty_chunks.view_set().contains(c) && self.grid.spec_chunks().contains_key(c)) by {
                assert(old(self).pending_ticks.chunk_ticks(c as int).len() > 0);
            }
        }
        report
    }

    /// Unloads a chunk. A loaded chunk that was edited, or that owes simulation work, is kept
    /// for the next save: otherwise its edits, or the dense array its work attaches to, would
    /// be lost.
    pub fn unload_chunk(&mut self, chunk_x: i64) -> (report: MutationReport)
        requires
            old(self).wf(),
        ensures
            final(self).wf(),
            final(self).spec_grid().spec_chunks() == old(self).spec_grid().spec_chunks().remove(chunk_x),
            final(self).spec_queue() == old(self).spec_queue(),
            final(self).spec_revision() == old(self).spec_revision(),
            report.cell_changes@.len() == 0,
            report.chunk_changes@ == (if old(self).spec_grid().spec_chunks().contains_key(chunk_x) {
                chunk_report(chunk_x, false)
            } else {
                Seq::<ChunkChange>::empty()
            }),
            (old(self).spec_grid().spec_chunks().contains_key(chunk_x) && (old(self).spec_dirty().contains(chunk_x)
                || old(self).spec_queue().chunk_ticks(chunk_x as int).len() > 0)) ==> final(self).spec_persisted().has(
                chunk_x,
            ) && final(self).spec_persisted().at(chunk_x) == old(self).spec_grid().spec_chunks()[chunk_x],
            forall|x: i64| x != chunk_x ==> (#[trigger] final(self).spec_persisted().has(x) <==> old(self).spec_persisted().has(x)),
            forall|x: i64|
                x != chunk_x && old(self).spec_persisted().has(x) ==> #[trigger] final(self).spec_persisted().at(x)
                    == old(self).spec_persisted().at(x),
            !(old(self).spec_grid().spec_chunks().contains_key(chunk_x) && (old(self).spec_dirty().contains(chunk_x)
                || old(self).spec_queue().chunk_ticks(chunk_x as int).len() > 0)) ==> final(self).spec_persisted()
                == old(self).spec_persisted(),
            final(self).spec_dirty() == if old(self).spec_grid().spec_chunks().contains_key(chunk_x) {
                old(self).spec_dirty().remove(chunk_x)
            } else {
                old(self).spec_dirty()
            },
            final(self).spec_world_tick() == old(self).spec_world_tick(),
            final(self).spec_origin() == old(self).spec_origin(),
            final(self).spec_seed() == old(self).spec_seed(),
    {
        let (removed, report) = self.grid.unload_chunk(chunk_x);
        match removed {
            Some(chunk) => {
                let was_dirty = self.dirty_chunks.remove(chunk_x);
                if was_dirty || self.pending_ticks.owes_work(chunk_x) {
                    self.persisted_chunks.insert(chunk);
                }
            },
            None => {},
        }
        proof {
            assert forall|c: i64| #![trigger self.pending_ticks.chunk_ticks(c as int)]
                self.pending_ticks.chunk_ticks(c as int).len() > 0 implies self.persisted_chunks.has(c) || (
                self.dirty_chunks.view_set().contains(c) && self.grid.spec_chunks().contains_key(c)) by {
                assert(old(self).pending_ticks.chunk_ticks(c as int).len() > 0);
                if c != chunk_x && old(self).persisted_chunks.has(c) {
                    assert(self.persisted_chunks.has(c));
                }
            }
        }
        report
    }

    /// Moves the origin that local coordinates are measured from.
    pub fn rebase(&mut self, delta_chunks: i32)
        requires
            old(self).wf(),
            i64::MIN <= old(self).spec_origin() + delta_chunks <= i64::MAX,
        ensures
            final(self).wf(),
            final(self).spec_origin() == old(self).spec_origin() + delta_chunks,
            final(self).spec_grid() == old(self).spec_grid(),
            final(self).spec_queue() == old(self).spec_queue(),
            final(self).spec_revision() == old(self).spec_revision(),
            final(self).spec_persisted() == old(self).spec_persisted(),
            final(self).spec_dirty() == old(self).spec_dirty(),
            final(self).spec_world_tick() == old(self).spec_world_tick(),
            final(self).spec_seed() == old(self).spec_seed(),
    {
        self.origin_chunk = self.origin_chunk + delta_chunks as i64;
    }

    /// Commits a batch of proposals to the grid. A batch that changed any cell marks the
    /// changed chunks as edited and advances the revision by one, wrapping.
    pub fn commit_batch(&mut self, proposals: Vec<MutationProposal>) -> (result: MutationBatchResult)
        requires
            old(self).wf(),
        ensures
            final(self).wf(),
            final(self).spec_grid().spec_chunks().dom() == old(self).spec_grid().spec_chunks().dom(),
            ({
                let st = batch(old(self).spec_grid(), proposals@);
                &&& result.outcomes@ == st.1
                &&& result.report.cell_changes@ == st.2
                &&& result.report.chunk_changes@.len() == 0
                &&& forall|pos: VoxelPos|
                    #[trigger] final(self).spec_grid().contents_at(pos) == (if st.0.contains_key(pos) {
                        Some(st.0[pos])
                    } else {
                        old(self).spec_grid().contents_at(pos)
                    })
            }),
            final(self).spec_revision() == if result.report.cell_changes@.len() == 0 {
                old(self).spec_revision() as int
            } else {
                (old(self).spec_revision() + 1) % 0x1_0000_0000_0000_0000
            },
            forall|k: int|
                0 <= k < result.report.cell_changes@.len() ==> final(self).spec_dirty().contains(
                    chunk_of(#[trigger] result.report.cell_changes@[k].position.global_x as int) as i64,
                ),
            forall|c: i64| old(self).spec_dirty().contains(c) ==> #[trigger] final(self).spec_dirty().contains(c),
            final(self).spec_queue() == old(self).spec_queue(),
            final(self).spec_world_tick() == old(self).spec_world_tick(),
    {
        let result = self.grid.commit_batch(proposals);
        let ghost committed = self.grid;
        if result.report.cell_changes.len() > 0 {
            let mut k: usize = 0;
            while k < result.report.cell_changes.len()
                invariant
                    self.grid == committed,
                    self.pending_ticks == old(self).pending_ticks,
                    self.persisted_chunks == old(self).persisted_chunks,
                    self.revision == old(self).revision,
                    self.world_tick == old(self).world_tick,
                    self.dirty_chunks.wf(),
                    k <= result.report.cell_changes@.len(),
                    forall|j: int|
                        0 <= j < k ==> self.dirty_chunks.view_set().contains(
                            chunk_of(#[trigger] result.report.cell_changes@[j].position.global_x as int) as i64,
                        ),
                    forall|c: i64| old(self).dirty_chunks.view_set().contains(c) ==> #[trigger] self.dirty_chunks.view_set().contains(c),
                decreases result.report.cell_changes@.len() - k,
            {
                let chunk_x = world_to_chunk(result.report.cell_changes[k].position.global_x);
                self.dirty_chunks.insert(chunk_x);
                k += 1;
            }
            self.revision = self.revision.wrapping_add(1);
        }
        proof {
            assert forall|c: i64| #![trigger self.pending_ticks.chunk_ticks(c as int)]
                self.pending_ticks.chunk_ticks(c as int).len() > 0 implies self.persisted_chunks.has(c) || (
                self.dirty_chunks.view_set().contains(c) && self.grid.spec_chunks().contains_key(c)) by {
                assert(old(self).pending_ticks.chunk_ticks(c as int).len() > 0);
                if !old(self).persisted_chunks.has(c) {
                    assert(old(self).grid.spec_chunks().contains_key(c));
                    assert(self.grid.spec_chunks().dom().contains(c));
                }
            }
        }
        result
    }
}

/// The chunk a save writes for coordinate `x`: the loaded one when it was edited, otherwise
/// the kept one.
pub open spec fn saved_chunk(world: WorldState, x: i64) -> BlockChunk {
    if world.spec_dirty().contains(x) && world.spec_grid().spec_chunks().contains_key(x) {
        world.spec_grid().spec_chunks()[x]
    } else {
        world.spec_persisted().at(x)
    }
}

/// Whether a save writes coordinate `x`: it is kept, or loaded and edited.
pub open spec fn is_saved(world: WorldState, x: i64) -> bool {
    world.spec_persisted().has(x) || (world.spec_dirty().contains(x) && world.spec_grid().spec_chunks().contains_key(x))
}

/// What a save records of chunk `x`: its blocks, as `saved_chunk` gives them, and its owed work.
pub open spec fn records_chunk(world: WorldState, record: ChunkSnapshot) -> bool {
    let chunk = saved_chunk(world, record.x);
    &&& record.foreground@ == chunk.spec_codes(VoxelLayer::Foreground)
    &&& record.backwall@ == chunk.spec_codes(VoxelLayer::Backwall)
    &&& record.pending_ticks@ == world.spec_queue().chunk_ticks(record.x as int)
}

impl WorldState {
    fn record(&self, chunk: &BlockChunk, x: i64) -> (result: ChunkSnapshot)
        requires
            self.wf(),
            chunk.spec_x() == x,
        ensures
            result.x == x,
            result.foreground@ == chunk.spec_codes(VoxelLayer::Foreground),
            result.backwall@ == chunk.spec_codes(VoxelLayer::Backwall),
            result.pending_ticks@ == self.spec_queue().chunk_ticks(x as int),
    {
        let foreground = slice_to_vec(chunk.blocks(VoxelLayer::Foreground));
        let backwall = slice_to_vec(chunk.blocks(VoxelLayer::Backwall));
        ChunkSnapshot { x, foreground, backwall, pending_ticks: self.pending_ticks.pending_for_chunk(x) }
    }

    /// Every chunk a save writes, by increasing coordinate: each kept chunk, and each loaded
    /// chunk edited since it was loaded (the loaded blocks win over a kept copy), with the work
    /// it owes.
    pub fn snapshot_chunks(&self) -> (result: Vec<ChunkSnapshot>)
        requires
            self.wf(),
        ensures
            forall|i: int, j: int| 0 <= i < j < result@.len() ==> #[trigger] result@[i].x < #[trigger] result@[j].x,
            forall|x: i64| is_saved(*self, x) <==> exists|i: int| 0 <= i < result@.len() && #[trigger] result@[i].x == x,
            forall|i: int| 0 <= i < result@.len() ==> records_chunk(*self, #[trigger] result@[i]),
    {
        let kept = self.persisted_chunks.chunks();
        let dirty = self.dirty_chunks.keys();
        proof {
            self.persisted_chunks.lemma_sorted();
            self.dirty_chunks.lemma_sorted();
        }
        let ghost loaded = self.grid.spec_chunks();
        let mut result: Vec<ChunkSnapshot> = Vec::new();
        let mut i: usize = 0;
        let mut j: usize = 0;
        while i < kept.len() || j < dirty.len()
            invariant
                self.wf(),
                kept@ == self.persisted_chunks.spec_chunks(),
                dirty@ == self.dirty_chunks.spec_keys(),
                loaded == self.grid.spec_chunks(),
                forall|a: int, b: int| 0 <= a < b < kept@.len() ==> #[trigger] kept@[a].spec_x() < #[trigger] kept@[b].spec_x(),
                forall|a: int| 0 <= a < kept@.len() ==> (#[trigger] kept@[a]).wf(),
                forall|a: int, b: int| 0 <= a < b < dirty@.len() ==> #[trigger] dirty@[a] < #[trigger] dirty@[b],
                i <= kept@.len(),
                j <= dirty@.len(),
                forall|a: int, b: int| 0 <= a < b < result@.len() ==> #[trigger] result@[a].x < #[trigger] result@[b].x,
                forall|a: int|
                    0 <= a < result@.len() ==> (i < kept@.len() ==> #[trigger] result@[a].x < kept@[i as int].spec_x())
                        && (j < dirty@.len() ==> result@[a].x < dirty@[j as int]),
                forall|x: i64|
                    #![trigger merged_key(kept@, dirty@, loaded, i as int, j as int, x)]
                    #![trigger listed_x(result@, x)]
                    merged_key(kept@, dirty@, loaded, i as int, j as int, x) <==> listed_x(result@, x),
                forall|a: int| 0 <= a < result@.len() ==> records_chunk(*self, #[trigger] result@[a]),
            decreases kept@.len() - i + dirty@.len() - j,
        {
            let ghost before = result@;
            let ghost old_i = i;
            let ghost old_j = j;
            if j < dirty.len() && !self.grid.contains_chunk(ChunkLayer::foreground(dirty[j])) {
                j += 1;
                proof {
                    assert forall|y: i64| #[trigger] merged_key(kept@, dirty@, loaded, i as int, j as int, y)
                        <==> merged_key(kept@, dirty@, loaded, i as int, j - 1, y) by {
                        if exists|a: int| 0 <= a < j && #[trigger] dirty@[a] == y && loaded.contains_key(y) {
                            let a = choose|a: int| 0 <= a < j && #[trigger] dirty@[a] == y && loaded.contains_key(y);
                            if a < j - 1 {
                                assert(0 <= a < j - 1 && dirty@[a] == y && loaded.contains_key(y));
                            }
                        }
                        if exists|a: int| 0 <= a < j - 1 && #[trigger] dirty@[a] == y && loaded.contains_key(y) {
                            let a = choose|a: int| 0 <= a < j - 1 && #[trigger] dirty@[a] == y && loaded.contains_key(y);
                            assert(0 <= a < j && dirty@[a] == y && loaded.contains_key(y));
                        }
                    }
                    assert forall|a: int| 0 <= a < result@.len() implies (i < kept@.len() ==> #[trigger] result@[a].x
                        < kept@[i as int].spec_x()) && (j < dirty@.len() ==> result@[a].x < dirty@[j as int]) by {
                        if j < dirty@.len() {
                            assert(dirty@[j - 1] < dirty@[j as int]);
                        }
                    }
                }
            } else {
                let take_kept = j == dirty.len() || (i < kept.len() && kept[i].x() < dirty[j]);
                let take_both = !take_kept && i < kept.len() && kept[i].x() == dirty[j];
                let ghost x: i64;
                if take_kept {
                    let chunk_x = kept[i].x();
                    proof {
                        x = chunk_x;
                        self.persisted_chunks.lemma_at(i as int);
                        assert(!self.dirty_chunks.view_set().contains(x) || !loaded.contains_key(x)) by {
                            if self.dirty_chunks.view_set().contains(x) && loaded.contains_key(x) {
                                let a = choose|a: int| 0 <= a < dirty@.len() && dirty@[a] == x;
                                if a < j {
                                    assert(listed_x(result@, x)) by {
                                        assert(0 <= a < j && dirty@[a] == x && loaded.contains_key(x));
                                        assert(merged_key(kept@, dirty@, loaded, i as int, j as int, x));
                                    }
                                    let b = choose|b: int| 0 <= b < result@.len() && #[trigger] result@[b].x == x;
                                    assert(result@[b].x < kept@[i as int].spec_x());
                                } else if a > j {
                                    assert(dirty@[j as int] < dirty@[a]);
                                }
                            }
                        }
                    }
                    let record = self.record(&kept[i], chunk_x);
                    result.push(record);
                    i += 1;
                } else {
                    let chunk_x = dirty[j];
                    proof {
                        x = chunk_x;
                        assert(self.dirty_chunks.view_set().contains(x)) by {
                            assert(dirty@[j as int] == x);
                        }
                    }
                    let loaded_chunk = self.grid.chunk_snapshot(chunk_x);
                    match loaded_chunk {
                        Some(chunk) => {
                            let record = self.record(&chunk, chunk_x);
                            result.push(record);
                        },
                        None => {},
                    }
                    if take_both {
                        i += 1;
                    }
                    j += 1;
                }
                proof {
                    assert(result@ == before.push(result@.last()));
                    assert(result@.last().x == x);
                    assert forall|a: int, b: int| 0 <= a < b < result@.len() implies #[trigger] result@[a].x < #[trigger] result@[b].x by {
                        if b == result@.len() - 1 {
                            assert(result@[a] == before[a]);
                        } else {
                            assert(result@[a] == before[a] && result@[b] == before[b]);
                        }
                    }
                    assert forall|a: int| 0 <= a < result@.len() implies (i < kept@.len() ==> #[trigger] result@[a].x
                        < kept@[i as int].spec_x()) && (j < dirty@.len() ==> result@[a].x < dirty@[j as int]) by {
                        if a < before.len() {
                            assert(result@[a] == before[a]);
                        }
                        if i < kept@.len() && i > 0 {
                            assert(kept@[i - 1].spec_x() < kept@[i as int].spec_x());
                        }
                        if j < dirty@.len() && j > 0 {
                            assert(dirty@[j - 1] < dirty@[j as int]);
                        }
                    }
                    assert forall|a: int| 0 <= a < result@.len() implies records_chunk(*self, #[trigger] result@[a]) by {
                        if a < before.len() {
                            assert(result@[a] == before[a]);
                        }
                    }
                    assert forall|y: i64| #[trigger] listed_x(result@, y) <==> listed_x(before, y) || y == x by {
                        if listed_x(result@, y) {
                            let a = choose|a: int| 0 <= a < result@.len() && #[trigger] result@[a].x == y;
                            if a < before.len() {
                                assert(before[a].x == y);
                            }
                        }
                        if listed_x(before, y) {
                            let a = choose|a: int| 0 <= a < before.len() && #[trigger] before[a].x == y;
                            assert(result@[a].x == y);
                        }
                        if y == x {
                            assert(result@[result@.len() - 1].x == y);
                        }
                    }
                    assert forall|y: i64| #[trigger] merged_key(kept@, dirty@, loaded, i as int, j as int, y) <==> merged_key(
                        kept@,
                        dirty@,
                        loaded,
                        old_i as int,
                        old_j as int,
                        y,
                    ) || y == x by {
                        if exists|a: int| 0 <= a < i && #[trigger] kept@[a].spec_x() == y {
                            let a = choose|a: int| 0 <= a < i && #[trigger] kept@[a].spec_x() == y;
                            if a < old_i {
                                assert(0 <= a < old_i && kept@[a].spec_x() == y);
                            }
                        }
                        if exists|a: int| 0 <= a < j && #[trigger] dirty@[a] == y && loaded.contains_key(y) {
                            let a = choose|a: int| 0 <= a < j && #[trigger] dirty@[a] == y && loaded.contains_key(y);
                            if a < old_j {
                                assert(0 <= a < old_j && dirty@[a] == y && loaded.contains_key(y));
                            }
                        }
                        if exists|a: int| 0 <= a < old_i && #[trigger] kept@[a].spec_x() == y {
                            let a = choose|a: int| 0 <= a < old_i && #[trigger] kept@[a].spec_x() == y;
                            assert(0 <= a < i && kept@[a].spec_x() == y);
                        }
                        if exists|a: int| 0 <= a < old_j && #[trigger] dirty@[a] == y && loaded.contains_key(y) {
                            let a = choose|a: int| 0 <= a < old_j && #[trigger] dirty@[a] == y && loaded.contains_key(y);
                            assert(0 <= a < j && dirty@[a] == y && loaded.contains_key(y));
                        }
                        if y == x {
                            if take_kept {
                                assert(0 <= old_i < i && kept@[old_i as int].spec_x() == y);
                            } else {
                                assert(0 <= old_j < j && dirty@[old_j as int] == y && loaded.contains_key(y));
                            }
                        }
                    }
                }
            }
        }
        proof {
            assert forall|x: i64| is_saved(*self, x) <==> exists|a: int| 0 <= a < result@.len() && #[trigger] result@[a].x == x by {
                assert(listed_x(result@, x) <==> merged_key(kept@, dirty@, loaded, i as int, j as int, x));
                if self.persisted_chunks.has(x) {
                    let a = choose|a: int| 0 <= a < kept@.len() && #[trigger] kept@[a].spec_x() == x;
                    assert(0 <= a < i && kept@[a].spec_x() == x);
                }
                if self.dirty_chunks.view_set().contains(x) && loaded.contains_key(x) {
                    let a = choose|a: int| 0 <= a < dirty@.len() && dirty@[a] == x;
                    assert(0 <= a < j && #[trigger] dirty@[a] == x && loaded.contains_key(x));
                }
                if exists|a: int| 0 <= a < j && #[trigger] dirty@[a] == x && loaded.contains_key(x) {
                    let a = choose|a: int| 0 <= a < j && #[trigger] dirty@[a] == x && loaded.contains_key(x);
                    assert(self.dirty_chunks.spec_keys().to_set().contains(x)) by {
                        assert(self.dirty_chunks.spec_keys()[a] == x);
                    }
                }
                if exists|a: int| 0 <= a < i && #[trigger] kept@[a].spec_x() == x {
                    let a = choose|a: int| 0 <= a < i && #[trigger] kept@[a].spec_x() == x;
                    assert(self.persisted_chunks.spec_chunks()[a].spec_x() == x);
                }
            }
        }
        result
    }
}

/// Whether `x` is among the first `i` kept coordinates or the first `j` edited ones that are
/// loaded.
pub open spec fn merged_key(kept: Seq<BlockChunk>, dirty: Seq<i64>, loaded: Map<i64, BlockChunk>, i: int, j: int, x: i64) -> bool {
    (exists|a: int| 0 <= a < i && #[trigger] kept[a].spec_x() == x) || (exists|a: int|
        0 <= a < j && #[trigger] dirty[a] == x && loaded.contains_key(x))
}

/// Whether some record is for coordinate `x`.
pub open spec fn listed_x(records: Seq<ChunkSnapshot>, x: i64) -> bool {
    exists|a: int| 0 <= a < records.len() && #[trigger] records[a].x == x
}

/// A vector holding the bytes of a slice.
fn slice_to_vec(bytes: &[u8]) -> (result: Vec<u8>)
    ensures
        result@ == bytes@,
{
    let mut result: Vec<u8> = Vec::new();
    let mut i: usize = 0;
    while i < bytes.len()
        invariant
            i <= bytes@.len(),
            result@ == bytes@.take(i as int),
        decreases bytes@.len() - i,
    {
        result.push(bytes[i]);
        i += 1;
        proof {
            assert(result@ =~= bytes@.take(i as int));
        }
    }
    proof {
        assert(bytes@.take(i as int) =~= bytes@);
    }
    result
}

/// Whether a saved chunk's layers make a well-formed chunk.
pub open spec fn dense_ok(chunk: ChunkSnapshot) -> bool {
    &&& representable(chunk.x as int)
    &&& chunk.foreground@.len() == CHUNK_AREA
    &&& chunk.backwall@.len() == CHUNK_AREA
    &&& forall|i: int| 0 <= i < chunk.foreground@.len() ==> valid_code(#[trigger] chunk.foreground@[i])
    &&& forall|i: int| 0 <= i < chunk.backwall@.len() ==> valid_code(#[trigger] chunk.backwall@[i])
}

/// The ticks of the first `n` saved chunks.
pub open spec fn saved_ticks(chunks: Seq<ChunkSnapshot>, n: int) -> Set<ScheduledTick> {
    Set::new(
        |t: ScheduledTick|
            exists|i: int, j: int| 0 <= i < n && i < chunks.len() && 0 <= j < chunks[i].pending_ticks@.len() && #[trigger] chunks[i].pending_ticks@[j] == t,
    )
}

/// Which chunks the first `n` saved chunks leave kept, and with what blocks: each coordinate
/// with a well-formed chunk keeps the last one given for it.
pub open spec fn keeps(store: ChunkStore, chunks: Seq<ChunkSnapshot>, n: int) -> bool {
    &&& forall|x: i64| #[trigger] store.has(x) <==> exists|i: int| 0 <= i < n && #[trigger] chunks[i].x == x && dense_ok(chunks[i])
    &&& forall|x: i64|
        #[trigger] store.has(x) ==> exists|i: int|
            0 <= i < n && #[trigger] chunks[i].x == x && dense_ok(chunks[i]) && store.at(x).spec_codes(VoxelLayer::Foreground)
                == chunks[i].foreground@ && store.at(x).spec_codes(VoxelLayer::Backwall) == chunks[i].backwall@
                && forall|k: int| i < k < n && #[trigger] chunks[k].x == x ==> !dense_ok(chunks[k])
}

impl WorldState {
    /// Rebuilds a world from a snapshot. Every saved chunk with well-formed layers is kept
    /// (the last one given for a coordinate wins) and the saved work is queued again. The
    /// chunk holding the player is loaded first: the kept one when there is one, otherwise
    /// `generate` makes it. `player_local_column` is the player's column relative to the
    /// saved chunk, rounded down.
    ///
    /// The saved work must be what a validated snapshot holds: every tick under its own
    /// chunk, with an allocated sequence, no two sharing a key, and a chunk that owes work
    /// must have well-formed layers.
    pub fn from_snapshot<F: Fn(i64) -> BlockChunk>(
        snapshot: &WorldSnapshot,
        player_local_column: i64,
        generate: F,
    ) -> (result: InitializedWorld)
        requires
            forall|i: int, j: int|
                0 <= i < snapshot.chunks@.len() && 0 <= j < snapshot.chunks@[i].pending_ticks@.len() ==> tick_chunk(
                    #[trigger] snapshot.chunks@[i].pending_ticks@[j],
                ) == snapshot.chunks@[i].x && snapshot.chunks@[i].pending_ticks@[j].sequence < snapshot.next_tick_sequence,
            forall|a: int, b: int, c: int, d: int|
                0 <= a < snapshot.chunks@.len() && 0 <= b < snapshot.chunks@[a].pending_ticks@.len() && 0 <= c
                    < snapshot.chunks@.len() && 0 <= d < snapshot.chunks@[c].pending_ticks@.len() && (a != c || b != d)
                    ==> !same_tick_key(
                    #[trigger] snapshot.chunks@[a].pending_ticks@[b],
                    #[trigger] snapshot.chunks@[c].pending_ticks@[d],
                ),
            forall|i: int|
                0 <= i < snapshot.chunks@.len() && (#[trigger] snapshot.chunks@[i]).pending_ticks@.len() > 0 ==> dense_ok(
                    snapshot.chunks@[i],
                ),
            i64::MIN <= snapshot.player.chunk_x + chunk_of(player_local_column as int) <= i64::MAX,
            forall|c: i64| #[trigger] generate.requires((c,)),
            forall|c: i64, r: BlockChunk| #[trigger] generate.ensures((c,), r) ==> r.wf() && r.spec_x() == c,
        ensures
            result.state.wf(),
            result.state.spec_origin() == snapshot.player.chunk_x,
            result.state.spec_revision() == 0,
            result.state.spec_seed() == snapshot.seed,
            result.state.spec_world_tick() == snapshot.world_tick,
            result.state.spec_dirty() == Set::<i64>::empty(),
            result.state.spec_queue().spec_next_sequence() == snapshot.next_tick_sequence,
            forall|c: int| #[trigger] result.state.spec_queue().chunk_ticks(c).to_set() == of_chunk(
                saved_ticks(snapshot.chunks@, snapshot.chunks@.len() as int),
                c,
            ),
            keeps(result.state.spec_persisted(), snapshot.chunks@, snapshot.chunks@.len() as int),
            ({
                let global = (snapshot.player.chunk_x + chunk_of(player_local_column as int)) as i64;
                let grid = result.state.spec_grid().spec_chunks();
                &&& grid.dom() == set![global]
                &&& if result.state.spec_persisted().has(global) {
                    grid[global].same_content(&result.state.spec_persisted().at(global))
                } else {
                    generate.ensures((global,), grid[global])
                }
                &&& result.report.cell_changes@.len() == 0
                &&& result.report.chunk_changes@ == chunk_report(global, true)
            }),
    {
        let chunks = &snapshot.chunks;
        let mut persisted = ChunkStore::new();
        let mut runs: Vec<(i64, Vec<ScheduledTick>)> = Vec::new();
        let ghost mut idx: Seq<int> = Seq::empty();
        let mut n: usize = 0;
        proof {
            assert(listed_ticks(runs@) =~= saved_ticks(chunks@, 0));
        }
        while n < chunks.len()
            invariant
                n <= chunks@.len(),
                chunks@ == snapshot.chunks@,
                persisted.wf(),
                keeps(persisted, chunks@, n as int),
                idx.len() == runs@.len(),
                forall|k: int| 0 <= k < idx.len() ==> 0 <= #[trigger] idx[k] < n,
                forall|k: int, l: int| 0 <= k < l < idx.len() ==> #[trigger] idx[k] < #[trigger] idx[l],
                forall|k: int|
                    0 <= k < runs@.len() ==> (#[trigger] runs@[k]).0 == chunks@[idx[k]].x && runs@[k].1@
                        == chunks@[idx[k]].pending_ticks@,
                listed_ticks(runs@) == saved_ticks(chunks@, n as int),
            decreases chunks@.len() - n,
        {
            let chunk = &chunks[n];
            let ghost before = persisted;
            let foreground = chunk.foreground.clone();
            let backwall = chunk.backwall.clone();
            proof {
                assert(foreground@ =~= chunk.foreground@);
                assert(backwall@ =~= chunk.backwall@);
            }
            match BlockChunk::from_dense(chunk.x, foreground, backwall) {
                Some(blocks) => {
                    persisted.insert(blocks);
                },
                None => {},
            }
            proof {
                let x = chunk.x;
                assert forall|y: i64| #[trigger] persisted.has(y) <==> exists|i: int|
                    0 <= i < n + 1 && #[trigger] chunks@[i].x == y && dense_ok(chunks@[i]) by {
                    if exists|i: int| 0 <= i < n && #[trigger] chunks@[i].x == y && dense_ok(chunks@[i]) {
                        let i = choose|i: int| 0 <= i < n && #[trigger] chunks@[i].x == y && dense_ok(chunks@[i]);
                        assert(0 <= i < n + 1 && chunks@[i].x == y && dense_ok(chunks@[i]));
                    }
                    if exists|i: int| 0 <= i < n + 1 && #[trigger] chunks@[i].x == y && dense_ok(chunks@[i]) {
                        let i = choose|i: int| 0 <= i < n + 1 && #[trigger] chunks@[i].x == y && dense_ok(chunks@[i]);
                        if i < n {
                            assert(0 <= i < n && chunks@[i].x == y && dense_ok(chunks@[i]));
                        }
                    }
                }
                assert forall|y: i64| #[trigger] persisted.has(y) implies exists|i: int|
                    0 <= i < n + 1 && #[trigger] chunks@[i].x == y && dense_ok(chunks@[i]) && persisted.at(y).spec_codes(
                        VoxelLayer::Foreground,
                    ) == chunks@[i].foreground@ && persisted.at(y).spec_codes(VoxelLayer::Backwall) == chunks@[i].backwall@
                        && forall|k: int| i < k < n + 1 && #[trigger] chunks@[k].x == y ==> !dense_ok(chunks@[k]) by {
                    if y == x && dense_ok(chunks@[n as int]) {
                        assert(chunks@[n as int].x == y);
                    } else {
                        assert(before.has(y));
                        let i = choose|i: int|
                            0 <= i < n && #[trigger] chunks@[i].x == y && dense_ok(chunks@[i]) && before.at(y).spec_codes(
                                VoxelLayer::Foreground,
                            ) == chunks@[i].foreground@ && before.at(y).spec_codes(VoxelLayer::Backwall)
                                == chunks@[i].backwall@ && forall|k: int| i < k < n && #[trigger] chunks@[k].x == y ==> !dense_ok(chunks@[k]);
                        assert(persisted.at(y) == before.at(y));
                        assert forall|k: int| i < k < n + 1 && #[trigger] chunks@[k].x == y implies !dense_ok(chunks@[k]) by {
                            if k < n {
                            }
                        }
                    }
                }
            }
            let ghost old_runs = runs@;
            if chunk.pending_ticks.len() > 0 {
                let ticks = chunk.pending_ticks.clone();
                proof {
                    assert(ticks@ =~= chunk.pending_ticks@);
                }
                runs.push((chunk.x, ticks));
                proof {
                    idx = idx.push(n as int);
                }
            }
            proof {
                assert(listed_ticks(runs@) =~= saved_ticks(chunks@, n as int + 1)) by {
                    assert forall|t: ScheduledTick| listed_ticks(runs@).contains(t) implies saved_ticks(chunks@, n as int + 1).contains(t) by {
                        let (k, j) = choose|k: int, j: int| 0 <= k < runs@.len() && 0 <= j < runs@[k].1@.len() && #[trigger] runs@[k].1@[j] == t;
                        assert(chunks@[idx[k]].pending_ticks@[j] == t);
                    }
                    assert forall|t: ScheduledTick| saved_ticks(chunks@, n as int + 1).contains(t) implies listed_ticks(runs@).contains(t) by {
                        let (i, j) = choose|i: int, j: int| 0 <= i < n + 1 && i < chunks@.len() && 0 <= j < chunks@[i].pending_ticks@.len() && #[trigger] chunks@[i].pending_ticks@[j] == t;
                        if i == n {
                            let k = runs@.len() - 1;
                            assert(runs@[k].1@[j] == t);
                        } else {
                            assert(saved_ticks(chunks@, n as int).contains(t));
                            assert(listed_ticks(old_runs).contains(t));
                            let (k, l) = choose|k: int, l: int| 0 <= k < old_runs.len() && 0 <= l < old_runs[k].1@.len() && #[trigger] old_runs[k].1@[l] == t;
                            assert(runs@[k] == old_runs[k]);
                            assert(runs@[k].1@[l] == t);
                        }
                    }
                }
            }
            n += 1;
        }
        proof {
            assert forall|k: int, j: int|
                0 <= k < runs@.len() && 0 <= j < runs@[k].1@.len() implies tick_chunk(#[trigger] runs@[k].1@[j])
                    == runs@[k].0 && runs@[k].1@[j].sequence < snapshot.next_tick_sequence by {
                assert(runs@[k].1@[j] == chunks@[idx[k]].pending_ticks@[j]);
            }
            assert forall|a: int, b: int, c: int, d: int|
                0 <= a < runs@.len() && 0 <= b < runs@[a].1@.len() && 0 <= c < runs@.len() && 0 <= d < runs@[c].1@.len()
                    && (a != c || b != d) implies !same_tick_key(#[trigger] runs@[a].1@[b], #[trigger] runs@[c].1@[d]) by {
                assert(runs@[a].1@[b] == chunks@[idx[a]].pending_ticks@[b]);
                assert(runs@[c].1@[d] == chunks@[idx[c]].pending_ticks@[d]);
                if a != c {
                    if a < c {
                        assert(idx[a] < idx[c]);
                    } else {
                        assert(idx[c] < idx[a]);
                    }
                }
            }
        }
        let ghost listed = runs@;
        let pending_ticks = ScheduledTickQueue::from_chunks(runs, snapshot.next_tick_sequence);
        let origin_chunk = snapshot.player.chunk_x;
        let global_chunk = origin_chunk + world_to_chunk(player_local_column);
        let initial = match persisted.get(global_chunk) {
            Some(chunk) => chunk.duplicate(),
            None => generate(global_chunk),
        };
        let mut grid = BlockGrid::new(WORLD_HEIGHT);
        let report = grid.integrate_chunk(initial);
        let state = WorldState {
            grid,
            persisted_chunks: persisted,
            dirty_chunks: ChunkSet::new(),
            pending_ticks,
            origin_chunk,
            revision: 0,
            seed: snapshot.seed,
            world_tick: snapshot.world_tick,
        };
        proof {
            assert forall|c: i64| #![trigger state.pending_ticks.chunk_ticks(c as int)]
                state.pending_ticks.chunk_ticks(c as int).len() > 0 implies state.persisted_chunks.has(c) || (
                state.dirty_chunks.view_set().contains(c) && state.grid.spec_chunks().contains_key(c)) by {
                let t = state.pending_ticks.chunk_ticks(c as int)[0];
                assert(state.pending_ticks.chunk_ticks(c as int).to_set().contains(t));
                assert(of_chunk(listed_ticks(listed), c as int).contains(t));
                let (k, j) = choose|k: int, j: int| 0 <= k < listed.len() && 0 <= j < listed[k].1@.len() && #[trigger] listed[k].1@[j] == t;
                let i = idx[k];
                assert(chunks@[i].pending_ticks@[j] == t);
                assert(chunks@[i].x == c);
                assert(dense_ok(chunks@[i]));
            }
            assert(saved_ticks(chunks@, n as int) == saved_ticks(snapshot.chunks@, snapshot.chunks@.len() as int));
            assert(state.grid.spec_chunks().dom() =~= set![global_chunk]);
        }
        InitializedWorld { state, report }
    }
}

/// `position` moved by `(dx, dy)`, each coordinate saturating at its type's bounds.
pub open spec fn offset_pos(position: VoxelPos, dx: int, dy: int) -> VoxelPos {
    let x = position.global_x + dx;
    let y = position.y + dy;
    VoxelPos {
        global_x: if x > i64::MAX {
            i64::MAX
        } else if x < i64::MIN {
            i64::MIN
        } else {
            x as i64
        },
        y: if y > i32::MAX {
            i32::MAX
        } else if y < i32::MIN {
            i32::MIN
        } else {
            y as i32
        },
        layer: position.layer,
    }
}

fn offset_position(position: VoxelPos, offset: (i32, i32)) -> (result: VoxelPos)
    ensures
        result == offset_pos(position, offset.0 as int, offset.1 as int),
{
    let global_x = match position.global_x.checked_add(offset.0 as i64) {
        Some(x) => x,
        None => if offset.0 > 0 {
            i64::MAX
        } else {
            i64::MIN
        },
    };
    let y = match position.y.checked_add(offset.1) {
        Some(y) => y,
        None => if offset.1 > 0 {
            i32::MAX
        } else {
            i32::MIN
        },
    };
    VoxelPos { global_x, y, layer: position.layer }
}

/// The block a grid holds at a position, if any.
pub open spec fn block_at(grid: BlockGrid, position: VoxelPos) -> Option<BlockState> {
    match grid.cell_at(position) {
        VoxelCell::Block(state) => Some(state),
        _ => None,
    }
}

/// Whether `state` may stand at `position`: a torch needs a solid block on the side its mount
/// names; every other block stands anywhere.
pub open spec fn supported(grid: BlockGrid, position: VoxelPos, state: BlockState) -> bool {
    match state_torch_mount(state) {
        Some(mount) => {
            let offset = mount_support_offset(mount);
            match block_at(grid, offset_pos(position, offset.0 as int, offset.1 as int)) {
                Some(support) => id_def(state_id(support)).solid,
                None => false,
            }
        },
        None => true,
    }
}

/// Places a block into an empty cell. The cell must be air (a block there is `Occupied`;
/// an unloaded or out-of-bounds cell is `Unavailable`), and a torch needs a solid support on
/// its mount side (`Unsupported`). A refused command changes nothing. Otherwise the block is
/// written as a player proposal, and the revision advances.
pub fn place_block(world: &mut WorldState, position: VoxelPos, state: BlockState) -> (result: Result<
    MutationBatchResult,
    WorldCommandError,
>)
    requires
        old(world).wf(),
    ensures
        final(world).wf(),
        ({
            let grid = old(world).spec_grid();
            match grid.cell_at(position) {
                VoxelCell::Block(_) => result == Err::<MutationBatchResult, WorldCommandError>(WorldCommandError::Occupied),
                VoxelCell::Air => if !supported(grid, position, state) {
                    result == Err::<MutationBatchResult, WorldCommandError>(WorldCommandError::Unsupported)
                } else {
                    result is Ok
                },
                _ => result == Err::<MutationBatchResult, WorldCommandError>(WorldCommandError::Unavailable),
            }
        }),
        result is Err ==> *final(world) == *old(world),
        result matches Ok(r) ==> {
            &&& r.outcomes@ == seq![ProposalOutcome::Applied { sequence: 0 }]
            &&& r.report.cell_changes@ == seq![CellChange { position, before: None, after: Some(state) }]
            &&& final(world).spec_grid().contents_at(position) == Some(Some(state))
            &&& forall|p: VoxelPos| p != position ==> #[trigger] final(world).spec_grid().contents_at(p) == old(world).spec_grid().contents_at(p)
            &&& final(world).spec_revision() == (old(world).spec_revision() + 1) % 0x1_0000_0000_0000_0000
            &&& final(world).spec_dirty().contains(chunk_of(position.global_x as int) as i64)
            &&& final(world).spec_queue() == old(world).spec_queue()
        },
{
    let cell = world.view().cell(position);
    match cell {
        VoxelCell::Air => {},
        VoxelCell::Block(_) => return Err(WorldCommandError::Occupied),
        _ => return Err(WorldCommandError::Unavailable),
    }
    match state.torch_mount() {
        Some(mount) => {
            let support_position = offset_position(position, mount.support_offset());
            let supported_here = match world.view().block(support_position) {
                Some(support) => support.def().solid,
                None => false,
            };
            if !supported_here {
                return Err(WorldCommandError::Unsupported);
            }
        },
        None => {},
    }
    let proposal = MutationProposal {
        preconditions: vec![BlockPrecondition { position, expected: None }],
        writes: vec![BlockWrite { position, state: Some(state) }],
        priority: MutationPriority::player(),
        source: position,
        sequence: 0,
    };
    let ghost grid = world.grid;
    let ghost p = proposal;
    proof {
        lemma_sole_proposal_applies(grid, p);
        let all = seq![p];
        assert(batch(grid, all).2 == seq![CellChange { position, before: None, after: Some(state) }]) by {
            assert(stable_sort(all) =~= all) by {
                let e = Seq::<MutationProposal>::empty();
                assert(all.drop_last() =~= e);
                assert(stable_sort(e) == e);
                assert(insert_index_from(e, p, 0) == 0);
                assert(e.insert(0, p) =~= all);
            }
            assert(batch(grid, all) == run(grid, all, all, 1));
            assert(run(grid, all, all, 1) == step(grid, all, run(grid, all, all, 0), p));
            let w = p.writes@[0];
            assert(current(grid, Map::empty(), w.position) == None::<BlockState>);
            let first = apply_writes_from(grid, Map::empty(), Seq::empty(), p.writes@, 0);
            assert(first == apply_writes_from(
                grid,
                Map::<VoxelPos, Option<BlockState>>::empty().insert(w.position, w.state),
                seq![CellChange { position, before: None, after: Some(state) }],
                p.writes@,
                1,
            ));
        }
    }
    let mut proposals: Vec<MutationProposal> = Vec::new();
    proposals.push(proposal);
    proof {
        assert(proposals@ =~= seq![p]);
    }
    let result = world.commit_batch(proposals);
    proof {
        assert(result.report.cell_changes@.len() == 1);
        assert(result.report.cell_changes@[0].position == position);
        let o = batch(grid, seq![p]).0;
        assert(o.contains_key(p.writes@[0].position));
        assert forall|q: VoxelPos| q != position implies #[trigger] world.spec_grid().contents_at(q) == old(world).spec_grid().contents_at(q) by {
            if o.contains_key(q) {
                let a = choose|a: int| 0 <= a < p.writes@.len() && p.writes@[a].position == q;
            }
        }
    }
    Ok(result)
}

/// The candidate torch at `c.0` if the grid holds exactly that torch there.
pub open spec fn attached_candidate(grid: BlockGrid, c: (VoxelPos, BlockState)) -> Seq<(VoxelPos, BlockState)> {
    if block_at(grid, c.0) == Some(c.1) {
        seq![c]
    } else {
        Seq::empty()
    }
}

/// The torches that hang on the block at `position`: a floor torch above it, a torch mounted
/// on its left wall to its left and one mounted on its right wall to its right.
pub open spec fn attached_torches(grid: BlockGrid, position: VoxelPos) -> Seq<(VoxelPos, BlockState)> {
    attached_candidate(grid, (offset_pos(position, 0, 1), torch_state(TorchMount::Floor))) + attached_candidate(
        grid,
        (offset_pos(position, -1, 0), torch_state(TorchMount::WallLeft)),
    ) + attached_candidate(grid, (offset_pos(position, 1, 0), torch_state(TorchMount::WallRight)))
}

pub open spec fn expect_block(c: (VoxelPos, BlockState)) -> BlockPrecondition {
    BlockPrecondition { position: c.0, expected: Some(c.1) }
}

pub open spec fn clear_cell(c: (VoxelPos, BlockState)) -> BlockWrite {
    BlockWrite { position: c.0, state: None }
}

/// The proposal that breaks the block `state` at `position` together with the torches
/// hanging on it.
pub open spec fn break_proposal(p: MutationProposal, grid: BlockGrid, position: VoxelPos, state: BlockState) -> bool {
    let torches = attached_torches(grid, position);
    &&& p.preconditions@ == seq![BlockPrecondition { position, expected: Some(state) }] + torches.map_values(|c: (VoxelPos, BlockState)| expect_block(c))
    &&& p.writes@ == seq![BlockWrite { position, state: None }] + torches.map_values(|c: (VoxelPos, BlockState)| clear_cell(c))
    &&& p.priority == MutationPriority(0)
    &&& p.source == position
    &&& p.sequence == 0
}

fn attach_torch(
    world: &WorldState,
    preconditions: &mut Vec<BlockPrecondition>,
    writes: &mut Vec<BlockWrite>,
    torch_position: VoxelPos,
    torch: BlockState,
)
    requires
        world.wf(),
    ensures
        final(preconditions)@ == old(preconditions)@ + attached_candidate(world.spec_grid(), (torch_position, torch)).map_values(
            |c: (VoxelPos, BlockState)| expect_block(c),
        ),
        final(writes)@ == old(writes)@ + attached_candidate(world.spec_grid(), (torch_position, torch)).map_values(
            |c: (VoxelPos, BlockState)| clear_cell(c),
        ),
{
    let ghost c = (torch_position, torch);
    let found = world.view().block(torch_position);
    let hangs = match found {
        Some(b) => b == torch,
        None => false,
    };
    if hangs {
        preconditions.push(BlockPrecondition { position: torch_position, expected: Some(torch) });
        writes.push(BlockWrite { position: torch_position, state: None });
        proof {
            assert(attached_candidate(world.spec_grid(), c) =~= seq![c]);
            assert(final(preconditions)@ =~= old(preconditions)@ + seq![c].map_values(|c: (VoxelPos, BlockState)| expect_block(c)));
            assert(final(writes)@ =~= old(writes)@ + seq![c].map_values(|c: (VoxelPos, BlockState)| clear_cell(c)));
        }
    } else {
        proof {
            assert(attached_candidate(world.spec_grid(), c) =~= Seq::<(VoxelPos, BlockState)>::empty());
            assert(old(preconditions)@ =~= old(preconditions)@ + Seq::<(VoxelPos, BlockState)>::empty().map_values(|c: (VoxelPos, BlockState)| expect_block(c)));
            assert(old(writes)@ =~= old(writes)@ + Seq::<(VoxelPos, BlockState)>::empty().map_values(|c: (VoxelPos, BlockState)| clear_cell(c)));
        }
    }
}

/// Away from the coordinate limits, a break proposal applies on its own and clears its block
/// and every attached torch.
#[verifier::spinoff_prover]
proof fn lemma_break_applies(grid: BlockGrid, p: MutationProposal, position: VoxelPos, state: BlockState)
    requires
        grid.wf(),
        break_proposal(p, grid, position, state),
        block_at(grid, position) == Some(state),
        i64::MIN < position.global_x < i64::MAX,
        position.y < i32::MAX,
    ensures
        batch(grid, seq![p]).1 == seq![ProposalOutcome::Applied { sequence: 0 }],
        batch(grid, seq![p]).0.contains_key(position) && batch(grid, seq![p]).0[position] == None::<BlockState>,
        batch(grid, seq![p]).2.len() > 0,
        forall|k: int|
            0 <= k < attached_torches(grid, position).len() ==> batch(grid, seq![p]).0.contains_key(
                (#[trigger] attached_torches(grid, position)[k]).0,
            ) && batch(grid, seq![p]).0[attached_torches(grid, position)[k].0] == None::<BlockState>,
{
    let torches = attached_torches(grid, position);
    assert forall|k: int| 0 <= k < torches.len() implies block_at(grid, (#[trigger] torches[k]).0) == Some(torches[k].1)
        && torches[k].0 != position by {
    }
    assert forall|a: int, b: int| 0 <= a < b < torches.len() implies (#[trigger] torches[a]).0 != (#[trigger] torches[b]).0 by {
    }
    assert forall|a: int, b: int|
        0 <= a < b < p.preconditions@.len() implies #[trigger] p.preconditions@[a].position != #[trigger] p.preconditions@[b].position by {
        if a > 0 {
            assert(p.preconditions@[a] == expect_block(torches[a - 1]));
        }
        assert(p.preconditions@[b] == expect_block(torches[b - 1]));
    }
    assert forall|a: int, b: int| 0 <= a < b < p.writes@.len() implies #[trigger] p.writes@[a].position != #[trigger] p.writes@[b].position by {
        if a > 0 {
            assert(p.writes@[a] == clear_cell(torches[a - 1]));
        }
        assert(p.writes@[b] == clear_cell(torches[b - 1]));
    }
    assert forall|a: int| 0 <= a < p.writes@.len() implies grid.contents_at((#[trigger] p.writes@[a]).position) is Some by {
        if a > 0 {
            assert(p.writes@[a] == clear_cell(torches[a - 1]));
            assert(block_at(grid, torches[a - 1].0) is Some);
        }
    }
    assert forall|a: int| 0 <= a < p.preconditions@.len() implies grid.contents_at((#[trigger] p.preconditions@[a]).position)
        == Some(p.preconditions@[a].expected) by {
        if a > 0 {
            assert(p.preconditions@[a] == expect_block(torches[a - 1]));
            assert(block_at(grid, torches[a - 1].0) == Some(torches[a - 1].1));
        }
    }
    lemma_sole_proposal_applies(grid, p);
    assert(p.writes@[0].position == position);
    assert(p.writes@[0].state == None::<BlockState>);
    let first = CellChange { position, before: Some(state), after: None };
    assert(current(grid, Map::empty(), position) == Some(state));
    lemma_changes_grow(grid, Map::<VoxelPos, Option<BlockState>>::empty().insert(position, None), seq![first], p.writes@, 1);
    assert(batch(grid, seq![p]).0.contains_key(p.writes@[0].position));
    assert forall|k: int| 0 <= k < torches.len() implies batch(grid, seq![p]).0.contains_key((#[trigger] torches[k]).0)
        && batch(grid, seq![p]).0[torches[k].0] == None::<BlockState> by {
        assert(p.writes@[k + 1] == clear_cell(torches[k]));
    }
}

/// Breaks the block at a position together with every torch hanging on it, in one atomic
/// proposal. An empty, unloaded or out-of-bounds cell is `Unavailable` and bedrock is
/// `Unbreakable`; a refused command changes nothing.
///
/// Away from the coordinate limits, where the neighbouring cells are all distinct, the
/// proposal always applies: the block and every attached torch become air.
pub fn break_block(world: &mut WorldState, position: VoxelPos) -> (result: Result<MutationBatchResult, WorldCommandError>)
    requires
        old(world).wf(),
    ensures
        final(world).wf(),
        ({
            let grid = old(world).spec_grid();
            match block_at(grid, position) {
                None => result == Err::<MutationBatchResult, WorldCommandError>(WorldCommandError::Unavailable),
                Some(state) => if state == BlockState::BEDROCK {
                    result == Err::<MutationBatchResult, WorldCommandError>(WorldCommandError::Unbreakable)
                } else {
                    &&& result matches Ok(r) && exists|p: MutationProposal| {
                        &&& #[trigger] break_proposal(p, grid, position, state)
                        &&& r.outcomes@ == batch(grid, seq![p]).1
                        &&& r.report.cell_changes@ == batch(grid, seq![p]).2
                        &&& forall|q: VoxelPos|
                            #[trigger] final(world).spec_grid().contents_at(q) == (if batch(grid, seq![p]).0.contains_key(q) {
                                Some(batch(grid, seq![p]).0[q])
                            } else {
                                grid.contents_at(q)
                            })
                    }
                    &&& result matches Ok(r) ==> {
                        &&& final(world).spec_revision() == if r.report.cell_changes@.len() == 0 {
                            old(world).spec_revision() as int
                        } else {
                            (old(world).spec_revision() + 1) % 0x1_0000_0000_0000_0000
                        }
                        &&& forall|k: int|
                            0 <= k < r.report.cell_changes@.len() ==> final(world).spec_dirty().contains(
                                chunk_of((#[trigger] r.report.cell_changes@[k]).position.global_x as int) as i64,
                            )
                        &&& forall|c: i64| old(world).spec_dirty().contains(c) ==> #[trigger] final(world).spec_dirty().contains(c)
                    }
                    &&& (i64::MIN < position.global_x < i64::MAX && position.y < i32::MAX) ==> {
                        &&& final(world).spec_revision() == (old(world).spec_revision() + 1) % 0x1_0000_0000_0000_0000
                        &&& result matches Ok(r) && r.outcomes@ == seq![ProposalOutcome::Applied { sequence: 0 }]
                        &&& final(world).spec_grid().contents_at(position) == Some(None::<BlockState>)
                        &&& forall|k: int|
                            0 <= k < attached_torches(grid, position).len() ==> final(world).spec_grid().contents_at(
                                (#[trigger] attached_torches(grid, position)[k]).0,
                            ) == Some(None::<BlockState>)
                    }
                },
            }
        }),
        result is Err ==> *final(world) == *old(world),
{
    let state = match world.view().block(position) {
        Some(state) => state,
        None => return Err(WorldCommandError::Unavailable),
    };
    if !state.breakable() {
        return Err(WorldCommandError::Unbreakable);
    }
    let ghost grid = world.grid;
    let mut preconditions: Vec<BlockPrecondition> = Vec::new();
    preconditions.push(BlockPrecondition { position, expected: Some(state) });
    let mut writes: Vec<BlockWrite> = Vec::new();
    writes.push(BlockWrite { position, state: None });
    attach_torch(world, &mut preconditions, &mut writes, offset_position(position, (0, 1)), BlockState::torch(TorchMount::Floor));
    attach_torch(world, &mut preconditions, &mut writes, offset_position(position, (-1, 0)), BlockState::torch(TorchMount::WallLeft));
    attach_torch(world, &mut preconditions, &mut writes, offset_position(position, (1, 0)), BlockState::torch(TorchMount::WallRight));
    let proposal = MutationProposal {
        preconditions,
        writes,
        priority: MutationPriority::player(),
        source: position,
        sequence: 0,
    };
    let ghost p = proposal;
    proof {
        let torches = attached_torches(grid, position);
        assert(p.preconditions@ =~= seq![BlockPrecondition { position, expected: Some(state) }] + torches.map_values(|c: (VoxelPos, BlockState)| expect_block(c)));
        assert(p.writes@ =~= seq![BlockWrite { position, state: None }] + torches.map_values(|c: (VoxelPos, BlockState)| clear_cell(c)));
        assert(break_proposal(p, grid, position, state));
        if i64::MIN < position.global_x < i64::MAX && position.y < i32::MAX {
            lemma_break_applies(grid, p, position, state);
        }
    }
    let mut proposals: Vec<MutationProposal> = Vec::new();
    proposals.push(proposal);
    proof {
        assert(proposals@ =~= seq![p]);
    }
    let result = world.commit_batch(proposals);
    proof {
        let torches = attached_torches(grid, position);
        if i64::MIN < position.global_x < i64::MAX && position.y < i32::MAX {
            let o = batch(grid, seq![p]).0;
            assert(o.contains_key(position));
            assert forall|k: int| 0 <= k < torches.len() implies world.spec_grid().contents_at((#[trigger] torches[k]).0)
                == Some(None::<BlockState>) by {
                assert(o.contains_key(torches[k].0));
            }
        }
    }
    Ok(result)
}

impl WorldState {
    /// The snapshot a save writes. The player's column is given relative to the current origin
    /// (`player_column`, rounded down) together with the IEEE-754 bits of the position within
    /// its chunk, which the caller computes.
    pub fn snapshot(
        &self,
        session: &WorldSession,
        player_column: i64,
        local_x_bits: u32,
        y_bits: u32,
        selected_slot: u8,
        day_time_ticks: u64,
        last_played_unix_s: u64,
    ) -> (result: WorldSnapshot)
        requires
            self.wf(),
            i64::MIN <= self.spec_origin() + chunk_of(player_column as int) <= i64::MAX,
        ensures
            result.generator_version == session.generator_version,
            result.height == WORLD_HEIGHT,
            result.name@ == session.name@,
            result.seed == session.seed,
            result.created_at_unix_s == session.created_at_unix_s,
            result.last_played_unix_s == last_played_unix_s,
            result.day_time_ticks == day_time_ticks,
            result.world_tick == self.spec_world_tick(),
            result.next_tick_sequence == self.spec_queue().spec_next_sequence(),
            result.player == (PlayerSnapshot {
                chunk_x: (self.spec_origin() + chunk_of(player_column as int)) as i64,
                local_x_bits,
                y_bits,
                selected_slot,
            }),
            forall|i: int, j: int|
                0 <= i < j < result.chunks@.len() ==> #[trigger] result.chunks@[i].x < #[trigger] result.chunks@[j].x,
            forall|x: i64| is_saved(*self, x) <==> exists|i: int| 0 <= i < result.chunks@.len() && #[trigger] result.chunks@[i].x == x,
            forall|i: int| 0 <= i < result.chunks@.len() ==> records_chunk(*self, #[trigger] result.chunks@[i]),
    {
        WorldSnapshot {
            generator_version: session.generator_version,
            height: self.grid.height(),
            name: session.name.clone(),
            seed: session.seed,
            created_at_unix_s: session.created_at_unix_s,
            last_played_unix_s,
            day_time_ticks,
            world_tick: self.world_tick,
            next_tick_sequence: self.pending_ticks.next_sequence(),
            player: PlayerSnapshot {
                chunk_x: self.origin_chunk + world_to_chunk(player_column),
                local_x_bits,
                y_bits,
                selected_slot,
            },
            chunks: self.snapshot_chunks(),
        }
    }

    /// The global cell of a local coordinate, measured from the origin chunk.
    pub fn local_to_voxel(&self, local_x: i32, y: i32, layer: VoxelLayer) -> (result: VoxelPos)
        requires
            i64::MIN <= self.spec_origin() * 32 + local_x <= i64::MAX,
        ensures
            result == (VoxelPos { global_x: (self.spec_origin() * 32 + local_x) as i64, y, layer }),
    {
        let base = self.origin_chunk as i128 * 32;
        VoxelPos { global_x: (base + local_x as i128) as i64, y, layer }
    }
}

} // verus!
