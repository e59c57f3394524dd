use std::collections::BTreeSet;
use vstd::prelude::*;

use crate::domain::world::{
    chunk_of, layer_depth, local_of, world_to_chunk, world_to_local, CellChange, ChunkChange, ChunkLayer,
    MutationReport, VoxelLayer, VoxelPos,
};
use crate::domain::CHUNK_WIDTH;

verus! {

/// The key of a chunk layer in an ordered set: its chunk, then its persistent depth.
pub open spec fn layer_key(chunk: ChunkLayer) -> (i64, u8) {
    (chunk.chunk_x, layer_depth(chunk.layer))
}

/// The key of a cell in an ordered set: column, row, persistent depth.
pub open spec fn cell_key(position: VoxelPos) -> (i64, i32, u8) {
    (position.global_x, position.y, layer_depth(position.layer))
}

/// What the presentation of the world must bring up to date after the world changed.
pub struct WorldDirtySets {
    /// Chunks whose meshes must be rebuilt.
    pub render: BTreeSet<i64>,
    /// Chunk layers whose light must be computed again, by `layer_key`.
    pub lighting: BTreeSet<(i64, u8)>,
    /// Chunks whose colliders must be rebuilt.
    pub collision: BTreeSet<i64>,
    /// Cells whose simulation neighbourhood changed, by `cell_key`.
    pub simulation: BTreeSet<(i64, i32, u8)>,
}

impl WorldDirtySets {
    /// Nothing to bring up to date.
    pub fn new() -> (result: WorldDirtySets)
        ensures
            result.render@ == Set::<i64>::empty(),
            result.lighting@ == Set::<(i64, u8)>::empty(),
            result.collision@ == Set::<i64>::empty(),
            result.simulation@ == Set::<(i64, i32, u8)>::empty(),
    {
        WorldDirtySets {
            render: BTreeSet::new(),
            lighting: BTreeSet::new(),
            collision: BTreeSet::new(),
            simulation: BTreeSet::new(),
        }
    }
}

impl Default for WorldDirtySets {
    fn default() -> (result: WorldDirtySets)
        ensures
            result.render@ == Set::<i64>::empty(),
            result.lighting@ == Set::<(i64, u8)>::empty(),
            result.collision@ == Set::<i64>::empty(),
            result.simulation@ == Set::<(i64, i32, u8)>::empty(),
    {
        WorldDirtySets::new()
    }
}

/// Integer keys and tuples of them obey the ordering laws that ordered sets rely on.
proof fn lemma_keys_ordered()
    ensures
        vstd::laws_cmp::obeys_cmp::<i64>(),
        vstd::laws_cmp::obeys_cmp::<(i64, u8)>(),
        vstd::laws_cmp::obeys_cmp::<(i64, i32, u8)>(),
{
    broadcast use vstd::laws_cmp::group_laws_cmp;

}

/// The chunk layer that holds a cell.
pub open spec fn cell_chunk(position: VoxelPos) -> ChunkLayer {
    ChunkLayer { chunk_x: chunk_of(position.global_x as int) as i64, layer: position.layer }
}

/// The chunks whose meshes show a changed cell: its own, and the neighbour across the chunk
/// edge when the cell lies in an edge column, since that neighbour's border faces touch it.
pub open spec fn cell_render_chunks(position: VoxelPos) -> Set<i64> {
    let c = chunk_of(position.global_x as int);
    let local = local_of(position.global_x as int);
    if local == 0 {
        set![c as i64, (c - 1) as i64]
    } else if local == CHUNK_WIDTH - 1 {
        set![c as i64, (c + 1) as i64]
    } else {
        set![c as i64]
    }
}

/// The cell and its four neighbours in its layer, whose simulation may react to the change.
pub open spec fn neighbour_keys(position: VoxelPos) -> Set<(i64, i32, u8)> {
    let d = layer_depth(position.layer);
    set![
        (position.global_x, position.y, d),
        ((position.global_x - 1) as i64, position.y, d),
        ((position.global_x + 1) as i64, position.y, d),
        (position.global_x, (position.y - 1) as i32, d),
        (position.global_x, (position.y + 1) as i32, d),
    ]
}

/// The layer that a chunk change is about.
pub open spec fn changed_layer(change: ChunkChange) -> ChunkLayer {
    match change {
        ChunkChange::Integrated(chunk) => chunk,
        ChunkChange::Unloaded(chunk) => chunk,
    }
}

/// A chunk that entered or left the world changes its own mesh and the borders of both
/// neighbours.
pub open spec fn chunk_render_chunks(chunk: ChunkLayer) -> Set<i64> {
    set![(chunk.chunk_x - 1) as i64, chunk.chunk_x, (chunk.chunk_x + 1) as i64]
}

/// Whether a cell's neighbours can be named without leaving the integer ranges.
pub open spec fn cell_change_in_range(change: CellChange) -> bool {
    &&& i64::MIN < change.position.global_x < i64::MAX
    &&& i32::MIN < change.position.y < i32::MAX
}

/// Whether both neighbours of a changed chunk can be named.
pub open spec fn chunk_change_in_range(change: ChunkChange) -> bool {
    i64::MIN < changed_layer(change).chunk_x < i64::MAX
}

/// The meshes that the first `n` cell changes dirty.
pub open spec fn cells_render(cells: Seq<CellChange>, n: int) -> Set<i64> {
    Set::new(|c: i64| exists|i: int| 0 <= i < n && #[trigger] cell_render_chunks(cells[i].position).contains(c))
}

/// The lighting keys that the first `n` cell changes dirty.
pub open spec fn cells_lighting(cells: Seq<CellChange>, n: int) -> Set<(i64, u8)> {
    Set::new(|k: (i64, u8)| exists|i: int| 0 <= i < n && k == #[trigger] layer_key(cell_chunk(cells[i].position)))
}

/// The colliders that the first `n` cell changes dirty: those of foreground cells only.
pub open spec fn cells_collision(cells: Seq<CellChange>, n: int) -> Set<i64> {
    Set::new(
        |c: i64|
            exists|i: int|
                0 <= i < n && (#[trigger] cells[i]).position.layer == VoxelLayer::Foreground && c == chunk_of(
                    cells[i].position.global_x as int,
                ),
    )
}

/// The simulation keys that the first `n` cell changes dirty.
pub open spec fn cells_simulation(cells: Seq<CellChange>, n: int) -> Set<(i64, i32, u8)> {
    Set::new(|k: (i64, i32, u8)| exists|i: int| 0 <= i < n && #[trigger] neighbour_keys(cells[i].position).contains(k))
}

/// The meshes that the first `n` chunk changes dirty.
pub open spec fn chunks_render(chunks: Seq<ChunkChange>, n: int) -> Set<i64> {
    Set::new(|c: i64| exists|i: int| 0 <= i < n && #[trigger] chunk_render_chunks(changed_layer(chunks[i])).contains(c))
}

/// The lighting keys that the first `n` chunk changes dirty.
pub open spec fn chunks_lighting(chunks: Seq<ChunkChange>, n: int) -> Set<(i64, u8)> {
    Set::new(|k: (i64, u8)| exists|i: int| 0 <= i < n && k == #[trigger] layer_key(changed_layer(chunks[i])))
}

/// The colliders that the first `n` chunk changes dirty: those of foreground layers only.
pub open spec fn chunks_collision(chunks: Seq<ChunkChange>, n: int) -> Set<i64> {
    Set::new(
        |c: i64|
            exists|i: int|
                0 <= i < n && (#[trigger] changed_layer(chunks[i])).layer == VoxelLayer::Foreground && c
                    == changed_layer(chunks[i]).chunk_x,
    )
}

/// A changed cell and its four neighbours in its layer.
pub fn mutation_neighbors(position: VoxelPos) -> (result: [VoxelPos; 5])
    requires
        i64::MIN < position.global_x < i64::MAX,
        i32::MIN < position.y < i32::MAX,
    ensures
        result@ == seq![
            position,
            VoxelPos { global_x: (position.global_x - 1) as i64, ..position },
            VoxelPos { global_x: (position.global_x + 1) as i64, ..position },
            VoxelPos { y: (position.y - 1) as i32, ..position },
            VoxelPos { y: (position.y + 1) as i32, ..position },
        ],
{
    [
        position,
        VoxelPos { global_x: position.global_x - 1, ..position },
        VoxelPos { global_x: position.global_x + 1, ..position },
        VoxelPos { y: position.y - 1, ..position },
        VoxelPos { y: position.y + 1, ..position },
    ]
}

/// The ordered-set key of a cell.
fn cell_key_of(position: VoxelPos) -> (result: (i64, i32, u8))
    ensures
        result == cell_key(position),
{
    (position.global_x, position.y, position.layer.depth())
}

/// Marks what one changed cell dirties.
fn mark_cell_change(change: &CellChange, dirty: &mut WorldDirtySets)
    requires
        cell_change_in_range(*change),
    ensures
        final(dirty).render@ == old(dirty).render@ + cell_render_chunks(change.position),
        final(dirty).lighting@ == old(dirty).lighting@.insert(layer_key(cell_chunk(change.position))),
        final(dirty).collision@ == if change.position.layer == VoxelLayer::Foreground {
            old(dirty).collision@.insert(chunk_of(change.position.global_x as int) as i64)
        } else {
            old(dirty).collision@
        },
        final(dirty).simulation@ == old(dirty).simulation@ + neighbour_keys(change.position),
{
    proof {
        lemma_keys_ordered();
    }
    let position = change.position;
    let chunk_x = world_to_chunk(position.global_x);
    dirty.render.insert(chunk_x);
    dirty.lighting.insert((chunk_x, position.layer.depth()));
    if position.layer == VoxelLayer::Foreground {
        dirty.collision.insert(chunk_x);
    }
    let local_x = world_to_local(position.global_x);
    if local_x == 0 {
        dirty.render.insert(chunk_x - 1);
    } else if local_x == CHUNK_WIDTH - 1 {
        dirty.render.insert(chunk_x + 1);
    }
    proof {
        assert(dirty.render@ =~= old(dirty).render@ + cell_render_chunks(change.position));
    }
    let neighbours = mutation_neighbors(position);
    let ghost before = dirty.simulation@;
    let ghost marked = *dirty;
    for i in 0..5
        invariant
            neighbours@ == mutation_neighbors_seq(position),
            dirty.render@ == marked.render@,
            dirty.lighting@ == marked.lighting@,
            dirty.collision@ == marked.collision@,
            dirty.simulation@ == before + Set::new(
                |k: (i64, i32, u8)| exists|j: int| 0 <= j < i && k == #[trigger] cell_key(neighbours@[j]),
            ),
    {
        proof {
            lemma_keys_ordered();
        }
        dirty.simulation.insert(cell_key_of(neighbours[i]));
        proof {
            assert(dirty.simulation@ =~= before + Set::new(
                |k: (i64, i32, u8)| exists|j: int| 0 <= j < i + 1 && k == #[trigger] cell_key(neighbours@[j]),
            ));
        }
    }
    proof {
        let keys = Set::new(|k: (i64, i32, u8)| exists|j: int| 0 <= j < 5 && k == #[trigger] cell_key(neighbours@[j]));
        assert(cell_key(neighbours@[0]) == (position.global_x, position.y, layer_depth(position.layer)));
        assert(cell_key(neighbours@[1]) == ((position.global_x - 1) as i64, position.y, layer_depth(position.layer)));
        assert(cell_key(neighbours@[2]) == ((position.global_x + 1) as i64, position.y, layer_depth(position.layer)));
        assert(cell_key(neighbours@[3]) == (position.global_x, (position.y - 1) as i32, layer_depth(position.layer)));
        assert(cell_key(neighbours@[4]) == (position.global_x, (position.y + 1) as i32, layer_depth(position.layer)));
        assert(keys =~= neighbour_keys(position));
    }
}

/// The neighbours as `mutation_neighbors` lists them.
pub open spec fn mutation_neighbors_seq(position: VoxelPos) -> Seq<VoxelPos> {
    seq![
        position,
        VoxelPos { global_x: (position.global_x - 1) as i64, ..position },
        VoxelPos { global_x: (position.global_x + 1) as i64, ..position },
        VoxelPos { y: (position.y - 1) as i32, ..position },
        VoxelPos { y: (position.y + 1) as i32, ..position },
    ]
}

/// Marks what one chunk entering or leaving the world dirties.
fn mark_chunk_change(change: &ChunkChange, dirty: &mut WorldDirtySets)
    requires
        chunk_change_in_range(*change),
    ensures
        final(dirty).render@ == old(dirty).render@ + chunk_render_chunks(changed_layer(*change)),
        final(dirty).lighting@ == old(dirty).lighting@.insert(layer_key(changed_layer(*change))),
        final(dirty).collision@ == if changed_layer(*change).layer == VoxelLayer::Foreground {
            old(dirty).collision@.insert(changed_layer(*change).chunk_x)
        } else {
            old(dirty).collision@
        },
        final(dirty).simulation@ == old(dirty).simulation@,
{
    proof {
        lemma_keys_ordered();
    }
    let chunk = match change {
        ChunkChange::Integrated(chunk) => *chunk,
        ChunkChange::Unloaded(chunk) => *chunk,
    };
    dirty.render.insert(chunk.chunk_x);
    dirty.lighting.insert((chunk.chunk_x, chunk.layer.depth()));
    if chunk.layer == VoxelLayer::Foreground {
        dirty.collision.insert(chunk.chunk_x);
    }
    dirty.render.insert(chunk.chunk_x - 1);
    dirty.render.insert(chunk.chunk_x + 1);
    proof {
        assert(dirty.render@ =~= old(dirty).render@ + chunk_render_chunks(chunk));
    }
}

/// Records what a mutation report leaves to bring up to date. Each changed cell dirties the
/// mesh of its chunk (and of the neighbour across an edge column), the light of its chunk
/// layer, the collider of its chunk when it is in the foreground, and the simulation of itself
/// and its four neighbours. Each chunk that entered or left dirties its own mesh and both
/// neighbours', its light and, for the foreground, its collider.
pub fn apply_report_to_dirty(report: &MutationReport, dirty: &mut WorldDirtySets)
    requires
        forall|i: int| 0 <= i < report.cell_changes@.len() ==> cell_change_in_range(#[trigger] report.cell_changes@[i]),
        forall|i: int|
            0 <= i < report.chunk_changes@.len() ==> chunk_change_in_range(#[trigger] report.chunk_changes@[i]),
    ensures
        final(dirty).render@ == old(dirty).render@ + cells_render(
            report.cell_changes@,
            report.cell_changes@.len() as int,
        ) + chunks_render(report.chunk_changes@, report.chunk_changes@.len() as int),
        final(dirty).lighting@ == old(dirty).lighting@ + cells_lighting(
            report.cell_changes@,
            report.cell_changes@.len() as int,
        ) + chunks_lighting(report.chunk_changes@, report.chunk_changes@.len() as int),
        final(dirty).collision@ == old(dirty).collision@ + cells_collision(
            report.cell_changes@,
            report.cell_changes@.len() as int,
        ) + chunks_collision(report.chunk_changes@, report.chunk_changes@.len() as int),
        final(dirty).simulation@ == old(dirty).simulation@ + cells_simulation(
            report.cell_changes@,
            report.cell_changes@.len() as int,
        ),
{
    let ghost start = *dirty;
    let cells = &report.cell_changes;
    for i in 0..cells.len()
        invariant
            forall|k: int| 0 <= k < cells@.len() ==> cell_change_in_range(#[trigger] cells@[k]),
            dirty.render@ == start.render@ + cells_render(cells@, i as int),
            dirty.lighting@ == start.lighting@ + cells_lighting(cells@, i as int),
            dirty.collision@ == start.collision@ + cells_collision(cells@, i as int),
            dirty.simulation@ == start.simulation@ + cells_simulation(cells@, i as int),
    {
        let ghost prev = *dirty;
        mark_cell_change(&cells[i], dirty);
        proof {
            let n = i + 1;
            assert(dirty.render@ =~= start.render@ + cells_render(cells@, n));
            assert(dirty.lighting@ =~= start.lighting@ + cells_lighting(cells@, n));
            assert(dirty.collision@ =~= start.collision@ + cells_collision(cells@, n));
            assert(dirty.simulation@ =~= start.simulation@ + cells_simulation(cells@, n));
        }
    }
    let ghost middle = *dirty;
    let chunks = &report.chunk_changes;
    for i in 0..chunks.len()
        invariant
            forall|k: int| 0 <= k < chunks@.len() ==> chunk_change_in_range(#[trigger] chunks@[k]),
            dirty.render@ == middle.render@ + chunks_render(chunks@, i as int),
            dirty.lighting@ == middle.lighting@ + chunks_lighting(chunks@, i as int),
            dirty.collision@ == middle.collision@ + chunks_collision(chunks@, i as int),
            dirty.simulation@ == middle.simulation@,
    {
        mark_chunk_change(&chunks[i], dirty);
        proof {
            let n = i + 1;
            assert(dirty.render@ =~= middle.render@ + chunks_render(chunks@, n));
            assert(dirty.lighting@ =~= middle.lighting@ + chunks_lighting(chunks@, n));
            assert(dirty.collision@ =~= middle.collision@ + chunks_collision(chunks@, n));
        }
    }
    proof {
        assert(dirty.render@ =~= old(dirty).render@ + cells_render(cells@, cells@.len() as int) + chunks_render(
            chunks@,
            chunks@.len() as int,
        ));
        assert(dirty.lighting@ =~= old(dirty).lighting@ + cells_lighting(cells@, cells@.len() as int)
            + chunks_lighting(chunks@, chunks@.len() as int));
        assert(dirty.collision@ =~= old(dirty).collision@ + cells_collision(cells@, cells@.len() as int)
            + chunks_collision(chunks@, chunks@.len() as int));
    }
}

/// `x - 1`, held at the smallest `i64`.
pub open spec fn column_before(x: i64) -> i64 {
    if x == i64::MIN {
        x
    } else {
        (x - 1) as i64
    }
}

/// `x + 1`, held at the largest `i64`.
pub open spec fn column_after(x: i64) -> i64 {
    if x == i64::MAX {
        x
    } else {
        (x + 1) as i64
    }
}

/// The meshes whose faces sample the light of column `x`: those holding it and its two
/// neighbouring columns.
pub open spec fn light_render_chunks(x: i64) -> Set<i64> {
    set![
        chunk_of(column_before(x) as int) as i64,
        chunk_of(x as int) as i64,
        chunk_of(column_after(x) as int) as i64,
    ]
}

/// The meshes that the light changes of the first `n` columns dirty.
pub open spec fn columns_render(changed_x: Seq<i64>, n: int) -> Set<i64> {
    Set::new(|c: i64| exists|i: int| 0 <= i < n && #[trigger] light_render_chunks(changed_x[i]).contains(c))
}

/// Marks the meshes whose faces sample a column whose light changed: a face reads the light of
/// the cell beside it, so a change reaches one column into each neighbour.
pub fn mark_light_columns_dirty(changed_x: &[i64], dirty: &mut WorldDirtySets)
    ensures
        final(dirty).render@ == old(dirty).render@ + columns_render(changed_x@, changed_x@.len() as int),
        final(dirty).lighting@ == old(dirty).lighting@,
        final(dirty).collision@ == old(dirty).collision@,
        final(dirty).simulation@ == old(dirty).simulation@,
{
    let ghost start = *dirty;
    for i in 0..changed_x.len()
        invariant
            dirty.render@ == start.render@ + columns_render(changed_x@, i as int),
            dirty.lighting@ == start.lighting@,
            dirty.collision@ == start.collision@,
            dirty.simulation@ == start.simulation@,
    {
        proof {
            lemma_keys_ordered();
        }
        let x = changed_x[i];
        let before: i64 = if x == i64::MIN {
            x
        } else {
            x - 1
        };
        let after: i64 = if x == i64::MAX {
            x
        } else {
            x + 1
        };
        dirty.render.insert(world_to_chunk(before));
        dirty.render.insert(world_to_chunk(x));
        dirty.render.insert(world_to_chunk(after));
        proof {
            assert(light_render_chunks(changed_x@[i as int]) =~= set![
                chunk_of(before as int) as i64,
                chunk_of(x as int) as i64,
                chunk_of(after as int) as i64,
            ]);
            assert forall|c: i64| light_render_chunks(changed_x@[i as int]).contains(c) implies #[trigger] columns_render(
                changed_x@,
                i + 1,
            ).contains(c) by {}
            assert(dirty.render@ =~= start.render@ + columns_render(changed_x@, i + 1));
        }
    }
}

} // verus!
