use std::collections::BTreeSet;
use vstd::prelude::*;
use vstd::std_specs::cmp::OrdSpec;
use vstd::std_specs::iter::IteratorSpec;

use crate::application::dirty::{columns_render, light_render_chunks, mark_light_columns_dirty, WorldDirtySets};
use crate::application::world::WorldState;
use crate::domain::block::BlockState;
use crate::domain::generation::{generated_block, generated_voxel, surfaces_cover, SurfaceHeights};
use crate::domain::lighting::{column_differs, idx, in_box, span_height, span_width, volume_cells, LightVolume, MAX_LIGHT_LEVEL};
use crate::domain::world::{chunk_of, world_to_chunk, BlockGrid, ChunkLayer, VoxelCell, VoxelLayer, VoxelPos};
use crate::domain::{CHUNK_WIDTH, DEPTH_SLICES, WORLD_HEIGHT};

verus! {

/// What the light of the world is computed from: both persistent layers of a loaded chunk as
/// stored, every other cell as the generator fills it.
pub open spec fn light_sample(grid: BlockGrid, seed: u64, heights: SurfaceHeights, x: int, y: int, depth: int) -> Option<
    BlockState,
> {
    if (depth == 0 || depth == 1) && grid.spec_chunks().contains_key(chunk_of(x) as i64) {
        let layer = if depth == 0 {
            VoxelLayer::Foreground
        } else {
            VoxelLayer::Backwall
        };
        match grid.cell_at(VoxelPos { global_x: x as i64, y: y as i32, layer }) {
            VoxelCell::Block(state) => Some(state),
            _ => None,
        }
    } else {
        generated_block(seed, x as i64, y as i32, depth as u8, heights)
    }
}

/// [`light_sample`] of a borrowed grid and table.
pub open spec fn sampled_light_voxel(grid: &BlockGrid, seed: u64, heights: &SurfaceHeights, x: int, y: int, depth: int) -> Option<
    BlockState,
> {
    light_sample(*grid, seed, *heights, x, y, depth)
}

/// [`surfaces_cover`] of a borrowed table.
pub open spec fn surface_known(heights: &SurfaceHeights, x: int, depth: int) -> bool {
    surfaces_cover(*heights, x, depth)
}

/// Whether `first` and `last` are the leftmost and rightmost loaded chunks.
pub open spec fn loaded_ends(grid: BlockGrid, first: i64, last: i64) -> bool {
    &&& grid.spec_chunks().contains_key(first)
    &&& grid.spec_chunks().contains_key(last)
    &&& forall|k: i64| #[trigger] grid.spec_chunks().contains_key(k) ==> first <= k <= last
}

/// `x - MAX_LIGHT_LEVEL`, held at the smallest `i64`: light reaches that far into unloaded
/// columns.
pub open spec fn halo_below(x: i64) -> i64 {
    if x - MAX_LIGHT_LEVEL < i64::MIN {
        i64::MIN
    } else {
        (x - MAX_LIGHT_LEVEL) as i64
    }
}

/// `x + MAX_LIGHT_LEVEL`, held at the largest `i64`.
pub open spec fn halo_above(x: i64) -> i64 {
    if x + MAX_LIGHT_LEVEL > i64::MAX {
        i64::MAX
    } else {
        (x + MAX_LIGHT_LEVEL) as i64
    }
}

/// Whether the columns `min_x..max_x` can be sampled from the generator: each keeps two
/// columns clear of the ends of the `i64` range, and the surface table covers it with its
/// neighbourhood in every depth slice.
pub open spec fn columns_generatable(heights: SurfaceHeights, min_x: int, max_x: int) -> bool {
    forall|x: int, d: int|
        min_x <= x < max_x && 0 <= d < DEPTH_SLICES ==> i64::MIN + 2 <= x <= i64::MAX - 2 && #[trigger] surfaces_cover(
            heights,
            x,
            d,
        )
}

/// Whether `volume`, `w` columns wide from column `min_x`, is lit from [`light_sample`].
#[verifier::opaque]
pub open spec fn lit_from_world(
    volume: LightVolume,
    grid: BlockGrid,
    seed: u64,
    heights: SurfaceHeights,
    min_x: i64,
    w: int,
) -> bool {
    exists|samples: Seq<Option<BlockState>>|
        {
            &&& #[trigger] volume.lights(samples)
            &&& forall|x: int, y: int, d: int|
                in_box(w, WORLD_HEIGHT as int, DEPTH_SLICES as int, x, y, d) ==> #[trigger] samples[idx(
                    w,
                    WORLD_HEIGHT as int,
                    x,
                    y,
                    d,
                )] == light_sample(grid, seed, heights, min_x + x, y, d)
        }
}

/// Whether the surface table serves every column the light of the loaded world reaches.
pub open spec fn surfaces_ready(grid: BlockGrid, heights: SurfaceHeights) -> bool {
    forall|first: i64, last: i64|
        loaded_ends(grid, first, last) ==> columns_generatable(
            heights,
            halo_below((first * CHUNK_WIDTH) as i64) as int,
            halo_above(((last + 1) * CHUNK_WIDTH) as i64) as int,
        )
}

/// Whether `volume` is the light of the loaded world: the columns from `MAX_LIGHT_LEVEL` left
/// of the leftmost loaded chunk to `MAX_LIGHT_LEVEL` right of the rightmost one, every row,
/// every depth slice, lit from [`light_sample`]. With nothing loaded, or a span too large to
/// hold, it has no cells.
pub open spec fn lights_loaded_world(volume: LightVolume, grid: BlockGrid, seed: u64, heights: SurfaceHeights) -> bool {
    &&& volume.wf()
    &&& grid.spec_chunks().dom() == Set::<i64>::empty() ==> volume.cell_count() == 0
    &&& forall|first: i64, last: i64|
        loaded_ends(grid, first, last) ==> {
            let min_x = halo_below((first * CHUNK_WIDTH) as i64);
            let w = span_width(min_x, halo_above(((last + 1) * CHUNK_WIDTH) as i64));
            if volume_cells(w, WORLD_HEIGHT as int, DEPTH_SLICES as int) == 0 {
                volume.cell_count() == 0
            } else {
                &&& volume.spec_min_x() == min_x
                &&& volume.spec_width() == w
                &&& volume.spec_height() == WORLD_HEIGHT
                &&& volume.spec_depth_slices() == DEPTH_SLICES
                &&& lit_from_world(volume, grid, seed, heights, min_x, w)
            }
        }
}

/// Samples that each satisfy the sampling closure's contract are the samples of
/// [`light_sample`].
proof fn lemma_light_samples<F: Fn(i64, i32, u8) -> Option<BlockState>>(
    f: F,
    result: LightVolume,
    grid: &BlockGrid,
    seed: u64,
    heights: &SurfaceHeights,
    min_x: i64,
    w: int,
    height: i32,
)
    requires
        height == WORLD_HEIGHT,
        forall|x: i64, y: i32, d: u8, r: Option<BlockState>|
            #[trigger] f.ensures((x, y, d), r) ==> r == sampled_light_voxel(grid, seed, heights, x as int, y as int, d as int),
        0 <= w,
        min_x + w <= i64::MAX,
        ({
            let h = span_height(height);
            exists|samples: Seq<Option<BlockState>>|
                {
                    &&& #[trigger] result.lights(samples)
                    &&& forall|x: int, y: int, d: int|
                        in_box(w, h, DEPTH_SLICES as int, x, y, d) ==> f.ensures(
                            ((min_x + x) as i64, y as i32, d as u8),
                            #[trigger] samples[idx(w, h, x, y, d)],
                        )
                }
        }),
    ensures
        lit_from_world(result, *grid, seed, *heights, min_x, w),
{
    reveal(lit_from_world);
    let h = span_height(height);
    assert(h == WORLD_HEIGHT);
    let samples = choose|samples: Seq<Option<BlockState>>|
        {
            &&& #[trigger] result.lights(samples)
            &&& forall|x: int, y: int, d: int|
                in_box(w, span_height(height), DEPTH_SLICES as int, x, y, d) ==> f.ensures(
                    ((min_x + x) as i64, y as i32, d as u8),
                    #[trigger] samples[idx(w, span_height(height), x, y, d)],
                )
        };
    assert forall|x: int, y: int, d: int| in_box(w, WORLD_HEIGHT as int, DEPTH_SLICES as int, x, y, d) implies #[trigger] samples[idx(
        w,
        WORLD_HEIGHT as int,
        x,
        y,
        d,
    )] == light_sample(*grid, seed, *heights, min_x + x, y, d) by {
        let i = idx(w, WORLD_HEIGHT as int, x, y, d);
        assert(f.ensures(((min_x + x) as i64, y as i32, d as u8), samples[i]));
    }
    assert(result.lights(samples));
}

/// The light of the loaded world (see [`lights_loaded_world`]).
pub fn calculate_light_volume(world: &WorldState, heights: &SurfaceHeights) -> (result: LightVolume)
    requires
        world.wf(),
        surfaces_ready(world.spec_grid(), *heights),
    ensures
        lights_loaded_world(result, world.spec_grid(), world.spec_seed(), *heights),
{
    proof {
        world.lemma_grid_wf();
    }
    let view = world.view();
    let grid = view.grid;
    let (loaded_min_x, loaded_max_x) = match view.loaded_x_bounds() {
        Some(bounds) => bounds,
        None => {
            return LightVolume::empty();
        },
    };
    let ghost (first, last) = choose|first: i64, last: i64|
        #![trigger grid.spec_chunks().contains_key(first), grid.spec_chunks().contains_key(last)]
        grid.spec_chunks().contains_key(first) && grid.spec_chunks().contains_key(last) && (forall|k: i64|
            #[trigger] grid.spec_chunks().contains_key(k) ==> first <= k <= last) && loaded_min_x == first
            * CHUNK_WIDTH && loaded_max_x == (last + 1) * CHUNK_WIDTH;
    assert(loaded_ends(*grid, first, last));
    let halo = MAX_LIGHT_LEVEL as i64;
    let min_x = if loaded_min_x < i64::MIN + halo {
        i64::MIN
    } else {
        loaded_min_x - halo
    };
    let max_x = if loaded_max_x > i64::MAX - halo {
        i64::MAX
    } else {
        loaded_max_x + halo
    };
    let seed = world.seed();
    let sample = |x: i64, y: i32, depth: u8| -> (r: Option<BlockState>)
        requires
            grid.wf(),
            i64::MIN + 2 <= x <= i64::MAX - 2,
            depth < DEPTH_SLICES ==> surface_known(heights, x as int, depth as int),
        ensures
            r == sampled_light_voxel(grid, seed, heights, x as int, y as int, depth as int),
        {
            match VoxelLayer::from_persistent_depth(depth) {
                Some(layer) => {
                    if grid.contains_chunk(ChunkLayer::new(world_to_chunk(x), layer)) {
                        return grid.block(VoxelPos::new(x, y, layer));
                    }
                },
                None => {},
            }
            generated_voxel(seed, x, y, depth, heights)
        };
    proof {
        assert forall|x: i64, y: i32, d: u8|
            min_x <= x < max_x && 0 <= y < WORLD_HEIGHT && d < DEPTH_SLICES implies #[trigger] sample.requires(
            (x, y, d),
        ) by {
            assert(surfaces_cover(*heights, x as int, d as int));
        }
    }
    proof {
        assert(forall|x: i64, y: i32, d: u8, r: Option<BlockState>|
            #[trigger] sample.ensures((x, y, d), r) ==> r == sampled_light_voxel(grid, seed, heights, x as int, y as int, d as int));
    }
    let result = LightVolume::calculate(min_x, max_x, grid.height(), DEPTH_SLICES, sample);
    proof {
        let w = span_width(min_x, max_x);
        if volume_cells(w, WORLD_HEIGHT as int, DEPTH_SLICES as int) != 0 {
            lemma_light_samples(sample, result, grid, seed, heights, min_x, w, grid.spec_height());
        }
        assert forall|f: i64, l: i64| loaded_ends(*grid, f, l) implies f == first && l == last by {
            assert(grid.spec_chunks().contains_key(first));
            assert(grid.spec_chunks().contains_key(f));
        }
    }
    result
}


/// Two elements of an increasing sequence come in increasing order.
proof fn lemma_increasing_pair<K: Ord>(s: Seq<K>, i: int, j: int)
    requires
        vstd::laws_cmp::obeys_cmp::<K>(),
        vstd::std_specs::btree::increasing_seq(s),
        0 <= i < j < s.len(),
    ensures
        s[i].cmp_spec(&s[j]) is Less,
{
    broadcast use vstd::std_specs::btree::group_btree_axioms;

}

/// The elements of a set of columns, in increasing order.
pub fn columns_of(set: &BTreeSet<i64>) -> (result: Vec<i64>)
    ensures
        result@.to_set() == set@,
        forall|i: int, j: int| 0 <= i < j < result@.len() ==> #[trigger] result@[i] < #[trigger] result@[j],
{
    broadcast use vstd::std_specs::btree::group_btree_axioms, vstd::laws_cmp::group_laws_cmp;

    proof {
        crate::domain::lighting::lemma_i64_keys_ordered();
    }
    let ghost keys = vstd::std_specs::btree::spec_btree_keys_iter(set).remaining().unref();
    let mut result: Vec<i64> = Vec::new();
    for x in it: set.iter()
        invariant
            it.seq().unref() == keys,
            result@.len() == it.index(),
            forall|i: int| 0 <= i < it.index() ==> result@[i] == keys[i],
    {
        result.push(*x);
    }
    proof {
        assert(result@ =~= keys);
        let remaining = vstd::std_specs::btree::spec_btree_keys_iter(set).remaining();
        assert(vstd::std_specs::btree::increasing_seq(remaining));
        assert(vstd::laws_cmp::obeys_cmp::<&i64>());
        assert forall|i: int, j: int| 0 <= i < j < result@.len() implies #[trigger] result@[i] < #[trigger] result@[j] by {
            lemma_increasing_pair(remaining, i, j);
        }
    }
    result
}

/// The meshes that sample a column whose light differs between two volumes.
pub open spec fn relit_meshes(before: LightVolume, after: LightVolume) -> Set<i64> {
    Set::new(|c: i64| exists|x: i64| column_differs(before, after, x as int) && #[trigger] light_render_chunks(x).contains(c))
}

/// Brings the light up to date once some chunk layer's light went stale: the light of the
/// loaded world is computed afresh, the meshes that sample a column whose light changed are
/// marked for rebuilding, and the stale marks are cleared. With nothing stale nothing changes.
pub fn refresh_lighting(light: &mut LightVolume, world: &WorldState, heights: &SurfaceHeights, dirty: &mut WorldDirtySets)
    requires
        old(light).wf(),
        world.wf(),
        surfaces_ready(world.spec_grid(), *heights),
    ensures
        final(dirty).collision@ == old(dirty).collision@,
        final(dirty).simulation@ == old(dirty).simulation@,
        old(dirty).lighting@.is_empty() ==> {
            &&& *final(light) == *old(light)
            &&& final(dirty).render@ == old(dirty).render@
            &&& final(dirty).lighting@ == old(dirty).lighting@
        },
        !old(dirty).lighting@.is_empty() ==> {
            &&& lights_loaded_world(*final(light), world.spec_grid(), world.spec_seed(), *heights)
            &&& final(dirty).render@ == old(dirty).render@ + relit_meshes(*old(light), *final(light))
            &&& final(dirty).lighting@ == Set::<(i64, u8)>::empty()
        },
{
    broadcast use vstd::std_specs::btree::group_btree_axioms;

    if dirty.lighting.is_empty() {
        return;
    }
    let next = calculate_light_volume(world, heights);
    let changed = light.changed_x_columns(&next);
    let columns = columns_of(&changed);
    let ghost before = *light;
    *light = next;
    mark_light_columns_dirty(&columns, dirty);
    dirty.lighting.clear();
    proof {
        assert forall|c: i64| #[trigger] columns_render(columns@, columns@.len() as int).contains(c) == relit_meshes(before, next).contains(c) by {
            if columns_render(columns@, columns@.len() as int).contains(c) {
                let i = choose|i: int| 0 <= i < columns@.len() && #[trigger] light_render_chunks(columns@[i]).contains(c);
                assert(columns@.to_set().contains(columns@[i]));
            }
            if relit_meshes(before, next).contains(c) {
                let x = choose|x: i64| column_differs(before, next, x as int) && #[trigger] light_render_chunks(x).contains(c);
                assert(changed@.contains(x));
                assert(columns@.to_set().contains(x));
                let i = choose|i: int| 0 <= i < columns@.len() && columns@[i] == x;
                assert(light_render_chunks(columns@[i]).contains(c));
            }
        }
        assert(columns_render(columns@, columns@.len() as int) =~= relit_meshes(before, next));
    }
}

} // verus!
