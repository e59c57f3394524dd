use vstd::prelude::*;

use crate::domain::block::{id_def, id_value, state_id, BlockState};
use crate::domain::generation::{generated_block, generated_voxel, hash_of, stable_hash, surfaces_cover, SurfaceHeights};
use crate::domain::lighting::{LightCell, LightVolume};
use crate::domain::world::{chunk_of, representable, world_to_chunk, BlockGrid, ChunkLayer, VoxelCell, VoxelLayer, VoxelPos, WorldView};
use crate::domain::{CHUNK_WIDTH, DEPTH_SLICES, WORLD_HEIGHT};

verus! {

/// A side of a block's cube. The front faces the camera; depth grows away from it.
#[derive(Debug, Clone, Copy, PartialEq, Eq, Structural)]
pub enum Face {
    Front,
    Back,
    Right,
    Left,
    Top,
    Bottom,
}

/// The step from a cell to the neighbour a face looks at: columns, rows, depth slices.
pub open spec fn face_offset(face: Face) -> (int, int, int) {
    match face {
        Face::Front => (0, 0, -1),
        Face::Back => (0, 0, 1),
        Face::Right => (1, 0, 0),
        Face::Left => (-1, 0, 0),
        Face::Top => (0, 1, 0),
        Face::Bottom => (0, -1, 0),
    }
}

/// The faces in the order a block's faces are emitted.
pub open spec fn face_number(i: int) -> Face {
    if i == 0 {
        Face::Front
    } else if i == 1 {
        Face::Back
    } else if i == 2 {
        Face::Right
    } else if i == 3 {
        Face::Left
    } else if i == 4 {
        Face::Top
    } else {
        Face::Bottom
    }
}

/// The atlas row a face takes its texture from: tops, sides and the bottom, or the faces
/// toward and away from the camera.
pub open spec fn face_texture_class(face: Face) -> u32 {
    match face {
        Face::Top => 1,
        Face::Right | Face::Left | Face::Bottom => 2,
        Face::Front | Face::Back => 0,
    }
}

impl Face {
    /// See [`face_offset`].
    pub fn neighbor(self) -> (result: (i32, i32, i32))
        ensures
            result.0 == face_offset(self).0,
            result.1 == face_offset(self).1,
            result.2 == face_offset(self).2,
    {
        match self {
            Face::Front => (0, 0, -1),
            Face::Back => (0, 0, 1),
            Face::Right => (1, 0, 0),
            Face::Left => (-1, 0, 0),
            Face::Top => (0, 1, 0),
            Face::Bottom => (0, -1, 0),
        }
    }

    /// See [`face_texture_class`].
    pub fn texture_class(self) -> (result: u32)
        ensures
            result == face_texture_class(self),
    {
        match self {
            Face::Top => 1,
            Face::Right | Face::Left | Face::Bottom => 2,
            Face::Front | Face::Back => 0,
        }
    }
}

/// The `i`-th face in emission order.
fn face_at(i: usize) -> (result: Face)
    requires
        i < 6,
    ensures
        result == face_number(i as int),
{
    if i == 0 {
        Face::Front
    } else if i == 1 {
        Face::Back
    } else if i == 2 {
        Face::Right
    } else if i == 3 {
        Face::Left
    } else if i == 4 {
        Face::Top
    } else {
        Face::Bottom
    }
}

/// What the renderer sees in a cell: nothing outside the rows and depth slices; the playable
/// layer of a loaded chunk as it is stored; every other cell as the generator fills it.
pub open spec fn rendered_voxel(
    grid: BlockGrid,
    seed: u64,
    heights: SurfaceHeights,
    x: int,
    y: int,
    depth: int,
) -> Option<BlockState> {
    if !(0 <= y < WORLD_HEIGHT) || !(0 <= depth < DEPTH_SLICES) {
        None
    } else if depth == 0 && grid.spec_chunks().contains_key(chunk_of(x) as i64) {
        match grid.cell_at(VoxelPos { global_x: x as i64, y: y as i32, layer: VoxelLayer::Foreground }) {
            VoxelCell::Block(state) => Some(state),
            _ => None,
        }
    } else {
        generated_block(seed, x as i64, y as i32, depth as u8, heights)
    }
}

/// See [`rendered_voxel`].
fn rendered_voxel_at(
    grid: &BlockGrid,
    seed: u64,
    heights: &SurfaceHeights,
    x: i64,
    y: i32,
    depth: i32,
) -> (result: Option<BlockState>)
    requires
        grid.wf(),
        i64::MIN + 2 <= x <= i64::MAX - 2,
        0 <= depth < DEPTH_SLICES ==> surfaces_cover(*heights, x as int, depth as int),
    ensures
        result == rendered_voxel(*grid, seed, *heights, x as int, y as int, depth as int),
{
    if !(0 <= y && y < WORLD_HEIGHT) || !(0 <= depth && depth < DEPTH_SLICES as i32) {
        return None;
    }
    if depth == 0 && grid.contains_chunk(ChunkLayer::foreground(world_to_chunk(x))) {
        grid.block(VoxelPos::foreground(x, y))
    } else {
        generated_voxel(seed, x, y, depth as u8, heights)
    }
}

/// The steps to the six neighbours a face on the edge of the depth slices gathers light from.
pub open spec fn boundary_offset(j: int) -> (int, int, int) {
    if j == 0 {
        (1, 0, 0)
    } else if j == 1 {
        (-1, 0, 0)
    } else if j == 2 {
        (0, 1, 0)
    } else if j == 3 {
        (0, -1, 0)
    } else if j == 4 {
        (0, 0, 1)
    } else {
        (0, 0, -1)
    }
}

/// Whether the `j`-th neighbour of a cell passes its light to a boundary face: it lies within
/// the rows and slices and is not fully opaque.
pub open spec fn boundary_neighbour_counts(
    grid: BlockGrid,
    seed: u64,
    heights: SurfaceHeights,
    x: int,
    y: int,
    depth: int,
    j: int,
) -> bool {
    let (dx, dy, dd) = boundary_offset(j);
    &&& 0 <= y + dy < WORLD_HEIGHT
    &&& 0 <= depth + dd < DEPTH_SLICES
    &&& !(rendered_voxel(grid, seed, heights, x + dx, y + dy, depth + dd) matches Some(state) && id_def(
        state_id(state),
    ).light_opacity >= 15)
}

pub open spec fn max_u8(a: u8, b: u8) -> u8 {
    if a >= b {
        a
    } else {
        b
    }
}

/// The brightest sky and block light among the first `n` neighbours that pass light.
pub open spec fn boundary_light(
    grid: BlockGrid,
    seed: u64,
    heights: SurfaceHeights,
    light: LightVolume,
    x: int,
    y: int,
    depth: int,
    n: nat,
) -> LightCell
    decreases n,
{
    if n == 0 {
        LightCell { sky: 0, block: 0 }
    } else {
        let previous = boundary_light(grid, seed, heights, light, x, y, depth, (n - 1) as nat);
        if boundary_neighbour_counts(grid, seed, heights, x, y, depth, n - 1) {
            let (dx, dy, dd) = boundary_offset(n - 1);
            let seen = light.light_at(x + dx, y + dy, depth + dd);
            LightCell { sky: max_u8(previous.sky, seen.sky), block: max_u8(previous.block, seen.block) }
        } else {
            previous
        }
    }
}

/// The light a face shows: that of the cell it looks at; full sky above the top row; and, for
/// a face looking out of the depth slices, the brightest light among the cell's neighbours.
pub open spec fn face_light(
    grid: BlockGrid,
    seed: u64,
    heights: SurfaceHeights,
    light: LightVolume,
    x: int,
    y: int,
    depth: int,
    face: Face,
) -> LightCell {
    let (dx, dy, dd) = face_offset(face);
    if !(0 <= depth + dd < DEPTH_SLICES) {
        boundary_light(grid, seed, heights, light, x, y, depth, 6)
    } else if y + dy >= WORLD_HEIGHT {
        LightCell { sky: 15, block: 0 }
    } else {
        light.light_at(x + dx, y + dy, depth + dd)
    }
}

/// Whether the columns around a chunk can be sampled: they fit in an `i64` with room to
/// spare, and the surface table covers each of them with its neighbourhood in every slice.
pub open spec fn chunk_columns_covered(global_chunk_x: i64, heights: SurfaceHeights) -> bool {
    let start = global_chunk_x * CHUNK_WIDTH;
    &&& i64::MIN + 3 <= start
    &&& start + CHUNK_WIDTH + 3 <= i64::MAX
    &&& forall|x: int, d: int|
        start - 1 <= x <= start + CHUNK_WIDTH && 0 <= d < DEPTH_SLICES ==> #[trigger] surfaces_cover(heights, x, d)
}

/// See [`boundary_offset`].
fn boundary_offset_at(j: usize) -> (result: (i64, i32, i32))
    requires
        j < 6,
    ensures
        result.0 == boundary_offset(j as int).0,
        result.1 == boundary_offset(j as int).1,
        result.2 == boundary_offset(j as int).2,
{
    if j == 0 {
        (1, 0, 0)
    } else if j == 1 {
        (-1, 0, 0)
    } else if j == 2 {
        (0, 1, 0)
    } else if j == 3 {
        (0, -1, 0)
    } else if j == 4 {
        (0, 0, 1)
    } else {
        (0, 0, -1)
    }
}

/// Takes the light of the `j`-th neighbour into `visible` when that neighbour passes light.
fn gather_boundary_neighbour(
    grid: &BlockGrid,
    seed: u64,
    heights: &SurfaceHeights,
    light: &LightVolume,
    x: i64,
    y: i32,
    depth: u8,
    j: usize,
    visible: LightCell,
) -> (result: LightCell)
    requires
        j < 6,
        grid.wf(),
        light.wf(),
        i64::MIN + 3 <= x <= i64::MAX - 3,
        0 <= y < WORLD_HEIGHT,
        depth < DEPTH_SLICES,
        forall|c: int, d: int| x - 1 <= c <= x + 1 && 0 <= d < DEPTH_SLICES ==> #[trigger] surfaces_cover(*heights, c, d),
    ensures
        result == if boundary_neighbour_counts(*grid, seed, *heights, x as int, y as int, depth as int, j as int) {
            let (dx, dy, dd) = boundary_offset(j as int);
            let seen = light.light_at(x + dx, y + dy, depth + dd);
            LightCell { sky: max_u8(visible.sky, seen.sky), block: max_u8(visible.block, seen.block) }
        } else {
            visible
        },
{
    let (dx, dy, dd) = boundary_offset_at(j);
    let nx = x + dx;
    let ny = y + dy;
    let nd = depth as i32 + dd;
    if !(0 <= ny && ny < WORLD_HEIGHT && 0 <= nd && nd < DEPTH_SLICES as i32) {
        return visible;
    }
    let opaque = match rendered_voxel_at(grid, seed, heights, nx, ny, nd) {
        Some(state) => state.def().light_opacity >= 15,
        None => false,
    };
    if opaque {
        return visible;
    }
    let seen = light.get(nx, ny, nd as u8);
    LightCell {
        sky: if visible.sky >= seen.sky {
            visible.sky
        } else {
            seen.sky
        },
        block: if visible.block >= seen.block {
            visible.block
        } else {
            seen.block
        },
    }
}

/// The brightest light of the neighbours of a boundary face.
fn boundary_light_at(
    grid: &BlockGrid,
    seed: u64,
    heights: &SurfaceHeights,
    light: &LightVolume,
    x: i64,
    y: i32,
    depth: u8,
) -> (result: LightCell)
    requires
        grid.wf(),
        light.wf(),
        i64::MIN + 3 <= x <= i64::MAX - 3,
        0 <= y < WORLD_HEIGHT,
        depth < DEPTH_SLICES,
        forall|c: int, d: int| x - 1 <= c <= x + 1 && 0 <= d < DEPTH_SLICES ==> #[trigger] surfaces_cover(*heights, c, d),
    ensures
        result == boundary_light(*grid, seed, *heights, *light, x as int, y as int, depth as int, 6),
{
    let mut visible = LightCell { sky: 0, block: 0 };
    for j in 0..6
        invariant
            grid.wf(),
            light.wf(),
            i64::MIN + 3 <= x <= i64::MAX - 3,
            0 <= y < WORLD_HEIGHT,
            depth < DEPTH_SLICES,
            forall|c: int, d: int| x - 1 <= c <= x + 1 && 0 <= d < DEPTH_SLICES ==> #[trigger] surfaces_cover(*heights, c, d),
            visible == boundary_light(*grid, seed, *heights, *light, x as int, y as int, depth as int, j as nat),
    {
        visible = gather_boundary_neighbour(grid, seed, heights, light, x, y, depth, j, visible);
    }
    visible
}

/// See [`face_light`].
fn face_light_at(
    grid: &BlockGrid,
    seed: u64,
    heights: &SurfaceHeights,
    light: &LightVolume,
    x: i64,
    y: i32,
    depth: u8,
    face: Face,
) -> (result: LightCell)
    requires
        grid.wf(),
        light.wf(),
        i64::MIN + 3 <= x <= i64::MAX - 3,
        0 <= y < WORLD_HEIGHT,
        depth < DEPTH_SLICES,
        forall|c: int, d: int| x - 1 <= c <= x + 1 && 0 <= d < DEPTH_SLICES ==> #[trigger] surfaces_cover(*heights, c, d),
    ensures
        result == face_light(*grid, seed, *heights, *light, x as int, y as int, depth as int, face),
{
    let (dx, dy, dd) = face.neighbor();
    let nd = depth as i32 + dd;
    if !(0 <= nd && nd < DEPTH_SLICES as i32) {
        return boundary_light_at(grid, seed, heights, light, x, y, depth);
    }
    if y + dy >= WORLD_HEIGHT {
        return LightCell { sky: 15, block: 0 };
    }
    light.get(x + dx as i64, y + dy, nd as u8)
}

/// A visible face of a block: the cell (column within the chunk, row, depth slice), what it
/// holds, the texture variant, the side, and the light that reaches it.
#[derive(Debug, Clone, Copy, PartialEq, Eq, Structural)]
pub struct FaceQuad {
    pub local_x: i32,
    pub y: i32,
    pub depth: u8,
    pub state: BlockState,
    pub variant: u32,
    pub face: Face,
    pub light: LightCell,
}

/// A floor torch drawn as a flat card on the playable layer.
#[derive(Debug, Clone, Copy, PartialEq, Eq, Structural)]
pub struct TorchQuad {
    pub local_x: i32,
    pub y: i32,
    pub variant: u32,
}

/// What a chunk's meshes are made of: faces of opaque blocks, faces of leaves drawn with
/// transparent cut-outs, and torch cards drawn unlit.
pub struct ChunkFaces {
    pub opaque: Vec<FaceQuad>,
    pub cutout: Vec<FaceQuad>,
    pub torches: Vec<TorchQuad>,
}

/// The number of cells of one chunk column across all depth slices.
pub open spec fn chunk_cells() -> int {
    CHUNK_WIDTH * WORLD_HEIGHT * DEPTH_SLICES
}

/// The cells are visited column by column, each column bottom to top, each row front to back.
pub open spec fn cell_column(c: int) -> int {
    c / (WORLD_HEIGHT * DEPTH_SLICES)
}

pub open spec fn cell_row(c: int) -> int {
    (c / (DEPTH_SLICES as int)) % (WORLD_HEIGHT as int)
}

pub open spec fn cell_slice(c: int) -> int {
    c % (DEPTH_SLICES as int)
}

/// Which of three textures a block shows, picked by a hash of its cell, kind and slice.
pub open spec fn texture_variant(seed: u64, x: int, y: int, state: BlockState, depth: int) -> u32 {
    (hash_of(seed, x as i64, y as i32, (id_value(state_id(state)) + depth * 97) as u64) % 3) as u32
}

/// Whether a face of a block is seen: the cell it looks at is empty or holds a floor torch.
pub open spec fn face_shown(grid: BlockGrid, seed: u64, heights: SurfaceHeights, x: int, y: int, depth: int, face: Face) -> bool {
    let (dx, dy, dd) = face_offset(face);
    match rendered_voxel(grid, seed, heights, x + dx, y + dy, depth + dd) {
        Some(neighbour) => neighbour == BlockState::TORCH,
        None => true,
    }
}

/// The visible faces among the first `n` faces of the block `state` in cell `c`.
pub open spec fn cell_faces(
    grid: BlockGrid,
    seed: u64,
    heights: SurfaceHeights,
    light: LightVolume,
    start: int,
    c: int,
    state: BlockState,
    n: nat,
) -> Seq<FaceQuad>
    decreases n,
{
    if n == 0 {
        Seq::empty()
    } else {
        let previous = cell_faces(grid, seed, heights, light, start, c, state, (n - 1) as nat);
        let (x, y, depth) = (start + cell_column(c), cell_row(c), cell_slice(c));
        let face = face_number(n - 1);
        if face_shown(grid, seed, heights, x, y, depth, face) {
            previous.push(
                FaceQuad {
                    local_x: cell_column(c) as i32,
                    y: y as i32,
                    depth: depth as u8,
                    state,
                    variant: texture_variant(seed, x, y, state, depth),
                    face,
                    light: face_light(grid, seed, heights, light, x, y, depth, face),
                },
            )
        } else {
            previous
        }
    }
}

/// What cell `c` of the chunk starting at column `start` holds.
pub open spec fn cell_block(grid: BlockGrid, seed: u64, heights: SurfaceHeights, start: int, c: int) -> Option<
    BlockState,
> {
    rendered_voxel(grid, seed, heights, start + cell_column(c), cell_row(c), cell_slice(c))
}

/// The faces of opaque blocks among the first `c` cells: every block but torches and leaves.
pub open spec fn opaque_faces(
    grid: BlockGrid,
    seed: u64,
    heights: SurfaceHeights,
    light: LightVolume,
    start: int,
    c: nat,
) -> Seq<FaceQuad>
    decreases c,
{
    if c == 0 {
        Seq::empty()
    } else {
        let previous = opaque_faces(grid, seed, heights, light, start, (c - 1) as nat);
        match cell_block(grid, seed, heights, start, c - 1) {
            Some(state) => if state != BlockState::TORCH && state != BlockState::LEAVES {
                previous + cell_faces(grid, seed, heights, light, start, c - 1, state, 6)
            } else {
                previous
            },
            None => previous,
        }
    }
}

/// The faces of leaves among the first `c` cells.
pub open spec fn cutout_faces(
    grid: BlockGrid,
    seed: u64,
    heights: SurfaceHeights,
    light: LightVolume,
    start: int,
    c: nat,
) -> Seq<FaceQuad>
    decreases c,
{
    if c == 0 {
        Seq::empty()
    } else {
        let previous = cutout_faces(grid, seed, heights, light, start, (c - 1) as nat);
        if cell_block(grid, seed, heights, start, c - 1) == Some(BlockState::LEAVES) {
            previous + cell_faces(grid, seed, heights, light, start, c - 1, BlockState::LEAVES, 6)
        } else {
            previous
        }
    }
}

/// The floor torches of the playable layer among the first `c` cells.
pub open spec fn torch_cards(grid: BlockGrid, seed: u64, heights: SurfaceHeights, start: int, c: nat) -> Seq<
    TorchQuad,
>
    decreases c,
{
    if c == 0 {
        Seq::empty()
    } else {
        let previous = torch_cards(grid, seed, heights, start, (c - 1) as nat);
        let cell = c - 1;
        if cell_block(grid, seed, heights, start, cell) == Some(BlockState::TORCH) && cell_slice(cell) == 0 {
            previous.push(
                TorchQuad {
                    local_x: cell_column(cell) as i32,
                    y: cell_row(cell) as i32,
                    variant: texture_variant(
                        seed,
                        start + cell_column(cell),
                        cell_row(cell),
                        BlockState::TORCH,
                        0,
                    ),
                },
            )
        } else {
            previous
        }
    }
}

/// Appends the visible faces of the block `state` in cell `c`.
fn push_cell_faces(
    out: &mut Vec<FaceQuad>,
    grid: &BlockGrid,
    seed: u64,
    heights: &SurfaceHeights,
    light: &LightVolume,
    start: i64,
    c: usize,
    state: BlockState,
    variant: u32,
)
    requires
        grid.wf(),
        light.wf(),
        0 <= c < chunk_cells(),
        i64::MIN + 3 <= start,
        start + CHUNK_WIDTH + 3 <= i64::MAX,
        forall|x: int, d: int|
            start - 1 <= x <= start + CHUNK_WIDTH && 0 <= d < DEPTH_SLICES ==> #[trigger] surfaces_cover(*heights, x, d),
        variant == texture_variant(seed, start + cell_column(c as int), cell_row(c as int), state, cell_slice(c as int)),
    ensures
        final(out)@ == old(out)@ + cell_faces(*grid, seed, *heights, *light, start as int, c as int, state, 6),
{
    let local_x = (c / 480) as i32;
    let y = ((c / 6) % 80) as i32;
    let depth = (c % 6) as u8;
    let x = start + local_x as i64;
    let ghost before = out@;
    let mut f: usize = 0;
    while f < 6
        invariant
            f <= 6,
            grid.wf(),
            light.wf(),
            i64::MIN + 3 <= start,
            start + CHUNK_WIDTH + 3 <= i64::MAX,
            forall|x: int, d: int|
                start - 1 <= x <= start + CHUNK_WIDTH && 0 <= d < DEPTH_SLICES ==> #[trigger] surfaces_cover(*heights, x, d),
            local_x == cell_column(c as int),
            y == cell_row(c as int),
            depth == cell_slice(c as int),
            0 <= local_x < CHUNK_WIDTH,
            0 <= y < WORLD_HEIGHT,
            depth < DEPTH_SLICES,
            x == start + local_x,
            variant == texture_variant(seed, x as int, y as int, state, depth as int),
            out@ == before + cell_faces(*grid, seed, *heights, *light, start as int, c as int, state, f as nat),
        decreases 6 - f,
    {
        let face = face_at(f);
        let (dx, dy, dd) = face.neighbor();
        let shown = match rendered_voxel_at(grid, seed, heights, x + dx as i64, y + dy, depth as i32 + dd) {
            Some(neighbour) => neighbour == BlockState::TORCH,
            None => true,
        };
        if shown {
            let quad = FaceQuad {
                local_x,
                y,
                depth,
                state,
                variant,
                face,
                light: face_light_at(grid, seed, heights, light, x, y, depth, face),
            };
            out.push(quad);
            proof {
                assert(out@ =~= before + cell_faces(*grid, seed, *heights, *light, start as int, c as int, state, (f + 1) as nat));
            }
        }
        f += 1;
    }
}

/// The faces and torch cards of chunk `global_chunk_x`. Each cell of the chunk's columns, in
/// every depth slice, is read from the playable layer where its chunk is loaded and from the
/// generator elsewhere; a block shows each face whose neighbouring cell is empty or holds a
/// floor torch, lit by [`face_light`], with a texture variant picked by [`texture_variant`].
/// Leaves go to the cut-out faces, other blocks to the opaque ones, and a floor torch of the
/// playable layer becomes a card; torches elsewhere are not drawn.
pub fn chunk_faces(
    view: &WorldView<'_>,
    global_chunk_x: i64,
    seed: u64,
    heights: &SurfaceHeights,
    light: &LightVolume,
) -> (result: ChunkFaces)
    requires
        view.grid.wf(),
        light.wf(),
        chunk_columns_covered(global_chunk_x, *heights),
    ensures
        result.opaque@ == opaque_faces(
            *view.grid,
            seed,
            *heights,
            *light,
            global_chunk_x * CHUNK_WIDTH,
            chunk_cells() as nat,
        ),
        result.cutout@ == cutout_faces(
            *view.grid,
            seed,
            *heights,
            *light,
            global_chunk_x * CHUNK_WIDTH,
            chunk_cells() as nat,
        ),
        result.torches@ == torch_cards(*view.grid, seed, *heights, global_chunk_x * CHUNK_WIDTH, chunk_cells() as nat),
{
    let grid = view.grid;
    let start = global_chunk_x * CHUNK_WIDTH as i64;
    let mut opaque: Vec<FaceQuad> = Vec::new();
    let mut cutout: Vec<FaceQuad> = Vec::new();
    let mut torches: Vec<TorchQuad> = Vec::new();
    let mut c: usize = 0;
    while c < 15360
        invariant
            c <= chunk_cells(),
            grid.wf(),
            light.wf(),
            start == global_chunk_x * CHUNK_WIDTH,
            i64::MIN + 3 <= start,
            start + CHUNK_WIDTH + 3 <= i64::MAX,
            forall|x: int, d: int|
                start - 1 <= x <= start + CHUNK_WIDTH && 0 <= d < DEPTH_SLICES ==> #[trigger] surfaces_cover(*heights, x, d),
            opaque@ == opaque_faces(*grid, seed, *heights, *light, start as int, c as nat),
            cutout@ == cutout_faces(*grid, seed, *heights, *light, start as int, c as nat),
            torches@ == torch_cards(*grid, seed, *heights, start as int, c as nat),
        decreases 15360 - c,
    {
        let local_x = (c / 480) as i32;
        let y = ((c / 6) % 80) as i32;
        let depth = (c % 6) as u8;
        let x = start + local_x as i64;
        match rendered_voxel_at(grid, seed, heights, x, y, depth as i32) {
            None => {},
            Some(state) => {
                let variant = (stable_hash(seed, x, y, state.id().value() as u64 + depth as u64 * 97) % 3) as u32;
                if state == BlockState::TORCH {
                    if depth == 0 {
                        torches.push(TorchQuad { local_x, y, variant });
                    }
                } else if state == BlockState::LEAVES {
                    push_cell_faces(&mut cutout, grid, seed, heights, light, start, c, state, variant);
                } else {
                    push_cell_faces(&mut opaque, grid, seed, heights, light, start, c, state, variant);
                }
            },
        }
        c += 1;
    }
    ChunkFaces { opaque, cutout, torches }
}


/// A row of the playable layer blocked by solid blocks from column `start` up to, not
/// including, column `end`, both within the chunk.
#[derive(Debug, Clone, Copy, PartialEq, Eq, Structural)]
pub struct SolidRun {
    pub y: i32,
    pub start: i32,
    pub end: i32,
}

/// Whether the playable layer holds a solid block at a column of the chunk starting at
/// column `chunk_start`; the column just past the chunk never does.
pub open spec fn solid_at(grid: BlockGrid, chunk_start: int, local_x: int, y: int) -> bool {
    &&& 0 <= local_x < CHUNK_WIDTH
    &&& grid.cell_at(VoxelPos { global_x: (chunk_start + local_x) as i64, y: y as i32, layer: VoxelLayer::Foreground })
        matches VoxelCell::Block(state) && id_def(state_id(state)).solid
}

/// Whether `run` is a maximal run of solid blocks in a row of the chunk.
pub open spec fn is_solid_run(grid: BlockGrid, chunk_start: int, run: SolidRun) -> bool {
    &&& 0 <= run.y < WORLD_HEIGHT
    &&& 0 <= run.start < run.end <= CHUNK_WIDTH
    &&& forall|k: int| run.start <= k < run.end ==> #[trigger] solid_at(grid, chunk_start, k, run.y as int)
    &&& (run.start == 0 || !solid_at(grid, chunk_start, run.start - 1, run.y as int))
    &&& !solid_at(grid, chunk_start, run.end as int, run.y as int)
}

/// Whether `a` comes before `b`: by row, then by first column.
pub open spec fn run_before(a: SolidRun, b: SolidRun) -> bool {
    a.y < b.y || (a.y == b.y && a.start < b.start)
}

/// Whether the column is solid.
fn solid_column(grid: &BlockGrid, chunk_start: i64, local_x: i32, y: i32) -> (result: bool)
    requires
        grid.wf(),
        0 <= local_x <= CHUNK_WIDTH,
        i64::MIN <= chunk_start,
        chunk_start + CHUNK_WIDTH <= i64::MAX,
    ensures
        result == solid_at(*grid, chunk_start as int, local_x as int, y as int),
{
    if local_x >= CHUNK_WIDTH {
        return false;
    }
    match grid.block(VoxelPos::foreground(chunk_start + local_x as i64, y)) {
        Some(state) => state.def().solid,
        None => false,
    }
}

/// The shape of a chunk's collider: every maximal run of solid blocks of the playable layer,
/// row by row from the bottom, left to right within a row. A chunk that is not loaded, or has
/// no solid block, has none.
pub fn solid_runs(view: &WorldView<'_>, chunk_x: i64) -> (result: Vec<SolidRun>)
    requires
        view.grid.wf(),
        representable(chunk_x as int),
    ensures
        forall|i: int| 0 <= i < result@.len() ==> is_solid_run(*view.grid, chunk_x * CHUNK_WIDTH, #[trigger] result@[i]),
        forall|run: SolidRun| is_solid_run(*view.grid, chunk_x * CHUNK_WIDTH, run) ==> #[trigger] result@.contains(run),
        forall|i: int, j: int| 0 <= i < j < result@.len() ==> run_before(#[trigger] result@[i], #[trigger] result@[j]),
{
    let grid = view.grid;
    let start_x = chunk_x * CHUNK_WIDTH as i64;
    let ghost cs = start_x as int;
    let mut runs: Vec<SolidRun> = Vec::new();
    for y in 0..WORLD_HEIGHT
        invariant
            grid.wf(),
            cs == start_x,
            cs == chunk_x * CHUNK_WIDTH,
            i64::MIN <= start_x,
            start_x + CHUNK_WIDTH <= i64::MAX,
            forall|i: int| 0 <= i < runs@.len() ==> is_solid_run(*grid, cs, #[trigger] runs@[i]) && runs@[i].y < y,
            forall|run: SolidRun| is_solid_run(*grid, cs, run) && run.y < y ==> #[trigger] runs@.contains(run),
            forall|i: int, j: int| 0 <= i < j < runs@.len() ==> run_before(#[trigger] runs@[i], #[trigger] runs@[j]),
    {
        let mut run_start: Option<i32> = None;
        let ghost row_begin = runs@.len();
        for local_x in 0..CHUNK_WIDTH + 1
            invariant
                grid.wf(),
                cs == start_x,
                i64::MIN <= start_x,
                start_x + CHUNK_WIDTH <= i64::MAX,
                0 <= y < WORLD_HEIGHT,
                row_begin <= runs@.len(),
                forall|i: int| 0 <= i < row_begin ==> is_solid_run(*grid, cs, #[trigger] runs@[i]) && runs@[i].y < y,
                forall|i: int|
                    row_begin <= i < runs@.len() ==> is_solid_run(*grid, cs, #[trigger] runs@[i]) && runs@[i].y == y
                        && runs@[i].end < local_x,
                forall|run: SolidRun|
                    is_solid_run(*grid, cs, run) && (run.y < y || (run.y == y && run.end < local_x)) ==> #[trigger] runs@.contains(
                        run,
                    ),
                forall|i: int, j: int| 0 <= i < j < runs@.len() ==> run_before(#[trigger] runs@[i], #[trigger] runs@[j]),
                match run_start {
                    Some(s) => {
                        &&& 0 <= s < local_x
                        &&& forall|k: int| s <= k < local_x ==> #[trigger] solid_at(*grid, cs, k, y as int)
                        &&& (s == 0 || !solid_at(*grid, cs, s - 1, y as int))
                    },
                    None => local_x == 0 || !solid_at(*grid, cs, local_x - 1, y as int),
                },
        {
            let solid = solid_column(grid, start_x, local_x, y);
            match run_start {
                None => {
                    if solid {
                        run_start = Some(local_x);
                    }
                },
                Some(s) => {
                    if !solid {
                        let run = SolidRun { y, start: s, end: local_x };
                        proof {
                            assert(is_solid_run(*grid, cs, run));
                            assert forall|i: int| 0 <= i < runs@.len() implies run_before(runs@[i], run) by {
                                if i >= row_begin {
                                    assert(!solid_at(*grid, cs, runs@[i].end as int, y as int));
                                }
                            }
                        }
                        let ghost old_runs = runs@;
                        runs.push(run);
                        run_start = None;
                        proof {
                            assert forall|r: SolidRun|
                                is_solid_run(*grid, cs, r) && (r.y < y || (r.y == y && r.end < local_x + 1)) implies #[trigger] runs@.contains(
                                r,
                            ) by {
                                if r.y == y && r.end == local_x {
                                    if r.start < s {
                                        assert(solid_at(*grid, cs, s - 1, y as int));
                                    } else if r.start > s {
                                        assert(solid_at(*grid, cs, r.start - 1, y as int));
                                    }
                                    assert(r == run);
                                    assert(runs@[runs@.len() - 1] == run);
                                } else {
                                    assert(old_runs.contains(r));
                                    let i = choose|i: int| 0 <= i < old_runs.len() && old_runs[i] == r;
                                    assert(runs@[i] == r);
                                }
                            }
                        }
                    }
                },
            }
            proof {
                assert forall|r: SolidRun|
                    is_solid_run(*grid, cs, r) && (r.y < y || (r.y == y && r.end < local_x + 1)) implies #[trigger] runs@.contains(
                    r,
                ) by {
                    if r.y == y && r.end == local_x {
                        assert(!solid_at(*grid, cs, local_x as int, y as int));
                        assert(solid_at(*grid, cs, local_x - 1, y as int));
                    }
                }
            }
        }
        proof {
            assert forall|r: SolidRun| is_solid_run(*grid, cs, r) && r.y < y + 1 implies #[trigger] runs@.contains(r) by {
                assert(r.end < CHUNK_WIDTH + 1);
            }
        }
    }
    runs
}

} // verus!
