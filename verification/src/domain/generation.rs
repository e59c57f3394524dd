use vstd::prelude::*;

use crate::domain::block::{state_code, BlockState};
use crate::domain::world::{code_of, representable, BlockChunk, VoxelLayer};
use crate::domain::{CHUNK_AREA, CHUNK_WIDTH, DEPTH_SLICES, WORLD_HEIGHT};

verus! {

/// The terrain hash of a column and row: the seed, the column and the row are mixed with
/// odd multipliers, then finished with the SplitMix64 avalanche, all in wrapping arithmetic.
pub open spec fn hash_of(seed: u64, x: i64, y: i32, salt: u64) -> u64 {
    let v0 = seed ^ (x as u64).wrapping_mul(0x9e37_79b9_7f4a_7c15u64) ^ (y as i64 as u64).wrapping_mul(
        0xbf58_476d_1ce4_e5b9u64,
    ) ^ salt;
    let v1 = (v0 ^ (v0 >> 30u64)).wrapping_mul(0xbf58_476d_1ce4_e5b9u64);
    let v2 = (v1 ^ (v1 >> 27u64)).wrapping_mul(0x94d0_49bb_1331_11ebu64);
    v2 ^ (v2 >> 31u64)
}

/// The terrain hash of a cell of a depth slice: the slice is folded into the seed.
pub open spec fn hash3_of(seed: u64, x: i64, y: i32, depth: i32, salt: u64) -> u64 {
    hash_of(seed ^ (depth as i64 as u64).wrapping_mul(0xd6e8_feb8_6659_fd93u64), x, y, salt)
}

/// The deterministic terrain hash of column `x`, row `y` under `seed`, separated by `salt`.
pub fn stable_hash(seed: u64, x: i64, y: i32, salt: u64) -> (result: u64)
    ensures
        result == hash_of(seed, x, y, salt),
{
    let mut value = seed ^ (x as u64).wrapping_mul(0x9e37_79b9_7f4a_7c15) ^ (y as i64 as u64).wrapping_mul(
        0xbf58_476d_1ce4_e5b9,
    ) ^ salt;
    value = (value ^ (value >> 30)).wrapping_mul(0xbf58_476d_1ce4_e5b9);
    value = (value ^ (value >> 27)).wrapping_mul(0x94d0_49bb_1331_11eb);
    value ^ (value >> 31)
}

/// The terrain hash of a cell of depth slice `depth`.
pub fn stable_hash_3d(seed: u64, x: i64, y: i32, depth: i32, salt: u64) -> (result: u64)
    ensures
        result == hash3_of(seed, x, y, depth, salt),
{
    stable_hash(seed ^ (depth as i64 as u64).wrapping_mul(0xd6e8_feb8_6659_fd93), x, y, salt)
}

/// Whether a tree grows from column `x` of slice `depth`: never within four columns of the
/// world's centre, and otherwise where the column's hash is a multiple of 29.
pub open spec fn tree_root_at(seed: u64, x: int, depth: int) -> bool {
    &&& (x >= 5 || x <= -5)
    &&& hash3_of(seed, x as i64, 0, depth as i32, 313) % 29 == 0
}

fn tree_root(seed: u64, x: i64, depth: i32) -> (result: bool)
    ensures
        result == tree_root_at(seed, x as int, depth as int),
{
    (x >= 5 || x <= -5) && stable_hash_3d(seed, x, 0, depth, 313) % 29 == 0
}

/// The surface heights of a window of columns in several depth slices: row `d` holds slice
/// `d`, starting at column `first_x`.
#[derive(Debug, Clone, PartialEq, Eq)]
pub struct SurfaceHeights {
    pub first_x: i64,
    pub rows: Vec<Vec<i32>>,
}

impl SurfaceHeights {
    /// Whether the window holds the height of column `x` in slice `depth`.
    pub open spec fn covers(&self, x: int, depth: int) -> bool {
        &&& 0 <= depth < self.rows@.len()
        &&& self.first_x <= x < self.first_x + self.rows@[depth]@.len()
    }

    /// The height of column `x` in slice `depth`.
    pub open spec fn height(&self, x: int, depth: int) -> int {
        self.rows@[depth]@[x - self.first_x] as int
    }

    /// The height of column `x` in slice `depth`.
    pub fn at(&self, x: i64, depth: usize) -> (result: i32)
        requires
            self.covers(x as int, depth as int),
        ensures
            result == self.height(x as int, depth as int),
    {
        let row = &self.rows[depth];
        assert(row@.len() == row.len());
        let wide = x as i128 - self.first_x as i128;
        assert(0 <= wide < row.len());
        let offset = wide as usize;
        assert(offset == x - self.first_x);
        row[offset]
    }
}

/// Whether `heights` holds every surface height that generating column `x` of slice `depth`
/// reads (the column itself and every tree root whose canopy could reach it: two columns and
/// two slices either way), each within the generator's range `20..=58`.
pub open spec fn surfaces_cover(heights: SurfaceHeights, x: int, depth: int) -> bool {
    forall|rx: int, rd: int|
        x - 2 <= rx <= x + 2 && depth - 2 <= rd <= depth + 2 && 0 <= rd ==> #[trigger] heights.covers(rx, rd)
            && 20 <= heights.height(rx, rd) <= 58
}

pub open spec fn abs_int(v: int) -> int {
    if v < 0 {
        -v
    } else {
        v
    }
}

/// The block that tree root candidate `i` (of 25: slices `depth - 2..=depth + 2`, then columns
/// `x - 2..=x + 2`) puts at `(x, y)` above the surface: wood in the three cells of the trunk,
/// leaves in the canopy (within three steps of the cell above the trunk, from two to five cells
/// above the root's surface), otherwise nothing.
pub open spec fn root_candidate(seed: u64, x: int, y: int, depth: int, heights: SurfaceHeights, i: int) -> Option<
    BlockState,
> {
    let rd = depth - 2 + i / 5;
    let rx = x - 2 + i % 5;
    if rd < 0 || !tree_root_at(seed, rx, rd) {
        None
    } else {
        let root_y = heights.height(rx, rd) + 1;
        if x == rx && depth == rd && root_y <= y < root_y + 3 {
            Some(BlockState::WOOD)
        } else if abs_int(x - rx) + abs_int(depth - rd) + abs_int(y - (root_y + 3)) <= 3 && root_y + 2 <= y
            <= root_y + 5 {
            Some(BlockState::LEAVES)
        } else {
            None
        }
    }
}

/// The first tree block among candidates `i..25`.
pub open spec fn tree_block(seed: u64, x: int, y: int, depth: int, heights: SurfaceHeights, i: int) -> Option<
    BlockState,
>
    decreases 25 - i,
{
    if i >= 25 {
        None
    } else {
        match root_candidate(seed, x, y, depth, heights, i) {
            Some(block) => Some(block),
            None => tree_block(seed, x, y, depth, heights, i + 1),
        }
    }
}

/// The generated block at `(x, y)` of slice `depth`: nothing outside the world; above the
/// surface only trees; bedrock on row 0; grass on the surface and dirt down to four rows below
/// it; below that caves in some 4x4 cells (away from the bottom rows and the dirt), and
/// otherwise iron ore, coal ore or stone by the cell's ore hash and row.
pub open spec fn generated_block(seed: u64, x: i64, y: i32, depth: u8, heights: SurfaceHeights) -> Option<
    BlockState,
> {
    if !(0 <= y < WORLD_HEIGHT) || depth >= DEPTH_SLICES {
        None
    } else {
        let surface = heights.height(x as int, depth as int);
        if y > surface {
            tree_block(seed, x as int, y as int, depth as int, heights, 0)
        } else if y == 0 {
            Some(BlockState::BEDROCK)
        } else if y == surface {
            Some(BlockState::GRASS)
        } else if y >= surface - 4 {
            Some(BlockState::DIRT)
        } else if y > 4 && y < surface - 5 && hash3_of(seed, (x / 4) as i64, (y / 4) as i32, depth as i32, 401) % 1000
            < 105 {
            None
        } else {
            let ore = hash3_of(seed, x, y, depth as i32, 101) % 1000;
            if y < 28 && ore < 18 {
                Some(BlockState::IRON_ORE)
            } else if y < 36 && ore < 55 {
                Some(BlockState::COAL_ORE)
            } else {
                Some(BlockState::STONE)
            }
        }
    }
}

fn tree_block_at(seed: u64, x: i64, y: i32, depth: i32, heights: &SurfaceHeights) -> (result: Option<BlockState>)
    requires
        i64::MIN + 2 <= x <= i64::MAX - 2,
        0 <= y < WORLD_HEIGHT,
        0 <= depth < DEPTH_SLICES,
        surfaces_cover(*heights, x as int, depth as int),
    ensures
        result == tree_block(seed, x as int, y as int, depth as int, *heights, 0),
{
    let mut i: i32 = 0;
    while i < 25
        invariant
            0 <= i <= 25,
            i64::MIN + 2 <= x <= i64::MAX - 2,
            0 <= y < WORLD_HEIGHT,
            0 <= depth < DEPTH_SLICES,
            surfaces_cover(*heights, x as int, depth as int),
            tree_block(seed, x as int, y as int, depth as int, *heights, 0) == tree_block(
                seed,
                x as int,
                y as int,
                depth as int,
                *heights,
                i as int,
            ),
        decreases 25 - i,
    {
        let rd = depth - 2 + i / 5;
        let rx = x - 2 + (i % 5) as i64;
        if rd >= 0 && tree_root(seed, rx, rd) {
            proof {
                assert(heights.covers(rx as int, rd as int));
            }
            let root_y = heights.at(rx, rd as usize) + 1;
            if x == rx && depth == rd && root_y <= y && y < root_y + 3 {
                return Some(BlockState::WOOD);
            }
            let dx: i64 = if x >= rx {
                x - rx
            } else {
                rx - x
            };
            let dd: i32 = if depth >= rd {
                depth - rd
            } else {
                rd - depth
            };
            let dy: i32 = if y >= root_y + 3 {
                y - (root_y + 3)
            } else {
                root_y + 3 - y
            };
            if dx + dd as i64 + dy as i64 <= 3 && root_y + 2 <= y && y <= root_y + 5 {
                return Some(BlockState::LEAVES);
            }
        }
        i += 1;
    }
    None
}

/// Every one of the depth slices has a bedrock floor: row 0 generates bedrock wherever the
/// surface is known, and outside the rows or slices nothing generates.
pub proof fn lemma_bedrock_floor(seed: u64, x: i64, y: i32, depth: u8, heights: SurfaceHeights)
    ensures
        depth < DEPTH_SLICES && surfaces_cover(heights, x as int, depth as int) ==> generated_block(
            seed,
            x,
            0,
            depth,
            heights,
        ) == Some(BlockState::BEDROCK),
        !(0 <= y < WORLD_HEIGHT) || depth >= DEPTH_SLICES ==> generated_block(seed, x, y, depth, heights) is None,
{
    if depth < DEPTH_SLICES && surfaces_cover(heights, x as int, depth as int) {
        assert(heights.covers(x as int, depth as int));
    }
}

/// Trees are made of wood and leaves only.
proof fn lemma_tree_block_kinds(seed: u64, x: int, y: int, depth: int, heights: SurfaceHeights, i: int)
    ensures
        tree_block(seed, x, y, depth, heights, i) is None || tree_block(seed, x, y, depth, heights, i) == Some(
            BlockState::WOOD,
        ) || tree_block(seed, x, y, depth, heights, i) == Some(BlockState::LEAVES),
    decreases 25 - i,
{
    if i < 25 {
        lemma_tree_block_kinds(seed, x, y, depth, heights, i + 1);
    }
}

/// The surface layers: on a slice's surface row grass, down to four rows below it dirt (row 0
/// excepted, which is bedrock), and above it nothing but tree wood or leaves.
pub proof fn lemma_surface_layers(seed: u64, x: i64, y: i32, depth: u8, heights: SurfaceHeights)
    requires
        depth < DEPTH_SLICES,
        0 < y < WORLD_HEIGHT,
    ensures
        y == heights.height(x as int, depth as int) ==> generated_block(seed, x, y, depth, heights) == Some(
            BlockState::GRASS,
        ),
        heights.height(x as int, depth as int) - 4 <= y < heights.height(x as int, depth as int) ==> generated_block(
            seed,
            x,
            y,
            depth,
            heights,
        ) == Some(BlockState::DIRT),
        y > heights.height(x as int, depth as int) ==> generated_block(seed, x, y, depth, heights) is None
            || generated_block(seed, x, y, depth, heights) == Some(BlockState::WOOD) || generated_block(
            seed,
            x,
            y,
            depth,
            heights,
        ) == Some(BlockState::LEAVES),
{
    if y > heights.height(x as int, depth as int) {
        lemma_tree_block_kinds(seed, x as int, y as int, depth as int, heights, 0);
    }
}

/// Underground rock: between the bedrock and the dirt (more than four rows below the surface),
/// a cell that the cave hash carves out is empty; any other is iron ore below row 28 where its
/// ore hash (modulo 1000) is under 18, coal ore below row 36 where the ore hash is under 55 and
/// it is not iron, and stone everywhere else.
pub proof fn lemma_underground_rock(seed: u64, x: i64, y: i32, depth: u8, heights: SurfaceHeights)
    requires
        depth < DEPTH_SLICES,
        0 < y < WORLD_HEIGHT,
        y < heights.height(x as int, depth as int) - 4,
    ensures
        ({
            let ore = hash3_of(seed, x, y, depth as i32, 101) % 1000;
            let cave = 4 < y < heights.height(x as int, depth as int) - 5 && hash3_of(
                seed,
                (x / 4) as i64,
                (y / 4) as i32,
                depth as i32,
                401,
            ) % 1000 < 105;
            let block = generated_block(seed, x, y, depth, heights);
            &&& cave ==> block is None
            &&& !cave && y < 28 && ore < 18 ==> block == Some(BlockState::IRON_ORE)
            &&& !cave && y < 28 && 18 <= ore < 55 ==> block == Some(BlockState::COAL_ORE)
            &&& !cave && 28 <= y < 36 && ore < 55 ==> block == Some(BlockState::COAL_ORE)
            &&& !cave && (y >= 36 || ore >= 55) ==> block == Some(BlockState::STONE)
        }),
{
}

/// The generated block at `(x, y)` of depth slice `depth` (see `generated_block`), reading
/// surface heights from `heights`.
pub fn generated_voxel(seed: u64, x: i64, y: i32, depth: u8, heights: &SurfaceHeights) -> (result: Option<BlockState>)
    requires
        0 <= y < WORLD_HEIGHT && depth < DEPTH_SLICES ==> i64::MIN + 2 <= x <= i64::MAX - 2 && surfaces_cover(
            *heights,
            x as int,
            depth as int,
        ),
    ensures
        result == generated_block(seed, x, y, depth, *heights),
{
    if !(0 <= y && y < WORLD_HEIGHT) || depth >= DEPTH_SLICES {
        return None;
    }
    let depth_i32 = depth as i32;
    proof {
        assert(heights.covers(x as int, depth as int));
    }
    let surface = heights.at(x, depth as usize);
    if y > surface {
        return tree_block_at(seed, x, y, depth_i32, heights);
    }
    if y == 0 {
        return Some(BlockState::BEDROCK);
    }
    if y == surface {
        return Some(BlockState::GRASS);
    }
    if y >= surface - 4 {
        return Some(BlockState::DIRT);
    }
    let cell_x = x.checked_div_euclid(4).unwrap();
    let cell_y = y.checked_div_euclid(4).unwrap();
    let cave_cell = stable_hash_3d(seed, cell_x, cell_y, depth_i32, 401) % 1000;
    if y > 4 && y < surface - 5 && cave_cell < 105 {
        return None;
    }
    let ore = stable_hash_3d(seed, x, y, depth_i32, 101) % 1000;
    if y < 28 && ore < 18 {
        Some(BlockState::IRON_ORE)
    } else if y < 36 && ore < 55 {
        Some(BlockState::COAL_ORE)
    } else {
        Some(BlockState::STONE)
    }
}

/// The generated dense layer of chunk `chunk_x` in slice `depth`, row-major.
pub open spec fn generated_layer(seed: u64, chunk_x: i64, depth: u8, heights: SurfaceHeights) -> Seq<u8> {
    Seq::new(
        CHUNK_AREA as nat,
        |i: int|
            code_of(
                generated_block(
                    seed,
                    (chunk_x * CHUNK_WIDTH + i % CHUNK_WIDTH as int) as i64,
                    (i / CHUNK_WIDTH as int) as i32,
                    depth,
                    heights,
                ),
            ),
    )
}

/// Whether chunk `chunk_x` can be generated: it is representable and its columns are more
/// than two columns away from the ends of the `i64` range.
pub open spec fn generation_reachable(chunk_x: int) -> bool {
    &&& representable(chunk_x)
    &&& i64::MIN + 2 <= chunk_x * CHUNK_WIDTH
    &&& chunk_x * CHUNK_WIDTH + CHUNK_WIDTH + 2 <= i64::MAX
}

/// Whether `heights` holds every surface height that generating chunk `chunk_x` reads for its
/// foreground (slice 0) and backwall (slice 1).
pub open spec fn surfaces_cover_chunk(heights: SurfaceHeights, chunk_x: int) -> bool {
    forall|x: int, d: int|
        chunk_x * CHUNK_WIDTH <= x < chunk_x * CHUNK_WIDTH + CHUNK_WIDTH && 0 <= d <= 1 ==> #[trigger] surfaces_cover(
            heights,
            x,
            d,
        )
}

fn generate_layer(seed: u64, chunk_x: i64, depth: u8, heights: &SurfaceHeights) -> (result: Vec<u8>)
    requires
        generation_reachable(chunk_x as int),
        depth <= 1,
        surfaces_cover_chunk(*heights, chunk_x as int),
    ensures
        result@ == generated_layer(seed, chunk_x, depth, *heights),
{
    let start_x = chunk_x * 32;
    let mut codes: Vec<u8> = Vec::new();
    let mut y: i32 = 0;
    while y < WORLD_HEIGHT
        invariant
            0 <= y <= WORLD_HEIGHT,
            generation_reachable(chunk_x as int),
            depth <= 1,
            start_x == chunk_x * 32,
            surfaces_cover_chunk(*heights, chunk_x as int),
            codes@.len() == y * 32,
            forall|i: int| 0 <= i < codes@.len() ==> codes@[i] == #[trigger] generated_layer(seed, chunk_x, depth, *heights)[i],
        decreases WORLD_HEIGHT - y,
    {
        let mut local_x: i32 = 0;
        while local_x < CHUNK_WIDTH
            invariant
                0 <= y < WORLD_HEIGHT,
                0 <= local_x <= CHUNK_WIDTH,
                generation_reachable(chunk_x as int),
                depth <= 1,
                start_x == chunk_x * 32,
                surfaces_cover_chunk(*heights, chunk_x as int),
                codes@.len() == y * 32 + local_x,
                forall|i: int| 0 <= i < codes@.len() ==> codes@[i] == #[trigger] generated_layer(seed, chunk_x, depth, *heights)[i],
            decreases CHUNK_WIDTH - local_x,
        {
            let world_x = start_x + local_x as i64;
            proof {
                assert(surfaces_cover(*heights, world_x as int, depth as int));
            }
            let code = match generated_voxel(seed, world_x, y, depth, heights) {
                Some(state) => state.code(),
                None => 0,
            };
            proof {
                let i = y * 32 + local_x;
                assert(i % 32 == local_x as int);
                assert(i / 32 == y as int);
                assert(code == generated_layer(seed, chunk_x, depth, *heights)[i]);
            }
            codes.push(code);
            local_x += 1;
        }
        y += 1;
    }
    proof {
        assert(codes@ =~= generated_layer(seed, chunk_x, depth, *heights));
    }
    codes
}

/// Generates chunk `chunk_x` from the seed: its foreground is depth slice 0 and its backwall
/// depth slice 1 of the generated terrain.
pub fn generate_chunk(seed: u64, chunk_x: i64, heights: &SurfaceHeights) -> (result: BlockChunk)
    requires
        generation_reachable(chunk_x as int),
        surfaces_cover_chunk(*heights, chunk_x as int),
    ensures
        result.wf(),
        result.spec_x() == chunk_x,
        result.spec_codes(VoxelLayer::Foreground) == generated_layer(seed, chunk_x, 0, *heights),
        result.spec_codes(VoxelLayer::Backwall) == generated_layer(seed, chunk_x, 1, *heights),
{
    let foreground = generate_layer(seed, chunk_x, 0, heights);
    let backwall = generate_layer(seed, chunk_x, 1, heights);
    proof {
        assert forall|i: int| 0 <= i < foreground@.len() implies crate::domain::world::valid_code(
            #[trigger] foreground@[i],
        ) by {
            if let Some(state) = generated_block(
                seed,
                (chunk_x * CHUNK_WIDTH + i % CHUNK_WIDTH as int) as i64,
                (i / CHUNK_WIDTH as int) as i32,
                0,
                *heights,
            ) {
                crate::domain::block::lemma_code_round_trip(state, 0);
            }
        }
        assert forall|i: int| 0 <= i < backwall@.len() implies crate::domain::world::valid_code(
            #[trigger] backwall@[i],
        ) by {
            if let Some(state) = generated_block(
                seed,
                (chunk_x * CHUNK_WIDTH + i % CHUNK_WIDTH as int) as i64,
                (i / CHUNK_WIDTH as int) as i32,
                1,
                *heights,
            ) {
                crate::domain::block::lemma_code_round_trip(state, 0);
            }
        }
    }
    match BlockChunk::from_dense(chunk_x, foreground, backwall) {
        Some(chunk) => chunk,
        None => {
            proof {
                assert(false);
            }
            BlockChunk::from_dense(chunk_x, Vec::new(), Vec::new()).unwrap()
        },
    }
}

} // verus!
