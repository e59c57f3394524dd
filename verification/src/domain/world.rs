use std::collections::HashMap;
use vstd::prelude::*;

use crate::domain::block::{state_from_code, BlockState};
use crate::domain::{CHUNK_AREA, CHUNK_WIDTH, WORLD_HEIGHT};

verus! {

/// The two persistent block layers of a column.
#[derive(Debug, Clone, Copy, Default, PartialEq, Eq, Structural, Hash, PartialOrd, Ord)]
pub enum VoxelLayer {
    #[default]
    Foreground,
    Backwall,
}

/// A block cell in global coordinates.
#[derive(Debug, Clone, Copy, PartialEq, Eq, Structural, Hash, PartialOrd, Ord)]
pub struct VoxelPos {
    pub global_x: i64,
    pub y: i32,
    pub layer: VoxelLayer,
}

/// What a position of the world holds, as far as the loaded chunks know.
#[derive(Debug, Clone, Copy, PartialEq, Eq, Structural)]
pub enum VoxelCell {
    OutOfBounds,
    Unloaded,
    Air,
    Block(BlockState),
}

/// One layer of one chunk.
#[derive(Debug, Clone, Copy, PartialEq, Eq, Structural, Hash, PartialOrd, Ord)]
pub struct ChunkLayer {
    pub chunk_x: i64,
    pub layer: VoxelLayer,
}

/// The chunk that holds global column `x` (floor division by the chunk width).
pub open spec fn chunk_of(x: int) -> int {
    x / (CHUNK_WIDTH as int)
}

/// The column of global column `x` within its chunk.
pub open spec fn local_of(x: int) -> int {
    x % (CHUNK_WIDTH as int)
}

/// Whether every global column of the chunk fits in an `i64`, one past its last column included.
pub open spec fn representable(chunk_x: int) -> bool {
    i64::MIN <= chunk_x * (CHUNK_WIDTH as int) && chunk_x * (CHUNK_WIDTH as int) + (CHUNK_WIDTH as int)
        <= i64::MAX
}

/// Where a cell of a chunk lies in a dense layer array: row-major, `CHUNK_WIDTH` cells per row.
pub open spec fn cell_index(local_x: int, y: int) -> int {
    y * (CHUNK_WIDTH as int) + local_x
}

/// Whether a dense code is air (`0`) or the code of a block state.
pub open spec fn valid_code(code: u8) -> bool {
    code <= 11
}

/// The persistent depth of a layer.
pub open spec fn layer_depth(layer: VoxelLayer) -> u8 {
    match layer {
        VoxelLayer::Foreground => 0,
        VoxelLayer::Backwall => 1,
    }
}

impl VoxelLayer {
    /// Both persistent layers, foreground first.
    pub const ALL: [VoxelLayer; 2] = [VoxelLayer::Foreground, VoxelLayer::Backwall];

    /// The depth slice this layer occupies.
    pub fn depth(self) -> (result: u8)
        ensures
            result == layer_depth(self),
    {
        match self {
            VoxelLayer::Foreground => 0,
            VoxelLayer::Backwall => 1,
        }
    }

    /// The layer stored under a persistent depth; only `0` and `1` are layers.
    pub fn from_persistent_depth(depth: u8) -> (result: Option<VoxelLayer>)
        ensures
            result == (if depth == 0 {
                Some(VoxelLayer::Foreground)
            } else if depth == 1 {
                Some(VoxelLayer::Backwall)
            } else {
                None::<VoxelLayer>
            }),
            result matches Some(layer) ==> layer_depth(layer) == depth,
    {
        match depth {
            0 => Some(VoxelLayer::Foreground),
            1 => Some(VoxelLayer::Backwall),
            _ => None,
        }
    }
}

impl VoxelPos {
    pub fn new(global_x: i64, y: i32, layer: VoxelLayer) -> (result: VoxelPos)
        ensures
            result == (VoxelPos { global_x, y, layer }),
    {
        VoxelPos { global_x, y, layer }
    }

    pub fn foreground(global_x: i64, y: i32) -> (result: VoxelPos)
        ensures
            result == (VoxelPos { global_x, y, layer: VoxelLayer::Foreground }),
    {
        VoxelPos::new(global_x, y, VoxelLayer::Foreground)
    }

    pub fn backwall(global_x: i64, y: i32) -> (result: VoxelPos)
        ensures
            result == (VoxelPos { global_x, y, layer: VoxelLayer::Backwall }),
    {
        VoxelPos::new(global_x, y, VoxelLayer::Backwall)
    }
}

impl ChunkLayer {
    pub fn new(chunk_x: i64, layer: VoxelLayer) -> (result: ChunkLayer)
        ensures
            result == (ChunkLayer { chunk_x, layer }),
    {
        ChunkLayer { chunk_x, layer }
    }

    pub fn foreground(chunk_x: i64) -> (result: ChunkLayer)
        ensures
            result == (ChunkLayer { chunk_x, layer: VoxelLayer::Foreground }),
    {
        ChunkLayer::new(chunk_x, VoxelLayer::Foreground)
    }

    pub fn backwall(chunk_x: i64) -> (result: ChunkLayer)
        ensures
            result == (ChunkLayer { chunk_x, layer: VoxelLayer::Backwall }),
    {
        ChunkLayer::new(chunk_x, VoxelLayer::Backwall)
    }
}

/// The chunk that holds global column `world_x`, with floor division so that negative columns
/// fall into negative chunks.
pub fn world_to_chunk(world_x: i64) -> (result: i64)
    ensures
        result == chunk_of(world_x as int),
{
    world_x.checked_div_euclid(CHUNK_WIDTH as i64).unwrap()
}

/// The column of `world_x` within its chunk, in `0..CHUNK_WIDTH`.
pub fn world_to_local(world_x: i64) -> (result: i32)
    ensures
        result == local_of(world_x as int),
        0 <= result < CHUNK_WIDTH,
{
    world_x.checked_rem_euclid(CHUNK_WIDTH as i64).unwrap() as i32
}

/// Whether chunk `chunk_x` can be addressed in global block columns: its first column and the
/// column just past its last one both fit in an `i64`.
pub fn chunk_is_representable(chunk_x: i64) -> (result: bool)
    ensures
        result == representable(chunk_x as int),
{
    match chunk_x.checked_mul(CHUNK_WIDTH as i64) {
        None => false,
        Some(start) => start.checked_add(CHUNK_WIDTH as i64).is_some(),
    }
}

/// The dense array position of a cell.
fn chunk_index(local_x: i32, y: i32) -> (result: usize)
    requires
        0 <= local_x < CHUNK_WIDTH,
        0 <= y < WORLD_HEIGHT,
    ensures
        result == cell_index(local_x as int, y as int),
        result < CHUNK_AREA,
{
    (y * CHUNK_WIDTH + local_x) as usize
}

/// The blocks of one chunk: two dense layers of `CHUNK_AREA` codes each, row-major.
#[derive(Debug, Clone, PartialEq, Eq)]
pub struct BlockChunk {
    x: i64,
    foreground: Vec<u8>,
    backwall: Vec<u8>,
}

impl BlockChunk {
    /// The global coordinate of the chunk.
    pub closed spec fn spec_x(&self) -> i64 {
        self.x
    }

    /// The dense codes of one layer.
    pub closed spec fn spec_codes(&self, layer: VoxelLayer) -> Seq<u8> {
        match layer {
            VoxelLayer::Foreground => self.foreground@,
            VoxelLayer::Backwall => self.backwall@,
        }
    }

    /// A chunk is well formed when it is representable and both layers are full arrays of air
    /// and block codes.
    pub open spec fn wf(&self) -> bool {
        &&& representable(self.spec_x() as int)
        &&& self.spec_codes(VoxelLayer::Foreground).len() == CHUNK_AREA
        &&& self.spec_codes(VoxelLayer::Backwall).len() == CHUNK_AREA
        &&& forall|i: int|
            0 <= i < CHUNK_AREA ==> valid_code(#[trigger] self.spec_codes(VoxelLayer::Foreground)[i])
        &&& forall|i: int|
            0 <= i < CHUNK_AREA ==> valid_code(#[trigger] self.spec_codes(VoxelLayer::Backwall)[i])
    }

    /// The block at a cell of this chunk; `None` is air.
    pub open spec fn state_at(&self, local_x: int, y: int, layer: VoxelLayer) -> Option<BlockState> {
        state_from_code(self.spec_codes(layer)[cell_index(local_x, y)] as int)
    }

    /// Builds a chunk from dense layer arrays. `None` when the chunk is not representable, a
    /// layer does not hold exactly `CHUNK_AREA` codes, or a code is neither air nor a block.
    pub fn from_dense(chunk_x: i64, foreground: Vec<u8>, backwall: Vec<u8>) -> (result: Option<
        BlockChunk,
    >)
        ensures
            result is Some <==> (representable(chunk_x as int) && foreground@.len() == CHUNK_AREA
                && backwall@.len() == CHUNK_AREA && (forall|i: int|
                0 <= i < foreground@.len() ==> valid_code(#[trigger] foreground@[i])) && (forall|
                i: int,
            |
                0 <= i < backwall@.len() ==> valid_code(#[trigger] backwall@[i]))),
            result matches Some(chunk) ==> {
                &&& chunk.wf()
                &&& chunk.spec_x() == chunk_x
                &&& chunk.spec_codes(VoxelLayer::Foreground) == foreground@
                &&& chunk.spec_codes(VoxelLayer::Backwall) == backwall@
            },
    {
        if !chunk_is_representable(chunk_x) || foreground.len() != CHUNK_AREA || backwall.len()
            != CHUNK_AREA {
            return None;
        }
        if !all_codes_valid(&foreground) || !all_codes_valid(&backwall) {
            return None;
        }
        Some(BlockChunk { x: chunk_x, foreground, backwall })
    }

    /// The global coordinate of the chunk.
    pub fn x(&self) -> (result: i64)
        ensures
            result == self.spec_x(),
    {
        self.x
    }

    /// The dense codes of one layer.
    pub fn blocks(&self, layer: VoxelLayer) -> (result: &[u8])
        ensures
            result@ == self.spec_codes(layer),
    {
        match layer {
            VoxelLayer::Foreground => self.foreground.as_slice(),
            VoxelLayer::Backwall => self.backwall.as_slice(),
        }
    }

    /// Whether two chunks hold the same coordinate and the same codes.
    pub open spec fn same_content(&self, other: &BlockChunk) -> bool {
        &&& self.spec_x() == other.spec_x()
        &&& self.spec_codes(VoxelLayer::Foreground) == other.spec_codes(VoxelLayer::Foreground)
        &&& self.spec_codes(VoxelLayer::Backwall) == other.spec_codes(VoxelLayer::Backwall)
    }

    /// A copy of this chunk.
    pub fn duplicate(&self) -> (result: BlockChunk)
        ensures
            result.same_content(self),
    {
        let foreground = self.foreground.clone();
        let backwall = self.backwall.clone();
        proof {
            assert(foreground@ =~= self.foreground@);
            assert(backwall@ =~= self.backwall@);
        }
        BlockChunk { x: self.x, foreground, backwall }
    }

    fn get(&self, local_x: i32, y: i32, layer: VoxelLayer) -> (result: Option<BlockState>)
        requires
            self.wf(),
            0 <= local_x < CHUNK_WIDTH,
            0 <= y < WORLD_HEIGHT,
        ensures
            result == self.state_at(local_x as int, y as int, layer),
    {
        let index = chunk_index(local_x, y);
        match layer {
            VoxelLayer::Foreground => BlockState::from_code(self.foreground[index]),
            VoxelLayer::Backwall => BlockState::from_code(self.backwall[index]),
        }
    }

    fn set(&mut self, local_x: i32, y: i32, layer: VoxelLayer, state: Option<BlockState>)
        requires
            old(self).wf(),
            0 <= local_x < CHUNK_WIDTH,
            0 <= y < WORLD_HEIGHT,
        ensures
            final(self).wf(),
            final(self).spec_x() == old(self).spec_x(),
            final(self).spec_codes(layer) == old(self).spec_codes(layer).update(
                cell_index(local_x as int, y as int),
                code_of(state),
            ),
            forall|other: VoxelLayer|
                other != layer ==> final(self).spec_codes(other) == old(self).spec_codes(other),
    {
        let index = chunk_index(local_x, y);
        let code = match state {
            Some(state) => state.code(),
            None => 0,
        };
        match layer {
            VoxelLayer::Foreground => self.foreground.set(index, code),
            VoxelLayer::Backwall => self.backwall.set(index, code),
        }
    }
}

/// The dense code of a cell's content: `0` for air.
pub open spec fn code_of(state: Option<BlockState>) -> u8 {
    match state {
        Some(state) => crate::domain::block::state_code(state),
        None => 0,
    }
}

/// Two positions with the same chunk, column within the chunk, row and layer are the same.
pub proof fn lemma_cell_coordinates(a: VoxelPos, b: VoxelPos)
    ensures
        (chunk_of(a.global_x as int) == chunk_of(b.global_x as int) && local_of(a.global_x as int)
            == local_of(b.global_x as int) && a.y == b.y && a.layer == b.layer) ==> a == b,
        0 <= local_of(a.global_x as int) < CHUNK_WIDTH,
{
}

/// Cells inside a chunk have indices inside its dense arrays, and distinct cells distinct ones.
pub proof fn lemma_cell_index_bounds(local_x: int, y: int)
    requires
        0 <= local_x < CHUNK_WIDTH,
        0 <= y < WORLD_HEIGHT,
    ensures
        0 <= cell_index(local_x, y) < CHUNK_AREA,
        forall|lx: int, yy: int|
            0 <= lx < CHUNK_WIDTH && 0 <= yy < WORLD_HEIGHT && #[trigger] cell_index(lx, yy)
                == cell_index(local_x, y) ==> lx == local_x && yy == y,
{
}

fn all_codes_valid(codes: &Vec<u8>) -> (result: bool)
    ensures
        result == (forall|i: int| 0 <= i < codes@.len() ==> valid_code(#[trigger] codes@[i])),
{
    let mut index: usize = 0;
    while index < codes.len()
        invariant
            index <= codes.len(),
            forall|i: int| 0 <= i < index ==> valid_code(#[trigger] codes@[i]),
        decreases codes.len() - index,
    {
        if codes[index] > 11 {
            return false;
        }
        index += 1;
    }
    true
}

} // verus!

verus! {

/// The loaded chunks of a world, keyed by global chunk coordinate.
#[derive(Debug)]
pub struct BlockGrid {
    height: i32,
    chunks: HashMap<i64, BlockChunk>,
}

/// What a cell holds when it can be read: `Some(None)` for air, `Some(Some(state))` for a block,
/// `None` when it is out of bounds or its chunk is not loaded.
pub open spec fn cell_contents(cell: VoxelCell) -> Option<Option<BlockState>> {
    match cell {
        VoxelCell::Air => Some(None),
        VoxelCell::Block(state) => Some(Some(state)),
        _ => None,
    }
}

impl BlockGrid {
    /// The number of rows of the world.
    pub closed spec fn spec_height(&self) -> i32 {
        self.height
    }

    /// The loaded chunks.
    pub closed spec fn spec_chunks(&self) -> Map<i64, BlockChunk> {
        self.chunks@
    }

    /// A grid is well formed when its height fits in a chunk and every loaded chunk is well
    /// formed and filed under its own coordinate.
    pub open spec fn wf(&self) -> bool {
        &&& self.spec_height() <= WORLD_HEIGHT
        &&& forall|k: i64| #[trigger]
            self.spec_chunks().contains_key(k) ==> self.spec_chunks()[k].wf()
                && self.spec_chunks()[k].spec_x() == k
    }

    /// What the grid holds at a position.
    pub open spec fn cell_at(&self, pos: VoxelPos) -> VoxelCell {
        let chunk_x = chunk_of(pos.global_x as int) as i64;
        if !(0 <= pos.y < self.spec_height()) {
            VoxelCell::OutOfBounds
        } else if !self.spec_chunks().contains_key(chunk_x) {
            VoxelCell::Unloaded
        } else {
            match self.spec_chunks()[chunk_x].state_at(
                local_of(pos.global_x as int),
                pos.y as int,
                pos.layer,
            ) {
                Some(state) => VoxelCell::Block(state),
                None => VoxelCell::Air,
            }
        }
    }

    /// The readable contents at a position; see [`cell_contents`].
    pub open spec fn contents_at(&self, pos: VoxelPos) -> Option<Option<BlockState>> {
        cell_contents(self.cell_at(pos))
    }

    /// An empty grid of the given height. Heights above `WORLD_HEIGHT` are not supported,
    /// because every chunk holds exactly `WORLD_HEIGHT` rows.
    pub fn new(height: i32) -> (result: BlockGrid)
        requires
            height <= WORLD_HEIGHT,
        ensures
            result.wf(),
            result.spec_height() == height,
            result.spec_chunks() == Map::<i64, BlockChunk>::empty(),
    {
        BlockGrid { height, chunks: HashMap::new() }
    }

    /// A read-only view of the grid.
    pub fn view(&self) -> (result: WorldView<'_>)
        ensures
            result.grid == self,
    {
        WorldView { grid: self }
    }

    /// The number of rows of the world.
    pub fn height(&self) -> (result: i32)
        ensures
            result == self.spec_height(),
    {
        self.height
    }

    /// What the grid holds at a position: out of bounds outside rows `0..height`, unloaded when
    /// the position's chunk is not loaded, and otherwise air or the stored block.
    pub fn cell(&self, position: VoxelPos) -> (result: VoxelCell)
        requires
            self.wf(),
        ensures
            result == self.cell_at(position),
    {
        if !(0 <= position.y && position.y < self.height) {
            return VoxelCell::OutOfBounds;
        }
        let chunk_x = world_to_chunk(position.global_x);
        match self.chunks.get(&chunk_x) {
            None => VoxelCell::Unloaded,
            Some(chunk) => {
                let local_x = world_to_local(position.global_x);
                match chunk.get(local_x, position.y, position.layer) {
                    Some(state) => VoxelCell::Block(state),
                    None => VoxelCell::Air,
                }
            },
        }
    }

    /// The block at a position; `None` for air, out of bounds and unloaded positions alike.
    pub fn block(&self, position: VoxelPos) -> (result: Option<BlockState>)
        requires
            self.wf(),
        ensures
            result == (match self.cell_at(position) {
                VoxelCell::Block(state) => Some(state),
                _ => None::<BlockState>,
            }),
    {
        match self.cell(position) {
            VoxelCell::Block(state) => Some(state),
            _ => None,
        }
    }

    /// Whether the chunk column of `chunk` is loaded. Both layers load together, so the layer
    /// does not matter.
    pub fn contains_chunk(&self, chunk: ChunkLayer) -> (result: bool)
        ensures
            result == self.spec_chunks().contains_key(chunk.chunk_x),
    {
        self.chunks.contains_key(&chunk.chunk_x)
    }

    /// Whether a loaded chunk stores block `state` at `position` of `layer`, whatever the
    /// grid's height.
    pub open spec fn stores(&self, layer: VoxelLayer, position: VoxelPos, state: BlockState) -> bool {
        let chunk_x = chunk_of(position.global_x as int) as i64;
        &&& position.layer == layer
        &&& 0 <= position.y < WORLD_HEIGHT
        &&& self.spec_chunks().contains_key(chunk_x)
        &&& self.spec_chunks()[chunk_x].state_at(local_of(position.global_x as int), position.y as int, layer)
            == Some(state)
    }

    /// Every block that the loaded chunks store in `layer`, each position once, chunk by chunk
    /// in no particular order of chunks and row-major within a chunk.
    pub fn iter_layer(&self, layer: VoxelLayer) -> (result: Vec<(VoxelPos, BlockState)>)
        requires
            self.wf(),
        ensures
            forall|i: int| 0 <= i < result@.len() ==> self.stores(layer, #[trigger] result@[i].0, result@[i].1),
            forall|p: VoxelPos, s: BlockState| #[trigger] self.stores(layer, p, s) ==> result@.contains((p, s)),
            forall|i: int, j: int| 0 <= i < j < result@.len() ==> #[trigger] result@[i].0 != #[trigger] result@[j].0,
    {
        let keys = self.loaded_chunks();
        let mut out: Vec<(VoxelPos, BlockState)> = Vec::new();
        let mut k: usize = 0;
        while k < keys.len()
            invariant
                self.wf(),
                keys@.to_set() == self.spec_chunks().dom(),
                keys@.no_duplicates(),
                k <= keys@.len(),
                forall|i: int| 0 <= i < out@.len() ==> self.stores(layer, #[trigger] out@[i].0, out@[i].1),
                forall|i: int|
                    #![trigger out@[i]]
                    0 <= i < out@.len() ==> exists|kk: int|
                        0 <= kk < k && #[trigger] keys@[kk] == chunk_of(out@[i].0.global_x as int),
                forall|p: VoxelPos, s: BlockState|
                    #[trigger] self.stores(layer, p, s) && (exists|kk: int|
                        0 <= kk < k && #[trigger] keys@[kk] == chunk_of(p.global_x as int)) ==> out@.contains((p, s)),
                forall|i: int, j: int| 0 <= i < j < out@.len() ==> #[trigger] out@[i].0 != #[trigger] out@[j].0,
            decreases keys@.len() - k,
        {
            let chunk_x = keys[k];
            proof {
                assert(keys@.to_set().contains(chunk_x));
            }
            let chunk = self.chunks.get(&chunk_x).unwrap();
            let codes = chunk.blocks(layer);
            let base = chunk_x * 32;
            let ghost before = out@;
            let mut idx: usize = 0;
            while idx < CHUNK_AREA
                invariant
                    self.wf(),
                    keys@.to_set() == self.spec_chunks().dom(),
                    keys@.no_duplicates(),
                    k < keys@.len(),
                    chunk_x == keys@[k as int],
                    self.spec_chunks().contains_key(chunk_x),
                    *chunk == self.spec_chunks()[chunk_x],
                    codes@ == chunk.spec_codes(layer),
                    base == chunk_x * CHUNK_WIDTH,
                    idx <= CHUNK_AREA,
                    before.len() <= out@.len(),
                    forall|i: int| 0 <= i < before.len() ==> out@[i] == #[trigger] before[i],
                    forall|i: int| 0 <= i < out@.len() ==> self.stores(layer, #[trigger] out@[i].0, out@[i].1),
                    forall|i: int|
                        #![trigger before[i]]
                        0 <= i < before.len() ==> exists|kk: int|
                            0 <= kk < k && #[trigger] keys@[kk] == chunk_of(before[i].0.global_x as int),
                    forall|i: int|
                        before.len() <= i < out@.len() ==> chunk_of(#[trigger] out@[i].0.global_x as int) == chunk_x
                            && cell_index(local_of(out@[i].0.global_x as int), out@[i].0.y as int) < idx,
                    forall|p: VoxelPos, s: BlockState|
                        #[trigger] self.stores(layer, p, s) && (exists|kk: int|
                            0 <= kk < k && #[trigger] keys@[kk] == chunk_of(p.global_x as int)) ==> before.contains((p, s)),
                    forall|p: VoxelPos, s: BlockState|
                        #[trigger] self.stores(layer, p, s) && chunk_of(p.global_x as int) == chunk_x && cell_index(
                            local_of(p.global_x as int),
                            p.y as int,
                        ) < idx ==> out@.contains((p, s)),
                    forall|i: int, j: int| 0 <= i < j < out@.len() ==> #[trigger] out@[i].0 != #[trigger] out@[j].0,
                decreases CHUNK_AREA - idx,
            {
                let local_x = (idx % 32) as i64;
                let y = (idx / 32) as i32;
                let ghost mid = out@;
                let found = BlockState::from_code(codes[idx]);
                match found {
                    Some(state) => {
                        let position = VoxelPos::new(base + local_x, y, layer);
                        proof {
                            assert(chunk_of(position.global_x as int) == chunk_x);
                            assert(local_of(position.global_x as int) == local_x);
                            assert(cell_index(local_x as int, y as int) == idx);
                            assert(self.stores(layer, position, state));
                            assert forall|i: int| 0 <= i < out@.len() implies #[trigger] out@[i].0 != position by {
                                if i < before.len() {
                                    let kk = choose|kk: int| 0 <= kk < k && #[trigger] keys@[kk] == chunk_of(before[i].0.global_x as int);
                                    assert(keys@[kk] != keys@[k as int]);
                                    assert(out@[i] == before[i]);
                                }
                            }
                        }
                        out.push((position, state));
                    },
                    None => {},
                }
                proof {
                    assert forall|p: VoxelPos, s: BlockState|
                        #[trigger] self.stores(layer, p, s) && chunk_of(p.global_x as int) == chunk_x && cell_index(
                            local_of(p.global_x as int),
                            p.y as int,
                        ) < idx + 1 implies out@.contains((p, s)) by {
                        if cell_index(local_of(p.global_x as int), p.y as int) == idx {
                            assert(local_of(p.global_x as int) == idx % 32);
                            assert(p.y == idx / 32);
                            assert(p.global_x == base + local_x);
                            assert(codes@[idx as int] == chunk.spec_codes(layer)[cell_index(local_of(p.global_x as int), p.y as int)]);
                            assert(found == Some(s));
                            assert(out@[out@.len() - 1] == (p, s));
                        } else {
                            assert(mid.contains((p, s)));
                            let j = choose|j: int| 0 <= j < mid.len() && mid[j] == (p, s);
                            assert(out@[j] == mid[j]);
                        }
                    }
                }
                idx += 1;
            }
            proof {
                assert forall|p: VoxelPos, s: BlockState|
                    #[trigger] self.stores(layer, p, s) && (exists|kk: int|
                        0 <= kk < k + 1 && #[trigger] keys@[kk] == chunk_of(p.global_x as int)) implies out@.contains((p, s)) by {
                    if chunk_of(p.global_x as int) == chunk_x {
                        assert(cell_index(local_of(p.global_x as int), p.y as int) < CHUNK_AREA);
                    } else {
                        let kk = choose|kk: int| 0 <= kk < k + 1 && #[trigger] keys@[kk] == chunk_of(p.global_x as int);
                        assert(kk < k);
                        assert(before.contains((p, s)));
                        let j = choose|j: int| 0 <= j < before.len() && before[j] == (p, s);
                        assert(out@[j] == before[j]);
                    }
                }
                assert forall|i: int| #![trigger out@[i]] 0 <= i < out@.len() implies exists|kk: int|
                    0 <= kk < k + 1 && #[trigger] keys@[kk] == chunk_of(out@[i].0.global_x as int) by {
                    if i < before.len() {
                        assert(out@[i] == before[i]);
                    } else {
                        assert(keys@[k as int] == chunk_of(out@[i].0.global_x as int));
                    }
                }
            }
            k += 1;
        }
        proof {
            assert forall|p: VoxelPos, s: BlockState| #[trigger] self.stores(layer, p, s) implies out@.contains((p, s)) by {
                let c = chunk_of(p.global_x as int) as i64;
                assert(c as int == chunk_of(p.global_x as int));
                assert(self.spec_chunks().dom().contains(c));
                assert(keys@.to_set().contains(c));
                let kk = choose|kk: int| 0 <= kk < keys@.len() && keys@[kk] == c;
                assert(keys@[kk] == chunk_of(p.global_x as int));
                assert(exists|k2: int| 0 <= k2 < keys@.len() && #[trigger] keys@[k2] == chunk_of(p.global_x as int));
            }
        }
        out
    }

    /// The coordinates of the loaded chunks, each once, in no particular order.
    pub fn loaded_chunks(&self) -> (result: Vec<i64>)
        ensures
            result@.to_set() == self.spec_chunks().dom(),
            result@.no_duplicates(),
    {
        broadcast use vstd::std_specs::hash::group_hash_axioms;

        let ghost expected = vstd::std_specs::iter::IteratorSpec::remaining(&vstd::std_specs::hash::spec_keys_iter(&self.chunks));
        let mut out: Vec<i64> = Vec::new();
        for k in it: self.chunks.keys()
            invariant
                it.seq() == expected,
                out@ == expected.take(it.index()).map_values(|r: &i64| *r),
        {
            out.push(*k);
            proof {
                assert(out@ =~= expected.take(it.index() + 1).map_values(|r: &i64| *r));
            }
        }
        proof {
            assert(out@ =~= expected.map_values(|r: &i64| *r));
            assert(expected.map_values(|r: &i64| *r) =~= expected.unref());
        }
        out
    }

    /// Writes one readable cell.
    pub(crate) fn set_cell(&mut self, position: VoxelPos, state: Option<BlockState>)
        requires
            old(self).wf(),
            old(self).contents_at(position) is Some,
        ensures
            final(self).wf(),
            final(self).spec_height() == old(self).spec_height(),
            final(self).spec_chunks().dom() == old(self).spec_chunks().dom(),
            forall|p: VoxelPos|
                #[trigger] final(self).contents_at(p) == (if p == position {
                    Some(state)
                } else {
                    old(self).contents_at(p)
                }),
    {
        let chunk_x = world_to_chunk(position.global_x);
        let local_x = world_to_local(position.global_x);
        let ghost old_grid = *old(self);
        let removed = self.chunks.remove(&chunk_x);
        match removed {
            Some(mut chunk) => {
                let ghost before = chunk;
                chunk.set(local_x, position.y, position.layer, state);
                self.chunks.insert(chunk_x, chunk);
                proof {
                    assert forall|p: VoxelPos|
                        #[trigger] self.contents_at(p) == (if p == position {
                            Some(state)
                        } else {
                            old_grid.contents_at(p)
                        }) by {
                        lemma_cell_coordinates(p, position);
                        if p != position && 0 <= p.y < self.spec_height() && chunk_of(
                            p.global_x as int,
                        ) == chunk_x {
                            let i = cell_index(local_of(p.global_x as int), p.y as int);
                            let j = cell_index(local_x as int, position.y as int);
                            lemma_cell_index_bounds(local_of(p.global_x as int), p.y as int);
                            if p.layer == position.layer {
                                assert(i != j);
                            }
                        }
                    }
                    assert(self.spec_chunks().dom() =~= old_grid.spec_chunks().dom());
                }
            },
            None => {
                assert(false);
            },
        }
    }

    /// Files a well-formed chunk under its coordinate, replacing any chunk already there.
    pub(crate) fn insert_chunk(&mut self, chunk: BlockChunk)
        requires
            old(self).wf(),
            chunk.wf(),
        ensures
            final(self).wf(),
            final(self).spec_height() == old(self).spec_height(),
            final(self).spec_chunks() == old(self).spec_chunks().insert(chunk.spec_x(), chunk),
    {
        let ghost old_chunks = old(self).spec_chunks();
        let x = chunk.x;
        self.chunks.insert(x, chunk);
        proof {
            assert forall|k: i64| #[trigger] self.spec_chunks().contains_key(k) implies self.spec_chunks()[k].wf()
                && self.spec_chunks()[k].spec_x() == k by {
                if k != x {
                    assert(old_chunks.contains_key(k));
                }
            }
        }
    }

    /// Removes and returns a loaded chunk.
    pub(crate) fn remove_chunk(&mut self, chunk_x: i64) -> (result: Option<BlockChunk>)
        requires
            old(self).wf(),
        ensures
            final(self).wf(),
            final(self).spec_height() == old(self).spec_height(),
            final(self).spec_chunks() == old(self).spec_chunks().remove(chunk_x),
            result is Some <==> old(self).spec_chunks().contains_key(chunk_x),
            result matches Some(chunk) ==> chunk == old(self).spec_chunks()[chunk_x] && chunk.wf()
                && chunk.spec_x() == chunk_x,
    {
        let ghost old_chunks = old(self).spec_chunks();
        let result = self.chunks.remove(&chunk_x);
        proof {
            assert forall|k: i64| #[trigger] self.spec_chunks().contains_key(k) implies self.spec_chunks()[k].wf()
                && self.spec_chunks()[k].spec_x() == k by {
                assert(old_chunks.contains_key(k));
            }
            if result is Some {
                assert(old_chunks.contains_key(chunk_x));
            }
        }
        result
    }

    /// A copy of a loaded chunk.
    pub fn chunk_snapshot(&self, chunk_x: i64) -> (result: Option<BlockChunk>)
        requires
            self.wf(),
        ensures
            result is Some <==> self.spec_chunks().contains_key(chunk_x),
            result matches Some(chunk) ==> chunk.wf() && chunk.same_content(
                &self.spec_chunks()[chunk_x],
            ),
    {
        match self.chunks.get(&chunk_x) {
            Some(chunk) => Some(chunk.duplicate()),
            None => None,
        }
    }
}

/// A read-only view of a grid.
pub struct WorldView<'a> {
    pub grid: &'a BlockGrid,
}

impl<'a> WorldView<'a> {
    /// The number of rows of the world.
    pub fn height(&self) -> (result: i32)
        ensures
            result == self.grid.spec_height(),
    {
        self.grid.height()
    }

    /// See [`BlockGrid::cell`].
    pub fn cell(&self, position: VoxelPos) -> (result: VoxelCell)
        requires
            self.grid.wf(),
        ensures
            result == self.grid.cell_at(position),
    {
        self.grid.cell(position)
    }

    /// See [`BlockGrid::block`].
    pub fn block(&self, position: VoxelPos) -> (result: Option<BlockState>)
        requires
            self.grid.wf(),
        ensures
            result == (match self.grid.cell_at(position) {
                VoxelCell::Block(state) => Some(state),
                _ => None::<BlockState>,
            }),
    {
        self.grid.block(position)
    }

    /// See [`BlockGrid::contains_chunk`].
    pub fn contains_chunk(&self, chunk: ChunkLayer) -> (result: bool)
        ensures
            result == self.grid.spec_chunks().contains_key(chunk.chunk_x),
    {
        self.grid.contains_chunk(chunk)
    }

    /// The coordinates of the loaded chunks, each once, in no particular order.
    pub fn loaded_chunks(&self) -> (result: Vec<i64>)
        ensures
            result@.to_set() == self.grid.spec_chunks().dom(),
            result@.no_duplicates(),
    {
        self.grid.loaded_chunks()
    }

    /// See [`BlockGrid::iter_layer`].
    pub fn iter_layer(&self, layer: VoxelLayer) -> (result: Vec<(VoxelPos, BlockState)>)
        requires
            self.grid.wf(),
        ensures
            forall|i: int| 0 <= i < result@.len() ==> self.grid.stores(layer, #[trigger] result@[i].0, result@[i].1),
            forall|p: VoxelPos, s: BlockState| #[trigger] self.grid.stores(layer, p, s) ==> result@.contains((p, s)),
            forall|i: int, j: int| 0 <= i < j < result@.len() ==> #[trigger] result@[i].0 != #[trigger] result@[j].0,
    {
        self.grid.iter_layer(layer)
    }

    /// The columns the loaded chunks span: from the first column of the leftmost loaded chunk
    /// to just past the last column of the rightmost one; `None` when nothing is loaded.
    pub fn loaded_x_bounds(&self) -> (result: Option<(i64, i64)>)
        requires
            self.grid.wf(),
        ensures
            match result {
                None => self.grid.spec_chunks().dom() == Set::<i64>::empty(),
                Some((low, high)) => exists|first: i64, last: i64|
                    #![trigger self.grid.spec_chunks().contains_key(first), self.grid.spec_chunks().contains_key(last)]
                    self.grid.spec_chunks().contains_key(first) && self.grid.spec_chunks().contains_key(last)
                        && (forall|k: i64| #[trigger] self.grid.spec_chunks().contains_key(k) ==> first <= k <= last)
                        && low == first * CHUNK_WIDTH && high == (last + 1) * CHUNK_WIDTH,
            },
    {
        let keys = self.grid.loaded_chunks();
        if keys.len() == 0 {
            proof {
                assert forall|k: i64| !self.grid.spec_chunks().dom().contains(k) by {
                    if self.grid.spec_chunks().dom().contains(k) {
                        assert(keys@.to_set().contains(k));
                    }
                }
                assert(self.grid.spec_chunks().dom() =~= Set::<i64>::empty());
            }
            return None;
        }
        let mut first = keys[0];
        let mut last = keys[0];
        let mut i: usize = 1;
        while i < keys.len()
            invariant
                1 <= i <= keys@.len(),
                keys@.contains(first),
                keys@.contains(last),
                forall|j: int| 0 <= j < i ==> first <= #[trigger] keys@[j] <= last,
            decreases keys@.len() - i,
        {
            if keys[i] < first {
                first = keys[i];
            }
            if keys[i] > last {
                last = keys[i];
            }
            i += 1;
        }
        proof {
            assert(keys@.to_set().contains(first));
            assert(keys@.to_set().contains(last));
            assert forall|k: i64| #[trigger] self.grid.spec_chunks().contains_key(k) implies first <= k <= last by {
                assert(keys@.to_set().contains(k));
                let j = choose|j: int| 0 <= j < keys@.len() && keys@[j] == k;
                assert(first <= keys@[j] <= last);
            }
            assert(self.grid.spec_chunks()[first].wf() && self.grid.spec_chunks()[last].wf());
        }
        Some((first * 32, (last + 1) * 32))
    }

    /// Whether the player can stand on column `x`, row `y`: grass there with two rows of air
    /// above it in the foreground.
    pub open spec fn spawn_site(&self, x: int, y: int) -> bool {
        &&& self.grid.cell_at(VoxelPos { global_x: x as i64, y: y as i32, layer: VoxelLayer::Foreground })
            == VoxelCell::Block(BlockState::GRASS)
        &&& self.grid.cell_at(VoxelPos { global_x: x as i64, y: (y + 1) as i32, layer: VoxelLayer::Foreground })
            == VoxelCell::Air
        &&& self.grid.cell_at(VoxelPos { global_x: x as i64, y: (y + 2) as i32, layer: VoxelLayer::Foreground })
            == VoxelCell::Air
    }

    /// The column the spawn search visits at step `j`: the origin column, then alternately
    /// right and left of it, one column further every second step.
    pub open spec fn spawn_column(origin_x: int, j: int) -> int {
        if j % 2 == 0 {
            origin_x + j / 2
        } else {
            origin_x - j / 2
        }
    }

    /// The first step at which the spawn search visits the column `dx` from the origin.
    pub open spec fn spawn_step(dx: int) -> int {
        if dx >= 0 {
            2 * dx
        } else {
            -2 * dx + 1
        }
    }

    /// Whether the spawn search meets a site before step `j`, or at step `j` above row `y`.
    pub open spec fn spawn_site_before(&self, origin_x: int, j: int, y: int) -> bool {
        exists|jj: int, yy: int|
            0 <= jj <= j && 0 <= yy < self.grid.spec_height() - 2 && (jj < j || yy > y) && #[trigger] self.spawn_site(
                Self::spawn_column(origin_x, jj),
                yy,
            )
    }

    /// The first spawn site of the search around the first column of `origin_chunk`: the
    /// columns at distance `0` to `CHUNK_WIDTH - 1` (right before left), each from the top row
    /// that leaves two rows above it downwards. Returned as the column's offset from the first
    /// column of `origin_chunk` and the row; `None` when no visited cell is a site.
    pub fn safe_spawn_cell(&self, origin_chunk: i64) -> (result: Option<(i64, i32)>)
        requires
            self.grid.wf(),
            representable(origin_chunk as int),
            i64::MIN + CHUNK_WIDTH <= origin_chunk * CHUNK_WIDTH,
        ensures
            match result {
                Some((dx, y)) => {
                    &&& -CHUNK_WIDTH < dx < CHUNK_WIDTH
                    &&& 0 <= y < self.grid.spec_height() - 2
                    &&& self.spawn_site(origin_chunk * CHUNK_WIDTH + dx, y as int)
                    &&& self.grid.cell_at(
                        VoxelPos { global_x: (origin_chunk * CHUNK_WIDTH + dx) as i64, y, layer: VoxelLayer::Foreground },
                    ) == VoxelCell::Block(BlockState::GRASS)
                    &&& self.grid.cell_at(
                        VoxelPos {
                            global_x: (origin_chunk * CHUNK_WIDTH + dx) as i64,
                            y: (y + 1) as i32,
                            layer: VoxelLayer::Foreground,
                        },
                    ) == VoxelCell::Air
                    &&& self.grid.cell_at(
                        VoxelPos {
                            global_x: (origin_chunk * CHUNK_WIDTH + dx) as i64,
                            y: (y + 2) as i32,
                            layer: VoxelLayer::Foreground,
                        },
                    ) == VoxelCell::Air
                    &&& !self.spawn_site_before(origin_chunk * CHUNK_WIDTH, Self::spawn_step(dx as int), y as int)
                },
                None => !self.spawn_site_before(origin_chunk * CHUNK_WIDTH, 2 * CHUNK_WIDTH - 1, -1),
            },
    {
        let origin_x = origin_chunk * 32;
        let height = self.grid.height();
        let ghost origin = origin_x as int;
        let mut j: i64 = 0;
        while j < 64
            invariant
                0 <= j <= 64,
                self.grid.wf(),
                origin == origin_x,
                origin_x == origin_chunk * CHUNK_WIDTH,
                i64::MIN + CHUNK_WIDTH <= origin_x,
                origin_x + CHUNK_WIDTH <= i64::MAX,
                height == self.grid.spec_height(),
                !self.spawn_site_before(origin, j as int, self.grid.spec_height() as int),
            decreases 64 - j,
        {
            let x = if j % 2 == 0 {
                origin_x + j / 2
            } else {
                origin_x - j / 2
            };
            proof {
                assert(x == Self::spawn_column(origin, j as int));
            }
            let mut y: i32 = if height >= 2 {
                height - 3
            } else {
                -1
            };
            proof {
                assert forall|jj: int, yy: int|
                    0 <= jj <= j && 0 <= yy < self.grid.spec_height() - 2 && (jj < j || yy > y) implies !#[trigger] self.spawn_site(
                    Self::spawn_column(origin, jj),
                    yy,
                ) by {
                    assert(!self.spawn_site_before(origin, j as int, self.grid.spec_height() as int));
                }
            }
            while y >= 0
                invariant
                    0 <= j < 64,
                    self.grid.wf(),
                    origin == origin_x,
                    origin_x == origin_chunk * CHUNK_WIDTH,
                    i64::MIN + CHUNK_WIDTH <= origin_x,
                    origin_x + CHUNK_WIDTH <= i64::MAX,
                    height == self.grid.spec_height(),
                    height <= WORLD_HEIGHT,
                    -1 <= y,
                    y <= height - 3 || y == -1,
                    x == Self::spawn_column(origin, j as int),
                    !self.spawn_site_before(origin, j as int, y as int),
                decreases y + 1,
            {
                let ground = self.block(VoxelPos::foreground(x, y));
                let above = self.cell(VoxelPos::foreground(x, y + 1));
                let top = self.cell(VoxelPos::foreground(x, y + 2));
                if ground == Some(BlockState::GRASS) && above == VoxelCell::Air && top == VoxelCell::Air {
                    proof {
                        assert(self.spawn_site(Self::spawn_column(origin, j as int), y as int));
                        if j == 1 {
                            assert(Self::spawn_column(origin, 0) == x);
                            assert(self.spawn_site(Self::spawn_column(origin, 0), y as int));
                            assert(self.spawn_site_before(origin, j as int, y as int));
                        }
                        assert(Self::spawn_step(x - origin) == j);
                    }
                    return Some((x - origin_x, y));
                }
                proof {
                    assert(!self.spawn_site(x as int, y as int));
                    assert forall|jj: int, yy: int|
                        0 <= jj <= j && 0 <= yy < self.grid.spec_height() - 2 && (jj < j || yy > y - 1) implies !#[trigger] self.spawn_site(
                        Self::spawn_column(origin, jj),
                        yy,
                    ) by {
                        if jj == j && yy == y {
                        } else {
                            assert(!self.spawn_site_before(origin, j as int, y as int));
                        }
                    }
                }
                y -= 1;
            }
            proof {
                assert forall|jj: int, yy: int|
                    0 <= jj <= j + 1 && 0 <= yy < self.grid.spec_height() - 2 && (jj < j + 1 || yy > self.grid.spec_height()) implies !#[trigger] self.spawn_site(
                    Self::spawn_column(origin, jj),
                    yy,
                ) by {
                    assert(!self.spawn_site_before(origin, j as int, -1));
                }
            }
            j += 1;
        }
        proof {
            assert forall|jj: int, yy: int|
                0 <= jj <= 63 && 0 <= yy < self.grid.spec_height() - 2 && (jj < 63 || yy > -1) implies !#[trigger] self.spawn_site(
                Self::spawn_column(origin, jj),
                yy,
            ) by {
                assert(!self.spawn_site_before(origin, 64, self.grid.spec_height() as int));
            }
        }
        None
    }

    /// Whether a foreground cell lets the player through: air or a block that is not solid.
    pub open spec fn passable(&self, x: int, y: int) -> bool {
        match self.grid.cell_at(VoxelPos { global_x: x as i64, y: y as i32, layer: VoxelLayer::Foreground }) {
            VoxelCell::Air => true,
            VoxelCell::Block(state) => !crate::domain::block::id_def(crate::domain::block::state_id(state)).solid,
            _ => false,
        }
    }

    /// Whether every foreground tile in columns `min_x..=max_x` (relative to the first column
    /// of `origin_chunk`) and rows `min_y..=max_y` is passable; unloaded and out-of-bounds tiles
    /// are not.
    pub fn tiles_clear(&self, origin_chunk: i64, min_x: i32, max_x: i32, min_y: i32, max_y: i32) -> (result: bool)
        requires
            self.grid.wf(),
            representable(origin_chunk as int),
            i64::MIN + 0x8000_0000 <= origin_chunk * CHUNK_WIDTH <= i64::MAX - 0x8000_0000,
        ensures
            result == forall|lx: int, y: int|
                min_x <= lx <= max_x && min_y <= y <= max_y ==> #[trigger] self.passable(
                    origin_chunk * CHUNK_WIDTH + lx,
                    y,
                ),
    {
        let origin_x = origin_chunk * 32;
        if min_x > max_x || min_y > max_y {
            return true;
        }
        let mut lx: i64 = min_x as i64;
        while lx <= max_x as i64
            invariant
                self.grid.wf(),
                origin_x == origin_chunk * CHUNK_WIDTH,
                i64::MIN + 0x8000_0000 <= origin_x <= i64::MAX - 0x8000_0000,
                min_x <= lx <= max_x as int + 1,
                min_y <= max_y,
                forall|cx: int, y: int|
                    min_x <= cx < lx && min_y <= y <= max_y ==> #[trigger] self.passable(origin_x + cx, y),
            decreases max_x as int + 1 - lx,
        {
            let mut y: i64 = min_y as i64;
            while y <= max_y as i64
                invariant
                    self.grid.wf(),
                    origin_x == origin_chunk * CHUNK_WIDTH,
                    i64::MIN + 0x8000_0000 <= origin_x <= i64::MAX - 0x8000_0000,
                    min_x <= lx <= max_x,
                    min_y <= y <= max_y as int + 1,
                    forall|cx: int, yy: int|
                        min_x <= cx < lx && min_y <= yy <= max_y ==> #[trigger] self.passable(origin_x + cx, yy),
                    forall|yy: int| min_y <= yy < y ==> #[trigger] self.passable(origin_x + lx, yy),
                decreases max_y as int + 1 - y,
            {
                let cell = self.cell(VoxelPos::foreground(origin_x + lx, y as i32));
                let clear = match cell {
                    VoxelCell::Air => true,
                    VoxelCell::Block(state) => !state.def().solid,
                    _ => false,
                };
                if !clear {
                    proof {
                        assert(!self.passable(origin_x + lx, y as int));
                    }
                    return false;
                }
                y += 1;
            }
            lx += 1;
        }
        true
    }
}

} // verus!

verus! {

/// The ordering priority of a mutation; lower values are applied first.
#[derive(Debug, Clone, Copy, PartialEq, Eq, Structural, Hash, PartialOrd, Ord)]
pub struct MutationPriority(pub u16);

impl MutationPriority {
    /// The priority of direct player commands.
    pub fn player() -> (result: MutationPriority)
        ensures
            result == MutationPriority(0),
    {
        MutationPriority(0)
    }
}

/// Simulation work scheduled for a later world tick.
///
/// The declared field order is the stable ordering key:
/// `(due_world_tick, priority, position, sequence)`, and `position` orders by global column
/// first, so ticks also order chunk by chunk.
#[derive(Debug, Clone, Copy, PartialEq, Eq, Structural, PartialOrd, Ord)]
pub struct ScheduledTick {
    pub due_world_tick: u64,
    pub priority: MutationPriority,
    pub position: VoxelPos,
    pub sequence: u64,
    pub expected: Option<BlockState>,
}

impl ScheduledTick {
    /// The identity two scheduled ticks may not share. `expected` is deliberately excluded:
    /// it records what the tick assumes about the world, not which tick it is.
    pub fn key(self) -> (result: (u64, MutationPriority, VoxelPos, u64))
        ensures
            result == (self.due_world_tick, self.priority, self.position, self.sequence),
    {
        (self.due_world_tick, self.priority, self.position, self.sequence)
    }
}

/// A block a proposal expects to find before it applies.
#[derive(Debug, Clone, Copy, PartialEq, Eq, Structural)]
pub struct BlockPrecondition {
    pub position: VoxelPos,
    pub expected: Option<BlockState>,
}

/// A block a proposal writes; `None` clears the cell to air.
#[derive(Debug, Clone, Copy, PartialEq, Eq, Structural)]
pub struct BlockWrite {
    pub position: VoxelPos,
    pub state: Option<BlockState>,
}

/// An atomic group of writes guarded by preconditions.
#[derive(Debug, Clone, PartialEq, Eq)]
pub struct MutationProposal {
    pub preconditions: Vec<BlockPrecondition>,
    pub writes: Vec<BlockWrite>,
    pub priority: MutationPriority,
    pub source: VoxelPos,
    pub sequence: u64,
}

/// A cell whose block changed.
#[derive(Debug, Clone, Copy, PartialEq, Eq, Structural)]
pub struct CellChange {
    pub position: VoxelPos,
    pub before: Option<BlockState>,
    pub after: Option<BlockState>,
}

/// A chunk layer that entered or left the loaded world.
#[derive(Debug, Clone, Copy, PartialEq, Eq, Structural)]
pub enum ChunkChange {
    Integrated(ChunkLayer),
    Unloaded(ChunkLayer),
}

/// Everything a mutation changed.
#[derive(Debug, Clone, Default, PartialEq, Eq)]
pub struct MutationReport {
    pub cell_changes: Vec<CellChange>,
    pub chunk_changes: Vec<ChunkChange>,
}

impl MutationReport {
    /// Whether nothing changed.
    pub fn is_empty(&self) -> (result: bool)
        ensures
            result == (self.cell_changes@.len() == 0 && self.chunk_changes@.len() == 0),
    {
        self.cell_changes.len() == 0 && self.chunk_changes.len() == 0
    }
}

/// Why a proposal was not applied.
#[derive(Debug, Clone, Copy, PartialEq, Eq, Structural)]
pub enum MutationRejection {
    EmptyWrites,
    DuplicatePrecondition(VoxelPos),
    DuplicateWrite(VoxelPos),
    DuplicateOrderingKey,
    Unavailable(VoxelPos),
    PreconditionFailed {
        position: VoxelPos,
        expected: Option<BlockState>,
        actual: Option<BlockState>,
    },
    WriteConflict(VoxelPos),
}

/// What became of one proposal.
#[derive(Debug, Clone, Copy, PartialEq, Eq, Structural)]
pub enum ProposalOutcome {
    Applied { sequence: u64 },
    Rejected { sequence: u64, reason: MutationRejection },
}

/// The outcomes of a batch, in application order, and what it changed.
#[derive(Debug, Clone, Default, PartialEq, Eq)]
pub struct MutationBatchResult {
    pub outcomes: Vec<ProposalOutcome>,
    pub report: MutationReport,
}

} // verus!
