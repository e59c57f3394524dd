use vstd::prelude::*;
use vstd::string::StringExecFns;

use crate::application::snapshot::ChunkSnapshot;
use crate::domain::block::{
    id_from_value, id_value, state_code, state_from_code, state_from_parts, state_id, state_variant, BlockId,
    BlockState,
};
use crate::domain::world::{layer_depth, MutationPriority, ScheduledTick, VoxelLayer, VoxelPos};
use crate::storage::codec::{
    append_bytes, checksum_of, decode_envelope, encode_envelope, envelope_of, envelope_problem, fnv, le_bytes,
    le_value, lemma_le_u32_round_trip, push_u32_le, read_u32_le, slice_range, slice_skip, zstd_decoded, zstd_encoded,
    Fnv1a, ENVELOPE_BYTES, MAX_DECOMPRESSED_BYTES, MAX_FILE_BYTES, MAX_HEADER_BYTES, ZSTD_LEVEL,
};
use crate::storage::StoreError;
use crate::storage::names::{decimal_text, push_signed_wide};

verus! {

/// A palette entry: a block state by kind identifier and variant.
#[derive(Debug, Clone, Copy, PartialEq, Eq, Structural, PartialOrd, Ord)]
pub struct ScwPaletteBlock {
    pub id: u16,
    pub variant: u8,
}

/// The palette entry of a block state.
pub open spec fn palette_entry(state: BlockState) -> ScwPaletteBlock {
    ScwPaletteBlock { id: id_value(state_id(state)), variant: state_variant(state) }
}

/// The block state a palette entry names, if any.
pub open spec fn entry_state(entry: ScwPaletteBlock) -> Option<BlockState> {
    match id_from_value(entry.id as int) {
        Some(id) => state_from_parts(id, entry.variant),
        None => None,
    }
}

/// Palette order: by identifier, then variant.
pub open spec fn entry_lt(a: ScwPaletteBlock, b: ScwPaletteBlock) -> bool {
    a.id < b.id || (a.id == b.id && a.variant < b.variant)
}

impl ScwPaletteBlock {
    /// The entry of the state stored under `code`; `None` for air and unknown codes.
    pub fn from_code(code: u8) -> (result: Option<ScwPaletteBlock>)
        ensures
            match state_from_code(code as int) {
                Some(state) => result == Some(palette_entry(state)),
                None => result is None,
            },
    {
        match BlockState::from_code(code) {
            Some(state) => Some(ScwPaletteBlock { id: state.id().value(), variant: state.variant() }),
            None => None,
        }
    }

    /// The dense code of the state this entry names; `None` when it names none.
    pub fn code(self) -> (result: Option<u8>)
        ensures
            match entry_state(self) {
                Some(state) => result == Some(state_code(state)),
                None => result is None,
            },
    {
        match BlockId::new(self.id) {
            Some(id) => match BlockState::new(id, self.variant) {
                Some(state) => Some(state.code()),
                None => None,
            },
            None => None,
        }
    }
}

/// The persisted form of a scheduled tick. `expected` is the block code the tick expects to
/// find, or `0` for none; code `0` is air and never a block state.
#[derive(Debug, Clone, Copy, PartialEq, Eq, Structural)]
pub struct ScwScheduledTick {
    pub due_world_tick: u64,
    pub priority: u16,
    pub global_x: i64,
    pub y: i32,
    pub layer: u8,
    pub sequence: u64,
    pub expected: u8,
}

/// The persisted form of a tick.
pub open spec fn persisted_tick(tick: ScheduledTick) -> ScwScheduledTick {
    ScwScheduledTick {
        due_world_tick: tick.due_world_tick,
        priority: tick.priority.0,
        global_x: tick.position.global_x,
        y: tick.position.y,
        layer: layer_depth(tick.position.layer),
        sequence: tick.sequence,
        expected: match tick.expected {
            Some(state) => state_code(state),
            None => 0,
        },
    }
}

/// The tick a persisted tick stands for, when its layer and expected block are known.
pub open spec fn restored_tick(t: ScwScheduledTick) -> Option<ScheduledTick> {
    let layer = if t.layer == 0 {
        Some(VoxelLayer::Foreground)
    } else if t.layer == 1 {
        Some(VoxelLayer::Backwall)
    } else {
        None
    };
    let expected = if t.expected == 0 {
        Some(None)
    } else {
        match state_from_code(t.expected as int) {
            Some(state) => Some(Some(state)),
            None => None,
        }
    };
    match (layer, expected) {
        (Some(layer), Some(expected)) => Some(
            ScheduledTick {
                due_world_tick: t.due_world_tick,
                priority: MutationPriority(t.priority),
                position: VoxelPos { global_x: t.global_x, y: t.y, layer },
                sequence: t.sequence,
                expected,
            },
        ),
        _ => None,
    }
}

/// The bytes a persisted tick contributes to a region's content hash.
pub open spec fn tick_hash_bytes(t: ScwScheduledTick) -> Seq<u8> {
    le_bytes(t.due_world_tick as nat, 8) + le_bytes(t.priority as nat, 2) + le_bytes((t.global_x as u64) as nat, 8)
        + le_bytes((t.y as u32) as nat, 4) + seq![t.layer, t.expected] + le_bytes(t.sequence as nat, 8)
}

impl ScwScheduledTick {
    pub fn from_tick(tick: ScheduledTick) -> (result: ScwScheduledTick)
        ensures
            result == persisted_tick(tick),
    {
        ScwScheduledTick {
            due_world_tick: tick.due_world_tick,
            priority: tick.priority.0,
            global_x: tick.position.global_x,
            y: tick.position.y,
            layer: tick.position.layer.depth(),
            sequence: tick.sequence,
            expected: match tick.expected {
                Some(state) => state.code(),
                None => 0,
            },
        }
    }

    /// The tick this stands for; a `Format` error for an unknown layer or expected block.
    pub fn tick(self) -> (result: Result<ScheduledTick, StoreError>)
        ensures
            match restored_tick(self) {
                Some(t) => result == Ok::<ScheduledTick, StoreError>(t),
                None => result matches Err(StoreError::Format(_)),
            },
    {
        let layer = match VoxelLayer::from_persistent_depth(self.layer) {
            Some(layer) => layer,
            None => {
                let mut message = String::from_str("pending tick references unknown layer ");
                message.append(self.layer.to_string().as_str());
                return Err(StoreError::Format(message));
            },
        };
        let expected = if self.expected == 0 {
            None
        } else {
            match BlockState::from_code(self.expected) {
                Some(state) => Some(state),
                None => {
                    let mut message = String::from_str("pending tick expects invalid block code ");
                    message.append(self.expected.to_string().as_str());
                    return Err(StoreError::Format(message));
                },
            }
        };
        Ok(
            ScheduledTick {
                due_world_tick: self.due_world_tick,
                priority: MutationPriority(self.priority),
                position: VoxelPos::new(self.global_x, self.y, layer),
                sequence: self.sequence,
                expected,
            },
        )
    }

    /// Feeds this tick's fields into a content hash.
    pub fn hash_into(self, hash: &mut Fnv1a)
        ensures
            final(hash).0 == fnv(old(hash).0, tick_hash_bytes(self)),
    {
        let ghost start = hash.0;
        hash.write_u64(self.due_world_tick);
        hash.write_u16(self.priority);
        hash.write_u64(self.global_x as u64);
        hash.write_u32(self.y as u32);
        let mut pair: Vec<u8> = Vec::new();
        pair.push(self.layer);
        pair.push(self.expected);
        hash.write(pair.as_slice());
        hash.write_u64(self.sequence);
        proof {
            assert(pair@ =~= seq![self.layer, self.expected]);
            crate::storage::codec::lemma_fnv_append_all6(
                start,
                le_bytes(self.due_world_tick as nat, 8),
                le_bytes(self.priority as nat, 2),
                le_bytes((self.global_x as u64) as nat, 8),
                le_bytes((self.y as u32) as nat, 4),
                seq![self.layer, self.expected],
                le_bytes(self.sequence as nat, 8),
            );
        }
    }
}

// ---------------------------------------------------------------------------------------------
// Region content hash
// ---------------------------------------------------------------------------------------------

/// The bytes a chunk's owed work contributes to the content hash.
pub open spec fn ticks_hash_bytes(ticks: Seq<ScheduledTick>) -> Seq<u8>
    decreases ticks.len(),
{
    if ticks.len() == 0 {
        Seq::empty()
    } else {
        ticks_hash_bytes(ticks.drop_last()) + tick_hash_bytes(persisted_tick(ticks.last()))
    }
}

/// The bytes a chunk contributes to the content hash: its coordinate, both layers, the
/// number of owed ticks and each of them.
pub open spec fn chunk_hash_bytes(chunk: ChunkSnapshot) -> Seq<u8> {
    le_bytes((chunk.x as u64) as nat, 8) + chunk.foreground@ + chunk.backwall@ + le_bytes(
        chunk.pending_ticks@.len() as nat,
        8,
    ) + ticks_hash_bytes(chunk.pending_ticks@)
}

/// Everything the content hash of a region covers.
pub open spec fn region_hash_bytes(chunks: Seq<ChunkSnapshot>, schema_version: u32) -> Seq<u8>
    decreases chunks.len(),
{
    if chunks.len() == 0 {
        le_bytes(schema_version as nat, 4)
    } else {
        region_hash_bytes(chunks.drop_last(), schema_version) + chunk_hash_bytes(chunks.last())
    }
}

/// Hashes region content from field bytes rather than an encoded payload, so the content
/// address never depends on an encoding library's stability.
pub fn hash_region_for_schema(chunks: &[ChunkSnapshot], schema_version: u32) -> (result: u64)
    ensures
        result == crate::storage::codec::checksum_of(region_hash_bytes(chunks@, schema_version)),
{
    let mut hash = Fnv1a::new();
    hash.write_u32(schema_version);
    let ghost base = crate::storage::codec::FNV_OFFSET_BASIS;
    let mut k: usize = 0;
    proof {
        assert(chunks@.take(0) =~= Seq::<ChunkSnapshot>::empty());
    }
    while k < chunks.len()
        invariant
            k <= chunks@.len(),
            hash.0 == fnv(base, region_hash_bytes(chunks@.take(k as int), schema_version)),
            base == crate::storage::codec::FNV_OFFSET_BASIS,
        decreases chunks@.len() - k,
    {
        let chunk = &chunks[k];
        let ghost before = hash.0;
        hash.write_u64(chunk.x as u64);
        hash.write(chunk.foreground.as_slice());
        hash.write(chunk.backwall.as_slice());
        hash.write_u64(chunk.pending_ticks.len() as u64);
        let ghost after_head = hash.0;
        let mut j: usize = 0;
        proof {
            assert(chunk.pending_ticks@.take(0) =~= Seq::<ScheduledTick>::empty());
        }
        while j < chunk.pending_ticks.len()
            invariant
                j <= chunk.pending_ticks@.len(),
                hash.0 == fnv(after_head, ticks_hash_bytes(chunk.pending_ticks@.take(j as int))),
            decreases chunk.pending_ticks@.len() - j,
        {
            let ghost mid = hash.0;
            ScwScheduledTick::from_tick(chunk.pending_ticks[j]).hash_into(&mut hash);
            proof {
                let t = chunk.pending_ticks@.take(j as int + 1);
                assert(t.drop_last() =~= chunk.pending_ticks@.take(j as int));
                crate::storage::codec::lemma_fnv_append(after_head, ticks_hash_bytes(t.drop_last()), tick_hash_bytes(persisted_tick(t.last())));
            }
            j += 1;
        }
        proof {
            assert(chunk.pending_ticks@.take(j as int) =~= chunk.pending_ticks@);
            let c = chunks@[k as int];
            let head = le_bytes((c.x as u64) as nat, 8) + c.foreground@ + c.backwall@ + le_bytes(c.pending_ticks@.len() as nat, 8);
            crate::storage::codec::lemma_fnv_append(before, le_bytes((c.x as u64) as nat, 8), c.foreground@);
            crate::storage::codec::lemma_fnv_append(before, le_bytes((c.x as u64) as nat, 8) + c.foreground@, c.backwall@);
            crate::storage::codec::lemma_fnv_append(before, le_bytes((c.x as u64) as nat, 8) + c.foreground@ + c.backwall@, le_bytes(c.pending_ticks@.len() as nat, 8));
            crate::storage::codec::lemma_fnv_append(before, head, ticks_hash_bytes(c.pending_ticks@));
            let prefix = chunks@.take(k as int + 1);
            assert(prefix.drop_last() =~= chunks@.take(k as int));
            crate::storage::codec::lemma_fnv_append(base, region_hash_bytes(prefix.drop_last(), schema_version), chunk_hash_bytes(c));
        }
        k += 1;
    }
    proof {
        assert(chunks@.take(k as int) =~= chunks@);
    }
    hash.finish()
}

/// The content hash of a region under the current schema.
pub fn hash_region(chunks: &[ChunkSnapshot]) -> (result: u64)
    ensures
        result == crate::storage::codec::checksum_of(region_hash_bytes(chunks@, crate::storage::codec::SAVE_SCHEMA_VERSION)),
{
    hash_region_for_schema(chunks, crate::storage::codec::SAVE_SCHEMA_VERSION)
}

// ---------------------------------------------------------------------------------------------
// Palette and dense block arrays
// ---------------------------------------------------------------------------------------------

/// The block codes in palette order: by identifier, then variant.
pub open spec fn palette_order() -> Seq<u8> {
    seq![1u8, 2u8, 3u8, 4u8, 5u8, 6u8, 7u8, 8u8, 10u8, 11u8, 9u8]
}

/// Whether some layer of some chunk holds `code`.
pub open spec fn code_used(chunks: Seq<ChunkSnapshot>, code: u8) -> bool {
    exists|k: int| #![trigger chunks[k]] 0 <= k < chunks.len() && (chunks[k].foreground@.contains(code) || chunks[k].backwall@.contains(code))
}

/// The palette entries of the used codes among the first `n` codes of palette order.
pub open spec fn palette_prefix(chunks: Seq<ChunkSnapshot>, n: int) -> Seq<ScwPaletteBlock>
    decreases n,
{
    if n <= 0 {
        Seq::empty()
    } else {
        let rest = palette_prefix(chunks, n - 1);
        let code = palette_order()[n - 1];
        if code_used(chunks, code) {
            rest.push(palette_entry(state_from_code(code as int)->0))
        } else {
            rest
        }
    }
}

/// The palette of a region: one entry for every block state its chunks use, in palette
/// order.
pub open spec fn region_palette(chunks: Seq<ChunkSnapshot>) -> Seq<ScwPaletteBlock> {
    palette_prefix(chunks, 11)
}

/// The dense palette code of block code `code`: `0` for air, otherwise one more than the
/// position of its state's entry.
pub open spec fn encoded_code(palette: Seq<ScwPaletteBlock>, code: u8) -> u8 {
    if code == 0 {
        0
    } else {
        (1 + choose|i: int| 0 <= i < palette.len() && palette[i] == palette_entry(state_from_code(code as int)->0)) as u8
    }
}

/// The dense palette codes of one layer.
pub open spec fn encoded_layer(palette: Seq<ScwPaletteBlock>, codes: Seq<u8>) -> Seq<u8> {
    codes.map_values(|c: u8| encoded_code(palette, c))
}

/// The dense array of a region: each chunk's foreground, then its backwall.
pub open spec fn encoded_chunks(palette: Seq<ScwPaletteBlock>, chunks: Seq<ChunkSnapshot>) -> Seq<u8>
    decreases chunks.len(),
{
    if chunks.len() == 0 {
        Seq::empty()
    } else {
        encoded_chunks(palette, chunks.drop_last()) + encoded_layer(palette, chunks.last().foreground@)
            + encoded_layer(palette, chunks.last().backwall@)
    }
}

/// Whether every code of every layer is air or a block state.
pub open spec fn codes_valid(chunks: Seq<ChunkSnapshot>) -> bool {
    forall|k: int| #![trigger chunks[k]] 0 <= k < chunks.len() ==> {
        &&& forall|i: int| 0 <= i < chunks[k].foreground@.len() ==> #[trigger] chunks[k].foreground@[i] <= 11
        &&& forall|i: int| 0 <= i < chunks[k].backwall@.len() ==> #[trigger] chunks[k].backwall@[i] <= 11
    }
}

/// The block code a dense palette code stands for, if the palette gives one.
pub open spec fn decoded_code(palette: Seq<ScwPaletteBlock>, palette_code: u8) -> Option<u8> {
    if palette_code == 0 {
        Some(0u8)
    } else if palette_code as int - 1 >= palette.len() {
        None
    } else {
        match entry_state(palette[palette_code as int - 1]) {
            Some(state) => Some(state_code(state)),
            None => None,
        }
    }
}

/// The entry of a state names that state again, and entries of different states differ.
pub proof fn lemma_palette_entry_round_trip(a: BlockState, b: BlockState)
    ensures
        entry_state(palette_entry(a)) == Some(a),
        a != b ==> palette_entry(a) != palette_entry(b),
{
}

proof fn lemma_prefix_facts(chunks: Seq<ChunkSnapshot>, n: int)
    requires
        0 <= n <= 11,
    ensures
        palette_prefix(chunks, n).len() <= n,
        forall|i: int, j: int| 0 <= i < j < palette_prefix(chunks, n).len() ==> #[trigger] palette_prefix(chunks, n)[i]
            != #[trigger] palette_prefix(chunks, n)[j],
        forall|m: int| 0 <= m < n && code_used(chunks, #[trigger] palette_order()[m]) ==> palette_prefix(chunks, n).contains(
            palette_entry(state_from_code(palette_order()[m] as int)->0),
        ),
        forall|i: int| 0 <= i < palette_prefix(chunks, n).len() ==> exists|m: int|
            0 <= m < n && #[trigger] palette_prefix(chunks, n)[i] == palette_entry(state_from_code(palette_order()[m] as int)->0),
    decreases n,
{
    if n > 0 {
        lemma_prefix_facts(chunks, n - 1);
        let rest = palette_prefix(chunks, n - 1);
        let code = palette_order()[n - 1];
        let e = palette_entry(state_from_code(code as int)->0);
        if code_used(chunks, code) {
            assert(!rest.contains(e)) by {
                if rest.contains(e) {
                    let i = choose|i: int| 0 <= i < rest.len() && rest[i] == e;
                    let m = choose|m: int| 0 <= m < n - 1 && #[trigger] rest[i] == palette_entry(state_from_code(palette_order()[m] as int)->0);
                    lemma_palette_entry_round_trip(state_from_code(palette_order()[m] as int)->0, state_from_code(code as int)->0);
                }
            }
            let p = rest.push(e);
            assert forall|m: int| 0 <= m < n && code_used(chunks, #[trigger] palette_order()[m]) implies p.contains(
                palette_entry(state_from_code(palette_order()[m] as int)->0),
            ) by {
                if m < n - 1 {
                    let i = choose|i: int| 0 <= i < rest.len() && rest[i] == palette_entry(state_from_code(palette_order()[m] as int)->0);
                    assert(p[i] == rest[i]);
                } else {
                    assert(p[rest.len() as int] == e);
                }
            }
            assert forall|i: int| 0 <= i < p.len() implies exists|m: int|
                0 <= m < n && #[trigger] p[i] == palette_entry(state_from_code(palette_order()[m] as int)->0) by {
                if i < rest.len() {
                    let m = choose|m: int| 0 <= m < n - 1 && #[trigger] rest[i] == palette_entry(state_from_code(palette_order()[m] as int)->0);
                    assert(p[i] == rest[i]);
                } else {
                    assert(p[i] == e);
                }
            }
        } else {
            assert forall|m: int| 0 <= m < n && code_used(chunks, #[trigger] palette_order()[m]) implies rest.contains(
                palette_entry(state_from_code(palette_order()[m] as int)->0),
            ) by {
            }
        }
    }
}

/// The palette of a region holds no entry twice and holds the entry of every state its chunks
/// use.
pub proof fn lemma_region_palette(chunks: Seq<ChunkSnapshot>)
    ensures
        region_palette(chunks).len() <= 11,
        forall|i: int, j: int| 0 <= i < j < region_palette(chunks).len() ==> #[trigger] region_palette(chunks)[i]
            != #[trigger] region_palette(chunks)[j],
        forall|c: u8| 1 <= c <= 11 && #[trigger] code_used(chunks, c) ==> region_palette(chunks).contains(
            palette_entry(state_from_code(c as int)->0),
        ),
{
    lemma_prefix_facts(chunks, 11);
    assert forall|c: u8| 1 <= c <= 11 && #[trigger] code_used(chunks, c) implies region_palette(chunks).contains(
        palette_entry(state_from_code(c as int)->0),
    ) by {
        let m = if c <= 8 {
            c as int - 1
        } else if c == 9 {
            10
        } else {
            c as int - 2
        };
        assert(palette_order()[m] == c);
    }
}

/// Dense palette codes decode back to the block codes they encode: for a palette without
/// repeated entries that holds the state of `code`, decoding the encoded code gives `code`.
pub proof fn lemma_palette_code_round_trip(palette: Seq<ScwPaletteBlock>, code: u8)
    requires
        code <= 11,
        palette.len() <= 255,
        forall|i: int, j: int| 0 <= i < j < palette.len() ==> #[trigger] palette[i] != #[trigger] palette[j],
        code != 0 ==> palette.contains(palette_entry(state_from_code(code as int)->0)),
    ensures
        decoded_code(palette, encoded_code(palette, code)) == Some(code),
{
    if code != 0 {
        let s = state_from_code(code as int)->0;
        let i = choose|i: int| 0 <= i < palette.len() && palette[i] == palette_entry(s);
        lemma_palette_entry_round_trip(s, s);
        crate::domain::block::lemma_code_round_trip(s, code);
    }
}

fn order_at(m: usize) -> (result: u8)
    requires
        m < 11,
    ensures
        result == palette_order()[m as int],
{
    match m {
        0 => 1,
        1 => 2,
        2 => 3,
        3 => 4,
        4 => 5,
        5 => 6,
        6 => 7,
        7 => 8,
        8 => 10,
        9 => 11,
        _ => 9,
    }
}

/// Marks the block codes a layer uses.
fn mark_layer(present: &mut Vec<bool>, codes: &Vec<u8>)
    requires
        old(present)@.len() == 12,
    ensures
        final(present)@.len() == 12,
        forall|c: int| 1 <= c <= 11 ==> #[trigger] final(present)@[c] == (old(present)@[c] || codes@.contains(c as u8)),
{
    let mut i: usize = 0;
    while i < codes.len()
        invariant
            i <= codes@.len(),
            present@.len() == 12,
            forall|c: int| 1 <= c <= 11 ==> #[trigger] present@[c] == (old(present)@[c] || codes@.take(i as int).contains(c as u8)),
        decreases codes@.len() - i,
    {
        let code = codes[i];
        if 1 <= code && code <= 11 {
            present.set(code as usize, true);
        }
        proof {
            assert forall|c: int| 1 <= c <= 11 implies #[trigger] present@[c] == (old(present)@[c] || codes@.take(i as int + 1).contains(c as u8)) by {
                if codes@.take(i as int + 1).contains(c as u8) {
                    let j = choose|j: int| 0 <= j < i + 1 && #[trigger] codes@.take(i as int + 1)[j] == c as u8;
                    if j < i {
                        assert(codes@.take(i as int)[j] == c as u8);
                    }
                }
                if codes@.take(i as int).contains(c as u8) {
                    let j = choose|j: int| 0 <= j < i && #[trigger] codes@.take(i as int)[j] == c as u8;
                    assert(codes@.take(i as int + 1)[j] == c as u8);
                }
                if code as int == c {
                    assert(codes@.take(i as int + 1)[i as int] == c as u8);
                }
            }
        }
        i += 1;
    }
    proof {
        assert(codes@.take(i as int) =~= codes@);
    }
}

/// Encodes one layer against the palette; `Validation` names the first code that is neither
/// air nor a block state.
fn encode_layer(palette: &Vec<ScwPaletteBlock>, codes: &Vec<u8>, out: &mut Vec<u8>, chunk_x: i64) -> (result: Result<(), StoreError>)
    requires
        palette@.len() <= 255,
        forall|i: int, j: int| 0 <= i < j < palette@.len() ==> #[trigger] palette@[i] != #[trigger] palette@[j],
        forall|c: u8| 1 <= c <= 11 && #[trigger] codes@.contains(c) ==> palette@.contains(palette_entry(state_from_code(c as int)->0)),
    ensures
        result is Ok <==> forall|i: int| 0 <= i < codes@.len() ==> #[trigger] codes@[i] <= 11,
        result is Ok ==> final(out)@ == old(out)@ + encoded_layer(palette@, codes@),
        result matches Err(e) ==> e is Validation,
{
    let ghost start = out@;
    let mut i: usize = 0;
    while i < codes.len()
        invariant
            i <= codes@.len(),
            palette@.len() <= 255,
            forall|a: int, b: int| 0 <= a < b < palette@.len() ==> #[trigger] palette@[a] != #[trigger] palette@[b],
            forall|c: u8| 1 <= c <= 11 && #[trigger] codes@.contains(c) ==> palette@.contains(palette_entry(state_from_code(c as int)->0)),
            forall|j: int| 0 <= j < i ==> #[trigger] codes@[j] <= 11,
            out@ == start + encoded_layer(palette@, codes@.take(i as int)),
        decreases codes@.len() - i,
    {
        let code = codes[i];
        let palette_code: u8 = if code == 0 {
            0
        } else {
            match ScwPaletteBlock::from_code(code) {
                Some(entry) => {
                    proof {
                        assert(codes@.contains(code));
                    }
                    let mut p: usize = 0;
                    while p < palette.len() && palette[p] != entry
                        invariant
                            p <= palette@.len(),
                            forall|q: int| 0 <= q < p ==> palette@[q] != entry,
                        decreases palette@.len() - p,
                    {
                        p += 1;
                    }
                    proof {
                        if p == palette@.len() {
                            let q = choose|q: int| 0 <= q < palette@.len() && #[trigger] palette@[q] == entry;
                        }
                        let j = choose|j: int| 0 <= j < palette@.len() && #[trigger] palette@[j] == palette_entry(state_from_code(code as int)->0);
                        if j != p {
                            if j < p {
                                assert(palette@[j] != palette@[p as int]);
                            } else {
                                assert(palette@[p as int] != palette@[j]);
                            }
                        }
                        assert(encoded_code(palette@, code) == p + 1);
                    }
                    (p + 1) as u8
                },
                None => {
                    let mut message = String::from_str("chunk ");
                    message.append(chunk_x.to_string().as_str());
                    message.append(" contains invalid block code ");
                    message.append(code.to_string().as_str());
                    proof {
                        assert(codes@[i as int] > 11);
                    }
                    return Err(StoreError::Validation(message));
                },
            }
        };
        out.push(palette_code);
        proof {
            assert(codes@.take(i as int + 1) =~= codes@.take(i as int).push(code));
            assert(encoded_layer(palette@, codes@.take(i as int + 1)) =~= encoded_layer(palette@, codes@.take(i as int)).push(
                encoded_code(palette@, code),
            ));
        }
        i += 1;
    }
    proof {
        assert(codes@.take(i as int) =~= codes@);
    }
    Ok(())
}

/// The palette and dense block array of a region's chunks: every state the chunks use, in
/// palette order, and each chunk's foreground then backwall as dense palette codes.
/// `Validation` when a layer holds a code that is neither air nor a block state.
pub fn encode_region_blocks(chunks: &Vec<ChunkSnapshot>) -> (result: Result<(Vec<ScwPaletteBlock>, Vec<u8>), StoreError>)
    ensures
        result is Ok <==> codes_valid(chunks@),
        result matches Ok(encoded) ==> encoded.0@ == region_palette(chunks@) && encoded.1@ == encoded_chunks(encoded.0@, chunks@),
        result matches Err(e) ==> e is Validation,
{
    let mut present: Vec<bool> = Vec::new();
    let mut c: usize = 0;
    while c < 12
        invariant
            c <= 12,
            present@.len() == c,
            forall|d: int| 0 <= d < c ==> !#[trigger] present@[d],
        decreases 12 - c,
    {
        present.push(false);
        c += 1;
    }
    let mut k: usize = 0;
    while k < chunks.len()
        invariant
            k <= chunks@.len(),
            present@.len() == 12,
            forall|d: int| 1 <= d <= 11 ==> #[trigger] present@[d] == code_used(chunks@.take(k as int), d as u8),
        decreases chunks@.len() - k,
    {
        let ghost before = present@;
        mark_layer(&mut present, &chunks[k].foreground);
        mark_layer(&mut present, &chunks[k].backwall);
        proof {
            let t = chunks@.take(k as int + 1);
            assert forall|d: int| 1 <= d <= 11 implies #[trigger] present@[d] == code_used(t, d as u8) by {
                if code_used(t, d as u8) {
                    let kk = choose|kk: int| #![trigger t[kk]] 0 <= kk < t.len() && (t[kk].foreground@.contains(d as u8) || t[kk].backwall@.contains(d as u8));
                    if kk < k {
                        assert(chunks@.take(k as int)[kk] == t[kk]);
                    }
                }
                if code_used(chunks@.take(k as int), d as u8) {
                    let kk = choose|kk: int| #![trigger chunks@.take(k as int)[kk]] 0 <= kk < k && (chunks@.take(k as int)[kk].foreground@.contains(d as u8) || chunks@.take(k as int)[kk].backwall@.contains(d as u8));
                    assert(t[kk] == chunks@.take(k as int)[kk]);
                }
                if chunks@[k as int].foreground@.contains(d as u8) || chunks@[k as int].backwall@.contains(d as u8) {
                    assert(t[k as int] == chunks@[k as int]);
                }
            }
        }
        k += 1;
    }
    proof {
        assert(chunks@.take(k as int) =~= chunks@);
    }
    let mut palette: Vec<ScwPaletteBlock> = Vec::new();
    let mut m: usize = 0;
    while m < 11
        invariant
            m <= 11,
            present@.len() == 12,
            forall|d: int| 1 <= d <= 11 ==> #[trigger] present@[d] == code_used(chunks@, d as u8),
            palette@ == palette_prefix(chunks@, m as int),
        decreases 11 - m,
    {
        let code = order_at(m);
        if present[code as usize] {
            match ScwPaletteBlock::from_code(code) {
                Some(entry) => palette.push(entry),
                None => {},
            }
        }
        m += 1;
    }
    proof {
        lemma_region_palette(chunks@);
    }
    let mut blocks: Vec<u8> = Vec::new();
    let mut k: usize = 0;
    while k < chunks.len()
        invariant
            k <= chunks@.len(),
            palette@ == region_palette(chunks@),
            palette@.len() <= 11,
            forall|i: int, j: int| 0 <= i < j < palette@.len() ==> #[trigger] palette@[i] != #[trigger] palette@[j],
            forall|c: u8| 1 <= c <= 11 && #[trigger] code_used(chunks@, c) ==> palette@.contains(palette_entry(state_from_code(c as int)->0)),
            codes_valid(chunks@.take(k as int)),
            blocks@ == encoded_chunks(palette@, chunks@.take(k as int)),
        decreases chunks@.len() - k,
    {
        let chunk = &chunks[k];
        proof {
            assert forall|c: u8| 1 <= c <= 11 && #[trigger] chunk.foreground@.contains(c) implies palette@.contains(palette_entry(state_from_code(c as int)->0)) by {
                assert(code_used(chunks@, c));
            }
            assert forall|c: u8| 1 <= c <= 11 && #[trigger] chunk.backwall@.contains(c) implies palette@.contains(palette_entry(state_from_code(c as int)->0)) by {
                assert(chunks@[k as int].foreground@.contains(c) || chunks@[k as int].backwall@.contains(c));
                assert(code_used(chunks@, c));
            }
        }
        let ghost before = blocks@;
        match encode_layer(&palette, &chunk.foreground, &mut blocks, chunk.x) {
            Ok(()) => {},
            Err(error) => {
                proof {
                    assert(!codes_valid(chunks@));
                }
                return Err(error);
            },
        }
        match encode_layer(&palette, &chunk.backwall, &mut blocks, chunk.x) {
            Ok(()) => {},
            Err(error) => {
                proof {
                    assert(!codes_valid(chunks@));
                }
                return Err(error);
            },
        }
        proof {
            let t = chunks@.take(k as int + 1);
            assert(t.drop_last() =~= chunks@.take(k as int));
            assert(t.last() == chunks@[k as int]);
            assert forall|kk: int| #![trigger t[kk]] 0 <= kk < t.len() implies {
                &&& forall|i: int| 0 <= i < t[kk].foreground@.len() ==> #[trigger] t[kk].foreground@[i] <= 11
                &&& forall|i: int| 0 <= i < t[kk].backwall@.len() ==> #[trigger] t[kk].backwall@[i] <= 11
            } by {
                if kk < k {
                    assert(t[kk] == chunks@.take(k as int)[kk]);
                }
            }
        }
        k += 1;
    }
    proof {
        assert(chunks@.take(k as int) =~= chunks@);
    }
    Ok((palette, blocks))
}

/// The block codes a run of dense palette codes stands for, if the palette gives one for each.
pub open spec fn decoded_layer(palette: Seq<ScwPaletteBlock>, encoded: Seq<u8>) -> Option<Seq<u8>> {
    if forall|i: int| 0 <= i < encoded.len() ==> #[trigger] decoded_code(palette, encoded[i]) is Some {
        Some(encoded.map_values(|c: u8| decoded_code(palette, c)->0))
    } else {
        None
    }
}

/// Decodes `len` dense palette codes starting at `start`.
fn decode_layer(palette: &Vec<ScwPaletteBlock>, dense: &[u8], start: usize, len: usize) -> (result: Result<Vec<u8>, StoreError>)
    requires
        start + len <= dense@.len(),
    ensures
        match decoded_layer(palette@, dense@.subrange(start as int, start + len)) {
            Some(codes) => result matches Ok(v) && v@ == codes,
            None => result matches Err(StoreError::Format(_)),
        },
{
    let ghost encoded = dense@.subrange(start as int, start + len);
    let mut blocks: Vec<u8> = Vec::new();
    let mut i: usize = 0;
    while i < len
        invariant
            i <= len,
            start + len <= dense@.len(),
            dense@.len() == dense.len(),
            encoded == dense@.subrange(start as int, start + len),
            forall|j: int| 0 <= j < i ==> #[trigger] decoded_code(palette@, encoded[j]) is Some,
            blocks@ == encoded.take(i as int).map_values(|c: u8| decoded_code(palette@, c)->0),
        decreases len - i,
    {
        let palette_code = dense[start + i];
        proof {
            assert(encoded[i as int] == palette_code);
        }
        let code: u8 = if palette_code == 0 {
            0
        } else {
            let index = (palette_code - 1) as usize;
            if index >= palette.len() {
                let mut message = String::from_str("dense block entry references missing palette index ");
                message.append(palette_code.to_string().as_str());
                proof {
                    assert(decoded_code(palette@, encoded[i as int]) is None);
                }
                return Err(StoreError::Format(message));
            }
            let entry = palette[index];
            match entry.code() {
                Some(code) => code,
                None => {
                    let mut message = String::from_str("palette entry contains invalid block state ");
                    message.append(entry.id.to_string().as_str());
                    message.append(":");
                    message.append(entry.variant.to_string().as_str());
                    proof {
                        assert(decoded_code(palette@, encoded[i as int]) is None);
                    }
                    return Err(StoreError::Format(message));
                },
            }
        };
        blocks.push(code);
        proof {
            assert(encoded.take(i as int + 1) =~= encoded.take(i as int).push(palette_code));
            assert(blocks@ =~= encoded.take(i as int + 1).map_values(|c: u8| decoded_code(palette@, c)->0));
        }
        i += 1;
    }
    proof {
        assert(encoded.take(i as int) =~= encoded);
    }
    Ok(blocks)
}

/// The metadata of a region file: its identity, palette, chunk coordinates and owed work.
#[derive(Debug, Clone, PartialEq, Eq)]
pub struct ScwRegionHeader {
    pub region_x: i64,
    pub seed: u64,
    pub generator_version: u32,
    pub palette: Vec<ScwPaletteBlock>,
    pub chunk_xs: Vec<i64>,
    pub pending_ticks: Vec<Vec<ScwScheduledTick>>,
}

/// Chunks per region.
pub const REGION_CHUNKS: i64 = 64;

/// The most pending ticks one region holds: its chunks' per-tick budgets together.
pub const MAX_PENDING_TICKS_PER_REGION: usize = 262144;

/// The region that holds chunk `chunk_x` (floor division).
pub open spec fn region_of(chunk_x: int) -> int {
    chunk_x / (REGION_CHUNKS as int)
}

/// The number of pending ticks of the first `n` chunks.
pub open spec fn pending_total(lists: Seq<Vec<ScwScheduledTick>>, n: int) -> int
    decreases n,
{
    if n <= 0 {
        0
    } else {
        pending_total(lists, n - 1) + lists[n - 1]@.len()
    }
}

/// Everything about a region header that is checked before its chunks are decoded, in the
/// order it is checked.
pub open spec fn header_ok(h: ScwRegionHeader, dense_len: int, region_x: i64, seed: u64, generator_version: u32) -> bool {
    &&& h.region_x == region_x && h.seed == seed && h.generator_version == generator_version
    &&& h.palette@.len() <= 255
    &&& forall|i: int| 0 <= i < h.palette@.len() - 1 ==> entry_lt(#[trigger] h.palette@[i], h.palette@[i + 1])
    &&& 1 <= h.chunk_xs@.len() <= REGION_CHUNKS
    &&& forall|i: int| 0 <= i < h.chunk_xs@.len() - 1 ==> #[trigger] h.chunk_xs@[i] < h.chunk_xs@[i + 1]
    &&& forall|i: int| 0 <= i < h.chunk_xs@.len() ==> region_of(#[trigger] h.chunk_xs@[i] as int) == region_x
    &&& h.pending_ticks@.len() == h.chunk_xs@.len()
    &&& pending_total(h.pending_ticks@, h.pending_ticks@.len() as int) <= MAX_PENDING_TICKS_PER_REGION
    &&& dense_len == h.chunk_xs@.len() * crate::domain::CHUNK_AREA * 2
}

/// The message of the first header check that fails, in the order `decode_region_body` makes
/// them; `None` when the header passes them all.
pub open spec fn header_problem(
    h: ScwRegionHeader,
    dense_len: int,
    region_x: i64,
    seed: u64,
    generator_version: u32,
) -> Option<Seq<char>> {
    let region = "region "@ + decimal_text(region_x as int);
    if !(h.region_x == region_x && h.seed == seed && h.generator_version == generator_version) {
        Some(region + " identity does not match the manifest"@)
    } else if !(h.palette@.len() <= 255 && forall|i: int|
        0 <= i < h.palette@.len() - 1 ==> entry_lt(#[trigger] h.palette@[i], h.palette@[i + 1])) {
        Some("block palette must be unique and sorted"@)
    } else if !(1 <= h.chunk_xs@.len() <= REGION_CHUNKS) {
        Some(region + " must hold 1 to 64 chunks"@)
    } else if !(forall|i: int| 0 <= i < h.chunk_xs@.len() - 1 ==> #[trigger] h.chunk_xs@[i] < h.chunk_xs@[i + 1]) {
        Some("chunk coordinates must be unique and sorted"@)
    } else if !(forall|i: int| 0 <= i < h.chunk_xs@.len() ==> region_of(#[trigger] h.chunk_xs@[i] as int) == region_x) {
        Some(region + " contains an out-of-range chunk"@)
    } else if h.pending_ticks@.len() != h.chunk_xs@.len() {
        Some(region + " has a pending tick list per chunk missing or extra"@)
    } else if pending_total(h.pending_ticks@, h.pending_ticks@.len() as int) > MAX_PENDING_TICKS_PER_REGION {
        Some(region + " holds more pending ticks than its chunks may owe"@)
    } else if dense_len != h.chunk_xs@.len() * crate::domain::CHUNK_AREA * 2 {
        Some("dense block array has "@ + decimal_text(dense_len) + " entries; expected two layers per chunk"@)
    } else {
        None
    }
}

/// Whether the header passes the first `count` checks of [`header_problem`].
spec fn passes_first_checks(h: ScwRegionHeader, region_x: i64, seed: u64, generator_version: u32, count: int) -> bool {
    &&& count >= 1 ==> h.region_x == region_x && h.seed == seed && h.generator_version == generator_version
    &&& count >= 2 ==> h.palette@.len() <= 255 && forall|i: int|
        0 <= i < h.palette@.len() - 1 ==> entry_lt(#[trigger] h.palette@[i], h.palette@[i + 1])
    &&& count >= 3 ==> 1 <= h.chunk_xs@.len() <= REGION_CHUNKS
    &&& count >= 4 ==> forall|i: int| 0 <= i < h.chunk_xs@.len() - 1 ==> #[trigger] h.chunk_xs@[i] < h.chunk_xs@[i + 1]
    &&& count >= 5 ==> forall|i: int| 0 <= i < h.chunk_xs@.len() ==> region_of(#[trigger] h.chunk_xs@[i] as int) == region_x
    &&& count >= 6 ==> h.pending_ticks@.len() == h.chunk_xs@.len()
}

/// The ticks a run of persisted ticks stands for, if each is known.
pub open spec fn restored_ticks(s: Seq<ScwScheduledTick>) -> Option<Seq<ScheduledTick>> {
    if forall|i: int| 0 <= i < s.len() ==> #[trigger] restored_tick(s[i]) is Some {
        Some(s.map_values(|t: ScwScheduledTick| restored_tick(t)->0))
    } else {
        None
    }
}

/// The foreground codes of chunk `k` of a dense array.
pub open spec fn dense_foreground(dense: Seq<u8>, k: int) -> Seq<u8> {
    let area = crate::domain::CHUNK_AREA as int;
    dense.subrange(2 * k * area, 2 * k * area + area)
}

/// The backwall codes of chunk `k` of a dense array.
pub open spec fn dense_backwall(dense: Seq<u8>, k: int) -> Seq<u8> {
    let area = crate::domain::CHUNK_AREA as int;
    dense.subrange(2 * k * area + area, 2 * k * area + 2 * area)
}

/// Whether chunk `k` of a region decodes: both layers against the palette and its ticks.
pub open spec fn chunk_decodes(h: ScwRegionHeader, dense: Seq<u8>, k: int) -> bool {
    &&& decoded_layer(h.palette@, dense_foreground(dense, k)) is Some
    &&& decoded_layer(h.palette@, dense_backwall(dense, k)) is Some
    &&& restored_ticks(h.pending_ticks@[k]@) is Some
}

/// Whether chunk record `chunk` is chunk `k` of a region, decoded.
pub open spec fn decodes_to(h: ScwRegionHeader, dense: Seq<u8>, k: int, chunk: ChunkSnapshot) -> bool {
    &&& chunk.x == h.chunk_xs@[k]
    &&& chunk.foreground@ == decoded_layer(h.palette@, dense_foreground(dense, k))->0
    &&& chunk.backwall@ == decoded_layer(h.palette@, dense_backwall(dense, k))->0
    &&& chunk.pending_ticks@ == restored_ticks(h.pending_ticks@[k]@)->0
}

/// A format error with a fixed message.
fn format_text(text: &str) -> (result: StoreError)
    ensures
        result matches StoreError::Format(message) && message@ == text@,
{
    StoreError::Format(String::from_str(text))
}

/// A format error whose message has a number, written in decimal, between two texts.
fn numbered_format(before: &str, number: i128, after: &str) -> (result: StoreError)
    ensures
        result matches StoreError::Format(message) && message@ == before@ + decimal_text(number as int) + after@,
{
    let mut message = String::from_str(before);
    push_signed_wide(&mut message, number);
    message.append(after);
    StoreError::Format(message)
}

fn restore_ticks(persisted: &Vec<ScwScheduledTick>) -> (result: Result<Vec<ScheduledTick>, StoreError>)
    ensures
        match restored_ticks(persisted@) {
            Some(ticks) => result matches Ok(v) && v@ == ticks,
            None => result matches Err(StoreError::Format(_)),
        },
{
    let mut ticks: Vec<ScheduledTick> = Vec::new();
    let mut i: usize = 0;
    while i < persisted.len()
        invariant
            i <= persisted@.len(),
            forall|j: int| 0 <= j < i ==> #[trigger] restored_tick(persisted@[j]) is Some,
            ticks@ == persisted@.take(i as int).map_values(|t: ScwScheduledTick| restored_tick(t)->0),
        decreases persisted@.len() - i,
    {
        let tick = match persisted[i].tick() {
            Ok(tick) => tick,
            Err(error) => return Err(error),
        };
        ticks.push(tick);
        proof {
            assert(persisted@.take(i as int + 1) =~= persisted@.take(i as int).push(persisted@[i as int]));
            assert(ticks@ =~= persisted@.take(i as int + 1).map_values(|t: ScwScheduledTick| restored_tick(t)->0));
        }
        i += 1;
    }
    proof {
        assert(persisted@.take(i as int) =~= persisted@);
    }
    Ok(ticks)
}

/// Decodes the chunks of a region from its header and dense block array, after checking that
/// the header belongs to region `region_x` of the world with `seed` and `generator_version`,
/// that its palette is sorted without repeats and fits in a byte, that it holds 1 to
/// `REGION_CHUNKS` sorted chunks of this region with one list of owed work each and at most
/// `MAX_PENDING_TICKS_PER_REGION` ticks in all, and that the dense array holds exactly two
/// layers per chunk. Every failure is a `Format` error.
pub fn decode_region_body(
    header: &ScwRegionHeader,
    dense: &[u8],
    region_x: i64,
    seed: u64,
    generator_version: u32,
) -> (result: Result<Vec<ChunkSnapshot>, StoreError>)
    ensures
        result is Ok <==> header_ok(*header, dense@.len() as int, region_x, seed, generator_version) && forall|k: int|
            0 <= k < header.chunk_xs@.len() ==> #[trigger] chunk_decodes(*header, dense@, k),
        result matches Ok(chunks) ==> chunks@.len() == header.chunk_xs@.len() && forall|k: int|
            0 <= k < chunks@.len() ==> decodes_to(*header, dense@, k, #[trigger] chunks@[k]),
        result matches Err(e) ==> e is Format,
        header_problem(*header, dense@.len() as int, region_x, seed, generator_version) matches Some(message)
            ==> (result matches Err(StoreError::Format(m)) && m@ == message),
{
    if header.region_x != region_x || header.seed != seed || header.generator_version != generator_version {
        return Err(numbered_format("region ", region_x as i128, " identity does not match the manifest"));
    }
    if header.palette.len() > 255 {
        return Err(format_text("block palette must be unique and sorted"));
    }
    let mut i: usize = 0;
    while i + 1 < header.palette.len()
        invariant
            passes_first_checks(*header, region_x, seed, generator_version, 1),
            forall|j: int| 0 <= j < i ==> entry_lt(#[trigger] header.palette@[j], header.palette@[j + 1]),
            header.palette@.len() <= 255,
            i <= 255,
        decreases header.palette@.len() - i,
    {
        let a = header.palette[i];
        let b = header.palette[i + 1];
        if !(a.id < b.id || (a.id == b.id && a.variant < b.variant)) {
            return Err(format_text("block palette must be unique and sorted"));
        }
        i += 1;
    }
    let n = header.chunk_xs.len();
    if n == 0 || n > 64 {
        return Err(numbered_format("region ", region_x as i128, " must hold 1 to 64 chunks"));
    }
    let mut i: usize = 0;
    while i + 1 < n
        invariant
            passes_first_checks(*header, region_x, seed, generator_version, 3),
            n == header.chunk_xs@.len(),
            n <= 64,
            i <= 64,
            forall|j: int| 0 <= j < i ==> #[trigger] header.chunk_xs@[j] < header.chunk_xs@[j + 1],
        decreases n - i,
    {
        if header.chunk_xs[i] >= header.chunk_xs[i + 1] {
            return Err(format_text("chunk coordinates must be unique and sorted"));
        }
        i += 1;
    }
    let mut i: usize = 0;
    while i < n
        invariant
            n == header.chunk_xs@.len(),
            i <= n,
            passes_first_checks(*header, region_x, seed, generator_version, 4),
            forall|j: int| 0 <= j < i ==> region_of(#[trigger] header.chunk_xs@[j] as int) == region_x,
        decreases n - i,
    {
        let region = header.chunk_xs[i].checked_div_euclid(REGION_CHUNKS).unwrap();
        if region != region_x {
            return Err(numbered_format("region ", region_x as i128, " contains an out-of-range chunk"));
        }
        i += 1;
    }
    if header.pending_ticks.len() != n {
        return Err(numbered_format("region ", region_x as i128, " has a pending tick list per chunk missing or extra"));
    }
    let mut total: usize = 0;
    let mut i: usize = 0;
    while i < n
        invariant
            n == header.pending_ticks@.len(),
            passes_first_checks(*header, region_x, seed, generator_version, 6),
            i <= n,
            total == pending_total(header.pending_ticks@, i as int),
            total <= MAX_PENDING_TICKS_PER_REGION,
        decreases n - i,
    {
        let more = header.pending_ticks[i].len();
        if more > MAX_PENDING_TICKS_PER_REGION - total {
            proof {
                lemma_pending_total_grows(header.pending_ticks@, i as int + 1, n as int);
            }
            return Err(numbered_format("region ", region_x as i128, " holds more pending ticks than its chunks may owe"));
        }
        total = total + more;
        i += 1;
    }
    let area = crate::domain::CHUNK_AREA;
    let expected_blocks = n * area * 2;
    if dense.len() != expected_blocks {
        return Err(numbered_format("dense block array has ", dense.len() as i128, " entries; expected two layers per chunk"));
    }
    let mut chunks: Vec<ChunkSnapshot> = Vec::new();
    let mut k: usize = 0;
    while k < n
        invariant
            n == header.chunk_xs@.len(),
            n == header.pending_ticks@.len(),
            n <= 64,
            dense@.len() == n * area * 2,
            area == crate::domain::CHUNK_AREA,
            header_ok(*header, dense@.len() as int, region_x, seed, generator_version),
            k <= n,
            chunks@.len() == k,
            forall|j: int| 0 <= j < k ==> #[trigger] chunk_decodes(*header, dense@, j),
            forall|j: int| 0 <= j < k ==> decodes_to(*header, dense@, j, #[trigger] chunks@[j]),
        decreases n - k,
    {
        proof {
            assert(2 * k * area + 2 * area <= n * area * 2) by (nonlinear_arith)
                requires k < n, area == 2560;
        }
        let start = 2 * k * area;
        proof {
            assert(dense@.subrange(start as int, start + area) == dense_foreground(dense@, k as int));
            assert(dense@.subrange(start + area, start + area + area) == dense_backwall(dense@, k as int));
        }
        let foreground = match decode_layer(&header.palette, dense, start, area) {
            Ok(codes) => codes,
            Err(error) => {
                proof {
                    assert(!chunk_decodes(*header, dense@, k as int));
                }
                return Err(error);
            },
        };
        let backwall = match decode_layer(&header.palette, dense, start + area, area) {
            Ok(codes) => codes,
            Err(error) => {
                proof {
                    assert(!chunk_decodes(*header, dense@, k as int));
                }
                return Err(error);
            },
        };
        let pending_ticks = match restore_ticks(&header.pending_ticks[k]) {
            Ok(ticks) => ticks,
            Err(error) => {
                proof {
                    assert(!chunk_decodes(*header, dense@, k as int));
                }
                return Err(error);
            },
        };
        let ghost before = chunks@;
        chunks.push(ChunkSnapshot { x: header.chunk_xs[k], foreground, backwall, pending_ticks });
        proof {
            assert(chunk_decodes(*header, dense@, k as int));
            assert forall|j: int| 0 <= j < k + 1 implies decodes_to(*header, dense@, j, #[trigger] chunks@[j]) by {
                if j < k {
                    assert(chunks@[j] == before[j]);
                }
            }
        }
        k += 1;
    }
    Ok(chunks)
}

proof fn lemma_pending_total_grows(lists: Seq<Vec<ScwScheduledTick>>, i: int, n: int)
    requires
        0 <= i <= n,
    ensures
        pending_total(lists, i) <= pending_total(lists, n),
    decreases n - i,
{
    if i < n {
        lemma_pending_total_grows(lists, i, n - 1);
    }
}


/// The ticks of one chunk as the region header stores them.
pub open spec fn persisted_ticks(ticks: Seq<ScheduledTick>) -> Seq<ScwScheduledTick> {
    ticks.map_values(|t: ScheduledTick| persisted_tick(t))
}

fn persist_ticks(ticks: &Vec<ScheduledTick>) -> (result: Vec<ScwScheduledTick>)
    ensures
        result@ == persisted_ticks(ticks@),
{
    let mut out: Vec<ScwScheduledTick> = Vec::new();
    let mut i: usize = 0;
    while i < ticks.len()
        invariant
            i <= ticks@.len(),
            out@ == persisted_ticks(ticks@.take(i as int)),
        decreases ticks@.len() - i,
    {
        out.push(ScwScheduledTick::from_tick(ticks[i]));
        i += 1;
        proof {
            assert(out@ =~= persisted_ticks(ticks@.take(i as int)));
        }
    }
    proof {
        assert(ticks@.take(i as int) =~= ticks@);
    }
    out
}

/// Whether `header` and `dense` are the encoding of `chunks` as region `region_x` of the world
/// with `seed` and `generator_version`: the palette of the chunks' states, their coordinates
/// and owed work in chunk order, and their layers as palette codes.
pub open spec fn encodes_region(
    header: ScwRegionHeader,
    dense: Seq<u8>,
    region_x: i64,
    seed: u64,
    generator_version: u32,
    chunks: Seq<ChunkSnapshot>,
) -> bool {
    &&& header.region_x == region_x
    &&& header.seed == seed
    &&& header.generator_version == generator_version
    &&& header.palette@ == region_palette(chunks)
    &&& header.chunk_xs@.len() == chunks.len()
    &&& header.pending_ticks@.len() == chunks.len()
    &&& forall|k: int| 0 <= k < chunks.len() ==> #[trigger] header.chunk_xs@[k] == chunks[k].x
    &&& forall|k: int| 0 <= k < chunks.len() ==> #[trigger] header.pending_ticks@[k]@ == persisted_ticks(chunks[k].pending_ticks@)
    &&& dense == encoded_chunks(header.palette@, chunks)
}

/// The header of a region file for `chunks`, and their dense block array: the region's
/// identity, the palette of the chunks' states, their coordinates and owed work in chunk
/// order, and each chunk's foreground then backwall as palette codes. `Validation` when a
/// layer holds a code that is neither air nor a block state.
pub fn encode_region_header(region_x: i64, seed: u64, generator_version: u32, chunks: &Vec<ChunkSnapshot>) -> (result:
    Result<(ScwRegionHeader, Vec<u8>), StoreError>)
    ensures
        result is Ok <==> codes_valid(chunks@),
        result matches Ok(encoded) ==> encodes_region(encoded.0, encoded.1@, region_x, seed, generator_version, chunks@),
        result matches Err(e) ==> e is Validation,
{
    let (palette, blocks) = match encode_region_blocks(chunks) {
        Ok(encoded) => encoded,
        Err(error) => return Err(error),
    };
    let mut chunk_xs: Vec<i64> = Vec::new();
    let mut pending_ticks: Vec<Vec<ScwScheduledTick>> = Vec::new();
    let mut k: usize = 0;
    while k < chunks.len()
        invariant
            k <= chunks@.len(),
            chunk_xs@.len() == k,
            pending_ticks@.len() == k,
            forall|j: int| 0 <= j < k ==> #[trigger] chunk_xs@[j] == chunks@[j].x,
            forall|j: int| 0 <= j < k ==> #[trigger] pending_ticks@[j]@ == persisted_ticks(chunks@[j].pending_ticks@),
        decreases chunks@.len() - k,
    {
        chunk_xs.push(chunks[k].x);
        pending_ticks.push(persist_ticks(&chunks[k].pending_ticks));
        k += 1;
    }
    Ok((ScwRegionHeader { region_x, seed, generator_version, palette, chunk_xs, pending_ticks }, blocks))
}

/// The payload of a region file before compression: the length of the encoded header as four
/// little-endian bytes, the header, then the dense block array.
pub open spec fn region_payload(header: Seq<u8>, blocks: Seq<u8>) -> Seq<u8> {
    le_bytes(header.len(), 4) + header + blocks
}

/// The encoded header and the dense block array a decompressed region payload splits into:
/// `None` when the length prefix is missing, larger than `MAX_HEADER_BYTES`, or runs past
/// the payload.
pub open spec fn payload_parts(payload: Seq<u8>) -> Option<(Seq<u8>, Seq<u8>)> {
    if payload.len() < 4 {
        None
    } else {
        let n = le_value(payload.take(4)) as int;
        if n > MAX_HEADER_BYTES || 4 + n > payload.len() {
            None
        } else {
            Some((payload.subrange(4, 4 + n), payload.skip(4 + n)))
        }
    }
}

/// Frames an encoded region header and its dense block array into a region file:
/// `Format` when the header exceeds `MAX_HEADER_BYTES`, otherwise the envelope of the
/// length-prefixed payload.
pub fn frame_region(header: &[u8], blocks: &[u8]) -> (result: Result<Vec<u8>, StoreError>)
    ensures
        header@.len() > MAX_HEADER_BYTES ==> (result matches Err(StoreError::Format(m)) && m@
            == "metadata is too large"@),
        header@.len() <= MAX_HEADER_BYTES ==> match zstd_encoded(region_payload(header@, blocks@), ZSTD_LEVEL) {
            None => result matches Err(StoreError::Compression(_)),
            Some(compressed) => if ENVELOPE_BYTES + compressed.len() > MAX_FILE_BYTES {
                result matches Err(StoreError::Format(_))
            } else {
                result matches Ok(file) && file@ == envelope_of(compressed)
            },
        },
{
    if header.len() > MAX_HEADER_BYTES {
        return Err(format_text("metadata is too large"));
    }
    let mut payload: Vec<u8> = Vec::new();
    push_u32_le(&mut payload, header.len() as u32);
    append_bytes(&mut payload, header);
    append_bytes(&mut payload, blocks);
    proof {
        assert(payload@ =~= region_payload(header@, blocks@));
    }
    encode_envelope(payload.as_slice())
}

/// Splits a decompressed region payload into its encoded header and dense block array;
/// every failure is a `Format` error.
pub fn split_region_payload(payload: &[u8]) -> (result: Result<(Vec<u8>, Vec<u8>), StoreError>)
    ensures
        match payload_parts(payload@) {
            Some(parts) => result matches Ok(split) && split.0@ == parts.0 && split.1@ == parts.1,
            None => result matches Err(StoreError::Format(m)) && m@ == (if payload@.len() < 4 {
                "metadata length is missing"@
            } else if le_value(payload@.take(4)) > MAX_HEADER_BYTES {
                "metadata is too large"@
            } else {
                "metadata is truncated"@
            }),
        },
{
    if payload.len() < 4 {
        return Err(format_text("metadata length is missing"));
    }
    let header_length = read_u32_le(payload, 0) as usize;
    proof {
        assert(payload@.subrange(0, 4) =~= payload@.take(4));
    }
    if header_length > MAX_HEADER_BYTES {
        return Err(format_text("metadata is too large"));
    }
    let header_end = 4 + header_length;
    if header_end > payload.len() {
        return Err(format_text("metadata is truncated"));
    }
    let header = slice_range(payload, 4, header_end);
    let dense = slice_skip(payload, header_end);
    Ok((header, dense))
}

/// Opens a region file: its envelope, decompressed to at most `MAX_DECOMPRESSED_BYTES`, then
/// its payload split into the encoded header and the dense block array. A file that
/// `frame_region` wrote opens to the header and block array it was framed from, unless
/// decompression fails.
pub fn unframe_region(file: &[u8]) -> (result: Result<(Vec<u8>, Vec<u8>), StoreError>)
    ensures
        forall|header: Seq<u8>, blocks: Seq<u8>|
            #![trigger zstd_encoded(region_payload(header, blocks), ZSTD_LEVEL)]
            header.len() <= MAX_HEADER_BYTES && region_payload(header, blocks).len() <= MAX_DECOMPRESSED_BYTES
                && zstd_encoded(region_payload(header, blocks), ZSTD_LEVEL) is Some && file@ == envelope_of(
                zstd_encoded(region_payload(header, blocks), ZSTD_LEVEL)->0,
            ) && ENVELOPE_BYTES + zstd_encoded(region_payload(header, blocks), ZSTD_LEVEL)->0.len() <= MAX_FILE_BYTES
                ==> (result matches Ok(split) && split.0@ == header && split.1@ == blocks) || result matches Err(
                StoreError::Compression(_),
            ),
        match envelope_problem(file@) {
            Some(k) => if k == 3 {
                result matches Err(StoreError::UnsupportedSchema(v)) && v == le_value(file@.subrange(4, 8))
            } else {
                result matches Err(StoreError::Format(_))
            },
            None => match zstd_decoded(file@.skip(16), (MAX_DECOMPRESSED_BYTES + 1) as u64) {
                None => result matches Err(StoreError::Compression(_)),
                Some(decoded) => if decoded.len() > MAX_DECOMPRESSED_BYTES {
                    result matches Err(StoreError::Format(_))
                } else {
                    match payload_parts(decoded) {
                        Some(parts) => result matches Ok(split) && split.0@ == parts.0 && split.1@ == parts.1,
                        None => result matches Err(StoreError::Format(_)),
                    }
                },
            },
        },
{
    let decoded = match decode_envelope(file, MAX_DECOMPRESSED_BYTES) {
        Ok(decoded) => decoded,
        Err(error) => return Err(error),
    };
    proof {
        assert forall|header: Seq<u8>, blocks: Seq<u8>|
            #![trigger zstd_encoded(region_payload(header, blocks), ZSTD_LEVEL)]
            header.len() <= MAX_HEADER_BYTES && region_payload(header, blocks).len() <= MAX_DECOMPRESSED_BYTES
                && zstd_encoded(region_payload(header, blocks), ZSTD_LEVEL) is Some && file@ == envelope_of(
                zstd_encoded(region_payload(header, blocks), ZSTD_LEVEL)->0,
            ) && ENVELOPE_BYTES + zstd_encoded(region_payload(header, blocks), ZSTD_LEVEL)->0.len()
                <= MAX_FILE_BYTES implies payload_parts(decoded@) == Some((header, blocks)) by {
            lemma_region_payload_round_trip(header, blocks);
        }
    }
    split_region_payload(decoded.as_slice())
}

/// A framed payload splits back into the header and block array it was framed from.
pub proof fn lemma_region_payload_round_trip(header: Seq<u8>, blocks: Seq<u8>)
    requires
        header.len() <= MAX_HEADER_BYTES,
    ensures
        payload_parts(region_payload(header, blocks)) == Some((header, blocks)),
{
    let p = region_payload(header, blocks);
    lemma_le_u32_round_trip(header.len() as u32);
    assert(p.take(4) =~= le_bytes(header.len(), 4));
    let n = header.len() as int;
    assert(p.subrange(4, 4 + n) =~= header);
    assert(p.skip(4 + n) =~= blocks);
}

} // verus!
