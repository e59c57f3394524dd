use vstd::prelude::*;
use vstd::string::StringExecFns;

use crate::application::snapshot::{valid_snapshot, validate_snapshot, ChunkSnapshot, PlayerSnapshot, WorldSnapshot};
use crate::domain::WORLD_HEIGHT;
use crate::storage::codec::{
    checksum_of, encode_envelope, envelope_of, zstd_encoded, ENVELOPE_BYTES, MAX_FILE_BYTES, MAX_HEADER_BYTES, ZSTD_LEVEL,
};
use crate::storage::names::{region_file_name, region_file_name_text};
use crate::storage::region::{hash_region, region_hash_bytes, region_of, REGION_CHUNKS};
use crate::storage::StoreError;

verus! {

/// The world-wide part of a package manifest. The player's position within its chunk is
/// kept as the IEEE-754 bits of its two coordinates.
#[derive(Debug, Clone, PartialEq, Eq)]
pub struct ScwMetadata {
    pub generator_version: u32,
    pub height: i32,
    pub name: String,
    pub seed: u64,
    pub created_at_unix_s: u64,
    pub last_played_unix_s: u64,
    pub day_time_ticks: u64,
    pub world_tick: u64,
    pub next_tick_sequence: u64,
    pub player_chunk_x: i64,
    pub player_local_x_bits: u32,
    pub player_y_bits: u32,
    pub selected_slot: u8,
}

/// A region listed by a manifest: its coordinate, the hash of its content and its file.
#[derive(Debug, Clone, PartialEq, Eq)]
pub struct ScwRegionRef {
    pub region_x: i64,
    pub content_hash: u64,
    pub file_name: String,
}

/// The manifest of a package: the world's metadata and its regions.
#[derive(Debug, Clone, PartialEq, Eq)]
pub struct ScwManifest {
    pub metadata: ScwMetadata,
    pub regions: Vec<ScwRegionRef>,
}

/// Whether `metadata` records every world-wide field of `save`.
pub open spec fn metadata_records(metadata: ScwMetadata, save: WorldSnapshot) -> bool {
    &&& metadata.generator_version == save.generator_version
    &&& metadata.height == save.height
    &&& metadata.name@ == save.name@
    &&& metadata.seed == save.seed
    &&& metadata.created_at_unix_s == save.created_at_unix_s
    &&& metadata.last_played_unix_s == save.last_played_unix_s
    &&& metadata.day_time_ticks == save.day_time_ticks
    &&& metadata.world_tick == save.world_tick
    &&& metadata.next_tick_sequence == save.next_tick_sequence
    &&& metadata.player_chunk_x == save.player.chunk_x
    &&& metadata.player_local_x_bits == save.player.local_x_bits
    &&& metadata.player_y_bits == save.player.y_bits
    &&& metadata.selected_slot == save.player.selected_slot
}

/// The manifest metadata of a save.
pub fn metadata_from_save(save: &WorldSnapshot) -> (result: ScwMetadata)
    ensures
        metadata_records(result, *save),
{
    ScwMetadata {
        generator_version: save.generator_version,
        height: save.height,
        name: save.name.clone(),
        seed: save.seed,
        created_at_unix_s: save.created_at_unix_s,
        last_played_unix_s: save.last_played_unix_s,
        day_time_ticks: save.day_time_ticks,
        world_tick: save.world_tick,
        next_tick_sequence: save.next_tick_sequence,
        player_chunk_x: save.player.chunk_x,
        player_local_x_bits: save.player.local_x_bits,
        player_y_bits: save.player.y_bits,
        selected_slot: save.player.selected_slot,
    }
}

/// The save that `metadata` and the chunks of its regions make up.
pub fn save_from_metadata(metadata: ScwMetadata, chunks: Vec<ChunkSnapshot>) -> (result: WorldSnapshot)
    ensures
        metadata_records(metadata, result),
        result.chunks@ == chunks@,
{
    WorldSnapshot {
        generator_version: metadata.generator_version,
        height: metadata.height,
        name: metadata.name,
        seed: metadata.seed,
        created_at_unix_s: metadata.created_at_unix_s,
        last_played_unix_s: metadata.last_played_unix_s,
        day_time_ticks: metadata.day_time_ticks,
        world_tick: metadata.world_tick,
        next_tick_sequence: metadata.next_tick_sequence,
        player: PlayerSnapshot {
            chunk_x: metadata.player_chunk_x,
            local_x_bits: metadata.player_local_x_bits,
            y_bits: metadata.player_y_bits,
            selected_slot: metadata.selected_slot,
        },
        chunks,
    }
}

/// Checks a save for the store: the snapshot's own checks, failures reported as
/// `Validation` with the snapshot's reason.
pub fn validate_for_store(save: &WorldSnapshot, player_position_ok: bool) -> (result: Result<(), StoreError>)
    ensures
        result is Ok <==> valid_snapshot(*save) && player_position_ok,
        result matches Err(e) ==> e is Validation,
{
    match validate_snapshot(save, player_position_ok) {
        Ok(()) => Ok(()),
        Err(error) => Err(StoreError::Validation(error.0)),
    }
}

/// A manifest's regions are strictly ascending, each under its canonical file name, and its
/// chunks have the world's height.
pub open spec fn manifest_ok(manifest: ScwManifest) -> bool {
    &&& manifest.metadata.height == WORLD_HEIGHT
    &&& forall|i: int| 0 <= i < manifest.regions@.len() - 1 ==> #[trigger] manifest.regions@[i].region_x < manifest.regions@[i + 1].region_x
    &&& forall|i: int|
        0 <= i < manifest.regions@.len() ==> #[trigger] manifest.regions@[i].file_name@ == region_file_name_text(
            manifest.regions@[i].region_x as int,
            manifest.regions@[i].content_hash,
        )
}

/// Checks a manifest before any region is read; every failure is a `Format` error.
pub fn validate_manifest(manifest: &ScwManifest) -> (result: Result<(), StoreError>)
    ensures
        result is Ok <==> manifest_ok(*manifest),
        result matches Err(e) ==> e is Format,
{
    if manifest.metadata.height != WORLD_HEIGHT {
        let mut message = String::from_str("expected chunk height ");
        message.append(WORLD_HEIGHT.to_string().as_str());
        return Err(StoreError::Format(message));
    }
    let regions = &manifest.regions;
    let mut i: usize = 1;
    while i < regions.len()
        invariant
            regions@ == manifest.regions@,
            1 <= i,
            forall|j: int| 0 <= j < i - 1 ==> #[trigger] regions@[j].region_x < regions@[j + 1].region_x,
        decreases regions@.len() - i,
    {
        if regions[i - 1].region_x >= regions[i].region_x {
            return Err(StoreError::Format(String::from_str("manifest regions must be unique and sorted")));
        }
        i += 1;
    }
    let mut i: usize = 0;
    while i < regions.len()
        invariant
            regions@ == manifest.regions@,
            i <= regions@.len(),
            forall|j: int|
                0 <= j < i ==> #[trigger] regions@[j].file_name@ == region_file_name_text(
                    regions@[j].region_x as int,
                    regions@[j].content_hash,
                ),
        decreases regions@.len() - i,
    {
        let expected = region_file_name(regions[i].region_x, regions[i].content_hash);
        if regions[i].file_name != expected {
            return Err(StoreError::Format(String::from_str("manifest contains an invalid region path")));
        }
        i += 1;
    }
    Ok(())
}

/// The parts of a chunk record that a copy keeps.
pub open spec fn chunk_record(c: ChunkSnapshot) -> (i64, Seq<u8>, Seq<u8>, Seq<crate::domain::world::ScheduledTick>) {
    (c.x, c.foreground@, c.backwall@, c.pending_ticks@)
}

/// The chunk records of a list of regions, region after region.
pub open spec fn regions_flat(groups: Seq<(i64, Vec<ChunkSnapshot>)>) -> Seq<(
    i64,
    Seq<u8>,
    Seq<u8>,
    Seq<crate::domain::world::ScheduledTick>,
)>
    decreases groups.len(),
{
    if groups.len() == 0 {
        Seq::empty()
    } else {
        regions_flat(groups.drop_last()) + groups.last().1@.map_values(|c: ChunkSnapshot| chunk_record(c))
    }
}

/// A copy of a chunk record.
pub fn copy_chunk(chunk: &ChunkSnapshot) -> (result: ChunkSnapshot)
    ensures
        chunk_record(result) == chunk_record(*chunk),
{
    let foreground = chunk.foreground.clone();
    let backwall = chunk.backwall.clone();
    let pending_ticks = chunk.pending_ticks.clone();
    proof {
        assert(foreground@ =~= chunk.foreground@);
        assert(backwall@ =~= chunk.backwall@);
        assert(pending_ticks@ =~= chunk.pending_ticks@);
    }
    ChunkSnapshot { x: chunk.x, foreground, backwall, pending_ticks }
}

proof fn lemma_region_monotone(a: int, b: int)
    requires
        a <= b,
    ensures
        region_of(a) <= region_of(b),
{
    assert(a / 64 <= b / 64) by (nonlinear_arith)
        requires
            a <= b,
    ;
}

/// Splits a save's chunks, sorted by coordinate, into its regions: one group per region
/// that holds a chunk, in ascending order, each with its chunks in their order.
pub fn group_regions(chunks: &Vec<ChunkSnapshot>) -> (result: Vec<(i64, Vec<ChunkSnapshot>)>)
    requires
        forall|i: int, j: int| 0 <= i < j < chunks@.len() ==> #[trigger] chunks@[i].x < #[trigger] chunks@[j].x,
    ensures
        regions_flat(result@) == chunks@.map_values(|c: ChunkSnapshot| chunk_record(c)),
        forall|r: int| 0 <= r < result@.len() ==> #[trigger] result@[r].1@.len() > 0,
        forall|r: int, j: int|
            0 <= r < result@.len() && 0 <= j < result@[r].1@.len() ==> region_of(#[trigger] result@[r].1@[j].x as int)
                == result@[r].0,
        forall|r: int, s: int| 0 <= r < s < result@.len() ==> #[trigger] result@[r].0 < #[trigger] result@[s].0,
{
    let mut groups: Vec<(i64, Vec<ChunkSnapshot>)> = Vec::new();
    let mut current: Vec<ChunkSnapshot> = Vec::new();
    let mut current_region: i64 = 0;
    let mut k: usize = 0;
    while k < chunks.len()
        invariant
            k <= chunks@.len(),
            forall|i: int, j: int| 0 <= i < j < chunks@.len() ==> #[trigger] chunks@[i].x < #[trigger] chunks@[j].x,
            k == 0 ==> groups@.len() == 0 && current@.len() == 0,
            k > 0 ==> current@.len() > 0 && current_region == region_of(chunks@[k - 1].x as int),
            regions_flat(groups@) + current@.map_values(|c: ChunkSnapshot| chunk_record(c)) == chunks@.take(
                k as int,
            ).map_values(|c: ChunkSnapshot| chunk_record(c)),
            forall|r: int| 0 <= r < groups@.len() ==> #[trigger] groups@[r].1@.len() > 0,
            forall|r: int, j: int|
                0 <= r < groups@.len() && 0 <= j < groups@[r].1@.len() ==> region_of(
                    #[trigger] groups@[r].1@[j].x as int,
                ) == groups@[r].0,
            forall|j: int| 0 <= j < current@.len() ==> region_of(#[trigger] current@[j].x as int) == current_region,
            forall|r: int, s: int| 0 <= r < s < groups@.len() ==> #[trigger] groups@[r].0 < #[trigger] groups@[s].0,
            forall|r: int| 0 <= r < groups@.len() ==> #[trigger] groups@[r].0 < current_region,
        decreases chunks@.len() - k,
    {
        let chunk = copy_chunk(&chunks[k]);
        let region = chunks[k].x.checked_div_euclid(REGION_CHUNKS).unwrap();
        let ghost before_groups = groups@;
        let ghost before_current = current@;
        if k > 0 && region != current_region {
            proof {
                lemma_region_monotone(chunks@[k - 1].x as int, chunks@[k as int].x as int);
            }
            let mut finished: Vec<ChunkSnapshot> = Vec::new();
            std::mem::swap(&mut finished, &mut current);
            groups.push((current_region, finished));
            proof {
                assert(groups@.drop_last() =~= before_groups);
                assert(regions_flat(groups@) =~= regions_flat(before_groups) + before_current.map_values(
                    |c: ChunkSnapshot| chunk_record(c),
                ));
                assert forall|r: int, j: int|
                    0 <= r < groups@.len() && 0 <= j < groups@[r].1@.len() implies region_of(
                    #[trigger] groups@[r].1@[j].x as int,
                ) == groups@[r].0 by {
                    if r < before_groups.len() {
                        assert(groups@[r] == before_groups[r]);
                    }
                }
            }
        }
        let ghost mid_groups = groups@;
        let ghost mid_current = current@;
        current.push(chunk);
        current_region = region;
        proof {
            let f = |c: ChunkSnapshot| chunk_record(c);
            assert(chunks@.take(k as int + 1) =~= chunks@.take(k as int).push(chunks@[k as int]));
            assert(chunks@.take(k as int + 1).map_values(f) =~= chunks@.take(k as int).map_values(f).push(
                chunk_record(chunks@[k as int]),
            ));
            assert(current@.map_values(f) =~= mid_current.map_values(f).push(chunk_record(chunks@[k as int])));
            assert forall|j: int| 0 <= j < current@.len() implies region_of(#[trigger] current@[j].x as int)
                == current_region by {
                if j < mid_current.len() {
                    assert(current@[j] == mid_current[j]);
                }
            }
        }
        k += 1;
    }
    if k > 0 {
        let ghost before_groups = groups@;
        let ghost before_current = current@;
        groups.push((current_region, current));
        proof {
            assert(groups@.drop_last() =~= before_groups);
            assert forall|r: int, j: int|
                0 <= r < groups@.len() && 0 <= j < groups@[r].1@.len() implies region_of(
                #[trigger] groups@[r].1@[j].x as int,
            ) == groups@[r].0 by {
                if r < before_groups.len() {
                    assert(groups@[r] == before_groups[r]);
                }
            }
        }
    }
    proof {
        assert(chunks@.take(k as int) =~= chunks@);
        if k == 0 {
            assert(chunks@.map_values(|c: ChunkSnapshot| chunk_record(c)) =~= Seq::empty());
        }
    }
    groups
}

/// The manifest entry of a region holding `chunks`: its content hash and the file name
/// derived from it.
pub fn region_ref(region_x: i64, chunks: &Vec<ChunkSnapshot>) -> (result: ScwRegionRef)
    ensures
        result.region_x == region_x,
        result.content_hash == checksum_of(region_hash_bytes(chunks@, crate::storage::codec::SAVE_SCHEMA_VERSION)),
        result.file_name@ == region_file_name_text(region_x as int, result.content_hash),
{
    let content_hash = hash_region(chunks.as_slice());
    ScwRegionRef { region_x, content_hash, file_name: region_file_name(region_x, content_hash) }
}

/// Checks a decoded region against the hash its manifest lists; a mismatch is a `Format`
/// error.
pub fn check_region_hash(region: &ScwRegionRef, chunks: &Vec<ChunkSnapshot>) -> (result: Result<(), StoreError>)
    ensures
        result is Ok <==> region.content_hash == checksum_of(
            region_hash_bytes(chunks@, crate::storage::codec::SAVE_SCHEMA_VERSION),
        ),
        result matches Err(e) ==> e is Format,
{
    if hash_region(chunks.as_slice()) != region.content_hash {
        let mut message = String::from_str("region ");
        message.append(region.region_x.to_string().as_str());
        message.append(" content hash does not match the manifest");
        return Err(StoreError::Format(message));
    }
    Ok(())
}

/// Whether a file in a package directory is a region file that `manifest` no longer lists:
/// its name starts with `region-`, ends with `.scw` and is none of the listed names.
pub open spec fn obsolete_region_file(name: Seq<char>, manifest: ScwManifest) -> bool {
    &&& name.len() >= 7 && name.take(7) == seq!['r', 'e', 'g', 'i', 'o', 'n', '-']
    &&& name.len() >= 4 && name.skip(name.len() - 4) == seq!['.', 's', 'c', 'w']
    &&& forall|i: int| 0 <= i < manifest.regions@.len() ==> #[trigger] manifest.regions@[i].file_name@ != name
}

/// Whether `name` is a region file left over from an earlier save (see
/// `obsolete_region_file`).
pub fn is_obsolete_region_file(name: &String, manifest: &ScwManifest) -> (result: bool)
    ensures
        result == obsolete_region_file(name@, *manifest),
{
    let text = name.as_str();
    let n = text.unicode_len();
    let ghost prefix = seq!['r', 'e', 'g', 'i', 'o', 'n', '-'];
    if n < 7 || n < 4 {
        return false;
    }
    let p0 = text.get_char(0) == 'r' && text.get_char(1) == 'e' && text.get_char(2) == 'g' && text.get_char(3) == 'i';
    let p1 = text.get_char(4) == 'o' && text.get_char(5) == 'n' && text.get_char(6) == '-';
    if !(p0 && p1) {
        proof {
            if name@.take(7) == prefix {
                assert(name@.take(7)[0] == name@[0] && name@.take(7)[1] == name@[1] && name@.take(7)[2] == name@[2]);
                assert(name@.take(7)[3] == name@[3] && name@.take(7)[4] == name@[4] && name@.take(7)[5] == name@[5]);
                assert(name@.take(7)[6] == name@[6]);
            }
        }
        return false;
    }
    proof {
        assert(name@.take(7) =~= prefix);
    }
    let ghost suffix = seq!['.', 's', 'c', 'w'];
    let s0 = text.get_char(n - 4) == '.' && text.get_char(n - 3) == 's';
    let s1 = text.get_char(n - 2) == 'c' && text.get_char(n - 1) == 'w';
    if !(s0 && s1) {
        proof {
            let tail = name@.skip(name@.len() - 4);
            if tail == suffix {
                assert(tail[0] == name@[n - 4] && tail[1] == name@[n - 3]);
                assert(tail[2] == name@[n - 2] && tail[3] == name@[n - 1]);
            }
        }
        return false;
    }
    proof {
        assert(name@.skip(name@.len() - 4) =~= suffix);
    }
    let regions = &manifest.regions;
    let mut i: usize = 0;
    while i < regions.len()
        invariant
            regions@ == manifest.regions@,
            i <= regions@.len(),
            forall|j: int| 0 <= j < i ==> #[trigger] regions@[j].file_name@ != name@,
        decreases regions@.len() - i,
    {
        if regions[i].file_name == *name {
            return false;
        }
        i += 1;
    }
    true
}

/// Frames an encoded manifest into its file: `Format` when it exceeds `MAX_HEADER_BYTES`,
/// otherwise its envelope.
pub fn frame_manifest(payload: &[u8]) -> (result: Result<Vec<u8>, StoreError>)
    ensures
        payload@.len() > MAX_HEADER_BYTES ==> result matches Err(StoreError::Format(_)),
        payload@.len() <= MAX_HEADER_BYTES ==> match zstd_encoded(payload@, ZSTD_LEVEL) {
            None => result matches Err(StoreError::Compression(_)),
            Some(compressed) => if ENVELOPE_BYTES + compressed.len() > MAX_FILE_BYTES {
                result matches Err(StoreError::Format(_))
            } else {
                result matches Ok(file) && file@ == envelope_of(compressed)
            },
        },
{
    if payload.len() > MAX_HEADER_BYTES {
        return Err(StoreError::Format(String::from_str("metadata is too large")));
    }
    encode_envelope(payload)
}

/// Refuses a decoded record that leaves bytes unread: `Format` unless `remaining` is zero.
pub fn require_no_trailing_data(remaining: usize) -> (result: Result<(), StoreError>)
    ensures
        result is Ok <==> remaining == 0,
        result matches Err(e) ==> e is Format,
{
    if remaining != 0 {
        return Err(StoreError::Format(String::from_str("metadata contains trailing data")));
    }
    Ok(())
}

} // verus!
