use sidecraft::application::repository::RepositoryError;
use sidecraft::application::snapshot::{blank_snapshot, ChunkSnapshot, PlayerSnapshot, WorldSnapshot};
use sidecraft::domain::block::BlockState;
use sidecraft::domain::world::{MutationPriority, ScheduledTick, VoxelPos};
use sidecraft::domain::{CHUNK_AREA, CHUNK_WIDTH, WORLD_HEIGHT};
use sidecraft::storage::codec::{
    checksum, decode_envelope, encode_envelope, Fnv1a, ENVELOPE_BYTES, MAX_DECOMPRESSED_BYTES, MAX_HEADER_BYTES,
    SAVE_SCHEMA_VERSION, SCW_MAGIC,
};
use sidecraft::storage::names::{default_world_name, region_file_name, world_id_candidate};
use sidecraft::storage::package::{
    check_region_hash, group_regions, is_obsolete_region_file, metadata_from_save, region_ref, save_from_metadata,
    validate_for_store, validate_manifest, ScwManifest, ScwMetadata, ScwRegionRef,
};
use sidecraft::storage::region::{
    decode_region_body, encode_region_header, frame_region, hash_region_for_schema, split_region_payload,
    unframe_region, ScwPaletteBlock, ScwRegionHeader, ScwScheduledTick,
};
use sidecraft::storage::{repository_error, StoreError};

type PersistedTick = (u64, u16, i64, i32, u8, u64, u8);
type HeaderFields = (i64, u64, u32, Vec<(u16, u8)>, Vec<i64>, Vec<Vec<PersistedTick>>);

/// The header as Postcard writes a struct: its fields in order.
fn header_fields(header: &ScwRegionHeader) -> HeaderFields {
    (
        header.region_x,
        header.seed,
        header.generator_version,
        header.palette.iter().map(|entry| (entry.id, entry.variant)).collect(),
        header.chunk_xs.clone(),
        header
            .pending_ticks
            .iter()
            .map(|ticks| {
                ticks
                    .iter()
                    .map(|t| (t.due_world_tick, t.priority, t.global_x, t.y, t.layer, t.sequence, t.expected))
                    .collect()
            })
            .collect(),
    )
}

fn header_from_fields(fields: HeaderFields) -> ScwRegionHeader {
    ScwRegionHeader {
        region_x: fields.0,
        seed: fields.1,
        generator_version: fields.2,
        palette: fields.3.into_iter().map(|(id, variant)| ScwPaletteBlock { id, variant }).collect(),
        chunk_xs: fields.4,
        pending_ticks: fields
            .5
            .into_iter()
            .map(|ticks| {
                ticks
                    .into_iter()
                    .map(|(due_world_tick, priority, global_x, y, layer, sequence, expected)| ScwScheduledTick {
                        due_world_tick,
                        priority,
                        global_x,
                        y,
                        layer,
                        sequence,
                        expected,
                    })
                    .collect()
            })
            .collect(),
    }
}

fn encode_region(region_x: i64, metadata: &ScwMetadata, chunks: &[ChunkSnapshot]) -> Result<Vec<u8>, StoreError> {
    let (header, blocks) =
        encode_region_header(region_x, metadata.seed, metadata.generator_version, &chunks.to_vec())?;
    let encoded = postcard::to_allocvec(&header_fields(&header)).map_err(StoreError::Postcard)?;
    frame_region(&encoded, &blocks)
}

fn decode_region(file: &[u8], region_x: i64, metadata: &ScwMetadata) -> Result<Vec<ChunkSnapshot>, StoreError> {
    let (encoded, dense) = unframe_region(file)?;
    let (fields, remaining): (HeaderFields, &[u8]) =
        postcard::take_from_bytes(&encoded).map_err(StoreError::Postcard)?;
    if !remaining.is_empty() {
        return Err(StoreError::Format("metadata contains trailing data".to_string()));
    }
    decode_region_body(&header_from_fields(fields), &dense, region_x, metadata.seed, metadata.generator_version)
}

fn tick(global_x: i64, due: u64, sequence: u64) -> ScheduledTick {
    ScheduledTick {
        due_world_tick: due,
        priority: MutationPriority::player(),
        position: VoxelPos::foreground(global_x, 12),
        sequence,
        expected: Some(BlockState::STONE),
    }
}

fn example_chunk(x: i64) -> ChunkSnapshot {
    let mut foreground = vec![0; CHUNK_AREA];
    foreground[0] = BlockState::BEDROCK.code();
    foreground[1] = BlockState::BEDROCK.code();
    foreground[(2 * CHUNK_WIDTH + 3) as usize] = BlockState::TORCH.code();
    let mut backwall = vec![0; CHUNK_AREA];
    backwall[4] = BlockState::STONE.code();
    ChunkSnapshot { x, foreground, backwall, pending_ticks: Vec::new() }
}

fn player() -> PlayerSnapshot {
    PlayerSnapshot { chunk_x: 0, local_x_bits: 2.5f32.to_bits(), y_bits: 4.0f32.to_bits(), selected_slot: 1 }
}

fn example_save() -> WorldSnapshot {
    blank_snapshot(7, "Example".to_string(), vec![example_chunk(0)], player(), 10)
}

fn ticking_save() -> WorldSnapshot {
    let mut save = example_save();
    save.world_tick = 4_096;
    save.next_tick_sequence = 9;
    save.chunks[0].pending_ticks = vec![tick(5, 100, 3), tick(5, 100, 8), tick(9, 400, 1)];
    save
}

/// Writes every region of a save and reads the save back from them, as a package does.
fn round_trip(save: &WorldSnapshot) -> WorldSnapshot {
    validate_for_store(save, true).unwrap();
    let metadata = metadata_from_save(save);
    let mut chunks = Vec::new();
    for (region_x, region_chunks) in group_regions(&save.chunks) {
        let reference = region_ref(region_x, &region_chunks);
        let file = encode_region(region_x, &metadata, &region_chunks).unwrap();
        let decoded = decode_region(&file, region_x, &metadata).unwrap();
        check_region_hash(&reference, &decoded).unwrap();
        chunks.extend(decoded);
    }
    let loaded = save_from_metadata(metadata, chunks);
    validate_for_store(&loaded, true).unwrap();
    loaded
}

#[test]
fn pending_ticks_and_world_tick_round_trip() {
    let save = ticking_save();
    assert_eq!(round_trip(&save), save);
}

#[test]
fn payload_uses_two_dense_arrays_and_one_palette() {
    let save = example_save();
    let metadata = metadata_from_save(&save);
    let encoded = encode_region(0, &metadata, &save.chunks).unwrap();
    let decoded = decode_region(&encoded, 0, &metadata).unwrap();
    assert_eq!(decoded, save.chunks);

    let payload = decode_envelope(&encoded, MAX_DECOMPRESSED_BYTES).unwrap();
    let header_length = u32::from_le_bytes(payload[..4].try_into().unwrap()) as usize;
    let (fields, _): (HeaderFields, &[u8]) = postcard::take_from_bytes(&payload[4..4 + header_length]).unwrap();
    assert_eq!(payload.len() - 4 - header_length, CHUNK_AREA * 2);
    let mut expected = vec![
        ScwPaletteBlock::from_code(BlockState::TORCH.code()).unwrap(),
        ScwPaletteBlock::from_code(BlockState::STONE.code()).unwrap(),
        ScwPaletteBlock::from_code(BlockState::BEDROCK.code()).unwrap(),
    ];
    expected.sort();
    assert_eq!(header_from_fields(fields).palette, expected);
}

#[test]
fn schema_six_is_exact_and_neighbouring_versions_are_rejected() {
    let encoded = encode_envelope(b"manifest").unwrap();
    assert_eq!(&encoded[..4], &SCW_MAGIC);
    assert_eq!(u32::from_le_bytes(encoded[4..8].try_into().unwrap()), SAVE_SCHEMA_VERSION);

    for version in [5_u32, 7] {
        let mut stamped = encoded.clone();
        stamped[4..8].copy_from_slice(&version.to_le_bytes());
        assert!(matches!(
            decode_envelope(&stamped, MAX_HEADER_BYTES),
            Err(StoreError::UnsupportedSchema(found)) if found == version
        ));
    }
    assert_eq!(decode_envelope(&encoded, MAX_HEADER_BYTES).unwrap(), b"manifest".to_vec());
}

#[test]
fn corrupted_envelopes_are_rejected() {
    assert!(matches!(decode_envelope(b"JSON{}", MAX_HEADER_BYTES), Err(StoreError::Format(_))));

    let save = example_save();
    let metadata = metadata_from_save(&save);
    let encoded = encode_region(0, &metadata, &save.chunks).unwrap();

    let mut flipped = encoded.clone();
    *flipped.last_mut().unwrap() ^= 0xff;
    assert!(matches!(
        decode_region(&flipped, 0, &metadata),
        Err(StoreError::Format(message)) if message.contains("checksum")
    ));

    let mut truncated = encoded.clone();
    truncated.truncate(encoded.len() / 2);
    assert!(decode_region(&truncated, 0, &metadata).is_err());

    let mut header_only = encoded;
    header_only.truncate(ENVELOPE_BYTES - 1);
    assert!(matches!(
        decode_region(&header_only, 0, &metadata),
        Err(StoreError::Format(message)) if message.contains("truncated")
    ));
}

#[test]
fn region_identity_and_ordering_are_validated() {
    let save = example_save();
    let metadata = metadata_from_save(&save);
    let chunks = vec![example_chunk(0), example_chunk(1)];
    let encoded = encode_region(0, &metadata, &chunks).unwrap();

    assert!(decode_region(&encoded, 1, &metadata).is_err());
    let foreign = ScwMetadata { seed: metadata.seed + 1, ..metadata.clone() };
    assert!(decode_region(&encoded, 0, &foreign).is_err());

    let mut unsorted = chunks.clone();
    unsorted.swap(0, 1);
    let encoded = encode_region(0, &metadata, &unsorted).unwrap();
    assert!(decode_region(&encoded, 0, &metadata).is_err());

    let encoded = encode_region(0, &metadata, &[example_chunk(64)]).unwrap();
    assert!(decode_region(&encoded, 0, &metadata).is_err());

    let encoded = encode_region(0, &metadata, &[]).unwrap();
    assert!(decode_region(&encoded, 0, &metadata).is_err());
}

#[test]
fn malformed_palettes_and_dense_arrays_are_rejected() {
    let mut save = example_save();
    save.chunks.push(save.chunks[0].clone());
    assert!(validate_for_store(&save, true).is_err());

    let save = example_save();
    let metadata = metadata_from_save(&save);
    let encoded = encode_region(0, &metadata, &save.chunks).unwrap();
    let payload = decode_envelope(&encoded, MAX_DECOMPRESSED_BYTES).unwrap();
    let header_length = u32::from_le_bytes(payload[..4].try_into().unwrap()) as usize;

    let mut broken = payload.clone();
    broken[4 + header_length + 10] = 200;
    assert!(decode_region(&encode_envelope(&broken).unwrap(), 0, &metadata).is_err());

    let mut short = payload;
    short.truncate(short.len() - 1);
    assert!(decode_region(&encode_envelope(&short).unwrap(), 0, &metadata).is_err());
}

#[test]
fn invalid_pending_ticks_are_rejected() {
    let mut outside = ticking_save();
    outside.chunks[0].pending_ticks = vec![tick(64, 1, 0)];
    assert!(matches!(
        repository_error(validate_for_store(&outside, true).unwrap_err()),
        RepositoryError::InvalidSnapshot(_)
    ));

    let mut unsorted = ticking_save();
    unsorted.chunks[0].pending_ticks = vec![tick(5, 100, 8), tick(5, 100, 3)];
    assert!(validate_for_store(&unsorted, true).is_err());

    let mut ahead = ticking_save();
    ahead.next_tick_sequence = 1;
    assert!(validate_for_store(&ahead, true).is_err());

    let mut too_high = ticking_save();
    too_high.chunks[0].pending_ticks = vec![ScheduledTick { position: VoxelPos::foreground(5, WORLD_HEIGHT), ..tick(5, 1, 0) }];
    assert!(validate_for_store(&too_high, true).is_err());

    let unknown_layer = ScwScheduledTick { layer: 2, ..ScwScheduledTick::from_tick(tick(5, 1, 0)) };
    assert!(unknown_layer.tick().is_err());
    let unknown_block = ScwScheduledTick { expected: 250, ..ScwScheduledTick::from_tick(tick(5, 1, 0)) };
    assert!(unknown_block.tick().is_err());
    assert_eq!(ScwScheduledTick::from_tick(tick(5, 1, 0)).tick().unwrap(), tick(5, 1, 0));
}

#[test]
fn a_pending_tick_change_alone_republishes_the_region() {
    let mut save = ticking_save();
    let before = region_ref(0, &save.chunks);

    save.chunks[0].pending_ticks.push(tick(9, 500, 2));
    let after = region_ref(0, &save.chunks);

    assert_ne!(before.file_name, after.file_name);
    let manifest = ScwManifest { metadata: metadata_from_save(&save), regions: vec![after.clone()] };
    assert!(is_obsolete_region_file(&before.file_name, &manifest));
    assert!(!is_obsolete_region_file(&after.file_name, &manifest));
    assert!(!is_obsolete_region_file(&"manifest.scw".to_string(), &manifest));
    assert_eq!(round_trip(&save), save);
}

#[test]
fn mod_large_horizontal_coordinates_round_trip_without_float_precision_loss() {
    let mut save = ticking_save();
    save.player.chunk_x = 4_000_000_000_000;
    save.player.local_x_bits = 31.75f32.to_bits();
    let far = 4_000_000_000_000 * i64::from(CHUNK_WIDTH);
    save.chunks[0].x = -4_000_000_000_000;
    save.chunks[0].pending_ticks = vec![tick(-far, 3, 0)];

    assert_eq!(round_trip(&save), save);
}

#[test]
fn large_absolute_day_time_round_trips_exactly() {
    let mut save = example_save();
    save.day_time_ticks = u64::MAX - 17;
    save.world_tick = u64::MAX - 3;
    let loaded = round_trip(&save);
    assert_eq!(loaded.day_time_ticks, u64::MAX - 17);
    assert_eq!(loaded.world_tick, u64::MAX - 3);
}

#[test]
fn region_hash_is_separated_by_schema() {
    let chunks = ticking_save().chunks;
    assert_ne!(hash_region_for_schema(&chunks, 5), hash_region_for_schema(&chunks, 6));
}

#[test]
fn chunks_are_partitioned_into_ascending_regions() {
    let chunks: Vec<ChunkSnapshot> = [-65, -1, 0, 64].into_iter().map(example_chunk).collect();
    let groups = group_regions(&chunks);
    assert_eq!(groups.iter().map(|group| group.0).collect::<Vec<_>>(), vec![-2, -1, 0, 1]);
    assert_eq!(groups.iter().map(|group| group.1.len()).collect::<Vec<_>>(), vec![1, 1, 1, 1]);
    let mut save = example_save();
    save.chunks = chunks;
    assert_eq!(round_trip(&save), save);
}

#[test]
fn file_names_are_canonical() {
    assert_eq!(region_file_name(-2, 0xab), "region--2-00000000000000ab.scw");
    assert_eq!(region_file_name(i64::MIN, u64::MAX), format!("region-{}-ffffffffffffffff.scw", i64::MIN));
    assert_eq!(world_id_candidate(7, 1), "world-0000000000000007");
    assert_eq!(world_id_candidate(7, 2), "world-0000000000000007-2");
    assert_eq!(world_id_candidate(0xdead_beef, 13), "world-00000000deadbeef-13");
    assert_eq!(default_world_name(0x1234_5678_9abc_def0), "World 9ABCDEF0");
    assert_eq!(default_world_name(7), "World 00000007");
}

#[test]
fn manifests_need_sorted_regions_under_canonical_names_and_the_world_height() {
    let metadata = metadata_from_save(&example_save());
    let region = |region_x: i64| ScwRegionRef {
        region_x,
        content_hash: 0x1234,
        file_name: region_file_name(region_x, 0x1234),
    };
    let manifest = ScwManifest { metadata: metadata.clone(), regions: vec![region(-1), region(0)] };
    assert!(validate_manifest(&manifest).is_ok());
    let unsorted = ScwManifest { metadata: metadata.clone(), regions: vec![region(0), region(-1)] };
    assert!(matches!(validate_manifest(&unsorted), Err(StoreError::Format(_))));
    let mut renamed = region(0);
    renamed.file_name = "region-0-1234.scw".to_string();
    let misnamed = ScwManifest { metadata: metadata.clone(), regions: vec![renamed] };
    assert!(matches!(validate_manifest(&misnamed), Err(StoreError::Format(_))));
    let short = ScwManifest { metadata: ScwMetadata { height: 64, ..metadata }, regions: vec![] };
    assert!(matches!(validate_manifest(&short), Err(StoreError::Format(_))));
}

#[test]
fn a_tampered_region_fails_its_manifest_hash() {
    let save = example_save();
    let reference = region_ref(0, &save.chunks);
    let mut chunks = save.chunks.clone();
    chunks[0].foreground[7] = BlockState::DIRT.code();
    let error = check_region_hash(&reference, &chunks).unwrap_err();
    assert!(matches!(
        repository_error(error),
        RepositoryError::Corrupt(message) if message.contains("content hash")
    ));
}

#[test]
fn checksums_are_fnv1a_64() {
    assert_eq!(checksum(b""), 0xcbf2_9ce4_8422_2325);
    assert_eq!(checksum(b"a"), 0xaf63_dc4c_8601_ec8c);
    let mut hash = Fnv1a::new();
    hash.write(b"a");
    assert_eq!(hash.finish(), checksum(b"a"));
}

#[test]
fn payload_split_rejects_missing_oversized_and_truncated_headers() {
    assert!(matches!(split_region_payload(&[1, 0]), Err(StoreError::Format(_))));
    let mut oversized = ((MAX_HEADER_BYTES + 1) as u32).to_le_bytes().to_vec();
    oversized.extend_from_slice(&[0; 8]);
    assert!(matches!(split_region_payload(&oversized), Err(StoreError::Format(message)) if message.contains("too large")));
    assert!(matches!(split_region_payload(&[5, 0, 0, 0, 1, 2]), Err(StoreError::Format(message)) if message.contains("truncated")));
    assert_eq!(split_region_payload(&[2, 0, 0, 0, 7, 8, 9]).unwrap(), (vec![7, 8], vec![9]));
    let framed = frame_region(&[7, 8], &[9]).unwrap();
    assert_eq!(unframe_region(&framed).unwrap(), (vec![7, 8], vec![9]));
}

#[test]
fn palette_entries_keep_kind_identifiers_and_variants() {
    let grass = ScwPaletteBlock::from_code(BlockState::GRASS.code()).unwrap();
    let torch = ScwPaletteBlock::from_code(BlockState::TORCH.code()).unwrap();
    let wall_torch = ScwPaletteBlock::from_code(BlockState::WALL_TORCH_LEFT.code()).unwrap();
    assert_eq!((grass.id, grass.variant), (1, 0));
    assert_eq!((torch.id, torch.variant), (8, 0));
    assert_eq!((wall_torch.id, wall_torch.variant), (8, 1));
    assert_eq!(wall_torch.code(), Some(BlockState::WALL_TORCH_LEFT.code()));
    assert_eq!(ScwPaletteBlock { id: 3, variant: 1 }.code(), None);
    assert_eq!(ScwPaletteBlock::from_code(0), None);
}

#[test]
fn store_errors_map_to_repository_errors() {
    assert!(matches!(repository_error(StoreError::UnsupportedSchema(5)), RepositoryError::UnsupportedSchema(5)));
    assert!(matches!(repository_error(StoreError::Format("x".to_string())), RepositoryError::Corrupt(text) if text == "x"));
    assert!(matches!(
        repository_error(StoreError::Validation("y".to_string())),
        RepositoryError::InvalidSnapshot(error) if error.0 == "y"
    ));
    assert!(matches!(
        repository_error(StoreError::Io(std::io::Error::other("disk"))),
        RepositoryError::Unavailable(_)
    ));
}

#[test]
fn invalid_codes_are_refused_before_encoding() {
    let mut chunk = example_chunk(0);
    chunk.backwall[9] = 12;
    assert!(matches!(encode_region_header(0, 7, 2, &vec![chunk]), Err(StoreError::Validation(_))));
}

#[test]
fn region_header_failures_name_what_is_wrong() {
    let version = sidecraft::domain::GENERATOR_VERSION;
    let header = ScwRegionHeader {
        region_x: 3,
        seed: 7,
        generator_version: version,
        palette: vec![],
        chunk_xs: vec![],
        pending_ticks: vec![],
    };
    match decode_region_body(&header, &[], 2, 7, version) {
        Err(StoreError::Format(message)) => assert_eq!(message, "region 2 identity does not match the manifest"),
        _ => panic!("a foreign header must be refused"),
    }
    match decode_region_body(&header, &[], 3, 7, version) {
        Err(StoreError::Format(message)) => assert_eq!(message, "region 3 must hold 1 to 64 chunks"),
        _ => panic!("an empty region must be refused"),
    }
    match split_region_payload(&[1, 2]) {
        Err(StoreError::Format(message)) => assert_eq!(message, "metadata length is missing"),
        _ => panic!("a payload without its length must be refused"),
    }
}
