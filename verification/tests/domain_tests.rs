use sidecraft::domain::block::{BlockId, BlockState, TorchMount};
use sidecraft::domain::generation::{generate_chunk, generated_voxel, stable_hash, SurfaceHeights};
use sidecraft::domain::lighting::LightVolume;
use sidecraft::domain::simulation::clock::{
    SimulationClock, MAX_ACCUMULATED_NANOS, MAX_STEPS_PER_FRAME, NANOS_PER_SECOND, NANOS_PER_STEP,
    SIMULATION_TICKS_PER_SECOND,
};
use sidecraft::domain::simulation::queue::{ScheduledTickQueue, MAX_SCHEDULED_PER_CHUNK_PER_TICK};
use sidecraft::domain::simulation::region::TickingArea;
use sidecraft::domain::time::{DayCycle, MoonPhase, TICKS_PER_DAY};
use sidecraft::domain::world::{
    chunk_is_representable, world_to_chunk, world_to_local, BlockChunk, BlockGrid, BlockPrecondition, BlockWrite,
    ChunkChange, ChunkLayer, MutationPriority, MutationProposal, MutationRejection, ProposalOutcome, ScheduledTick,
    VoxelCell, VoxelLayer, VoxelPos,
};
use sidecraft::domain::{CHUNK_AREA, CHUNK_WIDTH, WORLD_HEIGHT};
use sidecraft::application::snapshot::{blank_snapshot, ChunkSnapshot, PlayerSnapshot};
use sidecraft::domain::targeting::{active_layer_label, placement_state, toggled_layer, BlockTarget, TilePos};
use sidecraft::application::meshing::{chunk_faces, solid_runs, Face, SolidRun};
use std::collections::{BTreeSet, HashMap};

/// Surface heights at `height` for every column chunk `chunk_x` reads, in four slices.
fn flat_heights(chunk_x: i64, height: i32) -> SurfaceHeights {
    SurfaceHeights { first_x: chunk_x * 32 - 2, rows: vec![vec![height; 36]; 4] }
}

fn generated(seed: u64, chunk_x: i64) -> BlockChunk {
    generate_chunk(seed, chunk_x, &flat_heights(chunk_x, 40))
}

fn loaded_grid() -> BlockGrid {
    let mut grid = BlockGrid::new(WORLD_HEIGHT);
    grid.integrate_chunk(generated(1, -1));
    grid
}

/// Nanoseconds of a frame as the game's frame clock reports them: non-finite and
/// non-positive frames are none, and a frame is rounded to whole nanoseconds and capped at
/// what the accumulator holds.
fn nanos(seconds: f64) -> u64 {
    if !seconds.is_finite() || seconds <= 0.0 {
        return 0;
    }
    let rounded = (seconds * NANOS_PER_SECOND as f64).round();
    if rounded >= MAX_ACCUMULATED_NANOS as f64 {
        MAX_ACCUMULATED_NANOS
    } else {
        rounded as u64
    }
}

const SECONDS_PER_STEP: f64 = 1.0 / SIMULATION_TICKS_PER_SECOND as f64;

fn run_clock(deltas: impl IntoIterator<Item = f64>) -> (SimulationClock, u32) {
    let mut clock = SimulationClock::default();
    let mut total = 0;
    for delta in deltas {
        clock.accumulate_nanos(nanos(delta));
        total += clock.take_steps();
    }
    (clock, total)
}

// Blocks --------------------------------------------------------------------------------------

#[test]
fn hotbar_slots_are_complete_and_unique() {
    let slots: std::collections::HashSet<_> =
        BlockState::HOTBAR.iter().map(|state| state.def().hotbar_slot).collect();
    assert_eq!(slots.len(), 7);
    assert!(slots.contains(&Some(1)));
    assert!(slots.contains(&Some(7)));
    assert_eq!(BlockState::GRASS.def().hotbar_slot, None);
}

#[test]
fn torch_is_non_solid_and_emissive() {
    let torch = BlockState::TORCH.def();
    assert!(!torch.solid);
    assert_eq!(torch.light_opacity, 0);
    assert_eq!(torch.emitted_light, 14);
    assert!(BlockState::ALL
        .into_iter()
        .filter(|state| state.def().emitted_light > 0)
        .all(|state| state.torch_mount().is_some()));
}

#[test]
fn block_states_validate_ids_and_variants() {
    assert_eq!(BlockId::new(1), Some(BlockId::GRASS));
    assert_eq!(BlockId::new(9), Some(BlockId::BEDROCK));
    assert_eq!(BlockId::new(0), None);
    assert_eq!(BlockId::new(10), None);
    assert_eq!(BlockState::new(BlockId::STONE, 0), Some(BlockState::STONE));
    assert_eq!(BlockState::new(BlockId::STONE, 1), None);
    assert_eq!(BlockState::new(BlockId::TORCH, 1), Some(BlockState::WALL_TORCH_LEFT));
    assert_eq!(BlockState::new(BlockId::TORCH, 2), Some(BlockState::WALL_TORCH_RIGHT));
    assert_eq!(BlockState::new(BlockId::TORCH, 3), None);
}

#[test]
fn dense_codes_reserve_zero_for_air() {
    assert_eq!(BlockState::from_code(0), None);
    for state in BlockState::ALL {
        assert_eq!(BlockState::from_code(state.code()), Some(state));
    }
    assert_eq!(BlockState::from_code(255), None);
}

#[test]
fn torch_mounts_define_unambiguous_support_directions() {
    assert_eq!(TorchMount::Floor.support_offset(), (0, -1));
    assert_eq!(TorchMount::WallLeft.support_offset(), (1, 0));
    assert_eq!(TorchMount::WallRight.support_offset(), (-1, 0));
    assert_eq!(TorchMount::from_placement_offset(-1, 0), Some(TorchMount::WallLeft));
    assert_eq!(TorchMount::from_placement_offset(0, -1), None);
}

#[test]
fn bedrock_alone_cannot_be_broken() {
    for state in BlockState::ALL {
        assert_eq!(state.breakable(), state != BlockState::BEDROCK);
    }
}

#[test]
fn wall_torch_codes_follow_the_kind_identifiers() {
    assert_eq!(BlockState::WALL_TORCH_LEFT.code(), 10);
    assert_eq!(BlockState::WALL_TORCH_RIGHT.code(), 11);
    assert_eq!(BlockState::BEDROCK.code(), 9);
    assert_eq!(BlockState::TORCH.torch_mount(), Some(TorchMount::Floor));
    assert_eq!(BlockState::STONE.torch_mount(), None);
    assert_eq!(TorchMount::from_placement_offset(1, 0), Some(TorchMount::WallRight));
    assert_eq!(TorchMount::from_placement_offset(0, 1), Some(TorchMount::Floor));
}

// Simulation queue ---------------------------------------------------------------------------

fn schedule_at(queue: &mut ScheduledTickQueue, global_x: i64, due: u64) -> ScheduledTick {
    queue.schedule(VoxelPos::foreground(global_x, 40), MutationPriority::player(), due, None)
}

#[test]
fn drain_order_is_stable_regardless_of_insertion_order() {
    let drain = |order: [(i64, u64); 4]| {
        let mut queue = ScheduledTickQueue::default();
        for (global_x, due) in order {
            schedule_at(&mut queue, global_x, due);
        }
        queue.take_due(10, &[0, 1])
    };
    let forward = drain([(40, 9), (1, 10), (0, 9), (33, 10)]);
    let reverse = drain([(33, 10), (0, 9), (1, 10), (40, 9)]);

    assert_eq!(
        forward.iter().map(|tick| (tick.position.global_x, tick.due_world_tick)).collect::<Vec<_>>(),
        vec![(0, 9), (1, 10), (40, 9), (33, 10)]
    );
    assert_eq!(
        forward.iter().map(|tick| (tick.position, tick.due_world_tick)).collect::<Vec<_>>(),
        reverse.iter().map(|tick| (tick.position, tick.due_world_tick)).collect::<Vec<_>>()
    );
}

#[test]
fn inactive_chunks_freeze_and_stay_persisted() {
    let mut queue = ScheduledTickQueue::default();
    schedule_at(&mut queue, 0, 1);
    let frozen = schedule_at(&mut queue, 200, 1);

    assert_eq!(queue.take_due(5, &[0]).len(), 1);
    assert!(queue.owes_work(world_to_chunk(200)));
    assert_eq!(queue.pending_for_chunk(world_to_chunk(200)), vec![frozen]);
    assert_eq!(queue.queued_len(), 1);
}

#[test]
fn future_work_is_not_drained_early() {
    let mut queue = ScheduledTickQueue::default();
    schedule_at(&mut queue, 0, 7);
    assert!(queue.take_due(6, &[0]).is_empty());
    assert_eq!(queue.take_due(7, &[0]).len(), 1);
    assert!(!queue.owes_work(0));
}

#[test]
fn a_chunk_never_exceeds_its_per_tick_budget() {
    let mut queue = ScheduledTickQueue::default();
    let scheduled = MAX_SCHEDULED_PER_CHUNK_PER_TICK + 3;
    for _ in 0..scheduled {
        schedule_at(&mut queue, 0, 1);
    }

    let first = queue.take_due(1, &[0]);
    assert_eq!(first.len(), MAX_SCHEDULED_PER_CHUNK_PER_TICK);
    assert_eq!(queue.queued_len(), 3);
    let second = queue.take_due(1, &[0]);
    assert_eq!(
        second.iter().map(|tick| tick.sequence).collect::<Vec<_>>(),
        (MAX_SCHEDULED_PER_CHUNK_PER_TICK as u64..scheduled as u64).collect::<Vec<_>>()
    );
}

#[test]
fn sequences_are_allocated_monotonically_for_snapshot_validation() {
    let mut queue = ScheduledTickQueue::from_chunks(vec![], 4);
    assert_eq!(schedule_at(&mut queue, 0, 1).sequence, 4);
    assert_eq!(schedule_at(&mut queue, 0, 1).sequence, 5);
    assert_eq!(queue.next_sequence(), 6);
    assert!(queue.pending_for_chunk(0).iter().all(|tick| tick.sequence < queue.next_sequence()));
}

#[test]
fn reloaded_work_round_trips_through_chunk_grouping() {
    let mut original = ScheduledTickQueue::default();
    schedule_at(&mut original, 0, 3);
    schedule_at(&mut original, 200, 4);
    let chunks = original
        .chunks_owing_work()
        .into_iter()
        .map(|chunk_x| (chunk_x, original.pending_for_chunk(chunk_x)))
        .collect::<Vec<(i64, Vec<_>)>>();

    let reloaded = ScheduledTickQueue::from_chunks(chunks, original.next_sequence());

    assert_eq!(reloaded, original);
}

#[test]
fn drained_ticks_leave_the_queue_and_the_rest_stays() {
    let mut queue = ScheduledTickQueue::default();
    let early = schedule_at(&mut queue, 0, 2);
    let late = schedule_at(&mut queue, 5, 9);
    assert_eq!(queue.queued_len(), 2);
    assert_eq!(queue.take_due(2, &[0]), vec![early]);
    assert_eq!(queue.pending_for_chunk(0), vec![late]);
    assert_eq!(queue.chunks_owing_work(), vec![0]);
}

// Ticking areas ---------------------------------------------------------------------------------

#[test]
fn an_area_covers_exactly_its_radius() {
    let area = TickingArea::new(4, 2);
    assert_eq!(area.chunks(), vec![2, 3, 4, 5, 6]);
    assert!(area.contains(2));
    assert!(area.contains(6));
    assert!(!area.contains(1));
    assert!(!area.contains(7));
}

#[test]
fn area_chunks_are_overflow_safe() {
    assert_eq!(TickingArea::new(i64::MAX, 2).chunks(), vec![i64::MAX - 2, i64::MAX - 1, i64::MAX]);
    assert_eq!(TickingArea::new(i64::MIN, 1).chunks(), vec![i64::MIN, i64::MIN + 1]);
}

// World ---------------------------------------------------------------------------------------

#[test]
fn world_negative_coordinates_use_euclidean_chunks() {
    assert_eq!(world_to_chunk(-33), -2);
    assert_eq!(world_to_chunk(-32), -1);
    assert_eq!(world_to_chunk(-1), -1);
    assert_eq!(world_to_chunk(0), 0);
    assert_eq!(world_to_chunk(31), 0);
    assert_eq!(world_to_chunk(32), 1);
}

#[test]
fn local_columns_wrap_euclidean() {
    assert_eq!(world_to_local(-1), 31);
    assert_eq!(world_to_local(-32), 0);
    assert_eq!(world_to_local(33), 1);
}

#[test]
fn scheduled_ticks_sort_by_the_stable_key_and_ignore_expected_blocks() {
    let tick = |due, priority, global_x, sequence| ScheduledTick {
        due_world_tick: due,
        priority: MutationPriority(priority),
        position: VoxelPos::foreground(global_x, 4),
        sequence,
        expected: None,
    };
    let ordered = [tick(1, 0, 100, 0), tick(2, 0, -65, 0), tick(2, 1, -65, 0), tick(2, 1, -33, 0), tick(2, 1, -33, 1)];
    let mut shuffled = [ordered[3], ordered[0], ordered[4], ordered[2], ordered[1]];
    shuffled.sort();
    assert_eq!(shuffled, ordered);
    assert!(world_to_chunk(ordered[1].position.global_x) < world_to_chunk(ordered[3].position.global_x));

    let expecting_stone = ScheduledTick { expected: Some(BlockState::STONE), ..ordered[0] };
    assert_eq!(expecting_stone.key(), ordered[0].key());
    assert_ne!(expecting_stone, ordered[0]);
}

#[test]
fn chunk_representation_requires_both_bounds_to_fit() {
    let width = i64::from(CHUNK_WIDTH);
    let minimum = i64::MIN.div_euclid(width);
    let maximum = i64::MAX.div_euclid(width);

    assert!(chunk_is_representable(minimum));
    assert!(!chunk_is_representable(minimum - 1));
    assert!(chunk_is_representable(maximum - 1));
    assert!(!chunk_is_representable(maximum));
}

#[test]
fn view_distinguishes_air_unloaded_bounds_and_persistent_layers() {
    let grid = loaded_grid();
    let view = grid.view();
    assert_eq!(view.cell(VoxelPos::foreground(-1, 70)), VoxelCell::Air);
    assert_eq!(view.cell(VoxelPos::foreground(100, 70)), VoxelCell::Unloaded);
    assert_eq!(view.cell(VoxelPos::foreground(-1, WORLD_HEIGHT)), VoxelCell::OutOfBounds);
    let backwall = VoxelPos::backwall(-1, 70);
    assert_eq!(
        view.cell(backwall),
        generated_voxel(1, -1, 70, 1, &flat_heights(-1, 40)).map_or(VoxelCell::Air, VoxelCell::Block)
    );
}

fn write_proposal(position: VoxelPos, expected: Option<BlockState>, state: BlockState, sequence: u64) -> MutationProposal {
    MutationProposal {
        preconditions: vec![BlockPrecondition { position, expected }],
        writes: vec![BlockWrite { position, state: Some(state) }],
        priority: MutationPriority::player(),
        source: position,
        sequence,
    }
}

#[test]
fn foreground_and_backwall_mutate_independently_at_the_same_cell() {
    let mut grid = loaded_grid();
    let foreground = VoxelPos::foreground(-1, 70);
    let backwall = VoxelPos::backwall(-1, 70);
    let proposals = vec![
        write_proposal(foreground, grid.view().block(foreground), BlockState::DIRT, 1),
        write_proposal(backwall, grid.view().block(backwall), BlockState::STONE, 2),
    ];

    let result = grid.commit_batch(proposals);

    assert_eq!(result.report.cell_changes.len(), 2);
    assert_eq!(grid.view().block(foreground), Some(BlockState::DIRT));
    assert_eq!(grid.view().block(backwall), Some(BlockState::STONE));
}

#[test]
fn chunk_lifecycle_reports_both_persistent_layers() {
    let mut grid = BlockGrid::new(WORLD_HEIGHT);
    let report = grid.integrate_chunk(generated(3, -2));
    assert_eq!(
        report.chunk_changes,
        vec![
            ChunkChange::Integrated(ChunkLayer::foreground(-2)),
            ChunkChange::Integrated(ChunkLayer::backwall(-2)),
        ]
    );
}

#[test]
fn atomic_proposal_rolls_back_when_one_precondition_fails() {
    let mut grid = loaded_grid();
    let source = VoxelPos::foreground(-1, 70);
    let occupied = VoxelPos::foreground(-1, 0);
    let proposal = MutationProposal {
        preconditions: vec![
            BlockPrecondition { position: source, expected: None },
            BlockPrecondition { position: occupied, expected: None },
        ],
        writes: vec![BlockWrite { position: source, state: Some(BlockState::TORCH) }],
        priority: MutationPriority::player(),
        source,
        sequence: 1,
    };
    let result = grid.commit_batch(vec![proposal]);
    assert!(result.report.is_empty());
    assert_eq!(grid.view().block(source), None);
    assert!(matches!(
        result.outcomes[0],
        ProposalOutcome::Rejected { reason: MutationRejection::PreconditionFailed { .. }, .. }
    ));
}

#[test]
fn conflicts_resolve_independently_of_input_order() {
    let source = VoxelPos::foreground(-1, 70);
    let run = |proposals| {
        let mut grid = loaded_grid();
        let result = grid.commit_batch(proposals);
        (grid.view().block(source), result.outcomes)
    };
    let forward = run(vec![
        write_proposal(source, None, BlockState::DIRT, 2),
        write_proposal(source, None, BlockState::STONE, 1),
    ]);
    let reverse = run(vec![
        write_proposal(source, None, BlockState::STONE, 1),
        write_proposal(source, None, BlockState::DIRT, 2),
    ]);
    assert_eq!(forward, reverse);
    assert_eq!(forward.0, Some(BlockState::STONE));
}

#[test]
fn unloading_returns_the_chunk_and_reports_both_layers() {
    let mut grid = loaded_grid();
    let (chunk, report) = grid.unload_chunk(-1);
    assert_eq!(chunk.map(|chunk| chunk.x()), Some(-1));
    assert_eq!(
        report.chunk_changes,
        vec![ChunkChange::Unloaded(ChunkLayer::foreground(-1)), ChunkChange::Unloaded(ChunkLayer::backwall(-1))]
    );
    assert_eq!(grid.view().cell(VoxelPos::foreground(-1, 70)), VoxelCell::Unloaded);
}

#[test]
fn dense_chunks_reject_bad_lengths_codes_and_coordinates() {
    assert!(BlockChunk::from_dense(0, vec![0; CHUNK_AREA], vec![0; CHUNK_AREA]).is_some());
    assert!(BlockChunk::from_dense(0, vec![0; CHUNK_AREA - 1], vec![0; CHUNK_AREA]).is_none());
    let mut bad = vec![0; CHUNK_AREA];
    bad[7] = 12;
    assert!(BlockChunk::from_dense(0, vec![0; CHUNK_AREA], bad).is_none());
    assert!(BlockChunk::from_dense(i64::MAX, vec![0; CHUNK_AREA], vec![0; CHUNK_AREA]).is_none());
}

#[test]
fn safe_spawn_finds_grass_with_headroom_nearest_the_origin() {
    let grid = loaded_grid();
    // Chunk -1 is loaded; its last column is one left of the origin column 0.
    assert_eq!(grid.view().safe_spawn_cell(0), Some((-1, 40)));
    let empty = BlockGrid::new(WORLD_HEIGHT);
    assert_eq!(empty.view().safe_spawn_cell(0), None);
}

#[test]
fn tiles_clear_only_where_every_tile_is_passable() {
    let grid = loaded_grid();
    assert!(grid.view().tiles_clear(0, -2, -1, 41, 43));
    assert!(!grid.view().tiles_clear(0, -2, -1, 40, 43));
    assert!(!grid.view().tiles_clear(0, -1, 0, 41, 43));
}

// Generation ----------------------------------------------------------------------------------

#[test]
fn generation_generation_is_repeatable_across_positive_and_negative_chunks() {
    for chunk_x in [-10, -1, 0, 1, 10] {
        assert_eq!(generated(123, chunk_x), generated(123, chunk_x));
        assert_ne!(generated(123, chunk_x), generated(124, chunk_x));
    }
}

#[test]
fn generation_generation_remains_deterministic_at_large_global_coordinates() {
    let left = generated(29, 1_000_000_000_000);
    let again = generated(29, 1_000_000_000_000);
    let right = generated(29, 1_000_000_000_001);
    assert_eq!(left, again);
    assert_ne!(left.blocks(VoxelLayer::Foreground), right.blocks(VoxelLayer::Foreground));
}

#[test]
fn generated_columns_follow_the_surface() {
    let heights = flat_heights(0, 40);
    assert_eq!(generated_voxel(7, 3, 0, 0, &heights), Some(BlockState::BEDROCK));
    assert_eq!(generated_voxel(7, 3, 40, 0, &heights), Some(BlockState::GRASS));
    assert_eq!(generated_voxel(7, 3, 36, 0, &heights), Some(BlockState::DIRT));
    assert_eq!(generated_voxel(7, 3, 41, 0, &heights), None);
    assert_eq!(generated_voxel(7, 3, WORLD_HEIGHT, 0, &heights), None);
    assert_eq!(generated_voxel(7, 3, 20, 6, &heights), None);
    let chunk = generated(7, 0);
    assert_eq!(chunk.blocks(VoxelLayer::Foreground)[(40 * CHUNK_WIDTH + 3) as usize], BlockState::GRASS.code());
    assert_eq!(chunk.blocks(VoxelLayer::Backwall)[3], BlockState::BEDROCK.code());
}

#[test]
fn stable_hash_has_a_fixed_value() {
    assert_eq!(stable_hash(0, 0, 0, 0), 0);
    assert_eq!(stable_hash(1, 0, 0, 0), 0x5692_161d_100b_05e5);
    assert_eq!(stable_hash(1, 2, 3, 4), stable_hash(1, 2, 3, 4));
    assert_ne!(stable_hash(1, 2, 3, 4), stable_hash(1, 2, 3, 5));
}

// Lighting ------------------------------------------------------------------------------------

fn volume(width: i64, height: i32, depth_slices: u8, blocks: &HashMap<(i64, i32, u8), BlockState>) -> LightVolume {
    LightVolume::calculate(0, width, height, depth_slices, |x, y, depth| blocks.get(&(x, y, depth)).copied())
}

#[test]
fn direct_sky_stays_full_through_vertical_air_and_stops_at_opaque_blocks() {
    let blocks = HashMap::from([((0, 2, 0), BlockState::STONE)]);
    let light = volume(1, 4, 1, &blocks);
    assert_eq!(light.get(0, 3, 0).sky, 15);
    assert_eq!(light.get(0, 2, 0).sky, 0);
    assert_eq!(light.get(0, 1, 0).sky, 0);
}

#[test]
fn opacity_attenuates_flooded_light() {
    let blocks = HashMap::from([((0, 1, 0), BlockState::TORCH), ((1, 1, 0), BlockState::STONE)]);
    let light = volume(3, 3, 1, &blocks);
    assert_eq!(light.get(1, 1, 0).block, 0);
}

#[test]
fn torch_light_falls_off_by_one_across_all_six_neighbors() {
    let blocks = HashMap::from([((1, 1, 1), BlockState::TORCH)]);
    let light = volume(3, 3, 3, &blocks);
    assert_eq!(light.get(1, 1, 1).block, 14);
    for position in [(0, 1, 1), (2, 1, 1), (1, 0, 1), (1, 2, 1), (1, 1, 0), (1, 1, 2)] {
        assert_eq!(light.get(position.0, position.1, position.2).block, 13);
    }
}

#[test]
fn depth_boundaries_neither_seed_nor_wrap_torch_light() {
    let blocks = HashMap::from([((0, 1, 0), BlockState::TORCH), ((0, 1, 1), BlockState::STONE)]);
    let light = volume(1, 3, 2, &blocks);
    assert_eq!(light.get(0, 1, 0).block, 14);
    assert_eq!(light.get(0, 1, 1).block, 0);
    assert_eq!(light.get(0, 1, u8::MAX).block, 0);
}

#[test]
fn changed_columns_include_added_and_removed_bounds() {
    let empty = LightVolume::empty();
    let light = volume(2, 2, 1, &HashMap::new());
    assert_eq!(empty.changed_x_columns(&light), BTreeSet::from([0, 1]));
    assert_eq!(light.changed_x_columns(&light), BTreeSet::new());
}

// Clock ---------------------------------------------------------------------------------------

#[test]
fn frame_partitioning_does_not_change_logical_tick_totals() {
    let (_, many) = run_clock(std::iter::repeat_n(1.0 / 60.0, 60));
    let (_, few) = run_clock(std::iter::repeat_n(0.05, 20));
    assert_eq!(many, SIMULATION_TICKS_PER_SECOND as u32);
    assert_eq!(few, SIMULATION_TICKS_PER_SECOND as u32);
}

#[test]
fn exact_step_multiples_never_lose_a_tick_to_rounding() {
    for steps in 1..=MAX_STEPS_PER_FRAME {
        let (clock, taken) = run_clock([SECONDS_PER_STEP * f64::from(steps)]);
        assert_eq!(taken, steps);
        assert_eq!(clock.accumulated_nanos(), 0);
    }
}

#[test]
fn a_frame_never_runs_more_than_the_step_budget() {
    let (clock, steps) = run_clock([5.0]);
    assert_eq!(steps, MAX_STEPS_PER_FRAME);
    assert_eq!(clock.accumulated_nanos(), 0);
}

#[test]
fn sustained_overload_never_accumulates_a_backlog() {
    let (clock, steps) = run_clock(std::iter::repeat_n(1.0, 10));
    assert_eq!(steps, MAX_STEPS_PER_FRAME * 10);
    assert_eq!(clock.accumulated_nanos(), 0);
}

#[test]
fn invalid_and_partial_deltas_advance_nothing() {
    let mut clock = SimulationClock::default();
    for delta in [f64::NAN, f64::INFINITY, -1.0, 0.0] {
        clock.accumulate_nanos(nanos(delta));
    }
    assert_eq!(clock.accumulated_nanos(), 0);
    clock.accumulate_nanos(nanos(0.049));
    assert_eq!(clock.take_steps(), 0);
    clock.accumulate_nanos(nanos(0.001));
    assert_eq!(clock.take_steps(), 1);
    assert_eq!(clock.take_steps(), 0);
}

#[test]
fn the_accumulator_never_exceeds_its_cap() {
    let mut clock = SimulationClock::default();
    clock.accumulate_nanos(nanos(f64::MAX));
    assert_eq!(clock.accumulated_nanos(), MAX_ACCUMULATED_NANOS);
    clock.accumulate_nanos(u64::MAX);
    assert_eq!(clock.accumulated_nanos(), MAX_ACCUMULATED_NANOS);
    assert_eq!(MAX_ACCUMULATED_NANOS as f64 / NANOS_PER_SECOND as f64, 0.200);
    assert_eq!(NANOS_PER_STEP, 50_000_000);
}

// Day cycle -----------------------------------------------------------------------------------

#[test]
fn moon_phase_uses_absolute_day() {
    for (day, phase) in [
        MoonPhase::Full,
        MoonPhase::WaningGibbous,
        MoonPhase::ThirdQuarter,
        MoonPhase::WaningCrescent,
        MoonPhase::New,
        MoonPhase::WaxingCrescent,
        MoonPhase::FirstQuarter,
        MoonPhase::WaxingGibbous,
    ]
    .into_iter()
    .enumerate()
    {
        assert_eq!(DayCycle::from_ticks(day as u64 * TICKS_PER_DAY).moon_phase(), phase);
    }
}

#[test]
fn whole_tick_advances_saturate_at_the_end_of_time() {
    let mut cycle = DayCycle::from_ticks(u64::MAX - 2);
    assert!(!cycle.advance_ticks(0));
    assert!(cycle.advance_ticks(20));
    assert_eq!(cycle.day_time_ticks(), u64::MAX);
    assert!(!cycle.advance_ticks(20));
    let cycle = DayCycle::from_ticks(TICKS_PER_DAY * 3 + 6_000);
    assert_eq!(cycle.day(), 3);
    assert_eq!(cycle.time_of_day_ticks(), 6_000);
    assert_eq!(cycle.moon_phase().index(), 3);
}

#[test]
fn loaded_chunks_bounds_and_layer_blocks_cover_the_grid() {
    let grid = loaded_grid();
    let view = grid.view();
    assert_eq!(view.loaded_chunks(), vec![-1]);
    assert_eq!(view.loaded_x_bounds(), Some((-32, 0)));
    assert_eq!(BlockGrid::new(WORLD_HEIGHT).view().loaded_x_bounds(), None);
    let blocks = view.iter_layer(VoxelLayer::Foreground);
    assert!(blocks.contains(&(VoxelPos::foreground(-1, 40), BlockState::GRASS)));
    assert!(blocks.iter().all(|(position, state)| view.block(*position) == Some(*state)));
    let stored = generated(1, -1).blocks(VoxelLayer::Foreground).iter().filter(|code| **code != 0).count();
    assert_eq!(blocks.len(), stored);
}

// Light reconstructed from saved chunks ----------------------------------------------------------

/// Flat surfaces over every column and slice the three chunks `-1..=1` and their light read.
fn wide_heights() -> SurfaceHeights {
    SurfaceHeights { first_x: -CHUNK_WIDTH as i64 - 4, rows: vec![vec![40; 3 * CHUNK_WIDTH as usize + 8]; 8] }
}

fn calculate_light(seed: u64, grid: &BlockGrid, heights: &SurfaceHeights) -> LightVolume {
    let view = grid.view();
    let (min_x, max_x) = view.loaded_x_bounds().unwrap();
    LightVolume::calculate(min_x, max_x, WORLD_HEIGHT, sidecraft::domain::DEPTH_SLICES, |x, y, depth| {
        if depth == 0 && view.contains_chunk(ChunkLayer::foreground(world_to_chunk(x))) {
            view.block(VoxelPos::foreground(x, y))
        } else {
            generated_voxel(seed, x, y, depth, heights)
        }
    })
}

#[test]
fn persisted_chunks_reconstruct_the_same_light_field() {
    let heights = wide_heights();
    let mut grid = BlockGrid::new(WORLD_HEIGHT);
    let chunks = (-1..=1).map(|x| generate_chunk(41, x, &heights)).collect::<Vec<_>>();
    for chunk in &chunks {
        grid.integrate_chunk(chunk.duplicate());
    }
    let before = calculate_light(41, &grid, &heights);
    let player = PlayerSnapshot { chunk_x: 0, local_x_bits: 0.5f32.to_bits(), y_bits: 41.0f32.to_bits(), selected_slot: 0 };
    let save = blank_snapshot(
        41,
        "Lighting integration".to_string(),
        chunks
            .iter()
            .map(|chunk| ChunkSnapshot {
                x: chunk.x(),
                foreground: chunk.blocks(VoxelLayer::Foreground).to_vec(),
                backwall: chunk.blocks(VoxelLayer::Backwall).to_vec(),
                pending_ticks: Vec::new(),
            })
            .collect(),
        player,
        1,
    );
    let mut reconstructed = BlockGrid::new(WORLD_HEIGHT);
    for chunk in save.chunks {
        reconstructed.integrate_chunk(BlockChunk::from_dense(chunk.x, chunk.foreground, chunk.backwall).unwrap());
    }
    let after = calculate_light(41, &reconstructed, &heights);

    for depth in 0..sidecraft::domain::DEPTH_SLICES {
        for y in 0..WORLD_HEIGHT {
            for x in -CHUNK_WIDTH..CHUNK_WIDTH * 2 {
                assert_eq!(after.get(i64::from(x), y, depth), before.get(i64::from(x), y, depth));
            }
        }
    }
}

// Placing against a targeted face -----------------------------------------------------------------


#[test]
fn torch_mount_follows_the_targeted_face() {
    for (adjacent, expected) in [
        (TilePos { x: 4, y: 5 }, Some(BlockState::TORCH)),
        (TilePos { x: 3, y: 4 }, Some(BlockState::WALL_TORCH_LEFT)),
        (TilePos { x: 5, y: 4 }, Some(BlockState::WALL_TORCH_RIGHT)),
        (TilePos { x: 4, y: 3 }, None),
    ] {
        assert_eq!(
            placement_state(
                BlockState::TORCH,
                BlockTarget { block: Some(TilePos { x: 4, y: 4 }), adjacent: Some(adjacent) },
            ),
            expected
        );
    }
}

#[test]
fn ordinary_blocks_keep_their_selected_state() {
    assert_eq!(placement_state(BlockState::DIRT, BlockTarget::default()), Some(BlockState::DIRT));
}

#[test]
fn a_torch_without_a_targeted_face_is_not_placed() {
    assert_eq!(placement_state(BlockState::WALL_TORCH_LEFT, BlockTarget::default()), None);
    assert_eq!(
        placement_state(BlockState::TORCH, BlockTarget { block: Some(TilePos { x: 0, y: 0 }), adjacent: None }),
        None
    );
}

#[test]
fn layer_toggle_round_trips_to_foreground() {
    assert_eq!(toggled_layer(VoxelLayer::Foreground), VoxelLayer::Backwall);
    assert_eq!(toggled_layer(VoxelLayer::Backwall), VoxelLayer::Foreground);
}

#[test]
fn active_layer_labels_expose_the_tab_binding() {
    assert_eq!(active_layer_label(VoxelLayer::Foreground), "Layer: Foreground [Tab]");
    assert_eq!(active_layer_label(VoxelLayer::Backwall), "Layer: Backwall [Tab]");
}

// Chunk meshes and colliders ----------------------------------------------------------------------

/// A loaded, empty chunk 0 with a bedrock block, leaves and a floor torch written into it.
fn furnished_grid() -> BlockGrid {
    let mut grid = BlockGrid::new(WORLD_HEIGHT);
    grid.integrate_chunk(BlockChunk::from_dense(0, vec![0; CHUNK_AREA], vec![0; CHUNK_AREA]).unwrap());
    let writes = [
        (VoxelPos::foreground(0, 0), BlockState::BEDROCK),
        (VoxelPos::foreground(1, 1), BlockState::LEAVES),
        (VoxelPos::foreground(2, 1), BlockState::TORCH),
    ];
    let proposals = writes
        .into_iter()
        .enumerate()
        .map(|(sequence, (position, state))| write_proposal(position, None, state, sequence as u64))
        .collect();
    grid.commit_batch(proposals);
    grid
}

fn mesh_heights() -> SurfaceHeights {
    SurfaceHeights { first_x: -20, rows: vec![vec![40; 72]; 8] }
}

fn mesh_light(grid: &BlockGrid, heights: &SurfaceHeights) -> LightVolume {
    let view = grid.view();
    LightVolume::calculate(-15, 47, WORLD_HEIGHT, sidecraft::domain::DEPTH_SLICES, |x, y, depth| {
        if depth == 0 && view.contains_chunk(ChunkLayer::foreground(world_to_chunk(x))) {
            view.block(VoxelPos::foreground(x, y))
        } else {
            generated_voxel(7, x, y, depth, heights)
        }
    })
}

#[test]
fn chunk_mesh_contains_real_depth_and_keeps_collider_two_dimensional() {
    let grid = furnished_grid();
    let heights = mesh_heights();
    let light = mesh_light(&grid, &heights);
    let built = chunk_faces(&grid.view(), 0, 7, &heights, &light);
    assert!(built.opaque.iter().any(|quad| quad.depth == 5));
    assert!(!built.cutout.is_empty());
    assert!(!built.torches.is_empty());
    assert!(!solid_runs(&grid.view(), 0).is_empty());
}

#[test]
fn a_lone_block_shows_every_face_whose_neighbour_is_empty() {
    let grid = furnished_grid();
    let heights = mesh_heights();
    let light = mesh_light(&grid, &heights);
    let built = chunk_faces(&grid.view(), 0, 7, &heights, &light);

    // The leaves float in empty foreground beside a torch, with generated terrain behind them:
    // every face is drawn but the back one.
    let leaves: Vec<Face> = built
        .cutout
        .iter()
        .filter(|quad| quad.local_x == 1 && quad.y == 1 && quad.depth == 0)
        .map(|quad| quad.face)
        .collect();
    assert_eq!(leaves, vec![Face::Front, Face::Right, Face::Left, Face::Top, Face::Bottom]);
    // Below the bottom row there is nothing, so the bedrock there shows its bottom face.
    assert!(built.opaque.iter().any(|quad| quad.local_x == 0 && quad.y == 0 && quad.depth == 0 && quad.face == Face::Bottom));
    // A face takes the light of the cell it looks at.
    let top = built
        .cutout
        .iter()
        .find(|quad| quad.local_x == 1 && quad.y == 1 && quad.depth == 0 && quad.face == Face::Top)
        .unwrap();
    assert_eq!(top.light, light.get(1, 2, 0));
    // The torch is a card of its own, not a cube.
    assert_eq!(built.torches.len(), 1);
    assert_eq!((built.torches[0].local_x, built.torches[0].y), (2, 1));
}

#[test]
fn solid_runs_are_maximal_and_ordered() {
    let mut grid = BlockGrid::new(WORLD_HEIGHT);
    grid.integrate_chunk(BlockChunk::from_dense(0, vec![0; CHUNK_AREA], vec![0; CHUNK_AREA]).unwrap());
    let cells = [(0, 5), (1, 5), (2, 5), (4, 5), (31, 5), (3, 2), (10, 2), (11, 2)];
    let proposals = cells
        .into_iter()
        .enumerate()
        .map(|(sequence, (x, y))| write_proposal(VoxelPos::foreground(x, y), None, BlockState::STONE, sequence as u64))
        .collect();
    grid.commit_batch(proposals);
    // A torch does not block movement; leaves do.
    grid.commit_batch(vec![
        write_proposal(VoxelPos::foreground(5, 5), None, BlockState::TORCH, 20),
        write_proposal(VoxelPos::foreground(6, 5), None, BlockState::LEAVES, 21),
    ]);

    assert_eq!(
        solid_runs(&grid.view(), 0),
        vec![
            SolidRun { y: 2, start: 3, end: 4 },
            SolidRun { y: 2, start: 10, end: 12 },
            SolidRun { y: 5, start: 0, end: 3 },
            SolidRun { y: 5, start: 4, end: 5 },
            SolidRun { y: 5, start: 6, end: 7 },
            SolidRun { y: 5, start: 31, end: 32 },
        ]
    );
    assert!(solid_runs(&grid.view(), 3).is_empty());
}

#[test]
fn the_bedrock_floor_spans_all_six_depth_slices() {
    assert_eq!(sidecraft::domain::DEPTH_SLICES, 6);
    let heights = SurfaceHeights { first_x: -2, rows: vec![vec![40; 8]; 8] };
    for depth in 0..6 {
        assert_eq!(generated_voxel(11, 1, 0, depth, &heights), Some(BlockState::BEDROCK));
        assert_eq!(generated_voxel(11, 1, 40, depth, &heights), Some(BlockState::GRASS));
    }
    assert_eq!(generated_voxel(11, 1, 0, 6, &heights), None);
    assert_eq!(generated_voxel(11, 1, -1, 0, &heights), None);
    // Outside the rows and slices no surface is read, so any column may be asked.
    assert_eq!(generated_voxel(11, i64::MAX, 0, 6, &heights), None);
    assert_eq!(generated_voxel(11, i64::MIN, WORLD_HEIGHT, 0, &heights), None);
}
