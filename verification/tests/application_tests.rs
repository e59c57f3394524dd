use sidecraft::application::saving::{SaveCompletion, SaveCoordinator, SaveDecision, SaveDestination, SaveTicket, SaveVersion};
use sidecraft::application::session::{SessionInstanceCounter, SessionInstanceId, WorldSession};
use sidecraft::application::simulation::{run_simulation, PlayerSimulationRegions};
use sidecraft::application::snapshot::{blank_snapshot, validate_snapshot, PlayerSnapshot};
use sidecraft::application::streaming::{
    plan_generation_requests, plan_unloads, result_is_still_requested, GenerationIdentity, GenerationRequest,
    GenerationResult, StreamConfig, StreamWindow,
};
use sidecraft::application::repository::{InvalidWorldEntry, RepositoryError, WorldCatalog, WorldId, WorldSummary};
use sidecraft::application::world::{
    break_block, place_block, ScheduleRejection, WorldCommandError, WorldState,
};
use sidecraft::domain::block::{BlockState, TorchMount};
use sidecraft::domain::generation::{generate_chunk, SurfaceHeights};
use sidecraft::domain::simulation::clock::{SimulationClock, NANOS_PER_STEP};
use sidecraft::domain::simulation::region::{SimulationRegionProvider, TickingArea};
use sidecraft::domain::world::{BlockChunk, ChunkLayer, MutationPriority, VoxelCell, VoxelLayer, VoxelPos};
use sidecraft::domain::{CHUNK_WIDTH, GENERATOR_VERSION, WORLD_HEIGHT};
use std::collections::HashSet;
use sidecraft::application::dirty::{apply_report_to_dirty, mark_light_columns_dirty, WorldDirtySets};
use sidecraft::application::saving::needs_autosave;
use sidecraft::application::streaming::{generation_task_disposition, presentation_window_changes, GenerationTaskDisposition};
use sidecraft::domain::world::{CellChange, ChunkChange, MutationReport};
use sidecraft::application::light::{calculate_light_volume, refresh_lighting};
use sidecraft::domain::lighting::LightCell;
use sidecraft::application::scenes::{plan_scene_refresh, SceneWork};
use sidecraft::application::snapshot::{ChunkSnapshot, SnapshotError};
use std::collections::BTreeSet;

const SEED: u64 = 11;

fn flat_heights(chunk_x: i64) -> SurfaceHeights {
    SurfaceHeights { first_x: chunk_x * 32 - 2, rows: vec![vec![40; 36]; 4] }
}

fn generated(seed: u64, chunk_x: i64) -> BlockChunk {
    generate_chunk(seed, chunk_x, &flat_heights(chunk_x))
}

fn player() -> PlayerSnapshot {
    PlayerSnapshot { chunk_x: 0, local_x_bits: 0.5f32.to_bits(), y_bits: 41.9f32.to_bits(), selected_slot: 1 }
}

fn world() -> WorldState {
    WorldState::from_snapshot(&blank_snapshot(SEED, "Test".to_string(), vec![], player(), 1), 0, |chunk_x| {
        generated(SEED, chunk_x)
    })
    .state
}

fn session() -> WorldSession {
    WorldSession {
        instance_id: SessionInstanceId::new(1),
        id: WorldId::new("test".to_string()).unwrap(),
        name: "Test".to_string(),
        seed: SEED,
        generator_version: GENERATOR_VERSION,
        created_at_unix_s: 1,
        saved_version: SaveVersion::default(),
    }
}

fn regions(areas: Vec<TickingArea>) -> PlayerSimulationRegions {
    PlayerSimulationRegions::new(StreamWindow::new(0, StreamConfig::default()), areas)
}

fn load(world: &mut WorldState, chunk_x: i64) -> BlockChunk {
    let chunk = generated(SEED, chunk_x);
    world.integrate_chunk(chunk.duplicate());
    chunk
}

/// A frame of `seconds`, in the whole nanoseconds the frame clock reports.
fn frame(seconds: f64) -> u64 {
    (seconds * 1_000_000_000.0).round() as u64
}

const SECONDS_PER_STEP: f64 = 0.05;

// Sessions ------------------------------------------------------------------------------------

#[test]
fn session_instance_ids_are_monotonic() {
    let mut counter = SessionInstanceCounter::default();
    assert_eq!(counter.next_id().get(), 1);
    assert_eq!(counter.next_id().get(), 2);
}

// Saving --------------------------------------------------------------------------------------

fn id() -> WorldId {
    WorldId::new("world-1".to_string()).unwrap()
}

#[test]
fn destinations_escalate_and_latest_revision_is_saved_before_exit() {
    let mut coordinator = SaveCoordinator::default();
    let first = SaveVersion { world_revision: 2, day_time_ticks: 100 };
    assert!(matches!(coordinator.request(id(), first, SaveDestination::Background), SaveDecision::Start(_)));
    coordinator.request(id(), first, SaveDestination::Exit);
    assert_eq!(coordinator.ticket().unwrap().destination, SaveDestination::Exit);
    assert!(matches!(
        coordinator.complete(SaveCompletion::Succeeded, SaveVersion { world_revision: 3, day_time_ticks: 120 }),
        SaveDecision::Start(SaveTicket {
            version: SaveVersion { world_revision: 3, day_time_ticks: 120 },
            destination: SaveDestination::Exit,
            ..
        })
    ));
}

#[test]
fn clock_change_alone_restarts_an_escalated_save() {
    let mut coordinator = SaveCoordinator::default();
    let captured = SaveVersion { world_revision: 4, day_time_ticks: 1_000 };
    coordinator.request(id(), captured, SaveDestination::Background);
    coordinator.request(id(), captured, SaveDestination::MainMenu);
    assert!(matches!(
        coordinator.complete(SaveCompletion::Succeeded, SaveVersion { day_time_ticks: 1_001, ..captured }),
        SaveDecision::Start(SaveTicket {
            version: SaveVersion { day_time_ticks: 1_001, .. },
            destination: SaveDestination::MainMenu,
            ..
        })
    ));
}

#[test]
fn a_save_of_the_current_version_finishes_and_a_failure_reports_its_destination() {
    let mut coordinator = SaveCoordinator::default();
    let version = SaveVersion { world_revision: 1, day_time_ticks: 5 };
    coordinator.request(id(), version, SaveDestination::MainMenu);
    assert_eq!(coordinator.complete(SaveCompletion::Succeeded, version), SaveDecision::Finish(SaveDestination::MainMenu));
    assert!(coordinator.ticket().is_none());
    coordinator.request(id(), version, SaveDestination::Exit);
    assert_eq!(coordinator.complete(SaveCompletion::Failed, version), SaveDecision::Failed(SaveDestination::Exit));
    assert_eq!(coordinator.complete(SaveCompletion::Succeeded, version), SaveDecision::Idle);
}

// Repository identifiers ----------------------------------------------------------------------

#[test]
fn world_ids_accept_the_safe_alphabet_only() {
    assert_eq!(WorldId::new("world-0000000000000001_a".to_string()).unwrap().as_str(), "world-0000000000000001_a");
    assert!(matches!(WorldId::new(String::new()), Err(RepositoryError::InvalidId(_))));
    assert!(matches!(WorldId::new("a/b".to_string()), Err(RepositoryError::InvalidId(_))));
    assert!(matches!(WorldId::new("x".repeat(129)), Err(RepositoryError::InvalidId(_))));
    assert!(WorldId::new("x".repeat(128)).is_ok());
}

// Streaming -----------------------------------------------------------------------------------

fn identity(instance: u64) -> GenerationIdentity {
    GenerationIdentity {
        session_instance: SessionInstanceId::new(instance),
        world_id: WorldId::new("test".to_string()).unwrap(),
        generator_version: 2,
        seed: 11,
    }
}

#[test]
fn default_window_has_strict_simulation_render_and_unload_bands() {
    let window = StreamWindow::new(10, StreamConfig::default());
    assert!(window.contains_simulation(7));
    assert!(!window.contains_simulation(6));
    assert!(window.contains_render(5));
    assert!(!window.contains_render(4));
    assert!(!window.should_unload(3));
    assert!(window.should_unload(2));
}

#[test]
fn requests_are_nearest_first_and_capacity_bounded() {
    let loaded = HashSet::from([0]);
    let in_flight = HashSet::from([1]);
    let requests = plan_generation_requests(StreamWindow::new(0, StreamConfig::default()), &identity(1), &loaded, &in_flight, 4);
    assert_eq!(requests.iter().map(|request| request.global_chunk_x).collect::<Vec<_>>(), vec![-1, 2, -2, 3]);
}

#[test]
fn planning_is_overflow_safe_and_budget_bounded() {
    let requests = plan_generation_requests(
        StreamWindow::new(i64::MAX, StreamConfig::default()),
        &identity(1),
        &HashSet::new(),
        &HashSet::new(),
        20,
    );
    assert_eq!(
        requests.iter().map(|request| request.global_chunk_x).collect::<Vec<_>>(),
        (i64::MAX - 5..=i64::MAX).rev().collect::<Vec<_>>()
    );
}

#[test]
fn stale_or_malformed_results_are_rejected() {
    let request = GenerationRequest { identity: identity(1), global_chunk_x: 0 };
    let result = GenerationResult { request: request.clone(), chunk: generated(11, 0) };
    let window = StreamWindow::new(0, StreamConfig::default());
    assert!(result_is_still_requested(&request, &result, &identity(1), window, false));
    assert!(!result_is_still_requested(&request, &result, &identity(2), window, false));
    for stale_identity in [
        GenerationIdentity { world_id: WorldId::new("other".to_string()).unwrap(), ..identity(1) },
        GenerationIdentity { generator_version: 3, ..identity(1) },
        GenerationIdentity { seed: 12, ..identity(1) },
    ] {
        assert!(!result_is_still_requested(&request, &result, &stale_identity, window, false));
    }
    let wrong_request = GenerationRequest { global_chunk_x: 1, ..request.clone() };
    assert!(!result_is_still_requested(&wrong_request, &result, &identity(1), window, false));
    assert!(!result_is_still_requested(&request, &result, &identity(1), window, true));

    let wrong_payload = GenerationResult { request: request.clone(), chunk: generated(11, 1) };
    assert!(!result_is_still_requested(&request, &wrong_payload, &identity(1), window, false));

    let out_of_range = GenerationRequest { global_chunk_x: 6, ..request };
    let out_of_range_result = GenerationResult { request: out_of_range.clone(), chunk: generated(11, 6) };
    assert!(!result_is_still_requested(&out_of_range, &out_of_range_result, &identity(1), window, false));
}

#[test]
fn completion_priority_is_stable_independent_of_task_finish_order() {
    let window = StreamWindow::new(10, StreamConfig::default());
    let mut chunks = vec![8, 12, 9, 11, 10];

    chunks.sort_by_key(|chunk_x| window.request_priority(*chunk_x));

    assert_eq!(chunks, vec![10, 11, 9, 12, 8]);
}

#[test]
fn unloads_are_sorted_and_begin_beyond_the_retention_band() {
    let unloads = plan_unloads(StreamWindow::new(0, StreamConfig::default()), vec![8, -7, -9, 7, 9]);
    assert_eq!(unloads, vec![-9, 8, 9]);
}

// Simulation ----------------------------------------------------------------------------------

#[test]
fn active_region_is_the_sorted_union_of_the_window_and_ticking_areas() {
    assert_eq!(regions(vec![]).active_chunks(), vec![-3, -2, -1, 0, 1, 2, 3]);
    assert_eq!(
        regions(vec![TickingArea::new(20, 1), TickingArea::new(3, 1)]).active_chunks(),
        vec![-3, -2, -1, 0, 1, 2, 3, 4, 19, 20, 21]
    );
}

#[test]
fn frames_advance_exactly_the_logical_ticks_they_paid_for() {
    let mut world = world();
    let mut clock = SimulationClock::default();
    for _ in 0..60 {
        run_simulation(&mut world, &mut clock, &regions(vec![]), frame(1.0 / 60.0));
    }
    assert_eq!(world.world_tick(), 20);
}

#[test]
fn a_single_long_frame_is_capped_and_never_catches_up() {
    let mut world = world();
    let mut clock = SimulationClock::default();
    let steps = run_simulation(&mut world, &mut clock, &regions(vec![]), frame(30.0));
    assert_eq!(steps.len(), 4);
    assert_eq!(world.world_tick(), 4);
    assert_eq!(steps.iter().map(|step| step.world_tick).collect::<Vec<_>>(), vec![1, 2, 3, 4]);
}

#[test]
fn only_active_chunks_process_their_due_work() {
    let mut world = world();
    load(&mut world, 1);
    let inactive_chunk = 5;
    load(&mut world, inactive_chunk);
    let active_tick = world.schedule_tick(VoxelPos::foreground(33, 40), MutationPriority::player(), 1, None).unwrap();
    world
        .schedule_tick(VoxelPos::foreground(inactive_chunk * 32, 40), MutationPriority::player(), 1, None)
        .unwrap();

    let mut clock = SimulationClock::default();
    let steps = run_simulation(&mut world, &mut clock, &regions(vec![]), frame(SECONDS_PER_STEP * 2.0));

    assert_eq!(steps[0].processed, vec![active_tick]);
    assert!(steps[1].processed.is_empty());
    assert_eq!(world.queued_ticks(), 1);
}

#[test]
fn a_ticking_area_over_an_unloaded_chunk_drains_nothing_and_loads_nothing() {
    let mut world = world();
    let distant = 40;
    load(&mut world, distant);
    let queued = world
        .schedule_tick(VoxelPos::foreground(distant * 32, 40), MutationPriority::player(), 1, None)
        .unwrap();
    world.unload_chunk(distant);

    let mut clock = SimulationClock::default();
    let steps = run_simulation(&mut world, &mut clock, &regions(vec![TickingArea::new(distant, 1)]), frame(SECONDS_PER_STEP));

    assert!(steps[0].processed.is_empty());
    assert_eq!(world.queued_ticks(), 1);
    assert!(!world.view().contains_chunk(ChunkLayer::foreground(distant)));

    world.integrate_chunk(world.persisted_chunk(distant).unwrap());
    let steps = run_simulation(&mut world, &mut clock, &regions(vec![TickingArea::new(distant, 1)]), frame(SECONDS_PER_STEP));
    assert_eq!(steps[0].processed, vec![queued]);
}

#[test]
fn identical_histories_produce_identical_ticks_regardless_of_frame_pacing() {
    let run = |deltas: &[f64]| {
        let mut world = world();
        load(&mut world, 1);
        for due in 1..=6 {
            world
                .schedule_tick(VoxelPos::foreground(33, 40 + due as i32), MutationPriority::player(), due, None)
                .unwrap();
        }
        let mut clock = SimulationClock::default();
        let mut processed = Vec::new();
        for delta in deltas {
            for step in run_simulation(&mut world, &mut clock, &regions(vec![]), frame(*delta)) {
                processed.push((step.world_tick, step.processed));
            }
        }
        (world.world_tick(), processed)
    };

    let steady = run(&[SECONDS_PER_STEP; 6]);
    let jittery = run(&[SECONDS_PER_STEP * 0.5, SECONDS_PER_STEP * 2.5, SECONDS_PER_STEP * 1.5, SECONDS_PER_STEP * 1.5]);

    assert_eq!(steady.0, 6);
    assert_eq!(steady, jittery);
}

#[test]
fn a_frame_without_a_whole_step_changes_nothing() {
    let mut world = world();
    let mut clock = SimulationClock::default();
    assert!(run_simulation(&mut world, &mut clock, &regions(vec![]), frame(SECONDS_PER_STEP / 2.0)).is_empty());
    assert_eq!(world.world_tick(), 0);
    assert_eq!(clock.accumulated_nanos(), NANOS_PER_STEP / 2);
}

// World state ---------------------------------------------------------------------------------

#[test]
fn rebasing_preserves_global_dirty_chunk_identity() {
    let mut world = world();
    let position = VoxelPos::foreground(0, 70);
    place_block(&mut world, position, BlockState::DIRT).unwrap();
    world.rebase(8);
    assert_eq!(world.snapshot_chunks()[0].x, 0);
    assert_eq!(world.view().block(position), Some(BlockState::DIRT));
}

#[test]
fn snapshot_converts_local_player_position_to_global_chunk_identity() {
    let mut world = world();
    world.rebase(8);
    let snapshot = world.snapshot(&session(), 1, 1.5f32.to_bits(), 40.0f32.to_bits(), 3, 18_000, 9);
    assert_eq!(snapshot.player.chunk_x, 8);
    assert_eq!(f32::from_bits(snapshot.player.local_x_bits), 1.5);
    assert_eq!(snapshot.player.selected_slot, 3);
    assert_eq!(snapshot.day_time_ticks, 18_000);
    assert_eq!(snapshot.last_played_unix_s, 9);
}

#[test]
fn failed_command_does_not_increment_revision() {
    let mut world = world();
    let position = VoxelPos::foreground(0, 0);
    assert_eq!(break_block(&mut world, position), Err(WorldCommandError::Unbreakable));
    assert_eq!(world.revision(), 0);
}

#[test]
fn backwall_changes_survive_streaming_unload_and_reload() {
    let mut world = world();
    let position = (1..WORLD_HEIGHT)
        .rev()
        .map(|y| VoxelPos::backwall(0, y))
        .find(|position| world.view().cell(*position) == VoxelCell::Air)
        .unwrap();
    place_block(&mut world, position, BlockState::WOOD).unwrap();

    world.unload_chunk(0);
    let persisted = world.persisted_chunk(0).unwrap();
    assert_eq!(
        BlockState::from_code(persisted.blocks(VoxelLayer::Backwall)[(position.y * CHUNK_WIDTH) as usize]),
        Some(BlockState::WOOD)
    );

    world.integrate_chunk(persisted);
    assert_eq!(world.view().block(position), Some(BlockState::WOOD));
}

#[test]
fn scheduling_requires_a_loaded_chunk_inside_the_world() {
    let mut world = world();
    assert_eq!(
        world.schedule_tick(VoxelPos::foreground(5_000, 40), MutationPriority::player(), 10, None),
        Err(ScheduleRejection::Unloaded)
    );
    assert_eq!(
        world.schedule_tick(VoxelPos::foreground(0, WORLD_HEIGHT), MutationPriority::player(), 10, None),
        Err(ScheduleRejection::OutOfBounds)
    );
    assert_eq!(world.queued_ticks(), 0);
}

#[test]
fn scheduled_work_is_persisted_even_when_no_block_changed() {
    let mut world = world();
    let position = VoxelPos::foreground(3, 40);
    let scheduled = world.schedule_tick(position, MutationPriority::player(), 7, Some(BlockState::DIRT)).unwrap();

    let chunks = world.snapshot_chunks();
    let chunk = chunks.iter().find(|chunk| chunk.x == 0).unwrap();
    assert_eq!(chunk.pending_ticks, vec![scheduled]);
    assert_eq!(scheduled.sequence, 0);
}

#[test]
fn owed_work_survives_unload_and_reload() {
    let mut world = world();
    let position = VoxelPos::foreground(3, 40);
    let scheduled = world.schedule_tick(position, MutationPriority::player(), 7, None).unwrap();

    world.unload_chunk(0);
    let chunks = world.snapshot_chunks();
    assert_eq!(
        chunks.iter().find(|chunk| chunk.x == 0).map(|chunk| chunk.pending_ticks.as_slice()),
        Some([scheduled].as_slice())
    );

    world.integrate_chunk(world.persisted_chunk(0).unwrap());
    world.advance_world_tick();
    assert!(world.take_due_ticks(&[0]).is_empty());
    for _ in 1..7 {
        world.advance_world_tick();
    }
    assert_eq!(world.take_due_ticks(&[0]), vec![scheduled]);
    assert_eq!(world.queued_ticks(), 0);
}

#[test]
fn scheduling_allocates_sequences_the_snapshot_validator_accepts() {
    let mut world = world();
    let position = VoxelPos::foreground(3, 40);
    world.schedule_tick(position, MutationPriority::player(), 1, None).unwrap();
    world.schedule_tick(position, MutationPriority::player(), 2, None).unwrap();

    let snapshot = world.snapshot(&session(), 1, 1.5f32.to_bits(), 40.0f32.to_bits(), 1, 0, 9);

    assert_eq!(snapshot.next_tick_sequence, 2);
    validate_snapshot(&snapshot, true).unwrap();
}

#[test]
fn torch_mounts_require_their_designated_support() {
    let mut world = world();
    let support = VoxelPos::foreground(5, 70);
    place_block(&mut world, support, BlockState::DIRT).unwrap();

    for (position, mount) in [
        (VoxelPos::foreground(5, 71), TorchMount::Floor),
        (VoxelPos::foreground(4, 70), TorchMount::WallLeft),
        (VoxelPos::foreground(6, 70), TorchMount::WallRight),
    ] {
        place_block(&mut world, position, BlockState::torch(mount)).unwrap();
        assert_eq!(world.view().block(position), Some(BlockState::torch(mount)));
    }

    assert_eq!(
        place_block(&mut world, VoxelPos::foreground(7, 70), BlockState::WALL_TORCH_LEFT),
        Err(WorldCommandError::Unsupported)
    );
}

#[test]
fn breaking_support_atomically_removes_all_attached_torches() {
    let mut world = world();
    let support = VoxelPos::foreground(5, 70);
    place_block(&mut world, support, BlockState::DIRT).unwrap();
    let torches = [
        (VoxelPos::foreground(5, 71), BlockState::torch(TorchMount::Floor)),
        (VoxelPos::foreground(4, 70), BlockState::torch(TorchMount::WallLeft)),
        (VoxelPos::foreground(6, 70), BlockState::torch(TorchMount::WallRight)),
    ];
    for (position, torch) in torches {
        place_block(&mut world, position, torch).unwrap();
    }

    let result = break_block(&mut world, support).unwrap();

    assert_eq!(result.report.cell_changes.len(), 4);
    assert_eq!(world.view().block(support), None);
    for (position, _) in torches {
        assert_eq!(world.view().block(position), None);
    }
}

#[test]
fn placing_into_occupied_or_unloaded_cells_fails_without_a_revision() {
    let mut world = world();
    assert_eq!(
        place_block(&mut world, VoxelPos::foreground(3, 10), BlockState::DIRT),
        Err(WorldCommandError::Occupied)
    );
    assert_eq!(
        place_block(&mut world, VoxelPos::foreground(500, 70), BlockState::DIRT),
        Err(WorldCommandError::Unavailable)
    );
    assert_eq!(world.revision(), 0);
    place_block(&mut world, VoxelPos::foreground(3, 70), BlockState::DIRT).unwrap();
    assert_eq!(world.revision(), 1);
}

#[test]
fn validation_reports_the_first_failed_check() {
    let mut snapshot = blank_snapshot(SEED, "Test".to_string(), vec![], player(), 1);
    assert!(validate_snapshot(&snapshot, true).is_ok());
    assert!(validate_snapshot(&snapshot, false).is_err());
    snapshot.name = "   ".to_string();
    assert_eq!(validate_snapshot(&snapshot, true).unwrap_err().0, "world name must contain 1 to 80 characters");
    snapshot.name = "Test".to_string();
    snapshot.player.selected_slot = 0;
    assert!(validate_snapshot(&snapshot, true).is_err());
}

#[test]
fn catalogs_list_the_newest_worlds_first_and_invalid_packages_by_name() {
    let summary = |id: &str, name: &str, last: u64| WorldSummary {
        id: WorldId::new(id.to_string()).unwrap(),
        name: name.to_string(),
        last_played_unix_s: last,
    };
    let entry = |name: &str, error: &str| InvalidWorldEntry { display_name: name.to_string(), error: error.to_string() };
    let mut catalog = WorldCatalog {
        valid: vec![summary("old", "Old", 1), summary("b", "Same", 2), summary("new", "New", 2), summary("a", "Same", 2)],
        invalid: vec![entry("z.scw", "first"), entry("broken.scw", "x"), entry("z.scw", "second")],
    };
    catalog.sort();
    assert_eq!(
        catalog.valid.iter().map(|world| world.id.as_str().to_string()).collect::<Vec<_>>(),
        vec!["new", "a", "b", "old"]
    );
    assert_eq!(
        catalog.invalid.iter().map(|e| (e.display_name.as_str(), e.error.as_str())).collect::<Vec<_>>(),
        vec![("broken.scw", "x"), ("z.scw", "first"), ("z.scw", "second")]
    );
}

// Simulation activation across streaming --------------------------------------------------------

const ACTIVATION_SEED: u64 = 0x51_4D_5F_01;
const FROZEN_CHUNK: i64 = 6;

fn block_in(chunk_x: i64) -> VoxelPos {
    VoxelPos::foreground(chunk_x * i64::from(CHUNK_WIDTH), 40)
}

fn activation_world(snapshot: &sidecraft::application::snapshot::WorldSnapshot) -> WorldState {
    WorldState::from_snapshot(snapshot, 0, |chunk_x| generate_chunk(ACTIVATION_SEED, chunk_x, &flat_heights(chunk_x))).state
}

/// Runs whole frames of exactly one logical step each.
fn step(world: &mut WorldState, clock: &mut SimulationClock, areas: &[TickingArea], frames: usize) {
    for _ in 0..frames {
        run_simulation(world, clock, &regions(areas.to_vec()), NANOS_PER_STEP);
    }
}

#[test]
fn frozen_work_survives_streaming_save_and_reload_then_thaws_on_its_due_tick() {
    let snapshot = blank_snapshot(ACTIVATION_SEED, "Activation world".to_string(), Vec::new(), player(), 1);
    let mut world = activation_world(&snapshot);
    world.integrate_chunk(generate_chunk(ACTIVATION_SEED, FROZEN_CHUNK, &flat_heights(FROZEN_CHUNK)));
    let mut clock = SimulationClock::default();

    let active = world.schedule_tick(block_in(0), MutationPriority::player(), 3, None).unwrap();
    let frozen = world.schedule_tick(block_in(FROZEN_CHUNK), MutationPriority::player(), 3, None).unwrap();

    // The frozen chunk is loaded and rendered, but outside the simulation radius.
    step(&mut world, &mut clock, &[], 5);
    assert_eq!(world.world_tick(), 5);
    assert_eq!(world.queued_ticks(), 1);
    assert!(world.take_due_ticks(&[0]).is_empty(), "{active:?} already ran");

    // Streaming it out must not lose the work it still owes.
    world.unload_chunk(FROZEN_CHUNK);
    let mut saved = snapshot.clone();
    saved.chunks = world.snapshot_chunks();
    saved.world_tick = world.world_tick();
    saved.next_tick_sequence = 2;

    validate_snapshot(&saved, true).unwrap();
    assert_eq!(saved.world_tick, 5);
    assert_eq!(
        saved.chunks.iter().find(|chunk| chunk.x == FROZEN_CHUNK).map(|chunk| chunk.pending_ticks.as_slice()),
        Some([frozen].as_slice())
    );

    // Revisiting rejoins the normal bounded queue: overdue work runs on the next active tick.
    let mut revisited = activation_world(&saved);
    let mut clock = SimulationClock::default();
    let area = [TickingArea::new(FROZEN_CHUNK, 0)];
    step(&mut revisited, &mut clock, &area, 1);
    assert_eq!(revisited.queued_ticks(), 1, "an unloaded area stays frozen");

    revisited.integrate_chunk(revisited.persisted_chunk(FROZEN_CHUNK).unwrap());
    step(&mut revisited, &mut clock, &area, 1);
    assert_eq!(revisited.queued_ticks(), 0);
    assert_eq!(revisited.world_tick(), 7);
}

#[test]
fn simulation_never_force_loads_a_frontier_chunk() {
    let mut world =
        activation_world(&blank_snapshot(ACTIVATION_SEED, "Frontier world".to_string(), Vec::new(), player(), 1));

    assert_eq!(
        world.schedule_tick(block_in(FROZEN_CHUNK), MutationPriority::player(), 1, None),
        Err(ScheduleRejection::Unloaded)
    );

    let mut clock = SimulationClock::default();
    step(&mut world, &mut clock, &[TickingArea::new(FROZEN_CHUNK, 1)], 4);

    assert_eq!(world.world_tick(), 4);
    for chunk_x in FROZEN_CHUNK - 1..=FROZEN_CHUNK + 1 {
        assert!(
            !world.view().contains_chunk(ChunkLayer::foreground(chunk_x)),
            "a ticking area must not pull chunk {chunk_x} into memory"
        );
    }
}

// What the presentation must refresh ------------------------------------------------------------


#[test]
fn cell_reports_coalesce_and_only_cross_the_edited_edge() {
    let position = VoxelPos::foreground(0, 70);
    let report = MutationReport {
        cell_changes: vec![
            CellChange { position, before: None, after: Some(BlockState::DIRT) },
            CellChange { position, before: Some(BlockState::DIRT), after: Some(BlockState::STONE) },
        ],
        chunk_changes: Vec::new(),
    };
    let mut dirty = WorldDirtySets::default();

    apply_report_to_dirty(&report, &mut dirty);

    assert_eq!(dirty.render, BTreeSet::from([-1, 0]));
    assert_eq!(dirty.lighting, BTreeSet::from([(0, 0)]));
    assert_eq!(dirty.collision, BTreeSet::from([0]));
    assert_eq!(dirty.simulation.len(), 5);
}

#[test]
fn chunk_lifecycle_reports_invalidate_both_render_neighbors() {
    let report = MutationReport {
        cell_changes: Vec::new(),
        chunk_changes: vec![ChunkChange::Integrated(ChunkLayer::foreground(4))],
    };
    let mut dirty = WorldDirtySets::default();

    apply_report_to_dirty(&report, &mut dirty);

    assert_eq!(dirty.render, BTreeSet::from([3, 4, 5]));
    assert_eq!(dirty.lighting, BTreeSet::from([(4, 0)]));
    assert_eq!(dirty.collision, BTreeSet::from([4]));
    assert!(dirty.simulation.is_empty());
}

#[test]
fn changed_light_columns_dirty_faces_across_chunk_boundaries() {
    let mut dirty = WorldDirtySets::default();

    mark_light_columns_dirty(&[31], &mut dirty);

    assert_eq!(dirty.render, BTreeSet::from([0, 1]));
    assert!(dirty.lighting.is_empty());
    assert!(dirty.collision.is_empty());
    assert!(dirty.simulation.is_empty());
}

#[test]
fn light_columns_at_the_ends_of_the_integer_range_stay_in_range() {
    let mut dirty = WorldDirtySets::default();

    mark_light_columns_dirty(&[i64::MIN, i64::MAX, 0], &mut dirty);

    let lowest = i64::MIN.div_euclid(32);
    let highest = i64::MAX.div_euclid(32);
    assert_eq!(dirty.render, BTreeSet::from([lowest, -1, 0, highest]));
}

#[test]
fn backwall_reports_rebuild_rendering_and_lighting_without_collision() {
    let position = VoxelPos::backwall(31, 12);
    let report = MutationReport {
        cell_changes: vec![CellChange { position, before: None, after: Some(BlockState::STONE) }],
        chunk_changes: Vec::new(),
    };
    let mut dirty = WorldDirtySets::default();

    apply_report_to_dirty(&report, &mut dirty);

    assert_eq!(dirty.render, BTreeSet::from([0, 1]));
    assert_eq!(dirty.lighting, BTreeSet::from([(0, 1)]));
    assert!(dirty.collision.is_empty());
    assert!(dirty.simulation.contains(&(31, 12, 1)));
    assert_eq!(
        dirty.simulation,
        BTreeSet::from([(30, 12, 1), (31, 11, 1), (31, 12, 1), (31, 13, 1), (32, 12, 1)])
    );
}

#[test]
fn presentation_window_changes_only_cross_the_render_boundary() {
    let window = StreamWindow::new(10, StreamConfig::default());

    let (entering, leaving) = presentation_window_changes(window, &[4, 5, 10, 15, 16], &[4, 5, 10, 16]);

    assert_eq!(entering, BTreeSet::from([15]));
    assert_eq!(leaving, BTreeSet::from([4, 16]));
}

#[test]
fn task_lifecycle_holds_current_work_and_drains_orphans() {
    let current = GenerationIdentity {
        session_instance: SessionInstanceId::new(2),
        world_id: WorldId::new("current".to_string()).unwrap(),
        generator_version: 2,
        seed: 7,
    };
    let old = GenerationIdentity { session_instance: SessionInstanceId::new(1), ..current.clone() };

    assert_eq!(generation_task_disposition(false, &current, Some(&current)), GenerationTaskDisposition::Hold);
    assert_eq!(generation_task_disposition(true, &current, Some(&current)), GenerationTaskDisposition::PollForCommit);
    assert_eq!(generation_task_disposition(false, &old, Some(&current)), GenerationTaskDisposition::PollForDiscard);
    assert_eq!(generation_task_disposition(false, &old, None), GenerationTaskDisposition::PollForDiscard);
}

#[test]
fn clock_only_autosave_waits_one_minute() {
    let saved = SaveVersion { world_revision: 8, day_time_ticks: 50 };
    assert!(!needs_autosave(SaveVersion { day_time_ticks: 1_249, ..saved }, saved));
    assert!(needs_autosave(SaveVersion { day_time_ticks: 1_250, ..saved }, saved));
}

#[test]
fn block_change_requests_autosave_immediately() {
    assert!(needs_autosave(
        SaveVersion { world_revision: 2, day_time_ticks: 100 },
        SaveVersion { world_revision: 1, day_time_ticks: 100 }
    ));
}

#[test]
fn a_clock_behind_the_saved_one_asks_for_nothing() {
    let saved = SaveVersion { world_revision: 3, day_time_ticks: 5_000 };
    assert!(!needs_autosave(SaveVersion { day_time_ticks: 10, ..saved }, saved));
}

// The light of the loaded world ------------------------------------------------------------------

/// Flat surfaces at the height `world()` generates with, over every column its light reaches.
fn light_heights() -> SurfaceHeights {
    SurfaceHeights { first_x: -64, rows: vec![vec![40; 192]; 8] }
}

#[test]
fn the_light_volume_spans_the_loaded_chunks_with_a_halo() {
    let world = world();
    let light = calculate_light_volume(&world, &light_heights());

    assert_eq!(light.max_x_exclusive(), 32 + 15);
    assert_eq!(light.get(-16, WORLD_HEIGHT - 1, 0), LightCell::default());
    assert_eq!(light.get(-15, WORLD_HEIGHT - 1, 0).sky, 15);
    assert_eq!(light.get(46, WORLD_HEIGHT - 1, 5).sky, 15);
    assert_eq!(light.get(47, WORLD_HEIGHT - 1, 0), LightCell::default());
    // Deep under the flat surface no sky light arrives.
    assert_eq!(light.get(10, 5, 0).sky, 0);
}

#[test]
fn refreshing_stale_light_marks_the_meshes_around_a_new_torch() {
    let mut world = world();
    let heights = light_heights();
    let mut light = calculate_light_volume(&world, &heights);
    let mut dirty = WorldDirtySets::default();

    refresh_lighting(&mut light, &world, &heights, &mut dirty);
    assert!(dirty.render.is_empty() && dirty.lighting.is_empty());

    let support = place_block(&mut world, VoxelPos::foreground(5, 70), BlockState::DIRT).unwrap();
    let torch = place_block(&mut world, VoxelPos::foreground(5, 71), BlockState::TORCH).unwrap();
    apply_report_to_dirty(&support.report, &mut dirty);
    apply_report_to_dirty(&torch.report, &mut dirty);
    dirty.render.clear();

    refresh_lighting(&mut light, &world, &heights, &mut dirty);

    assert!(dirty.lighting.is_empty());
    assert_eq!(dirty.render, BTreeSet::from([-1, 0]));
    assert_eq!(light.get(5, 71, 0).block, 14);
    assert_eq!(light.get(6, 71, 0).block, 13);
}

#[test]
fn stale_scenes_are_rebuilt_spawned_or_despawned_in_chunk_order() {
    let mut world = world();
    load(&mut world, 1);
    let window = StreamWindow::new(0, StreamConfig::default());
    let mut dirty = WorldDirtySets::default();
    dirty.render = BTreeSet::from([1, 0, 9]);
    dirty.collision = BTreeSet::from([1, 2]);
    dirty.lighting = BTreeSet::from([(0, 0)]);
    let presented = BTreeSet::from([0]);

    let plan = plan_scene_refresh(&mut dirty, window, &world.view(), 0, &presented);

    assert_eq!(
        plan,
        vec![
            SceneWork::Build { chunk_x: 0, local_chunk: 0, spawn: false, meshes: true, collider: false },
            SceneWork::Build { chunk_x: 1, local_chunk: 1, spawn: true, meshes: true, collider: true },
            // Chunk 2 is inside the band but not loaded, chunk 9 beyond the band.
            SceneWork::Despawn { chunk_x: 2 },
            SceneWork::Despawn { chunk_x: 9 },
        ]
    );
    assert!(dirty.render.is_empty() && dirty.collision.is_empty());
    assert_eq!(dirty.lighting, BTreeSet::from([(0, 0)]));
}

#[test]
fn malformed_chunks_are_reported_by_coordinate_and_layer() {
    let chunk = |foreground: Vec<u8>, backwall: Vec<u8>| ChunkSnapshot { x: 3, foreground, backwall, pending_ticks: Vec::new() };
    let area = sidecraft::domain::CHUNK_AREA;
    let with = |c: ChunkSnapshot| blank_snapshot(SEED, "Test".to_string(), vec![c], player(), 1);

    assert_eq!(
        validate_snapshot(&with(chunk(vec![0; 5], vec![0; area])), true),
        Err(SnapshotError("chunk 3 foreground has 5 blocks; expected 2560".to_string()))
    );
    let mut bad = vec![0; area];
    bad[7] = 200;
    assert_eq!(
        validate_snapshot(&with(chunk(vec![0; area], bad)), true),
        Err(SnapshotError("chunk 3 backwall contains an invalid block code".to_string()))
    );
    let far = ChunkSnapshot { x: i64::MAX, foreground: vec![0; area], backwall: vec![0; area], pending_ticks: Vec::new() };
    assert_eq!(
        validate_snapshot(&with(far), true),
        Err(SnapshotError(format!("chunk {} cannot be represented as global block coordinates", i64::MAX)))
    );
}
