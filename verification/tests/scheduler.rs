use voxel_world::octree::Octree;
use voxel_world::scheduler::{
    chunk_destroying_system, chunk_generation_system_end_generation,
    chunk_generation_system_start_generation, chunk_generator_system, Chunk, ChunkCoord,
    ChunkGenerator, ChunkLoadingStatus, ChunkRecord,
};

fn requested_count(records: &Vec<ChunkRecord>) -> usize {
    records
        .iter()
        .filter(|r| matches!(r.status, ChunkLoadingStatus::GenerationRequested(_)))
        .count()
}

#[test]
fn scheduler_spawns_active_cube() {
    let generator = ChunkGenerator { render_cube_size: 2 };
    let player = ChunkCoord { x: 0, y: 0, z: 0 };
    let mut records: Vec<ChunkRecord> = Vec::new();

    chunk_generator_system(&generator, player, &mut records);

    assert_eq!(records.len(), 8);
    assert_eq!(requested_count(&records), 8);
}

#[test]
fn scheduler_tick_is_idempotent() {
    let generator = ChunkGenerator { render_cube_size: 3 };
    let player = ChunkCoord { x: 5, y: -2, z: 9 };
    let mut records: Vec<ChunkRecord> = Vec::new();

    chunk_generator_system(&generator, player, &mut records);
    let after_first = records.len();
    assert_eq!(after_first, 27);

    // An unmoving viewpoint never spawns a second request for a
    // coordinate already tracked, whether requested, in flight or loaded.
    chunk_generator_system(&generator, player, &mut records);
    assert_eq!(records.len(), after_first);

    let started = chunk_generation_system_start_generation(&mut records);
    assert_eq!(started.len(), 27);
    chunk_generator_system(&generator, player, &mut records);
    assert_eq!(records.len(), after_first);

    let (index, coord) = started[0];
    chunk_generation_system_end_generation(&mut records, index, Octree::new(3, None));
    assert!(matches!(records[index].status, ChunkLoadingStatus::Loaded));
    assert_eq!(records[index].chunk.as_ref().unwrap().position, coord);
    chunk_generator_system(&generator, player, &mut records);
    assert_eq!(records.len(), after_first);
}

#[test]
fn scheduler_evicts_and_destroys() {
    let generator = ChunkGenerator { render_cube_size: 2 };
    let player = ChunkCoord { x: 0, y: 0, z: 0 };
    let far = ChunkCoord { x: 100, y: 0, z: 0 };
    let mut records: Vec<ChunkRecord> = Vec::new();
    records.push(ChunkRecord {
        status: ChunkLoadingStatus::Loaded,
        has_task: false,
        chunk: Some(Chunk { octree: Octree::new(2, None), position: far }),
    });

    chunk_generator_system(&generator, player, &mut records);

    // The loaded chunk left the active cube: marked for destruction on
    // this very tick, and removed once accounted for.
    assert!(matches!(records[0].status, ChunkLoadingStatus::DestructionRequested));
    assert_eq!(records.len(), 9);

    chunk_destroying_system(&mut records);
    assert_eq!(records.len(), 8);
    assert_eq!(requested_count(&records), 8);
}

#[test]
fn scheduler_discards_stale_generation() {
    let generator = ChunkGenerator { render_cube_size: 1 };
    let player = ChunkCoord { x: 0, y: 0, z: 0 };
    let mut records: Vec<ChunkRecord> = Vec::new();

    chunk_generator_system(&generator, player, &mut records);
    assert_eq!(records.len(), 1);
    let started = chunk_generation_system_start_generation(&mut records);
    assert_eq!(started.len(), 1);

    // The viewpoint moves far away while the task is in flight.
    let away = ChunkCoord { x: 50, y: 50, z: 50 };
    chunk_generator_system(&generator, away, &mut records);
    assert!(matches!(records[0].status, ChunkLoadingStatus::DestructionRequested));

    // On completion the stale result is discarded, not installed.
    chunk_generation_system_end_generation(&mut records, 0, Octree::new(2, None));
    assert!(records.iter().all(|r| !matches!(r.status, ChunkLoadingStatus::DestructionRequested)
        || r.chunk.is_none()));
    // The stale record itself is gone; only the new cube remains.
    assert_eq!(requested_count(&records), 1);
}

#[test]
fn loading_radius_bounds() {
    let generator = ChunkGenerator { render_cube_size: 3 };
    let player = ChunkCoord { x: 0, y: 0, z: 0 };

    assert_eq!(generator.relative_pos_range(), (-1, 2));
    assert!(generator.chunk_is_in_loading_radius(player, ChunkCoord { x: -1, y: 0, z: 1 }));
    assert!(generator.chunk_is_in_loading_radius(player, ChunkCoord { x: 1, y: 1, z: 1 }));
    assert!(!generator.chunk_is_in_loading_radius(player, ChunkCoord { x: 2, y: 0, z: 0 }));
    assert!(!generator.chunk_is_in_loading_radius(player, ChunkCoord { x: 0, y: -2, z: 0 }));
}
