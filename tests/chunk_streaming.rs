use flight_terrain::{
    builds_to_collect,
    distance_sq, get_lod_subdivisions, insert_nearest_first, Chunk, ChunkManager, LodBand, WorldGenerationSettings,
};

fn default_bands() -> Vec<LodBand> {
    vec![
        LodBand { max_distance: 70, subdivisions: 20 },
        LodBand { max_distance: 125, subdivisions: 15 },
        LodBand { max_distance: 200, subdivisions: 8 },
        LodBand { max_distance: 300, subdivisions: 3 },
        LodBand { max_distance: 400, subdivisions: 1 },
    ]
}

fn manager(render_distance: u32, distance_multiplier: u32) -> ChunkManager {
    ChunkManager::new(render_distance, default_bands(), 1, distance_multiplier)
}

fn lattice_points_within(r: i64) -> usize {
    let mut n = 0;
    for x in -r..=r {
        for z in -r..=r {
            if x * x + z * z <= r * r {
                n += 1;
            }
        }
    }
    n
}

fn spawned_coords(m: &ChunkManager) -> Vec<(i32, i32)> {
    m.chunks.iter().map(|c| (c.x, c.z)).collect()
}

#[test]
fn initial_scan_queues_the_circle() {
    let mut m = manager(3, 1000);
    m.queue_spawns((0, 0));
    assert_eq!(m.to_spawn.len(), 29);
    assert_eq!(m.to_spawn[0], (0, 0));
    for c in [(0, 0), (3, 0), (-3, 0), (0, 3), (0, -3), (2, 2), (-2, -2), (1, -2)] {
        assert!(m.to_spawn.contains(&c), "{:?} should be queued", c);
    }
    for c in [(3, 1), (-3, 1), (3, 3), (2, 3), (4, 0)] {
        assert!(!m.to_spawn.contains(&c), "{:?} should not be queued", c);
    }
    // nearest first, ties broken by x then z
    for w in m.to_spawn.windows(2) {
        let da = w[0].0 * w[0].0 + w[0].1 * w[0].1;
        let db = w[1].0 * w[1].0 + w[1].1 * w[1].1;
        assert!(da < db || (da == db && w[0] < w[1]));
    }
}

#[test]
fn first_tick_spawns_whole_circle() {
    let mut m = manager(3, 1000);
    let work = m.tick((0, 0), false, 100);
    assert_eq!(work.spawned.len(), lattice_points_within(3));
    assert_eq!(m.spawned_count(), 29);
    assert!(m.to_spawn.is_empty());
    assert!(work.despawned.is_empty());
    assert!(work.spawned.iter().all(|c| c.building));
    assert_eq!(m.last_camera_chunk, Some((0, 0)));
}

#[test]
fn spawned_coordinates_stay_unique() {
    let mut m = manager(3, 100);
    let path = [(0, 0), (1, 0), (0, 0), (1, 1), (5, 5), (5, 5), (4, 5), (0, 0), (-7, 2)];
    for (i, cam) in path.iter().enumerate() {
        m.tick(*cam, i % 3 == 0, 7);
        let mut coords = spawned_coords(&m);
        let n = coords.len();
        coords.sort();
        coords.dedup();
        assert_eq!(coords.len(), n);
        assert_eq!(m.spawned_chunks.len(), n);
        assert!(coords.iter().all(|c| m.spawned_chunks.contains(c)));
    }
}

#[test]
fn spawning_is_rate_limited() {
    let mut m = manager(3, 1000);
    let first = m.tick((0, 0), false, 5);
    assert_eq!(first.spawned.len(), 5);
    assert_eq!(m.to_spawn.len(), 24);
    let nearest: Vec<(i32, i32)> = first.spawned.iter().map(|c| (c.x, c.z)).collect();
    assert_eq!(nearest, vec![(0, 0), (-1, 0), (0, -1), (0, 1), (1, 0)]);
    // same chunk, no rescan: the queue keeps draining
    let second = m.tick((0, 0), false, 5);
    assert_eq!(second.spawned.len(), 5);
    assert_eq!(m.spawned_count(), 10);
    let mut ticks = 2;
    while !m.to_spawn.is_empty() {
        let w = m.tick((0, 0), false, 5);
        assert!(w.spawned.len() <= 5);
        ticks += 1;
    }
    assert_eq!(ticks, 6);
    assert_eq!(m.spawned_count(), 29);
}

#[test]
fn stale_queue_entries_are_dropped() {
    let mut m = manager(3, 1000);
    m.queue_spawns((0, 0));
    // the viewpoint jumped far away before the queue was drained
    let spawned = m.drain_spawn_queue((100, 100), 10);
    assert!(spawned.is_empty());
    assert!(m.to_spawn.is_empty());
    assert_eq!(m.spawned_count(), 0);
}

#[test]
fn moving_one_chunk_does_not_despawn_trailing_edge() {
    let mut m = manager(3, 1000);
    m.tick((0, 0), false, 100);
    let work = m.tick((1, 0), false, 100);
    assert!(work.despawned.is_empty());
    assert!(m.is_spawned((-3, 0)));
    let new: Vec<(i32, i32)> = work.spawned.iter().map(|c| (c.x, c.z)).collect();
    assert!(new.contains(&(4, 0)));
    assert!(new.iter().all(|&(x, z)| (x - 1) * (x - 1) + z * z <= 9));
    assert!(new.iter().all(|&(x, z)| x * x + z * z > 9));
    // one more step puts (-3, 0) beyond render distance + 1
    let work = m.tick((2, 0), false, 100);
    assert_eq!(work.despawned, vec![(-3, 0), (-2, 2), (-2, -2), (-2, 1), (-2, -1)]);
    assert!(!m.is_spawned((-3, 0)));
}

#[test]
fn despawn_takes_farthest_first_and_is_bounded() {
    let mut m = manager(3, 1000);
    m.tick((0, 0), false, 100);
    // far away: all 29 chunks lie beyond the margin
    let removed = m.despawn_out_of_bounds_chunks((50, 0), 4);
    assert_eq!(removed.len(), 8);
    assert_eq!(removed[0], (-3, 0));
    for w in removed.windows(2) {
        assert!(distance_sq(w[0], (50, 0)) >= distance_sq(w[1], (50, 0)));
    }
    assert_eq!(m.spawned_count(), 21);
    let rest = m.despawn_out_of_bounds_chunks((50, 0), 100);
    assert_eq!(rest.len(), 21);
    assert_eq!(m.spawned_count(), 0);
}

#[test]
fn lod_table_lookup() {
    let m = manager(3, 1000);
    // reaches: 7, 12.5, 20, 30, 40 chunks
    assert_eq!(get_lod_subdivisions(0, &m), 20);
    assert_eq!(get_lod_subdivisions(49, &m), 20);
    assert_eq!(get_lod_subdivisions(50, &m), 15);
    assert_eq!(get_lod_subdivisions(156, &m), 15);
    assert_eq!(get_lod_subdivisions(157, &m), 8);
    assert_eq!(get_lod_subdivisions(400, &m), 8);
    assert_eq!(get_lod_subdivisions(401, &m), 3);
    assert_eq!(get_lod_subdivisions(900, &m), 3);
    assert_eq!(get_lod_subdivisions(1600, &m), 1);
    assert_eq!(get_lod_subdivisions(1601, &m), 1);
    assert_eq!(get_lod_subdivisions(1_000_000_000, &m), 1);
}

#[test]
fn lod_quality_multiplier_scales() {
    let m = ChunkManager::new(3, default_bands(), 3, 100);
    assert_eq!(get_lod_subdivisions(0, &m), 60);
    assert_eq!(get_lod_subdivisions(1, &m), 45);
    assert_eq!(get_lod_subdivisions(2, &m), 24);
    assert_eq!(get_lod_subdivisions(5, &m), 9);
    assert_eq!(get_lod_subdivisions(10, &m), 3);
    assert_eq!(get_lod_subdivisions(17, &m), 3);
}

#[test]
fn lod_never_rises_with_distance() {
    let m = manager(3, 100);
    let mut last = u32::MAX;
    for d in 0..40u128 {
        let lod = get_lod_subdivisions(d, &m);
        assert!(lod <= last);
        last = lod;
    }
}

#[test]
fn chunks_get_distance_lod() {
    let mut m = manager(3, 100);
    let work = m.tick((0, 0), false, 100);
    let lod_at = |x: i32, z: i32| work.spawned.iter().find(|c| c.x == x && c.z == z).unwrap().current_lod;
    assert_eq!(lod_at(0, 0), 20);
    assert_eq!(lod_at(1, 0), 15);
    assert_eq!(lod_at(1, 1), 8);
    assert_eq!(lod_at(2, 0), 8);
    assert_eq!(lod_at(2, 1), 3);
    assert_eq!(lod_at(3, 0), 3);
}

#[test]
fn lod_updates_follow_the_viewpoint() {
    let mut m = manager(3, 100);
    m.tick((0, 0), false, 100);
    // chunks with a build in flight are not rescanned
    m.queue_lod_updates((1, 0));
    assert!(m.lod_to_update.is_empty());
    for c in spawned_coords(&m) {
        assert!(m.complete_build(c));
    }
    let work = m.tick((1, 0), false, 100);
    let rebuilt: Vec<(i32, i32)> = work.rebuilt.iter().map(|c| (c.x, c.z)).collect();
    assert_eq!(rebuilt[0], (1, 0));
    assert_eq!(rebuilt[1], (0, 0));
    assert!(!rebuilt.contains(&(2, 2)));
    let c = work.rebuilt.iter().find(|c| c.x == 1 && c.z == 0).unwrap();
    assert_eq!(c.current_lod, 20);
    assert!(c.building);
    let c = work.rebuilt.iter().find(|c| c.x == 0 && c.z == 0).unwrap();
    assert_eq!(c.current_lod, 15);
    assert!(m.lod_to_update.is_empty());
}

#[test]
fn lod_updates_are_rate_limited() {
    let mut m = manager(3, 100);
    m.tick((0, 0), false, 100);
    for c in spawned_coords(&m) {
        m.complete_build(c);
    }
    let work = m.tick((1, 0), false, 2);
    assert_eq!(work.rebuilt.len(), 2);
    assert!(!m.lod_to_update.is_empty());
}

#[test]
fn settings_change_forces_rescan() {
    let mut m = manager(3, 1000);
    m.tick((0, 0), false, 100);
    assert!(!m.needs_rescan((0, 0), false));
    assert!(m.needs_rescan((0, 0), true));
    assert!(m.needs_rescan((0, 1), false));
    m.render_distance = 4;
    let work = m.tick((0, 0), true, 100);
    assert_eq!(work.spawned.len(), lattice_points_within(4) - 29);
    assert_eq!(m.spawned_count(), lattice_points_within(4));
}

#[test]
fn completing_a_despawned_build_is_discarded() {
    let mut m = manager(1, 1000);
    m.tick((0, 0), false, 100);
    assert!(m.complete_build((1, 0)));
    assert!(!m.complete_build((7, 7)));
    let c: &Chunk = m.chunks.iter().find(|c| c.x == 1 && c.z == 0).unwrap();
    assert!(!c.building);
}

#[test]
fn distance_at_the_coordinate_limits() {
    assert_eq!(distance_sq((i32::MIN, i32::MIN), (i32::MAX, i32::MAX)), 2 * (u32::MAX as u128) * (u32::MAX as u128));
    assert_eq!(distance_sq((3, -4), (0, 0)), 25);
}

#[test]
fn scan_at_the_coordinate_limits() {
    let mut m = manager(1, 1000);
    m.queue_spawns((i32::MAX, i32::MIN));
    assert_eq!(m.to_spawn, vec![(i32::MAX, i32::MIN), (i32::MAX - 1, i32::MIN), (i32::MAX, i32::MIN + 1)]);
}

#[test]
fn zero_render_distance_spawns_only_the_viewpoint_chunk() {
    let mut m = manager(0, 1000);
    let work = m.tick((5, -5), false, 100);
    assert_eq!(work.spawned.len(), 1);
    assert_eq!((work.spawned[0].x, work.spawned[0].z), (5, -5));
}

#[test]
fn nearest_first_insert_ignores_duplicates() {
    let mut v = Vec::new();
    for c in [(2, 0), (0, 0), (1, 1), (0, 1), (2, 0), (-1, 0)] {
        insert_nearest_first(&mut v, (0, 0), c);
    }
    assert_eq!(v, vec![(0, 0), (-1, 0), (0, 1), (1, 1), (2, 0)]);
}

#[test]
fn default_settings() {
    assert_eq!(WorldGenerationSettings::default().max_chunks_per_frame, 100);
}

#[test]
fn pending_builds_nearest_first() {
    let mut m = manager(1, 1000);
    m.tick((0, 0), false, 100);
    assert_eq!(m.pending_builds((0, 0)), vec![(0, 0), (-1, 0), (0, -1), (0, 1), (1, 0)]);
    m.complete_build((0, -1));
    assert_eq!(m.pending_builds((1, 0)), vec![(1, 0), (0, 0), (0, 1), (-1, 0)]);
}

#[test]
fn generate_chunks_records_the_scanned_chunk() {
    let mut m = manager(2, 1000);
    let spawned = m.generate_chunks((3, -1), true, 4);
    assert_eq!(m.last_camera_chunk, Some((3, -1)));
    assert_eq!(spawned.len(), 4);
    assert_eq!(m.to_spawn.len(), 13 - 4);
    assert!(!m.needs_rescan((3, -1), false));
    // without a rescan the recorded chunk is left alone
    m.generate_chunks((4, -1), false, 4);
    assert_eq!(m.last_camera_chunk, Some((3, -1)));
    assert_eq!(m.spawned_count(), 8);
}

#[test]
fn builds_to_collect_takes_first_ready_nearest() {
    let order = vec![(0, 0), (1, 0), (0, 1), (2, 0), (3, 0)];
    let ready = vec![false, true, true, false, true];
    assert_eq!(builds_to_collect(&order, &ready, 2), vec![(1, 0), (0, 1)]);
    assert_eq!(builds_to_collect(&order, &ready, 10), vec![(1, 0), (0, 1), (3, 0)]);
    assert_eq!(builds_to_collect(&order, &ready, 0), Vec::<(i32, i32)>::new());
    // a missing flag counts as not finished
    assert_eq!(builds_to_collect(&order, &vec![true], 5), vec![(0, 0)]);
}
