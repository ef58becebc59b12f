use rg::array_texture::{array_texture_step, stack_layers, ArrayTextureStep};
use rg::dev_overlay::{handle_input, push_recent, DebugDraw, DevOverlaySettings};
use rg::edt::EdtSettings;
use rg::grid::Grid;
use rg::grid_cache::GridCache;
use rg::layers::{CollisionGroups, CollisionLayers};
use rg::math::{IVec2, UVec2};
use rg::noise::{border_seed, gradient_index, premultiply_x, premultiply_y, tile_seed, HASH_PRIME};
use rg::overlay::version_message;
use rg::progress::{sorted_stages, sorted_tasks, stage_durations, task_duration, ProgressCounter};
use rg::scale::{manual_scale, Scale};
use rg::scatter::mesh_triangles;
use rg::scheduling::{
    chunk_outcome, chunks_in_bounds, dirty_chunk_step, schedule_pass, ChunkOutcome, DirtyChunkStep,
};

#[test]
fn progress_counter_packs_task_and_subtask() {
    let mut p = ProgressCounter::new();
    p.set_stage(2);
    assert_eq!(p.get_stage(), 2);
    assert_eq!(p.begin_task(3), 0);
    assert_eq!(p.get_num_subtasks(), 3);
    p.subtask_completed();
    p.subtask_completed();
    assert_eq!(p.get_task_subtask(), (0, 2));
    assert_eq!(p.end_task(), 2);
    assert_eq!(p.get_task_subtask(), (1, 2));
    p.begin_task(1);
    assert_eq!(p.get_task_subtask(), (1, 0));
}

#[test]
fn stages_and_tasks_sorted() {
    let keys = [(3u32, 1u32), (1, 7), (3, 0), (1, 2), (3, 1)];
    assert_eq!(sorted_stages(&keys), vec![1, 3]);
    assert_eq!(sorted_tasks(&keys, 3), vec![0, 1]);
    assert_eq!(sorted_tasks(&keys, 1), vec![2, 7]);
    assert!(sorted_tasks(&keys, 9).is_empty());
}

#[test]
fn collision_layers() {
    assert_eq!(CollisionLayers::character().bits(), 0b11010);
    assert!(CollisionLayers::character().contains(CollisionLayers::agents()));
    assert!(!CollisionLayers::agents().contains(CollisionLayers::character()));
    assert_eq!(CollisionLayers::from_bits_truncate(0xff).bits(), 0x1f);
    assert_eq!(
        CollisionLayers::static_layer().union(CollisionLayers::walkable()),
        CollisionLayers::static_walkable()
    );
    assert_eq!(CollisionLayers::character_group(), CollisionGroups { memberships: 0b11010, filters: 1 });
    assert_eq!(CollisionLayers::dynamic_group(), CollisionGroups { memberships: 2, filters: 3 });
    assert_eq!(CollisionLayers::static_group().filters, 2);
    assert_eq!(CollisionLayers::static_walkable_group().memberships, 5);
}

#[test]
fn scale_settings() {
    let s: Scale<u8> = Scale::new(3);
    assert_eq!(s.pixels, 3);
    assert_eq!(Scale::<u8>::default().clone().pixels, 1);
    assert_eq!(manual_scale(Some(0)), Some(1));
    assert_eq!(manual_scale(Some(4)), Some(4));
    assert_eq!(manual_scale(None), None);
}

#[test]
fn dirty_chunks_wait_then_build() {
    assert_eq!(dirty_chunk_step(2, 5, 0, 4, false), DirtyChunkStep::Wait { tick: 3 });
    assert_eq!(dirty_chunk_step(5, 5, 4, 4, false), DirtyChunkStep::Postpone);
    assert_eq!(dirty_chunk_step(5, 5, 0, 4, true), DirtyChunkStep::Postpone);
    assert_eq!(dirty_chunk_step(6, 5, 3, 4, false), DirtyChunkStep::Build);
    assert_eq!(chunk_outcome(true), ChunkOutcome::Remove);
    assert_eq!(chunk_outcome(false), ChunkOutcome::Keep);
}

#[test]
fn chunks_in_bounds_x_major() {
    let c = chunks_in_bounds(IVec2::new(-1, 4), IVec2::new(0, 5));
    assert_eq!(c, vec![IVec2::new(-1, 4), IVec2::new(-1, 5), IVec2::new(0, 4), IVec2::new(0, 5)]);
    assert!(chunks_in_bounds(IVec2::new(1, 0), IVec2::new(0, 0)).is_empty());
    assert!(chunks_in_bounds(IVec2::new(9, 0), IVec2::new(0, 3)).is_empty());
    assert!(chunks_in_bounds(IVec2::new(0, 7), IVec2::new(3, -2)).is_empty());
}

#[test]
fn noise_hashing() {
    let x = premultiply_x(3);
    let y = premultiply_y(-2);
    let expected = ((x ^ y).wrapping_mul(HASH_PRIME) & 0xff) as usize;
    assert_eq!(gradient_index(x, y), expected);
    assert!(gradient_index(x, y) < 256);
    assert_eq!(premultiply_x(1), 0x5205402B9270C86F);
    assert_eq!(tile_seed(0x100, IVec2::new(1, 2)), 0x100 | 1 | (2u64 << 32));
    assert_eq!(tile_seed(0, IVec2::new(-1, 0)), u64::MAX);
    assert_eq!(border_seed(5, IVec2::new(1, 1)), 5 ^ 1 ^ (1u64 << 32));
}

#[test]
fn edt_mask_pads_with_border() {
    let g = Grid::from_data(UVec2::new(2, 1), vec![true, false]);
    let settings = EdtSettings { invert: false, normalize: true, padding: 1 };
    let m = g.edt_mask(settings);
    assert_eq!(m.size(), UVec2::new(4, 3));
    assert_eq!(m.data(), &[true, true, false, false, true, true, false, false, true, true, false, false][..]);
    let inv = g.edt_mask(EdtSettings { invert: true, normalize: false, padding: 0 });
    assert_eq!(inv.data(), &[false, true][..]);
}

#[test]
fn grid_cache_builds_once() {
    let mut cache = GridCache::new(IVec2::new(2, 2), |g: Grid<u32>| g.map(|c: IVec2, _v: &u32| (c.x * 10 + c.y) as u32));
    let first = cache.get_chunk(IVec2::new(1, 2)).data().to_vec();
    assert_eq!(first, vec![24, 34, 25, 35]);
    let again = cache.get_chunk(IVec2::new(1, 2));
    assert_eq!(again.origin(), IVec2::new(2, 4));
    assert_eq!(again.data(), &[24, 34, 25, 35][..]);
}

#[test]
fn grid_operators_pair_values() {
    let g = Grid::from_data(UVec2::new(2, 1), vec![3i32, 4]);
    let h = Grid::from_data(UVec2::new(2, 1), vec![10i32, 20]);
    assert_eq!((&g + &h).data(), &[6, 8][..]);
    assert_eq!((&g * 2).data(), &[6, 8][..]);
    assert_eq!((g.clone() - 1).data(), &[2, 3][..]);
    assert_eq!((-&g).data(), &[-3, -4][..]);
    let b = Grid::from_data(UVec2::new(1, 1), vec![true]);
    assert_eq!((!&b).data(), &[false][..]);
    assert_eq!((&g << 1).data(), &[6, 8][..]);
    let _ = UVec2::new(1, 1);
}

#[test]
fn version_line() {
    assert_eq!(version_message("v0.3-2-gabc", "2023-11-05"), "rg v0.3-2-gabc (2023-11-05)");
    assert_eq!(version_message("v0.3", "1980-01-01"), "rg v0.3*");
}

#[test]
fn task_and_stage_durations() {
    assert_eq!(task_duration(Some(5), Some(12)), 7);
    assert_eq!(task_duration(Some(12), Some(5)), 0);
    assert_eq!(task_duration(None, Some(5)), 0);
    assert_eq!(task_duration(Some(1), None), 0);
    let tasks = [((0u32, 0u32), 10u64), ((1, 0), 5), ((0, 1), 7), ((2, 0), u64::MAX), ((2, 1), u64::MAX)];
    assert_eq!(
        stage_durations(&tasks, &[0, 1, 2, 3]),
        vec![17u128, 5, 2 * (u64::MAX as u128), 0]
    );
}

#[test]
fn mesh_triangles_by_index_or_position() {
    let idx = [0u32, 2, 1, 3, 1, 2, 0];
    assert_eq!(mesh_triangles(Some(&idx), 4), vec![[0usize, 2, 1], [3, 1, 2]]);
    assert_eq!(mesh_triangles(None, 7), vec![[0usize, 1, 2], [3, 4, 5]]);
    assert!(mesh_triangles(None, 2).is_empty());
    assert!(mesh_triangles(Some(&[]), 0).is_empty());
}

#[test]
fn union_contains_both_layers() {
    let a = CollisionLayers::static_layer();
    let b = CollisionLayers::agents();
    let u = a.union(b);
    assert!(u.contains(a) && u.contains(b));
    assert!(CollisionLayers::character().contains(u) == false);
}

#[test]
fn overlay_keys_toggle() {
    let mut s = DevOverlaySettings::default();
    assert!(!s.enabled && !s.show_settings);
    s.show_colliders = true;
    let draw = handle_input(&mut s, true, false);
    assert!(s.enabled);
    assert_eq!(draw, DebugDraw { gizmos: true, colliders: true });
    let draw = handle_input(&mut s, true, true);
    assert!(!s.enabled && s.show_settings);
    assert_eq!(draw, DebugDraw { gizmos: false, colliders: false });
    let draw = handle_input(&mut s, false, false);
    assert_eq!(draw, DebugDraw { gizmos: false, colliders: false });
}

#[test]
fn frame_history_keeps_last_hundred() {
    let mut points: Vec<u32> = Vec::new();
    for k in 0..150u32 {
        push_recent(&mut points, k);
    }
    assert_eq!(points.len(), 100);
    assert_eq!(points[0], 50);
    assert_eq!(points[99], 149);
    let mut few = vec![1u8, 2];
    push_recent(&mut few, 3);
    assert_eq!(few, vec![1, 2, 3]);
}

#[test]
fn array_texture_layers() {
    assert_eq!(array_texture_step(0, true, false), ArrayTextureStep::Empty);
    assert_eq!(array_texture_step(2, false, true), ArrayTextureStep::Waiting);
    assert_eq!(array_texture_step(2, true, true), ArrayTextureStep::Compressed);
    assert_eq!(array_texture_step(3, true, false), ArrayTextureStep::Build { depth: 3 });
    assert_eq!(stack_layers(&[vec![1u8, 2], vec![], vec![3]]), vec![1, 2, 3]);
    assert!(stack_layers(&[]).is_empty());
}

#[test]
fn schedule_pass_waits_builds_and_drops() {
    let dirty = vec![
        (IVec2::new(0, 0), 0u32),
        (IVec2::new(1, 0), 3),
        (IVec2::new(2, 0), 3),
        (IVec2::new(3, 0), 3),
        (IVec2::new(4, 0), 3),
    ];
    let in_flight = vec![IVec2::new(1, 0)];
    // at most two builds at once; chunk (2, 0) has no colliders
    let r = schedule_pass(&dirty, &in_flight, 2, 2, |p: IVec2| p.x == 2);
    assert_eq!(r.dirty, vec![(IVec2::new(0, 0), 1), (IVec2::new(1, 0), 3), (IVec2::new(4, 0), 3)]);
    assert_eq!(r.removed, vec![IVec2::new(2, 0)]);
    assert_eq!(r.spawned, vec![IVec2::new(3, 0)]);
}
