use terragen::frame::{next_frame, FrameEvent};
use terragen::scene::{power_of_two, scene_node_test, SceneSpec, SdfSpec, SpecError};
use terragen::octree::{ChunkRequest, Node, NodeResult};

fn spec(world_size: u32, chunk_size: u32, max_lod: u32) -> SceneSpec {
    SceneSpec { world_size, chunk_size, max_lod, sdf: SdfSpec { height_range: 0..64 } }
}

#[test]
fn check_accepts_a_multiple() {
    assert_eq!(spec(64, 32, 255).check(), Ok(()));
    assert_eq!(spec(32, 32, 0).check(), Ok(()));
}

#[test]
fn check_refuses_sizes_below_one() {
    assert_eq!(spec(0, 32, 255).check(), Err(SpecError::OutOfRange { world_size: true, chunk_size: false }));
    assert_eq!(spec(64, 0, 255).check(), Err(SpecError::OutOfRange { world_size: false, chunk_size: true }));
    assert_eq!(spec(0, 0, 255).check(), Err(SpecError::OutOfRange { world_size: true, chunk_size: true }));
}

#[test]
fn check_refuses_a_world_that_is_not_a_whole_number_of_chunks() {
    assert_eq!(spec(100, 32, 255).check(), Err(SpecError::NotMultiple { world_size: 100, chunk_size: 32 }));
}

#[test]
fn check_refuses_a_number_of_chunks_that_is_not_a_power_of_two() {
    assert_eq!(spec(24, 8, 255).check(), Err(SpecError::NotPowerOfTwo { world_size: 24, chunk_size: 8 }));
    assert_eq!(spec(96, 32, 255).check(), Err(SpecError::NotPowerOfTwo { world_size: 96, chunk_size: 32 }));
    assert_eq!(spec(256, 8, 255).check(), Ok(()));
}

#[test]
fn power_of_two_by_halving() {
    assert!(!power_of_two(0));
    assert!(power_of_two(1));
    assert!(power_of_two(2));
    assert!(!power_of_two(3));
    assert!(!power_of_two(12));
    assert!(power_of_two(1 << 31));
    assert!(!power_of_two(u32::MAX));
}

#[test]
fn the_scene_test_is_within_threshold_at_edge_32_only() {
    let n = |size: u32| Node { x: 0, y: 0, z: 0, size, lod: 0 };
    assert_eq!(scene_node_test(n(32)), NodeResult::Projected { within_threshold: true });
    assert_eq!(scene_node_test(n(64)), NodeResult::Projected { within_threshold: false });
}

#[test]
fn render_emits_the_chunks_of_the_32_wide_nodes() {
    let scene = spec(64, 32, 255).build();
    assert_eq!(scene.octree.world_size, 64);
    let out = scene.render();
    assert_eq!(out.len(), 8);
    assert_eq!(out[0], ChunkRequest { x: 0, y: 0, z: 0, lod: 0 });
    assert_eq!(out[7], ChunkRequest { x: 32, y: 32, z: 32, lod: 0 });
}

#[test]
fn render_with_chunks_of_16_emits_a_chunk_per_16_cube() {
    // world 32, chunk 16: the root (edge 32) is within threshold and tiled by 8 chunks.
    let out = spec(32, 16, 255).build().render();
    assert_eq!(out.len(), 8);
    assert!(out.iter().all(|c| c.lod == 0));
}

#[test]
fn render_refines_to_max_lod_when_no_node_is_32_wide() {
    // world 16: no node has edge 32, so the root refines until max_lod.
    let out = spec(16, 16, 3).build().render();
    assert_eq!(out, vec![ChunkRequest { x: 0, y: 0, z: 0, lod: 3 }]);
}

#[test]
fn frame_loop_stops_on_quit() {
    assert!(next_frame(&vec![]));
    assert!(next_frame(&vec![FrameEvent::Other, FrameEvent::Other]));
    assert!(!next_frame(&vec![FrameEvent::Other, FrameEvent::Quit, FrameEvent::Other]));
}
