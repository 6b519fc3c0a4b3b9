use std::cell::RefCell;
use std::collections::HashSet;

use terragen::octree::{Call, Callbacks, ChunkRequest, Node, NodeAction, NodeResult, Octree, ilog2};

/// What a node test reports, with the projected error as a float; the
/// traversal sees only whether the error is within the threshold.
#[derive(Clone, Copy, Debug)]
enum Verdict {
    Empty,
    Projected { error: f32 },
}

fn classify(v: Verdict, error_threshold: f32) -> NodeResult {
    match v {
        Verdict::Empty => NodeResult::Empty,
        Verdict::Projected { error } => NodeResult::Projected { within_threshold: error <= error_threshold },
    }
}

/// Runs an octree with the given parameters and verdict function, returning
/// (tested nodes, emitted chunks). `max_lod` is high so the LOD ceiling never
/// interferes; tests that exercise the ceiling use `run_capped`.
fn run(world_size: u32, chunk_size: u32, error_threshold: f32, verdicts: fn(&Node) -> Verdict) -> (Vec<Node>, Vec<ChunkRequest>) {
    run_capped(world_size, chunk_size, u32::MAX, error_threshold, verdicts)
}

fn run_capped(
    world_size: u32,
    chunk_size: u32,
    max_lod: u32,
    error_threshold: f32,
    verdicts: fn(&Node) -> Verdict,
) -> (Vec<Node>, Vec<ChunkRequest>) {
    let tested: RefCell<Vec<Node>> = RefCell::new(Vec::new());
    let emitted: RefCell<Vec<ChunkRequest>> = RefCell::new(Vec::new());
    let octree = Octree::from(world_size, chunk_size, max_lod);
    let test = |node: Node| -> NodeResult {
        tested.borrow_mut().push(node);
        classify(verdicts(&node), error_threshold)
    };
    let emit = |req: ChunkRequest| emitted.borrow_mut().push(req);
    let mut cb = Callbacks::new(test, emit);
    octree.iterate(&mut cb);
    let kept = cb.into_chunks();
    let emitted = emitted.into_inner();
    assert_eq!(kept, emitted, "the chunks kept are those handed to emit");
    (tested.into_inner(), emitted)
}

/// Runs an octree and returns every call made through its callbacks, in order.
fn run_calls(world_size: u32, chunk_size: u32, max_lod: u32, verdicts: fn(&Node) -> Verdict) -> Vec<Call> {
    let calls: RefCell<Vec<Call>> = RefCell::new(Vec::new());
    let octree = Octree::from(world_size, chunk_size, max_lod);
    let test = |node: Node| -> NodeResult {
        calls.borrow_mut().push(Call::Test(node));
        classify(verdicts(&node), 0.5)
    };
    let emit = |req: ChunkRequest| calls.borrow_mut().push(Call::Emit(req));
    let mut cb = Callbacks::new(test, emit);
    octree.iterate(&mut cb);
    calls.into_inner()
}

// A) An Empty node is never chunked and never descended into.
#[test]
fn empty_emits_nothing_and_does_not_descend() {
    let (tested, emitted) = run(8, 8, 1.0, |_| Verdict::Empty);

    assert_eq!(emitted.len(), 0, "Empty must not emit chunks");
    assert_eq!(tested.len(), 1, "Empty must not trigger descent");
    assert_eq!(tested[0].lod, 0, "root lod is 0");
    assert_eq!(tested[0].size, 8);
}

// B) Projected with error OVER threshold descends to a finer size (and LOD).
#[test]
fn projected_over_threshold_descends() {
    let (tested, emitted) = run(16, 8, 1.0, |node| {
        if node.size == 16 {
            Verdict::Projected { error: 5.0 }
        } else {
            Verdict::Empty
        }
    });

    assert_eq!(emitted.len(), 0, "over-threshold root must not emit");
    let root = &tested[0];
    assert_eq!(root.size, 16);
    assert_eq!(root.lod, 0);

    let children: Vec<&Node> = tested.iter().filter(|n| n.size == 8).collect();
    assert!(!children.is_empty(), "must have descended to size 8");
    assert!(children.iter().all(|n| n.lod == 1), "descent increments LOD");
    assert_eq!(children.len(), 8);
}

// C) Projected with error UNDER (or equal to) threshold emits a chunk now.
#[test]
fn projected_under_threshold_emits_and_does_not_descend() {
    let (tested, emitted) = run(8, 8, 1.0, |_| Verdict::Projected { error: 0.5 });

    assert_eq!(tested.len(), 1, "under-threshold must not descend");
    assert_eq!(emitted.len(), 1, "one root-sized chunk");
    assert_eq!(emitted[0].lod, 0, "world==chunk: chunk-relative lod is 0");
    assert_eq!((emitted[0].x, emitted[0].y, emitted[0].z), (0, 0, 0));
}

// D) A node that becomes sufficient BEFORE reaching the chunk boundary is
//    split into multiple chunk_size-sized chunks.
#[test]
fn sufficient_above_chunk_boundary_yields_multiple_chunks() {
    let (tested, emitted) = run(16, 8, 1.0, |node| {
        if node.size == 16 {
            Verdict::Projected { error: 0.5 }
        } else {
            Verdict::Empty
        }
    });

    assert_eq!(tested.len(), 1, "root sufficient -> no descent");
    assert_eq!(emitted.len(), 8, "16-wide node splits into 8 chunks of size 8");

    let mut coords: Vec<(u32, u32, u32)> = emitted.iter().map(|r| (r.x, r.y, r.z)).collect();
    coords.sort();
    let mut expected: Vec<(u32, u32, u32)> = Vec::new();
    for x in [0, 8] {
        for y in [0, 8] {
            for z in [0, 8] {
                expected.push((x, y, z));
            }
        }
    }
    expected.sort();
    assert_eq!(coords, expected);
    assert!(emitted.iter().all(|r| r.lod == 0), "above-boundary chunks clamp to lod 0");
}

// E) A node that only becomes sufficient AT the chunk boundary yields a single
//    chunk per octant, each at chunk-relative lod 0.
#[test]
fn sufficient_at_chunk_boundary_yields_single_chunk() {
    let (_, emitted) = run(16, 8, 1.0, |node| {
        if node.size == 16 {
            Verdict::Projected { error: 5.0 }
        } else {
            Verdict::Projected { error: 0.5 }
        }
    });

    assert_eq!(emitted.len(), 8);
    assert!(emitted.iter().all(|r| r.lod == 0), "boundary sufficiency => chunk lod 0");
    let mut coords: Vec<(u32, u32, u32)> = emitted.iter().map(|r| (r.x, r.y, r.z)).collect();
    coords.sort();
    coords.dedup();
    assert_eq!(coords.len(), 8, "no duplicate / oversized chunks");
}

// F) At the chunk boundary an over-threshold node descends in LOD only.
#[test]
fn over_threshold_at_chunk_boundary_descends_lod_not_size() {
    let (tested, emitted) = run(8, 8, 1.0, |node| {
        if node.lod == 0 {
            Verdict::Projected { error: 5.0 }
        } else {
            Verdict::Projected { error: 0.5 }
        }
    });

    assert!(tested.iter().all(|n| n.size == 8), "size must not descend past chunk_size");
    assert!(tested.iter().any(|n| n.lod == 0));
    assert!(tested.iter().any(|n| n.lod == 1), "must descend in LOD at the boundary");
    assert_eq!(emitted.len(), 1);
    assert_eq!(emitted[0].lod, 1);
}

// G) max_lod caps the LOD-only descent: at the ceiling an over-threshold node
//    is emitted as a best-effort chunk instead of recursing forever.
#[test]
fn max_lod_caps_lod_descent_and_emits() {
    let (tested, emitted) = run_capped(8, 8, 2, 1.0, |_| Verdict::Projected { error: 5.0 });

    assert_eq!(tested.iter().map(|n| n.lod).max(), Some(2), "must not descend past max_lod");
    assert!(tested.iter().all(|n| n.size == 8));
    assert_eq!(emitted.len(), 1, "cap emits a best-effort chunk");
    assert_eq!(emitted[0].lod, 2);
}

// H) Descent is bounded to the parent octant.
#[test]
fn descent_stays_within_parent_octant() {
    let (_, emitted) = run(16, 8, 1.0, |node| {
        if node.size == 16 {
            Verdict::Projected { error: 5.0 }
        } else if (node.x, node.y, node.z) == (8, 8, 8) {
            Verdict::Projected { error: 0.5 }
        } else {
            Verdict::Empty
        }
    });

    assert_eq!(emitted.len(), 1, "only the sufficient octant emits");
    assert_eq!(
        (emitted[0].x, emitted[0].y, emitted[0].z),
        (8, 8, 8),
        "chunk must land in its own octant, not leak toward the origin"
    );
}

// Ground-truth occupancy at unit-cell (chunk_size) granularity for the tiling
// scene: world 16, chunk 4, a 4x4x4 grid of unit cells.
fn occupied(ux: u32, uy: u32, uz: u32) -> bool {
    let oct = (ux / 2, uy / 2, uz / 2);
    match oct {
        (0, 0, 0) => false,
        (0, 1, 0) => ux % 2 == 0,
        _ => true,
    }
}

fn occupancy_verdict(node: &Node) -> Verdict {
    let units = node.size / 4;
    let (bx, by, bz) = (node.x / 4, node.y / 4, node.z / 4);
    let mut any = false;
    let mut all = true;
    for dx in 0..units {
        for dy in 0..units {
            for dz in 0..units {
                if occupied(bx + dx, by + dy, bz + dz) {
                    any = true;
                } else {
                    all = false;
                }
            }
        }
    }
    if !any {
        Verdict::Empty
    } else if all {
        Verdict::Projected { error: 0.0 }
    } else {
        Verdict::Projected { error: 1.0 }
    }
}

// I) Tiling invariant on an adaptive, mixed-depth tree.
#[test]
fn adaptive_tree_tiles_occupied_space_exactly() {
    let mut universe: HashSet<(u32, u32, u32)> = HashSet::new();
    for ux in 0..4 {
        for uy in 0..4 {
            for uz in 0..4 {
                if occupied(ux, uy, uz) {
                    universe.insert((ux, uy, uz));
                }
            }
        }
    }
    assert!(!universe.is_empty(), "scene must have occupied cells");
    assert!(universe.len() < 64, "scene must have some empty cells");

    let (tested, emitted) = run(16, 4, 0.5, occupancy_verdict);

    assert!(!emitted.is_empty(), "occupied space must emit chunks");
    assert!(
        tested.iter().any(|n| n.size == 8 && matches!(occupancy_verdict(n), Verdict::Projected { error } if error <= 0.5)),
        "expected at least one coarse (size-8) octant that is sufficient"
    );
    assert!(tested.iter().any(|n| n.size == 4), "expected at least one branch to descend to the fine (size-4) level");

    let mut remaining = universe.clone();
    for c in &emitted {
        let cell = (c.x / 4, c.y / 4, c.z / 4);
        assert_eq!((c.x % 4, c.y % 4, c.z % 4), (0, 0, 0), "chunk origin must be chunk_size-aligned: {:?}", (c.x, c.y, c.z));
        assert!(cell.0 < 4 && cell.1 < 4 && cell.2 < 4, "chunk out of world bounds: {:?}", (c.x, c.y, c.z));
        assert!(
            remaining.remove(&cell),
            "chunk at {:?} covers an empty or already-covered cell (overlap / spill into empty space)",
            (c.x, c.y, c.z)
        );
    }
    assert!(remaining.is_empty(), "occupied cells left uncovered (gap in tiling): {:?}", remaining);
}

// The order of the traversal: the root, then the octants in x, y, z order,
// each handled completely before the next.
#[test]
fn octants_are_tested_in_order() {
    let (tested, _) = run(16, 8, 1.0, |node| {
        if node.size == 16 {
            Verdict::Projected { error: 5.0 }
        } else {
            Verdict::Empty
        }
    });
    let corners: Vec<(u32, u32, u32)> = tested.iter().map(|n| (n.x, n.y, n.z)).collect();
    assert_eq!(
        corners,
        vec![
            (0, 0, 0),
            (0, 0, 0),
            (0, 0, 8),
            (0, 8, 0),
            (0, 8, 8),
            (8, 0, 0),
            (8, 0, 8),
            (8, 8, 0),
            (8, 8, 8),
        ]
    );
}

// Chunks of a sufficient node come out x outermost, z innermost.
#[test]
fn chunks_of_a_node_are_emitted_x_then_y_then_z() {
    let (_, emitted) = run(16, 8, 1.0, |_| Verdict::Projected { error: 0.0 });
    let corners: Vec<(u32, u32, u32)> = emitted.iter().map(|c| (c.x, c.y, c.z)).collect();
    assert_eq!(
        corners,
        vec![(0, 0, 0), (0, 0, 8), (0, 8, 0), (0, 8, 8), (8, 0, 0), (8, 0, 8), (8, 8, 0), (8, 8, 8)]
    );
}

// A node deeper than the chunk boundary carries lod minus log2(world / chunk).
#[test]
fn chunk_lod_is_relative_to_the_boundary() {
    // world 32, chunk 8: boundary two subdivisions down.
    let (_, emitted) = run(32, 8, 1.0, |node| {
        if node.lod < 3 && node.x == 0 && node.y == 0 && node.z == 0 {
            Verdict::Projected { error: 5.0 }
        } else if node.x == 0 && node.y == 0 && node.z == 0 {
            Verdict::Projected { error: 0.0 }
        } else {
            Verdict::Empty
        }
    });
    assert_eq!(emitted.len(), 1);
    assert_eq!(emitted[0].lod, 1);
    assert_eq!((emitted[0].x, emitted[0].y, emitted[0].z), (0, 0, 0));
}

// Every emitted chunk lies inside the world on the chunk grid, each once,
// whatever the test answers.
#[test]
fn no_overlap_for_arbitrary_answers() {
    let (tested, emitted) = run_capped(32, 4, 6, 0.5, |node| {
        let h = node.x.wrapping_mul(31).wrapping_add(node.y.wrapping_mul(17)).wrapping_add(node.z.wrapping_mul(7)).wrapping_add(node.lod);
        match h % 3 {
            0 => Verdict::Empty,
            1 => Verdict::Projected { error: 0.0 },
            _ => Verdict::Projected { error: 1.0 },
        }
    });
    let mut seen: HashSet<(u32, u32, u32)> = HashSet::new();
    for c in &emitted {
        assert_eq!((c.x % 4, c.y % 4, c.z % 4), (0, 0, 0));
        assert!(c.x < 32 && c.y < 32 && c.z < 32);
        assert!(seen.insert((c.x, c.y, c.z)), "duplicate chunk {:?}", (c.x, c.y, c.z));
    }
    assert!(tested.iter().all(|n| n.size >= 4 && n.lod <= 6));
}

#[test]
fn decide_follows_the_answer() {
    let o = Octree::from(16, 8, 3);
    let n = Node { x: 0, y: 0, z: 0, size: 16, lod: 0 };
    assert_eq!(o.decide(&n, NodeResult::Empty), NodeAction::Skip);
    assert_eq!(o.decide(&n, NodeResult::Projected { within_threshold: true }), NodeAction::Emit);
    assert_eq!(o.decide(&n, NodeResult::Projected { within_threshold: false }), NodeAction::Split);
    let small = Node { x: 0, y: 0, z: 0, size: 8, lod: 1 };
    assert_eq!(o.decide(&small, NodeResult::Projected { within_threshold: false }), NodeAction::Refine);
    let capped = Node { x: 0, y: 0, z: 0, size: 16, lod: 3 };
    assert_eq!(o.decide(&capped, NodeResult::Projected { within_threshold: false }), NodeAction::Emit);
}

fn never_asked(_: Node) -> NodeResult {
    NodeResult::Empty
}

fn ignore(_: ChunkRequest) {}

/// Callbacks that keep the chunks handed to emit, with a test that is never asked.
fn collecting() -> Callbacks<fn(Node) -> NodeResult, fn(ChunkRequest)> {
    Callbacks::new(never_asked as fn(Node) -> NodeResult, ignore as fn(ChunkRequest))
}

#[test]
fn chunk_hands_over_the_tiling_of_a_node() {
    let o = Octree::from(16, 4, 10);
    let mut cb = collecting();
    cb.give(ChunkRequest { x: 1, y: 2, z: 3, lod: 4 });
    o.chunk(8, 0, 4, 8, 3, &mut cb);
    let out = cb.into_chunks();
    assert_eq!(out.len(), 9);
    assert_eq!(out[0], ChunkRequest { x: 1, y: 2, z: 3, lod: 4 });
    assert_eq!(out[1], ChunkRequest { x: 8, y: 0, z: 4, lod: 1 });
    assert_eq!(out[8], ChunkRequest { x: 12, y: 4, z: 8, lod: 1 });
}

#[test]
fn chunk_of_a_size_that_is_not_a_multiple() {
    // world 24, chunk 8: a node of edge 6 still emits one chunk at its corner.
    let o = Octree::from(24, 8, 10);
    let mut cb = collecting();
    o.chunk(6, 0, 0, 6, 2, &mut cb);
    assert_eq!(cb.chunks(), &vec![ChunkRequest { x: 6, y: 0, z: 0, lod: 1 }]);
}

// The chunks of a node are handed to emit right after the node is tested,
// before the next node is tested.
#[test]
fn emit_calls_come_between_test_calls() {
    let calls = run_calls(16, 8, 10, |node| {
        if node.size == 16 {
            Verdict::Projected { error: 1.0 }
        } else if node.x == 0 && node.y == 0 && node.z == 0 {
            Verdict::Projected { error: 0.0 }
        } else {
            Verdict::Empty
        }
    });
    let octant = |x: u32, y: u32, z: u32| Call::Test(Node { x, y, z, size: 8, lod: 1 });
    assert_eq!(
        calls,
        vec![
            Call::Test(Node { x: 0, y: 0, z: 0, size: 16, lod: 0 }),
            octant(0, 0, 0),
            Call::Emit(ChunkRequest { x: 0, y: 0, z: 0, lod: 0 }),
            octant(0, 0, 8),
            octant(0, 8, 0),
            octant(0, 8, 8),
            octant(8, 0, 0),
            octant(8, 0, 8),
            octant(8, 8, 0),
            octant(8, 8, 8),
        ]
    );
}

// An empty root is tested once and nothing else is called.
#[test]
fn an_empty_root_is_the_only_call() {
    let calls = run_calls(32, 8, 10, |_| Verdict::Empty);
    assert_eq!(calls, vec![Call::Test(Node { x: 0, y: 0, z: 0, size: 32, lod: 0 })]);
}

#[test]
fn ilog2_rounds_down() {
    assert_eq!(ilog2(1), 0);
    assert_eq!(ilog2(2), 1);
    assert_eq!(ilog2(3), 1);
    assert_eq!(ilog2(1024), 10);
    assert_eq!(ilog2(u32::MAX), 31);
}

fn mixed_answers(node: &Node) -> Verdict {
    let h = node.x.wrapping_mul(13).wrapping_add(node.y.wrapping_mul(7)).wrapping_add(node.z.wrapping_mul(3)).wrapping_add(node.lod.wrapping_mul(5));
    match h % 3 {
        0 => Verdict::Empty,
        1 => Verdict::Projected { error: 0.0 },
        _ => Verdict::Projected { error: 1.0 },
    }
}

fn never_empty_answers(node: &Node) -> Verdict {
    if (node.x / 4 + node.y / 4 + node.lod) % 2 == 0 {
        Verdict::Projected { error: 1.0 }
    } else {
        Verdict::Projected { error: 0.0 }
    }
}

// In a world of 2^3 chunks per edge every tested node is 2^i chunks wide,
// sits on a multiple of its edge inside the world, and has lod 3 - i above
// the chunk boundary (at least 3 at it).
#[test]
fn tested_nodes_have_the_shape_of_grid_nodes() {
    let (tested, _) = run_capped(32, 4, 6, 0.5, mixed_answers);
    assert_eq!(tested[0], Node { x: 0, y: 0, z: 0, size: 32, lod: 0 });
    for n in &tested {
        let chunks = n.size / 4;
        assert!(chunks.is_power_of_two() && chunks <= 8);
        let i = chunks.ilog2();
        assert_eq!((n.x % n.size, n.y % n.size, n.z % n.size), (0, 0, 0));
        assert!(n.x + n.size <= 32 && n.y + n.size <= 32 && n.z + n.size <= 32);
        if i > 0 {
            assert_eq!(n.lod, 3 - i);
        } else {
            assert!(n.lod >= 3 && n.lod <= 6);
        }
    }
}

// A test that never answers empty gets every chunk of the world exactly once.
#[test]
fn a_test_that_never_answers_empty_tiles_the_world() {
    let (_, emitted) = run_capped(16, 4, 5, 0.5, never_empty_answers);
    let mut corners: Vec<(u32, u32, u32)> = emitted.iter().map(|c| (c.x, c.y, c.z)).collect();
    corners.sort();
    let mut expected: Vec<(u32, u32, u32)> = Vec::new();
    for x in (0..16).step_by(4) {
        for y in (0..16).step_by(4) {
            for z in (0..16).step_by(4) {
                expected.push((x, y, z));
            }
        }
    }
    assert_eq!(corners, expected);
}

// No chunk lands inside a node that the test answered empty.
#[test]
fn empty_nodes_get_no_chunks() {
    let (tested, emitted) = run_capped(32, 4, 6, 0.5, mixed_answers);
    let empties: Vec<&Node> = tested.iter().filter(|n| matches!(mixed_answers(n), Verdict::Empty)).collect();
    assert!(!empties.is_empty());
    for n in empties {
        for c in &emitted {
            let inside = n.x <= c.x && c.x < n.x + n.size && n.y <= c.y && c.y < n.y + n.size && n.z <= c.z && c.z < n.z + n.size;
            assert!(!inside, "chunk {:?} inside empty node {:?}", c, n);
        }
    }
}

// The test calls of a run are its tested nodes and its emit calls its chunks.
#[test]
fn the_calls_are_the_tested_nodes_and_the_chunks() {
    let calls = run_calls(16, 4, 5, never_empty_answers);
    let (tested, emitted) = run_capped(16, 4, 5, 0.5, never_empty_answers);
    let tests: Vec<Node> = calls.iter().filter_map(|c| if let Call::Test(n) = c { Some(*n) } else { None }).collect();
    let emits: Vec<ChunkRequest> = calls.iter().filter_map(|c| if let Call::Emit(r) = c { Some(*r) } else { None }).collect();
    assert_eq!(tests, tested);
    assert_eq!(emits, emitted);
}

// An empty box is tested once and tiled by no chunk.
#[test]
fn handle_of_an_empty_box() {
    let o = Octree::from(16, 4, 5);
    let calls: RefCell<Vec<Call>> = RefCell::new(Vec::new());
    let test = |node: Node| -> NodeResult {
        calls.borrow_mut().push(Call::Test(node));
        NodeResult::Projected { within_threshold: true }
    };
    let mut cb = Callbacks::new(test, |_: ChunkRequest| {});
    o.handle(4, 4, 4, 0, 1, &mut cb);
    assert!(cb.chunks().is_empty());
    assert_eq!(calls.into_inner(), vec![Call::Test(Node { x: 4, y: 4, z: 4, size: 0, lod: 1 })]);
}
