//! The scene description: the size of the world and of its chunks, the
//! deepest level of detail, and the signed-distance parameters; its check,
//! and the scene built from it.

use vstd::prelude::*;
use std::ops::Range;
use vstd::arithmetic::power2::{pow2, lemma_pow2_unfold, lemma2_to64};
use crate::octree::{Node, NodeResult, ChunkRequest, Octree, Callbacks, Call, answers, floor_log2, deeper};
use crate::laws::{
    law_deterministic_test, lemma_floor_log2_pow2, law_chunk_lod, law_no_overlap, law_exact_tiling, chunk_in_node, on_chunk_grid,
    distinct_corners, sizes_at_least, grid_corner_in, occupancy_answer, has_corner,
};

verus! {

/// The parameters of the signed distance field.
pub struct SdfSpec {
    pub height_range: Range<u32>,
}

/// A change of a signed-distance parameter for one scene node.
pub enum SdfParameterOverride {
    HeightRange { height_range: Range<u32> },
}

/// The scene as described: the world's edge, the chunks' edge and the
/// deepest level of detail, with the signed-distance parameters.
pub struct SceneSpec {
    pub world_size: u32,
    pub chunk_size: u32,
    pub max_lod: u32,
    pub sdf: SdfSpec,
}

/// Why a scene description is refused.
#[derive(Clone, Copy, Debug, PartialEq, Eq, Structural)]
#[allow(inconsistent_fields)]
pub enum SpecError {
    /// A size below 1: which of the two is.
    OutOfRange { world_size: bool, chunk_size: bool },
    /// The world's edge is not a whole number of chunks.
    NotMultiple { world_size: u32, chunk_size: u32 },
    /// The world's edge is a whole number of chunks, but that number is not a
    /// power of two, so halving the world never lands on the chunk edge.
    NotPowerOfTwo { world_size: u32, chunk_size: u32 },
}

/// `n` is a power of two: `2^k` for some `k`.
pub open spec fn is_power_of_two(n: nat) -> bool {
    exists|k: nat| pow2(k) == n
}

/// An even number above 1 is a power of two exactly when its half is.
proof fn lemma_power_of_two_half(n: nat)
    requires
        n >= 2,
        n % 2 == 0,
    ensures
        is_power_of_two(n) == is_power_of_two(n / 2),
{
    if is_power_of_two(n) {
        let k = choose|k: nat| pow2(k) == n;
        if k == 0 {
            lemma2_to64();
        }
        lemma_pow2_unfold(k);
        assert(pow2((k - 1) as nat) == n / 2);
    }
    if is_power_of_two(n / 2) {
        let k = choose|k: nat| pow2(k) == n / 2;
        lemma_pow2_unfold(k + 1);
        assert(pow2(k + 1) == n);
    }
}

/// A power of two above 1 is even, and 0 is no power of two.
proof fn lemma_power_of_two_odd(n: nat)
    requires
        n != 1,
        n < 2 || n % 2 == 1,
    ensures
        !is_power_of_two(n),
{
    if is_power_of_two(n) {
        let k = choose|k: nat| pow2(k) == n;
        if k == 0 {
            lemma2_to64();
        } else {
            lemma_pow2_unfold(k);
            vstd::arithmetic::power2::lemma_pow2_pos((k - 1) as nat);
        }
    }
}

/// Whether `n` is a power of two, by halving it while it is even.
pub fn power_of_two(n: u32) -> (r: bool)
    ensures
        r == is_power_of_two(n as nat),
{
    let mut q: u32 = n;
    while q > 1 && q % 2 == 0
        invariant
            is_power_of_two(q as nat) == is_power_of_two(n as nat),
        decreases q,
    {
        proof {
            lemma_power_of_two_half(q as nat);
        }
        q = q / 2;
    }
    if q == 1 {
        proof {
            lemma2_to64();
        }
        assert(pow2(0) == 1);
        true
    } else {
        proof {
            lemma_power_of_two_odd(q as nat);
        }
        false
    }
}

/// A power of two is `2` raised to its floor logarithm.
pub proof fn lemma_power_of_two_log(n: nat)
    requires
        is_power_of_two(n),
    ensures
        n == pow2(floor_log2(n)),
{
    let k = choose|k: nat| pow2(k) == n;
    lemma_floor_log2_pow2(k);
}

/// A scene ready to be traversed.
pub struct Scene {
    pub octree: Octree,
}

/// How the scene's node test answers: a node of edge 32 has a projected
/// error within the threshold, every other node an error over it.
pub open spec fn scene_answer(n: Node) -> NodeResult {
    NodeResult::Projected { within_threshold: n.size == 32 }
}

/// The scene's node test.
pub fn scene_node_test(node: Node) -> (r: NodeResult)
    ensures
        r == scene_answer(node),
        r == (NodeResult::Projected { within_threshold: node.size == 32 }),
{
    NodeResult::Projected { within_threshold: node.size == 32 }
}

impl SceneSpec {
    /// What checking a description gives: both sizes at least 1, then the
    /// world's edge a multiple of the chunks' edge, then that multiple a power
    /// of two.
    pub open spec fn checked(&self) -> Result<(), SpecError> {
        if self.world_size < 1 || self.chunk_size < 1 {
            Err(SpecError::OutOfRange { world_size: self.world_size < 1, chunk_size: self.chunk_size < 1 })
        } else if self.world_size % self.chunk_size != 0 {
            Err(SpecError::NotMultiple { world_size: self.world_size, chunk_size: self.chunk_size })
        } else if !is_power_of_two((self.world_size / self.chunk_size) as nat) {
            Err(SpecError::NotPowerOfTwo { world_size: self.world_size, chunk_size: self.chunk_size })
        } else {
            Ok(())
        }
    }

    /// Checks a description.
    pub fn check(&self) -> (r: Result<(), SpecError>)
        ensures
            r == self.checked(),
    {
        if self.world_size < 1 || self.chunk_size < 1 {
            Err(SpecError::OutOfRange { world_size: self.world_size < 1, chunk_size: self.chunk_size < 1 })
        } else if self.world_size % self.chunk_size != 0 {
            Err(SpecError::NotMultiple { world_size: self.world_size, chunk_size: self.chunk_size })
        } else if !power_of_two(self.world_size / self.chunk_size) {
            Err(SpecError::NotPowerOfTwo { world_size: self.world_size, chunk_size: self.chunk_size })
        } else {
            Ok(())
        }
    }

    /// The scene of a description: its octree has the description's sizes.
    pub fn build(&self) -> (s: Scene)
        ensures
            s.octree.world_size == self.world_size,
            s.octree.chunk_size == self.chunk_size,
            s.octree.max_lod == self.max_lod,
    {
        Scene { octree: Octree::from(self.world_size, self.chunk_size, self.max_lod) }
    }
}

impl Scene {
    /// Traverses the scene with its node test and returns the chunks to
    /// generate, in order.
    pub fn render(&self) -> (out: Vec<ChunkRequest>)
        requires
            self.octree.chunk_size > 0,
            self.octree.world_size >= self.octree.chunk_size,
        ensures
            out@ == self.octree.emitted(|n: Node| scene_answer(n), self.octree.root()),
    {
        let mut cb = Callbacks::new(scene_node_test, |c: ChunkRequest| {});
        self.octree.iterate(&mut cb);
        let ghost f = |n: Node| scene_answer(n);
        let ghost o = self.octree;
        let ghost v = choose|v: spec_fn(Node) -> NodeResult|
            {
                &&& answers(scene_node_test, v, o.tested(v, o.root()))
                &&& cb.calls() == Seq::<Call>::empty() + o.trace(v, o.root())
                &&& cb.sent() == Seq::<ChunkRequest>::empty() + o.emitted(v, o.root())
            };
        proof {
            law_deterministic_test(o, scene_node_test, f, v, o.root());
        }
        assert(cb.sent() =~= o.emitted(v, o.root()));
        cb.into_chunks()
    }
}

/// A description that passes the check builds a scene that can be rendered:
/// its world is `2^k` chunks per edge, `k` being the chunk boundary's level of
/// detail.
pub proof fn law_checked_scene_renders(spec: SceneSpec)
    requires
        spec.checked() is Ok,
    ensures
        spec.chunk_size > 0,
        spec.world_size >= spec.chunk_size,
        spec.world_size == spec.chunk_size * pow2(floor_log2((spec.world_size / spec.chunk_size) as nat)),
{
    let q = (spec.world_size / spec.chunk_size) as nat;
    lemma_power_of_two_log(q);
    vstd::arithmetic::power2::lemma_pow2_pos(floor_log2(q));
    assert(spec.world_size == spec.chunk_size * q) by (nonlinear_arith)
        requires
            spec.chunk_size >= 1,
            spec.world_size % spec.chunk_size == 0,
            q == spec.world_size / spec.chunk_size,
    ;
    assert(spec.world_size >= spec.chunk_size) by (nonlinear_arith)
        requires
            spec.world_size == spec.chunk_size * q,
            q >= 1,
            spec.chunk_size >= 1,
    ;
}

/// In a scene that passes the check, whatever the node test answers, every
/// chunk emitted lies inside the world on the chunk grid, no two chunks share
/// a corner, and no node smaller than a chunk is tested.
pub proof fn law_checked_scene_no_overlap(spec: SceneSpec, v: spec_fn(Node) -> NodeResult)
    requires
        spec.checked() is Ok,
    ensures
        ({
            let o = Octree { world_size: spec.world_size, chunk_size: spec.chunk_size, max_lod: spec.max_lod };
            let e = o.emitted(v, o.root());
            &&& forall|i: int|
                0 <= i < e.len() ==> chunk_in_node(#[trigger] e[i], o.root()) && on_chunk_grid(e[i], o.chunk_size as int)
            &&& distinct_corners(e)
            &&& sizes_at_least(o.tested(v, o.root()), o.chunk_size as int)
        }),
{
    let o = Octree { world_size: spec.world_size, chunk_size: spec.chunk_size, max_lod: spec.max_lod };
    law_checked_scene_renders(spec);
    law_no_overlap(o, v, o.lod_diff());
}

/// In a scene that passes the check, with levels of detail reaching the chunk
/// boundary, a node test that answers by occupancy makes the emitted chunks
/// tile the occupied space exactly.
pub proof fn law_checked_scene_tiles(spec: SceneSpec, occupied: spec_fn(int, int, int) -> bool)
    requires
        spec.checked() is Ok,
        floor_log2((spec.world_size / spec.chunk_size) as nat) <= spec.max_lod,
    ensures
        ({
            let o = Octree { world_size: spec.world_size, chunk_size: spec.chunk_size, max_lod: spec.max_lod };
            let e = o.emitted(|m: Node| occupancy_answer(o, occupied, m), o.root());
            let s = o.chunk_size as int;
            &&& distinct_corners(e)
            &&& forall|i: int|
                0 <= i < e.len() ==> grid_corner_in(o.root(), s, (#[trigger] e[i]).x as int, e[i].y as int, e[i].z as int)
                    && occupied(e[i].x as int, e[i].y as int, e[i].z as int)
            &&& forall|x: int, y: int, z: int|
                #[trigger] grid_corner_in(o.root(), s, x, y, z) && occupied(x, y, z) ==> has_corner(e, x, y, z)
        }),
{
    let o = Octree { world_size: spec.world_size, chunk_size: spec.chunk_size, max_lod: spec.max_lod };
    law_checked_scene_renders(spec);
    law_exact_tiling(o, occupied, o.lod_diff());
}

/// The scene's node test never answers empty, and a node is within the
/// threshold exactly when its edge is 32.
pub proof fn law_scene_answer(n: Node)
    ensures
        scene_answer(n) is Projected,
        scene_answer(n)->within_threshold <==> n.size == 32,
{
}

/// A scene whose world is one chunk, of an edge other than 32, has no node
/// within the threshold: its root is tested again one level deeper until
/// `max_lod`, where it emits the one chunk of the world at the level of
/// detail of `max_lod`.
pub proof fn law_scene_without_32_wide_nodes(o: Octree)
    requires
        o.chunk_size > 0,
        o.world_size == o.chunk_size,
        o.world_size != 32,
    ensures
        o.emitted(|n: Node| scene_answer(n), o.root()) == seq![
            ChunkRequest { x: 0, y: 0, z: 0, lod: o.max_lod },
        ],
{
    let f = |n: Node| scene_answer(n);
    assert forall|l: u32| l <= o.max_lod implies #[trigger] o.emitted(f, Node { x: 0, y: 0, z: 0, size: o.world_size, lod: l })
        == o.chunks_of(Node { x: 0, y: 0, z: 0, size: o.world_size, lod: o.max_lod }) by {
        lemma_refined_to_max_lod(o, l);
    }
    assert(o.root() == Node { x: 0, y: 0, z: 0, size: o.world_size, lod: 0 });
    let top = Node { x: 0, y: 0, z: 0, size: o.world_size, lod: o.max_lod };
    lemma2_to64();
    assert(o.world_size == o.chunk_size * pow2(0));
    law_chunk_lod(o, 0, o.max_lod);
    assert(o.chunk_lod(o.max_lod) == o.max_lod);
    reveal_with_fuel(crate::octree::chunk_cube, 2);
    reveal_with_fuel(crate::octree::chunk_plane, 2);
    reveal_with_fuel(crate::octree::chunk_row, 2);
    assert(o.chunks_of(top) =~= seq![ChunkRequest { x: 0, y: 0, z: 0, lod: o.max_lod }]);
}

/// The node of the whole world at level `l` is refined until `max_lod`.
proof fn lemma_refined_to_max_lod(o: Octree, l: u32)
    requires
        o.chunk_size > 0,
        o.world_size == o.chunk_size,
        o.world_size != 32,
        l <= o.max_lod,
    ensures
        o.emitted(|n: Node| scene_answer(n), Node { x: 0, y: 0, z: 0, size: o.world_size, lod: l }) == o.chunks_of(
            Node { x: 0, y: 0, z: 0, size: o.world_size, lod: o.max_lod },
        ),
    decreases o.max_lod - l,
{
    reveal(Octree::emitted);
    if l < o.max_lod {
        lemma_refined_to_max_lod(o, (l + 1) as u32);
        assert(deeper(Node { x: 0, y: 0, z: 0, size: o.world_size, lod: l }) == Node {
            x: 0,
            y: 0,
            z: 0,
            size: o.world_size,
            lod: (l + 1) as u32,
        });
    }
}

/// The check refuses exactly what it should: a description passes it
/// exactly when the chunk edge is at least 1 and the world edge is the chunk
/// edge times a power of two, whatever the deepest level of detail.
pub proof fn law_check_complete(spec: SceneSpec)
    ensures
        spec.checked() is Ok <==> spec.chunk_size >= 1 && exists|k: nat| spec.world_size == spec.chunk_size * pow2(k),
{
    if spec.checked() is Ok {
        law_checked_scene_renders(spec);
        let k = floor_log2((spec.world_size / spec.chunk_size) as nat);
        assert(spec.world_size == spec.chunk_size * pow2(k));
    }
    if spec.chunk_size >= 1 && exists|k: nat| spec.world_size == spec.chunk_size * pow2(k) {
        let k = choose|k: nat| spec.world_size == spec.chunk_size * pow2(k);
        vstd::arithmetic::power2::lemma_pow2_pos(k);
        let c = spec.chunk_size as int;
        let q = pow2(k) as int;
        assert(c * q >= c) by (nonlinear_arith)
            requires
                c >= 1,
                q >= 1,
        ;
        vstd::arithmetic::div_mod::lemma_mod_multiples_basic(q, c);
        assert(q * c == c * q) by (nonlinear_arith);
        vstd::arithmetic::div_mod::lemma_div_multiples_vanish(q, c);
        assert(pow2(k) == (spec.world_size / spec.chunk_size) as nat);
        assert(is_power_of_two((spec.world_size / spec.chunk_size) as nat));
    }
}

} // verus!
