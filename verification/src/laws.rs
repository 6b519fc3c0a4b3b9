//! Laws of the traversal: which calls it makes, where the chunks it emits
//! lie, that they never overlap on a grid of chunks and never land in a node
//! found empty, what shape and depth the tested nodes have, that it tiles
//! exactly what a consistent node test reports as occupied, and that a
//! deterministic test fixes its whole run.

use vstd::prelude::*;
use vstd::arithmetic::power2::{pow2, lemma_pow2_unfold, lemma_pow2_pos, lemma2_to64};
use vstd::arithmetic::div_mod::{lemma_mod_multiples_vanish, lemma_div_multiples_vanish};
use crate::octree::{
    Node, ChunkRequest, NodeResult, NodeAction, Octree, Call, Callbacks, octant, deeper, fits, lemma_octant, floor_log2, answers,
    emit_calls, all_of, lemma_all_of_concat, lemma_all_of_octants, lemma_tested_induction, eight, lemma_all_of_eight,
};
use crate::chunks::{lemma_cube, on_grid, on_box_grid, corner_before};

verus! {

/// The corner of `c` lies in the box of `n`.
pub open spec fn chunk_in_node(c: ChunkRequest, n: Node) -> bool {
    &&& n.x <= c.x < n.x + n.size
    &&& n.y <= c.y < n.y + n.size
    &&& n.z <= c.z < n.z + n.size
}

/// The corner of `c` lies on the chunk grid of spacing `s` through the origin.
pub open spec fn on_chunk_grid(c: ChunkRequest, s: int) -> bool {
    &&& c.x as int % s == 0
    &&& c.y as int % s == 0
    &&& c.z as int % s == 0
}

/// `a` and `b` request the chunk at the same corner.
pub open spec fn same_corner(a: ChunkRequest, b: ChunkRequest) -> bool {
    a.x == b.x && a.y == b.y && a.z == b.z
}

/// No two chunks of `s` have the same corner.
pub open spec fn distinct_corners(s: Seq<ChunkRequest>) -> bool {
    forall|i: int, j: int| 0 <= i < j < s.len() ==> !same_corner(#[trigger] s[i], #[trigger] s[j])
}

/// The octant of `n` whose part of the box holds the corner of `c`.
pub open spec fn chunk_octant(n: Node, c: ChunkRequest) -> int {
    let h = n.size / 2;
    (if c.x >= n.x + h { 4int } else { 0int }) + (if c.y >= n.y + h { 2int } else { 0int }) + (if c.z
        >= n.z + h {
        1int
    } else {
        0int
    })
}

/// A node of the chunk grid: its corner is on the grid and its edge is
/// `2^j` chunks.
pub open spec fn grid_node(o: Octree, n: Node, j: nat) -> bool {
    &&& n.x as int % o.chunk_size as int == 0
    &&& n.y as int % o.chunk_size as int == 0
    &&& n.z as int % o.chunk_size as int == 0
    &&& n.size == o.chunk_size * pow2(j)
    &&& fits(n)
}

/// Every node of `t` has an edge of at least `s`.
pub open spec fn sizes_at_least(t: Seq<Node>, s: int) -> bool {
    forall|i: int| 0 <= i < t.len() ==> (#[trigger] t[i]).size >= s
}

proof fn lemma_distinct_concat(a: Seq<ChunkRequest>, b: Seq<ChunkRequest>, n: Node, k: int)
    requires
        distinct_corners(a),
        distinct_corners(b),
        forall|i: int| 0 <= i < a.len() ==> chunk_octant(n, #[trigger] a[i]) < k,
        forall|i: int| 0 <= i < b.len() ==> chunk_octant(n, #[trigger] b[i]) == k,
    ensures
        distinct_corners(a + b),
        forall|i: int| 0 <= i < (a + b).len() ==> chunk_octant(n, #[trigger] (a + b)[i]) <= k,
{
    assert forall|i: int, j: int| 0 <= i < j < (a + b).len() implies !same_corner(#[trigger] (a + b)[i], #[trigger] (a + b)[j]) by {
        if j < a.len() {
            assert((a + b)[i] == a[i]);
            assert((a + b)[j] == a[j]);
        } else if i < a.len() {
            assert((a + b)[i] == a[i]);
            assert((a + b)[j] == b[j - a.len()]);
        } else {
            assert((a + b)[i] == b[i - a.len()]);
            assert((a + b)[j] == b[j - a.len()]);
        }
    }
    assert forall|i: int| 0 <= i < (a + b).len() implies chunk_octant(n, #[trigger] (a + b)[i]) <= k by {
        if i < a.len() {
            assert((a + b)[i] == a[i]);
        } else {
            assert((a + b)[i] == b[i - a.len()]);
        }
    }
}

proof fn lemma_tested_sizes_concat(a: Seq<Node>, b: Seq<Node>, s: int)
    requires
        sizes_at_least(a, s),
        sizes_at_least(b, s),
    ensures
        sizes_at_least(a + b, s),
{
    assert forall|i: int| 0 <= i < (a + b).len() implies (#[trigger] (a + b)[i]).size >= s by {
        if i < a.len() {
            assert((a + b)[i] == a[i]);
        } else {
            assert((a + b)[i] == b[i - a.len()]);
        }
    }
}

proof fn lemma_chunks_in_concat(a: Seq<ChunkRequest>, b: Seq<ChunkRequest>, n: Node, s: int)
    requires
        forall|i: int| 0 <= i < a.len() ==> chunk_in_node(#[trigger] a[i], n) && on_chunk_grid(a[i], s),
        forall|i: int| 0 <= i < b.len() ==> chunk_in_node(#[trigger] b[i], n) && on_chunk_grid(b[i], s),
    ensures
        forall|i: int| 0 <= i < (a + b).len() ==> chunk_in_node(#[trigger] (a + b)[i], n) && on_chunk_grid((a + b)[i], s),
{
    assert forall|i: int| 0 <= i < (a + b).len() implies chunk_in_node(#[trigger] (a + b)[i], n) && on_chunk_grid((a + b)[i], s) by {
        if i < a.len() {
            assert((a + b)[i] == a[i]);
        } else {
            assert((a + b)[i] == b[i - a.len()]);
        }
    }
}

impl Octree {
    /// An octant of a grid node of `2^j` chunks is a grid node of `2^(j-1)` chunks.
    pub proof fn lemma_grid_octant(&self, n: Node, j: nat, i: int)
        requires
            self.chunk_size > 0,
            grid_node(*self, n, j),
            j >= 1,
            n.lod < u32::MAX,
            0 <= i < 8,
        ensures
            grid_node(*self, octant(n, i), (j - 1) as nat),
            n.size / 2 == self.chunk_size * pow2((j - 1) as nat),
    {
        let s = self.chunk_size as int;
        let q = pow2((j - 1) as nat) as int;
        lemma_pow2_unfold(j);
        assert(n.size == s * (2 * q));
        assert((s * (2 * q)) / 2 == s * q) by (nonlinear_arith);
        lemma_octant(n, i);
        lemma_mod_multiples_vanish(q, n.x as int, s);
        lemma_mod_multiples_vanish(q, n.y as int, s);
        lemma_mod_multiples_vanish(q, n.z as int, s);
    }

    /// Handling a grid node, whatever the test answers, emits chunks inside
    /// the node, on the chunk grid, each corner at most once, and tests only
    /// nodes whose edge is at least one chunk.
    pub proof fn lemma_grid_run(&self, v: spec_fn(Node) -> NodeResult, n: Node, j: nat)
        requires
            self.chunk_size > 0,
            grid_node(*self, n, j),
        ensures
            forall|i: int|
                0 <= i < self.emitted(v, n).len() ==> chunk_in_node(#[trigger] self.emitted(v, n)[i], n)
                    && on_chunk_grid(self.emitted(v, n)[i], self.chunk_size as int),
            distinct_corners(self.emitted(v, n)),
            sizes_at_least(self.tested(v, n), self.chunk_size as int),
        decreases self.max_lod - n.lod, 1nat,
    {
        reveal(Octree::emitted);
        reveal(Octree::tested);
        let s = self.chunk_size as int;
        lemma_pow2_pos(j);
        assert(n.size >= s) by (nonlinear_arith)
            requires
                n.size == s * pow2(j),
                pow2(j) > 0,
                s > 0,
        ;
        assert(sizes_at_least(seq![n], s));
        match self.decision(n, v(n)) {
            NodeAction::Skip => {
                assert(self.tested(v, n) =~= seq![n]);
            },
            NodeAction::Emit => {
                assert(self.tested(v, n) =~= seq![n]);
                let e = self.chunks_of(n);
                lemma_cube(
                    n.x as int,
                    n.x + n.size,
                    n.y as int,
                    n.y + n.size,
                    n.z as int,
                    n.z + n.size,
                    s,
                    self.chunk_lod(n.lod),
                );
                assert forall|i: int| 0 <= i < e.len() implies chunk_in_node(#[trigger] e[i], n) && on_chunk_grid(e[i], s) by {
                    assert(on_box_grid(e[i], n.x as int, n.x + n.size, n.y as int, n.y + n.size, n.z as int, n.z + n.size, s));
                }
                assert forall|a: int, b: int| 0 <= a < b < e.len() implies !same_corner(#[trigger] e[a], #[trigger] e[b]) by {
                    assert(corner_before(e[a], e[b]));
                }
            },
            NodeAction::Split => {
                self.lemma_grid_split(v, n, j);
            },
            NodeAction::Refine => {
                if n.lod < self.max_lod {
                    if j >= 1 {
                        lemma_pow2_unfold(j);
                        lemma_pow2_pos((j - 1) as nat);
                        assert(n.size >= 2 * s) by (nonlinear_arith)
                            requires
                                n.size == s * (2 * pow2((j - 1) as nat)),
                                pow2((j - 1) as nat) > 0,
                                s > 0,
                        ;
                    }
                    assert(j == 0);
                    self.lemma_grid_run(v, deeper(n), j);
                    lemma_tested_sizes_concat(seq![n], self.tested(v, deeper(n)), s);
                }
            },
        }
    }

    proof fn lemma_grid_split(&self, v: spec_fn(Node) -> NodeResult, n: Node, j: nat)
        requires
            self.chunk_size > 0,
            grid_node(*self, n, j),
            self.decision(n, v(n)) == NodeAction::Split,
        ensures
            forall|i: int|
                0 <= i < self.emitted(v, n).len() ==> chunk_in_node(#[trigger] self.emitted(v, n)[i], n)
                    && on_chunk_grid(self.emitted(v, n)[i], self.chunk_size as int),
            distinct_corners(self.emitted(v, n)),
            sizes_at_least(self.tested(v, n), self.chunk_size as int),
        decreases self.max_lod - n.lod, 0nat,
    {
        reveal(Octree::emitted);
        reveal(Octree::tested);
        let s = self.chunk_size as int;
        if j == 0 {
            assert(n.size == s) by {
                lemma2_to64();
            }
        }
        assert(j >= 1);
        let e = |i: int| self.emitted(v, octant(n, i));
        let t = |i: int| self.tested(v, octant(n, i));
        assert forall|i: int| #![trigger octant(n, i)] 0 <= i < 8 implies {
            &&& distinct_corners(e(i))
            &&& forall|b: int|
                0 <= b < e(i).len() ==> chunk_in_node(#[trigger] e(i)[b], n) && on_chunk_grid(e(i)[b], s) && chunk_octant(
                    n,
                    e(i)[b],
                ) == i
            &&& sizes_at_least(t(i), s)
        } by {
            lemma_octant(n, i);
            self.lemma_grid_octant(n, j, i);
            self.lemma_grid_run(v, octant(n, i), (j - 1) as nat);
            assert forall|b: int| 0 <= b < e(i).len() implies chunk_in_node(#[trigger] e(i)[b], n) && on_chunk_grid(
                e(i)[b],
                s,
            ) && chunk_octant(n, e(i)[b]) == i by {
                assert(chunk_in_node(e(i)[b], octant(n, i)));
            }
        }
        let (e0, e1, e2, e3, e4, e5, e6, e7) = (e(0), e(1), e(2), e(3), e(4), e(5), e(6), e(7));
        let (t0, t1, t2, t3, t4, t5, t6, t7) = (t(0), t(1), t(2), t(3), t(4), t(5), t(6), t(7));
        lemma_distinct_concat(e0, e1, n, 1);
        lemma_tested_sizes_concat(t0, t1, s);
        lemma_distinct_concat(e0 + e1, e2, n, 2);
        lemma_tested_sizes_concat(t0 + t1, t2, s);
        lemma_distinct_concat(e0 + e1 + e2, e3, n, 3);
        lemma_tested_sizes_concat(t0 + t1 + t2, t3, s);
        lemma_distinct_concat(e0 + e1 + e2 + e3, e4, n, 4);
        lemma_tested_sizes_concat(t0 + t1 + t2 + t3, t4, s);
        lemma_distinct_concat(e0 + e1 + e2 + e3 + e4, e5, n, 5);
        lemma_tested_sizes_concat(t0 + t1 + t2 + t3 + t4, t5, s);
        lemma_distinct_concat(e0 + e1 + e2 + e3 + e4 + e5, e6, n, 6);
        lemma_tested_sizes_concat(t0 + t1 + t2 + t3 + t4 + t5, t6, s);
        lemma_distinct_concat(e0 + e1 + e2 + e3 + e4 + e5 + e6, e7, n, 7);
        lemma_tested_sizes_concat(t0 + t1 + t2 + t3 + t4 + t5 + t6, t7, s);
        lemma_tested_sizes_concat(seq![n], t0 + t1 + t2 + t3 + t4 + t5 + t6 + t7, s);
        assert(self.emitted(v, n) == e0 + e1 + e2 + e3 + e4 + e5 + e6 + e7);
        lemma_chunks_in_concat(e0, e1, n, s);
        lemma_chunks_in_concat(e0 + e1, e2, n, s);
        lemma_chunks_in_concat(e0 + e1 + e2, e3, n, s);
        lemma_chunks_in_concat(e0 + e1 + e2 + e3, e4, n, s);
        lemma_chunks_in_concat(e0 + e1 + e2 + e3 + e4, e5, n, s);
        lemma_chunks_in_concat(e0 + e1 + e2 + e3 + e4 + e5, e6, n, s);
        lemma_chunks_in_concat(e0 + e1 + e2 + e3 + e4 + e5 + e6, e7, n, s);
    }
}

/// The point `(x, y, z)` is a chunk corner (on the grid of spacing `s`
/// through the origin) inside the box of `n`.
pub open spec fn grid_corner_in(n: Node, s: int, x: int, y: int, z: int) -> bool {
    &&& n.x <= x < n.x + n.size
    &&& n.y <= y < n.y + n.size
    &&& n.z <= z < n.z + n.size
    &&& x % s == 0
    &&& y % s == 0
    &&& z % s == 0
}

/// The answer of a test that knows which chunk corners are occupied: empty
/// when no corner inside the node is occupied, within the threshold when all
/// are, and over it when the node is mixed.
pub open spec fn occupancy_answer(o: Octree, occupied: spec_fn(int, int, int) -> bool, n: Node) -> NodeResult {
    let s = o.chunk_size as int;
    if exists|x: int, y: int, z: int| #[trigger] grid_corner_in(n, s, x, y, z) && occupied(x, y, z) {
        NodeResult::Projected {
            within_threshold: forall|x: int, y: int, z: int| #[trigger] grid_corner_in(n, s, x, y, z) ==> occupied(x, y, z),
        }
    } else {
        NodeResult::Empty
    }
}

/// Some chunk of `s` has the corner `(x, y, z)`.
pub open spec fn has_corner(s: Seq<ChunkRequest>, x: int, y: int, z: int) -> bool {
    exists|i: int| 0 <= i < s.len() && (#[trigger] s[i]).x == x && s[i].y == y && s[i].z == z
}

/// The octant of `n` whose part of the box holds the point `(x, y, z)`.
pub open spec fn octant_of_corner(n: Node, x: int, y: int, z: int) -> int {
    let h = n.size / 2;
    (if x >= n.x + h { 4int } else { 0int }) + (if y >= n.y + h { 2int } else { 0int }) + (if z >= n.z + h {
        1int
    } else {
        0int
    })
}

proof fn lemma_has_corner_mid(a: Seq<ChunkRequest>, b: Seq<ChunkRequest>, c: Seq<ChunkRequest>, x: int, y: int, z: int)
    requires
        has_corner(b, x, y, z),
    ensures
        has_corner(a + b + c, x, y, z),
{
    let i = choose|i: int| 0 <= i < b.len() && (#[trigger] b[i]).x == x && b[i].y == y && b[i].z == z;
    assert((a + b + c)[a.len() + i] == b[i]);
}

proof fn lemma_occupied_concat(a: Seq<ChunkRequest>, b: Seq<ChunkRequest>, occupied: spec_fn(int, int, int) -> bool)
    requires
        forall|i: int| 0 <= i < a.len() ==> occupied((#[trigger] a[i]).x as int, a[i].y as int, a[i].z as int),
        forall|i: int| 0 <= i < b.len() ==> occupied((#[trigger] b[i]).x as int, b[i].y as int, b[i].z as int),
    ensures
        forall|i: int| 0 <= i < (a + b).len() ==> occupied((#[trigger] (a + b)[i]).x as int, (a + b)[i].y as int, (a + b)[i].z as int),
{
    assert forall|i: int| 0 <= i < (a + b).len() implies occupied((#[trigger] (a + b)[i]).x as int, (a + b)[i].y as int, (a + b)[i].z as int) by {
        if i < a.len() {
            assert((a + b)[i] == a[i]);
        } else {
            assert((a + b)[i] == b[i - a.len()]);
        }
    }
}

impl Octree {
    /// Handling a grid node of `2^j` chunks with the occupancy answers, with
    /// levels of detail enough to reach single chunks, emits exactly the
    /// occupied chunk corners inside the node.
    pub proof fn lemma_tiling_node(&self, occupied: spec_fn(int, int, int) -> bool, n: Node, j: nat)
        requires
            self.chunk_size > 0,
            grid_node(*self, n, j),
            n.lod + j <= self.max_lod,
        ensures
            ({
                let e = self.emitted(|m: Node| occupancy_answer(*self, occupied, m), n);
                &&& forall|i: int| 0 <= i < e.len() ==> occupied((#[trigger] e[i]).x as int, e[i].y as int, e[i].z as int)
                &&& forall|x: int, y: int, z: int|
                    #[trigger] grid_corner_in(n, self.chunk_size as int, x, y, z) && occupied(x, y, z) ==> has_corner(e, x, y, z)
            }),
        decreases self.max_lod - n.lod,
    {
        reveal(Octree::emitted);
        let v = |m: Node| occupancy_answer(*self, occupied, m);
        let s = self.chunk_size as int;
        let e = self.emitted(v, n);
        match v(n) {
            NodeResult::Empty => {},
            NodeResult::Projected { within_threshold } => {
                if within_threshold {
                    lemma_cube(
                        n.x as int,
                        n.x + n.size,
                        n.y as int,
                        n.y + n.size,
                        n.z as int,
                        n.z + n.size,
                        s,
                        self.chunk_lod(n.lod),
                    );
                    assert forall|i: int| 0 <= i < e.len() implies occupied((#[trigger] e[i]).x as int, e[i].y as int, e[i].z as int) by {
                        assert(on_box_grid(e[i], n.x as int, n.x + n.size, n.y as int, n.y + n.size, n.z as int, n.z + n.size, s));
                        assert(grid_corner_in(n, s, e[i].x as int, e[i].y as int, e[i].z as int));
                    }
                    assert forall|x: int, y: int, z: int|
                        #[trigger] grid_corner_in(n, s, x, y, z) && occupied(x, y, z) implies has_corner(e, x, y, z) by {
                        assert(on_grid(x, n.x as int, s));
                        assert(on_grid(y, n.y as int, s));
                        assert(on_grid(z, n.z as int, s));
                    }
                } else {
                    self.lemma_tiling_mixed(occupied, n, j);
                }
            },
        }
    }

    #[verifier::spinoff_prover]
    #[verifier::rlimit(40)]
    proof fn lemma_tiling_mixed(&self, occupied: spec_fn(int, int, int) -> bool, n: Node, j: nat)
        requires
            self.chunk_size > 0,
            grid_node(*self, n, j),
            n.lod + j <= self.max_lod,
            occupancy_answer(*self, occupied, n) == (NodeResult::Projected { within_threshold: false }),
        ensures
            ({
                let e = self.emitted(|m: Node| occupancy_answer(*self, occupied, m), n);
                &&& forall|i: int| 0 <= i < e.len() ==> occupied((#[trigger] e[i]).x as int, e[i].y as int, e[i].z as int)
                &&& forall|x: int, y: int, z: int|
                    #[trigger] grid_corner_in(n, self.chunk_size as int, x, y, z) && occupied(x, y, z) ==> has_corner(e, x, y, z)
            }),
        decreases self.max_lod - n.lod, 0nat,
    {
        reveal(Octree::emitted);
        let v = |m: Node| occupancy_answer(*self, occupied, m);
        let s = self.chunk_size as int;
        if j == 0 {
            lemma2_to64();
            assert(n.size == s);
            let (px, py, pz) = choose|x: int, y: int, z: int| #[trigger] grid_corner_in(n, s, x, y, z) && occupied(x, y, z);
            let (qx, qy, qz) = choose|x: int, y: int, z: int| #[trigger] grid_corner_in(n, s, x, y, z) && !occupied(x, y, z);
            lemma_single_corner(n, s, px, py, pz);
            lemma_single_corner(n, s, qx, qy, qz);
            assert(false);
        }
        lemma_pow2_unfold(j);
        lemma_pow2_pos((j - 1) as nat);
        assert(n.size >= 2 * s) by (nonlinear_arith)
            requires
                n.size == s * (2 * pow2((j - 1) as nat)),
                pow2((j - 1) as nat) > 0,
                s > 0,
        ;
        assert(self.decision(n, v(n)) == NodeAction::Split);
        let e = |i: int| self.emitted(v, octant(n, i));
        assert forall|i: int| #![trigger e(i)] 0 <= i < 8 implies {
            &&& forall|b: int|
                0 <= b < e(i).len() ==> occupied((#[trigger] e(i)[b]).x as int, e(i)[b].y as int, e(i)[b].z as int)
            &&& forall|x: int, y: int, z: int|
                #[trigger] grid_corner_in(octant(n, i), s, x, y, z) && occupied(x, y, z) ==> has_corner(e(i), x, y, z)
        } by {
            lemma_octant(n, i);
            self.lemma_grid_octant(n, j, i);
            self.lemma_tiling_node(occupied, octant(n, i), (j - 1) as nat);
        }
        let all = e(0) + e(1) + e(2) + e(3) + e(4) + e(5) + e(6) + e(7);
        assert(self.emitted(v, n) == all);
        lemma_occupied_concat(e(0), e(1), occupied);
        lemma_occupied_concat(e(0) + e(1), e(2), occupied);
        lemma_occupied_concat(e(0) + e(1) + e(2), e(3), occupied);
        lemma_occupied_concat(e(0) + e(1) + e(2) + e(3), e(4), occupied);
        lemma_occupied_concat(e(0) + e(1) + e(2) + e(3) + e(4), e(5), occupied);
        lemma_occupied_concat(e(0) + e(1) + e(2) + e(3) + e(4) + e(5), e(6), occupied);
        lemma_occupied_concat(e(0) + e(1) + e(2) + e(3) + e(4) + e(5) + e(6), e(7), occupied);
        let half = pow2((j - 1) as nat) as int;
        assert(n.size == 2 * (n.size / 2)) by {
            assert(s * (2 * half) == 2 * (s * half)) by (nonlinear_arith);
        }
        assert forall|x: int, y: int, z: int|
            #[trigger] grid_corner_in(n, s, x, y, z) && occupied(x, y, z) implies has_corner(all, x, y, z) by {
            let k = octant_of_corner(n, x, y, z);
            lemma_octant(n, k);
            assert(grid_corner_in(octant(n, k), s, x, y, z));
            assert(has_corner(e(k), x, y, z));
            assert(seq![e(0), e(1), e(2), e(3), e(4), e(5), e(6), e(7)][k] == e(k));
            lemma_has_corner_in_parts(e(0), e(1), e(2), e(3), e(4), e(5), e(6), e(7), k, x, y, z);
        }
    }
}

/// A corner of one of eight parts is a corner of their concatenation.
proof fn lemma_has_corner_in_parts(
    e0: Seq<ChunkRequest>,
    e1: Seq<ChunkRequest>,
    e2: Seq<ChunkRequest>,
    e3: Seq<ChunkRequest>,
    e4: Seq<ChunkRequest>,
    e5: Seq<ChunkRequest>,
    e6: Seq<ChunkRequest>,
    e7: Seq<ChunkRequest>,
    k: int,
    x: int,
    y: int,
    z: int,
)
    requires
        0 <= k < 8,
        has_corner(seq![e0, e1, e2, e3, e4, e5, e6, e7][k], x, y, z),
    ensures
        has_corner(e0 + e1 + e2 + e3 + e4 + e5 + e6 + e7, x, y, z),
{
    let e = e0 + e1 + e2 + e3 + e4 + e5 + e6 + e7;
    if k == 0 {
        assert(e =~= (Seq::<ChunkRequest>::empty()) + e0 + (e1 + e2 + e3 + e4 + e5 + e6 + e7));
        lemma_has_corner_mid(Seq::<ChunkRequest>::empty(), e0, e1 + e2 + e3 + e4 + e5 + e6 + e7, x, y, z);
    } else if k == 1 {
        assert(e =~= (e0) + e1 + (e2 + e3 + e4 + e5 + e6 + e7));
        lemma_has_corner_mid(e0, e1, e2 + e3 + e4 + e5 + e6 + e7, x, y, z);
    } else if k == 2 {
        assert(e =~= (e0 + e1) + e2 + (e3 + e4 + e5 + e6 + e7));
        lemma_has_corner_mid(e0 + e1, e2, e3 + e4 + e5 + e6 + e7, x, y, z);
    } else if k == 3 {
        assert(e =~= (e0 + e1 + e2) + e3 + (e4 + e5 + e6 + e7));
        lemma_has_corner_mid(e0 + e1 + e2, e3, e4 + e5 + e6 + e7, x, y, z);
    } else if k == 4 {
        assert(e =~= (e0 + e1 + e2 + e3) + e4 + (e5 + e6 + e7));
        lemma_has_corner_mid(e0 + e1 + e2 + e3, e4, e5 + e6 + e7, x, y, z);
    } else if k == 5 {
        assert(e =~= (e0 + e1 + e2 + e3 + e4) + e5 + (e6 + e7));
        lemma_has_corner_mid(e0 + e1 + e2 + e3 + e4, e5, e6 + e7, x, y, z);
    } else if k == 6 {
        assert(e =~= (e0 + e1 + e2 + e3 + e4 + e5) + e6 + (e7));
        lemma_has_corner_mid(e0 + e1 + e2 + e3 + e4 + e5, e6, e7, x, y, z);
    } else if k == 7 {
        assert(e =~= (e0 + e1 + e2 + e3 + e4 + e5 + e6) + e7 + (Seq::<ChunkRequest>::empty()));
        lemma_has_corner_mid(e0 + e1 + e2 + e3 + e4 + e5 + e6, e7, Seq::<ChunkRequest>::empty(), x, y, z);
    }
}

/// The only chunk corner in a node one chunk wide is the node's corner.
proof fn lemma_single_corner(n: Node, s: int, x: int, y: int, z: int)
    requires
        s > 0,
        n.size == s,
        n.x as int % s == 0,
        n.y as int % s == 0,
        n.z as int % s == 0,
        grid_corner_in(n, s, x, y, z),
    ensures
        x == n.x && y == n.y && z == n.z,
{
    if x > n.x {
        crate::chunks::lemma_grid_step(x, n.x as int, s);
    }
    if y > n.y {
        crate::chunks::lemma_grid_step(y, n.y as int, s);
    }
    if z > n.z {
        crate::chunks::lemma_grid_step(z, n.z as int, s);
    }
}

proof fn lemma_all_of_split<A>(a: Seq<A>, b: Seq<A>, p: spec_fn(A) -> bool)
    requires
        all_of(a + b, p),
    ensures
        all_of(a, p),
        all_of(b, p),
{
    assert forall|i: int| 0 <= i < a.len() implies p(#[trigger] a[i]) by {
        assert((a + b)[i] == a[i]);
    }
    assert forall|i: int| 0 <= i < b.len() implies p(#[trigger] b[i]) by {
        assert((a + b)[a.len() + i] == b[i]);
    }
}

proof fn lemma_all_of_widen_chunks(s: Seq<ChunkRequest>, c: Node, n: Node)
    requires
        all_of(s, |r: ChunkRequest| chunk_in_node(r, c)),
        n.x <= c.x,
        n.y <= c.y,
        n.z <= c.z,
        c.x + c.size <= n.x + n.size,
        c.y + c.size <= n.y + n.size,
        c.z + c.size <= n.z + n.size,
    ensures
        all_of(s, |r: ChunkRequest| chunk_in_node(r, n)),
{
    assert forall|i: int| 0 <= i < s.len() implies (|r: ChunkRequest| chunk_in_node(r, n))(#[trigger] s[i]) by {
        assert((|r: ChunkRequest| chunk_in_node(r, c))(s[i]));
    }
}

impl Octree {
    /// Every chunk emitted below a node lies inside the node.
    pub proof fn lemma_emitted_in_node(&self, v: spec_fn(Node) -> NodeResult, n: Node)
        requires
            self.chunk_size > 0,
            fits(n),
        ensures
            all_of(self.emitted(v, n), |c: ChunkRequest| chunk_in_node(c, n)),
        decreases self.max_lod - n.lod,
    {
        reveal(Octree::emitted);
        let s = self.chunk_size as int;
        match self.decision(n, v(n)) {
            NodeAction::Emit => {
                let e = self.chunks_of(n);
                lemma_cube(n.x as int, n.x + n.size, n.y as int, n.y + n.size, n.z as int, n.z + n.size, s, self.chunk_lod(n.lod));
                assert forall|i: int| 0 <= i < e.len() implies (|c: ChunkRequest| chunk_in_node(c, n))(#[trigger] e[i]) by {
                    assert(on_box_grid(e[i], n.x as int, n.x + n.size, n.y as int, n.y + n.size, n.z as int, n.z + n.size, s));
                }
            },
            NodeAction::Split => {
                if n.lod < self.max_lod {
                    let e = |i: int| self.emitted(v, octant(n, i));
                    let p = |c: ChunkRequest| chunk_in_node(c, n);
                    assert forall|i: int| 0 <= i < 8 implies all_of(#[trigger] e(i), p) by {
                        lemma_octant(n, i);
                        self.lemma_emitted_in_node(v, octant(n, i));
                        lemma_all_of_widen_chunks(e(i), octant(n, i), n);
                    }
                    lemma_all_of_eight(e, p);
                    assert(self.emitted(v, n) == eight(e));
                }
            },
            NodeAction::Refine => {
                if n.lod < self.max_lod {
                    self.lemma_emitted_in_node(v, deeper(n));
                }
            },
            NodeAction::Skip => {},
        }
    }

    /// Every node tested below a node at level of detail `lo <= max_lod` has a
    /// level of detail between `lo` and `max_lod`.
    pub proof fn lemma_tested_lods(&self, v: spec_fn(Node) -> NodeResult, n: Node, lo: int)
        requires
            lo <= n.lod <= self.max_lod,
        ensures
            all_of(self.tested(v, n), |m: Node| lo <= m.lod <= self.max_lod),
    {
        let p = |m: Node| lo <= m.lod <= self.max_lod;
        assert forall|m: Node, i: int|
            p(m) && self.decision(m, v(m)) == NodeAction::Split && m.lod < self.max_lod && 0 <= i < 8 implies #[trigger] p(
            octant(m, i),
        ) by {}
        assert forall|m: Node|
            p(m) && self.decision(m, v(m)) == NodeAction::Refine && m.lod < self.max_lod implies #[trigger] p(deeper(m)) by {}
        lemma_tested_induction(*self, v, n, p);
    }

    /// Two answer functions that agree on the nodes that one of them has
    /// tested give the same run.
    pub proof fn lemma_agree_on_tested(&self, v1: spec_fn(Node) -> NodeResult, v2: spec_fn(Node) -> NodeResult, n: Node)
        requires
            all_of(self.tested(v1, n), |m: Node| v1(m) == v2(m)),
        ensures
            self.emitted(v1, n) == self.emitted(v2, n),
            self.tested(v1, n) == self.tested(v2, n),
            self.trace(v1, n) == self.trace(v2, n),
        decreases self.max_lod - n.lod,
    {
        reveal(Octree::emitted);
        reveal(Octree::tested);
        reveal(Octree::trace);
        let p = |m: Node| v1(m) == v2(m);
        assert(self.tested(v1, n)[0] == n);
        assert(v1(n) == v2(n));
        match self.decision(n, v1(n)) {
            NodeAction::Split => {
                if n.lod < self.max_lod {
                    let t = |i: int| self.tested(v1, octant(n, i));
                    assert(self.tested(v1, n) == seq![n] + eight(t));
                    lemma_all_of_split(seq![n], eight(t), p);
                    lemma_all_of_eight(t, p);
                    assert forall|i: int| #![trigger octant(n, i)] 0 <= i < 8 implies {
                        &&& self.emitted(v1, octant(n, i)) == self.emitted(v2, octant(n, i))
                        &&& self.tested(v1, octant(n, i)) == self.tested(v2, octant(n, i))
                        &&& self.trace(v1, octant(n, i)) == self.trace(v2, octant(n, i))
                    } by {
                        assert(all_of(t(i), p));
                        self.lemma_agree_on_tested(v1, v2, octant(n, i));
                    }
                }
            },
            NodeAction::Refine => {
                if n.lod < self.max_lod {
                    lemma_all_of_split(seq![n], self.tested(v1, deeper(n)), p);
                    self.lemma_agree_on_tested(v1, v2, deeper(n));
                }
            },
            _ => {},
        }
    }
}

/// A power of two has its exponent as floor logarithm.
pub proof fn lemma_floor_log2_pow2(k: nat)
    ensures
        floor_log2(pow2(k)) == k,
    decreases k,
{
    if k == 0 {
        lemma2_to64();
    } else {
        lemma_pow2_unfold(k);
        lemma_pow2_pos((k - 1) as nat);
        lemma_floor_log2_pow2((k - 1) as nat);
        assert(pow2(k) / 2 == pow2((k - 1) as nat));
    }
}

/// In a world of `2^k` chunks per edge, the chunk boundary is `k`
/// subdivisions below the root, so a node at level of detail `lod` emits
/// chunks at level of detail `lod - k`, or 0 above the boundary.
pub proof fn law_chunk_lod(o: Octree, k: nat, lod: u32)
    requires
        o.chunk_size > 0,
        o.world_size == o.chunk_size * pow2(k),
    ensures
        o.lod_diff() == k,
        o.chunk_lod(lod) == if lod >= k { lod - k } else { 0 },
{
    lemma_div_multiples_vanish(pow2(k) as int, o.chunk_size as int);
    lemma_floor_log2_pow2(k);
}

/// The root of a world of `2^k` chunks per edge is a grid node.
proof fn lemma_root_grid(o: Octree, k: nat)
    requires
        o.chunk_size > 0,
        o.world_size == o.chunk_size * pow2(k),
    ensures
        grid_node(o, o.root(), k),
        o.root().size >= 1,
{
    lemma_pow2_pos(k);
    vstd::arithmetic::div_mod::lemma_small_mod(0, o.chunk_size as nat);
    assert(o.world_size >= 1) by (nonlinear_arith)
        requires
            o.world_size == o.chunk_size * pow2(k),
            pow2(k) > 0,
            o.chunk_size > 0,
    ;
}

/// In a world of `2^k` chunks per edge, whatever the node test answers, every
/// chunk emitted lies inside the world on the chunk grid, no two chunks share
/// a corner (chunks never overlap), and no node smaller than a chunk is ever
/// tested.
pub proof fn law_no_overlap(o: Octree, v: spec_fn(Node) -> NodeResult, k: nat)
    requires
        o.chunk_size > 0,
        o.world_size == o.chunk_size * pow2(k),
    ensures
        forall|i: int|
            0 <= i < o.emitted(v, o.root()).len() ==> chunk_in_node(#[trigger] o.emitted(v, o.root())[i], o.root())
                && on_chunk_grid(o.emitted(v, o.root())[i], o.chunk_size as int),
        distinct_corners(o.emitted(v, o.root())),
        sizes_at_least(o.tested(v, o.root()), o.chunk_size as int),
{
    lemma_root_grid(o, k);
    o.lemma_grid_run(v, o.root(), k);
}

/// In a world of `2^k` chunks per edge, with levels of detail reaching at
/// least the chunk boundary, a node test that answers by occupancy (empty
/// when no chunk inside is occupied, within the threshold when all are, over
/// it otherwise) makes the emitted chunks tile the occupied space exactly:
/// every occupied chunk once, no empty chunk, nothing off the grid or outside
/// the world.
pub proof fn law_exact_tiling(o: Octree, occupied: spec_fn(int, int, int) -> bool, k: nat)
    requires
        o.chunk_size > 0,
        o.world_size == o.chunk_size * pow2(k),
        k <= o.max_lod,
    ensures
        ({
            let e = o.emitted(|m: Node| occupancy_answer(o, occupied, m), o.root());
            let s = o.chunk_size as int;
            &&& distinct_corners(e)
            &&& forall|i: int|
                0 <= i < e.len() ==> grid_corner_in(o.root(), s, (#[trigger] e[i]).x as int, e[i].y as int, e[i].z as int)
                    && occupied(e[i].x as int, e[i].y as int, e[i].z as int)
            &&& forall|x: int, y: int, z: int|
                #[trigger] grid_corner_in(o.root(), s, x, y, z) && occupied(x, y, z) ==> has_corner(e, x, y, z)
        }),
{
    let v = |m: Node| occupancy_answer(o, occupied, m);
    lemma_root_grid(o, k);
    o.lemma_grid_run(v, o.root(), k);
    o.lemma_tiling_node(occupied, o.root(), k);
    let e = o.emitted(v, o.root());
    let s = o.chunk_size as int;
    assert forall|i: int| 0 <= i < e.len() implies grid_corner_in(o.root(), s, (#[trigger] e[i]).x as int, e[i].y as int, e[i].z as int)
        && occupied(e[i].x as int, e[i].y as int, e[i].z as int) by {
        assert(chunk_in_node(e[i], o.root()) && on_chunk_grid(e[i], s));
    }
}

/// However the node test answers, the nodes it is handed never go past
/// `max_lod`, and never come back above the level of detail of the node the
/// traversal started from.
pub proof fn law_lod_cap(o: Octree, v: spec_fn(Node) -> NodeResult, n: Node)
    requires
        n.lod <= o.max_lod,
    ensures
        all_of(o.tested(v, n), |m: Node| n.lod <= m.lod <= o.max_lod),
{
    o.lemma_tested_lods(v, n, n.lod as int);
}

/// A node test that always answers `f` makes every run of the traversal the
/// one that the answers `f` determine.
pub proof fn law_deterministic_test<T: Fn(Node) -> NodeResult>(
    o: Octree,
    test: T,
    f: spec_fn(Node) -> NodeResult,
    v: spec_fn(Node) -> NodeResult,
    n: Node,
)
    requires
        forall|m: Node, r: NodeResult| call_ensures(test, (m,), r) ==> r == f(m),
        answers(test, v, o.tested(v, n)),
    ensures
        o.emitted(v, n) == o.emitted(f, n),
        o.tested(v, n) == o.tested(f, n),
        o.trace(v, n) == o.trace(f, n),
{
    let t = o.tested(v, n);
    assert forall|i: int| 0 <= i < t.len() implies (|m: Node| v(m) == f(m))(#[trigger] t[i]) by {
        assert(call_ensures(test, (t[i],), v(t[i])));
    }
    o.lemma_agree_on_tested(v, f, n);
}

/// What one node contributes: an empty node emits nothing and nothing below
/// it is tested; a node within the threshold, or over it at `max_lod`, emits
/// the chunks that tile it and nothing below it is tested; a node over the
/// threshold and larger than a chunk is split into its eight octants one
/// level deeper; a node over the threshold and no larger than a chunk is
/// tested again one level deeper, at the same corner and size. In each case
/// the calls made are the test of the node followed by those of what it
/// leads to.
pub proof fn law_node_outcome(o: Octree, v: spec_fn(Node) -> NodeResult, n: Node)
    ensures
        o.decision(n, v(n)) == NodeAction::Skip ==> o.emitted(v, n) == Seq::<ChunkRequest>::empty() && o.tested(v, n)
            == seq![n],
        o.decision(n, v(n)) == NodeAction::Emit ==> o.emitted(v, n) == o.chunks_of(n) && o.tested(v, n) == seq![n],
        o.decision(n, v(n)) == NodeAction::Split ==> n.lod < o.max_lod && o.emitted(v, n) == o.emitted(v, octant(n, 0))
            + o.emitted(v, octant(n, 1)) + o.emitted(v, octant(n, 2)) + o.emitted(v, octant(n, 3)) + o.emitted(
            v,
            octant(n, 4),
        ) + o.emitted(v, octant(n, 5)) + o.emitted(v, octant(n, 6)) + o.emitted(v, octant(n, 7)) && o.tested(v, n)
            == seq![n] + (o.tested(v, octant(n, 0)) + o.tested(v, octant(n, 1)) + o.tested(v, octant(n, 2)) + o.tested(
            v,
            octant(n, 3),
        ) + o.tested(v, octant(n, 4)) + o.tested(v, octant(n, 5)) + o.tested(v, octant(n, 6)) + o.tested(
            v,
            octant(n, 7),
        )),
        o.decision(n, v(n)) == NodeAction::Refine ==> n.lod < o.max_lod && o.emitted(v, n) == o.emitted(v, deeper(n))
            && o.tested(v, n) == seq![n] + o.tested(v, deeper(n)),
        o.decision(n, v(n)) == NodeAction::Skip ==> o.trace(v, n) == seq![Call::Test(n)],
        o.decision(n, v(n)) == NodeAction::Emit ==> o.trace(v, n) == seq![Call::Test(n)] + emit_calls(o.chunks_of(n)),
        o.decision(n, v(n)) == NodeAction::Split ==> o.trace(v, n) == seq![Call::Test(n)] + (o.trace(v, octant(n, 0))
            + o.trace(v, octant(n, 1)) + o.trace(v, octant(n, 2)) + o.trace(v, octant(n, 3)) + o.trace(v, octant(n, 4))
            + o.trace(v, octant(n, 5)) + o.trace(v, octant(n, 6)) + o.trace(v, octant(n, 7))),
        o.decision(n, v(n)) == NodeAction::Refine ==> o.trace(v, n) == seq![Call::Test(n)] + o.trace(v, deeper(n)),
{
    reveal(Octree::emitted);
    reveal(Octree::tested);
    reveal(Octree::trace);
    if o.decision(n, v(n)) == NodeAction::Skip {
        assert(o.trace(v, n) =~= seq![Call::Test(n)]);
    }
    if o.decision(n, v(n)) == NodeAction::Skip || o.decision(n, v(n)) == NodeAction::Emit {
        assert(o.tested(v, n) =~= seq![n]);
    }
}

/// A node within the threshold, with its corner on the chunk grid, emits one
/// chunk at each chunk corner inside it, each once, all at the node's
/// chunk-relative level of detail.
pub proof fn law_chunks_tile_node(o: Octree, n: Node)
    requires
        o.chunk_size > 0,
        fits(n),
        n.x as int % o.chunk_size as int == 0,
        n.y as int % o.chunk_size as int == 0,
        n.z as int % o.chunk_size as int == 0,
    ensures
        distinct_corners(o.chunks_of(n)),
        forall|i: int|
            0 <= i < o.chunks_of(n).len() ==> grid_corner_in(
                n,
                o.chunk_size as int,
                (#[trigger] o.chunks_of(n)[i]).x as int,
                o.chunks_of(n)[i].y as int,
                o.chunks_of(n)[i].z as int,
            ) && o.chunks_of(n)[i].lod == o.chunk_lod(n.lod),
        forall|x: int, y: int, z: int| #[trigger] grid_corner_in(n, o.chunk_size as int, x, y, z) ==> has_corner(o.chunks_of(n), x, y, z),
{
    let s = o.chunk_size as int;
    let e = o.chunks_of(n);
    lemma_cube(n.x as int, n.x + n.size, n.y as int, n.y + n.size, n.z as int, n.z + n.size, s, o.chunk_lod(n.lod));
    assert forall|a: int, b: int| 0 <= a < b < e.len() implies !same_corner(#[trigger] e[a], #[trigger] e[b]) by {
        assert(corner_before(e[a], e[b]));
    }
    assert forall|i: int| 0 <= i < e.len() implies grid_corner_in(n, s, (#[trigger] e[i]).x as int, e[i].y as int, e[i].z as int)
        && e[i].lod == o.chunk_lod(n.lod) by {
        assert(on_box_grid(e[i], n.x as int, n.x + n.size, n.y as int, n.y + n.size, n.z as int, n.z + n.size, s));
    }
    assert forall|x: int, y: int, z: int| #[trigger] grid_corner_in(n, s, x, y, z) implies has_corner(e, x, y, z) by {
        assert(on_grid(x, n.x as int, s));
        assert(on_grid(y, n.y as int, s));
        assert(on_grid(z, n.z as int, s));
    }
}

/// The nodes handed to the node test among `calls`, in order.
pub open spec fn tests_in(calls: Seq<Call>) -> Seq<Node>
    decreases calls.len(),
{
    if calls.len() == 0 {
        seq![]
    } else {
        match calls.last() {
            Call::Test(n) => tests_in(calls.drop_last()).push(n),
            Call::Emit(_) => tests_in(calls.drop_last()),
        }
    }
}

/// The chunks handed to emit among `calls`, in order.
pub open spec fn emits_in(calls: Seq<Call>) -> Seq<ChunkRequest>
    decreases calls.len(),
{
    if calls.len() == 0 {
        seq![]
    } else {
        match calls.last() {
            Call::Test(_) => emits_in(calls.drop_last()),
            Call::Emit(c) => emits_in(calls.drop_last()).push(c),
        }
    }
}

/// Picking the tests and the chunks out of two runs of calls, one after the other.
pub proof fn lemma_calls_concat(a: Seq<Call>, b: Seq<Call>)
    ensures
        tests_in(a + b) == tests_in(a) + tests_in(b),
        emits_in(a + b) == emits_in(a) + emits_in(b),
    decreases b.len(),
{
    if b.len() == 0 {
        assert(a + b =~= a);
        assert(tests_in(a) + tests_in(b) =~= tests_in(a));
        assert(emits_in(a) + emits_in(b) =~= emits_in(a));
    } else {
        lemma_calls_concat(a, b.drop_last());
        assert((a + b).drop_last() =~= a + b.drop_last());
        assert((a + b).last() == b.last());
        assert(tests_in(a) + tests_in(b.drop_last()).push(b.last()->Test_0) =~= (tests_in(a) + tests_in(b.drop_last())).push(
            b.last()->Test_0,
        ));
        assert(emits_in(a) + emits_in(b.drop_last()).push(b.last()->Emit_0) =~= (emits_in(a) + emits_in(b.drop_last())).push(
            b.last()->Emit_0,
        ));
    }
}

/// Handing chunks to emit makes no test call.
pub proof fn lemma_emit_calls_parts(s: Seq<ChunkRequest>)
    ensures
        tests_in(emit_calls(s)) == Seq::<Node>::empty(),
        emits_in(emit_calls(s)) == s,
    decreases s.len(),
{
    if s.len() > 0 {
        lemma_emit_calls_parts(s.drop_last());
        assert(emit_calls(s).drop_last() =~= emit_calls(s.drop_last()));
        assert(s.drop_last().push(s.last()) =~= s);
    } else {
        assert(s =~= Seq::<ChunkRequest>::empty());
    }
}

/// The calls of a run, in order, are the nodes it tests and the chunks it
/// emits: picking the test calls out of `trace` gives `tested`, and picking
/// the emit calls gives `emitted`.
pub proof fn law_trace_calls(o: Octree, v: spec_fn(Node) -> NodeResult, n: Node)
    ensures
        tests_in(o.trace(v, n)) == o.tested(v, n),
        emits_in(o.trace(v, n)) == o.emitted(v, n),
    decreases o.max_lod - n.lod,
{
    reveal(Octree::trace);
    reveal(Octree::tested);
    reveal(Octree::emitted);
    let head = seq![Call::Test(n)];
    assert(head.drop_last() =~= Seq::<Call>::empty());
    assert(tests_in(Seq::<Call>::empty()) == Seq::<Node>::empty());
    assert(emits_in(Seq::<Call>::empty()) == Seq::<ChunkRequest>::empty());
    assert(tests_in(head) == seq![n]) by {
        assert(Seq::<Node>::empty().push(n) =~= seq![n]);
    }
    assert(emits_in(head) == Seq::<ChunkRequest>::empty());
    match o.decision(n, v(n)) {
        NodeAction::Split => {
            if n.lod < o.max_lod {
                let t = |i: int| o.trace(v, octant(n, i));
                assert forall|i: int| 0 <= i < 8 implies tests_in(#[trigger] t(i)) == o.tested(v, octant(n, i))
                    && emits_in(t(i)) == o.emitted(v, octant(n, i)) by {
                    law_trace_calls(o, v, octant(n, i));
                }
                assert(tests_in(t(0)) == o.tested(v, octant(n, 0)) && tests_in(t(1)) == o.tested(v, octant(n, 1)));
                assert(tests_in(t(2)) == o.tested(v, octant(n, 2)) && tests_in(t(3)) == o.tested(v, octant(n, 3)));
                assert(tests_in(t(4)) == o.tested(v, octant(n, 4)) && tests_in(t(5)) == o.tested(v, octant(n, 5)));
                assert(tests_in(t(6)) == o.tested(v, octant(n, 6)) && tests_in(t(7)) == o.tested(v, octant(n, 7)));
                lemma_calls_concat(t(0), t(1));
                lemma_calls_concat(t(0) + t(1), t(2));
                lemma_calls_concat(t(0) + t(1) + t(2), t(3));
                lemma_calls_concat(t(0) + t(1) + t(2) + t(3), t(4));
                lemma_calls_concat(t(0) + t(1) + t(2) + t(3) + t(4), t(5));
                lemma_calls_concat(t(0) + t(1) + t(2) + t(3) + t(4) + t(5), t(6));
                lemma_calls_concat(t(0) + t(1) + t(2) + t(3) + t(4) + t(5) + t(6), t(7));
                lemma_calls_concat(head, t(0) + t(1) + t(2) + t(3) + t(4) + t(5) + t(6) + t(7));
            } else {
                lemma_calls_concat(head, seq![]);
            }
        },
        NodeAction::Refine => {
            if n.lod < o.max_lod {
                law_trace_calls(o, v, deeper(n));
                lemma_calls_concat(head, o.trace(v, deeper(n)));
            } else {
                lemma_calls_concat(head, seq![]);
            }
        },
        NodeAction::Emit => {
            lemma_emit_calls_parts(o.chunks_of(n));
            lemma_calls_concat(head, emit_calls(o.chunks_of(n)));
        },
        NodeAction::Skip => {
            lemma_calls_concat(head, seq![]);
        },
    }
}

/// However the node test answers, handling `n` tests `n` first, and every
/// node it tests is no larger than `n`, at a level of detail between that of
/// `n` and the larger of it and `max_lod`.
pub proof fn law_tested_shape(o: Octree, v: spec_fn(Node) -> NodeResult, n: Node)
    ensures
        o.tested(v, n).len() >= 1,
        o.tested(v, n)[0] == n,
        all_of(
            o.tested(v, n),
            |m: Node|
                m.size <= n.size && n.lod <= m.lod <= (if n.lod <= o.max_lod {
                    o.max_lod
                } else {
                    n.lod
                }),
        ),
{
    reveal(Octree::tested);
    let top: u32 = if n.lod <= o.max_lod { o.max_lod } else { n.lod };
    let p = |m: Node| m.size <= n.size && n.lod <= m.lod <= top;
    assert forall|m: Node, i: int|
        p(m) && o.decision(m, v(m)) == NodeAction::Split && m.lod < o.max_lod && 0 <= i < 8 implies #[trigger] p(
        octant(m, i),
    ) by {}
    assert forall|m: Node| p(m) && o.decision(m, v(m)) == NodeAction::Refine && m.lod < o.max_lod implies #[trigger] p(
        deeper(m),
    ) by {}
    lemma_tested_induction(o, v, n, p);
}

/// The number of halvings from an edge of `m.size` down to the chunk edge.
pub open spec fn grid_level(o: Octree, m: Node) -> nat {
    floor_log2((m.size / o.chunk_size) as nat)
}

/// The shape of a node of a world of `2^k` chunks per edge: its edge is
/// `2^i` chunks for some `i <= k`, its corner a multiple of its edge, its box
/// inside the world; above the chunk boundary (`i > 0`) its level of detail
/// is `k - i`, at the boundary at least `k`.
pub open spec fn grid_shape(o: Octree, k: nat, m: Node) -> bool {
    let i = grid_level(o, m);
    &&& i <= k
    &&& m.size == o.chunk_size * pow2(i)
    &&& m.x % m.size == 0 && m.y % m.size == 0 && m.z % m.size == 0
    &&& m.x + m.size <= o.world_size && m.y + m.size <= o.world_size && m.z + m.size <= o.world_size
    &&& if i > 0 {
        m.lod == k - i
    } else {
        m.lod >= k
    }
}

/// A multiple of `2h` is a multiple of `h`, and so is `h` past it.
proof fn lemma_half_aligned(x: int, h: int)
    requires
        h > 0,
        x % (2 * h) == 0,
    ensures
        x % h == 0,
        (x + h) % h == 0,
{
    let a = x / (2 * h);
    vstd::arithmetic::div_mod::lemma_fundamental_div_mod(x, 2 * h);
    assert(x == (2 * a) * h) by (nonlinear_arith)
        requires
            x == (2 * h) * a + 0,
    ;
    vstd::arithmetic::div_mod::lemma_mod_multiples_basic(2 * a, h);
    assert(x + h == (2 * a + 1) * h) by (nonlinear_arith)
        requires
            x == (2 * a) * h,
    ;
    vstd::arithmetic::div_mod::lemma_mod_multiples_basic(2 * a + 1, h);
}

/// A node of `2^i` chunks has level `i`.
proof fn lemma_grid_level(o: Octree, m: Node, i: nat)
    requires
        o.chunk_size > 0,
        m.size == o.chunk_size * pow2(i),
    ensures
        grid_level(o, m) == i,
{
    lemma_pow2_pos(i);
    lemma_div_multiples_vanish(pow2(i) as int, o.chunk_size as int);
    lemma_floor_log2_pow2(i);
}

/// In a world of `2^k` chunks per edge, whatever the node test answers,
/// every node tested has the shape of a grid node: an edge of `2^i` chunks
/// for some `i <= k`, a corner that is a multiple of its edge, a box inside
/// the world, and, above the chunk boundary, the level of detail `k - i`.
pub proof fn law_grid_tested_shape(o: Octree, v: spec_fn(Node) -> NodeResult, k: nat)
    requires
        o.chunk_size > 0,
        o.world_size == o.chunk_size * pow2(k),
    ensures
        all_of(o.tested(v, o.root()), |m: Node| grid_shape(o, k, m)),
{
    let c = o.chunk_size as int;
    let p = |m: Node| grid_shape(o, k, m);
    lemma_root_grid(o, k);
    lemma_grid_level(o, o.root(), k);
    assert(p(o.root()));
    assert forall|m: Node, i: int|
        p(m) && o.decision(m, v(m)) == NodeAction::Split && m.lod < o.max_lod && 0 <= i < 8 implies #[trigger] p(
        octant(m, i),
    ) by {
        let j = grid_level(o, m);
        if j == 0 {
            lemma2_to64();
            assert(m.size == c);
        }
        lemma_pow2_unfold(j);
        let q = pow2((j - 1) as nat) as int;
        lemma_pow2_pos((j - 1) as nat);
        assert(m.size == 2 * (c * q)) by (nonlinear_arith)
            requires
                m.size == c * (2 * q),
        ;
        assert(c * q > 0) by (nonlinear_arith)
            requires
                c > 0,
                q > 0,
        ;
        let h = c * q;
        lemma_octant(m, i);
        let oc = octant(m, i);
        assert(oc.size == h);
        lemma_grid_level(o, oc, (j - 1) as nat);
        lemma_half_aligned(m.x as int, h);
        lemma_half_aligned(m.y as int, h);
        lemma_half_aligned(m.z as int, h);
    }
    assert forall|m: Node| p(m) && o.decision(m, v(m)) == NodeAction::Refine && m.lod < o.max_lod implies #[trigger] p(
        deeper(m),
    ) by {
        let j = grid_level(o, m);
        if j > 0 {
            lemma_pow2_unfold(j);
            lemma_pow2_pos((j - 1) as nat);
            assert(m.size >= 2 * c) by (nonlinear_arith)
                requires
                    m.size == c * (2 * pow2((j - 1) as nat)),
                    pow2((j - 1) as nat) > 0,
                    c > 0,
            ;
        }
    }
    lemma_tested_induction(o, v, o.root(), p);
}

impl Octree {
    /// Handling a grid node with a test that never answers empty emits a
    /// chunk at every chunk corner inside the node.
    pub proof fn lemma_cover_node(&self, v: spec_fn(Node) -> NodeResult, n: Node, j: nat)
        requires
            self.chunk_size > 0,
            grid_node(*self, n, j),
            forall|m: Node| #[trigger] v(m) != NodeResult::Empty,
        ensures
            forall|x: int, y: int, z: int|
                #[trigger] grid_corner_in(n, self.chunk_size as int, x, y, z) ==> has_corner(self.emitted(v, n), x, y, z),
        decreases self.max_lod - n.lod,
    {
        reveal(Octree::emitted);
        let s = self.chunk_size as int;
        assert(v(n) != NodeResult::Empty);
        match self.decision(n, v(n)) {
            NodeAction::Emit => {
                lemma_cube(
                    n.x as int,
                    n.x + n.size,
                    n.y as int,
                    n.y + n.size,
                    n.z as int,
                    n.z + n.size,
                    s,
                    self.chunk_lod(n.lod),
                );
                assert forall|x: int, y: int, z: int| #[trigger] grid_corner_in(n, s, x, y, z) implies has_corner(
                    self.emitted(v, n),
                    x,
                    y,
                    z,
                ) by {
                    assert(on_grid(x, n.x as int, s));
                    assert(on_grid(y, n.y as int, s));
                    assert(on_grid(z, n.z as int, s));
                }
            },
            NodeAction::Split => {
                if j == 0 {
                    lemma2_to64();
                    assert(n.size == s);
                }
                lemma_pow2_unfold(j);
                assert forall|i: int| 0 <= i < 8 implies forall|x: int, y: int, z: int|
                    #[trigger] grid_corner_in(octant(n, i), s, x, y, z) ==> has_corner(
                        self.emitted(v, #[trigger] octant(n, i)),
                        x,
                        y,
                        z,
                    ) by {
                    lemma_octant(n, i);
                    self.lemma_grid_octant(n, j, i);
                    self.lemma_cover_node(v, octant(n, i), (j - 1) as nat);
                }
                let e = |i: int| self.emitted(v, octant(n, i));
                assert(self.emitted(v, n) == e(0) + e(1) + e(2) + e(3) + e(4) + e(5) + e(6) + e(7));
                let half = pow2((j - 1) as nat) as int;
                assert(n.size == 2 * (n.size / 2)) by {
                    assert(s * (2 * half) == 2 * (s * half)) by (nonlinear_arith);
                }
                assert forall|x: int, y: int, z: int| #[trigger] grid_corner_in(n, s, x, y, z) implies has_corner(
                    self.emitted(v, n),
                    x,
                    y,
                    z,
                ) by {
                    let k = octant_of_corner(n, x, y, z);
                    lemma_octant(n, k);
                    assert(grid_corner_in(octant(n, k), s, x, y, z));
                    assert(has_corner(e(k), x, y, z));
                    assert(seq![e(0), e(1), e(2), e(3), e(4), e(5), e(6), e(7)][k] == e(k));
                    lemma_has_corner_in_parts(e(0), e(1), e(2), e(3), e(4), e(5), e(6), e(7), k, x, y, z);
                }
            },
            NodeAction::Refine => {
                if j >= 1 {
                    lemma_pow2_unfold(j);
                    lemma_pow2_pos((j - 1) as nat);
                    assert(n.size >= 2 * s) by (nonlinear_arith)
                        requires
                            n.size == s * (2 * pow2((j - 1) as nat)),
                            pow2((j - 1) as nat) > 0,
                            s > 0,
                    ;
                }
                self.lemma_cover_node(v, deeper(n), j);
                assert forall|x: int, y: int, z: int| #[trigger] grid_corner_in(n, s, x, y, z) implies has_corner(
                    self.emitted(v, n),
                    x,
                    y,
                    z,
                ) by {
                    assert(grid_corner_in(deeper(n), s, x, y, z));
                }
            },
            NodeAction::Skip => {},
        }
    }
}

/// A node test that never answers empty tiles a grid node exactly: handling
/// a node of `2^j` chunks per edge whose corner is on the chunk grid emits
/// one chunk at every chunk corner inside the node, each once, and nothing
/// else.
pub proof fn law_never_empty_tiles(o: Octree, v: spec_fn(Node) -> NodeResult, n: Node, j: nat)
    requires
        o.chunk_size > 0,
        grid_node(o, n, j),
        forall|m: Node| #[trigger] v(m) != NodeResult::Empty,
    ensures
        ({
            let e = o.emitted(v, n);
            let s = o.chunk_size as int;
            &&& distinct_corners(e)
            &&& forall|i: int|
                0 <= i < e.len() ==> grid_corner_in(n, s, (#[trigger] e[i]).x as int, e[i].y as int, e[i].z as int)
            &&& forall|x: int, y: int, z: int| #[trigger] grid_corner_in(n, s, x, y, z) ==> has_corner(e, x, y, z)
        }),
{
    o.lemma_grid_run(v, n, j);
    o.lemma_cover_node(v, n, j);
    let e = o.emitted(v, n);
    let s = o.chunk_size as int;
    assert forall|i: int| 0 <= i < e.len() implies grid_corner_in(n, s, (#[trigger] e[i]).x as int, e[i].y as int, e[i].z as int) by {
        assert(chunk_in_node(e[i], n) && on_chunk_grid(e[i], s));
    }
}

/// The box of `m` lies within the box of `c`.
pub open spec fn box_within(m: Node, c: Node) -> bool {
    &&& c.x <= m.x && m.x + m.size <= c.x + c.size
    &&& c.y <= m.y && m.y + m.size <= c.y + c.size
    &&& c.z <= m.z && m.z + m.size <= c.z + c.size
}

/// No chunk of `e` has its corner in the box of `m`.
pub open spec fn avoids(e: Seq<ChunkRequest>, m: Node) -> bool {
    forall|b: int| 0 <= b < e.len() ==> !chunk_in_node(#[trigger] e[b], m)
}

/// Every node tested below `c` has its box within the box of `c`.
proof fn lemma_tested_within(o: Octree, v: spec_fn(Node) -> NodeResult, c: Node)
    requires
        fits(c),
    ensures
        all_of(o.tested(v, c), |m: Node| box_within(m, c)),
{
    let p = |m: Node| box_within(m, c);
    assert forall|m: Node, i: int|
        p(m) && o.decision(m, v(m)) == NodeAction::Split && m.lod < o.max_lod && 0 <= i < 8 implies #[trigger] p(
        octant(m, i),
    ) by {
        lemma_octant(m, i);
    }
    assert forall|m: Node| p(m) && o.decision(m, v(m)) == NodeAction::Refine && m.lod < o.max_lod implies #[trigger] p(
        deeper(m),
    ) by {}
    lemma_tested_induction(o, v, c, p);
}

/// A node within one octant of `n` holds no corner of a chunk that lies in
/// another octant.
proof fn lemma_octants_apart(n: Node, i: int, k: int, m: Node, e: Seq<ChunkRequest>)
    requires
        fits(n),
        n.lod < u32::MAX,
        0 <= i < 8,
        0 <= k < 8,
        i != k,
        box_within(m, octant(n, i)),
        all_of(e, |c: ChunkRequest| chunk_in_node(c, octant(n, k))),
    ensures
        avoids(e, m),
{
    lemma_octant(n, i);
    lemma_octant(n, k);
    assert forall|b: int| 0 <= b < e.len() implies !chunk_in_node(#[trigger] e[b], m) by {
        assert((|c: ChunkRequest| chunk_in_node(c, octant(n, k)))(e[b]));
    }
}

/// Avoiding each of eight runs of chunks is avoiding their concatenation.
proof fn lemma_avoids_parts(e: spec_fn(int) -> Seq<ChunkRequest>, m: Node)
    requires
        forall|k: int| 0 <= k < 8 ==> avoids(#[trigger] e(k), m),
    ensures
        avoids(eight(e), m),
{
    let p = |c: ChunkRequest| !chunk_in_node(c, m);
    assert forall|k: int| 0 <= k < 8 implies all_of(#[trigger] e(k), p) by {
        assert(avoids(e(k), m));
    }
    lemma_all_of_eight(e, p);
    let all = eight(e);
    assert forall|b: int| 0 <= b < all.len() implies !chunk_in_node(#[trigger] all[b], m) by {
        assert(p(all[b]));
    }
}

/// However the node test answers, no chunk emitted while handling `n` has its
/// corner inside the box of a node that the test answered empty.
pub proof fn law_empty_nodes_get_no_chunks(o: Octree, v: spec_fn(Node) -> NodeResult, n: Node)
    requires
        o.chunk_size > 0,
        fits(n),
    ensures
        all_of(o.tested(v, n), |m: Node| v(m) == NodeResult::Empty ==> avoids(o.emitted(v, n), m)),
    decreases o.max_lod - n.lod,
{
    reveal(Octree::tested);
    reveal(Octree::emitted);
    let all = o.emitted(v, n);
    let q = |m: Node| v(m) == NodeResult::Empty ==> avoids(all, m);
    assert(q(n));
    assert(all_of(seq![n], q));
    match o.decision(n, v(n)) {
        NodeAction::Split => {
            if n.lod < o.max_lod {
                let e = |k: int| o.emitted(v, octant(n, k));
                assert(all == eight(e));
                assert forall|i: int| 0 <= i < 8 implies all_of(#[trigger] o.tested(v, octant(n, i)), q) by {
                    let t = o.tested(v, octant(n, i));
                    lemma_octant(n, i);
                    law_empty_nodes_get_no_chunks(o, v, octant(n, i));
                    lemma_tested_within(o, v, octant(n, i));
                    assert forall|a: int| 0 <= a < t.len() implies q(#[trigger] t[a]) by {
                        let m = t[a];
                        if v(m) == NodeResult::Empty {
                            assert((|m: Node| v(m) == NodeResult::Empty ==> avoids(e(i), m))(m));
                            assert((|m: Node| box_within(m, octant(n, i)))(m));
                            assert forall|k: int| 0 <= k < 8 implies avoids(#[trigger] e(k), m) by {
                                if k != i {
                                    lemma_octant(n, k);
                                    o.lemma_emitted_in_node(v, octant(n, k));
                                    lemma_octants_apart(n, i, k, m, e(k));
                                }
                            }
                            lemma_avoids_parts(e, m);
                        }
                    }
                }
                lemma_all_of_octants(o, v, n, q);
                lemma_all_of_concat(
                    seq![n],
                    o.tested(v, octant(n, 0)) + o.tested(v, octant(n, 1)) + o.tested(v, octant(n, 2)) + o.tested(
                        v,
                        octant(n, 3),
                    ) + o.tested(v, octant(n, 4)) + o.tested(v, octant(n, 5)) + o.tested(v, octant(n, 6)) + o.tested(
                        v,
                        octant(n, 7),
                    ),
                    q,
                );
            } else {
                assert(o.tested(v, n) =~= seq![n]);
            }
        },
        NodeAction::Refine => {
            if n.lod < o.max_lod {
                let t = o.tested(v, deeper(n));
                law_empty_nodes_get_no_chunks(o, v, deeper(n));
                assert forall|a: int| 0 <= a < t.len() implies q(#[trigger] t[a]) by {
                    assert((|m: Node| v(m) == NodeResult::Empty ==> avoids(o.emitted(v, deeper(n)), m))(t[a]));
                }
                lemma_all_of_concat(seq![n], t, q);
            } else {
                assert(o.tested(v, n) =~= seq![n]);
            }
        },
        _ => {
            assert(o.tested(v, n) =~= seq![n]);
        },
    }
}

/// Each chunk picked out of `calls` comes from an emit call in `calls`, and
/// each node from a test call.
proof fn lemma_calls_sources(calls: Seq<Call>)
    ensures
        forall|i: int|
            0 <= i < emits_in(calls).len() ==> exists|j: int|
                0 <= j < calls.len() && calls[j] == Call::Emit(#[trigger] emits_in(calls)[i]),
        forall|i: int|
            0 <= i < tests_in(calls).len() ==> exists|j: int|
                0 <= j < calls.len() && calls[j] == Call::Test(#[trigger] tests_in(calls)[i]),
    decreases calls.len(),
{
    if calls.len() > 0 {
        let d = calls.drop_last();
        lemma_calls_sources(d);
        assert forall|i: int| 0 <= i < emits_in(calls).len() implies exists|j: int|
            0 <= j < calls.len() && calls[j] == Call::Emit(#[trigger] emits_in(calls)[i]) by {
            if i < emits_in(d).len() {
                assert(emits_in(calls)[i] == emits_in(d)[i]);
                let j = choose|j: int| 0 <= j < d.len() && d[j] == Call::Emit(#[trigger] emits_in(d)[i]);
                assert(calls[j] == d[j]);
            } else {
                assert(calls[calls.len() - 1] == Call::Emit(emits_in(calls)[i]));
            }
        }
        assert forall|i: int| 0 <= i < tests_in(calls).len() implies exists|j: int|
            0 <= j < calls.len() && calls[j] == Call::Test(#[trigger] tests_in(calls)[i]) by {
            if i < tests_in(d).len() {
                assert(tests_in(calls)[i] == tests_in(d)[i]);
                let j = choose|j: int| 0 <= j < d.len() && d[j] == Call::Test(#[trigger] tests_in(d)[i]);
                assert(calls[j] == d[j]);
            } else {
                assert(calls[calls.len() - 1] == Call::Test(tests_in(calls)[i]));
            }
        }
    }
}

/// The callbacks of a run were really called with everything the run lists:
/// when the calls on record end with those of handling `n` and every call
/// on record was made, emit was called with each chunk of `emitted`, and
/// the node test with each node of `tested` (and returned).
pub proof fn law_run_reaches_callbacks<T: Fn(Node) -> NodeResult, E: Fn(ChunkRequest)>(
    o: Octree,
    v: spec_fn(Node) -> NodeResult,
    n: Node,
    cb: Callbacks<T, E>,
    pre: Seq<Call>,
)
    requires
        cb.recorded_calls_made(),
        cb.calls() == pre + o.trace(v, n),
    ensures
        forall|i: int|
            0 <= i < o.emitted(v, n).len() ==> call_ensures(cb.emit_fn(), (#[trigger] o.emitted(v, n)[i],), ()),
        forall|i: int| 0 <= i < o.tested(v, n).len() ==> cb.call_made(Call::Test(#[trigger] o.tested(v, n)[i])),
{
    let t = o.trace(v, n);
    law_trace_calls(o, v, n);
    lemma_calls_sources(t);
    assert forall|i: int| 0 <= i < o.emitted(v, n).len() implies call_ensures(
        cb.emit_fn(),
        (#[trigger] o.emitted(v, n)[i],),
        (),
    ) by {
        let c = o.emitted(v, n)[i];
        assert(c == emits_in(t)[i]);
        let j = choose|j: int| 0 <= j < t.len() && t[j] == Call::Emit(#[trigger] emits_in(t)[i]);
        assert(cb.calls()[pre.len() + j] == t[j]);
        assert(cb.call_made(cb.calls()[pre.len() + j]));
    }
    assert forall|i: int| 0 <= i < o.tested(v, n).len() implies cb.call_made(Call::Test(#[trigger] o.tested(v, n)[i])) by {
        let m = o.tested(v, n)[i];
        assert(m == tests_in(t)[i]);
        let j = choose|j: int| 0 <= j < t.len() && t[j] == Call::Test(#[trigger] tests_in(t)[i]);
        assert(cb.calls()[pre.len() + j] == t[j]);
        assert(cb.call_made(cb.calls()[pre.len() + j]));
    }
}

} // verus!
