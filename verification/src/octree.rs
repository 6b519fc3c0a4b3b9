//! The adaptive octree traversal. Starting from the whole world, each node
//! is handed to a node test; an empty node is skipped, a node whose projected
//! error is within the threshold (or that has reached the deepest level of
//! detail) is emitted as the chunks that tile it, and any other node is split
//! into its eight octants, or, once it is no larger than a chunk, tested again
//! one level of detail deeper.
//!
//! The node test and emit are called through `Callbacks`, which keep a ghost
//! record of every call. The traversal is specified by `trace` (the calls, in
//! order), `emitted` and `tested`, over an answer function `v` that gives the
//! test's answer for each node.

use vstd::prelude::*;
use vstd::arithmetic::power2::{pow2, lemma2_to64, lemma_pow2_unfold};

verus! {

/// A cube of the world handed to the node test: its corner, its edge length
/// and its level of detail (the number of subdivisions from the root).
#[derive(Clone, Copy, Debug, PartialEq, Eq, Structural)]
pub struct Node {
    pub x: u32,
    pub y: u32,
    pub z: u32,
    pub size: u32,
    pub lod: u32,
}

/// A request to generate one chunk whose corner is `(x, y, z)`, at a level of
/// detail relative to the chunk boundary.
#[derive(Clone, Copy, Debug, PartialEq, Eq, Structural)]
pub struct ChunkRequest {
    pub x: u32,
    pub y: u32,
    pub z: u32,
    pub lod: u32,
}

/// `floor(log2(n))` for `n >= 1`.
pub open spec fn floor_log2(n: nat) -> nat
    decreases n,
{
    if n < 2 {
        0
    } else {
        1 + floor_log2(n / 2)
    }
}

/// A value below `2^k` has a floor logarithm below `k`.
pub proof fn lemma_floor_log2_lt(m: nat, k: nat)
    requires
        1 <= m,
        m < pow2(k),
    ensures
        floor_log2(m) < k,
    decreases m,
{
    if k == 0 {
        lemma2_to64();
    } else {
        lemma_pow2_unfold(k);
        if m >= 2 {
            lemma_floor_log2_lt(m / 2, (k - 1) as nat);
        }
    }
}

/// The number of halvings that take `n` down to 1, as `u32::ilog2` computes it.
pub fn ilog2(n: u32) -> (r: u32)
    requires
        n > 0,
    ensures
        r == floor_log2(n as nat),
{
    proof {
        lemma2_to64();
        lemma_floor_log2_lt(n as nat, 32);
    }
    let mut m: u32 = n;
    let mut r: u32 = 0;
    while m >= 2
        invariant
            m >= 1,
            r + floor_log2(m as nat) == floor_log2(n as nat),
            floor_log2(n as nat) < 32,
        decreases m,
    {
        m = m / 2;
        r = r + 1;
    }
    r
}

/// What the node test reports about a node: nothing to generate inside it,
/// or a projection whose screen-space error is, or is not, within the
/// octree's error threshold.
#[derive(Clone, Copy, Debug, PartialEq, Eq, Structural)]
pub enum NodeResult {
    Empty,
    Projected { within_threshold: bool },
}

/// What the traversal does with a node once the node test has answered.
#[derive(Clone, Copy, Debug, PartialEq, Eq, Structural)]
pub enum NodeAction {
    /// The node is empty: nothing is emitted and nothing below it is tested.
    Skip,
    /// The node is emitted as the chunks that tile it.
    Emit,
    /// The node is split into its eight octants, one level of detail deeper.
    Split,
    /// The node is tested again at the same size, one level of detail deeper.
    Refine,
}

/// The parameters of an adaptive traversal of a cubic world of edge
/// `world_size`, generated in chunks of edge `chunk_size`, with levels of
/// detail up to `max_lod`.
pub struct Octree {
    pub world_size: u32,
    pub chunk_size: u32,
    pub max_lod: u32,
}

/// The same node one level of detail deeper.
pub open spec fn deeper(n: Node) -> Node {
    Node { x: n.x, y: n.y, z: n.z, size: n.size, lod: (n.lod + 1) as u32 }
}

/// Octant `i` (for `0 <= i < 8`) of a node: bit 2 of `i` selects the upper
/// half along x, bit 1 along y, bit 0 along z.
pub open spec fn octant(n: Node, i: int) -> Node {
    let h = n.size / 2;
    Node {
        x: (n.x + if i / 4 == 1 { h } else { 0 }) as u32,
        y: (n.y + if (i / 2) % 2 == 1 { h } else { 0 }) as u32,
        z: (n.z + if i % 2 == 1 { h } else { 0 }) as u32,
        size: h as u32,
        lod: (n.lod + 1) as u32,
    }
}

/// The chunks of one row: corners `(x, y, z)`, `(x, y, z + step)`, ... below `z_end`.
pub open spec fn chunk_row(x: int, y: int, z: int, z_end: int, step: int, lod: u32) -> Seq<ChunkRequest>
    decreases z_end - z + step,
{
    if step > 0 && z < z_end {
        seq![ChunkRequest { x: x as u32, y: y as u32, z: z as u32, lod }]
            + chunk_row(x, y, z + step, z_end, step, lod)
    } else {
        seq![]
    }
}

/// The rows of one plane of constant `x`, for `y`, `y + step`, ... below `y_end`.
pub open spec fn chunk_plane(x: int, y: int, y_end: int, z: int, z_end: int, step: int, lod: u32) -> Seq<ChunkRequest>
    decreases y_end - y + step,
{
    if step > 0 && y < y_end {
        chunk_row(x, y, z, z_end, step, lod) + chunk_plane(x, y + step, y_end, z, z_end, step, lod)
    } else {
        seq![]
    }
}

/// The planes of a box, for `x`, `x + step`, ... below `x_end`.
pub open spec fn chunk_cube(
    x: int,
    x_end: int,
    y: int,
    y_end: int,
    z: int,
    z_end: int,
    step: int,
    lod: u32,
) -> Seq<ChunkRequest>
    decreases x_end - x + step,
{
    if step > 0 && x < x_end {
        chunk_plane(x, y, y_end, z, z_end, step, lod) + chunk_cube(x + step, x_end, y, y_end, z, z_end, step, lod)
    } else {
        seq![]
    }
}

/// The extent of the box of `n` along each axis, where an empty box counts
/// as its corner alone.
pub open spec fn reach(n: Node) -> int {
    if n.size == 0 {
        1
    } else {
        n.size as int
    }
}

/// `m` lies in the part of the traversal below `n`: its box (its corner, if
/// empty) is inside that of `n` and its level of detail is not coarser.
pub open spec fn in_subtree(m: Node, n: Node) -> bool {
    &&& n.lod <= m.lod
    &&& n.x <= m.x && m.x + reach(m) <= n.x + reach(n)
    &&& n.y <= m.y && m.y + reach(m) <= n.y + reach(n)
    &&& n.z <= m.z && m.z + reach(m) <= n.z + reach(n)
}

/// The box of `n` lies within the range of `u32` on every axis.
pub open spec fn fits(n: Node) -> bool {
    &&& n.x + n.size <= u32::MAX
    &&& n.y + n.size <= u32::MAX
    &&& n.z + n.size <= u32::MAX
}

/// Every node of `nodes` was answered `v(node)` by a possible run of `test`.
pub open spec fn answers<T: Fn(Node) -> NodeResult>(
    test: T,
    v: spec_fn(Node) -> NodeResult,
    nodes: Seq<Node>,
) -> bool {
    forall|i: int| 0 <= i < nodes.len() ==> call_ensures(test, (#[trigger] nodes[i],), v(nodes[i]))
}

/// A call the traversal makes through its callbacks: a node handed to the
/// node test, or a chunk handed to emit.
#[derive(Clone, Copy, Debug, PartialEq, Eq, Structural)]
pub enum Call {
    Test(Node),
    Emit(ChunkRequest),
}

/// The calls that hand the chunks of `s` to emit, in order.
pub open spec fn emit_calls(s: Seq<ChunkRequest>) -> Seq<Call> {
    s.map_values(|c: ChunkRequest| Call::Emit(c))
}

/// Handing two runs of chunks to emit, one after the other.
pub proof fn lemma_emit_calls_concat(a: Seq<ChunkRequest>, b: Seq<ChunkRequest>)
    ensures
        emit_calls(a + b) == emit_calls(a) + emit_calls(b),
{
    assert(emit_calls(a + b) =~= emit_calls(a) + emit_calls(b));
}

/// The traversal's two callbacks, the node test and emit. They keep the
/// chunks handed to emit, in order, and, as a ghost record, every call made
/// through them, in order.
pub struct Callbacks<T, E> {
    test: T,
    emit: E,
    sent: Vec<ChunkRequest>,
    log: Ghost<Seq<Call>>,
}

impl<T: Fn(Node) -> NodeResult, E: Fn(ChunkRequest)> Callbacks<T, E> {
    /// The node test.
    pub closed spec fn test_fn(&self) -> T {
        self.test
    }

    /// The callback that receives each chunk.
    pub closed spec fn emit_fn(&self) -> E {
        self.emit
    }

    /// Every call made through the callbacks so far, in order.
    pub closed spec fn calls(&self) -> Seq<Call> {
        self.log@
    }

    /// The chunks handed to emit so far, in order.
    pub closed spec fn sent(&self) -> Seq<ChunkRequest> {
        self.sent@
    }

    /// Every call on record was made: each recorded test of a node is a call
    /// of the node test with that node, and each recorded chunk a call of
    /// emit with that chunk.
    pub open spec fn recorded_calls_made(&self) -> bool {
        forall|i: int| 0 <= i < self.calls().len() ==> self.call_made(#[trigger] self.calls()[i])
    }

    /// The call `c` was made through these callbacks: a call of the node test
    /// with the node, returning some answer, or a call of emit with the chunk.
    pub open spec fn call_made(&self, c: Call) -> bool {
        &&& c is Test ==> exists|r: NodeResult| call_ensures(self.test_fn(), (c->Test_0,), r)
        &&& c is Emit ==> call_ensures(self.emit_fn(), (c->Emit_0,), ())
    }

    /// A call of the node test with `n` that returned `r` is a call made.
    proof fn lemma_test_made(&self, n: Node, r: NodeResult)
        requires
            call_ensures(self.test_fn(), (n,), r),
        ensures
            self.call_made(Call::Test(n)),
    {
        assert(Call::Test(n) is Test);
        assert((Call::Test(n))->Test_0 == n);
    }

    /// A call of emit with `c` is a call made.
    proof fn lemma_emit_made(&self, c: ChunkRequest)
        requires
            call_ensures(self.emit_fn(), (c,), ()),
        ensures
            self.call_made(Call::Emit(c)),
    {
        assert(Call::Emit(c) is Emit);
        assert((Call::Emit(c))->Emit_0 == c);
    }

    /// Both callbacks accept every argument.
    pub open spec fn ready(&self) -> bool {
        &&& forall|m: Node| call_requires(self.test_fn(), (m,))
        &&& forall|c: ChunkRequest| call_requires(self.emit_fn(), (c,))
    }

    /// Callbacks that have made no call yet.
    pub fn new(test: T, emit: E) -> (cb: Self)
        ensures
            cb.test_fn() == test,
            cb.emit_fn() == emit,
            cb.calls() == Seq::<Call>::empty(),
            cb.sent() == Seq::<ChunkRequest>::empty(),
            cb.recorded_calls_made(),
    {
        Callbacks { test, emit, sent: Vec::new(), log: Ghost(Seq::empty()) }
    }

    /// Hands `n` to the node test and returns its answer.
    pub fn ask(&mut self, n: Node) -> (r: NodeResult)
        requires
            call_requires(old(self).test_fn(), (n,)),
        ensures
            call_ensures(old(self).test_fn(), (n,), r),
            final(self).test_fn() == old(self).test_fn(),
            final(self).emit_fn() == old(self).emit_fn(),
            final(self).calls() == old(self).calls().push(Call::Test(n)),
            final(self).sent() == old(self).sent(),
            old(self).recorded_calls_made() ==> final(self).recorded_calls_made(),
    {
        let r = (self.test)(n);
        self.log = Ghost(self.log@.push(Call::Test(n)));
        proof {
            if old(self).recorded_calls_made() {
                assert forall|i: int| 0 <= i < self.calls().len() implies self.call_made(#[trigger] self.calls()[i]) by {
                    if i < old(self).calls().len() {
                        assert(self.calls()[i] == old(self).calls()[i]);
                        assert(old(self).call_made(old(self).calls()[i]));
                        assert(old(self).test_fn() == self.test_fn());
                        assert(old(self).emit_fn() == self.emit_fn());
                        assert(self.call_made(self.calls()[i]));
                    } else {
                        assert(self.calls()[i] == Call::Test(n));
                        self.lemma_test_made(n, r);
                    }
                }
            }
        }
        r
    }

    /// Hands `c` to emit.
    pub fn give(&mut self, c: ChunkRequest)
        requires
            call_requires(old(self).emit_fn(), (c,)),
        ensures
            final(self).test_fn() == old(self).test_fn(),
            final(self).emit_fn() == old(self).emit_fn(),
            final(self).calls() == old(self).calls().push(Call::Emit(c)),
            final(self).sent() == old(self).sent().push(c),
            call_ensures(old(self).emit_fn(), (c,), ()),
            old(self).recorded_calls_made() ==> final(self).recorded_calls_made(),
    {
        (self.emit)(c);
        self.sent.push(c);
        self.log = Ghost(self.log@.push(Call::Emit(c)));
        proof {
            if old(self).recorded_calls_made() {
                assert forall|i: int| 0 <= i < self.calls().len() implies self.call_made(#[trigger] self.calls()[i]) by {
                    if i < old(self).calls().len() {
                        assert(self.calls()[i] == old(self).calls()[i]);
                        assert(old(self).call_made(old(self).calls()[i]));
                        assert(old(self).test_fn() == self.test_fn());
                        assert(old(self).emit_fn() == self.emit_fn());
                        assert(self.call_made(self.calls()[i]));
                    } else {
                        assert(self.calls()[i] == Call::Emit(c));
                        self.lemma_emit_made(c);
                    }
                }
            }
        }
    }

    /// The chunks handed to emit, in order, once the callbacks are done with.
    pub fn into_chunks(self) -> (r: Vec<ChunkRequest>)
        ensures
            r@ == self.sent(),
    {
        self.sent
    }

    /// The chunks handed to emit so far, in order.
    pub fn chunks(&self) -> (r: &Vec<ChunkRequest>)
        ensures
            r@ == self.sent(),
    {
        &self.sent
    }
}

impl Octree {
    /// The number of subdivisions from the world down to the chunk boundary:
    /// `log2(world_size / chunk_size)`, rounded down.
    pub open spec fn lod_diff(&self) -> nat {
        floor_log2((self.world_size / self.chunk_size) as nat)
    }

    /// The level of detail of a node relative to the chunk boundary, where a
    /// node above the boundary counts as 0.
    pub open spec fn chunk_lod(&self, lod: u32) -> u32 {
        if lod >= self.lod_diff() {
            (lod - self.lod_diff()) as u32
        } else {
            0
        }
    }

    /// The chunks that tile a node: chunk corners step by `chunk_size` from the
    /// node's corner, x outermost and z innermost.
    pub open spec fn chunks_of(&self, n: Node) -> Seq<ChunkRequest> {
        chunk_cube(
            n.x as int,
            n.x + n.size,
            n.y as int,
            n.y + n.size,
            n.z as int,
            n.z + n.size,
            self.chunk_size as int,
            self.chunk_lod(n.lod),
        )
    }

    /// What is done with node `n` when the test answers `r`.
    pub open spec fn decision(&self, n: Node, r: NodeResult) -> NodeAction {
        match r {
            NodeResult::Empty => NodeAction::Skip,
            NodeResult::Projected { within_threshold } => {
                if within_threshold || n.lod >= self.max_lod {
                    NodeAction::Emit
                } else if n.size > self.chunk_size {
                    NodeAction::Split
                } else {
                    NodeAction::Refine
                }
            },
        }
    }

    /// The chunks emitted, in order, when node `n` is handled and the test
    /// answers `v(m)` for every node `m`.
    #[verifier::opaque]
    pub open spec fn emitted(&self, v: spec_fn(Node) -> NodeResult, n: Node) -> Seq<ChunkRequest>
        decreases self.max_lod - n.lod,
    {
        match self.decision(n, v(n)) {
            NodeAction::Skip => seq![],
            NodeAction::Emit => self.chunks_of(n),
            NodeAction::Split => {
                if n.lod < self.max_lod {
                    self.emitted(v, octant(n, 0)) + self.emitted(v, octant(n, 1))
                        + self.emitted(v, octant(n, 2)) + self.emitted(v, octant(n, 3))
                        + self.emitted(v, octant(n, 4)) + self.emitted(v, octant(n, 5))
                        + self.emitted(v, octant(n, 6)) + self.emitted(v, octant(n, 7))
                } else {
                    seq![]
                }
            },
            NodeAction::Refine => {
                if n.lod < self.max_lod {
                    self.emitted(v, deeper(n))
                } else {
                    seq![]
                }
            },
        }
    }

    /// The nodes handed to the test, in order, when node `n` is handled and
    /// the test answers `v(m)` for every node `m`.
    #[verifier::opaque]
    pub open spec fn tested(&self, v: spec_fn(Node) -> NodeResult, n: Node) -> Seq<Node>
        decreases self.max_lod - n.lod,
    {
        seq![n] + match self.decision(n, v(n)) {
            NodeAction::Split => {
                if n.lod < self.max_lod {
                    self.tested(v, octant(n, 0)) + self.tested(v, octant(n, 1))
                        + self.tested(v, octant(n, 2)) + self.tested(v, octant(n, 3))
                        + self.tested(v, octant(n, 4)) + self.tested(v, octant(n, 5))
                        + self.tested(v, octant(n, 6)) + self.tested(v, octant(n, 7))
                } else {
                    seq![]
                }
            },
            NodeAction::Refine => {
                if n.lod < self.max_lod {
                    self.tested(v, deeper(n))
                } else {
                    seq![]
                }
            },
            _ => seq![],
        }
    }

    /// The calls made through the callbacks, in order, when node `n` is
    /// handled and the test answers `v(m)` for every node `m`.
    #[verifier::opaque]
    pub open spec fn trace(&self, v: spec_fn(Node) -> NodeResult, n: Node) -> Seq<Call>
        decreases self.max_lod - n.lod,
    {
        seq![Call::Test(n)] + match self.decision(n, v(n)) {
            NodeAction::Skip => seq![],
            NodeAction::Emit => emit_calls(self.chunks_of(n)),
            NodeAction::Split => {
                if n.lod < self.max_lod {
                    self.trace(v, octant(n, 0)) + self.trace(v, octant(n, 1))
                        + self.trace(v, octant(n, 2)) + self.trace(v, octant(n, 3))
                        + self.trace(v, octant(n, 4)) + self.trace(v, octant(n, 5))
                        + self.trace(v, octant(n, 6)) + self.trace(v, octant(n, 7))
                } else {
                    seq![]
                }
            },
            NodeAction::Refine => {
                if n.lod < self.max_lod {
                    self.trace(v, deeper(n))
                } else {
                    seq![]
                }
            },
        }
    }

    /// The root node: the whole world at level of detail 0.
    pub open spec fn root(&self) -> Node {
        Node { x: 0, y: 0, z: 0, size: self.world_size, lod: 0 }
    }
}

/// Hands the chunks of one row, `chunk_row(x, y, z, z_end, step, lod)`, to emit.
fn push_row<T: Fn(Node) -> NodeResult, E: Fn(ChunkRequest)>(
    cb: &mut Callbacks<T, E>,
    x: u32,
    y: u32,
    z: u32,
    z_end: u64,
    step: u32,
    lod: u32,
)
    requires
        step > 0,
        z <= z_end <= u32::MAX,
        forall|c: ChunkRequest| call_requires(old(cb).emit_fn(), (c,)),
    ensures
        final(cb).test_fn() == old(cb).test_fn(),
        final(cb).emit_fn() == old(cb).emit_fn(),
        old(cb).recorded_calls_made() ==> final(cb).recorded_calls_made(),
        final(cb).sent() == old(cb).sent() + chunk_row(x as int, y as int, z as int, z_end as int, step as int, lod),
        final(cb).calls() == old(cb).calls() + emit_calls(
            chunk_row(x as int, y as int, z as int, z_end as int, step as int, lod),
        ),
{
    let mut cz: u64 = z as u64;
    while cz < z_end
        invariant
            step > 0,
            z_end <= u32::MAX,
            cz < z_end + step,
            cb.test_fn() == old(cb).test_fn(),
            cb.emit_fn() == old(cb).emit_fn(),
            old(cb).recorded_calls_made() ==> cb.recorded_calls_made(),
            forall|c: ChunkRequest| call_requires(cb.emit_fn(), (c,)),
            cb.sent() + chunk_row(x as int, y as int, cz as int, z_end as int, step as int, lod)
                == old(cb).sent() + chunk_row(x as int, y as int, z as int, z_end as int, step as int, lod),
            cb.calls() + emit_calls(chunk_row(x as int, y as int, cz as int, z_end as int, step as int, lod))
                == old(cb).calls() + emit_calls(chunk_row(x as int, y as int, z as int, z_end as int, step as int, lod)),
        decreases z_end + step - cz,
    {
        let ghost sent = cb.sent();
        let ghost calls = cb.calls();
        let c = ChunkRequest { x, y, z: cz as u32, lod };
        cb.give(c);
        let ghost rest = chunk_row(x as int, y as int, cz + step, z_end as int, step as int, lod);
        assert(chunk_row(x as int, y as int, cz as int, z_end as int, step as int, lod) == seq![c] + rest);
        assert(sent + (seq![c] + rest) =~= cb.sent() + rest);
        proof {
            lemma_emit_calls_concat(seq![c], rest);
        }
        assert(emit_calls(seq![c]) =~= seq![Call::Emit(c)]);
        assert(calls + (emit_calls(seq![c]) + emit_calls(rest)) =~= cb.calls() + emit_calls(rest));
        cz = cz + step as u64;
    }
}

/// Hands the rows of one plane, `chunk_plane(x, y, y_end, z, z_end, step, lod)`, to emit.
fn push_plane<T: Fn(Node) -> NodeResult, E: Fn(ChunkRequest)>(
    cb: &mut Callbacks<T, E>,
    x: u32,
    y: u32,
    y_end: u64,
    z: u32,
    z_end: u64,
    step: u32,
    lod: u32,
)
    requires
        step > 0,
        y <= y_end <= u32::MAX,
        z <= z_end <= u32::MAX,
        forall|c: ChunkRequest| call_requires(old(cb).emit_fn(), (c,)),
    ensures
        final(cb).test_fn() == old(cb).test_fn(),
        final(cb).emit_fn() == old(cb).emit_fn(),
        old(cb).recorded_calls_made() ==> final(cb).recorded_calls_made(),
        final(cb).sent() == old(cb).sent() + chunk_plane(
            x as int,
            y as int,
            y_end as int,
            z as int,
            z_end as int,
            step as int,
            lod,
        ),
        final(cb).calls() == old(cb).calls() + emit_calls(
            chunk_plane(x as int, y as int, y_end as int, z as int, z_end as int, step as int, lod),
        ),
{
    let mut cy: u64 = y as u64;
    while cy < y_end
        invariant
            step > 0,
            y_end <= u32::MAX,
            z <= z_end <= u32::MAX,
            cy < y_end + step,
            cb.test_fn() == old(cb).test_fn(),
            cb.emit_fn() == old(cb).emit_fn(),
            old(cb).recorded_calls_made() ==> cb.recorded_calls_made(),
            forall|c: ChunkRequest| call_requires(cb.emit_fn(), (c,)),
            cb.sent() + chunk_plane(x as int, cy as int, y_end as int, z as int, z_end as int, step as int, lod)
                == old(cb).sent() + chunk_plane(x as int, y as int, y_end as int, z as int, z_end as int, step as int, lod),
            cb.calls() + emit_calls(
                chunk_plane(x as int, cy as int, y_end as int, z as int, z_end as int, step as int, lod),
            ) == old(cb).calls() + emit_calls(
                chunk_plane(x as int, y as int, y_end as int, z as int, z_end as int, step as int, lod),
            ),
        decreases y_end + step - cy,
    {
        let ghost sent = cb.sent();
        let ghost calls = cb.calls();
        push_row(cb, x, cy as u32, z, z_end, step, lod);
        let ghost row = chunk_row(x as int, cy as int, z as int, z_end as int, step as int, lod);
        let ghost rest = chunk_plane(x as int, cy + step, y_end as int, z as int, z_end as int, step as int, lod);
        assert(sent + (row + rest) =~= cb.sent() + rest);
        proof {
            lemma_emit_calls_concat(row, rest);
        }
        assert(calls + (emit_calls(row) + emit_calls(rest)) =~= cb.calls() + emit_calls(rest));
        cy = cy + step as u64;
    }
}

impl Octree {
    /// Creates the traversal parameters.
    pub fn from(world_size: u32, chunk_size: u32, max_lod: u32) -> (o: Octree)
        ensures
            o.world_size == world_size,
            o.chunk_size == chunk_size,
            o.max_lod == max_lod,
    {
        Octree { world_size, chunk_size, max_lod }
    }

    /// Hands the chunks that tile the node at `(x, y, z)` of edge `size` and
    /// level of detail `lod` to emit.
    pub fn chunk<T: Fn(Node) -> NodeResult, E: Fn(ChunkRequest)>(
        &self,
        x: u32,
        y: u32,
        z: u32,
        size: u32,
        lod: u32,
        cb: &mut Callbacks<T, E>,
    )
        requires
            self.chunk_size > 0,
            self.world_size >= self.chunk_size,
            fits(Node { x, y, z, size, lod }),
            forall|c: ChunkRequest| call_requires(old(cb).emit_fn(), (c,)),
        ensures
            final(cb).test_fn() == old(cb).test_fn(),
            final(cb).emit_fn() == old(cb).emit_fn(),
            old(cb).recorded_calls_made() ==> final(cb).recorded_calls_made(),
            final(cb).sent() == old(cb).sent() + self.chunks_of(Node { x, y, z, size, lod }),
            final(cb).calls() == old(cb).calls() + emit_calls(self.chunks_of(Node { x, y, z, size, lod })),
    {
        let step = self.chunk_size;
        assert(self.world_size / self.chunk_size >= 1) by (nonlinear_arith)
            requires
                self.world_size >= self.chunk_size,
                self.chunk_size > 0,
        ;
        let lod_diff = ilog2(self.world_size / self.chunk_size);
        let chunk_lod = lod.saturating_sub(lod_diff);
        assert(chunk_lod == self.chunk_lod(lod));
        let x_end: u64 = x as u64 + size as u64;
        let y_end: u64 = y as u64 + size as u64;
        let z_end: u64 = z as u64 + size as u64;
        let mut cx: u64 = x as u64;
        while cx < x_end
            invariant
                step == self.chunk_size,
                step > 0,
                x_end <= u32::MAX,
                y_end == y + size,
                z_end == z + size,
                y_end <= u32::MAX,
                z_end <= u32::MAX,
                cx < x_end + step,
                cb.test_fn() == old(cb).test_fn(),
                cb.emit_fn() == old(cb).emit_fn(),
                old(cb).recorded_calls_made() ==> cb.recorded_calls_made(),
                forall|c: ChunkRequest| call_requires(cb.emit_fn(), (c,)),
                cb.sent() + chunk_cube(cx as int, x_end as int, y as int, y_end as int, z as int, z_end as int, step as int, chunk_lod)
                    == old(cb).sent() + chunk_cube(x as int, x_end as int, y as int, y_end as int, z as int, z_end as int, step as int, chunk_lod),
                cb.calls() + emit_calls(
                    chunk_cube(cx as int, x_end as int, y as int, y_end as int, z as int, z_end as int, step as int, chunk_lod),
                ) == old(cb).calls() + emit_calls(
                    chunk_cube(x as int, x_end as int, y as int, y_end as int, z as int, z_end as int, step as int, chunk_lod),
                ),
            decreases x_end + step - cx,
        {
            let ghost sent = cb.sent();
            let ghost calls = cb.calls();
            push_plane(cb, cx as u32, y, y_end, z, z_end, step, chunk_lod);
            let ghost plane = chunk_plane(cx as int, y as int, y_end as int, z as int, z_end as int, step as int, chunk_lod);
            let ghost rest = chunk_cube(cx + step, x_end as int, y as int, y_end as int, z as int, z_end as int, step as int, chunk_lod);
            assert(sent + (plane + rest) =~= cb.sent() + rest);
            proof {
                lemma_emit_calls_concat(plane, rest);
            }
            assert(calls + (emit_calls(plane) + emit_calls(rest)) =~= cb.calls() + emit_calls(rest));
            cx = cx + step as u64;
        }
    }
}

/// The octant of `n` whose part of the box holds the corner of `m`.
pub open spec fn octant_index(n: Node, m: Node) -> int {
    let h = n.size / 2;
    (if m.x >= n.x + h { 4int } else { 0int }) + (if m.y >= n.y + h { 2int } else { 0int }) + (if m.z
        >= n.z + h {
        1int
    } else {
        0int
    })
}

/// The answers of a split node: `r` for the node itself and, below it, those
/// of `vs[i]` inside octant `i`.
pub open spec fn split_answers(
    n: Node,
    r: NodeResult,
    vs: Seq<spec_fn(Node) -> NodeResult>,
) -> spec_fn(Node) -> NodeResult {
    |m: Node|
        if m == n {
            r
        } else {
            vs[octant_index(n, m)](m)
        }
}

/// The answers of a refined node: `r` for the node itself and those of `w`
/// below it.
pub open spec fn refine_answers(n: Node, r: NodeResult, w: spec_fn(Node) -> NodeResult) -> spec_fn(
    Node,
) -> NodeResult {
    |m: Node|
        if m == n {
            r
        } else {
            w(m)
        }
}

/// The shape of an octant: its corner, half the edge, one level deeper, and
/// everything below it lies below the parent.
pub proof fn lemma_octant(n: Node, i: int)
    requires
        fits(n),
        n.lod < u32::MAX,
        0 <= i < 8,
    ensures
        octant(n, i).x == n.x + if i / 4 == 1 { n.size / 2 } else { 0 },
        octant(n, i).y == n.y + if (i / 2) % 2 == 1 { n.size / 2 } else { 0 },
        octant(n, i).z == n.z + if i % 2 == 1 { n.size / 2 } else { 0 },
        octant(n, i).size == n.size / 2,
        octant(n, i).lod == n.lod + 1,
        fits(octant(n, i)),
        forall|m: Node| in_subtree(m, octant(n, i)) ==> in_subtree(m, n),
        n.size >= 2 ==> forall|m: Node| in_subtree(m, octant(n, i)) ==> octant_index(n, m) == i,
        !in_subtree(n, octant(n, i)),
{
}

/// Answers of two sequences of nodes give the answers of their concatenation.
pub proof fn lemma_answers_concat<T: Fn(Node) -> NodeResult>(
    test: T,
    v: spec_fn(Node) -> NodeResult,
    a: Seq<Node>,
    b: Seq<Node>,
)
    requires
        answers(test, v, a),
        answers(test, v, b),
    ensures
        answers(test, v, a + b),
{
    assert forall|i: int| 0 <= i < (a + b).len() implies call_ensures(
        test,
        (#[trigger] (a + b)[i],),
        v((a + b)[i]),
    ) by {
        if i < a.len() {
            assert((a + b)[i] == a[i]);
        } else {
            assert((a + b)[i] == b[i - a.len()]);
        }
    }
}

/// Answers carry over to another answer function that agrees on the nodes.
pub proof fn lemma_answers_agree<T: Fn(Node) -> NodeResult>(
    test: T,
    v: spec_fn(Node) -> NodeResult,
    w: spec_fn(Node) -> NodeResult,
    a: Seq<Node>,
)
    requires
        answers(test, v, a),
        forall|i: int| 0 <= i < a.len() ==> v(a[i]) == w(a[i]),
    ensures
        answers(test, w, a),
{
    assert forall|i: int| 0 <= i < a.len() implies call_ensures(test, (#[trigger] a[i],), w(a[i])) by {
        assert(v(a[i]) == w(a[i]));
    }
}

/// Every node of `s` lies in the subtree of `n`.
pub open spec fn all_in_subtree(s: Seq<Node>, n: Node) -> bool {
    forall|i: int| 0 <= i < s.len() ==> in_subtree(#[trigger] s[i], n)
}

/// Every element of `s` satisfies `p`.
pub open spec fn all_of<A>(s: Seq<A>, p: spec_fn(A) -> bool) -> bool {
    forall|i: int| 0 <= i < s.len() ==> p(#[trigger] s[i])
}

pub proof fn lemma_all_of_concat<A>(a: Seq<A>, b: Seq<A>, p: spec_fn(A) -> bool)
    requires
        all_of(a, p),
        all_of(b, p),
    ensures
        all_of(a + b, p),
{
    assert forall|i: int| 0 <= i < (a + b).len() implies p(#[trigger] (a + b)[i]) by {
        if i < a.len() {
            assert((a + b)[i] == a[i]);
        } else {
            assert((a + b)[i] == b[i - a.len()]);
        }
    }
}

/// The concatenation of the eight parts `e(0)`, ..., `e(7)`.
pub open spec fn eight<A>(e: spec_fn(int) -> Seq<A>) -> Seq<A> {
    e(0) + e(1) + e(2) + e(3) + e(4) + e(5) + e(6) + e(7)
}

/// Every element of eight parts satisfies `p` exactly when every element of
/// their concatenation does.
pub proof fn lemma_all_of_eight<A>(e: spec_fn(int) -> Seq<A>, p: spec_fn(A) -> bool)
    ensures
        (forall|k: int| 0 <= k < 8 ==> all_of(#[trigger] e(k), p)) <==> all_of(eight(e), p),
{
    if forall|k: int| 0 <= k < 8 ==> all_of(#[trigger] e(k), p) {
        assert(all_of(e(0), p) && all_of(e(1), p) && all_of(e(2), p) && all_of(e(3), p));
        assert(all_of(e(4), p) && all_of(e(5), p) && all_of(e(6), p) && all_of(e(7), p));
        lemma_all_of_concat(e(0), e(1), p);
        lemma_all_of_concat(e(0) + e(1), e(2), p);
        lemma_all_of_concat(e(0) + e(1) + e(2), e(3), p);
        lemma_all_of_concat(e(0) + e(1) + e(2) + e(3), e(4), p);
        lemma_all_of_concat(e(0) + e(1) + e(2) + e(3) + e(4), e(5), p);
        lemma_all_of_concat(e(0) + e(1) + e(2) + e(3) + e(4) + e(5), e(6), p);
        lemma_all_of_concat(e(0) + e(1) + e(2) + e(3) + e(4) + e(5) + e(6), e(7), p);
    }
    if all_of(eight(e), p) {
        assert forall|k: int| 0 <= k < 8 implies all_of(#[trigger] e(k), p) by {
            let pre = if k == 0 {
                Seq::<A>::empty()
            } else if k == 1 {
                e(0)
            } else if k == 2 {
                e(0) + e(1)
            } else if k == 3 {
                e(0) + e(1) + e(2)
            } else if k == 4 {
                e(0) + e(1) + e(2) + e(3)
            } else if k == 5 {
                e(0) + e(1) + e(2) + e(3) + e(4)
            } else if k == 6 {
                e(0) + e(1) + e(2) + e(3) + e(4) + e(5)
            } else {
                e(0) + e(1) + e(2) + e(3) + e(4) + e(5) + e(6)
            };
            assert forall|i: int| 0 <= i < e(k).len() implies p(#[trigger] e(k)[i]) by {
                assert(eight(e)[pre.len() + i] == e(k)[i]);
            }
        }
    }
}

/// Every node tested below each of the eight octants of `n` satisfies `p`,
/// so every node tested below all of them does.
pub proof fn lemma_all_of_octants(o: Octree, v: spec_fn(Node) -> NodeResult, n: Node, p: spec_fn(Node) -> bool)
    requires
        forall|i: int| 0 <= i < 8 ==> all_of(#[trigger] o.tested(v, octant(n, i)), p),
    ensures
        all_of(
            o.tested(v, octant(n, 0)) + o.tested(v, octant(n, 1)) + o.tested(v, octant(n, 2)) + o.tested(v, octant(n, 3))
                + o.tested(v, octant(n, 4)) + o.tested(v, octant(n, 5)) + o.tested(v, octant(n, 6)) + o.tested(
                v,
                octant(n, 7),
            ),
            p,
        ),
{
    let t = |i: int| o.tested(v, octant(n, i));
    assert forall|k: int| 0 <= k < 8 implies all_of(#[trigger] t(k), p) by {
        assert(all_of(o.tested(v, octant(n, k)), p));
    }
    lemma_all_of_eight(t, p);
}

/// Induction over the nodes tested below `n`: a property of `n` that passes
/// from a split node to its eight octants and from a refined node to the same
/// node one level deeper holds of every node tested.
pub proof fn lemma_tested_induction(o: Octree, v: spec_fn(Node) -> NodeResult, n: Node, p: spec_fn(Node) -> bool)
    requires
        p(n),
        forall|m: Node, i: int|
            #![trigger p(m), p(octant(m, i))]
            p(m) && o.decision(m, v(m)) == NodeAction::Split && m.lod < o.max_lod && 0 <= i < 8 ==> p(octant(m, i)),
        forall|m: Node|
            #![trigger p(deeper(m))]
            p(m) && o.decision(m, v(m)) == NodeAction::Refine && m.lod < o.max_lod ==> p(deeper(m)),
    ensures
        all_of(o.tested(v, n), p),
    decreases o.max_lod - n.lod,
{
    reveal(Octree::tested);
    assert(all_of(seq![n], p));
    match o.decision(n, v(n)) {
        NodeAction::Split => {
            if n.lod < o.max_lod {
                assert forall|i: int| 0 <= i < 8 implies all_of(#[trigger] o.tested(v, octant(n, i)), p) by {
                    assert(p(octant(n, i)));
                    lemma_tested_induction(o, v, octant(n, i), p);
                }
                lemma_all_of_octants(o, v, n, p);
                lemma_all_of_concat(
                    seq![n],
                    o.tested(v, octant(n, 0)) + o.tested(v, octant(n, 1)) + o.tested(v, octant(n, 2)) + o.tested(
                        v,
                        octant(n, 3),
                    ) + o.tested(v, octant(n, 4)) + o.tested(v, octant(n, 5)) + o.tested(v, octant(n, 6)) + o.tested(
                        v,
                        octant(n, 7),
                    ),
                    p,
                );
            } else {
                assert(o.tested(v, n) =~= seq![n]);
            }
        },
        NodeAction::Refine => {
            if n.lod < o.max_lod {
                lemma_tested_induction(o, v, deeper(n), p);
                lemma_all_of_concat(seq![n], o.tested(v, deeper(n)), p);
            } else {
                assert(o.tested(v, n) =~= seq![n]);
            }
        },
        _ => {
            assert(o.tested(v, n) =~= seq![n]);
        },
    }
}

impl Octree {
    /// Every node tested below `n` lies in the subtree of `n`.
    pub proof fn lemma_tested_in_subtree(&self, v: spec_fn(Node) -> NodeResult, n: Node)
        requires
            fits(n),
        ensures
            all_in_subtree(self.tested(v, n), n),
    {
        let p = |m: Node| in_subtree(m, n) && fits(m);
        assert forall|m: Node, i: int|
            p(m) && self.decision(m, v(m)) == NodeAction::Split && m.lod < self.max_lod && 0 <= i < 8 implies #[trigger] p(
            octant(m, i),
        ) by {
            lemma_octant(m, i);
            assert(in_subtree(octant(m, i), octant(m, i)));
        }
        assert forall|m: Node| p(m) && self.decision(m, v(m)) == NodeAction::Refine && m.lod < self.max_lod implies #[trigger] p(
            deeper(m),
        ) by {}
        lemma_tested_induction(*self, v, n, p);
        let t = self.tested(v, n);
        assert forall|i: int| 0 <= i < t.len() implies in_subtree(#[trigger] t[i], n) by {
            assert(p(t[i]));
        }
    }

    /// The traversal below `n` reads the answers only inside the subtree of `n`.
    pub proof fn lemma_locality(&self, v1: spec_fn(Node) -> NodeResult, v2: spec_fn(Node) -> NodeResult, n: Node)
        requires
            self.chunk_size > 0,
            fits(n),
            forall|m: Node| in_subtree(m, n) ==> v1(m) == v2(m),
        ensures
            self.emitted(v1, n) == self.emitted(v2, n),
            self.tested(v1, n) == self.tested(v2, n),
            self.trace(v1, n) == self.trace(v2, n),
        decreases self.max_lod - n.lod,
    {
        reveal(Octree::emitted);
        reveal(Octree::tested);
        reveal(Octree::trace);
        assert(in_subtree(n, n));
        match self.decision(n, v1(n)) {
            NodeAction::Split => {
                if n.lod < self.max_lod {
                    assert forall|i: int| #![trigger octant(n, i)] 0 <= i < 8 implies {
                        &&& self.emitted(v1, octant(n, i)) == self.emitted(v2, octant(n, i))
                        &&& self.tested(v1, octant(n, i)) == self.tested(v2, octant(n, i))
                        &&& self.trace(v1, octant(n, i)) == self.trace(v2, octant(n, i))
                    } by {
                        lemma_octant(n, i);
                        assert forall|m: Node| in_subtree(m, octant(n, i)) implies v1(m) == v2(m) by {
                            assert(in_subtree(m, n));
                        }
                        self.lemma_locality(v1, v2, octant(n, i));
                    }
                }
            },
            NodeAction::Refine => {
                if n.lod < self.max_lod {
                    assert forall|m: Node| in_subtree(m, deeper(n)) implies v1(m) == v2(m) by {
                        assert(in_subtree(m, n));
                    }
                    self.lemma_locality(v1, v2, deeper(n));
                }
            },
            _ => {},
        }
    }
}

impl Octree {
    /// The answers of a split node, put together from the answers of its
    /// eight octants, give the concatenation of what the octants emit.
    pub proof fn lemma_split_answers<T: Fn(Node) -> NodeResult>(
        &self,
        test: T,
        n: Node,
        r: NodeResult,
        vs: Seq<spec_fn(Node) -> NodeResult>,
    )
        requires
            self.chunk_size > 0,
            fits(n),
            self.decision(n, r) == NodeAction::Split,
            vs.len() == 8,
            call_ensures(test, (n,), r),
            forall|i: int| 0 <= i < 8 ==> answers(test, #[trigger] vs[i], self.tested(vs[i], octant(n, i))),
        ensures
            answers(test, split_answers(n, r, vs), self.tested(split_answers(n, r, vs), n)),
            self.emitted(split_answers(n, r, vs), n) == self.emitted(vs[0], octant(n, 0)) + self.emitted(
                vs[1],
                octant(n, 1),
            ) + self.emitted(vs[2], octant(n, 2)) + self.emitted(vs[3], octant(n, 3)) + self.emitted(
                vs[4],
                octant(n, 4),
            ) + self.emitted(vs[5], octant(n, 5)) + self.emitted(vs[6], octant(n, 6)) + self.emitted(
                vs[7],
                octant(n, 7),
            ),
            self.trace(split_answers(n, r, vs), n) == seq![Call::Test(n)] + (self.trace(vs[0], octant(n, 0))
                + self.trace(vs[1], octant(n, 1)) + self.trace(vs[2], octant(n, 2)) + self.trace(vs[3], octant(n, 3))
                + self.trace(vs[4], octant(n, 4)) + self.trace(vs[5], octant(n, 5)) + self.trace(vs[6], octant(n, 6))
                + self.trace(vs[7], octant(n, 7))),
    {
        reveal(Octree::emitted);
        reveal(Octree::tested);
        reveal(Octree::trace);
        let v = split_answers(n, r, vs);
        assert(v(n) == r);
        assert(n.size >= 2);
        assert forall|i: int| #![trigger octant(n, i)] 0 <= i < 8 implies {
            &&& self.emitted(v, octant(n, i)) == self.emitted(vs[i], octant(n, i))
            &&& self.trace(v, octant(n, i)) == self.trace(vs[i], octant(n, i))
            &&& answers(test, v, self.tested(v, octant(n, i)))
        } by {
            let c = octant(n, i);
            assert(answers(test, vs[i], self.tested(vs[i], c)));
            lemma_octant(n, i);
            assert forall|m: Node| in_subtree(m, c) implies v(m) == vs[i](m) by {
                assert(octant_index(n, m) == i);
            }
            self.lemma_locality(v, vs[i], c);
            self.lemma_tested_in_subtree(vs[i], c);
            let t = self.tested(vs[i], c);
            assert forall|k: int| 0 <= k < t.len() implies vs[i](t[k]) == v(t[k]) by {
                assert(in_subtree(t[k], c));
            }
            lemma_answers_agree(test, vs[i], v, t);
        }
        let t = |i: int| self.tested(v, octant(n, i));
        assert(answers(test, v, t(0)) && answers(test, v, t(1)) && answers(test, v, t(2)) && answers(test, v, t(3)));
        assert(answers(test, v, t(4)) && answers(test, v, t(5)) && answers(test, v, t(6)) && answers(test, v, t(7)));
        lemma_answers_concat(test, v, t(0), t(1));
        lemma_answers_concat(test, v, t(0) + t(1), t(2));
        lemma_answers_concat(test, v, t(0) + t(1) + t(2), t(3));
        lemma_answers_concat(test, v, t(0) + t(1) + t(2) + t(3), t(4));
        lemma_answers_concat(test, v, t(0) + t(1) + t(2) + t(3) + t(4), t(5));
        lemma_answers_concat(test, v, t(0) + t(1) + t(2) + t(3) + t(4) + t(5), t(6));
        lemma_answers_concat(test, v, t(0) + t(1) + t(2) + t(3) + t(4) + t(5) + t(6), t(7));
        assert(answers(test, v, seq![n]));
        lemma_answers_concat(test, v, seq![n], t(0) + t(1) + t(2) + t(3) + t(4) + t(5) + t(6) + t(7));
    }

    /// The answers of a refined node, put together from the answers one
    /// level deeper, give what is emitted one level deeper.
    pub proof fn lemma_refine_answers<T: Fn(Node) -> NodeResult>(
        &self,
        test: T,
        n: Node,
        r: NodeResult,
        w: spec_fn(Node) -> NodeResult,
    )
        requires
            self.chunk_size > 0,
            fits(n),
            self.decision(n, r) == NodeAction::Refine,
            call_ensures(test, (n,), r),
            answers(test, w, self.tested(w, deeper(n))),
        ensures
            answers(test, refine_answers(n, r, w), self.tested(refine_answers(n, r, w), n)),
            self.emitted(refine_answers(n, r, w), n) == self.emitted(w, deeper(n)),
            self.trace(refine_answers(n, r, w), n) == seq![Call::Test(n)] + self.trace(w, deeper(n)),
    {
        reveal(Octree::emitted);
        reveal(Octree::tested);
        reveal(Octree::trace);
        let v = refine_answers(n, r, w);
        let d = deeper(n);
        assert(v(n) == r);
        assert forall|m: Node| in_subtree(m, d) implies v(m) == w(m) by {
            assert(m != n);
        }
        self.lemma_locality(v, w, d);
        self.lemma_tested_in_subtree(w, d);
        assert forall|i: int| 0 <= i < self.tested(w, d).len() implies w(self.tested(w, d)[i]) == v(
            self.tested(w, d)[i],
        ) by {
            assert(in_subtree(self.tested(w, d)[i], d));
        }
        lemma_answers_agree(test, w, v, self.tested(w, d));
        assert(answers(test, v, seq![n]));
        lemma_answers_concat(test, v, seq![n], self.tested(w, d));
    }
}

impl Octree {
    /// What to do with a node once the test has answered `result`.
    pub fn decide(&self, node: &Node, result: NodeResult) -> (a: NodeAction)
        ensures
            a == self.decision(*node, result),
    {
        match result {
            NodeResult::Empty => NodeAction::Skip,
            NodeResult::Projected { within_threshold } => {
                if within_threshold || node.lod >= self.max_lod {
                    NodeAction::Emit
                } else if node.size > self.chunk_size {
                    NodeAction::Split
                } else {
                    NodeAction::Refine
                }
            },
        }
    }

    /// Hands the node at `(x, y, z)` of edge `size` and level of detail `lod`
    /// to the node test and, as the answer decides, hands its chunks to emit,
    /// or handles its eight octants, or handles it again one level deeper.
    pub fn handle<T: Fn(Node) -> NodeResult, E: Fn(ChunkRequest)>(
        &self,
        x: u32,
        y: u32,
        z: u32,
        size: u32,
        lod: u32,
        cb: &mut Callbacks<T, E>,
    )
        requires
            self.chunk_size > 0,
            self.world_size >= self.chunk_size,
            fits(Node { x, y, z, size, lod }),
            old(cb).ready(),
        ensures
            final(cb).test_fn() == old(cb).test_fn(),
            final(cb).emit_fn() == old(cb).emit_fn(),
            old(cb).recorded_calls_made() ==> final(cb).recorded_calls_made(),
            exists|v: spec_fn(Node) -> NodeResult|
                {
                    &&& answers(old(cb).test_fn(), v, self.tested(v, Node { x, y, z, size, lod }))
                    &&& final(cb).calls() == old(cb).calls() + self.trace(v, Node { x, y, z, size, lod })
                    &&& final(cb).sent() == old(cb).sent() + self.emitted(v, Node { x, y, z, size, lod })
                },
        decreases self.max_lod - lod, 1nat,
    {
        let node = Node { x, y, z, size, lod };
        let r = cb.ask(node);
        let ghost asked = cb.calls();
        match self.decide(&node, r) {
            NodeAction::Skip => {
                proof {
                    reveal(Octree::emitted);
                    reveal(Octree::tested);
                    reveal(Octree::trace);
                }
                let ghost v = |m: Node| r;
                assert(self.tested(v, node) =~= seq![node]);
                assert(answers(old(cb).test_fn(), v, self.tested(v, node)));
                assert(cb.calls() =~= old(cb).calls() + self.trace(v, node));
                assert(cb.sent() =~= old(cb).sent() + self.emitted(v, node));
            },
            NodeAction::Emit => {
                self.chunk(x, y, z, size, lod, cb);
                proof {
                    reveal(Octree::emitted);
                    reveal(Octree::tested);
                    reveal(Octree::trace);
                }
                let ghost v = |m: Node| r;
                assert(self.tested(v, node) =~= seq![node]);
                assert(answers(old(cb).test_fn(), v, self.tested(v, node)));
                assert(cb.calls() =~= old(cb).calls() + self.trace(v, node));
            },
            NodeAction::Refine => {
                let deeper_lod = lod + 1;
                let ghost sent = cb.sent();
                assert(Node { x, y, z, size, lod: deeper_lod } == deeper(node));
                self.handle(x, y, z, size, deeper_lod, cb);
                let ghost w = choose|v: spec_fn(Node) -> NodeResult|
                    {
                        &&& answers(old(cb).test_fn(), v, self.tested(v, deeper(node)))
                        &&& cb.calls() == asked + self.trace(v, deeper(node))
                        &&& cb.sent() == sent + self.emitted(v, deeper(node))
                    };
                proof {
                    self.lemma_refine_answers(old(cb).test_fn(), node, r, w);
                }
                let ghost v = refine_answers(node, r, w);
                assert(answers(old(cb).test_fn(), v, self.tested(v, node)));
                assert(cb.calls() =~= old(cb).calls() + self.trace(v, node));
            },
            NodeAction::Split => {
                self.handle_octants(node, r, cb, Ghost(old(cb).calls()));
            },
        }
    }

    /// Handles the eight octants of a node whose answer `r` splits it, after
    /// the calls `before` and the test of the node itself.
    fn handle_octants<T: Fn(Node) -> NodeResult, E: Fn(ChunkRequest)>(
        &self,
        node: Node,
        r: NodeResult,
        cb: &mut Callbacks<T, E>,
        before: Ghost<Seq<Call>>,
    )
        requires
            self.chunk_size > 0,
            self.world_size >= self.chunk_size,
            fits(node),
            self.decision(node, r) == NodeAction::Split,
            call_ensures(old(cb).test_fn(), (node,), r),
            old(cb).ready(),
            old(cb).calls() == before@.push(Call::Test(node)),
        ensures
            final(cb).test_fn() == old(cb).test_fn(),
            final(cb).emit_fn() == old(cb).emit_fn(),
            old(cb).recorded_calls_made() ==> final(cb).recorded_calls_made(),
            exists|v: spec_fn(Node) -> NodeResult|
                {
                    &&& answers(old(cb).test_fn(), v, self.tested(v, node))
                    &&& final(cb).calls() == before@ + self.trace(v, node)
                    &&& final(cb).sent() == old(cb).sent() + self.emitted(v, node)
                },
        decreases self.max_lod - node.lod, 0nat,
    {
        let ghost test = old(cb).test_fn();
        let x = node.x;
        let y = node.y;
        let z = node.z;
        let size = node.size;
        let lod = node.lod;
        let h = size / 2;
        let deeper_lod = lod + 1;
        let ghost c0 = cb.calls();
        let ghost s0 = cb.sent();
        proof {
            lemma_octant(node, 0);
        }
        assert(Node { x: x, y: y, z: z, size: h, lod: deeper_lod } == octant(node, 0));
        self.handle(x, y, z, h, deeper_lod, cb);
        let ghost v0 = choose|v: spec_fn(Node) -> NodeResult|
            {
                &&& answers(test, v, self.tested(v, octant(node, 0)))
                &&& cb.calls() == c0 + self.trace(v, octant(node, 0))
                &&& cb.sent() == s0 + self.emitted(v, octant(node, 0))
            };
        let ghost c1 = cb.calls();
        let ghost s1 = cb.sent();
        proof {
            lemma_octant(node, 1);
        }
        assert(Node { x: x, y: y, z: (z + h) as u32, size: h, lod: deeper_lod } == octant(node, 1));
        self.handle(x, y, z + h, h, deeper_lod, cb);
        let ghost v1 = choose|v: spec_fn(Node) -> NodeResult|
            {
                &&& answers(test, v, self.tested(v, octant(node, 1)))
                &&& cb.calls() == c1 + self.trace(v, octant(node, 1))
                &&& cb.sent() == s1 + self.emitted(v, octant(node, 1))
            };
        let ghost c2 = cb.calls();
        let ghost s2 = cb.sent();
        proof {
            lemma_octant(node, 2);
        }
        assert(Node { x: x, y: (y + h) as u32, z: z, size: h, lod: deeper_lod } == octant(node, 2));
        self.handle(x, y + h, z, h, deeper_lod, cb);
        let ghost v2 = choose|v: spec_fn(Node) -> NodeResult|
            {
                &&& answers(test, v, self.tested(v, octant(node, 2)))
                &&& cb.calls() == c2 + self.trace(v, octant(node, 2))
                &&& cb.sent() == s2 + self.emitted(v, octant(node, 2))
            };
        let ghost c3 = cb.calls();
        let ghost s3 = cb.sent();
        proof {
            lemma_octant(node, 3);
        }
        assert(Node { x: x, y: (y + h) as u32, z: (z + h) as u32, size: h, lod: deeper_lod } == octant(node, 3));
        self.handle(x, y + h, z + h, h, deeper_lod, cb);
        let ghost v3 = choose|v: spec_fn(Node) -> NodeResult|
            {
                &&& answers(test, v, self.tested(v, octant(node, 3)))
                &&& cb.calls() == c3 + self.trace(v, octant(node, 3))
                &&& cb.sent() == s3 + self.emitted(v, octant(node, 3))
            };
        let ghost c4 = cb.calls();
        let ghost s4 = cb.sent();
        proof {
            lemma_octant(node, 4);
        }
        assert(Node { x: (x + h) as u32, y: y, z: z, size: h, lod: deeper_lod } == octant(node, 4));
        self.handle(x + h, y, z, h, deeper_lod, cb);
        let ghost v4 = choose|v: spec_fn(Node) -> NodeResult|
            {
                &&& answers(test, v, self.tested(v, octant(node, 4)))
                &&& cb.calls() == c4 + self.trace(v, octant(node, 4))
                &&& cb.sent() == s4 + self.emitted(v, octant(node, 4))
            };
        let ghost c5 = cb.calls();
        let ghost s5 = cb.sent();
        proof {
            lemma_octant(node, 5);
        }
        assert(Node { x: (x + h) as u32, y: y, z: (z + h) as u32, size: h, lod: deeper_lod } == octant(node, 5));
        self.handle(x + h, y, z + h, h, deeper_lod, cb);
        let ghost v5 = choose|v: spec_fn(Node) -> NodeResult|
            {
                &&& answers(test, v, self.tested(v, octant(node, 5)))
                &&& cb.calls() == c5 + self.trace(v, octant(node, 5))
                &&& cb.sent() == s5 + self.emitted(v, octant(node, 5))
            };
        let ghost c6 = cb.calls();
        let ghost s6 = cb.sent();
        proof {
            lemma_octant(node, 6);
        }
        assert(Node { x: (x + h) as u32, y: (y + h) as u32, z: z, size: h, lod: deeper_lod } == octant(node, 6));
        self.handle(x + h, y + h, z, h, deeper_lod, cb);
        let ghost v6 = choose|v: spec_fn(Node) -> NodeResult|
            {
                &&& answers(test, v, self.tested(v, octant(node, 6)))
                &&& cb.calls() == c6 + self.trace(v, octant(node, 6))
                &&& cb.sent() == s6 + self.emitted(v, octant(node, 6))
            };
        let ghost c7 = cb.calls();
        let ghost s7 = cb.sent();
        proof {
            lemma_octant(node, 7);
        }
        assert(Node { x: (x + h) as u32, y: (y + h) as u32, z: (z + h) as u32, size: h, lod: deeper_lod } == octant(node, 7));
        self.handle(x + h, y + h, z + h, h, deeper_lod, cb);
        let ghost v7 = choose|v: spec_fn(Node) -> NodeResult|
            {
                &&& answers(test, v, self.tested(v, octant(node, 7)))
                &&& cb.calls() == c7 + self.trace(v, octant(node, 7))
                &&& cb.sent() == s7 + self.emitted(v, octant(node, 7))
            };
        let ghost vs = seq![v0, v1, v2, v3, v4, v5, v6, v7];
        proof {
            self.lemma_split_answers(test, node, r, vs);
        }
        let ghost v = split_answers(node, r, vs);
        assert(cb.sent() =~= old(cb).sent() + self.emitted(v, node));
        assert(cb.calls() =~= before@ + self.trace(v, node));
        assert(answers(test, v, self.tested(v, node)));
    }

    /// Handles the whole world, from the root at level of detail 0.
    pub fn iterate<T: Fn(Node) -> NodeResult, E: Fn(ChunkRequest)>(&self, cb: &mut Callbacks<T, E>)
        requires
            self.chunk_size > 0,
            self.world_size >= self.chunk_size,
            old(cb).ready(),
        ensures
            final(cb).test_fn() == old(cb).test_fn(),
            final(cb).emit_fn() == old(cb).emit_fn(),
            old(cb).recorded_calls_made() ==> final(cb).recorded_calls_made(),
            exists|v: spec_fn(Node) -> NodeResult|
                {
                    &&& answers(old(cb).test_fn(), v, self.tested(v, self.root()))
                    &&& final(cb).calls() == old(cb).calls() + self.trace(v, self.root())
                    &&& final(cb).sent() == old(cb).sent() + self.emitted(v, self.root())
                },
    {
        assert(Node { x: 0, y: 0, z: 0, size: self.world_size, lod: 0 } == self.root());
        self.handle(0, 0, 0, self.world_size, 0, cb);
    }
}

} // verus!
