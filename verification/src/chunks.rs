//! What the chunk sequences of a node hold: one chunk at each point of the
//! node's box that lies on the chunk grid through the node's corner, each
//! point once.

use vstd::prelude::*;
use vstd::arithmetic::div_mod::{lemma_mod_equivalence, lemma_small_mod, lemma_mod_add_multiples_vanish};
use crate::octree::{ChunkRequest, chunk_row, chunk_plane, chunk_cube};

verus! {

/// `a` lies on the grid of spacing `step` through `start`.
pub open spec fn on_grid(a: int, start: int, step: int) -> bool {
    a % step == start % step
}

/// A point past `start` on the grid of spacing `step` through `start` is at
/// least one step away, and lies on the grid through `start + step`.
pub proof fn lemma_grid_step(a: int, start: int, step: int)
    requires
        step > 0,
        a > start,
        a % step == start % step,
    ensures
        a >= start + step,
        a % step == (start + step) % step,
{
    lemma_mod_equivalence(a, start, step);
    if a < start + step {
        lemma_small_mod((a - start) as nat, step as nat);
    }
    lemma_mod_add_multiples_vanish(start, step);
}

/// Moving the start of a grid by one step keeps the grid.
pub proof fn lemma_grid_shift(start: int, step: int)
    requires
        step > 0,
    ensures
        (start + step) % step == start % step,
{
    lemma_mod_add_multiples_vanish(start, step);
}

/// The chunks of a row: corners `(x, y, cz)` for each `cz` in `[z, z_end)` on
/// the grid through `z`, in increasing `cz`.
pub proof fn lemma_row(x: int, y: int, z: int, z_end: int, step: int, lod: u32)
    requires
        step > 0,
        0 <= x <= u32::MAX,
        0 <= y <= u32::MAX,
        0 <= z,
        z_end <= u32::MAX + 1,
    ensures
        forall|i: int|
            0 <= i < chunk_row(x, y, z, z_end, step, lod).len() ==> {
                let c = #[trigger] chunk_row(x, y, z, z_end, step, lod)[i];
                &&& c.x == x
                &&& c.y == y
                &&& c.lod == lod
                &&& z <= c.z < z_end
                &&& on_grid(c.z as int, z, step)
            },
        forall|cz: int|
            z <= cz < z_end && #[trigger] on_grid(cz, z, step) ==> exists|i: int|
                0 <= i < chunk_row(x, y, z, z_end, step, lod).len() && (#[trigger] chunk_row(
                    x,
                    y,
                    z,
                    z_end,
                    step,
                    lod,
                )[i]).z == cz,
        forall|i: int, j: int|
            0 <= i < j < chunk_row(x, y, z, z_end, step, lod).len() ==> (#[trigger] chunk_row(
                x,
                y,
                z,
                z_end,
                step,
                lod,
            )[i]).z < (#[trigger] chunk_row(x, y, z, z_end, step, lod)[j]).z,
    decreases z_end - z + step,
{
    let r = chunk_row(x, y, z, z_end, step, lod);
    if z < z_end {
        let rest = chunk_row(x, y, z + step, z_end, step, lod);
        lemma_row(x, y, z + step, z_end, step, lod);
        lemma_grid_shift(z, step);
        assert(r == seq![ChunkRequest { x: x as u32, y: y as u32, z: z as u32, lod }] + rest);
        assert forall|i: int| 0 <= i < r.len() implies {
            let c = #[trigger] r[i];
            &&& c.x == x
            &&& c.y == y
            &&& c.lod == lod
            &&& z <= c.z < z_end
            &&& on_grid(c.z as int, z, step)
        } by {
            if i > 0 {
                assert(r[i] == rest[i - 1]);
            }
        }
        assert forall|cz: int| z <= cz < z_end && on_grid(cz, z, step) implies exists|i: int|
            0 <= i < r.len() && (#[trigger] r[i]).z == cz by {
            if cz == z {
                assert(r[0].z == cz);
            } else {
                lemma_grid_step(cz, z, step);
                assert(on_grid(cz, z + step, step));
                let j = choose|j: int| 0 <= j < rest.len() && (#[trigger] rest[j]).z == cz;
                assert(r[j + 1] == rest[j]);
            }
        }
        assert forall|i: int, j: int| 0 <= i < j < r.len() implies (#[trigger] r[i]).z < (#[trigger] r[j]).z by {
            assert(r[j] == rest[j - 1]);
            if i > 0 {
                assert(r[i] == rest[i - 1]);
            }
        }
    }
}

/// `a` comes before `b` in the order in which chunks are emitted: by x, then
/// y, then z.
pub open spec fn corner_before(a: ChunkRequest, b: ChunkRequest) -> bool {
    a.x < b.x || (a.x == b.x && (a.y < b.y || (a.y == b.y && a.z < b.z)))
}

/// The corner of `c` lies in `[x, x_end) x [y, y_end) x [z, z_end)` on the
/// grid of spacing `step` through `(x, y, z)`.
pub open spec fn on_box_grid(c: ChunkRequest, x: int, x_end: int, y: int, y_end: int, z: int, z_end: int, step: int) -> bool {
    &&& x <= c.x < x_end
    &&& y <= c.y < y_end
    &&& z <= c.z < z_end
    &&& on_grid(c.x as int, x, step)
    &&& on_grid(c.y as int, y, step)
    &&& on_grid(c.z as int, z, step)
}

/// The chunks of a plane: corners `(x, cy, cz)` for each grid point of
/// `[y, y_end) x [z, z_end)`, in increasing `(cy, cz)`.
pub proof fn lemma_plane(x: int, y: int, y_end: int, z: int, z_end: int, step: int, lod: u32)
    requires
        step > 0,
        0 <= x <= u32::MAX,
        0 <= y,
        y_end <= u32::MAX + 1,
        0 <= z,
        z_end <= u32::MAX + 1,
    ensures
        forall|i: int|
            0 <= i < chunk_plane(x, y, y_end, z, z_end, step, lod).len() ==> {
                let c = #[trigger] chunk_plane(x, y, y_end, z, z_end, step, lod)[i];
                &&& c.x == x
                &&& c.lod == lod
                &&& on_box_grid(c, x, x + 1, y, y_end, z, z_end, step)
            },
        forall|cy: int, cz: int|
            y <= cy < y_end && z <= cz < z_end && #[trigger] on_grid(cy, y, step) && #[trigger] on_grid(cz, z, step)
                ==> exists|i: int|
                0 <= i < chunk_plane(x, y, y_end, z, z_end, step, lod).len() && (#[trigger] chunk_plane(
                    x,
                    y,
                    y_end,
                    z,
                    z_end,
                    step,
                    lod,
                )[i]).y == cy && chunk_plane(x, y, y_end, z, z_end, step, lod)[i].z == cz,
        forall|i: int, j: int|
            0 <= i < j < chunk_plane(x, y, y_end, z, z_end, step, lod).len() ==> corner_before(
                #[trigger] chunk_plane(x, y, y_end, z, z_end, step, lod)[i],
                #[trigger] chunk_plane(x, y, y_end, z, z_end, step, lod)[j],
            ),
    decreases y_end - y + step,
{
    let p = chunk_plane(x, y, y_end, z, z_end, step, lod);
    if y < y_end {
        let r = chunk_row(x, y, z, z_end, step, lod);
        let rest = chunk_plane(x, y + step, y_end, z, z_end, step, lod);
        lemma_row(x, y, z, z_end, step, lod);
        lemma_plane(x, y + step, y_end, z, z_end, step, lod);
        lemma_grid_shift(y, step);
        assert(p == r + rest);
        assert forall|i: int| 0 <= i < p.len() implies {
            let c = #[trigger] p[i];
            &&& c.x == x
            &&& c.lod == lod
            &&& on_box_grid(c, x, x + 1, y, y_end, z, z_end, step)
        } by {
            if i < r.len() {
                assert(p[i] == r[i]);
            } else {
                assert(p[i] == rest[i - r.len()]);
            }
        }
        assert forall|cy: int, cz: int|
            y <= cy < y_end && z <= cz < z_end && #[trigger] on_grid(cy, y, step) && #[trigger] on_grid(cz, z, step)
            implies exists|i: int| 0 <= i < p.len() && (#[trigger] p[i]).y == cy && p[i].z == cz by {
            if cy == y {
                let j = choose|j: int| 0 <= j < r.len() && (#[trigger] r[j]).z == cz;
                assert(p[j] == r[j]);
            } else {
                lemma_grid_step(cy, y, step);
                assert(on_grid(cy, y + step, step));
                let j = choose|j: int| 0 <= j < rest.len() && (#[trigger] rest[j]).y == cy && rest[j].z == cz;
                assert(p[j + r.len()] == rest[j]);
            }
        }
        assert forall|i: int, j: int| 0 <= i < j < p.len() implies corner_before(#[trigger] p[i], #[trigger] p[j]) by {
            if j < r.len() {
                assert(p[i] == r[i]);
                assert(p[j] == r[j]);
            } else if i < r.len() {
                assert(p[i] == r[i]);
                assert(p[j] == rest[j - r.len()]);
            } else {
                assert(p[i] == rest[i - r.len()]);
                assert(p[j] == rest[j - r.len()]);
            }
        }
    }
}

/// The chunks of a box: one chunk at each grid point of the box, in
/// increasing `(x, y, z)`.
pub proof fn lemma_cube(x: int, x_end: int, y: int, y_end: int, z: int, z_end: int, step: int, lod: u32)
    requires
        step > 0,
        0 <= x,
        x_end <= u32::MAX + 1,
        0 <= y,
        y_end <= u32::MAX + 1,
        0 <= z,
        z_end <= u32::MAX + 1,
    ensures
        forall|i: int|
            0 <= i < chunk_cube(x, x_end, y, y_end, z, z_end, step, lod).len() ==> {
                let c = #[trigger] chunk_cube(x, x_end, y, y_end, z, z_end, step, lod)[i];
                &&& c.lod == lod
                &&& on_box_grid(c, x, x_end, y, y_end, z, z_end, step)
            },
        forall|cx: int, cy: int, cz: int|
            x <= cx < x_end && y <= cy < y_end && z <= cz < z_end && #[trigger] on_grid(cx, x, step)
                && #[trigger] on_grid(cy, y, step) && #[trigger] on_grid(cz, z, step) ==> exists|i: int|
                0 <= i < chunk_cube(x, x_end, y, y_end, z, z_end, step, lod).len() && (#[trigger] chunk_cube(
                    x,
                    x_end,
                    y,
                    y_end,
                    z,
                    z_end,
                    step,
                    lod,
                )[i]).x == cx && chunk_cube(x, x_end, y, y_end, z, z_end, step, lod)[i].y == cy
                    && chunk_cube(x, x_end, y, y_end, z, z_end, step, lod)[i].z == cz,
        forall|i: int, j: int|
            0 <= i < j < chunk_cube(x, x_end, y, y_end, z, z_end, step, lod).len() ==> corner_before(
                #[trigger] chunk_cube(x, x_end, y, y_end, z, z_end, step, lod)[i],
                #[trigger] chunk_cube(x, x_end, y, y_end, z, z_end, step, lod)[j],
            ),
    decreases x_end - x + step,
{
    let q = chunk_cube(x, x_end, y, y_end, z, z_end, step, lod);
    if x < x_end {
        let p = chunk_plane(x, y, y_end, z, z_end, step, lod);
        let rest = chunk_cube(x + step, x_end, y, y_end, z, z_end, step, lod);
        lemma_plane(x, y, y_end, z, z_end, step, lod);
        lemma_cube(x + step, x_end, y, y_end, z, z_end, step, lod);
        lemma_grid_shift(x, step);
        assert(q == p + rest);
        assert forall|i: int| 0 <= i < q.len() implies {
            let c = #[trigger] q[i];
            &&& c.lod == lod
            &&& on_box_grid(c, x, x_end, y, y_end, z, z_end, step)
        } by {
            if i < p.len() {
                assert(q[i] == p[i]);
            } else {
                assert(q[i] == rest[i - p.len()]);
            }
        }
        assert forall|cx: int, cy: int, cz: int|
            x <= cx < x_end && y <= cy < y_end && z <= cz < z_end && #[trigger] on_grid(cx, x, step)
                && #[trigger] on_grid(cy, y, step) && #[trigger] on_grid(cz, z, step)
            implies exists|i: int| 0 <= i < q.len() && (#[trigger] q[i]).x == cx && q[i].y == cy && q[i].z == cz by {
            if cx == x {
                let j = choose|j: int| 0 <= j < p.len() && (#[trigger] p[j]).y == cy && p[j].z == cz;
                assert(q[j] == p[j]);
            } else {
                lemma_grid_step(cx, x, step);
                assert(on_grid(cx, x + step, step));
                let j = choose|j: int|
                    0 <= j < rest.len() && (#[trigger] rest[j]).x == cx && rest[j].y == cy && rest[j].z == cz;
                assert(q[j + p.len()] == rest[j]);
            }
        }
        assert forall|i: int, j: int| 0 <= i < j < q.len() implies corner_before(#[trigger] q[i], #[trigger] q[j]) by {
            if j < p.len() {
                assert(q[i] == p[i]);
                assert(q[j] == p[j]);
            } else if i < p.len() {
                assert(q[i] == p[i]);
                assert(q[j] == rest[j - p.len()]);
            } else {
                assert(q[i] == rest[i - p.len()]);
                assert(q[j] == rest[j - p.len()]);
            }
        }
    }
}

} // verus!
