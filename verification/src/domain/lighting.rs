use vstd::prelude::*;
use std::collections::BTreeSet;

use crate::domain::block::{id_def, state_id, BlockState};

verus! {

/// The brightest light level.
pub const MAX_LIGHT_LEVEL: u8 = 15;

/// The sky and block light of one cell.
#[derive(Debug, Clone, Copy, Default, PartialEq, Eq, Structural)]
pub struct LightCell {
    pub sky: u8,
    pub block: u8,
}

// ---------------------------------------------------------------------------------------------
// Geometry of a light volume: cells `(x, y, d)` with `0 <= x < w`, `0 <= y < h`, `0 <= d < dd`,
// stored depth-major, then row-major.
// ---------------------------------------------------------------------------------------------

pub open spec fn idx(w: int, h: int, x: int, y: int, d: int) -> int {
    (d * h + y) * w + x
}

pub open spec fn in_box(w: int, h: int, dd: int, x: int, y: int, d: int) -> bool {
    0 <= x < w && 0 <= y < h && 0 <= d < dd
}

/// The six face neighbours, in the order `+x, -x, +y, -y, +d, -d`.
pub open spec fn nbx(x: int, k: int) -> int {
    if k == 0 {
        x + 1
    } else if k == 1 {
        x - 1
    } else {
        x
    }
}

pub open spec fn nby(y: int, k: int) -> int {
    if k == 2 {
        y + 1
    } else if k == 3 {
        y - 1
    } else {
        y
    }
}

pub open spec fn nbd(d: int, k: int) -> int {
    if k == 4 {
        d + 1
    } else if k == 5 {
        d - 1
    } else {
        d
    }
}

/// The direction that leads back.
pub open spec fn opposite(k: int) -> int {
    if k % 2 == 0 {
        k + 1
    } else {
        k - 1
    }
}

/// The level stored for a cell.
pub open spec fn val(f: Seq<u8>, w: int, h: int, x: int, y: int, d: int) -> int {
    f[idx(w, h, x, y, d)] as int
}

/// A cell's light does not leak past any neighbour: each neighbour holds at least the cell's
/// level minus one, minus the neighbour's opacity.
pub open spec fn nbrs_ok(f: Seq<u8>, op: Seq<u8>, w: int, h: int, dd: int, x: int, y: int, d: int) -> bool {
    forall|k: int|
        0 <= k < 6 && in_box(w, h, dd, #[trigger] nbx(x, k), nby(y, k), nbd(d, k)) ==> val(
            f,
            w,
            h,
            nbx(x, k),
            nby(y, k),
            nbd(d, k),
        ) + 1 + val(op, w, h, nbx(x, k), nby(y, k), nbd(d, k)) >= val(f, w, h, x, y, d)
}

/// A cell's light is its own seed, or it arrived from a neighbour, which then holds at least
/// one level more than the cell, plus the cell's opacity.
pub open spec fn justified(
    f: Seq<u8>,
    seed: spec_fn(int, int, int) -> int,
    op: Seq<u8>,
    w: int,
    h: int,
    dd: int,
    x: int,
    y: int,
    d: int,
) -> bool {
    ||| val(f, w, h, x, y, d) == seed(x, y, d)
    ||| exists|k: int|
        0 <= k < 6 && in_box(w, h, dd, #[trigger] nbx(x, k), nby(y, k), nbd(d, k)) && val(
            f,
            w,
            h,
            x,
            y,
            d,
        ) + 1 + val(op, w, h, x, y, d) <= val(f, w, h, nbx(x, k), nby(y, k), nbd(d, k))
}

/// `f` is the light that floods out from `seed` through cells of opacity `op`: every level is
/// at least the seed and at most `MAX_LIGHT_LEVEL`, no light leaks past a neighbour, and every
/// level is either the seed or what a neighbour passes on. With a step cost of at least one,
/// this determines `f` (see [`lemma_light_field_unique`]).
pub open spec fn light_field(
    f: Seq<u8>,
    seed: spec_fn(int, int, int) -> int,
    op: Seq<u8>,
    w: int,
    h: int,
    dd: int,
) -> bool {
    &&& f.len() == w * h * dd
    &&& forall|x: int, y: int, d: int|
        in_box(w, h, dd, x, y, d) ==> {
            &&& seed(x, y, d) <= #[trigger] val(f, w, h, x, y, d)
            &&& val(f, w, h, x, y, d) <= MAX_LIGHT_LEVEL
        }
    &&& forall|x: int, y: int, d: int|
        in_box(w, h, dd, x, y, d) ==> #[trigger] nbrs_ok(f, op, w, h, dd, x, y, d)
    &&& forall|x: int, y: int, d: int|
        in_box(w, h, dd, x, y, d) ==> #[trigger] justified(f, seed, op, w, h, dd, x, y, d)
}

pub proof fn lemma_idx_bounds(w: int, h: int, dd: int, x: int, y: int, d: int)
    requires
        in_box(w, h, dd, x, y, d),
    ensures
        0 <= idx(w, h, x, y, d) < w * h * dd,
{
    assert(0 <= d * h + y) by (nonlinear_arith)
        requires
            0 <= d,
            0 <= h,
            0 <= y,
    ;
    assert(d * h + y < dd * h) by (nonlinear_arith)
        requires
            0 <= y < h,
            0 <= d < dd,
    ;
    let a = d * h + y;
    assert(0 <= a * w + x) by (nonlinear_arith)
        requires
            0 <= a,
            0 <= w,
            0 <= x,
    ;
    assert(a * w + x < (dd * h) * w) by (nonlinear_arith)
        requires
            0 <= a < dd * h,
            0 <= x < w,
    ;
    assert((dd * h) * w == w * h * dd) by (nonlinear_arith);
}

pub proof fn lemma_idx_injective(
    w: int,
    h: int,
    dd: int,
    x1: int,
    y1: int,
    d1: int,
    x2: int,
    y2: int,
    d2: int,
)
    requires
        in_box(w, h, dd, x1, y1, d1),
        in_box(w, h, dd, x2, y2, d2),
        idx(w, h, x1, y1, d1) == idx(w, h, x2, y2, d2),
    ensures
        x1 == x2 && y1 == y2 && d1 == d2,
{
    let a1 = d1 * h + y1;
    let a2 = d2 * h + y2;
    assert(a1 == a2 && x1 == x2) by (nonlinear_arith)
        requires
            a1 * w + x1 == a2 * w + x2,
            0 <= x1 < w,
            0 <= x2 < w,
            0 <= a1,
            0 <= a2,
    ;
    assert(d1 == d2 && y1 == y2) by (nonlinear_arith)
        requires
            d1 * h + y1 == d2 * h + y2,
            0 <= y1 < h,
            0 <= y2 < h,
            0 <= d1,
            0 <= d2,
    ;
}

/// Any two light fields of the same seed and opacities are equal: the flood has exactly one
/// outcome, whatever order the cells are processed in.
pub proof fn lemma_light_field_unique(
    f: Seq<u8>,
    g: Seq<u8>,
    seed: spec_fn(int, int, int) -> int,
    op: Seq<u8>,
    w: int,
    h: int,
    dd: int,
)
    requires
        light_field(f, seed, op, w, h, dd),
        light_field(g, seed, op, w, h, dd),
    ensures
        forall|x: int, y: int, d: int|
            in_box(w, h, dd, x, y, d) ==> #[trigger] val(f, w, h, x, y, d) == val(g, w, h, x, y, d),
{
    assert forall|x: int, y: int, d: int| in_box(w, h, dd, x, y, d) implies #[trigger] val(
        f,
        w,
        h,
        x,
        y,
        d,
    ) <= val(g, w, h, x, y, d) by {
        lemma_field_below(f, g, seed, op, w, h, dd, x, y, d);
    }
    assert forall|x: int, y: int, d: int| in_box(w, h, dd, x, y, d) implies #[trigger] val(
        g,
        w,
        h,
        x,
        y,
        d,
    ) <= val(f, w, h, x, y, d) by {
        lemma_field_below(g, f, seed, op, w, h, dd, x, y, d);
    }
}

/// Each level of one light field is at most the level of another field of the same seed, by
/// induction on how far the level lies below the maximum.
proof fn lemma_field_below(
    f: Seq<u8>,
    g: Seq<u8>,
    seed: spec_fn(int, int, int) -> int,
    op: Seq<u8>,
    w: int,
    h: int,
    dd: int,
    x: int,
    y: int,
    d: int,
)
    requires
        light_field(f, seed, op, w, h, dd),
        light_field(g, seed, op, w, h, dd),
        in_box(w, h, dd, x, y, d),
    ensures
        val(f, w, h, x, y, d) <= val(g, w, h, x, y, d),
    decreases MAX_LIGHT_LEVEL - val(f, w, h, x, y, d),
{
    assert(justified(f, seed, op, w, h, dd, x, y, d));
    assert(seed(x, y, d) <= val(g, w, h, x, y, d));
    assert(val(f, w, h, x, y, d) <= MAX_LIGHT_LEVEL);
    if val(f, w, h, x, y, d) != seed(x, y, d) {
        let k = choose|k: int|
            0 <= k < 6 && in_box(w, h, dd, #[trigger] nbx(x, k), nby(y, k), nbd(d, k)) && val(
                f,
                w,
                h,
                x,
                y,
                d,
            ) + 1 + val(op, w, h, x, y, d) <= val(f, w, h, nbx(x, k), nby(y, k), nbd(d, k));
        let (nx, ny, nd) = (nbx(x, k), nby(y, k), nbd(d, k));
        assert(val(f, w, h, nx, ny, nd) <= MAX_LIGHT_LEVEL);
        lemma_field_below(f, g, seed, op, w, h, dd, nx, ny, nd);
        // g does not leak past its neighbour towards (x, y, d).
        assert(nbrs_ok(g, op, w, h, dd, nx, ny, nd));
        let back = opposite(k);
        assert(nbx(nx, back) == x && nby(ny, back) == y && nbd(nd, back) == d);
        assert(0 <= back < 6);
    }
}

} // verus!

verus! {

/// Remaining room below the maximum level, summed over all cells.
pub open spec fn headroom(v: Seq<u8>) -> int
    decreases v.len(),
{
    if v.len() == 0 {
        0
    } else {
        headroom(v.drop_last()) + (MAX_LIGHT_LEVEL - v.last())
    }
}

proof fn lemma_headroom_update(v: Seq<u8>, i: int, value: u8)
    requires
        0 <= i < v.len(),
    ensures
        headroom(v.update(i, value)) == headroom(v) - (value - v[i]),
    decreases v.len(),
{
    let u = v.update(i, value);
    if i < v.len() - 1 {
        assert(u.drop_last() =~= v.drop_last().update(i, value));
        lemma_headroom_update(v.drop_last(), i, value);
    } else {
        assert(u.drop_last() =~= v.drop_last());
    }
}

proof fn lemma_headroom_nonneg(v: Seq<u8>)
    requires
        forall|i: int| 0 <= i < v.len() ==> v[i] <= MAX_LIGHT_LEVEL,
    ensures
        headroom(v) >= 0,
    decreases v.len(),
{
    if v.len() > 0 {
        lemma_headroom_nonneg(v.drop_last());
    }
}

/// A queued cell with the level it spreads.
pub type LightEntry = (usize, usize, usize, u8);

/// The queue holds, at or after `head`, an entry for cell `(x, y, d)` with `level`.
pub open spec fn pending(queue: Seq<LightEntry>, head: int, x: int, y: int, d: int, level: int) -> bool {
    exists|q: int|
        head <= q < queue.len() && #[trigger] queue[q] == (x as usize, y as usize, d as usize, level as u8)
}

fn neighbor(x: usize, y: usize, d: usize, k: usize, w: usize, h: usize, dd: usize) -> (result: Option<
    (usize, usize, usize),
>)
    requires
        in_box(w as int, h as int, dd as int, x as int, y as int, d as int),
        k < 6,
    ensures
        result is Some <==> in_box(
            w as int,
            h as int,
            dd as int,
            nbx(x as int, k as int),
            nby(y as int, k as int),
            nbd(d as int, k as int),
        ),
        result matches Some(t) ==> t.0 == nbx(x as int, k as int) && t.1 == nby(y as int, k as int)
            && t.2 == nbd(d as int, k as int),
{
    if k == 0 {
        if x + 1 < w {
            Some((x + 1, y, d))
        } else {
            None
        }
    } else if k == 1 {
        if x > 0 {
            Some((x - 1, y, d))
        } else {
            None
        }
    } else if k == 2 {
        if y + 1 < h {
            Some((x, y + 1, d))
        } else {
            None
        }
    } else if k == 3 {
        if y > 0 {
            Some((x, y - 1, d))
        } else {
            None
        }
    } else if k == 4 {
        if d + 1 < dd {
            Some((x, y, d + 1))
        } else {
            None
        }
    } else {
        if d > 0 {
            Some((x, y, d - 1))
        } else {
            None
        }
    }
}

fn cell_position(x: usize, y: usize, d: usize, w: usize, h: usize, dd: usize) -> (result: usize)
    requires
        in_box(w as int, h as int, dd as int, x as int, y as int, d as int),
        w * h * dd <= usize::MAX,
    ensures
        result == idx(w as int, h as int, x as int, y as int, d as int),
        result < w * h * dd,
{
    proof {
        lemma_idx_bounds(w as int, h as int, dd as int, x as int, y as int, d as int);
        let (wi, hi, di, xi, yi, dj) = (w as int, h as int, dd as int, x as int, y as int, d as int);
        assert(dj * hi <= (dj * hi + yi) * wi) by (nonlinear_arith)
            requires
                0 <= yi,
                0 <= dj,
                0 <= hi,
                1 <= wi,
        ;
        assert(dj * hi + yi <= (dj * hi + yi) * wi) by (nonlinear_arith)
            requires
                0 <= yi,
                0 <= dj,
                0 <= hi,
                1 <= wi,
        ;
    }
    let row = d * h;
    let plane_row = row + y;
    let start = plane_row * w;
    start + x
}

/// The part of the flood's loop invariant that holds at every step.
pub open spec fn flood_state(
    f: Seq<u8>,
    op: Seq<u8>,
    seed: spec_fn(int, int, int) -> int,
    queue: Seq<LightEntry>,
    w: int,
    h: int,
    dd: int,
) -> bool {
    &&& f.len() == w * h * dd
    &&& op.len() == w * h * dd
    &&& forall|i: int| 0 <= i < f.len() ==> f[i] <= MAX_LIGHT_LEVEL
    &&& forall|x: int, y: int, d: int|
        in_box(w, h, dd, x, y, d) ==> seed(x, y, d) <= #[trigger] val(f, w, h, x, y, d)
    &&& forall|x: int, y: int, d: int|
        in_box(w, h, dd, x, y, d) ==> #[trigger] justified(f, seed, op, w, h, dd, x, y, d)
    &&& forall|q: int|
        0 <= q < queue.len() ==> {
            let e = #[trigger] queue[q];
            &&& in_box(w, h, dd, e.0 as int, e.1 as int, e.2 as int)
            &&& e.3 as int <= val(f, w, h, e.0 as int, e.1 as int, e.2 as int)
        }
}

/// A cell either leaks nowhere or still waits in the queue with its current level.
pub open spec fn covered(
    f: Seq<u8>,
    op: Seq<u8>,
    queue: Seq<LightEntry>,
    head: int,
    w: int,
    h: int,
    dd: int,
    x: int,
    y: int,
    d: int,
) -> bool {
    nbrs_ok(f, op, w, h, dd, x, y, d) || pending(queue, head, x, y, d, val(f, w, h, x, y, d))
}

/// Raising one neighbour of the cell being processed keeps the flood's invariant.
proof fn lemma_raise(
    old_f: Seq<u8>,
    f: Seq<u8>,
    op: Seq<u8>,
    seed: spec_fn(int, int, int) -> int,
    old_queue: Seq<LightEntry>,
    queue: Seq<LightEntry>,
    head: int,
    w: int,
    h: int,
    dd: int,
    cx: int,
    cy: int,
    cd: int,
    k: int,
    level: int,
    p: u8,
)
    requires
        flood_state(old_f, op, seed, old_queue, w, h, dd),
        in_box(w, h, dd, cx, cy, cd),
        level <= val(old_f, w, h, cx, cy, cd),
        0 <= k < 6,
        in_box(w, h, dd, nbx(cx, k), nby(cy, k), nbd(cd, k)),
        p as int + 1 + val(op, w, h, nbx(cx, k), nby(cy, k), nbd(cd, k)) == level,
        p as int > val(old_f, w, h, nbx(cx, k), nby(cy, k), nbd(cd, k)),
        f == old_f.update(idx(w, h, nbx(cx, k), nby(cy, k), nbd(cd, k)), p),
        queue == old_queue.push(
            (nbx(cx, k) as usize, nby(cy, k) as usize, nbd(cd, k) as usize, p),
        ),
        0 <= head <= old_queue.len(),
        w <= usize::MAX && h <= usize::MAX && dd <= usize::MAX,
    ensures
        flood_state(f, op, seed, queue, w, h, dd),
        headroom(f) < headroom(old_f),
        val(f, w, h, cx, cy, cd) == val(old_f, w, h, cx, cy, cd),
        covered(f, op, queue, head, w, h, dd, nbx(cx, k), nby(cy, k), nbd(cd, k)),
        val(f, w, h, nbx(cx, k), nby(cy, k), nbd(cd, k)) + 1 + val(
            op,
            w,
            h,
            nbx(cx, k),
            nby(cy, k),
            nbd(cd, k),
        ) >= level,
        forall|x: int, y: int, d: int|
            in_box(w, h, dd, x, y, d) && !(x == nbx(cx, k) && y == nby(cy, k) && d == nbd(cd, k))
                ==> #[trigger] val(f, w, h, x, y, d) == val(old_f, w, h, x, y, d),
        forall|x: int, y: int, d: int|
            in_box(w, h, dd, x, y, d) ==> #[trigger] val(old_f, w, h, x, y, d) <= val(f, w, h, x, y, d),
        forall|x: int, y: int, d: int|
            in_box(w, h, dd, x, y, d) && !(x == nbx(cx, k) && y == nby(cy, k) && d == nbd(cd, k))
                && covered(old_f, op, old_queue, head, w, h, dd, x, y, d) ==> #[trigger] covered(
                f,
                op,
                queue,
                head,
                w,
                h,
                dd,
                x,
                y,
                d,
            ),
{
    let (nx, ny, nd) = (nbx(cx, k), nby(cy, k), nbd(cd, k));
    let i = idx(w, h, nx, ny, nd);
    lemma_idx_bounds(w, h, dd, nx, ny, nd);
    lemma_idx_bounds(w, h, dd, cx, cy, cd);
    lemma_headroom_update(old_f, i, p);
    assert forall|x: int, y: int, d: int|
        in_box(w, h, dd, x, y, d) && !(x == nx && y == ny && d == nd) implies #[trigger] val(
        f,
        w,
        h,
        x,
        y,
        d,
    ) == val(old_f, w, h, x, y, d) by {
        lemma_idx_bounds(w, h, dd, x, y, d);
        if idx(w, h, x, y, d) == i {
            lemma_idx_injective(w, h, dd, x, y, d, nx, ny, nd);
        }
    }
    assert forall|x: int, y: int, d: int| in_box(w, h, dd, x, y, d) implies #[trigger] val(
        old_f,
        w,
        h,
        x,
        y,
        d,
    ) <= val(f, w, h, x, y, d) by {
        if x == nx && y == ny && d == nd {
        } else {
            assert(val(f, w, h, x, y, d) == val(old_f, w, h, x, y, d));
        }
    }
    assert(val(f, w, h, nx, ny, nd) == p);
    assert(!(nx == cx && ny == cy && nd == cd));
    let back = opposite(k);
    assert(nbx(nx, back) == cx && nby(ny, back) == cy && nbd(nd, back) == cd);
    assert(0 <= back < 6);
    assert(pending(queue, head, nx, ny, nd, p as int)) by {
        assert(queue[old_queue.len() as int] == (nx as usize, ny as usize, nd as usize, p));
    }
    assert forall|q: int| 0 <= q < queue.len() implies {
        let e = #[trigger] queue[q];
        &&& in_box(w, h, dd, e.0 as int, e.1 as int, e.2 as int)
        &&& e.3 as int <= val(f, w, h, e.0 as int, e.1 as int, e.2 as int)
    } by {
        if q < old_queue.len() {
            assert(queue[q] == old_queue[q]);
            let e = queue[q];
            assert(val(old_f, w, h, e.0 as int, e.1 as int, e.2 as int) <= val(
                f,
                w,
                h,
                e.0 as int,
                e.1 as int,
                e.2 as int,
            ));
        }
    }
    assert forall|j: int| 0 <= j < f.len() implies f[j] <= MAX_LIGHT_LEVEL by {
        if j != i {
            assert(f[j] == old_f[j]);
        }
    }
    assert forall|x: int, y: int, d: int| in_box(w, h, dd, x, y, d) implies seed(x, y, d)
        <= #[trigger] val(f, w, h, x, y, d) by {
        assert(val(old_f, w, h, x, y, d) <= val(f, w, h, x, y, d));
    }
    assert forall|x: int, y: int, d: int| in_box(w, h, dd, x, y, d) implies #[trigger] justified(
        f,
        seed,
        op,
        w,
        h,
        dd,
        x,
        y,
        d,
    ) by {
        if x == nx && y == ny && d == nd {
            assert(in_box(w, h, dd, nbx(x, back), nby(y, back), nbd(d, back)));
            assert(val(f, w, h, cx, cy, cd) == val(old_f, w, h, cx, cy, cd));
        } else {
            assert(justified(old_f, seed, op, w, h, dd, x, y, d));
            assert(val(f, w, h, x, y, d) == val(old_f, w, h, x, y, d));
            if val(old_f, w, h, x, y, d) != seed(x, y, d) {
                let kk = choose|kk: int|
                    0 <= kk < 6 && in_box(w, h, dd, #[trigger] nbx(x, kk), nby(y, kk), nbd(d, kk))
                        && val(old_f, w, h, x, y, d) + 1 + val(op, w, h, x, y, d) <= val(
                        old_f,
                        w,
                        h,
                        nbx(x, kk),
                        nby(y, kk),
                        nbd(d, kk),
                    );
                assert(val(old_f, w, h, nbx(x, kk), nby(y, kk), nbd(d, kk)) <= val(
                    f,
                    w,
                    h,
                    nbx(x, kk),
                    nby(y, kk),
                    nbd(d, kk),
                ));
            }
        }
    }
    assert forall|x: int, y: int, d: int|
        in_box(w, h, dd, x, y, d) && !(x == nx && y == ny && d == nd) && covered(
            old_f,
            op,
            old_queue,
            head,
            w,
            h,
            dd,
            x,
            y,
            d,
        ) implies #[trigger] covered(f, op, queue, head, w, h, dd, x, y, d) by {
        assert(val(f, w, h, x, y, d) == val(old_f, w, h, x, y, d));
        if nbrs_ok(old_f, op, w, h, dd, x, y, d) {
            assert forall|kk: int|
                0 <= kk < 6 && in_box(w, h, dd, #[trigger] nbx(x, kk), nby(y, kk), nbd(d, kk))
                implies val(f, w, h, nbx(x, kk), nby(y, kk), nbd(d, kk)) + 1 + val(
                op,
                w,
                h,
                nbx(x, kk),
                nby(y, kk),
                nbd(d, kk),
            ) >= val(f, w, h, x, y, d) by {
                assert(val(old_f, w, h, nbx(x, kk), nby(y, kk), nbd(d, kk)) <= val(
                    f,
                    w,
                    h,
                    nbx(x, kk),
                    nby(y, kk),
                    nbd(d, kk),
                ));
            }
        } else {
            let q = choose|q: int|
                head <= q < old_queue.len() && #[trigger] old_queue[q] == (
                    x as usize,
                    y as usize,
                    d as usize,
                    val(old_f, w, h, x, y, d) as u8,
                );
            assert(queue[q] == old_queue[q]);
        }
    }
}

/// Floods light out of the queued seeds until no cell can raise a neighbour any more.
fn flood(
    f: &mut Vec<u8>,
    op: &Vec<u8>,
    w: usize,
    h: usize,
    dd: usize,
    queue: Vec<LightEntry>,
    Ghost(seed): Ghost<spec_fn(int, int, int) -> int>,
)
    requires
        w * h * dd <= usize::MAX,
        flood_state(old(f)@, op@, seed, queue@, w as int, h as int, dd as int),
        forall|x: int, y: int, d: int|
            in_box(w as int, h as int, dd as int, x, y, d) ==> #[trigger] covered(
                old(f)@,
                op@,
                queue@,
                0,
                w as int,
                h as int,
                dd as int,
                x,
                y,
                d,
            ),
    ensures
        light_field(final(f)@, seed, op@, w as int, h as int, dd as int),
{
    let ghost wi = w as int;
    let ghost hi = h as int;
    let ghost di = dd as int;
    let mut queue = queue;
    let mut head: usize = 0;
    proof {
        lemma_headroom_nonneg(f@);
    }
    while head < queue.len()
        invariant
            wi == w && hi == h && di == dd,
            w * h * dd <= usize::MAX,
            head <= queue@.len(),
            flood_state(f@, op@, seed, queue@, wi, hi, di),
            forall|x: int, y: int, d: int|
                in_box(wi, hi, di, x, y, d) ==> #[trigger] covered(
                    f@,
                    op@,
                    queue@,
                    head as int,
                    wi,
                    hi,
                    di,
                    x,
                    y,
                    d,
                ),
        decreases headroom(f@), queue@.len() - head,
    {
        let entry = queue[head];
        let (x, y, d, level) = entry;
        let ghost h0 = headroom(f@);
        let ghost q0 = queue@.len();
        let ghost head0 = head as int;
        let ghost xi = x as int;
        let ghost yi = y as int;
        let ghost dj = d as int;
        let ghost fc = val(f@, wi, hi, xi, yi, dj);
        proof {
            assert(queue@[head0] == entry);
            lemma_headroom_nonneg(f@);
            lemma_idx_bounds(wi, hi, di, xi, yi, dj);
            assert(fc <= MAX_LIGHT_LEVEL);
            // Entries other than the one being taken stay pending.
            assert forall|x: int, y: int, d: int|
                in_box(wi, hi, di, x, y, d) && !(x == xi && y == yi && d == dj && level as int
                    == val(f@, wi, hi, x, y, d)) implies #[trigger] covered(
                f@,
                op@,
                queue@,
                head0 + 1,
                wi,
                hi,
                di,
                x,
                y,
                d,
            ) by {
                assert(covered(f@, op@, queue@, head0, wi, hi, di, x, y, d));
                if !nbrs_ok(f@, op@, wi, hi, di, x, y, d) {
                    let q = choose|q: int|
                        head0 <= q < queue@.len() && #[trigger] queue@[q] == (
                            x as usize,
                            y as usize,
                            d as usize,
                            val(f@, wi, hi, x, y, d) as u8,
                        );
                    if q == head0 {
                        lemma_idx_bounds(wi, hi, di, x, y, d);
                        assert(false);
                    }
                }
            }
        }
        head += 1;
        if level > 1 {
            let mut k: usize = 0;
            while k < 6
                invariant
                    wi == w && hi == h && di == dd,
                    w * h * dd <= usize::MAX,
                    head as int == head0 + 1,
                    head <= queue@.len(),
                    k <= 6,
                    2 <= level <= fc,
                    in_box(wi, hi, di, xi, yi, dj),
                    xi == x && yi == y && dj == d,
                    val(f@, wi, hi, xi, yi, dj) == fc,
                    headroom(f@) <= h0,
                    headroom(f@) < h0 || queue@.len() == q0,
                    flood_state(f@, op@, seed, queue@, wi, hi, di),
                    forall|x: int, y: int, d: int|
                        in_box(wi, hi, di, x, y, d) && !(x == xi && y == yi && d == dj && level as int
                            == val(f@, wi, hi, x, y, d)) ==> #[trigger] covered(
                            f@,
                            op@,
                            queue@,
                            head as int,
                            wi,
                            hi,
                            di,
                            x,
                            y,
                            d,
                        ),
                    forall|j: int|
                        0 <= j < k && in_box(wi, hi, di, #[trigger] nbx(xi, j), nby(yi, j), nbd(dj, j))
                            ==> val(f@, wi, hi, nbx(xi, j), nby(yi, j), nbd(dj, j)) + 1 + val(
                            op@,
                            wi,
                            hi,
                            nbx(xi, j),
                            nby(yi, j),
                            nbd(dj, j),
                        ) >= level,
                decreases 6 - k,
            {
                if let Some((nx, ny, nd)) = neighbor(x, y, d, k, w, h, dd) {
                    let i = cell_position(nx, ny, nd, w, h, dd);
                    let propagated = level.saturating_sub(1u8.saturating_add(op[i]));
                    if propagated > f[i] {
                        let ghost old_f = f@;
                        let ghost old_queue = queue@;
                        f.set(i, propagated);
                        queue.push((nx, ny, nd, propagated));
                        proof {
                            lemma_raise(
                                old_f,
                                f@,
                                op@,
                                seed,
                                old_queue,
                                queue@,
                                head as int,
                                wi,
                                hi,
                                di,
                                xi,
                                yi,
                                dj,
                                k as int,
                                level as int,
                                propagated,
                            );
                            assert forall|j: int|
                                0 <= j < k + 1 && in_box(wi, hi, di, #[trigger] nbx(xi, j), nby(yi, j), nbd(dj, j))
                                    implies val(f@, wi, hi, nbx(xi, j), nby(yi, j), nbd(dj, j)) + 1 + val(
                                op@,
                                wi,
                                hi,
                                nbx(xi, j),
                                nby(yi, j),
                                nbd(dj, j),
                            ) >= level by {
                                if j < k {
                                    assert(val(old_f, wi, hi, nbx(xi, j), nby(yi, j), nbd(dj, j)) <= val(
                                        f@,
                                        wi,
                                        hi,
                                        nbx(xi, j),
                                        nby(yi, j),
                                        nbd(dj, j),
                                    ));
                                }
                            }
                        }
                    } else {
                        proof {
                            lemma_idx_bounds(wi, hi, di, nx as int, ny as int, nd as int);
                        }
                    }
                }
                k += 1;
            }
        }
        proof {
            lemma_headroom_nonneg(f@);
            if level as int == fc {
                assert forall|kk: int|
                    0 <= kk < 6 && in_box(wi, hi, di, #[trigger] nbx(xi, kk), nby(yi, kk), nbd(dj, kk))
                    implies val(f@, wi, hi, nbx(xi, kk), nby(yi, kk), nbd(dj, kk)) + 1 + val(
                    op@,
                    wi,
                    hi,
                    nbx(xi, kk),
                    nby(yi, kk),
                    nbd(dj, kk),
                ) >= val(f@, wi, hi, xi, yi, dj) by {
                    lemma_idx_bounds(wi, hi, di, nbx(xi, kk), nby(yi, kk), nbd(dj, kk));
                }
                assert(covered(f@, op@, queue@, head as int, wi, hi, di, xi, yi, dj));
            }
        }
    }
    proof {
        assert forall|x: int, y: int, d: int| in_box(wi, hi, di, x, y, d) implies #[trigger] nbrs_ok(
            f@,
            op@,
            wi,
            hi,
            di,
            x,
            y,
            d,
        ) by {
            assert(covered(f@, op@, queue@, head as int, wi, hi, di, x, y, d));
        }
        assert forall|x: int, y: int, d: int| in_box(wi, hi, di, x, y, d) implies {
            &&& seed(x, y, d) <= #[trigger] val(f@, wi, hi, x, y, d)
            &&& val(f@, wi, hi, x, y, d) <= MAX_LIGHT_LEVEL
        } by {
            lemma_idx_bounds(wi, hi, di, x, y, d);
        }
    }
}

} // verus!

verus! {

/// How much light a cell's content absorbs; air absorbs none.
pub open spec fn opacity_of(sample: Option<BlockState>) -> u8 {
    match sample {
        Some(state) => id_def(state_id(state)).light_opacity,
        None => 0,
    }
}

/// How much light a cell's content emits, at most `MAX_LIGHT_LEVEL`.
pub open spec fn emission_of(sample: Option<BlockState>) -> u8 {
    match sample {
        Some(state) => if id_def(state_id(state)).emitted_light < MAX_LIGHT_LEVEL {
            id_def(state_id(state)).emitted_light
        } else {
            MAX_LIGHT_LEVEL
        },
        None => 0,
    }
}

/// Direct sky light at a cell: full light above the volume, reduced by the opacity of every
/// cell from the top of the column down to this one, never below zero.
pub open spec fn sky_level(op: Seq<u8>, w: int, h: int, x: int, y: int, d: int) -> int
    decreases h - y,
{
    if y >= h {
        MAX_LIGHT_LEVEL as int
    } else {
        let above = sky_level(op, w, h, x, y + 1, d);
        if above - val(op, w, h, x, y, d) <= 0 {
            0
        } else {
            above - val(op, w, h, x, y, d)
        }
    }
}

proof fn lemma_sky_level_bounds(op: Seq<u8>, w: int, h: int, x: int, y: int, d: int)
    ensures
        0 <= sky_level(op, w, h, x, y, d) <= MAX_LIGHT_LEVEL,
    decreases h - y,
{
    if y < h {
        lemma_sky_level_bounds(op, w, h, x, y + 1, d);
    }
}

/// The lit volume of a horizontal range of columns: sky and block light for every cell
/// `(x, y, depth)` with `min_x <= x < min_x + width`, `0 <= y < height` and
/// `depth < depth_slices`.
#[derive(Debug, Clone, PartialEq, Eq)]
pub struct LightVolume {
    min_x: i64,
    width: usize,
    height: i32,
    depth_slices: u8,
    sky: Vec<u8>,
    block: Vec<u8>,
}

impl LightVolume {
    pub closed spec fn spec_min_x(&self) -> i64 {
        self.min_x
    }

    pub closed spec fn spec_width(&self) -> usize {
        self.width
    }

    pub closed spec fn spec_height(&self) -> i32 {
        self.height
    }

    pub closed spec fn spec_depth_slices(&self) -> u8 {
        self.depth_slices
    }

    /// Sky light per cell, in the volume's cell order.
    pub closed spec fn spec_sky(&self) -> Seq<u8> {
        self.sky@
    }

    /// Block light per cell, in the volume's cell order.
    pub closed spec fn spec_block(&self) -> Seq<u8> {
        self.block@
    }

    /// The number of cells.
    pub open spec fn cell_count(&self) -> int {
        self.spec_width() * self.spec_height() * self.spec_depth_slices()
    }

    /// Dimensions are non-negative, the cell count fits in memory and both channels hold one
    /// level per cell.
    pub open spec fn wf(&self) -> bool {
        &&& self.spec_height() >= 0
        &&& self.spec_width() <= i64::MAX
        &&& self.spec_min_x() + self.spec_width() <= i64::MAX
        &&& self.cell_count() <= usize::MAX
        &&& self.spec_sky().len() == self.cell_count()
        &&& self.spec_block().len() == self.cell_count()
    }

    /// The light at a position; cells outside the volume are dark.
    pub open spec fn light_at(&self, x: int, y: int, depth: int) -> LightCell {
        let (w, h, dd) = (
            self.spec_width() as int,
            self.spec_height() as int,
            self.spec_depth_slices() as int,
        );
        let local = x - self.spec_min_x();
        if in_box(w, h, dd, local, y, depth) {
            LightCell {
                sky: self.spec_sky()[idx(w, h, local, y, depth)],
                block: self.spec_block()[idx(w, h, local, y, depth)],
            }
        } else {
            LightCell { sky: 0, block: 0 }
        }
    }

    /// The volume is the light of the given samples: sky light floods from the direct sky
    /// light of each column, block light from the emission of each block, and both are
    /// absorbed by the opacity of the cells they enter.
    pub open spec fn lights(&self, samples: Seq<Option<BlockState>>) -> bool {
        let (w, h, dd) = (
            self.spec_width() as int,
            self.spec_height() as int,
            self.spec_depth_slices() as int,
        );
        let op = samples.map_values(|s: Option<BlockState>| opacity_of(s));
        let emission = samples.map_values(|s: Option<BlockState>| emission_of(s));
        &&& samples.len() == self.cell_count()
        &&& light_field(
            self.spec_sky(),
            |x: int, y: int, d: int| sky_level(op, w, h, x, y, d),
            op,
            w,
            h,
            dd,
        )
        &&& light_field(
            self.spec_block(),
            |x: int, y: int, d: int| val(emission, w, h, x, y, d),
            op,
            w,
            h,
            dd,
        )
    }

    /// The laws of a lit volume, cell by cell: every level is at most `MAX_LIGHT_LEVEL`; sky
    /// light is at least the direct sky light of the cell and block light at least the cell's
    /// emission; and light never drops by more than one, plus the opacity of the cell entered,
    /// from a cell to any of its six neighbours inside the volume.
    pub proof fn lemma_lit_cells(&self, samples: Seq<Option<BlockState>>)
        requires
            self.wf(),
            self.lights(samples),
        ensures
            ({
                let (w, h, dd) = (
                    self.spec_width() as int,
                    self.spec_height() as int,
                    self.spec_depth_slices() as int,
                );
                let op = samples.map_values(|s: Option<BlockState>| opacity_of(s));
                let m = self.spec_min_x() as int;
                &&& forall|x: int, y: int, d: int|
                    in_box(w, h, dd, x, y, d) ==> {
                        let c = #[trigger] self.light_at(m + x, y, d);
                        &&& sky_level(op, w, h, x, y, d) <= c.sky <= MAX_LIGHT_LEVEL
                        &&& emission_of(samples[idx(w, h, x, y, d)]) <= c.block <= MAX_LIGHT_LEVEL
                    }
                &&& forall|x: int, y: int, d: int, k: int|
                    in_box(w, h, dd, x, y, d) && 0 <= k < 6 && in_box(w, h, dd, nbx(x, k), nby(y, k), nbd(d, k)) ==> {
                        let c = #[trigger] self.light_at(m + x, y, d);
                        let n = #[trigger] self.light_at(m + nbx(x, k), nby(y, k), nbd(d, k));
                        let o = val(op, w, h, nbx(x, k), nby(y, k), nbd(d, k));
                        &&& n.sky + 1 + o >= c.sky
                        &&& n.block + 1 + o >= c.block
                    }
            }),
    {
        let (w, h, dd) = (self.spec_width() as int, self.spec_height() as int, self.spec_depth_slices() as int);
        let op = samples.map_values(|s: Option<BlockState>| opacity_of(s));
        let emission = samples.map_values(|s: Option<BlockState>| emission_of(s));
        let m = self.spec_min_x() as int;
        assert forall|x: int, y: int, d: int| in_box(w, h, dd, x, y, d) implies {
            let c = #[trigger] self.light_at(m + x, y, d);
            &&& sky_level(op, w, h, x, y, d) <= c.sky <= MAX_LIGHT_LEVEL
            &&& emission_of(samples[idx(w, h, x, y, d)]) <= c.block <= MAX_LIGHT_LEVEL
        } by {
            lemma_idx_bounds(w, h, dd, x, y, d);
            assert(m + x - m == x);
            let sf = self.spec_sky();
            let bf = self.spec_block();
            assert(sf[idx(w, h, x, y, d)] as int == val(sf, w, h, x, y, d));
            assert(val(sf, w, h, x, y, d) <= MAX_LIGHT_LEVEL);
            assert(val(bf, w, h, x, y, d) <= MAX_LIGHT_LEVEL);
            assert(val(emission, w, h, x, y, d) <= val(bf, w, h, x, y, d));
            assert(sky_level(op, w, h, x, y, d) <= val(sf, w, h, x, y, d));
            assert(val(self.spec_sky(), w, h, x, y, d) == self.light_at(m + x, y, d).sky);
            assert(val(emission, w, h, x, y, d) == emission_of(samples[idx(w, h, x, y, d)]));
        }
        assert forall|x: int, y: int, d: int, k: int|
            in_box(w, h, dd, x, y, d) && 0 <= k < 6 && in_box(w, h, dd, nbx(x, k), nby(y, k), nbd(d, k)) implies {
            let c = #[trigger] self.light_at(m + x, y, d);
            let n = #[trigger] self.light_at(m + nbx(x, k), nby(y, k), nbd(d, k));
            let o = val(op, w, h, nbx(x, k), nby(y, k), nbd(d, k));
            &&& n.sky + 1 + o >= c.sky
            &&& n.block + 1 + o >= c.block
        } by {
            assert(nbrs_ok(self.spec_sky(), op, w, h, dd, x, y, d));
            assert(nbrs_ok(self.spec_block(), op, w, h, dd, x, y, d));
            assert(m + nbx(x, k) - m == nbx(x, k));
        }
    }

    /// The volume without cells.
    pub fn empty() -> (result: LightVolume)
        ensures
            result.wf(),
            result.cell_count() == 0,
            result.spec_min_x() == 0 && result.spec_width() == 0 && result.spec_height() == 0
                && result.spec_depth_slices() == 0,
    {
        LightVolume { min_x: 0, width: 0, height: 0, depth_slices: 0, sky: Vec::new(), block: Vec::new() }
    }

    /// The light at a position; `LightCell::default()` outside the volume.
    pub fn get(&self, x: i64, y: i32, depth: u8) -> (result: LightCell)
        requires
            self.wf(),
        ensures
            result == self.light_at(x as int, y as int, depth as int),
    {
        match self.index(x, y, depth) {
            Some(index) => LightCell { sky: self.sky[index], block: self.block[index] },
            None => LightCell { sky: 0, block: 0 },
        }
    }

    /// One past the last column, saturating at `i64::MAX`.
    pub fn max_x_exclusive(&self) -> (result: i64)
        requires
            self.wf(),
        ensures
            result == self.spec_min_x() + self.spec_width(),
    {
        self.min_x + self.width as i64
    }

    fn index(&self, x: i64, y: i32, depth: u8) -> (result: Option<usize>)
        requires
            self.wf(),
        ensures
            ({
                let (w, h, dd) = (
                    self.spec_width() as int,
                    self.spec_height() as int,
                    self.spec_depth_slices() as int,
                );
                let local = x - self.spec_min_x();
                &&& result is Some <==> in_box(w, h, dd, local, y as int, depth as int)
                &&& result matches Some(i) ==> i == idx(w, h, local, y as int, depth as int) && i
                    < self.cell_count()
            }),
    {
        if x < self.min_x || x >= self.max_x_exclusive() || y < 0 || y >= self.height || depth
            >= self.depth_slices {
            None
        } else {
            let local = (x - self.min_x) as usize;
            let h = self.height as usize;
            Some(cell_position(local, y as usize, depth as usize, self.width, h, self.depth_slices as usize))
        }
    }
}

} // verus!

verus! {

proof fn lemma_idx_next_row(w: int, h: int, y: int, d: int)
    ensures
        idx(w, h, 0, y + 1, d) == idx(w, h, w, y, d),
        idx(w, h, 0, 0, d + 1) == idx(w, h, 0, h, d),
{
    assert((d * h + y + 1) * w == (d * h + y) * w + w) by (nonlinear_arith);
    assert((d + 1) * h == d * h + h) by (nonlinear_arith);
}

proof fn lemma_idx_end(w: int, h: int, dd: int)
    ensures
        idx(w, h, 0, 0, dd) == w * h * dd,
{
    assert((dd * h) * w == w * h * dd) by (nonlinear_arith);
}

/// Samples every cell of the volume, in cell order.
fn sample_cells<F: Fn(i64, i32, u8) -> Option<BlockState>>(
    min_x: i64,
    w: usize,
    h: usize,
    dd: usize,
    sample_voxel: &F,
) -> (samples: Vec<Option<BlockState>>)
    requires
        w * h * dd <= usize::MAX,
        w <= i64::MAX,
        min_x + w <= i64::MAX,
        h <= i32::MAX,
        dd <= u8::MAX,
        forall|x: i64, y: i32, d: u8|
                min_x <= x < min_x + w && 0 <= y < h && d < dd ==> #[trigger] sample_voxel.requires((x, y, d)),
    ensures
        samples@.len() == w * h * dd,
        forall|x: int, y: int, d: int|
            in_box(w as int, h as int, dd as int, x, y, d) ==> sample_voxel.ensures(
                ((min_x + x) as i64, y as i32, d as u8),
                #[trigger] samples@[idx(w as int, h as int, x, y, d)],
            ),
{
    let ghost (wi, hi, di) = (w as int, h as int, dd as int);
    let mut samples: Vec<Option<BlockState>> = Vec::new();
    proof {
        assert(idx(wi, hi, 0, 0, 0) == 0) by (nonlinear_arith);
    }
    let mut d: usize = 0;
    while d < dd
        invariant
            wi == w && hi == h && di == dd,
            w * h * dd <= usize::MAX,
            w <= i64::MAX,
            min_x + w <= i64::MAX,
            h <= i32::MAX,
            dd <= u8::MAX,
            forall|x: i64, y: i32, d: u8|
                min_x <= x < min_x + w && 0 <= y < h && d < dd ==> #[trigger] sample_voxel.requires((x, y, d)),
            d <= dd,
            samples@.len() == idx(wi, hi, 0, 0, d as int),
            forall|x: int, y: int, dz: int|
                in_box(wi, hi, di, x, y, dz) && idx(wi, hi, x, y, dz) < samples@.len()
                    ==> sample_voxel.ensures(
                    ((min_x + x) as i64, y as i32, dz as u8),
                    #[trigger] samples@[idx(wi, hi, x, y, dz)],
                ),
        decreases dd - d,
    {
        let mut y: usize = 0;
        while y < h
            invariant
                wi == w && hi == h && di == dd,
                w * h * dd <= usize::MAX,
                w <= i64::MAX,
                min_x + w <= i64::MAX,
                h <= i32::MAX,
                dd <= u8::MAX,
                forall|x: i64, y: i32, d: u8|
                min_x <= x < min_x + w && 0 <= y < h && d < dd ==> #[trigger] sample_voxel.requires((x, y, d)),
                d < dd,
                y <= h,
                samples@.len() == idx(wi, hi, 0, y as int, d as int),
                forall|x: int, yy: int, dz: int|
                    in_box(wi, hi, di, x, yy, dz) && idx(wi, hi, x, yy, dz) < samples@.len()
                        ==> sample_voxel.ensures(
                        ((min_x + x) as i64, yy as i32, dz as u8),
                        #[trigger] samples@[idx(wi, hi, x, yy, dz)],
                    ),
            decreases h - y,
        {
            let mut x: usize = 0;
            while x < w
                invariant
                    wi == w && hi == h && di == dd,
                    w * h * dd <= usize::MAX,
                    w <= i64::MAX,
                    min_x + w <= i64::MAX,
                    h <= i32::MAX,
                    dd <= u8::MAX,
                    forall|x: i64, y: i32, d: u8|
                min_x <= x < min_x + w && 0 <= y < h && d < dd ==> #[trigger] sample_voxel.requires((x, y, d)),
                    d < dd,
                    y < h,
                    x <= w,
                    samples@.len() == idx(wi, hi, x as int, y as int, d as int),
                    forall|xx: int, yy: int, dz: int|
                        in_box(wi, hi, di, xx, yy, dz) && idx(wi, hi, xx, yy, dz) < samples@.len()
                            ==> sample_voxel.ensures(
                            ((min_x + xx) as i64, yy as i32, dz as u8),
                            #[trigger] samples@[idx(wi, hi, xx, yy, dz)],
                        ),
                decreases w - x,
            {
                proof {
                    lemma_idx_bounds(wi, hi, di, x as int, y as int, d as int);
                }
                let sample = sample_voxel(min_x + x as i64, y as i32, d as u8);
                let ghost before = samples@;
                samples.push(sample);
                proof {
                    assert forall|xx: int, yy: int, dz: int|
                        in_box(wi, hi, di, xx, yy, dz) && idx(wi, hi, xx, yy, dz) < samples@.len()
                            implies sample_voxel.ensures(
                            ((min_x + xx) as i64, yy as i32, dz as u8),
                            #[trigger] samples@[idx(wi, hi, xx, yy, dz)],
                        ) by {
                        if idx(wi, hi, xx, yy, dz) == before.len() {
                            lemma_idx_injective(wi, hi, di, xx, yy, dz, x as int, y as int, d as int);
                        } else {
                            assert(samples@[idx(wi, hi, xx, yy, dz)] == before[idx(wi, hi, xx, yy, dz)]);
                        }
                    }
                }
                x += 1;
            }
            proof {
                lemma_idx_next_row(wi, hi, y as int, d as int);
            }
            y += 1;
        }
        proof {
            lemma_idx_next_row(wi, hi, hi, d as int);
            lemma_idx_next_row(wi, hi, 0, d as int);
            assert(idx(wi, hi, 0, hi, d as int) == idx(wi, hi, 0, 0, d as int + 1));
        }
        d += 1;
    }
    proof {
        lemma_idx_end(wi, hi, di);
        assert forall|x: int, y: int, dz: int|
            in_box(wi, hi, di, x, y, dz) implies sample_voxel.ensures(
            ((min_x + x) as i64, y as i32, dz as u8),
            #[trigger] samples@[idx(wi, hi, x, y, dz)],
        ) by {
            lemma_idx_bounds(wi, hi, di, x, y, dz);
        }
    }
    samples
}

} // verus!

verus! {

fn opacities(samples: &Vec<Option<BlockState>>) -> (result: Vec<u8>)
    ensures
        result@ == samples@.map_values(|s: Option<BlockState>| opacity_of(s)),
{
    let mut result: Vec<u8> = Vec::new();
    let mut i: usize = 0;
    while i < samples.len()
        invariant
            i <= samples@.len(),
            result@ == samples@.take(i as int).map_values(|s: Option<BlockState>| opacity_of(s)),
        decreases samples@.len() - i,
    {
        let value = match samples[i] {
            Some(state) => state.def().light_opacity,
            None => 0,
        };
        result.push(value);
        i += 1;
        proof {
            assert(result@ =~= samples@.take(i as int).map_values(|s: Option<BlockState>| opacity_of(s)));
        }
    }
    proof {
        assert(samples@.take(i as int) =~= samples@);
    }
    result
}

fn emissions(samples: &Vec<Option<BlockState>>) -> (result: Vec<u8>)
    ensures
        result@ == samples@.map_values(|s: Option<BlockState>| emission_of(s)),
{
    let mut result: Vec<u8> = Vec::new();
    let mut i: usize = 0;
    while i < samples.len()
        invariant
            i <= samples@.len(),
            result@ == samples@.take(i as int).map_values(|s: Option<BlockState>| emission_of(s)),
        decreases samples@.len() - i,
    {
        let value = match samples[i] {
            Some(state) => {
                let emitted = state.def().emitted_light;
                if emitted < MAX_LIGHT_LEVEL {
                    emitted
                } else {
                    MAX_LIGHT_LEVEL
                }
            },
            None => 0,
        };
        result.push(value);
        i += 1;
        proof {
            assert(result@ =~= samples@.take(i as int).map_values(|s: Option<BlockState>| emission_of(s)));
        }
    }
    proof {
        assert(samples@.take(i as int) =~= samples@);
    }
    result
}

fn zeros(n: usize) -> (result: Vec<u8>)
    ensures
        result@.len() == n,
        forall|i: int| 0 <= i < n ==> result@[i] == 0,
{
    let mut result: Vec<u8> = Vec::new();
    let mut i: usize = 0;
    while i < n
        invariant
            i <= n,
            result@.len() == i,
            forall|j: int| 0 <= j < i ==> result@[j] == 0,
        decreases n - i,
    {
        result.push(0);
        i += 1;
    }
    result
}

/// Whether the sky pass has reached cell `(x, y, d)` once it stands at `(cx, cy, cd)`: depth
/// slices in order, columns in order, each column from the top down.
pub open spec fn sky_done(x: int, y: int, d: int, cx: int, cy: int, cd: int) -> bool {
    d < cd || (d == cd && x < cx) || (d == cd && x == cx && y >= cy)
}

/// Direct sky light for every cell, with a queue entry for every lit cell.
fn seed_sky(op: &Vec<u8>, w: usize, h: usize, dd: usize, n: usize) -> (result: (Vec<u8>, Vec<LightEntry>))
    requires
        op@.len() == w * h * dd,
        n == w * h * dd,
    ensures
        flood_state(
            result.0@,
            op@,
            |x: int, y: int, d: int| sky_level(op@, w as int, h as int, x, y, d),
            result.1@,
            w as int,
            h as int,
            dd as int,
        ),
        forall|x: int, y: int, d: int|
            in_box(w as int, h as int, dd as int, x, y, d) ==> #[trigger] covered(
                result.0@,
                op@,
                result.1@,
                0,
                w as int,
                h as int,
                dd as int,
                x,
                y,
                d,
            ),
{
    let ghost (wi, hi, di) = (w as int, h as int, dd as int);
    let ghost seed = |x: int, y: int, d: int| sky_level(op@, wi, hi, x, y, d);
    let mut f = zeros(n);
    proof {
        assert forall|x: int, y: int, dz: int| in_box(wi, hi, di, x, y, dz) implies #[trigger] val(
            f@,
            wi,
            hi,
            x,
            y,
            dz,
        ) == 0 by {
            lemma_idx_bounds(wi, hi, di, x, y, dz);
        }
    }
    let mut queue: Vec<LightEntry> = Vec::new();
    let mut d: usize = 0;
    while d < dd
        invariant
            wi == w && hi == h && di == dd,
            op@.len() == w * h * dd,
            w * h * dd <= usize::MAX,
            f@.len() == w * h * dd,
            d <= dd,
            forall|i: int| 0 <= i < f@.len() ==> f@[i] <= MAX_LIGHT_LEVEL,
            forall|x: int, y: int, dz: int|
                in_box(wi, hi, di, x, y, dz) ==> #[trigger] val(f@, wi, hi, x, y, dz) == (if sky_done(
                    x,
                    y,
                    dz,
                    0,
                    hi,
                    d as int,
                ) {
                    sky_level(op@, wi, hi, x, y, dz)
                } else {
                    0
                }),
            forall|q: int|
                0 <= q < queue@.len() ==> {
                    let e = #[trigger] queue@[q];
                    &&& in_box(wi, hi, di, e.0 as int, e.1 as int, e.2 as int)
                    &&& e.3 as int == val(f@, wi, hi, e.0 as int, e.1 as int, e.2 as int)
                    &&& e.3 > 0
                },
            forall|x: int, y: int, dz: int|
                in_box(wi, hi, di, x, y, dz) && #[trigger] val(f@, wi, hi, x, y, dz) > 0 ==> pending(
                    queue@,
                    0,
                    x,
                    y,
                    dz,
                    val(f@, wi, hi, x, y, dz),
                ),
        decreases dd - d,
    {
        let mut x: usize = 0;
        while x < w
            invariant
                wi == w && hi == h && di == dd,
                op@.len() == w * h * dd,
                w * h * dd <= usize::MAX,
                f@.len() == w * h * dd,
                d < dd,
                x <= w,
                forall|i: int| 0 <= i < f@.len() ==> f@[i] <= MAX_LIGHT_LEVEL,
                forall|xx: int, y: int, dz: int|
                    in_box(wi, hi, di, xx, y, dz) ==> #[trigger] val(f@, wi, hi, xx, y, dz) == (if sky_done(
                        xx,
                        y,
                        dz,
                        x as int,
                        hi,
                        d as int,
                    ) {
                        sky_level(op@, wi, hi, xx, y, dz)
                    } else {
                        0
                    }),
                forall|q: int|
                    0 <= q < queue@.len() ==> {
                        let e = #[trigger] queue@[q];
                        &&& in_box(wi, hi, di, e.0 as int, e.1 as int, e.2 as int)
                        &&& e.3 as int == val(f@, wi, hi, e.0 as int, e.1 as int, e.2 as int)
                    &&& e.3 > 0
                    },
                forall|xx: int, y: int, dz: int|
                    in_box(wi, hi, di, xx, y, dz) && #[trigger] val(f@, wi, hi, xx, y, dz) > 0
                        ==> pending(queue@, 0, xx, y, dz, val(f@, wi, hi, xx, y, dz)),
            decreases w - x,
        {
            let mut level: u8 = MAX_LIGHT_LEVEL;
            let mut y: usize = h;
            while y > 0
                invariant
                    wi == w && hi == h && di == dd,
                    op@.len() == w * h * dd,
                    w * h * dd <= usize::MAX,
                    f@.len() == w * h * dd,
                    d < dd,
                    x < w,
                    y <= h,
                    level as int == sky_level(op@, wi, hi, x as int, y as int, d as int),
                    forall|i: int| 0 <= i < f@.len() ==> f@[i] <= MAX_LIGHT_LEVEL,
                    forall|xx: int, yy: int, dz: int|
                        in_box(wi, hi, di, xx, yy, dz) ==> #[trigger] val(f@, wi, hi, xx, yy, dz) == (
                        if sky_done(xx, yy, dz, x as int, y as int, d as int) {
                            sky_level(op@, wi, hi, xx, yy, dz)
                        } else {
                            0
                        }),
                    forall|q: int|
                        0 <= q < queue@.len() ==> {
                            let e = #[trigger] queue@[q];
                            &&& in_box(wi, hi, di, e.0 as int, e.1 as int, e.2 as int)
                            &&& e.3 as int == val(f@, wi, hi, e.0 as int, e.1 as int, e.2 as int)
                    &&& e.3 > 0
                        },
                    forall|xx: int, yy: int, dz: int|
                        in_box(wi, hi, di, xx, yy, dz) && #[trigger] val(f@, wi, hi, xx, yy, dz) > 0
                            ==> pending(queue@, 0, xx, yy, dz, val(f@, wi, hi, xx, yy, dz)),
                decreases y,
            {
                y -= 1;
                let i = cell_position(x, y, d, w, h, dd);
                level = level.saturating_sub(op[i]);
                proof {
                    lemma_sky_level_bounds(op@, wi, hi, x as int, y as int, d as int);
                    assert(level as int == sky_level(op@, wi, hi, x as int, y as int, d as int));
                }
                if level > 0 {
                    let ghost old_f = f@;
                    let ghost old_queue = queue@;
                    f.set(i, level);
                    queue.push((x, y, d, level));
                    proof {
                        assert forall|xx: int, yy: int, dz: int|
                            in_box(wi, hi, di, xx, yy, dz) && !(xx == x && yy == y && dz == d) implies
                            #[trigger] val(f@, wi, hi, xx, yy, dz) == val(old_f, wi, hi, xx, yy, dz) by {
                            lemma_idx_bounds(wi, hi, di, xx, yy, dz);
                            if idx(wi, hi, xx, yy, dz) == i {
                                lemma_idx_injective(wi, hi, di, xx, yy, dz, x as int, y as int, d as int);
                            }
                        }
                        assert forall|q: int| 0 <= q < queue@.len() implies {
                            let e = #[trigger] queue@[q];
                            &&& in_box(wi, hi, di, e.0 as int, e.1 as int, e.2 as int)
                            &&& e.3 as int == val(f@, wi, hi, e.0 as int, e.1 as int, e.2 as int)
                    &&& e.3 > 0
                        } by {
                            if q < old_queue.len() {
                                assert(queue@[q] == old_queue[q]);
                                let e = old_queue[q];
                                assert(val(old_f, wi, hi, e.0 as int, e.1 as int, e.2 as int) > 0);
                            }
                        }
                        assert forall|xx: int, yy: int, dz: int|
                            in_box(wi, hi, di, xx, yy, dz) && #[trigger] val(f@, wi, hi, xx, yy, dz) > 0
                            implies pending(queue@, 0, xx, yy, dz, val(f@, wi, hi, xx, yy, dz)) by {
                            if xx == x && yy == y && dz == d {
                                assert(queue@[old_queue.len() as int] == (x, y, d, level));
                            } else {
                                let q = choose|q: int|
                                    0 <= q < old_queue.len() && #[trigger] old_queue[q] == (
                                        xx as usize,
                                        yy as usize,
                                        dz as usize,
                                        val(old_f, wi, hi, xx, yy, dz) as u8,
                                    );
                                assert(queue@[q] == old_queue[q]);
                            }
                        }
                        assert forall|j: int| 0 <= j < f@.len() implies f@[j] <= MAX_LIGHT_LEVEL by {
                            if j != i {
                                assert(f@[j] == old_f[j]);
                            }
                        }
                    }
                } else {
                    proof {
                        lemma_idx_bounds(wi, hi, di, x as int, y as int, d as int);
                    }
                }
            }
            x += 1;
        }
        d += 1;
    }
    proof {
        assert forall|x: int, y: int, dz: int| in_box(wi, hi, di, x, y, dz) implies #[trigger] justified(
            f@,
            seed,
            op@,
            wi,
            hi,
            di,
            x,
            y,
            dz,
        ) by {}
        assert forall|x: int, y: int, dz: int| in_box(wi, hi, di, x, y, dz) implies seed(x, y, dz)
            <= #[trigger] val(f@, wi, hi, x, y, dz) by {}
        assert forall|q: int| 0 <= q < queue@.len() implies {
            let e = #[trigger] queue@[q];
            &&& in_box(wi, hi, di, e.0 as int, e.1 as int, e.2 as int)
            &&& e.3 as int <= val(f@, wi, hi, e.0 as int, e.1 as int, e.2 as int)
        } by {}
        assert forall|x: int, y: int, dz: int| in_box(wi, hi, di, x, y, dz) implies #[trigger] covered(
            f@,
            op@,
            queue@,
            0,
            wi,
            hi,
            di,
            x,
            y,
            dz,
        ) by {
            if val(f@, wi, hi, x, y, dz) == 0 {
                assert forall|k: int|
                    0 <= k < 6 && in_box(wi, hi, di, #[trigger] nbx(x, k), nby(y, k), nbd(dz, k))
                    implies val(f@, wi, hi, nbx(x, k), nby(y, k), nbd(dz, k)) + 1 + val(
                    op@,
                    wi,
                    hi,
                    nbx(x, k),
                    nby(y, k),
                    nbd(dz, k),
                ) >= val(f@, wi, hi, x, y, dz) by {}
            }
        }
    }
    (f, queue)
}

/// Block light seeds: every emitting cell starts at its emission, with a queue entry.
fn seed_blocks(emission: &Vec<u8>, w: usize, h: usize, dd: usize) -> (queue: Vec<LightEntry>)
    requires
        emission@.len() == w * h * dd,
        w * h * dd <= usize::MAX,
    ensures
        forall|q: int|
            0 <= q < queue@.len() ==> {
                let e = #[trigger] queue@[q];
                &&& in_box(w as int, h as int, dd as int, e.0 as int, e.1 as int, e.2 as int)
                &&& e.3 as int == val(emission@, w as int, h as int, e.0 as int, e.1 as int, e.2 as int)
            },
        forall|x: int, y: int, d: int|
            in_box(w as int, h as int, dd as int, x, y, d) && #[trigger] val(
                emission@,
                w as int,
                h as int,
                x,
                y,
                d,
            ) > 0 ==> pending(queue@, 0, x, y, d, val(emission@, w as int, h as int, x, y, d)),
{
    let ghost (wi, hi, di) = (w as int, h as int, dd as int);
    let mut queue: Vec<LightEntry> = Vec::new();
    let mut d: usize = 0;
    while d < dd
        invariant
            wi == w && hi == h && di == dd,
            emission@.len() == w * h * dd,
            w * h * dd <= usize::MAX,
            d <= dd,
            forall|q: int|
                0 <= q < queue@.len() ==> {
                    let e = #[trigger] queue@[q];
                    &&& in_box(wi, hi, di, e.0 as int, e.1 as int, e.2 as int)
                    &&& e.3 as int == val(emission@, wi, hi, e.0 as int, e.1 as int, e.2 as int)
                },
            forall|x: int, y: int, dz: int|
                in_box(wi, hi, di, x, y, dz) && dz < d && #[trigger] val(emission@, wi, hi, x, y, dz) > 0
                    ==> pending(queue@, 0, x, y, dz, val(emission@, wi, hi, x, y, dz)),
        decreases dd - d,
    {
        let mut y: usize = 0;
        while y < h
            invariant
                wi == w && hi == h && di == dd,
                emission@.len() == w * h * dd,
                w * h * dd <= usize::MAX,
                d < dd,
                y <= h,
                forall|q: int|
                    0 <= q < queue@.len() ==> {
                        let e = #[trigger] queue@[q];
                        &&& in_box(wi, hi, di, e.0 as int, e.1 as int, e.2 as int)
                        &&& e.3 as int == val(emission@, wi, hi, e.0 as int, e.1 as int, e.2 as int)
                    },
                forall|x: int, yy: int, dz: int|
                    in_box(wi, hi, di, x, yy, dz) && (dz < d || (dz == d && yy < y)) && #[trigger] val(
                        emission@,
                        wi,
                        hi,
                        x,
                        yy,
                        dz,
                    ) > 0 ==> pending(queue@, 0, x, yy, dz, val(emission@, wi, hi, x, yy, dz)),
            decreases h - y,
        {
            let mut x: usize = 0;
            while x < w
                invariant
                    wi == w && hi == h && di == dd,
                    emission@.len() == w * h * dd,
                    w * h * dd <= usize::MAX,
                    d < dd,
                    y < h,
                    x <= w,
                    forall|q: int|
                        0 <= q < queue@.len() ==> {
                            let e = #[trigger] queue@[q];
                            &&& in_box(wi, hi, di, e.0 as int, e.1 as int, e.2 as int)
                            &&& e.3 as int == val(emission@, wi, hi, e.0 as int, e.1 as int, e.2 as int)
                        },
                    forall|xx: int, yy: int, dz: int|
                        in_box(wi, hi, di, xx, yy, dz) && (dz < d || (dz == d && yy < y) || (dz == d
                            && yy == y && xx < x)) && #[trigger] val(emission@, wi, hi, xx, yy, dz) > 0
                            ==> pending(queue@, 0, xx, yy, dz, val(emission@, wi, hi, xx, yy, dz)),
                decreases w - x,
            {
                let i = cell_position(x, y, d, w, h, dd);
                let level = emission[i];
                if level > 0 {
                    let ghost old_queue = queue@;
                    queue.push((x, y, d, level));
                    proof {
                        assert forall|xx: int, yy: int, dz: int|
                            in_box(wi, hi, di, xx, yy, dz) && (dz < d || (dz == d && yy < y) || (dz == d
                                && yy == y && xx < x + 1)) && #[trigger] val(emission@, wi, hi, xx, yy, dz)
                                > 0 implies pending(queue@, 0, xx, yy, dz, val(emission@, wi, hi, xx, yy, dz)) by {
                            if xx == x && yy == y && dz == d {
                                assert(queue@[old_queue.len() as int] == (x, y, d, level));
                            } else {
                                let q = choose|q: int|
                                    0 <= q < old_queue.len() && #[trigger] old_queue[q] == (
                                        xx as usize,
                                        yy as usize,
                                        dz as usize,
                                        val(emission@, wi, hi, xx, yy, dz) as u8,
                                    );
                                assert(queue@[q] == old_queue[q]);
                            }
                        }
                        assert forall|q: int| 0 <= q < queue@.len() implies {
                            let e = #[trigger] queue@[q];
                            &&& in_box(wi, hi, di, e.0 as int, e.1 as int, e.2 as int)
                            &&& e.3 as int == val(emission@, wi, hi, e.0 as int, e.1 as int, e.2 as int)
                        } by {
                            if q < old_queue.len() {
                                assert(queue@[q] == old_queue[q]);
                            }
                        }
                    }
                }
                x += 1;
            }
            y += 1;
        }
        d += 1;
    }
    queue
}

/// The width of the column range `min_x..max_x_exclusive`: zero when the range is empty,
/// reversed, or its length does not fit in an `i64` and a `usize`.
pub open spec fn span_width(min_x: i64, max_x_exclusive: i64) -> int {
    let diff = max_x_exclusive - min_x;
    if 0 <= diff <= i64::MAX && diff <= usize::MAX {
        diff
    } else {
        0
    }
}

/// The number of rows of a volume asked for `height` rows: none for a negative height.
pub open spec fn span_height(height: i32) -> int {
    if height >= 0 {
        height as int
    } else {
        0
    }
}

/// The number of cells of a volume with these dimensions, or zero when it does not fit in a
/// `usize` (such a volume is not lit at all).
pub open spec fn volume_cells(w: int, h: int, dd: int) -> int {
    if w * h <= usize::MAX && w * h * dd <= usize::MAX {
        w * h * dd
    } else {
        0
    }
}

proof fn lemma_block_seed_state(emission: Seq<u8>, f: Seq<u8>, op: Seq<u8>, queue: Seq<LightEntry>, w: int, h: int, dd: int)
    requires
        f == emission,
        emission.len() == w * h * dd,
        op.len() == w * h * dd,
        forall|i: int| 0 <= i < emission.len() ==> emission[i] <= MAX_LIGHT_LEVEL,
        forall|q: int|
            0 <= q < queue.len() ==> {
                let e = #[trigger] queue[q];
                &&& in_box(w, h, dd, e.0 as int, e.1 as int, e.2 as int)
                &&& e.3 as int == val(emission, w, h, e.0 as int, e.1 as int, e.2 as int)
            },
        forall|x: int, y: int, d: int|
            in_box(w, h, dd, x, y, d) && #[trigger] val(emission, w, h, x, y, d) > 0 ==> pending(
                queue,
                0,
                x,
                y,
                d,
                val(emission, w, h, x, y, d),
            ),
    ensures
        flood_state(f, op, |x: int, y: int, d: int| val(emission, w, h, x, y, d), queue, w, h, dd),
        forall|x: int, y: int, d: int|
            in_box(w, h, dd, x, y, d) ==> #[trigger] covered(f, op, queue, 0, w, h, dd, x, y, d),
{
    let seed = |x: int, y: int, d: int| val(emission, w, h, x, y, d);
    assert forall|x: int, y: int, d: int| in_box(w, h, dd, x, y, d) implies #[trigger] justified(
        f,
        seed,
        op,
        w,
        h,
        dd,
        x,
        y,
        d,
    ) by {}
    assert forall|x: int, y: int, d: int| in_box(w, h, dd, x, y, d) implies #[trigger] covered(
        f,
        op,
        queue,
        0,
        w,
        h,
        dd,
        x,
        y,
        d,
    ) by {
        if val(f, w, h, x, y, d) == 0 {
            assert forall|k: int|
                0 <= k < 6 && in_box(w, h, dd, #[trigger] nbx(x, k), nby(y, k), nbd(d, k)) implies val(
                f,
                w,
                h,
                nbx(x, k),
                nby(y, k),
                nbd(d, k),
            ) + 1 + val(op, w, h, nbx(x, k), nby(y, k), nbd(d, k)) >= val(f, w, h, x, y, d) by {}
        }
    }
}

impl LightVolume {
    /// Lights the columns `min_x..max_x_exclusive` of a volume `height` cells tall and
    /// `depth_slices` slices deep, asking `sample_voxel` once for the content of each cell.
    /// Sky light enters every column from above at `MAX_LIGHT_LEVEL`; block light starts at
    /// each block's emission; both flood to the six face neighbours, losing one level per step
    /// plus the opacity of the cell entered. An empty or oversized range gives the empty
    /// volume.
    pub fn calculate<F: Fn(i64, i32, u8) -> Option<BlockState>>(
        min_x: i64,
        max_x_exclusive: i64,
        height: i32,
        depth_slices: u8,
        sample_voxel: F,
    ) -> (result: LightVolume)
        requires
            forall|x: i64, y: i32, d: u8|
                min_x <= x < max_x_exclusive && 0 <= y < height && d < depth_slices ==> #[trigger] sample_voxel.requires(
                    (x, y, d),
                ),
        ensures
            result.wf(),
            ({
                let w = span_width(min_x, max_x_exclusive);
                let h = span_height(height);
                if volume_cells(w, h, depth_slices as int) == 0 {
                    result.cell_count() == 0 && result.spec_min_x() == 0 && result.spec_width() == 0
                        && result.spec_height() == 0 && result.spec_depth_slices() == 0
                } else {
                    &&& result.spec_min_x() == min_x
                    &&& result.spec_width() == w
                    &&& result.spec_height() == height
                    &&& result.spec_depth_slices() == depth_slices
                    &&& exists|samples: Seq<Option<BlockState>>|
                        {
                            &&& #[trigger] result.lights(samples)
                            &&& forall|x: int, y: int, d: int|
                                in_box(w, h, depth_slices as int, x, y, d) ==> sample_voxel.ensures(
                                    ((min_x + x) as i64, y as i32, d as u8),
                                    #[trigger] samples[idx(w, h, x, y, d)],
                                )
                        }
                }
            }),
    {
        let width: usize = match max_x_exclusive.checked_sub(min_x) {
            Some(diff) => {
                if diff >= 0 && (diff as u64) <= (usize::MAX as u64) {
                    diff as usize
                } else {
                    0
                }
            },
            None => 0,
        };
        let h: usize = if height >= 0 {
            height as usize
        } else {
            0
        };
        let dd: usize = depth_slices as usize;
        let count: usize = match width.checked_mul(h) {
            Some(plane) => match plane.checked_mul(dd) {
                Some(c) => c,
                None => 0,
            },
            None => 0,
        };
        if count == 0 {
            return LightVolume::empty();
        }
        let ghost (wi, hi, di) = (width as int, h as int, dd as int);
        let samples = sample_cells(min_x, width, h, dd, &sample_voxel);
        let op = opacities(&samples);
        let emission = emissions(&samples);
        let (mut sky, sky_queue) = seed_sky(&op, width, h, dd, count);
        let ghost sky_seed = |x: int, y: int, d: int| sky_level(op@, wi, hi, x, y, d);
        flood(&mut sky, &op, width, h, dd, sky_queue, Ghost(sky_seed));
        let block_queue = seed_blocks(&emission, width, h, dd);
        let mut block = emission.clone();
        let ghost block_seed = |x: int, y: int, d: int| val(emission@, wi, hi, x, y, d);
        proof {
            assert(block@ =~= emission@);
            assert forall|i: int| 0 <= i < emission@.len() implies emission@[i] <= MAX_LIGHT_LEVEL by {
                let s = samples@[i];
                assert(emission@[i] == emission_of(s));
            }
            lemma_block_seed_state(emission@, block@, op@, block_queue@, wi, hi, di);
        }
        flood(&mut block, &op, width, h, dd, block_queue, Ghost(block_seed));
        let result = LightVolume { min_x, width, height, depth_slices, sky, block };
        proof {
            assert(result.lights(samples@));
        }
        result
    }
}

/// Integer keys obey the ordering laws that ordered std collections rely on.
pub proof fn lemma_i64_keys_ordered()
    ensures
        vstd::laws_cmp::obeys_cmp::<i64>(),
{
    broadcast use vstd::laws_cmp::group_laws_cmp;

}

/// Whether two volumes light some cell of column `x` differently.
pub open spec fn column_differs(a: LightVolume, b: LightVolume, x: int) -> bool {
    exists|y: int, d: int| #[trigger] a.light_at(x, y, d) != b.light_at(x, y, d)
}

impl LightVolume {
    /// The columns in which `self` and `other` light some cell differently, cells outside a
    /// volume counting as dark.
    pub fn changed_x_columns(&self, other: &LightVolume) -> (changed: BTreeSet<i64>)
        requires
            self.wf(),
            other.wf(),
        ensures
            changed@ == Set::new(|x: i64| column_differs(*self, *other, x as int)),
    {
        broadcast use vstd::std_specs::btree::group_btree_axioms;

        let lo: i64 = if self.min_x < other.min_x {
            self.min_x
        } else {
            other.min_x
        };
        let self_end = self.max_x_exclusive();
        let other_end = other.max_x_exclusive();
        let hi: i64 = if self_end > other_end {
            self_end
        } else {
            other_end
        };
        let height: i32 = if self.height > other.height {
            self.height
        } else {
            other.height
        };
        let depth_slices: u8 = if self.depth_slices > other.depth_slices {
            self.depth_slices
        } else {
            other.depth_slices
        };
        let mut changed: BTreeSet<i64> = BTreeSet::new();
        let mut x: i64 = lo;
        while x < hi
            invariant
                self.wf(),
                other.wf(),
                lo <= x <= hi || (x == lo && lo >= hi),
                height >= self.spec_height() && height >= other.spec_height(),
                depth_slices >= self.spec_depth_slices() && depth_slices >= other.spec_depth_slices(),
                changed@ == Set::new(|c: i64| lo <= c < x && column_differs(*self, *other, c as int)),
            decreases hi - x,
        {
            let mut found = false;
            let mut d: u8 = 0;
            while d < depth_slices && !found
                invariant
                    self.wf(),
                    other.wf(),
                    lo <= x < hi,
                    height >= self.spec_height() && height >= other.spec_height(),
                    depth_slices >= self.spec_depth_slices() && depth_slices
                        >= other.spec_depth_slices(),
                    d <= depth_slices,
                    found ==> column_differs(*self, *other, x as int),
                    !found ==> forall|yy: int, dz: int|
                        0 <= yy < height && 0 <= dz < d ==> #[trigger] self.light_at(x as int, yy, dz)
                            == other.light_at(x as int, yy, dz),
                decreases depth_slices - d + if found { 0int } else { 1int },
            {
                let mut y: i32 = 0;
                while y < height && !found
                    invariant
                        self.wf(),
                        other.wf(),
                        lo <= x < hi,
                        height >= self.spec_height() && height >= other.spec_height(),
                        d < depth_slices,
                        0 <= y <= height,
                        found ==> column_differs(*self, *other, x as int),
                        !found ==> forall|yy: int, dz: int|
                            ((0 <= yy < height && 0 <= dz < d) || (0 <= yy < y && dz == d))
                                ==> #[trigger] self.light_at(x as int, yy, dz) == other.light_at(
                                x as int,
                                yy,
                                dz,
                            ),
                    decreases height - y + if found { 0int } else { 1int },
                {
                    let a = self.get(x, y, d);
                    let b = other.get(x, y, d);
                    if a.sky != b.sky || a.block != b.block {
                        found = true;
                        proof {
                            assert(self.light_at(x as int, y as int, d as int) != other.light_at(
                                x as int,
                                y as int,
                                d as int,
                            ));
                        }
                    } else {
                        y += 1;
                    }
                }
                if !found {
                    d += 1;
                }
            }
            proof {
                if !found {
                    assert forall|yy: int, dz: int| #[trigger]
                        self.light_at(x as int, yy, dz) == other.light_at(x as int, yy, dz) by {
                        if !(0 <= yy < height && 0 <= dz < depth_slices) {
                            assert(self.light_at(x as int, yy, dz) == LightCell { sky: 0, block: 0 });
                            assert(other.light_at(x as int, yy, dz) == LightCell { sky: 0, block: 0 });
                        }
                    }
                }
            }
            proof {
                lemma_i64_keys_ordered();
                if found {
                    assert(column_differs(*self, *other, x as int));
                }
            }
            if found {
                changed.insert(x);
            }
            proof {
                assert(changed@ =~= Set::new(|c: i64| lo <= c < x + 1 && column_differs(*self, *other, c as int)));
            }
            x += 1;
        }
        proof {
            assert forall|c: i64| #[trigger] column_differs(*self, *other, c as int) implies lo <= c < hi by {
                let (yy, dz) = choose|yy: int, dz: int| #[trigger]
                    self.light_at(c as int, yy, dz) != other.light_at(c as int, yy, dz);
            }
            assert(changed@ =~= Set::new(|x: i64| column_differs(*self, *other, x as int)));
        }
        changed
    }
}

} // verus!
