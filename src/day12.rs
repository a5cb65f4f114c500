//! Garden plots: regions of one plant, and the price of fencing them by
//! area and number of sides.
use crate::grid::{is_rectangle, Grid};
use crate::sums::{add_term, lemma_sum_bounded, sum};
use crate::text::lines;
use vstd::prelude::*;
use vstd::string::StringSliceAdditionalSpecFns;

verus! {

/// The plant at `(x, y)` of a map of `w` by `h` plants stored row after row,
/// or `None` off the map.
pub open spec fn plant(d: Seq<u8>, w: int, h: int, x: int, y: int) -> Option<u8> {
    if 0 <= x < w && 0 <= y < h && y * w + x < d.len() {
        Some(d[y * w + x])
    } else {
        None
    }
}

/// `(x, y)` is reached from `(sx, sy)` within `k` steps between side-by-side
/// plants `c`.
pub open spec fn reach(d: Seq<u8>, w: int, h: int, c: u8, sx: int, sy: int, k: nat, x: int, y: int) -> bool
    decreases k,
{
    if k == 0 {
        x == sx && y == sy
    } else {
        let p = (k - 1) as nat;
        reach(d, w, h, c, sx, sy, p, x, y) || (plant(d, w, h, x, y) == Some(c) && (reach(d, w, h, c, sx, sy, p, x - 1, y)
            || reach(d, w, h, c, sx, sy, p, x + 1, y) || reach(d, w, h, c, sx, sy, p, x, y - 1) || reach(
            d, w, h, c, sx, sy, p, x, y + 1,
        )))
    }
}

/// `(x, y)` lies in the region of `(sx, sy)`: the plants like it that can
/// be reached from it through side-by-side plants (no path needs more steps
/// than there are plants).
pub open spec fn in_region(d: Seq<u8>, w: int, h: int, sx: int, sy: int, x: int, y: int) -> bool {
    reach(d, w, h, d[sy * w + sx], sx, sy, (w * h) as nat, x, y)
}

/// Whether the plant at `(x, y)` is `c`.
pub open spec fn is_plant(d: Seq<u8>, w: int, h: int, x: int, y: int, c: u8) -> bool {
    plant(d, w, h, x, y) == Some(c)
}

/// The corners of the region at the cell `(x, y)`, looking towards the
/// diagonal `(dx, dy)`: an outer corner when neither neighbour towards it
/// is alike, an inner one when both are but the diagonal plant is not.
pub open spec fn corner(d: Seq<u8>, w: int, h: int, x: int, y: int, dx: int, dy: int) -> int {
    let c = d[y * w + x];
    let a = is_plant(d, w, h, x + dx, y, c);
    let b = is_plant(d, w, h, x, y + dy, c);
    let e = is_plant(d, w, h, x + dx, y + dy, c);
    if (!a && !b) || (a && b && !e) {
        1
    } else {
        0
    }
}

/// The corners of the region at the cell `(x, y)`.
pub open spec fn corners(d: Seq<u8>, w: int, h: int, x: int, y: int) -> int {
    corner(d, w, h, x, y, 1, 1) + corner(d, w, h, x, y, 1, -1) + corner(d, w, h, x, y, -1, 1) + corner(d, w, h, x, y, -1, -1)
}

/// The fence pieces of the cell `(x, y)`: its sides not next to a plant
/// like it.
pub open spec fn fences(d: Seq<u8>, w: int, h: int, x: int, y: int) -> int {
    let c = d[y * w + x];
    (if is_plant(d, w, h, x - 1, y, c) { 0int } else { 1int }) + (if is_plant(d, w, h, x + 1, y, c) { 0int } else { 1int })
        + (if is_plant(d, w, h, x, y - 1, c) { 0int } else { 1int }) + (if is_plant(d, w, h, x, y + 1, c) { 0int } else { 1int })
}

/// What the cell `(x, y)` adds to its region's fence: its corners (with
/// `bulk`, counting sides: a closed fence has as many sides as corners), or
/// its fence pieces.
pub open spec fn cell_fence(d: Seq<u8>, w: int, h: int, x: int, y: int, bulk: bool) -> int {
    if bulk {
        corners(d, w, h, x, y)
    } else {
        fences(d, w, h, x, y)
    }
}

/// The perimeter (or, with `bulk`, the number of sides) of the region of the
/// cell with index `p`.
pub open spec fn region_sides(d: Seq<u8>, w: int, h: int, p: int, bulk: bool) -> int {
    sum(Seq::new((w * h) as nat, |q: int| if in_region(d, w, h, p % w, p / w, q % w, q / w) { cell_fence(d, w, h, q % w, q / w, bulk) } else { 0 }))
}

/// The price of fencing the map: each region's area times its perimeter
/// (with `bulk`, its number of sides), counted as the fence of its region
/// once for each of its cells.
pub open spec fn bulk_price(d: Seq<u8>, w: int, h: int, bulk: bool) -> int {
    sum(Seq::new((w * h) as nat, |p: int| region_sides(d, w, h, p, bulk)))
}

proof fn lemma_outside_unreached(d: Seq<u8>, w: int, h: int, c: u8, sx: int, sy: int, k: nat, x: int, y: int)
    requires
        0 <= sx < w,
        0 <= sy < h,
        !(0 <= x < w && 0 <= y < h),
    ensures
        !reach(d, w, h, c, sx, sy, k, x, y),
    decreases k,
{
    if k > 0 {
        lemma_outside_unreached(d, w, h, c, sx, sy, (k - 1) as nat, x, y);
    }
}

/// Layer `k` equals layer `k + 1` on the grid.
pub open spec fn settled(d: Seq<u8>, w: int, h: int, c: u8, sx: int, sy: int, k: nat) -> bool {
    forall|x: int, y: int|
        0 <= x < w && 0 <= y < h ==> #[trigger] reach(d, w, h, c, sx, sy, k, x, y) == reach(d, w, h, c, sx, sy, k + 1, x, y)
}

/// Once a layer stops growing, it never grows again.
proof fn lemma_settled_stays(d: Seq<u8>, w: int, h: int, c: u8, sx: int, sy: int, k: nat, j: nat)
    requires
        0 <= sx < w,
        0 <= sy < h,
        settled(d, w, h, c, sx, sy, k),
        k <= j,
    ensures
        forall|x: int, y: int| #[trigger] reach(d, w, h, c, sx, sy, j, x, y) == reach(d, w, h, c, sx, sy, k, x, y),
    decreases j - k,
{
    if j > k {
        lemma_settled_stays(d, w, h, c, sx, sy, k, (j - 1) as nat);
        assert forall|x: int, y: int| #[trigger] reach(d, w, h, c, sx, sy, j, x, y) == reach(d, w, h, c, sx, sy, k, x, y) by {
            if 0 <= x < w && 0 <= y < h {
                assert(reach(d, w, h, c, sx, sy, (j - 1) as nat, x, y) == reach(d, w, h, c, sx, sy, k, x, y));
                assert(reach(d, w, h, c, sx, sy, (j - 1) as nat, x - 1, y) == reach(d, w, h, c, sx, sy, k, x - 1, y));
                assert(reach(d, w, h, c, sx, sy, (j - 1) as nat, x + 1, y) == reach(d, w, h, c, sx, sy, k, x + 1, y));
                assert(reach(d, w, h, c, sx, sy, (j - 1) as nat, x, y - 1) == reach(d, w, h, c, sx, sy, k, x, y - 1));
                assert(reach(d, w, h, c, sx, sy, (j - 1) as nat, x, y + 1) == reach(d, w, h, c, sx, sy, k, x, y + 1));
                assert(reach(d, w, h, c, sx, sy, k + 1, x, y) == reach(d, w, h, c, sx, sy, k, x, y));
            } else {
                lemma_outside_unreached(d, w, h, c, sx, sy, j, x, y);
                lemma_outside_unreached(d, w, h, c, sx, sy, k, x, y);
            }
        }
    }
}

proof fn lemma_row_order(w: int, x: int, y: int, row: int)
    requires
        0 <= x < w,
        0 <= y,
        0 <= row,
    ensures
        (y * w + x < row * w + w) == (y <= row),
{
    if y <= row {
        assert(y * w + x < row * w + w) by (nonlinear_arith)
            requires 0 <= x < w, y <= row;
    } else {
        assert(y * w >= row * w + w) by (nonlinear_arith)
            requires y >= row + 1, w >= 0;
    }
}

proof fn lemma_idx(w: int, h: int, x: int, y: int)
    requires
        0 <= x < w,
        0 <= y < h,
    ensures
        0 <= y * w + x < w * h,
{
    assert(0 <= y * w + x < w * h) by (nonlinear_arith)
        requires 0 <= x < w, 0 <= y < h;
}

proof fn lemma_index_unique(w: int, x: int, y: int, x2: int, y2: int)
    requires
        0 <= x < w,
        0 <= x2 < w,
        0 <= y,
        0 <= y2,
        y * w + x == y2 * w + x2,
    ensures
        x == x2 && y == y2,
{
    assert(y == y2) by (nonlinear_arith)
        requires 0 <= x < w, 0 <= x2 < w, y * w + x == y2 * w + x2, 0 <= y, 0 <= y2;
}

/// Layer `k` of the cells reached, row after row.
pub open spec fn is_layer(g: Seq<bool>, d: Seq<u8>, w: int, h: int, c: u8, sx: int, sy: int, k: nat) -> bool {
    &&& g.len() == w * h
    &&& forall|x: int, y: int|
        0 <= x < w && 0 <= y < h ==> #[trigger] g[y * w + x] == reach(d, w, h, c, sx, sy, k, x, y)
}

/// Layer `k + 1` from layer `k`; also whether it grew.
#[verifier::rlimit(50)]
fn next_layer(cur: &Vec<bool>, d: &Vec<u8>, w: usize, h: usize, c: u8, sx: usize, sy: usize, k: Ghost<nat>) -> (r: (Vec<bool>, bool))
    requires
        1 <= w <= 1024,
                1 <= h <= 1024,
        is_layer(cur@, d@, w as int, h as int, c, sx as int, sy as int, k@),
        d@.len() == w * h,
                sx < w,
                sy < h,
    ensures
        is_layer(r.0@, d@, w as int, h as int, c, sx as int, sy as int, k@ + 1),
        r.1 == !settled(d@, w as int, h as int, c, sx as int, sy as int, k@),
{
    let mut next: Vec<bool> = Vec::new();
    let mut grew = false;
    let mut y: usize = 0;
    while y < h
        invariant
            1 <= w <= 1024,
                1 <= h <= 1024,
            y <= h,
            is_layer(cur@, d@, w as int, h as int, c, sx as int, sy as int, k@),
            d@.len() == w * h,
                sx < w,
                sy < h,
            next@.len() == y * w,
            forall|x: int, yy: int|
                0 <= x < w && 0 <= yy < y ==> #[trigger] next@[yy * w + x] == reach(d@, w as int, h as int, c, sx as int, sy as int, k@ + 1, x, yy),
            grew == exists|x: int, yy: int|
                0 <= x < w && 0 <= yy < y && #[trigger] reach(d@, w as int, h as int, c, sx as int, sy as int, k@, x, yy) != reach(d@, w as int, h as int, c, sx as int, sy as int, k@ + 1, x, yy),
        decreases h - y,
    {
        let mut x: usize = 0;
        proof {
            assert forall|xx: int, yy: int|
                0 <= xx < w && 0 <= yy < h && yy * w + xx < y * w + 0 implies #[trigger] next@[yy * w + xx] == reach(d@, w as int, h as int, c, sx as int, sy as int, k@ + 1, xx, yy) by {
                if y >= 1 {
                    lemma_row_order(w as int, xx, yy, y - 1);
                    assert((y - 1) * w + w == y * w) by (nonlinear_arith);
                } else {
                    assert(yy * w >= 0) by (nonlinear_arith) requires yy >= 0, w >= 0;
                }
            }
            let e1 = exists|xx: int, yy: int|
                0 <= xx < w && 0 <= yy < h && yy * w + xx < y * w + 0 && #[trigger] reach(d@, w as int, h as int, c, sx as int, sy as int, k@, xx, yy) != reach(d@, w as int, h as int, c, sx as int, sy as int, k@ + 1, xx, yy);
            if e1 {
                let (xx, yy) = choose|xx: int, yy: int|
                    0 <= xx < w && 0 <= yy < h && yy * w + xx < y * w + 0 && #[trigger] reach(d@, w as int, h as int, c, sx as int, sy as int, k@, xx, yy) != reach(d@, w as int, h as int, c, sx as int, sy as int, k@ + 1, xx, yy);
                if y >= 1 {
                    lemma_row_order(w as int, xx, yy, y - 1);
                    assert((y - 1) * w + w == y * w) by (nonlinear_arith);
                } else {
                    assert(yy * w >= 0) by (nonlinear_arith) requires yy >= 0, w >= 0;
                }
            }
            if grew {
                let (xx, yy) = choose|xx: int, yy: int|
                    0 <= xx < w && 0 <= yy < y && #[trigger] reach(d@, w as int, h as int, c, sx as int, sy as int, k@, xx, yy) != reach(d@, w as int, h as int, c, sx as int, sy as int, k@ + 1, xx, yy);
                lemma_row_order(w as int, xx, yy, y - 1);
                assert((y - 1) * w + w == y * w) by (nonlinear_arith);
            }
            assert(w * h <= 1048576) by (nonlinear_arith) requires w <= 1024, h <= 1024;
        }
        while x < w
            invariant
                1 <= w <= 1024,
                1 <= h <= 1024,
                w * h <= 1048576,
                y < h,
                x <= w,
                is_layer(cur@, d@, w as int, h as int, c, sx as int, sy as int, k@),
                d@.len() == w * h,
                sx < w,
                sy < h,
                next@.len() == y * w + x,
                forall|xx: int, yy: int|
                    0 <= xx < w && 0 <= yy < h && yy * w + xx < y * w + x ==> #[trigger] next@[yy * w + xx] == reach(d@, w as int, h as int, c, sx as int, sy as int, k@ + 1, xx, yy),
                grew == exists|xx: int, yy: int|
                    0 <= xx < w && 0 <= yy < h && yy * w + xx < y * w + x && #[trigger] reach(d@, w as int, h as int, c, sx as int, sy as int, k@, xx, yy) != reach(d@, w as int, h as int, c, sx as int, sy as int, k@ + 1, xx, yy),
            decreases w - x,
        {
            proof {
                lemma_idx(w as int, h as int, x as int, y as int);
                assert(y * w <= y * w + x);
                if x >= 1 { lemma_idx(w as int, h as int, x - 1, y as int); }
                if x + 1 < w { lemma_idx(w as int, h as int, x + 1, y as int); }
                if y >= 1 {
                    lemma_idx(w as int, h as int, x as int, y - 1);
                    assert((y - 1) * w + x == y * w + x - w) by (nonlinear_arith);
                }
                if y + 1 < h {
                    lemma_idx(w as int, h as int, x as int, y + 1);
                    assert((y + 1) * w + x == y * w + x + w) by (nonlinear_arith);
                }
                if x == 0 { lemma_outside_unreached(d@, w as int, h as int, c, sx as int, sy as int, k@, -1, y as int); }
                if x + 1 == w { lemma_outside_unreached(d@, w as int, h as int, c, sx as int, sy as int, k@, x + 1, y as int); }
                if y == 0 { lemma_outside_unreached(d@, w as int, h as int, c, sx as int, sy as int, k@, x as int, -1); }
                if y + 1 == h { lemma_outside_unreached(d@, w as int, h as int, c, sx as int, sy as int, k@, x as int, y + 1); }
            }
            let here = y * w + x;
            let old_v = cur[here];
            let near = (x >= 1 && cur[here - 1]) || (x + 1 < w && cur[here + 1]) || (y >= 1 && cur[here - w]) || (y + 1 < h && cur[here + w]);
            let v = old_v || (d[here] == c && near);
            proof {
                let p = k@;
                assert(old_v == reach(d@, w as int, h as int, c, sx as int, sy as int, p, x as int, y as int));
                assert(plant(d@, w as int, h as int, x as int, y as int) == Some(d@[here as int]));
                if x >= 1 {
                    assert(cur@[y * w + (x - 1)] == reach(d@, w as int, h as int, c, sx as int, sy as int, p, x - 1, y as int));
                    assert(here - 1 == y * w + (x - 1));
                }
                if x + 1 < w {
                    assert(cur@[y * w + (x + 1)] == reach(d@, w as int, h as int, c, sx as int, sy as int, p, x + 1, y as int));
                    assert(here + 1 == y * w + (x + 1));
                }
                if y >= 1 {
                    assert(cur@[(y - 1) * w + x] == reach(d@, w as int, h as int, c, sx as int, sy as int, p, x as int, y - 1));
                }
                if y + 1 < h {
                    assert(cur@[(y + 1) * w + x] == reach(d@, w as int, h as int, c, sx as int, sy as int, p, x as int, y + 1));
                }
                if x >= 1 { assert(here - 1 == y * w + (x - 1)); }
                if y >= 1 { assert(here - w == (y - 1) * w + x) by (nonlinear_arith) requires here == y * w + x; }
                if y + 1 < h { assert(here + w == (y + 1) * w + x) by (nonlinear_arith) requires here == y * w + x; }
                assert(v == reach(d@, w as int, h as int, c, sx as int, sy as int, k@ + 1, x as int, y as int));
            }
            if v != old_v {
                grew = true;
            }
            next.push(v);
            proof {
                assert forall|xx: int, yy: int|
                    0 <= xx < w && 0 <= yy < h && yy * w + xx < y * w + x + 1 implies #[trigger] next@[yy * w + xx] == reach(d@, w as int, h as int, c, sx as int, sy as int, k@ + 1, xx, yy) by {
                    if yy * w + xx == y * w + x {
                        lemma_index_unique(w as int, xx, yy, x as int, y as int);
                    }
                }
                let e = exists|xx: int, yy: int|
                    0 <= xx < w && 0 <= yy < h && yy * w + xx < y * w + x + 1 && #[trigger] reach(d@, w as int, h as int, c, sx as int, sy as int, k@, xx, yy) != reach(d@, w as int, h as int, c, sx as int, sy as int, k@ + 1, xx, yy);
                if e {
                    let (xx, yy) = choose|xx: int, yy: int|
                        0 <= xx < w && 0 <= yy < h && yy * w + xx < y * w + x + 1 && #[trigger] reach(d@, w as int, h as int, c, sx as int, sy as int, k@, xx, yy) != reach(d@, w as int, h as int, c, sx as int, sy as int, k@ + 1, xx, yy);
                    if yy * w + xx == y * w + x {
                        lemma_index_unique(w as int, xx, yy, x as int, y as int);
                    }
                }
            }
            x += 1;
        }
        proof {
            assert forall|xx: int, yy: int| 0 <= xx < w && 0 <= yy < y + 1 implies #[trigger] next@[yy * w + xx] == reach(d@, w as int, h as int, c, sx as int, sy as int, k@ + 1, xx, yy) by {
                lemma_row_order(w as int, xx, yy, y as int);
            }
            let e1 = exists|xx: int, yy: int|
                0 <= xx < w && 0 <= yy < h && yy * w + xx < y * w + w && #[trigger] reach(d@, w as int, h as int, c, sx as int, sy as int, k@, xx, yy) != reach(d@, w as int, h as int, c, sx as int, sy as int, k@ + 1, xx, yy);
            let e2 = exists|xx: int, yy: int|
                0 <= xx < w && 0 <= yy < y + 1 && #[trigger] reach(d@, w as int, h as int, c, sx as int, sy as int, k@, xx, yy) != reach(d@, w as int, h as int, c, sx as int, sy as int, k@ + 1, xx, yy);
            if e1 {
                let (xx, yy) = choose|xx: int, yy: int|
                    0 <= xx < w && 0 <= yy < h && yy * w + xx < y * w + w && #[trigger] reach(d@, w as int, h as int, c, sx as int, sy as int, k@, xx, yy) != reach(d@, w as int, h as int, c, sx as int, sy as int, k@ + 1, xx, yy);
                lemma_row_order(w as int, xx, yy, y as int);
            }
            if e2 {
                let (xx, yy) = choose|xx: int, yy: int|
                    0 <= xx < w && 0 <= yy < y + 1 && #[trigger] reach(d@, w as int, h as int, c, sx as int, sy as int, k@, xx, yy) != reach(d@, w as int, h as int, c, sx as int, sy as int, k@ + 1, xx, yy);
                lemma_row_order(w as int, xx, yy, y as int);
            }
            assert(e1 == e2);
            assert(next@.len() == (y + 1) * w) by (nonlinear_arith) requires next@.len() == y * w + w;
        }
        y += 1;
    }
    proof {
        assert(next@.len() == w * h) by (nonlinear_arith) requires next@.len() == y * w, y == h;
    }
    (next, grew)
}

/// The cells of the region of `(sx, sy)`, row after row.
fn region(d: &Vec<u8>, w: usize, h: usize, sx: usize, sy: usize) -> (r: Vec<bool>)
    requires
        1 <= w <= 1024,
        1 <= h <= 1024,
        d@.len() == w * h,
        sx < w,
        sy < h,
    ensures
        r@.len() == w * h,
        forall|x: int, y: int|
            0 <= x < w && 0 <= y < h ==> #[trigger] r@[y * w + x] == in_region(d@, w as int, h as int, sx as int, sy as int, x, y),
{
    proof {
        assert(w * h <= 1048576) by (nonlinear_arith) requires w <= 1024, h <= 1024;
        lemma_idx(w as int, h as int, sx as int, sy as int);
    }
    let total = w * h;
    let start = sy * w + sx;
    let c = d[start];
    let mut cur: Vec<bool> = Vec::new();
    let mut i: usize = 0;
    while i < total
        invariant
            total == w * h,
            i <= total,
            cur@.len() == i,
            forall|t: int| 0 <= t < i ==> #[trigger] cur@[t] == (t == start),
        decreases total - i,
    {
        cur.push(i == start);
        i += 1;
    }
    proof {
        assert forall|x: int, y: int| 0 <= x < w && 0 <= y < h implies #[trigger] cur@[y * w + x] == reach(d@, w as int, h as int, c, sx as int, sy as int, 0, x, y) by {
            lemma_idx(w as int, h as int, x, y);
            if y * w + x == start {
                lemma_index_unique(w as int, x, y, sx as int, sy as int);
            }
        }
    }
    let mut k: usize = 0;
    while k < total
        invariant
            1 <= w <= 1024,
            1 <= h <= 1024,
            total == w * h,
            d@.len() == w * h,
            sx < w,
            sy < h,
            c == d@[sy * w + sx],
            k <= total,
            is_layer(cur@, d@, w as int, h as int, c, sx as int, sy as int, k as nat),
        decreases total - k,
    {
        let (next, grew) = next_layer(&cur, d, w, h, c, sx, sy, Ghost(k as nat));
        if !grew {
            proof {
                lemma_settled_stays(d@, w as int, h as int, c, sx as int, sy as int, k as nat, total as nat);
            }
            return cur;
        }
        cur = next;
        k += 1;
    }
    cur
}

fn plant_is(d: &Vec<u8>, w: usize, h: usize, x: i64, y: i64, c: u8) -> (r: bool)
    requires
        1 <= w <= 1024,
        1 <= h <= 1024,
        d@.len() == w * h,
        -2 <= x <= 1025,
        -2 <= y <= 1025,
    ensures
        r == is_plant(d@, w as int, h as int, x as int, y as int, c),
{
    if x < 0 || y < 0 || x >= w as i64 || y >= h as i64 {
        return false;
    }
    proof {
        lemma_idx(w as int, h as int, x as int, y as int);
        assert(w * h <= 1048576) by (nonlinear_arith) requires w <= 1024, h <= 1024;
    }
    d[y as usize * w + x as usize] == c
}

/// The corners of the region at the cell `(x, y)`.
fn corners_at(d: &Vec<u8>, w: usize, h: usize, x: usize, y: usize) -> (r: u64)
    requires
        1 <= w <= 1024,
        1 <= h <= 1024,
        d@.len() == w * h,
        x < w,
        y < h,
    ensures
        r == corners(d@, w as int, h as int, x as int, y as int),
        r <= 4,
{
    proof {
        lemma_idx(w as int, h as int, x as int, y as int);
        assert(w * h <= 1048576) by (nonlinear_arith) requires w <= 1024, h <= 1024;
    }
    let c = d[y * w + x];
    let (xi, yi) = (x as i64, y as i64);
    let n1 = corner_at(d, w, h, xi, yi, c, 1, 1);
    let n2 = corner_at(d, w, h, xi, yi, c, 1, -1);
    let n3 = corner_at(d, w, h, xi, yi, c, -1, 1);
    let n4 = corner_at(d, w, h, xi, yi, c, -1, -1);
    n1 + n2 + n3 + n4
}

fn fences_at(d: &Vec<u8>, w: usize, h: usize, x: usize, y: usize) -> (r: u64)
    requires
        1 <= w <= 1024,
        1 <= h <= 1024,
        d@.len() == w * h,
        x < w,
        y < h,
    ensures
        r == fences(d@, w as int, h as int, x as int, y as int),
        r <= 4,
{
    proof {
        lemma_idx(w as int, h as int, x as int, y as int);
        assert(w * h <= 1048576) by (nonlinear_arith) requires w <= 1024, h <= 1024;
    }
    let c = d[y * w + x];
    let (xi, yi) = (x as i64, y as i64);
    let a: u64 = if plant_is(d, w, h, xi - 1, yi, c) { 0 } else { 1 };
    let b: u64 = if plant_is(d, w, h, xi + 1, yi, c) { 0 } else { 1 };
    let e: u64 = if plant_is(d, w, h, xi, yi - 1, c) { 0 } else { 1 };
    let f: u64 = if plant_is(d, w, h, xi, yi + 1, c) { 0 } else { 1 };
    a + b + e + f
}

fn corner_at(d: &Vec<u8>, w: usize, h: usize, x: i64, y: i64, c: u8, dx: i64, dy: i64) -> (r: u64)
    requires
        1 <= w <= 1024,
        1 <= h <= 1024,
        d@.len() == w * h,
        0 <= x < w,
        0 <= y < h,
        c == d@[y * w + x],
        dx == 1 || dx == -1,
        dy == 1 || dy == -1,
    ensures
        r == corner(d@, w as int, h as int, x as int, y as int, dx as int, dy as int),
        r <= 1,
{
    let a = plant_is(d, w, h, x + dx, y, c);
    let b = plant_is(d, w, h, x, y + dy, c);
    let e = plant_is(d, w, h, x + dx, y + dy, c);
    if (!a && !b) || (a && b && !e) {
        1
    } else {
        0
    }
}

/// The number of sides of the region of the cell with index `p`.
fn sides_of(d: &Vec<u8>, w: usize, h: usize, p: usize, bulk: bool) -> (r: u64)
    requires
        1 <= w <= 1024,
        1 <= h <= 1024,
        d@.len() == w * h,
        p < w * h,
    ensures
        r == region_sides(d@, w as int, h as int, p as int, bulk),
        r <= 4 * w * h,
{
    proof {
        assert(w * h <= 1048576) by (nonlinear_arith) requires w <= 1024, h <= 1024;
        assert(p / w < h) by (nonlinear_arith) requires p < w * h, w >= 1;
    }
    let total = w * h;
    let reg = region(d, w, h, p % w, p / w);
    let ghost terms = Seq::new(
        (w * h) as nat,
        |q: int| if in_region(d@, w as int, h as int, p as int % w as int, p as int / w as int, q % w as int, q / w as int) { cell_fence(d@, w as int, h as int, q % w as int, q / w as int, bulk) } else { 0 },
    );
    let mut acc: u64 = 0;
    let mut q: usize = 0;
    proof {
        assert(terms.subrange(0, 0) =~= Seq::<int>::empty());
    }
    while q < total
        invariant
            1 <= w <= 1024,
            1 <= h <= 1024,
            total == w * h,
            total <= 1048576,
            d@.len() == w * h,
            p < total,
            q <= total,
            terms.len() == total,
            reg@.len() == w * h,
            forall|x: int, y: int|
                0 <= x < w && 0 <= y < h ==> #[trigger] reg@[y * w + x] == in_region(d@, w as int, h as int, (p % w) as int, (p / w) as int, x, y),
            forall|t: int| 0 <= t < total ==> #[trigger] terms[t] == if in_region(d@, w as int, h as int, p as int % w as int, p as int / w as int, t % w as int, t / w as int) { cell_fence(d@, w as int, h as int, t % w as int, t / w as int, bulk) } else { 0 },
            acc == sum(terms.subrange(0, q as int)),
            acc <= 4 * q,
        decreases total - q,
    {
        let x = q % w;
        let y = q / w;
        proof {
            assert(y < h) by (nonlinear_arith) requires q < w * h, w >= 1, y == q / w;
            assert(q == y * w + x) by (nonlinear_arith) requires x == q % w, y == q / w, w >= 1;
            assert(terms.subrange(0, q + 1).drop_last() =~= terms.subrange(0, q as int));
            assert(terms.subrange(0, q + 1).last() == terms[q as int]);
        }
        if reg[q] {
            let c = if bulk {
                corners_at(d, w, h, x, y)
            } else {
                fences_at(d, w, h, x, y)
            };
            acc = acc + c;
        }
        q += 1;
    }
    proof {
        assert(terms.subrange(0, q as int) =~= terms);
        assert(4 * q == 4 * w * h) by (nonlinear_arith) requires q == w * h;
    }
    acc
}

/// The price of fencing the map of plants `d`, `w` by `h` (with `bulk`,
/// by sides).
pub fn fence_price(d: &Vec<u8>, w: usize, h: usize, bulk: bool) -> (r: u64)
    requires
        1 <= w <= 1024,
        1 <= h <= 1024,
        d@.len() == w * h,
    ensures
        r == bulk_price(d@, w as int, h as int, bulk),
{
    proof {
        assert(w * h <= 1048576) by (nonlinear_arith) requires w <= 1024, h <= 1024;
    }
    let total = w * h;
    let ghost terms = Seq::new((w * h) as nat, |p: int| region_sides(d@, w as int, h as int, p, bulk));
    let mut acc: u64 = 0;
    let mut p: usize = 0;
    proof {
        assert(terms.subrange(0, 0) =~= Seq::<int>::empty());
    }
    while p < total
        invariant
            1 <= w <= 1024,
            1 <= h <= 1024,
            total == w * h,
            total <= 1048576,
            d@.len() == w * h,
            p <= total,
            terms.len() == total,
            forall|t: int| 0 <= t < total ==> #[trigger] terms[t] == region_sides(d@, w as int, h as int, t, bulk),
            acc == sum(terms.subrange(0, p as int)),
            acc <= p * 4 * total,
        decreases total - p,
    {
        let s = sides_of(d, w, h, p, bulk);
        proof {
            assert(terms.subrange(0, p + 1).drop_last() =~= terms.subrange(0, p as int));
            assert(terms.subrange(0, p + 1).last() == terms[p as int]);
            assert(4 * w * h == 4 * total) by (nonlinear_arith) requires total == w * h;
            assert((p + 1) * 4 * total == p * 4 * total + 4 * total) by (nonlinear_arith);
            assert(p * 4 * total <= 1048576 * 4 * 1048576) by (nonlinear_arith) requires p <= 1048576, total <= 1048576;
        }
        acc = acc + s;
        p += 1;
    }
    proof {
        assert(terms.subrange(0, p as int) =~= terms);
    }
    acc
}

fn price(input: &str, bulk: bool) -> (r: Option<u64>)
    ensures
        ({
            let ls = lines(input.spec_bytes());
            &&& r.is_some() == (is_rectangle(ls) && 1 <= ls[0].len() <= 1024 && ls.len() <= 1024)
            &&& r.is_some() ==> r.unwrap() == bulk_price(crate::grid::concat_rows(ls), ls[0].len() as int, ls.len() as int, bulk)
        }),
{
    let g = match Grid::parse(input) {
        Some(g) => g,
        None => {
            return None;
        },
    };
    if g.width < 1 || g.width > 1024 || g.height < 1 || g.height > 1024 {
        return None;
    }
    let w = g.width as usize;
    let h = g.height as usize;
    proof {
        assert(g.data@.len() == w * h);
    }
    Some(fence_price(&g.data, w, h, bulk))
}

/// The price of fencing the map `input`: each region's area times its
/// perimeter; `None` when the lines differ in length or there are none, or
/// the map is empty, or wider or higher than 1024.
pub fn first_part(input: &str) -> (r: Option<u64>)
    ensures
        ({
            let ls = lines(input.spec_bytes());
            &&& r.is_some() == (is_rectangle(ls) && 1 <= ls[0].len() <= 1024 && ls.len() <= 1024)
            &&& r.is_some() ==> r.unwrap() == bulk_price(crate::grid::concat_rows(ls), ls[0].len() as int, ls.len() as int, false)
        }),
{
    price(input, false)
}

/// The bulk price of the map `input`: each region's area times its number
/// of sides; `None` as for `first_part`.
pub fn second_part(input: &str) -> (r: Option<u64>)
    ensures
        ({
            let ls = lines(input.spec_bytes());
            &&& r.is_some() == (is_rectangle(ls) && 1 <= ls[0].len() <= 1024 && ls.len() <= 1024)
            &&& r.is_some() ==> r.unwrap() == bulk_price(crate::grid::concat_rows(ls), ls[0].len() as int, ls.len() as int, true)
        }),
{
    price(input, true)
}

} // verus!
