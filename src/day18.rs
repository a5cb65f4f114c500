//! Bytes falling onto a square memory grid: the fewest steps from the top
//! left corner to the bottom right one, and the first byte that cuts them
//! apart.
use crate::text::{digits_value, is_number, line_spans, lines, parse_number, split_on, split_spans, spans_are};
use vstd::prelude::*;
use vstd::string::StringSliceAdditionalSpecFns;

verus! {

/// A line `X,Y`.
pub open spec fn is_byte_line(l: Seq<u8>) -> bool {
    split_on(l, 44u8).len() == 2 && is_number(split_on(l, 44u8)[0]) && is_number(split_on(l, 44u8)[1])
}

pub open spec fn is_byte_list(b: Seq<u8>) -> bool {
    forall|i: int| 0 <= i < lines(b).len() ==> is_byte_line(#[trigger] lines(b)[i])
}

pub open spec fn bytes_of(b: Seq<u8>) -> Seq<(int, int)> {
    lines(b).map_values(|l: Seq<u8>| (digits_value(split_on(l, 44u8)[0]), digits_value(split_on(l, 44u8)[1])))
}

/// One of the first `n` bytes has fallen on `(x, y)`.
pub open spec fn fallen(ws: Seq<(int, int)>, n: int, x: int, y: int) -> bool {
    exists|i: int| 0 <= i < n && i < ws.len() && #[trigger] ws[i] == (x, y)
}

/// `(x, y)` is on the grid and no byte has fallen on it.
pub open spec fn free(ws: Seq<(int, int)>, n: int, size: int, x: int, y: int) -> bool {
    0 <= x < size && 0 <= y < size && !fallen(ws, n, x, y)
}

/// `(x, y)` can be reached from the top left corner in at most `k` steps
/// through free cells.
pub open spec fn reach(ws: Seq<(int, int)>, n: int, size: int, k: nat, x: int, y: int) -> bool
    decreases k,
{
    if k == 0 {
        x == 0 && y == 0
    } else {
        let p = (k - 1) as nat;
        reach(ws, n, size, p, x, y) || (free(ws, n, size, x, y) && (reach(ws, n, size, p, x - 1, y)
            || reach(ws, n, size, p, x + 1, y) || reach(ws, n, size, p, x, y - 1) || reach(
            ws,
            n,
            size,
            p,
            x,
            y + 1,
        )))
    }
}

/// The fewest steps (from `k` on, at most `size * size`) that reach the
/// bottom right corner; `None` when no number of steps does.
pub open spec fn fewest_from(ws: Seq<(int, int)>, n: int, size: int, k: nat) -> Option<nat>
    decreases size * size - k,
{
    if reach(ws, n, size, k, size - 1, size - 1) {
        Some(k)
    } else if k >= size * size {
        None
    } else {
        fewest_from(ws, n, size, k + 1)
    }
}

/// The fewest steps to the bottom right corner once `n` bytes have fallen.
pub open spec fn fewest_steps(ws: Seq<(int, int)>, n: int, size: int) -> Option<nat> {
    fewest_from(ws, n, size, 0)
}

proof fn lemma_outside_unreached(ws: Seq<(int, int)>, n: int, size: int, k: nat, x: int, y: int)
    requires
        size >= 1,
        !(0 <= x < size && 0 <= y < size),
    ensures
        !reach(ws, n, size, k, x, y),
    decreases k,
{
    if k > 0 {
        lemma_outside_unreached(ws, n, size, (k - 1) as nat, x, y);
    }
}

/// Layer `k` equals layer `k + 1` on the grid.
pub open spec fn settled(ws: Seq<(int, int)>, n: int, size: int, k: nat) -> bool {
    forall|x: int, y: int|
        0 <= x < size && 0 <= y < size ==> #[trigger] reach(ws, n, size, k, x, y) == reach(ws, n, size, k + 1, x, y)
}

/// Once a layer stops growing, it never grows again.
proof fn lemma_settled_stays(ws: Seq<(int, int)>, n: int, size: int, k: nat, j: nat)
    requires
        size >= 1,
        settled(ws, n, size, k),
        k <= j,
    ensures
        forall|x: int, y: int| #[trigger] reach(ws, n, size, j, x, y) == reach(ws, n, size, k, x, y),
    decreases j - k,
{
    if j > k {
        lemma_settled_stays(ws, n, size, k, (j - 1) as nat);
        assert forall|x: int, y: int| #[trigger] reach(ws, n, size, j, x, y) == reach(ws, n, size, k, x, y) by {
            if 0 <= x < size && 0 <= y < size {
                assert(reach(ws, n, size, (j - 1) as nat, x, y) == reach(ws, n, size, k, x, y));
                assert(reach(ws, n, size, (j - 1) as nat, x - 1, y) == reach(ws, n, size, k, x - 1, y));
                assert(reach(ws, n, size, (j - 1) as nat, x + 1, y) == reach(ws, n, size, k, x + 1, y));
                assert(reach(ws, n, size, (j - 1) as nat, x, y - 1) == reach(ws, n, size, k, x, y - 1));
                assert(reach(ws, n, size, (j - 1) as nat, x, y + 1) == reach(ws, n, size, k, x, y + 1));
                assert(reach(ws, n, size, k + 1, x, y) == reach(ws, n, size, k, x, y));
            } else {
                lemma_outside_unreached(ws, n, size, j, x, y);
                lemma_outside_unreached(ws, n, size, k, x, y);
            }
        }
    }
}

proof fn lemma_never_after(ws: Seq<(int, int)>, n: int, size: int, k: nat, j: nat)
    requires
        size >= 1,
        settled(ws, n, size, k),
        k <= j,
        !reach(ws, n, size, k, size - 1, size - 1),
    ensures
        fewest_from(ws, n, size, j) == None::<nat>,
    decreases size * size - j,
{
    lemma_settled_stays(ws, n, size, k, j);
    assert(!reach(ws, n, size, j, size - 1, size - 1));
    if j < size * size {
        lemma_never_after(ws, n, size, k, j + 1);
    }
}

/// The cells where one of the first `n` bytes has fallen, row after row.
fn fallen_grid(ws: &Vec<(u64, u64)>, n: usize, size: usize) -> (r: Vec<bool>)
    requires
        1 <= size <= 1024,
        n <= ws@.len(),
    ensures
        r@.len() == size * size,
        forall|x: int, y: int|
            0 <= x < size && 0 <= y < size ==> #[trigger] r@[y * size + x] == fallen(
                ws_ints(ws@),
                n as int,
                x,
                y,
            ),
{
    let ghost wv = ws_ints(ws@);
    proof {
        assert(size * size <= 1048576) by (nonlinear_arith)
            requires size <= 1024;
    }
    let total = size * size;
    let mut g: Vec<bool> = Vec::new();
    let mut i: usize = 0;
    while i < total
        invariant
            1 <= size <= 1024,
            total == size * size,
            i <= size * size,
            g@.len() == i,
            forall|t: int| 0 <= t < i ==> !#[trigger] g@[t],
        decreases size * size - i,
    {
        g.push(false);
        i += 1;
    }
    proof {
        assert forall|x: int, y: int|
            0 <= x < size && 0 <= y < size implies #[trigger] g@[y * size + x] == fallen(wv, 0, x, y) by {
            lemma_idx(size as int, x, y);
        }
    }
    let mut k: usize = 0;
    while k < n
        invariant
            1 <= size <= 1024,
            k <= n <= ws@.len(),
            total == size * size,
            wv == ws_ints(ws@),
            g@.len() == size * size,
            forall|x: int, y: int|
                0 <= x < size && 0 <= y < size ==> #[trigger] g@[y * size + x] == fallen(wv, k as int, x, y),
        decreases n - k,
    {
        let (bx, by) = ws[k];
        let ghost before = g@;
        if bx < size as u64 && by < size as u64 {
            proof {
                lemma_idx(size as int, bx as int, by as int);
                assert(by * size <= by * size + bx);
            }
            g.set(by as usize * size + bx as usize, true);
        }
        proof {
            assert forall|x: int, y: int|
                0 <= x < size && 0 <= y < size implies #[trigger] g@[y * size + x] == fallen(wv, k + 1, x, y) by {
                lemma_idx(size as int, x, y);
                if (x, y) == (bx as int, by as int) {
                    assert(wv[k as int] == (x, y));
                } else {
                    if bx < size && by < size && y * size + x == by * size + bx {
                        lemma_index_unique(size as int, x, y, bx as int, by as int);
                    }
                    assert(g@[y * size + x] == before[y * size + x]);
                    if fallen(wv, k + 1, x, y) {
                        let i = choose|i: int| 0 <= i < k + 1 && i < wv.len() && #[trigger] wv[i] == (x, y);
                        assert(i != k);
                    }
                }
            }
        }
        k += 1;
    }
    g
}

proof fn lemma_idx(w: int, x: int, y: int)
    requires
        0 <= x < w,
        0 <= y < w,
    ensures
        0 <= y * w + x < w * w,
{
    assert(0 <= y * w + x < w * w) by (nonlinear_arith)
        requires 0 <= x < w, 0 <= y < w;
}

proof fn lemma_row_order(w: int, x: int, y: int, row: int)
    requires
        0 <= x < w,
        0 <= y,
        0 <= row,
    ensures
        (y * w + x < row * w + w) == (y <= row),
{
    if y <= row {
        assert(y * w + x < row * w + w) by (nonlinear_arith)
            requires 0 <= x < w, y <= row;
    } else {
        assert(y * w >= row * w + w) by (nonlinear_arith)
            requires y >= row + 1, w >= 0;
    }
}

proof fn lemma_index_unique(w: int, x: int, y: int, x2: int, y2: int)
    requires
        0 <= x < w,
        0 <= x2 < w,
        0 <= y,
        0 <= y2,
        y * w + x == y2 * w + x2,
    ensures
        x == x2 && y == y2,
{
    assert(y == y2) by (nonlinear_arith)
        requires 0 <= x < w, 0 <= x2 < w, y * w + x == y2 * w + x2, 0 <= y, 0 <= y2;
}

/// Layer `k` of the cells reached, row after row.
pub open spec fn is_layer(g: Seq<bool>, ws: Seq<(int, int)>, n: int, size: int, k: nat) -> bool {
    &&& g.len() == size * size
    &&& forall|x: int, y: int|
        0 <= x < size && 0 <= y < size ==> #[trigger] g[y * size + x] == reach(ws, n, size, k, x, y)
}

/// Layer `k + 1` from layer `k`; also whether it grew.
#[verifier::rlimit(50)]
fn next_layer(cur: &Vec<bool>, blocked: &Vec<bool>, size: usize, ws: Ghost<Seq<(int, int)>>, n: Ghost<int>, k: Ghost<nat>) -> (r: (Vec<bool>, bool))
    requires
        1 <= size <= 1024,
        is_layer(cur@, ws@, n@, size as int, k@),
        blocked@.len() == size * size,
        forall|x: int, y: int|
            0 <= x < size && 0 <= y < size ==> #[trigger] blocked@[y * size + x] == fallen(ws@, n@, x, y),
    ensures
        is_layer(r.0@, ws@, n@, size as int, k@ + 1),
        r.1 == !settled(ws@, n@, size as int, k@),
{
    let mut next: Vec<bool> = Vec::new();
    let mut grew = false;
    let mut y: usize = 0;
    while y < size
        invariant
            1 <= size <= 1024,
            y <= size,
            is_layer(cur@, ws@, n@, size as int, k@),
            blocked@.len() == size * size,
            forall|x: int, yy: int|
                0 <= x < size && 0 <= yy < size ==> #[trigger] blocked@[yy * size + x] == fallen(ws@, n@, x, yy),
            next@.len() == y * size,
            forall|x: int, yy: int|
                0 <= x < size && 0 <= yy < y ==> #[trigger] next@[yy * size + x] == reach(ws@, n@, size as int, k@ + 1, x, yy),
            grew == exists|x: int, yy: int|
                0 <= x < size && 0 <= yy < y && #[trigger] reach(ws@, n@, size as int, k@, x, yy) != reach(ws@, n@, size as int, k@ + 1, x, yy),
        decreases size - y,
    {
        let mut x: usize = 0;
        proof {
            assert forall|xx: int, yy: int|
                0 <= xx < size && 0 <= yy < size && yy * size + xx < y * size + 0 implies #[trigger] next@[yy * size + xx] == reach(ws@, n@, size as int, k@ + 1, xx, yy) by {
                if y >= 1 {
                    lemma_row_order(size as int, xx, yy, y - 1);
                    assert((y - 1) * size + size == y * size) by (nonlinear_arith);
                } else {
                    assert(yy * size >= 0) by (nonlinear_arith) requires yy >= 0, size >= 0;
                }
            }
            let e1 = exists|xx: int, yy: int|
                0 <= xx < size && 0 <= yy < size && yy * size + xx < y * size + 0 && #[trigger] reach(ws@, n@, size as int, k@, xx, yy) != reach(ws@, n@, size as int, k@ + 1, xx, yy);
            if e1 {
                let (xx, yy) = choose|xx: int, yy: int|
                    0 <= xx < size && 0 <= yy < size && yy * size + xx < y * size + 0 && #[trigger] reach(ws@, n@, size as int, k@, xx, yy) != reach(ws@, n@, size as int, k@ + 1, xx, yy);
                if y >= 1 {
                    lemma_row_order(size as int, xx, yy, y - 1);
                    assert((y - 1) * size + size == y * size) by (nonlinear_arith);
                } else {
                    assert(yy * size >= 0) by (nonlinear_arith) requires yy >= 0, size >= 0;
                }
            }
            if grew {
                let (xx, yy) = choose|xx: int, yy: int|
                    0 <= xx < size && 0 <= yy < y && #[trigger] reach(ws@, n@, size as int, k@, xx, yy) != reach(ws@, n@, size as int, k@ + 1, xx, yy);
                lemma_row_order(size as int, xx, yy, y - 1);
                assert((y - 1) * size + size == y * size) by (nonlinear_arith);
            }
            assert(size * size <= 1048576) by (nonlinear_arith) requires size <= 1024;
        }
        while x < size
            invariant
                1 <= size <= 1024,
                size * size <= 1048576,
                y < size,
                x <= size,
                is_layer(cur@, ws@, n@, size as int, k@),
                blocked@.len() == size * size,
                forall|xx: int, yy: int|
                    0 <= xx < size && 0 <= yy < size ==> #[trigger] blocked@[yy * size + xx] == fallen(ws@, n@, xx, yy),
                next@.len() == y * size + x,
                forall|xx: int, yy: int|
                    0 <= xx < size && 0 <= yy < size && yy * size + xx < y * size + x ==> #[trigger] next@[yy * size + xx] == reach(ws@, n@, size as int, k@ + 1, xx, yy),
                grew == exists|xx: int, yy: int|
                    0 <= xx < size && 0 <= yy < size && yy * size + xx < y * size + x && #[trigger] reach(ws@, n@, size as int, k@, xx, yy) != reach(ws@, n@, size as int, k@ + 1, xx, yy),
            decreases size - x,
        {
            proof {
                lemma_idx(size as int, x as int, y as int);
                assert(y * size <= y * size + x);
                if x >= 1 { lemma_idx(size as int, x - 1, y as int); }
                if x + 1 < size { lemma_idx(size as int, x + 1, y as int); }
                if y >= 1 {
                    lemma_idx(size as int, x as int, y - 1);
                    assert((y - 1) * size + x == y * size + x - size) by (nonlinear_arith);
                }
                if y + 1 < size {
                    lemma_idx(size as int, x as int, y + 1);
                    assert((y + 1) * size + x == y * size + x + size) by (nonlinear_arith);
                }
                if x == 0 { lemma_outside_unreached(ws@, n@, size as int, k@, -1, y as int); }
                if x + 1 == size { lemma_outside_unreached(ws@, n@, size as int, k@, x + 1, y as int); }
                if y == 0 { lemma_outside_unreached(ws@, n@, size as int, k@, x as int, -1); }
                if y + 1 == size { lemma_outside_unreached(ws@, n@, size as int, k@, x as int, y + 1); }
            }
            let here = y * size + x;
            let old_v = cur[here];
            let near = (x >= 1 && cur[here - 1]) || (x + 1 < size && cur[here + 1]) || (y >= 1 && cur[here - size]) || (y + 1 < size && cur[here + size]);
            let v = old_v || (!blocked[here] && near);
            proof {
                let p = k@;
                assert(old_v == reach(ws@, n@, size as int, p, x as int, y as int));
                assert(blocked@[here as int] == fallen(ws@, n@, x as int, y as int));
                if x >= 1 {
                    assert(cur@[y * size + (x - 1)] == reach(ws@, n@, size as int, p, x - 1, y as int));
                    assert(here - 1 == y * size + (x - 1));
                }
                if x + 1 < size {
                    assert(cur@[y * size + (x + 1)] == reach(ws@, n@, size as int, p, x + 1, y as int));
                    assert(here + 1 == y * size + (x + 1));
                }
                if y >= 1 {
                    assert(cur@[(y - 1) * size + x] == reach(ws@, n@, size as int, p, x as int, y - 1));
                }
                if y + 1 < size {
                    assert(cur@[(y + 1) * size + x] == reach(ws@, n@, size as int, p, x as int, y + 1));
                }
                if x >= 1 { assert(here - 1 == y * size + (x - 1)); }
                if y >= 1 { assert(here - size == (y - 1) * size + x) by (nonlinear_arith) requires here == y * size + x; }
                if y + 1 < size { assert(here + size == (y + 1) * size + x) by (nonlinear_arith) requires here == y * size + x; }
                assert(v == reach(ws@, n@, size as int, k@ + 1, x as int, y as int));
            }
            if v != old_v {
                grew = true;
            }
            next.push(v);
            proof {
                assert forall|xx: int, yy: int|
                    0 <= xx < size && 0 <= yy < size && yy * size + xx < y * size + x + 1 implies #[trigger] next@[yy * size + xx] == reach(ws@, n@, size as int, k@ + 1, xx, yy) by {
                    if yy * size + xx == y * size + x {
                        lemma_index_unique(size as int, xx, yy, x as int, y as int);
                    }
                }
                let e = exists|xx: int, yy: int|
                    0 <= xx < size && 0 <= yy < size && yy * size + xx < y * size + x + 1 && #[trigger] reach(ws@, n@, size as int, k@, xx, yy) != reach(ws@, n@, size as int, k@ + 1, xx, yy);
                if e {
                    let (xx, yy) = choose|xx: int, yy: int|
                        0 <= xx < size && 0 <= yy < size && yy * size + xx < y * size + x + 1 && #[trigger] reach(ws@, n@, size as int, k@, xx, yy) != reach(ws@, n@, size as int, k@ + 1, xx, yy);
                    if yy * size + xx == y * size + x {
                        lemma_index_unique(size as int, xx, yy, x as int, y as int);
                    }
                }
            }
            x += 1;
        }
        proof {
            assert forall|xx: int, yy: int| 0 <= xx < size && 0 <= yy < y + 1 implies #[trigger] next@[yy * size + xx] == reach(ws@, n@, size as int, k@ + 1, xx, yy) by {
                lemma_row_order(size as int, xx, yy, y as int);
            }
            let e1 = exists|xx: int, yy: int|
                0 <= xx < size && 0 <= yy < size && yy * size + xx < y * size + size && #[trigger] reach(ws@, n@, size as int, k@, xx, yy) != reach(ws@, n@, size as int, k@ + 1, xx, yy);
            let e2 = exists|xx: int, yy: int|
                0 <= xx < size && 0 <= yy < y + 1 && #[trigger] reach(ws@, n@, size as int, k@, xx, yy) != reach(ws@, n@, size as int, k@ + 1, xx, yy);
            if e1 {
                let (xx, yy) = choose|xx: int, yy: int|
                    0 <= xx < size && 0 <= yy < size && yy * size + xx < y * size + size && #[trigger] reach(ws@, n@, size as int, k@, xx, yy) != reach(ws@, n@, size as int, k@ + 1, xx, yy);
                lemma_row_order(size as int, xx, yy, y as int);
            }
            if e2 {
                let (xx, yy) = choose|xx: int, yy: int|
                    0 <= xx < size && 0 <= yy < y + 1 && #[trigger] reach(ws@, n@, size as int, k@, xx, yy) != reach(ws@, n@, size as int, k@ + 1, xx, yy);
                lemma_row_order(size as int, xx, yy, y as int);
            }
            assert(e1 == e2);
            assert(next@.len() == (y + 1) * size) by (nonlinear_arith) requires next@.len() == y * size + size;
        }
        y += 1;
    }
    (next, grew)
}

/// The fewest steps from the top left to the bottom right corner of a grid
/// of `size` by `size` once the first `n` bytes of `ws` have fallen; `None`
/// when there is no way through.
pub fn fewest(ws: &Vec<(u64, u64)>, n: usize, size: usize) -> (r: Option<u64>)
    requires
        1 <= size <= 1024,
        n <= ws@.len(),
    ensures
        r.is_some() == fewest_steps(ws_ints(ws@), n as int, size as int).is_some(),
        r.is_some() ==> r.unwrap() == fewest_steps(ws_ints(ws@), n as int, size as int).unwrap(),
{
    let ghost wv = ws_ints(ws@);
    let blocked = fallen_grid(ws, n, size);
    proof {
        assert(size * size <= 1048576) by (nonlinear_arith) requires size <= 1024;
    }
    let total = size * size;
    let mut cur: Vec<bool> = Vec::new();
    let mut i: usize = 0;
    while i < total
        invariant
            total == size * size,
            i <= total,
            cur@.len() == i,
            forall|t: int| 0 <= t < i ==> #[trigger] cur@[t] == (t == 0),
        decreases total - i,
    {
        cur.push(i == 0);
        i += 1;
    }
    proof {
        assert forall|x: int, y: int| 0 <= x < size && 0 <= y < size implies #[trigger] cur@[y * size + x] == reach(wv, n as int, size as int, 0, x, y) by {
            lemma_idx(size as int, x, y);
            if y * size + x == 0 {
                lemma_index_unique(size as int, x, y, 0, 0);
            }
        }
    }
    proof {
        assert(total >= 1) by (nonlinear_arith) requires total == size * size, size >= 1;
    }
    let end = total - 1;
    proof {
        lemma_idx(size as int, size - 1, size - 1);
        assert((size - 1) * size + (size - 1) == size * size - 1) by (nonlinear_arith);
    }
    let mut k: u64 = 0;
    loop
        invariant
            1 <= size <= 1024,
            total == size * size,
            end == total - 1,
            end == (size - 1) * size + (size - 1),
            k <= total,
            wv == ws_ints(ws@),
            is_layer(cur@, wv, n as int, size as int, k as nat),
            blocked@.len() == size * size,
            forall|x: int, y: int|
                0 <= x < size && 0 <= y < size ==> #[trigger] blocked@[y * size + x] == fallen(wv, n as int, x, y),
            fewest_steps(wv, n as int, size as int) == fewest_from(wv, n as int, size as int, k as nat),
        decreases total - k,
    {
        if cur[end] {
            return Some(k);
        }
        if k >= total as u64 {
            return None;
        }
        let (next, grew) = next_layer(&cur, &blocked, size, Ghost(wv), Ghost(n as int), Ghost(k as nat));
        if !grew {
            proof {
                lemma_never_after(wv, n as int, size as int, k as nat, k as nat);
            }
            return None;
        }
        cur = next;
        k += 1;
    }
}

pub open spec fn ws_ints(ws: Seq<(u64, u64)>) -> Seq<(int, int)> {
    ws.map_values(|p: (u64, u64)| (p.0 as int, p.1 as int))
}

/// The first count of fallen bytes, from `n` to the last byte, that leaves
/// no way through.
pub open spec fn first_block_from(ws: Seq<(int, int)>, size: int, n: int) -> Option<int>
    decreases ws.len() + 1 - n,
{
    if n > ws.len() || n < 0 {
        None
    } else if fewest_steps(ws, n, size).is_none() {
        Some(n)
    } else {
        first_block_from(ws, size, n + 1)
    }
}

/// The grid size and the number of bytes that fall before the first walk:
/// 7 and 12 for the small example list of 25 bytes, else 71 and 1024.
pub open spec fn grid_size(count: int) -> int {
    if count == 25 { 7 } else { 71 }
}

pub open spec fn first_fall(count: int) -> int {
    if count == 25 { 12 } else { 1024 }
}

/// The bytes of `input`, or `None` when a line is not `X,Y`.
pub fn get_walls(input: &[u8]) -> (r: Option<Vec<(u64, u64)>>)
    ensures
        r.is_some() == is_byte_list(input@),
        r.is_some() ==> ws_ints(r.unwrap()@) == bytes_of(input@),
{
    let spans = line_spans(input);
    let ghost ls = lines(input@);
    let mut out: Vec<(u64, u64)> = Vec::new();
    let mut k: usize = 0;
    while k < spans.len()
        invariant
            k <= spans@.len(),
            ls == lines(input@),
            spans_are(input@, spans@, ls),
            forall|i: int| 0 <= i < k ==> is_byte_line(#[trigger] ls[i]),
            ws_ints(out@) == bytes_of(input@).subrange(0, k as int),
        decreases spans@.len() - k,
    {
        let (lo, hi) = spans[k];
        proof {
            assert(ls[k as int] == input@.subrange(lo as int, hi as int));
        }
        let p = split_spans(input, lo, hi, 44u8);
        if p.len() != 2 {
            return None;
        }
        let x = parse_number(input, p[0].0, p[0].1);
        let y = parse_number(input, p[1].0, p[1].1);
        match (x, y) {
            (Some(x), Some(y)) => {
                let ghost prior = out@;
                out.push((x, y));
                proof {
                    assert(out@ == prior.push((x, y)));
                    assert(ws_ints(out@) =~= ws_ints(prior).push((x as int, y as int)));
                    assert(bytes_of(input@)[k as int] == (x as int, y as int));
                    assert(ws_ints(out@) =~= bytes_of(input@).subrange(0, k + 1));
                }
            },
            _ => {
                return None;
            },
        }
        k += 1;
    }
    proof {
        assert(ws_ints(out@) =~= bytes_of(input@));
    }
    Some(out)
}

/// The fewest steps through the grid of `input` once the first bytes have
/// fallen; `None` when a line is not `X,Y` or there is no way through.
pub fn first_part(input: &str) -> (r: Option<u64>)
    ensures
        ({
            let b = input.spec_bytes();
            let ws = bytes_of(b);
            let f = fewest_steps(ws, if first_fall(ws.len() as int) < ws.len() { first_fall(ws.len() as int) } else { ws.len() as int }, grid_size(ws.len() as int));
            &&& r.is_some() == (is_byte_list(b) && f.is_some())
            &&& r.is_some() ==> r.unwrap() == f.unwrap()
        }),
{
    let ws = match get_walls(input.as_bytes()) {
        Some(ws) => ws,
        None => {
            return None;
        },
    };
    let (size, limit): (usize, usize) = if ws.len() == 25 {
        (7, 12)
    } else {
        (71, 1024)
    };
    let n = if limit < ws.len() {
        limit
    } else {
        ws.len()
    };
    fewest(&ws, n, size)
}

/// The byte after whose fall there is no way through the grid of `input`
/// any more (trying from the first byte after the first walk on); `None`
/// when a line is not `X,Y` or the way stays open.
pub fn second_part(input: &str) -> (r: Option<(u64, u64)>)
    ensures
        ({
            let b = input.spec_bytes();
            let ws = bytes_of(b);
            let f = first_block_from(ws, grid_size(ws.len() as int), first_fall(ws.len() as int) + 1);
            &&& r.is_some() == (is_byte_list(b) && f.is_some())
            &&& r.is_some() ==> (r.unwrap().0 as int, r.unwrap().1 as int) == ws[f.unwrap() - 1]
        }),
{
    let ws = match get_walls(input.as_bytes()) {
        Some(ws) => ws,
        None => {
            return None;
        },
    };
    let ghost wv = ws_ints(ws@);
    let (size, limit): (usize, usize) = if ws.len() == 25 {
        (7, 12)
    } else {
        (71, 1024)
    };
    let mut m = limit;
    while m < ws.len()
        invariant
            wv == ws_ints(ws@),
            wv == bytes_of(input.spec_bytes()),
            is_byte_list(input.spec_bytes()),
            size == grid_size(wv.len() as int),
            limit == first_fall(wv.len() as int),
            limit <= m,
            1 <= size <= 1024,
            first_block_from(wv, size as int, limit + 1) == first_block_from(wv, size as int, m + 1),
        decreases ws@.len() - m,
    {
        if fewest(&ws, m + 1, size).is_none() {
            proof {
                assert(wv[m as int] == (ws@[m as int].0 as int, ws@[m as int].1 as int));
                assert(first_block_from(wv, size as int, m + 1) == Some(m + 1));
            }
            return Some(ws[m]);
        }
        m += 1;
    }
    None
}

} // verus!


