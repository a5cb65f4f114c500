//! A robot in a warehouse pushing rows of boxes, and the sum of the box
//! coordinates after all its moves.
use crate::day05::{blank_index, lemma_blank_index};
use crate::grid::concat_rows;
use crate::text::{line_spans, spans_are};
use crate::sums::{add_term, sum};
use crate::text::lines;
use vstd::prelude::*;
use vstd::string::StringSliceAdditionalSpecFns;

verus! {

/// The warehouse: `w` columns by `h` rows of bytes, row after row.
pub struct Warehouse {
    pub w: usize,
    pub h: usize,
    pub cells: Vec<u8>,
}

pub open spec fn in_box(w: int, h: int, x: int, y: int) -> bool {
    0 <= x < w && 0 <= y < h
}

/// The byte at `(x, y)`; off the warehouse counts as wall.
pub open spec fn at(c: Seq<u8>, w: int, h: int, x: int, y: int) -> u8 {
    if in_box(w, h, x, y) && y * w + x < c.len() {
        c[y * w + x]
    } else {
        35u8
    }
}

/// How many cells lie ahead of `(x, y)` in direction `(dx, dy)` before the edge.
pub open spec fn room(w: int, h: int, x: int, y: int, dx: int, dy: int) -> int {
    if !in_box(w, h, x, y) {
        0
    } else if dx > 0 {
        w - x
    } else if dx < 0 {
        x + 1
    } else if dy > 0 {
        h - y
    } else {
        y + 1
    }
}

/// The first cell from `(x, y)` on, in direction `(dx, dy)`, that is not a box.
pub open spec fn past_boxes(c: Seq<u8>, w: int, h: int, x: int, y: int, dx: int, dy: int) -> (int, int)
    decreases room(w, h, x, y, dx, dy),
{
    if at(c, w, h, x, y) == 79u8 && room(w, h, x, y, dx, dy) > 0 && (dx != 0 || dy != 0) && -1 <= dx <= 1 && -1 <= dy <= 1 && (dx == 0 || dy == 0) {
        past_boxes(c, w, h, x + dx, y + dy, dx, dy)
    } else {
        (x, y)
    }
}

/// The step of a move byte (`^`, `v`, `<`, `>`); other bytes do not move.
pub open spec fn move_step(m: u8) -> (int, int) {
    if m == 94u8 {
        (0, -1)
    } else if m == 118u8 {
        (0, 1)
    } else if m == 60u8 {
        (-1, 0)
    } else if m == 62u8 {
        (1, 0)
    } else {
        (0, 0)
    }
}

/// One move of the robot at `(rx, ry)`: onto a free cell, or pushing the row
/// of boxes ahead when a free cell lies behind it; else it stays.
pub open spec fn move_once(c: Seq<u8>, w: int, h: int, rx: int, ry: int, m: u8) -> (Seq<u8>, int, int) {
    let (dx, dy) = move_step(m);
    let nx = rx + dx;
    let ny = ry + dy;
    let t = at(c, w, h, nx, ny);
    if dx == 0 && dy == 0 {
        (c, rx, ry)
    } else if t == 46u8 {
        (c, nx, ny)
    } else if t == 79u8 {
        let (ex, ey) = past_boxes(c, w, h, nx, ny, dx, dy);
        if at(c, w, h, ex, ey) == 46u8 {
            (c.update(ey * w + ex, 79u8).update(ny * w + nx, 46u8), nx, ny)
        } else {
            (c, rx, ry)
        }
    } else {
        (c, rx, ry)
    }
}

/// The warehouse and robot after the moves `ms`, one after the other.
pub open spec fn run(c: Seq<u8>, w: int, h: int, rx: int, ry: int, ms: Seq<u8>) -> (Seq<u8>, int, int)
    decreases ms.len(),
{
    if ms.len() == 0 {
        (c, rx, ry)
    } else {
        let (c2, x2, y2) = run(c, w, h, rx, ry, ms.drop_last());
        move_once(c2, w, h, x2, y2, ms.last())
    }
}

/// The sum of `100 * y + x` over the boxes.
pub open spec fn gps_sum(c: Seq<u8>, w: int) -> int {
    sum(Seq::new(c.len(), |i: int| if c[i] == 79u8 { 100 * (i / w) + i % w } else { 0 }))
}

/// The first cell past the boxes ahead of `(x, y)`.
fn find_past_boxes(wh: &Warehouse, x: i64, y: i64, dx: i64, dy: i64) -> (r: (i64, i64))
    requires
        wh.cells@.len() == wh.w * wh.h,
        wh.w < 0x1_0000_0000,
        wh.h < 0x1_0000_0000,
        -1 <= x <= wh.w,
        -1 <= y <= wh.h,
        -1 <= dx <= 1,
        -1 <= dy <= 1,
        dx == 0 || dy == 0,
        dx != 0 || dy != 0,
    ensures
        r.0 == past_boxes(wh.cells@, wh.w as int, wh.h as int, x as int, y as int, dx as int, dy as int).0,
        r.1 == past_boxes(wh.cells@, wh.w as int, wh.h as int, x as int, y as int, dx as int, dy as int).1,
        -1 <= r.0 <= wh.w,
        -1 <= r.1 <= wh.h,
    decreases room(wh.w as int, wh.h as int, x as int, y as int, dx as int, dy as int),
{
    if get_cell(wh, x, y) == 79u8 {
        find_past_boxes(wh, x + dx, y + dy, dx, dy)
    } else {
        (x, y)
    }
}

fn get_cell(wh: &Warehouse, x: i64, y: i64) -> (r: u8)
    requires
        wh.cells@.len() == wh.w * wh.h,
        wh.w < 0x1_0000_0000,
        wh.h < 0x1_0000_0000,
        -2 <= x <= wh.w + 1,
        -2 <= y <= wh.h + 1,
    ensures
        r == at(wh.cells@, wh.w as int, wh.h as int, x as int, y as int),
{
    if x < 0 || y < 0 || x as i128 >= wh.w as i128 || y as i128 >= wh.h as i128 {
        return 35u8;
    }
    proof {
        assert(y * wh.w + x < wh.w * wh.h) by (nonlinear_arith)
            requires 0 <= x < wh.w, 0 <= y < wh.h;
        assert(y * wh.w <= y * wh.w + x);
    }
    let n = wh.cells.len();
    let i = y as u64 * wh.w as u64 + x as u64;
    assert(i < n);
    wh.cells[i as usize]
}

pub open spec fn wh_ok(wh: &Warehouse) -> bool {
    &&& wh.cells@.len() == wh.w * wh.h
    &&& wh.w < 0x1_0000_0000
    &&& wh.h < 0x1_0000_0000
}

fn set_cell(wh: &mut Warehouse, x: i64, y: i64, v: u8)
    requires
        wh_ok(old(wh)),
        in_box(old(wh).w as int, old(wh).h as int, x as int, y as int),
    ensures
        wh_ok(final(wh)),
        final(wh).w == old(wh).w,
        final(wh).h == old(wh).h,
        final(wh).cells@ == old(wh).cells@.update(y * old(wh).w + x, v),
{
    proof {
        assert(y * wh.w + x < wh.w * wh.h) by (nonlinear_arith)
            requires 0 <= x < wh.w, 0 <= y < wh.h;
        assert(y * wh.w <= y * wh.w + x);
    }
    let n = wh.cells.len();
    let i = y as u64 * wh.w as u64 + x as u64;
    assert(i < n);
    wh.cells.set(i as usize, v);
}

/// Carries out the move `m` of the robot at `(rx, ry)`; returns where the
/// robot is after it.
pub fn apply_move(wh: &mut Warehouse, rx: i64, ry: i64, m: u8) -> (r: (i64, i64))
    requires
        wh_ok(old(wh)),
        in_box(old(wh).w as int, old(wh).h as int, rx as int, ry as int),
    ensures
        wh_ok(final(wh)),
        final(wh).w == old(wh).w,
        final(wh).h == old(wh).h,
        in_box(final(wh).w as int, final(wh).h as int, r.0 as int, r.1 as int),
        (final(wh).cells@, r.0 as int, r.1 as int) == move_once(old(wh).cells@, old(wh).w as int, old(wh).h as int, rx as int, ry as int, m),
{
    let (dx, dy): (i64, i64) = if m == 94 {
        (0, -1)
    } else if m == 118 {
        (0, 1)
    } else if m == 60 {
        (-1, 0)
    } else if m == 62 {
        (1, 0)
    } else {
        return (rx, ry);
    };
    let nx = rx + dx;
    let ny = ry + dy;
    let t = get_cell(wh, nx, ny);
    if t == 46 {
        return (nx, ny);
    }
    if t != 79 {
        return (rx, ry);
    }
    let (ex, ey) = find_past_boxes(wh, nx, ny, dx, dy);
    if get_cell(wh, ex, ey) != 46 {
        return (rx, ry);
    }
    set_cell(wh, ex, ey, 79);
    set_cell(wh, nx, ny, 46);
    (nx, ny)
}

/// Carries out the moves `ms` from the robot at `(rx, ry)`; returns where
/// the robot ends.
pub fn run_moves(wh: &mut Warehouse, rx: i64, ry: i64, ms: &Vec<u8>) -> (r: (i64, i64))
    requires
        wh_ok(old(wh)),
        in_box(old(wh).w as int, old(wh).h as int, rx as int, ry as int),
    ensures
        wh_ok(final(wh)),
        final(wh).w == old(wh).w,
        final(wh).h == old(wh).h,
        (final(wh).cells@, r.0 as int, r.1 as int) == run(old(wh).cells@, old(wh).w as int, old(wh).h as int, rx as int, ry as int, ms@),
{
    let ghost c0 = wh.cells@;
    let (mut x, mut y) = (rx, ry);
    let mut i: usize = 0;
    proof {
        assert(ms@.subrange(0, 0) =~= Seq::<u8>::empty());
    }
    while i < ms.len()
        invariant
            i <= ms@.len(),
            wh_ok(wh),
            wh.w == old(wh).w,
            wh.h == old(wh).h,
            c0 == old(wh).cells@,
            in_box(wh.w as int, wh.h as int, x as int, y as int),
            (wh.cells@, x as int, y as int) == run(c0, wh.w as int, wh.h as int, rx as int, ry as int, ms@.subrange(0, i as int)),
        decreases ms@.len() - i,
    {
        proof {
            assert(ms@.subrange(0, i + 1).drop_last() =~= ms@.subrange(0, i as int));
        }
        let (nx, ny) = apply_move(wh, x, y, ms[i]);
        x = nx;
        y = ny;
        i += 1;
    }
    proof {
        assert(ms@.subrange(0, i as int) =~= ms@);
    }
    (x, y)
}

/// The sum of `100 * y + x` over the boxes of the warehouse; `None` when it
/// does not fit in a `u64`.
pub fn gps(wh: &Warehouse) -> (r: Option<u64>)
    requires
        wh_ok(wh),
        wh.w >= 1,
    ensures
        r.is_some() == (gps_sum(wh.cells@, wh.w as int) <= u64::MAX),
        r.is_some() ==> r.unwrap() == gps_sum(wh.cells@, wh.w as int),
{
    let c = &wh.cells;
    let ghost terms = Seq::new(c@.len(), |i: int| if c@[i] == 79u8 { 100 * (i / wh.w as int) + i % wh.w as int } else { 0 });
    let mut acc: u64 = 0;
    let mut i: usize = 0;
    proof {
        assert(terms.subrange(0, 0) =~= Seq::<int>::empty());
        assert forall|j: int| 0 <= j < terms.len() implies terms[j] >= 0 by {
            if c@[j] == 79u8 {
                assert(j / (wh.w as int) >= 0 && j % (wh.w as int) >= 0) by (nonlinear_arith)
                    requires j >= 0, wh.w >= 1;
            }
        }
    }
    while i < c.len()
        invariant
            i <= c@.len() == terms.len(),
            wh_ok(wh),
            wh.w >= 1,
            c@ == wh.cells@,
            gps_sum(wh.cells@, wh.w as int) == sum(terms),
            forall|j: int| 0 <= j < terms.len() ==> terms[j] >= 0,
            forall|j: int| 0 <= j < terms.len() ==> #[trigger] terms[j] == if c@[j] == 79u8 { 100 * (j / wh.w as int) + j % wh.w as int } else { 0 },
            acc == sum(terms.subrange(0, i as int)),
        decreases c@.len() - i,
    {
        let t: u64 = if c[i] == 79 {
            let yy = (i / wh.w) as u64;
            let xx = (i % wh.w) as u64;
            proof {
                assert(yy <= i && xx < wh.w) by (nonlinear_arith)
                    requires yy == i / wh.w, xx == i % wh.w, wh.w >= 1, i >= 0;
            }
            match yy.checked_mul(100) {
                Some(v) => match v.checked_add(xx) {
                    Some(t) => t,
                    None => {
                        proof {
                            crate::sums::lemma_term_le_sum(terms, i as int);
                        }
                        return None;
                    },
                },
                None => {
                    proof {
                        crate::sums::lemma_term_le_sum(terms, i as int);
                    }
                    return None;
                },
            }
        } else {
            0
        };
        match add_term(acc, t, Ghost(terms), Ghost(i as int)) {
            Some(v) => {
                acc = v;
            },
            None => {
                return None;
            },
        }
        i += 1;
    }
    proof {
        assert(terms.subrange(0, i as int) =~= terms);
    }
    Some(acc)
}

/// Map lines of one length (at least one column, fewer than 2^32 of each),
/// an empty line, then lines of moves.
pub open spec fn is_warehouse(b: Seq<u8>) -> bool {
    let ls = lines(b);
    let k = blank_index(ls) as int;
    &&& 1 <= k < ls.len()
    &&& 1 <= ls[0].len() < 0x1_0000_0000
    &&& k < 0x1_0000_0000
    &&& forall|i: int| 0 <= i < k ==> (#[trigger] ls[i]).len() == ls[0].len()
}

pub open spec fn map_cells(b: Seq<u8>) -> Seq<u8> {
    concat_rows(lines(b).subrange(0, blank_index(lines(b)) as int))
}

pub open spec fn moves(b: Seq<u8>) -> Seq<u8> {
    concat_rows(lines(b).subrange(blank_index(lines(b)) as int + 1, lines(b).len() as int))
}

/// The index of the first robot (`@`) from `i` on, or the length.
pub open spec fn first_robot(c: Seq<u8>, i: int) -> int
    decreases c.len() - i,
{
    if i >= c.len() || i < 0 {
        c.len() as int
    } else if c[i] == 64u8 {
        i
    } else {
        first_robot(c, i + 1)
    }
}

/// The sum of the box coordinates after all the moves of `b`.
pub open spec fn final_gps(b: Seq<u8>) -> int {
    let c = map_cells(b);
    let w = lines(b)[0].len() as int;
    let h = blank_index(lines(b)) as int;
    let f = first_robot(c, 0);
    let (c0, sx, sy) = if f < c.len() { (c.update(f, 46u8), f % w, f / w) } else { (c, 0, 0) };
    gps_sum(run(c0, w, h, sx, sy, moves(b)).0, w)
}

fn append_bytes(out: &mut Vec<u8>, b: &[u8], lo: usize, hi: usize)
    requires
        lo <= hi <= b@.len(),
    ensures
        final(out)@ == old(out)@ + b@.subrange(lo as int, hi as int),
{
    let ghost start = out@;
    let mut j: usize = lo;
    while j < hi
        invariant
            lo <= j <= hi <= b@.len(),
            out@ == start + b@.subrange(lo as int, j as int),
        decreases hi - j,
    {
        out.push(b[j]);
        proof {
            assert(out@ =~= start + b@.subrange(lo as int, j + 1));
        }
        j += 1;
    }
}

/// The sum of the box coordinates after the robot of `input` has made all
/// its moves; `None` when `input` is not a warehouse map, an empty line and
/// moves, or the sum does not fit in a `u64`.
pub fn first_part(input: &str) -> (r: Option<u64>)
    ensures
        r.is_some() == (is_warehouse(input.spec_bytes()) && final_gps(input.spec_bytes()) <= u64::MAX),
        r.is_some() ==> r.unwrap() == final_gps(input.spec_bytes()),
{
    let b = input.as_bytes();
    let spans = line_spans(b);
    let ghost ls = lines(b@);
    let mut k: usize = 0;
    while k < spans.len() && spans[k].0 < spans[k].1
        invariant
            k <= spans@.len(),
            ls == lines(b@),
            spans_are(b@, spans@, ls),
            forall|i: int| 0 <= i < k ==> (#[trigger] ls[i]).len() > 0,
        decreases spans@.len() - k,
    {
        k += 1;
    }
    proof {
        lemma_blank_index(ls, k as int);
    }
    if k == 0 || k == spans.len() {
        return None;
    }
    let w = spans[0].1 - spans[0].0;
    if w as u64 >= 0x1_0000_0000 || k as u64 >= 0x1_0000_0000 {
        return None;
    }
    let mut cells: Vec<u8> = Vec::new();
    let mut i: usize = 0;
    proof {
        assert(ls.subrange(0, 0).len() == 0);
    }
    while i < k
        invariant
            i <= k < spans@.len(),
            ls == lines(b@),
            b@ == input.spec_bytes(),
            spans_are(b@, spans@, ls),
            blank_index(ls) == k,
            w == ls[0].len(),
            1 <= w < 0x1_0000_0000,
            forall|j: int| 0 <= j < i ==> (#[trigger] ls[j]).len() == w,
            cells@ == concat_rows(ls.subrange(0, i as int)),
            cells@.len() == i * w,
        decreases k - i,
    {
        let (lo, hi) = spans[i];
        proof {
            assert(ls[i as int] == b@.subrange(lo as int, hi as int));
        }
        if hi - lo != w {
            return None;
        }
        append_bytes(&mut cells, b, lo, hi);
        proof {
            assert(ls.subrange(0, i + 1).drop_last() =~= ls.subrange(0, i as int));
            assert(cells@.len() == (i + 1) * w) by (nonlinear_arith)
                requires cells@.len() == i * w + w;
        }
        i += 1;
    }
    proof {
        assert(ls.subrange(0, k as int) =~= ls.subrange(0, blank_index(ls) as int));
    }
    let mut ms: Vec<u8> = Vec::new();
    let mut j: usize = k + 1;
    proof {
        assert(ls.subrange(k + 1, k + 1).len() == 0);
    }
    while j < spans.len()
        invariant
            k + 1 <= j <= spans@.len(),
            ls == lines(b@),
            spans_are(b@, spans@, ls),
            ms@ == concat_rows(ls.subrange(k + 1, j as int)),
        decreases spans@.len() - j,
    {
        let (lo, hi) = spans[j];
        proof {
            assert(ls[j as int] == b@.subrange(lo as int, hi as int));
        }
        append_bytes(&mut ms, b, lo, hi);
        proof {
            assert(ls.subrange(k + 1, j + 1).drop_last() =~= ls.subrange(k + 1, j as int));
        }
        j += 1;
    }
    let ghost c = cells@;
    let mut f: usize = 0;
    while f < cells.len() && cells[f] != 64
        invariant
            f <= cells@.len(),
            c == cells@,
            first_robot(c, 0) == first_robot(c, f as int),
        decreases cells@.len() - f,
    {
        f += 1;
    }
    let (sx, sy): (i64, i64) = if f < cells.len() {
        cells.set(f, 46);
        proof {
            assert(f / w < k) by (nonlinear_arith)
                requires f < k * w, w >= 1;
            assert(f % w < w);
        }
        ((f % w) as i64, (f / w) as i64)
    } else {
        (0, 0)
    };
    let mut wh = Warehouse { w, h: k, cells };
    proof {
        assert(wh.cells@.len() == wh.w * wh.h) by (nonlinear_arith)
            requires wh.cells@.len() == k * w, wh.w == w, wh.h == k;
    }
    run_moves(&mut wh, sx, sy, &ms);
    gps(&wh)
}

} // verus!




