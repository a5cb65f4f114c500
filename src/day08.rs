//! Antennas on a map: the antinodes that pairs of antennas of one frequency
//! create, and their resonant harmonics along the whole line.
use crate::rows::{cell, Rows};
use crate::sums::{add_term, is_multiple, lemma_sum_bounded, multiple_of, sum};
use crate::text::lines;
use vstd::prelude::*;
use vstd::string::StringSliceAdditionalSpecFns;

verus! {

/// The map is as wide as its first row and as high as its row count.
pub open spec fn width(rows: Seq<Seq<u8>>) -> int {
    if rows.len() == 0 {
        0
    } else {
        rows[0].len() as int
    }
}

pub open spec fn in_box(rows: Seq<Seq<u8>>, y: int, x: int) -> bool {
    0 <= y < rows.len() && 0 <= x < width(rows)
}

/// An antenna: a cell of the map that is not `.`; its byte is its frequency.
pub open spec fn antenna(rows: Seq<Seq<u8>>, y: int, x: int) -> bool {
    in_box(rows, y, x) && cell(rows, y, x).is_some() && cell(rows, y, x).unwrap() != 46u8
}

/// Two different antennas of one frequency.
pub open spec fn pair(rows: Seq<Seq<u8>>, ay: int, ax: int, by: int, bx: int) -> bool {
    antenna(rows, ay, ax) && antenna(rows, by, bx) && (ay != by || ax != bx) && cell(rows, ay, ax)
        == cell(rows, by, bx)
}

/// `(y, x)` is `k` times the step from `(ay, ax)` to `(by, bx)` away from `(ay, ax)`.
pub open spec fn at_multiple(y: int, x: int, ay: int, ax: int, by: int, bx: int, k: int) -> bool {
    y == ay + k * (by - ay) && x == ax + k * (bx - ax)
}

/// `(y, x)` is an antinode: as far beyond one antenna of a pair as the
/// other antenna is on the other side (or, with `harmonics`, anywhere on
/// their line at a whole multiple of their distance).
pub open spec fn antinode(rows: Seq<Seq<u8>>, y: int, x: int, harmonics: bool) -> bool {
    in_box(rows, y, x) && exists|ay: int, ax: int, by: int, bx: int|
        #[trigger] pair(rows, ay, ax, by, bx) && if harmonics {
            exists|k: int| #[trigger] at_multiple(y, x, ay, ax, by, bx, k)
        } else {
            y == 2 * ay - by && x == 2 * ax - bx
        }
}

pub open spec fn row_count(rows: Seq<Seq<u8>>, y: int, harmonics: bool) -> int {
    sum(Seq::new(width(rows) as nat, |x: int| if antinode(rows, y, x, harmonics) { 1int } else { 0int }))
}

/// The number of antinode positions on the map.
pub open spec fn antinode_count(rows: Seq<Seq<u8>>, harmonics: bool) -> int {
    sum(Seq::new(rows.len(), |y: int| row_count(rows, y, harmonics)))
}

/// The map has fewer than 2^62 rows and columns.
pub open spec fn small_map(rows: Seq<Seq<u8>>) -> bool {
    rows.len() < 0x4000_0000_0000_0000 && width(rows) < 0x4000_0000_0000_0000
}

/// The antennas of the map, as (row, column).
pub fn get_frequencies(g: &Rows) -> (r: Vec<(i128, i128)>)
    requires
        g.wf(),
        small_map(g.rows()),
    ensures
        forall|k: int| 0 <= k < r@.len() ==> antenna(g.rows(), (#[trigger] r@[k]).0 as int, r@[k].1 as int),
        forall|y: int, x: int|
            antenna(g.rows(), y, x) ==> exists|k: int| 0 <= k < r@.len() && #[trigger] r@[k] == (y as i128, x as i128),
        forall|k: int| 0 <= k < r@.len() ==> 0 <= (#[trigger] r@[k]).0 < 0x4000_0000_0000_0000 && 0 <= r@[k].1 < 0x4000_0000_0000_0000,
{
    let ghost rows = g.rows();
    let h = g.height();
    let w: usize = if h == 0 {
        0
    } else {
        g.width(0)
    };
    let mut out: Vec<(i128, i128)> = Vec::new();
    let mut y: usize = 0;
    while y < h
        invariant
            g.wf(),
            rows == g.rows(),
            small_map(rows),
            h == rows.len(),
            w == width(rows),
            y <= h,
            forall|k: int| 0 <= k < out@.len() ==> antenna(rows, (#[trigger] out@[k]).0 as int, out@[k].1 as int),
            forall|k: int| 0 <= k < out@.len() ==> 0 <= (#[trigger] out@[k]).0 < 0x4000_0000_0000_0000 && 0 <= out@[k].1 < 0x4000_0000_0000_0000,
            forall|yy: int, xx: int|
                yy < y && antenna(rows, yy, xx) ==> exists|k: int| 0 <= k < out@.len() && #[trigger] out@[k] == (yy as i128, xx as i128),
        decreases h - y,
    {
        let mut x: usize = 0;
        while x < w
            invariant
                g.wf(),
                rows == g.rows(),
                small_map(rows),
                h == rows.len(),
                w == width(rows),
                y < h,
                x <= w,
                forall|k: int| 0 <= k < out@.len() ==> antenna(rows, (#[trigger] out@[k]).0 as int, out@[k].1 as int),
                forall|k: int| 0 <= k < out@.len() ==> 0 <= (#[trigger] out@[k]).0 < 0x4000_0000_0000_0000 && 0 <= out@[k].1 < 0x4000_0000_0000_0000,
                forall|yy: int, xx: int|
                    (yy < y || (yy == y && xx < x)) && antenna(rows, yy, xx) ==> exists|k: int|
                        0 <= k < out@.len() && #[trigger] out@[k] == (yy as i128, xx as i128),
            decreases w - x,
        {
            let c = g.get(y as i128, x as i128);
            let ghost before = out@;
            if c.is_some() && c.unwrap() != 46 {
                out.push((y as i128, x as i128));
                proof {
                    assert(out@[before.len() as int] == (y as i128, x as i128));
                    assert forall|yy: int, xx: int|
                        (yy < y || (yy == y && xx < x + 1)) && antenna(rows, yy, xx) implies exists|k: int|
                            0 <= k < out@.len() && #[trigger] out@[k] == (yy as i128, xx as i128) by {
                        if yy < y || (yy == y && xx < x) {
                            let k = choose|k: int| 0 <= k < before.len() && #[trigger] before[k] == (yy as i128, xx as i128);
                            assert(out@[k] == before[k]);
                        } else {
                            assert(out@[before.len() as int] == (yy as i128, xx as i128));
                        }
                    }
                }
            }
            x += 1;
        }
        proof {
            assert forall|yy: int, xx: int|
                yy < y + 1 && antenna(rows, yy, xx) implies exists|k: int|
                    0 <= k < out@.len() && #[trigger] out@[k] == (yy as i128, xx as i128) by {
                if yy == y {
                    assert(xx < w);
                }
            }
        }
        y += 1;
    }
    proof {
        assert forall|yy: int, xx: int|
            antenna(rows, yy, xx) implies exists|k: int| 0 <= k < out@.len() && #[trigger] out@[k] == (yy as i128, xx as i128) by {
            assert(yy < h);
        }
    }
    out
}

const LIM: i128 = 0x4000_0000_0000_0000;

/// Whether `(y, x)` is an antinode of the antennas `a` and `b` (in that
/// order, or with `harmonics` on their line).
fn antinode_of(y: i128, x: i128, a: (i128, i128), b: (i128, i128), harmonics: bool) -> (r: bool)
    requires
        0 <= y < LIM,
        0 <= x < LIM,
        0 <= a.0 < LIM,
        0 <= a.1 < LIM,
        0 <= b.0 < LIM,
        0 <= b.1 < LIM,
        a != b,
    ensures
        r == if harmonics {
            exists|k: int| #[trigger] at_multiple(y as int, x as int, a.0 as int, a.1 as int, b.0 as int, b.1 as int, k)
        } else {
            y == 2 * a.0 - b.0 && x == 2 * a.1 - b.1
        },
{
    if !harmonics {
        return y == 2 * a.0 - b.0 && x == 2 * a.1 - b.1;
    }
    let dy = b.0 - a.0;
    let dx = b.1 - a.1;
    let flip = dx < 0 || (dx == 0 && dy < 0);
    let (ndy, ndx) = if flip {
        (-dy, -dx)
    } else {
        (dy, dx)
    };
    let ry = y - a.0;
    let rx = x - a.1;
    let ghost sg: int = if flip { -1 } else { 1 };
    proof {
        assert(ndy == sg * dy && ndx == sg * dx);
        assert forall|k: int| #[trigger] at_multiple(y as int, x as int, a.0 as int, a.1 as int, b.0 as int, b.1 as int, k)
            <==> (rx == (sg * k) * ndx && ry == (sg * k) * ndy) by {
            assert((sg * k) * ndx == k * dx && (sg * k) * ndy == k * dy) by (nonlinear_arith)
                requires ndy == sg * dy, ndx == sg * dx, sg * sg == 1;
        }
    }
    if ndx > 0 {
        match multiple_of(rx, ndx) {
            None => {
                proof {
                    if exists|k: int| #[trigger] at_multiple(y as int, x as int, a.0 as int, a.1 as int, b.0 as int, b.1 as int, k) {
                        let k = choose|k: int| #[trigger] at_multiple(y as int, x as int, a.0 as int, a.1 as int, b.0 as int, b.1 as int, k);
                        assert(is_multiple(rx as int, ndx as int, sg * k));
                    }
                }
                false
            },
            Some(k0) => {
                proof {
                    assert(k0 * ndx == rx);
                    assert(-LIM <= k0 <= LIM) by (nonlinear_arith)
                        requires k0 * ndx == rx, ndx >= 1, -LIM < rx < LIM;
                    assert(-LIM <= ndy <= LIM);
                    assert(-LIM * LIM <= k0 * ndy <= LIM * LIM) by (nonlinear_arith)
                        requires -LIM <= k0 <= LIM, -LIM <= ndy <= LIM, LIM > 0;
                }
                let ok = ry == k0 * ndy;
                proof {
                    if ok {
                        let k = sg * k0;
                        assert(sg * k == k0) by (nonlinear_arith)
                            requires k == sg * k0, sg * sg == 1;
                        assert(at_multiple(y as int, x as int, a.0 as int, a.1 as int, b.0 as int, b.1 as int, k));
                    } else if exists|k: int| #[trigger] at_multiple(y as int, x as int, a.0 as int, a.1 as int, b.0 as int, b.1 as int, k) {
                        let k = choose|k: int| #[trigger] at_multiple(y as int, x as int, a.0 as int, a.1 as int, b.0 as int, b.1 as int, k);
                        let kk = sg * k;
                        assert(kk == k0) by (nonlinear_arith)
                            requires rx == kk * ndx, rx == k0 * ndx, ndx > 0;
                    }
                }
                ok
            },
        }
    } else {
        proof {
            assert(ndx == 0 && ndy > 0);
        }
        if rx != 0 {
            proof {
                if exists|k: int| #[trigger] at_multiple(y as int, x as int, a.0 as int, a.1 as int, b.0 as int, b.1 as int, k) {
                    let k = choose|k: int| #[trigger] at_multiple(y as int, x as int, a.0 as int, a.1 as int, b.0 as int, b.1 as int, k);
                    assert((sg * k) * ndx == 0) by (nonlinear_arith)
                        requires ndx == 0;
                }
            }
            return false;
        }
        match multiple_of(ry, ndy) {
            None => {
                proof {
                    if exists|k: int| #[trigger] at_multiple(y as int, x as int, a.0 as int, a.1 as int, b.0 as int, b.1 as int, k) {
                        let k = choose|k: int| #[trigger] at_multiple(y as int, x as int, a.0 as int, a.1 as int, b.0 as int, b.1 as int, k);
                        assert(is_multiple(ry as int, ndy as int, sg * k));
                    }
                }
                false
            },
            Some(k0) => {
                proof {
                    let k = sg * k0;
                    assert(sg * k == k0) by (nonlinear_arith)
                        requires k == sg * k0, sg * sg == 1;
                    assert((sg * k) * ndx == 0) by (nonlinear_arith)
                        requires ndx == 0;
                    assert(at_multiple(y as int, x as int, a.0 as int, a.1 as int, b.0 as int, b.1 as int, k));
                }
                true
            },
        }
    }
}

pub open spec fn pair_hits(rows: Seq<Seq<u8>>, y: int, x: int, a: (i128, i128), b: (i128, i128), harmonics: bool) -> bool {
    pair(rows, a.0 as int, a.1 as int, b.0 as int, b.1 as int) && if harmonics {
        exists|k: int| #[trigger] at_multiple(y, x, a.0 as int, a.1 as int, b.0 as int, b.1 as int, k)
    } else {
        y == 2 * a.0 - b.0 && x == 2 * a.1 - b.1
    }
}

/// Whether `(y, x)` is an antinode, given all the antennas `ants` of the map.
fn is_antinode(g: &Rows, ants: &Vec<(i128, i128)>, y: usize, x: usize, harmonics: bool) -> (r: bool)
    requires
        g.wf(),
        small_map(g.rows()),
        in_box(g.rows(), y as int, x as int),
        forall|k: int| 0 <= k < ants@.len() ==> antenna(g.rows(), (#[trigger] ants@[k]).0 as int, ants@[k].1 as int),
        forall|yy: int, xx: int|
            antenna(g.rows(), yy, xx) ==> exists|k: int| 0 <= k < ants@.len() && #[trigger] ants@[k] == (yy as i128, xx as i128),
        forall|k: int| 0 <= k < ants@.len() ==> 0 <= (#[trigger] ants@[k]).0 < LIM && 0 <= ants@[k].1 < LIM,
    ensures
        r == antinode(g.rows(), y as int, x as int, harmonics),
{
    let ghost rows = g.rows();
    let yy = y as i128;
    let xx = x as i128;
    let mut i: usize = 0;
    while i < ants.len()
        invariant
            i <= ants@.len(),
            g.wf(),
            rows == g.rows(),
            in_box(rows, y as int, x as int),
            small_map(rows),
            yy == y,
            xx == x,
            forall|k: int| 0 <= k < ants@.len() ==> antenna(rows, (#[trigger] ants@[k]).0 as int, ants@[k].1 as int),
            forall|k: int| 0 <= k < ants@.len() ==> 0 <= (#[trigger] ants@[k]).0 < LIM && 0 <= ants@[k].1 < LIM,
            forall|p: int, q: int| 0 <= p < i && 0 <= q < ants@.len() ==> !#[trigger] pair_hits(rows, y as int, x as int, ants@[p], ants@[q], harmonics),
        decreases ants@.len() - i,
    {
        let mut j: usize = 0;
        while j < ants.len()
            invariant
                i < ants@.len(),
                j <= ants@.len(),
                g.wf(),
                rows == g.rows(),
                in_box(rows, y as int, x as int),
                small_map(rows),
                yy == y,
                xx == x,
                forall|k: int| 0 <= k < ants@.len() ==> antenna(rows, (#[trigger] ants@[k]).0 as int, ants@[k].1 as int),
                forall|k: int| 0 <= k < ants@.len() ==> 0 <= (#[trigger] ants@[k]).0 < LIM && 0 <= ants@[k].1 < LIM,
                forall|p: int, q: int| 0 <= p < i && 0 <= q < ants@.len() ==> !#[trigger] pair_hits(rows, y as int, x as int, ants@[p], ants@[q], harmonics),
                forall|q: int| 0 <= q < j ==> !#[trigger] pair_hits(rows, y as int, x as int, ants@[i as int], ants@[q], harmonics),
            decreases ants@.len() - j,
        {
            let a = ants[i];
            let b = ants[j];
            proof {
                assert(antenna(rows, a.0 as int, a.1 as int));
                assert(antenna(rows, b.0 as int, b.1 as int));
                assert(0 <= a.0 < LIM && 0 <= a.1 < LIM);
                assert(0 <= b.0 < LIM && 0 <= b.1 < LIM);
                assert(0 <= yy < LIM && 0 <= xx < LIM);
            }
            if (a.0 != b.0 || a.1 != b.1) && g.get(a.0, a.1) == g.get(b.0, b.1) && antinode_of(yy, xx, a, b, harmonics) {
                proof {
                    assert(pair_hits(rows, y as int, x as int, a, b, harmonics));
                    assert(pair(rows, a.0 as int, a.1 as int, b.0 as int, b.1 as int));
                }
                return true;
            }
            j += 1;
        }
        i += 1;
    }
    proof {
        if antinode(rows, y as int, x as int, harmonics) {
            let (ay, ax, by, bx) = choose|ay: int, ax: int, by: int, bx: int|
                #[trigger] pair(rows, ay, ax, by, bx) && if harmonics {
                    exists|k: int| #[trigger] at_multiple(y as int, x as int, ay, ax, by, bx, k)
                } else {
                    y == 2 * ay - by && x == 2 * ax - bx
                };
            let p = choose|k: int| 0 <= k < ants@.len() && #[trigger] ants@[k] == (ay as i128, ax as i128);
            let q = choose|k: int| 0 <= k < ants@.len() && #[trigger] ants@[k] == (by as i128, bx as i128);
            assert(0 <= ay < LIM && 0 <= ax < LIM && 0 <= by < LIM && 0 <= bx < LIM);
            assert(ants@[p].0 as int == ay && ants@[p].1 as int == ax);
            assert(ants@[q].0 as int == by && ants@[q].1 as int == bx);
            assert(pair_hits(rows, y as int, x as int, ants@[p], ants@[q], harmonics));
        }
    }
    false
}

/// The number of antinode positions on the map `input` (with `harmonics`,
/// counting every position on the lines through pairs); `None` when the map
/// has 2^62 rows or columns or more, or the count does not fit in a `u64`.
fn count_antinodes(input: &[u8], harmonics: bool) -> (r: Option<u64>)
    ensures
        r.is_some() == (small_map(lines(input@)) && antinode_count(lines(input@), harmonics) <= u64::MAX),
        r.is_some() ==> r.unwrap() == antinode_count(lines(input@), harmonics),
{
    let g = Rows::new(input);
    let ghost rows = g.rows();
    let h = g.height();
    let w: usize = if h == 0 {
        0
    } else {
        g.width(0)
    };
    if h as u128 >= 0x4000_0000_0000_0000 || w as u128 >= 0x4000_0000_0000_0000 {
        return None;
    }
    let ants = get_frequencies(&g);
    let ghost row_terms = Seq::new(rows.len(), |yy: int| row_count(rows, yy, harmonics));
    let mut total: u64 = 0;
    let mut y: usize = 0;
    proof {
        assert(row_terms.subrange(0, 0) =~= Seq::<int>::empty());
        assert forall|j: int| 0 <= j < row_terms.len() implies row_terms[j] >= 0 by {
            lemma_sum_bounded(
                Seq::new(width(rows) as nat, |x: int| if antinode(rows, j, x, harmonics) { 1int } else { 0int }),
                1,
            );
        }
    }
    while y < h
        invariant
            g.wf(),
            rows == g.rows(),
            rows == lines(input@),
            small_map(rows),
            h == rows.len() == row_terms.len(),
            w == width(rows),
            y <= h,
            forall|k: int| 0 <= k < ants@.len() ==> antenna(rows, (#[trigger] ants@[k]).0 as int, ants@[k].1 as int),
            forall|yy: int, xx: int|
                antenna(rows, yy, xx) ==> exists|k: int| 0 <= k < ants@.len() && #[trigger] ants@[k] == (yy as i128, xx as i128),
            forall|k: int| 0 <= k < ants@.len() ==> 0 <= (#[trigger] ants@[k]).0 < LIM && 0 <= ants@[k].1 < LIM,
            forall|j: int| 0 <= j < row_terms.len() ==> #[trigger] row_terms[j] == row_count(rows, j, harmonics),
            forall|j: int| 0 <= j < row_terms.len() ==> row_terms[j] >= 0,
            total == sum(row_terms.subrange(0, y as int)),
        decreases h - y,
    {
        let ghost cell_terms = Seq::new(
            width(rows) as nat,
            |xx: int| if antinode(rows, y as int, xx, harmonics) { 1int } else { 0int },
        );
        let mut row: u64 = 0;
        let mut x: usize = 0;
        while x < w
            invariant
                g.wf(),
                rows == g.rows(),
                small_map(rows),
                y < h == rows.len(),
                w == width(rows) == cell_terms.len(),
                x <= w,
                forall|k: int| 0 <= k < ants@.len() ==> antenna(rows, (#[trigger] ants@[k]).0 as int, ants@[k].1 as int),
                forall|yy: int, xx: int|
                    antenna(rows, yy, xx) ==> exists|k: int| 0 <= k < ants@.len() && #[trigger] ants@[k] == (yy as i128, xx as i128),
                forall|k: int| 0 <= k < ants@.len() ==> 0 <= (#[trigger] ants@[k]).0 < LIM && 0 <= ants@[k].1 < LIM,
                forall|j: int| 0 <= j < cell_terms.len() ==> #[trigger] cell_terms[j] == if antinode(rows, y as int, j, harmonics) { 1int } else { 0int },
                row == sum(cell_terms.subrange(0, x as int)),
                row <= x,
            decreases w - x,
        {
            proof {
                assert(cell_terms.subrange(0, x + 1).drop_last() =~= cell_terms.subrange(0, x as int));
            }
            if is_antinode(&g, &ants, y, x, harmonics) {
                row += 1;
            }
            x += 1;
        }
        proof {
            assert(cell_terms.subrange(0, x as int) =~= cell_terms);
            assert(row_terms[y as int] == sum(cell_terms));
        }
        match add_term(total, row, Ghost(row_terms), Ghost(y as int)) {
            Some(v) => {
                total = v;
            },
            None => {
                assert(row_terms =~= Seq::new(rows.len(), |y: int| row_count(rows, y, harmonics)));
                return None;
            },
        }
        y += 1;
    }
    proof {
        assert(row_terms.subrange(0, y as int) =~= row_terms);
        assert(row_terms =~= Seq::new(rows.len(), |y: int| row_count(rows, y, harmonics)));
    }
    Some(total)
}

/// The number of antinode positions on the map `input`; `None` when the map
/// has 2^62 rows or columns or more, or the count does not fit in a `u64`.
pub fn first_part(input: &str) -> (r: Option<u64>)
    ensures
        r.is_some() == (small_map(lines(input.spec_bytes())) && antinode_count(lines(input.spec_bytes()), false) <= u64::MAX),
        r.is_some() ==> r.unwrap() == antinode_count(lines(input.spec_bytes()), false),
{
    count_antinodes(input.as_bytes(), false)
}

/// As `first_part`, counting every position on the lines through pairs of
/// antennas at whole multiples of their distance.
pub fn second_part(input: &str) -> (r: Option<u64>)
    ensures
        r.is_some() == (small_map(lines(input.spec_bytes())) && antinode_count(lines(input.spec_bytes()), true) <= u64::MAX),
        r.is_some() ==> r.unwrap() == antinode_count(lines(input.spec_bytes()), true),
{
    count_antinodes(input.as_bytes(), true)
}

} // verus!





