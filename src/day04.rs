//! A word search: how often XMAS appears in any of the eight directions,
//! and how often two MAS cross in an X.
use crate::rows::{cell, Rows};
use crate::sums::{add_term, lemma_sum_nonneg, lemma_term_le_sum, sum};
use vstd::prelude::*;
use vstd::string::StringSliceAdditionalSpecFns;
use crate::text::lines;

verus! {

/// The eight directions (dx, dy): down, right, up, left and the four diagonals.
pub open spec fn direction(d: int) -> (int, int) {
    if d == 0 {
        (0, 1)
    } else if d == 1 {
        (1, 0)
    } else if d == 2 {
        (0, -1)
    } else if d == 3 {
        (-1, 0)
    } else if d == 4 {
        (1, 1)
    } else if d == 5 {
        (-1, -1)
    } else if d == 6 {
        (1, -1)
    } else {
        (-1, 1)
    }
}

/// The letters of XMAS.
pub open spec fn letter(i: int) -> u8 {
    if i == 0 {
        88u8
    } else if i == 1 {
        77u8
    } else if i == 2 {
        65u8
    } else {
        83u8
    }
}

/// XMAS is written from column `x` of row `y` in direction `d`.
pub open spec fn xmas_from(rows: Seq<Seq<u8>>, y: int, x: int, d: int) -> bool {
    forall|i: int|
        0 <= i < 4 ==> #[trigger] cell(rows, y + i * direction(d).1, x + i * direction(d).0) == Some(
            letter(i),
        )
}

/// The number of directions in which XMAS is written from a cell.
pub open spec fn cell_xmas(rows: Seq<Seq<u8>>, y: int, x: int) -> int {
    sum(Seq::new(8, |d: int| if xmas_from(rows, y, x, d) { 1int } else { 0int }))
}

/// Both diagonals through column `x` of row `y` read MAS one way or the
/// other, crossing at its A, away from the edge rows and columns.
pub open spec fn x_mas_at(rows: Seq<Seq<u8>>, y: int, x: int) -> bool {
    let m = Some(77u8);
    let s = Some(83u8);
    let c0 = cell(rows, y - 1, x - 1);
    let c1 = cell(rows, y + 1, x + 1);
    let c2 = cell(rows, y - 1, x + 1);
    let c3 = cell(rows, y + 1, x - 1);
    &&& 1 <= y < rows.len() - 1
    &&& 1 <= x < rows[y].len() - 1
    &&& cell(rows, y, x) == Some(65u8)
    &&& (c0 == m && c1 == s || c1 == m && c0 == s)
    &&& (c2 == m && c3 == s || c3 == m && c2 == s)
}

/// What a cell adds to the count: the XMAS words from it, or (`crossed`)
/// one for a crossing of MAS at it.
pub open spec fn cell_value(rows: Seq<Seq<u8>>, y: int, x: int, crossed: bool) -> int {
    if crossed {
        if x_mas_at(rows, y, x) {
            1
        } else {
            0
        }
    } else {
        cell_xmas(rows, y, x)
    }
}

pub open spec fn row_total(rows: Seq<Seq<u8>>, y: int, crossed: bool) -> int {
    sum(Seq::new(rows[y].len(), |x: int| cell_value(rows, y, x, crossed)))
}

/// The sum of `cell_value` over the grid.
pub open spec fn grid_total(rows: Seq<Seq<u8>>, crossed: bool) -> int {
    sum(Seq::new(rows.len(), |y: int| row_total(rows, y, crossed)))
}

fn direction_of(d: usize) -> (r: (i128, i128))
    requires
        d < 8,
    ensures
        r.0 == direction(d as int).0,
        r.1 == direction(d as int).1,
{
    if d == 0 {
        (0, 1)
    } else if d == 1 {
        (1, 0)
    } else if d == 2 {
        (0, -1)
    } else if d == 3 {
        (-1, 0)
    } else if d == 4 {
        (1, 1)
    } else if d == 5 {
        (-1, -1)
    } else if d == 6 {
        (1, -1)
    } else {
        (-1, 1)
    }
}

fn letter_of(i: usize) -> (r: u8)
    requires
        i < 4,
    ensures
        r == letter(i as int),
{
    if i == 0 {
        88
    } else if i == 1 {
        77
    } else if i == 2 {
        65
    } else {
        83
    }
}

fn check_xmas(g: &Rows, y: usize, x: usize, d: usize) -> (r: bool)
    requires
        g.wf(),
        d < 8,
    ensures
        r == xmas_from(g.rows(), y as int, x as int, d as int),
{
    let (dx, dy) = direction_of(d);
    let mut i: usize = 0;
    while i < 4
        invariant
            g.wf(),
            d < 8,
            dx == direction(d as int).0,
            dy == direction(d as int).1,
            i <= 4,
            forall|j: int|
                0 <= j < i ==> #[trigger] cell(
                    g.rows(),
                    y + j * direction(d as int).1,
                    x + j * direction(d as int).0,
                ) == Some(letter(j)),
        decreases 4 - i,
    {
        let c = g.get(y as i128 + i as i128 * dy, x as i128 + i as i128 * dx);
        if c != Some(letter_of(i)) {
            return false;
        }
        i += 1;
    }
    true
}

fn count_cell(g: &Rows, y: usize, x: usize) -> (r: u64)
    requires
        g.wf(),
    ensures
        r == cell_xmas(g.rows(), y as int, x as int),
{
    let ghost terms = Seq::new(
        8,
        |d: int| if xmas_from(g.rows(), y as int, x as int, d) { 1int } else { 0int },
    );
    let mut c: u64 = 0;
    let mut d: usize = 0;
    proof {
        assert(terms.subrange(0, 0) =~= Seq::<int>::empty());
    }
    while d < 8
        invariant
            g.wf(),
            d <= 8,
            terms.len() == 8,
            forall|j: int| 0 <= j < 8 ==> #[trigger] terms[j] == if xmas_from(g.rows(), y as int, x as int, j) { 1int } else { 0int },
            c == sum(terms.subrange(0, d as int)),
            c <= d,
        decreases 8 - d,
    {
        proof {
            assert(terms.subrange(0, d + 1).drop_last() =~= terms.subrange(0, d as int));
        }
        if check_xmas(g, y, x, d) {
            c += 1;
        }
        d += 1;
    }
    proof {
        assert(terms.subrange(0, 8) =~= terms);
    }
    c
}

fn cell_value_of(g: &Rows, y: usize, x: usize, crossed: bool) -> (r: u64)
    requires
        g.wf(),
    ensures
        r == cell_value(g.rows(), y as int, x as int, crossed),
{
    if crossed {
        if check_x_mas(g, y, x) {
            1
        } else {
            0
        }
    } else {
        count_cell(g, y, x)
    }
}

/// The sum of `cell_value` over the grid of `input`; `None` when it does
/// not fit in a `u64`.
fn count_grid(input: &[u8], crossed: bool) -> (r: Option<u64>)
    ensures
        r.is_some() == (grid_total(lines(input@), crossed) <= u64::MAX),
        r.is_some() ==> r.unwrap() == grid_total(lines(input@), crossed),
{
    let g = Rows::new(input);
    let ghost rows = g.rows();
    let h = g.height();
    let ghost row_terms = Seq::new(rows.len(), |yy: int| row_total(rows, yy, crossed));
    let mut total: u64 = 0;
    let mut y: usize = 0;
    proof {
        assert(row_terms.subrange(0, 0) =~= Seq::<int>::empty());
        assert forall|j: int| 0 <= j < row_terms.len() implies row_terms[j] >= 0 by {
            lemma_row_nonneg(rows, j, crossed);
        }
    }
    while y < h
        invariant
            g.wf(),
            rows == g.rows(),
            rows == lines(input@),
            h == rows.len() == row_terms.len(),
            y <= h,
            forall|j: int| 0 <= j < row_terms.len() ==> #[trigger] row_terms[j] == row_total(rows, j, crossed),
            forall|j: int| 0 <= j < row_terms.len() ==> row_terms[j] >= 0,
            total == sum(row_terms.subrange(0, y as int)),
        decreases h - y,
    {
        let w = g.width(y);
        let ghost cell_terms = Seq::new(rows[y as int].len(), |xx: int| cell_value(rows, y as int, xx, crossed));
        let mut row: u64 = 0;
        let mut x: usize = 0;
        proof {
            assert(cell_terms.subrange(0, 0) =~= Seq::<int>::empty());
            assert forall|j: int| 0 <= j < cell_terms.len() implies cell_terms[j] >= 0 by {
                lemma_cell_nonneg(rows, y as int, j, crossed);
            }
        }
        while x < w
            invariant
                g.wf(),
                rows == g.rows(),
                y < h == rows.len() == row_terms.len(),
                rows == lines(input@),
                forall|j: int| 0 <= j < row_terms.len() ==> #[trigger] row_terms[j] == row_total(rows, j, crossed),
                forall|j: int| 0 <= j < row_terms.len() ==> row_terms[j] >= 0,
                w == rows[y as int].len() == cell_terms.len(),
                x <= w,
                forall|j: int| 0 <= j < cell_terms.len() ==> #[trigger] cell_terms[j] == cell_value(rows, y as int, j, crossed),
                forall|j: int| 0 <= j < cell_terms.len() ==> cell_terms[j] >= 0,
                row == sum(cell_terms.subrange(0, x as int)),
            decreases w - x,
        {
            let c = cell_value_of(&g, y, x, crossed);
            match add_term(row, c, Ghost(cell_terms), Ghost(x as int)) {
                Some(v) => {
                    row = v;
                },
                None => {
                    proof {
                        lemma_term_le_sum(row_terms, y as int);
                        assert(cell_terms =~= Seq::new(
                            rows[y as int].len(),
                            |x: int| cell_value(rows, y as int, x, crossed),
                        ));
                        assert(row_terms =~= Seq::new(rows.len(), |y: int| row_total(rows, y, crossed)));
                    }
                    return None;
                },
            }
            x += 1;
        }
        proof {
            assert(cell_terms.subrange(0, x as int) =~= cell_terms);
            assert(cell_terms =~= Seq::new(
                rows[y as int].len(),
                |x: int| cell_value(rows, y as int, x, crossed),
            ));
        }
        match add_term(total, row, Ghost(row_terms), Ghost(y as int)) {
            Some(v) => {
                total = v;
            },
            None => {
                assert(row_terms =~= Seq::new(rows.len(), |y: int| row_total(rows, y, crossed)));
                return None;
            },
        }
        y += 1;
    }
    proof {
        assert(row_terms.subrange(0, y as int) =~= row_terms);
        assert(row_terms =~= Seq::new(rows.len(), |y: int| row_total(rows, y, crossed)));
    }
    Some(total)
}

proof fn lemma_cell_nonneg(rows: Seq<Seq<u8>>, y: int, x: int, crossed: bool)
    ensures
        cell_value(rows, y, x, crossed) >= 0,
{
    lemma_sum_nonneg(Seq::new(8, |d: int| if xmas_from(rows, y, x, d) { 1int } else { 0int }));
}

proof fn lemma_row_nonneg(rows: Seq<Seq<u8>>, y: int, crossed: bool)
    ensures
        row_total(rows, y, crossed) >= 0,
{
    let t = Seq::new(rows[y].len(), |x: int| cell_value(rows, y, x, crossed));
    assert forall|j: int| 0 <= j < t.len() implies t[j] >= 0 by {
        lemma_cell_nonneg(rows, y, j, crossed);
    }
    lemma_sum_nonneg(t);
}

fn check_x_mas(g: &Rows, y: usize, x: usize) -> (r: bool)
    requires
        g.wf(),
    ensures
        r == x_mas_at(g.rows(), y as int, x as int),
{
    let h = g.height();
    if y < 1 || h < 1 || y >= h - 1 {
        return false;
    }
    let w = g.width(y);
    if x < 1 || w < 1 || x >= w - 1 {
        return false;
    }
    let (yy, xx) = (y as i128, x as i128);
    let c0 = g.get(yy - 1, xx - 1);
    let c1 = g.get(yy + 1, xx + 1);
    let c2 = g.get(yy - 1, xx + 1);
    let c3 = g.get(yy + 1, xx - 1);
    let m = Some(77u8);
    let s = Some(83u8);
    g.get(yy, xx) == Some(65u8) && (c0 == m && c1 == s || c1 == m && c0 == s) && (c2 == m && c3
        == s || c3 == m && c2 == s)
}

/// The number of times XMAS is written, in any of the eight directions, in
/// the grid of `input`; `None` when that does not fit in a `u64`.
pub fn first_part(input: &str) -> (r: Option<u64>)
    ensures
        r.is_some() == (grid_total(lines(input.spec_bytes()), false) <= u64::MAX),
        r.is_some() ==> r.unwrap() == grid_total(lines(input.spec_bytes()), false),
{
    count_grid(input.as_bytes(), false)
}

/// The number of crossings of two MAS in the grid of `input`; `None` when
/// that does not fit in a `u64`.
pub fn second_part(input: &str) -> (r: Option<u64>)
    ensures
        r.is_some() == (grid_total(lines(input.spec_bytes()), true) <= u64::MAX),
        r.is_some() ==> r.unwrap() == grid_total(lines(input.spec_bytes()), true),
{
    count_grid(input.as_bytes(), true)
}

} // verus!
