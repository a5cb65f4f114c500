//! Hiking trails on a topographic map: paths that climb one step at a time
//! from height 0 to height 9.
use crate::rows::{cell, Rows};
use crate::sums::{add_term, lemma_sum_nonneg, lemma_term_le_sum, sum};
use crate::text::lines;
use vstd::prelude::*;
use vstd::string::StringSliceAdditionalSpecFns;

verus! {

/// The height at column `x` of row `y`: its digit, or `None` off the map
/// or on a byte that is not a digit.
pub open spec fn height(rows: Seq<Seq<u8>>, y: int, x: int) -> Option<nat> {
    match cell(rows, y, x) {
        Some(c) => if 48 <= c <= 57 {
            Some((c - 48) as nat)
        } else {
            None
        },
        None => None,
    }
}

/// The step in direction `d`: right, down, left, up.
pub open spec fn step_of(d: int) -> (int, int) {
    if d == 0 {
        (1, 0)
    } else if d == 1 {
        (0, 1)
    } else if d == 2 {
        (-1, 0)
    } else {
        (0, -1)
    }
}

/// The trails up from `(y, x)` in direction `d`: those of the neighbour
/// there when it is one higher than `h`.
pub open spec fn via(rows: Seq<Seq<u8>>, y: int, x: int, h: nat, d: int) -> nat
    decreases 9 - h, 0int,
{
    let ny = y + step_of(d).1;
    let nx = x + step_of(d).0;
    if h < 9 && height(rows, ny, nx) == Some((h + 1) as nat) {
        trails(rows, ny, nx, (h + 1) as nat)
    } else {
        0
    }
}

/// The number of trails from `(y, x)`, at height `h`, up to a height 9.
pub open spec fn trails(rows: Seq<Seq<u8>>, y: int, x: int, h: nat) -> nat
    decreases 9 - h, 1int,
{
    if h >= 9 {
        1
    } else {
        via(rows, y, x, h, 0) + via(rows, y, x, h, 1) + via(rows, y, x, h, 2) + via(rows, y, x, h, 3)
    }
}

/// Four to the power `9 - h`: the most trails there can be from height `h`.
pub open spec fn trail_bound(h: nat) -> nat
    decreases 9 - h,
{
    if h >= 9 {
        1
    } else {
        4 * trail_bound((h + 1) as nat)
    }
}

proof fn lemma_trail_bound(h: nat)
    requires
        h <= 9,
    ensures
        1 <= trail_bound(h) <= 262144,
{
    reveal_with_fuel(trail_bound, 11);
}

fn step_to(d: usize) -> (r: (i128, i128))
    requires
        d < 4,
    ensures
        r.0 == step_of(d as int).0,
        r.1 == step_of(d as int).1,
{
    if d == 0 {
        (1, 0)
    } else if d == 1 {
        (0, 1)
    } else if d == 2 {
        (-1, 0)
    } else {
        (0, -1)
    }
}

fn height_at(g: &Rows, y: i128, x: i128) -> (r: Option<u8>)
    requires
        g.wf(),
    ensures
        r.is_some() == height(g.rows(), y as int, x as int).is_some(),
        r.is_some() ==> r.unwrap() == height(g.rows(), y as int, x as int).unwrap(),
{
    match g.get(y, x) {
        Some(c) => if c >= 48 && c <= 57 {
            Some(c - 48)
        } else {
            None
        },
        None => None,
    }
}

/// The number of trails from `(y, x)`, at height `h`, up to a height 9.
pub fn trail_count(g: &Rows, y: i128, x: i128, h: u8) -> (r: u64)
    requires
        g.wf(),
        h <= 9,
        height(g.rows(), y as int, x as int) == Some(h as nat),
    ensures
        r == trails(g.rows(), y as int, x as int, h as nat),
        r <= trail_bound(h as nat),
    decreases 9 - h,
{
    if h >= 9 {
        return 1;
    }
    let _rows = g.height();
    let _cols = g.width(y as usize);
    let mut total: u64 = 0;
    let mut d: usize = 0;
    proof {
        lemma_trail_bound((h + 1) as nat);
    }
    while d < 4
        invariant
            d <= 4,
            g.wf(),
            h < 9,
            0 <= y <= usize::MAX,
            0 <= x <= usize::MAX,
            trail_bound(h as nat) == 4 * trail_bound((h + 1) as nat),
            trail_bound((h + 1) as nat) <= 262144,
            total <= d * trail_bound((h + 1) as nat),
            total == (if d > 0 { via(g.rows(), y as int, x as int, h as nat, 0) } else { 0 }) + (if d > 1 {
                via(g.rows(), y as int, x as int, h as nat, 1)
            } else {
                0
            }) + (if d > 2 { via(g.rows(), y as int, x as int, h as nat, 2) } else { 0 }) + (if d
                > 3 {
                via(g.rows(), y as int, x as int, h as nat, 3)
            } else {
                0
            }),
        decreases 4 - d,
    {
        let (dx, dy) = step_to(d);
        let ny = y + dy;
        let nx = x + dx;
        let c = if height_at(g, ny, nx) == Some(h + 1) {
            trail_count(g, ny, nx, h + 1)
        } else {
            0
        };
        total = total + c;
        d += 1;
    }
    total
}

/// The heights 9 reachable from `(y, x)` through direction `d`.
pub open spec fn peaks_via(rows: Seq<Seq<u8>>, y: int, x: int, h: nat, d: int) -> Set<(i128, i128)>
    decreases 9 - h, 0int,
{
    let ny = y + step_of(d).1;
    let nx = x + step_of(d).0;
    if h < 9 && height(rows, ny, nx) == Some((h + 1) as nat) {
        peaks(rows, ny, nx, (h + 1) as nat)
    } else {
        Set::empty()
    }
}

/// The positions of height 9 that trails from `(y, x)`, at height `h`, reach.
pub open spec fn peaks(rows: Seq<Seq<u8>>, y: int, x: int, h: nat) -> Set<(i128, i128)>
    decreases 9 - h, 1int,
{
    if h >= 9 {
        set![(y as i128, x as i128)]
    } else {
        peaks_via(rows, y, x, h, 0).union(peaks_via(rows, y, x, h, 1)).union(
            peaks_via(rows, y, x, h, 2),
        ).union(peaks_via(rows, y, x, h, 3))
    }
}

/// Appends the positions of `other` that `acc` lacks.
fn merge(acc: &mut Vec<(i128, i128)>, other: &Vec<(i128, i128)>)
    requires
        old(acc)@.no_duplicates(),
    ensures
        final(acc)@.no_duplicates(),
        final(acc)@.to_set() == old(acc)@.to_set().union(other@.to_set()),
{
    let ghost start = acc@;
    let mut i: usize = 0;
    while i < other.len()
        invariant
            i <= other@.len(),
            acc@.no_duplicates(),
            acc@.to_set() == start.to_set().union(other@.subrange(0, i as int).to_set()),
        decreases other@.len() - i,
    {
        let p = other[i];
        let mut found = false;
        let mut k: usize = 0;
        while k < acc.len()
            invariant
                k <= acc@.len(),
                found == exists|j: int| 0 <= j < k && acc@[j] == p,
            decreases acc@.len() - k,
        {
            if acc[k].0 == p.0 && acc[k].1 == p.1 {
                found = true;
            }
            k += 1;
        }
        let ghost before = acc@;
        if !found {
            acc.push(p);
            proof {
                assert forall|a: int, b: int|
                    0 <= a < acc@.len() && 0 <= b < acc@.len() && a != b implies acc@[a] != acc@[b] by {
                    if a < before.len() && b < before.len() {
                        assert(before[a] != before[b]);
                    }
                }
            }
        }
        proof {
            let o1 = other@.subrange(0, i + 1);
            let o0 = other@.subrange(0, i as int);
            assert(o1 =~= o0.push(p));
            if found {
                let j = choose|j: int| 0 <= j < k && #[trigger] before[j] == p;
                assert(before.contains(p));
                assert(acc@ == before);
            } else {
                assert(acc@ == before.push(p));
                assert(acc@[acc@.len() - 1] == p);
            }
            assert forall|e: (i128, i128)| #[trigger] acc@.contains(e) == (before.contains(e) || e == p) by {
                if before.contains(e) {
                    let j = choose|j: int| 0 <= j < before.len() && #[trigger] before[j] == e;
                    assert(acc@[j] == e);
                }
                if acc@.contains(e) && !found {
                    let j = choose|j: int| 0 <= j < acc@.len() && #[trigger] acc@[j] == e;
                    if j < before.len() {
                        assert(before[j] == e);
                    }
                }
            }
            assert(acc@.to_set() =~= before.to_set().insert(p));
            assert forall|e: (i128, i128)| #[trigger] o1.contains(e) == (o0.contains(e) || e == p) by {
                if o0.contains(e) {
                    let j = choose|j: int| 0 <= j < o0.len() && #[trigger] o0[j] == e;
                    assert(o1[j] == e);
                }
                if o1.contains(e) {
                    let j = choose|j: int| 0 <= j < o1.len() && #[trigger] o1[j] == e;
                    if j < i {
                        assert(o0[j] == e);
                    }
                }
                assert(o1[i as int] == p);
            }
            assert(o1.to_set() =~= o0.to_set().insert(p));
            assert(acc@.to_set() =~= start.to_set().union(o1.to_set()));
        }
        i += 1;
    }
    proof {
        assert(other@.subrange(0, i as int) =~= other@);
    }
}

/// The positions of height 9 reached by trails from `(y, x)`, at height
/// `h`, each once.
pub fn peaks_from(g: &Rows, y: i128, x: i128, h: u8) -> (r: Vec<(i128, i128)>)
    requires
        g.wf(),
        h <= 9,
        height(g.rows(), y as int, x as int) == Some(h as nat),
    ensures
        r@.no_duplicates(),
        r@.to_set() == peaks(g.rows(), y as int, x as int, h as nat),
    decreases 9 - h,
{
    if h >= 9 {
        let mut v: Vec<(i128, i128)> = Vec::new();
        v.push((y, x));
        proof {
            assert(v@ =~= seq![(y, x)]);
            assert(v@.to_set() =~= set![(y, x)]) by {
                assert forall|e: (i128, i128)| v@.contains(e) == (e == (y, x)) by {
                    if e == (y, x) {
                        assert(v@[0] == e);
                    }
                }
            }
        }
        return v;
    }
    let _rows = g.height();
    let _cols = g.width(y as usize);
    let mut acc: Vec<(i128, i128)> = Vec::new();
    let mut d: usize = 0;
    proof {
        assert(acc@.to_set() =~= Set::<(i128, i128)>::empty());
    }
    while d < 4
        invariant
            d <= 4,
            g.wf(),
            h < 9,
            0 <= y <= usize::MAX,
            0 <= x <= usize::MAX,
            acc@.no_duplicates(),
            acc@.to_set() == (if d > 0 { peaks_via(g.rows(), y as int, x as int, h as nat, 0) } else {
                Set::empty()
            }).union(if d > 1 { peaks_via(g.rows(), y as int, x as int, h as nat, 1) } else { Set::empty() }).union(
                if d > 2 { peaks_via(g.rows(), y as int, x as int, h as nat, 2) } else { Set::empty() },
            ).union(if d > 3 { peaks_via(g.rows(), y as int, x as int, h as nat, 3) } else { Set::empty() }),
        decreases 4 - d,
    {
        let (dx, dy) = step_to(d);
        let ny = y + dy;
        let nx = x + dx;
        let ghost before = acc@.to_set();
        if height_at(g, ny, nx) == Some(h + 1) {
            let more = peaks_from(g, ny, nx, h + 1);
            merge(&mut acc, &more);
        } else {
            proof {
                assert(before.union(Set::empty()) =~= before);
            }
        }
        proof {
            let p = g.rows();
            let s0 = peaks_via(p, y as int, x as int, h as nat, 0);
            let s1 = peaks_via(p, y as int, x as int, h as nat, 1);
            let s2 = peaks_via(p, y as int, x as int, h as nat, 2);
            let s3 = peaks_via(p, y as int, x as int, h as nat, 3);
            let e = Set::<(i128, i128)>::empty();
            if d == 0 {
                assert(e.union(e).union(e).union(e) =~= e);
                assert(s0.union(e).union(e).union(e) =~= s0);
            } else if d == 1 {
                assert(s0.union(e).union(e).union(e) =~= s0);
                assert(s0.union(s1).union(e).union(e) =~= s0.union(s1));
            } else if d == 2 {
                assert(s0.union(s1).union(e).union(e) =~= s0.union(s1));
                assert(s0.union(s1).union(s2).union(e) =~= s0.union(s1).union(s2));
            }
        }
        d += 1;
    }
    acc
}

/// What a cell adds: when it is a trailhead (height 0), its rating (the
/// number of its trails) or, with `scores`, its score (the number of
/// heights 9 they reach).
pub open spec fn head_value(rows: Seq<Seq<u8>>, y: int, x: int, scores: bool) -> int {
    if height(rows, y, x) == Some(0nat) {
        if scores {
            peaks(rows, y, x, 0).len() as int
        } else {
            trails(rows, y, x, 0) as int
        }
    } else {
        0
    }
}

pub open spec fn row_total(rows: Seq<Seq<u8>>, y: int, scores: bool) -> int {
    sum(Seq::new(rows[y].len(), |x: int| head_value(rows, y, x, scores)))
}

/// The sum of `head_value` over the map.
pub open spec fn map_total(rows: Seq<Seq<u8>>, scores: bool) -> int {
    sum(Seq::new(rows.len(), |y: int| row_total(rows, y, scores)))
}

proof fn lemma_row_total_nonneg(rows: Seq<Seq<u8>>, y: int, scores: bool)
    ensures
        row_total(rows, y, scores) >= 0,
{
    lemma_sum_nonneg(Seq::new(rows[y].len(), |x: int| head_value(rows, y, x, scores)));
}

fn head_value_of(g: &Rows, y: usize, x: usize, scores: bool) -> (r: u64)
    requires
        g.wf(),
    ensures
        r == head_value(g.rows(), y as int, x as int, scores),
{
    if height_at(g, y as i128, x as i128) != Some(0) {
        return 0;
    }
    if scores {
        let v = peaks_from(g, y as i128, x as i128, 0);
        proof {
            v@.unique_seq_to_set();
        }
        v.len() as u64
    } else {
        trail_count(g, y as i128, x as i128, 0)
    }
}

/// The sum of `head_value` over the map `input`; `None` when it does not
/// fit in a `u64`.
fn map_sum(input: &[u8], scores: bool) -> (r: Option<u64>)
    ensures
        r.is_some() == (map_total(lines(input@), scores) <= u64::MAX),
        r.is_some() ==> r.unwrap() == map_total(lines(input@), scores),
{
    let g = Rows::new(input);
    let ghost rows = g.rows();
    let h = g.height();
    let ghost row_terms = Seq::new(rows.len(), |yy: int| row_total(rows, yy, scores));
    let mut total: u64 = 0;
    let mut y: usize = 0;
    proof {
        assert(row_terms.subrange(0, 0) =~= Seq::<int>::empty());
        assert forall|j: int| 0 <= j < row_terms.len() implies row_terms[j] >= 0 by {
            lemma_row_total_nonneg(rows, j, scores);
        }
    }
    while y < h
        invariant
            g.wf(),
            rows == g.rows(),
            rows == lines(input@),
            h == rows.len() == row_terms.len(),
            y <= h,
            forall|j: int| 0 <= j < row_terms.len() ==> #[trigger] row_terms[j] == row_total(rows, j, scores),
            forall|j: int| 0 <= j < row_terms.len() ==> row_terms[j] >= 0,
            total == sum(row_terms.subrange(0, y as int)),
        decreases h - y,
    {
        let w = g.width(y);
        let ghost cell_terms = Seq::new(rows[y as int].len(), |xx: int| head_value(rows, y as int, xx, scores));
        let mut row: u64 = 0;
        let mut x: usize = 0;
        proof {
            assert(cell_terms.subrange(0, 0) =~= Seq::<int>::empty());
            assert forall|j: int| 0 <= j < cell_terms.len() implies cell_terms[j] >= 0 by {}
        }
        while x < w
            invariant
                g.wf(),
                rows == g.rows(),
                y < h == rows.len() == row_terms.len(),
                rows == lines(input@),
                forall|j: int| 0 <= j < row_terms.len() ==> #[trigger] row_terms[j] == row_total(rows, j, scores),
                forall|j: int| 0 <= j < row_terms.len() ==> row_terms[j] >= 0,
                w == rows[y as int].len() == cell_terms.len(),
                x <= w,
                forall|j: int| 0 <= j < cell_terms.len() ==> #[trigger] cell_terms[j] == head_value(rows, y as int, j, scores),
                forall|j: int| 0 <= j < cell_terms.len() ==> cell_terms[j] >= 0,
                row == sum(cell_terms.subrange(0, x as int)),
            decreases w - x,
        {
            let c = head_value_of(&g, y, x, scores);
            match add_term(row, c, Ghost(cell_terms), Ghost(x as int)) {
                Some(v) => {
                    row = v;
                },
                None => {
                    proof {
                        lemma_term_le_sum(row_terms, y as int);
                        assert(cell_terms =~= Seq::new(
                            rows[y as int].len(),
                            |x: int| head_value(rows, y as int, x, scores),
                        ));
                        assert(row_terms =~= Seq::new(rows.len(), |y: int| row_total(rows, y, scores)));
                    }
                    return None;
                },
            }
            x += 1;
        }
        proof {
            assert(cell_terms.subrange(0, x as int) =~= cell_terms);
            assert(cell_terms =~= Seq::new(rows[y as int].len(), |x: int| head_value(rows, y as int, x, scores)));
        }
        match add_term(total, row, Ghost(row_terms), Ghost(y as int)) {
            Some(v) => {
                total = v;
            },
            None => {
                assert(row_terms =~= Seq::new(rows.len(), |y: int| row_total(rows, y, scores)));
                return None;
            },
        }
        y += 1;
    }
    proof {
        assert(row_terms.subrange(0, y as int) =~= row_terms);
        assert(row_terms =~= Seq::new(rows.len(), |y: int| row_total(rows, y, scores)));
    }
    Some(total)
}

/// The sum of the scores of the trailheads of the map `input`; `None` when
/// it does not fit in a `u64`.
pub fn first_part(input: &str) -> (r: Option<u64>)
    ensures
        r.is_some() == (map_total(lines(input.spec_bytes()), true) <= u64::MAX),
        r.is_some() ==> r.unwrap() == map_total(lines(input.spec_bytes()), true),
{
    map_sum(input.as_bytes(), true)
}

/// The sum of the ratings of the trailheads of the map `input`; `None` when
/// it does not fit in a `u64`.
pub fn second_part(input: &str) -> (r: Option<u64>)
    ensures
        r.is_some() == (map_total(lines(input.spec_bytes()), false) <= u64::MAX),
        r.is_some() ==> r.unwrap() == map_total(lines(input.spec_bytes()), false),
{
    map_sum(input.as_bytes(), false)
}

} // verus!


