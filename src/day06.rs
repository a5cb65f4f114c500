//! A guard walking a map: straight ahead until an obstacle, then a quarter
//! turn to the right, until stepping off the map.
use crate::rows::{cell, Rows};
use crate::text::lines;
use vstd::prelude::*;
use vstd::string::StringSliceAdditionalSpecFns;

verus! {

/// A direction the guard faces.
#[derive(Clone, Copy, PartialEq, Eq, Structural)]
pub enum Direction {
    Up,
    Right,
    Down,
    Left,
}

/// The step (dx, dy) of a direction, with `y` growing downwards.
pub open spec fn step_of(d: Direction) -> (int, int) {
    match d {
        Direction::Up => (0, -1),
        Direction::Right => (1, 0),
        Direction::Down => (0, 1),
        Direction::Left => (-1, 0),
    }
}

/// The direction after a quarter turn to the right.
pub open spec fn turned(d: Direction) -> Direction {
    match d {
        Direction::Up => Direction::Right,
        Direction::Right => Direction::Down,
        Direction::Down => Direction::Left,
        Direction::Left => Direction::Up,
    }
}

/// The step of `dir`.
pub fn dir_to_vec(dir: Direction) -> (r: (i64, i64))
    ensures
        r.0 == step_of(dir).0,
        r.1 == step_of(dir).1,
{
    match dir {
        Direction::Up => (0, -1),
        Direction::Right => (1, 0),
        Direction::Down => (0, 1),
        Direction::Left => (-1, 0),
    }
}

/// The direction after a quarter turn to the right.
pub fn rot_dir(dir: Direction) -> (r: Direction)
    ensures
        r == turned(dir),
{
    match dir {
        Direction::Up => Direction::Right,
        Direction::Right => Direction::Down,
        Direction::Down => Direction::Left,
        Direction::Left => Direction::Up,
    }
}

/// The map is as wide as its first row and as high as its row count.
pub open spec fn width(rows: Seq<Seq<u8>>) -> int {
    if rows.len() == 0 {
        0
    } else {
        rows[0].len() as int
    }
}

pub open spec fn on_map(rows: Seq<Seq<u8>>, x: int, y: int) -> bool {
    0 <= x < width(rows) && 0 <= y < rows.len()
}

/// Where the guard is and which way it faces.
pub struct Guard {
    pub x: int,
    pub y: int,
    pub dir: Direction,
}

/// One move: off the map (`None`), a turn before an obstacle, or a step.
pub open spec fn next_guard(rows: Seq<Seq<u8>>, g: Guard) -> Option<Guard> {
    let nx = g.x + step_of(g.dir).0;
    let ny = g.y + step_of(g.dir).1;
    if !on_map(rows, nx, ny) {
        None
    } else if cell(rows, ny, nx) == Some(35u8) {
        Some(Guard { dir: turned(g.dir), ..g })
    } else {
        Some(Guard { x: nx, y: ny, dir: g.dir })
    }
}

/// The positions the guard visits from `g` when it leaves the map within
/// `fuel` moves; `None` when it is still on the map after them.
pub open spec fn visited(rows: Seq<Seq<u8>>, g: Guard, fuel: nat) -> Option<Set<(int, int)>>
    decreases fuel,
{
    match next_guard(rows, g) {
        None => Some(set![(g.x, g.y)]),
        Some(n) => if fuel == 0 {
            None
        } else {
            match visited(rows, n, (fuel - 1) as nat) {
                Some(s) => Some(s.insert((g.x, g.y))),
                None => None,
            }
        },
    }
}

/// The index `y * w + x` of the last `^` in the first `n` cells, read row
/// after row.
pub open spec fn last_caret(rows: Seq<Seq<u8>>, w: int, n: int) -> Option<int>
    decreases n,
{
    if n <= 0 {
        None
    } else if cell(rows, (n - 1) / w, (n - 1) % w) == Some(94u8) {
        Some(n - 1)
    } else {
        last_caret(rows, w, n - 1)
    }
}

/// The guard starts on the last `^` of the map (the top left corner when
/// there is none), facing up.
pub open spec fn start(rows: Seq<Seq<u8>>) -> Guard {
    let w = width(rows);
    match last_caret(rows, w, w * rows.len()) {
        Some(i) => Guard { x: i % w, y: i / w, dir: Direction::Up },
        None => Guard { x: 0, y: 0, dir: Direction::Up },
    }
}

/// Moves enough for a guard that never leaves: more than its states.
pub open spec fn move_limit(rows: Seq<Seq<u8>>) -> nat {
    (4 * width(rows) * rows.len() + 4) as nat
}

/// A map of at least one cell with fewer than 2^40 cells.
pub open spec fn walkable(rows: Seq<Seq<u8>>) -> bool {
    width(rows) >= 1 && rows.len() >= 1 && width(rows) * rows.len() < 0x100_0000_0000
}

pub open spec fn opt_union(o: Option<Set<(int, int)>>, s: Set<(int, int)>) -> Option<Set<(int, int)>> {
    match o {
        Some(a) => Some(a.union(s)),
        None => None,
    }
}

/// The positions marked in `marks`, a map of `w` columns.
pub open spec fn marked(marks: Seq<bool>, w: int) -> Set<(int, int)> {
    Set::new(|p: (int, int)| 0 <= p.0 < w && 0 <= p.1 && p.1 * w + p.0 < marks.len() && marks[p.1 * w + p.0])
}

/// The number of positions the guard visits before leaving the map; `None`
/// when the map is empty or has 2^40 cells or more, or the guard never
/// leaves it.
pub fn first_part(input: &str) -> (r: Option<u64>)
    ensures
        ({
            let rows = lines(input.spec_bytes());
            &&& r.is_some() == (walkable(rows) && visited(rows, start(rows), move_limit(rows)).is_some())
            &&& r.is_some() ==> r.unwrap() == visited(rows, start(rows), move_limit(rows)).unwrap().len()
        }),
{
    let g = Rows::new(input.as_bytes());
    let ghost rows = g.rows();
    let h = g.height();
    if h == 0 {
        return None;
    }
    let w = g.width(0);
    if w == 0 {
        return None;
    }
    let too_big = match (w as u128).checked_mul(h as u128) {
        Some(p) => p >= 0x100_0000_0000,
        None => true,
    };
    if too_big {
        proof {
            assert(!((w as int) * (h as int) < 0x100_0000_0000));
        }
        return None;
    }
    assert((w as int) * (h as int) < 0x100_0000_0000);
    proof {
        assert(w <= w * h && h <= w * h) by (nonlinear_arith)
            requires w >= 1, h >= 1;
    }
    let n: u64 = w as u64 * h as u64;
    let w64 = w as u64;
    let mut last: Option<u64> = None;
    let mut i: u64 = 0;
    while i < n
        invariant
            g.wf(),
            rows == g.rows(),
            w == width(rows),
            h == rows.len(),
            w >= 1,
            w64 == w,
            n == w * h,
            i <= n,
            last.is_some() == last_caret(rows, w as int, i as int).is_some(),
            last.is_some() ==> last.unwrap() == last_caret(rows, w as int, i as int).unwrap(),
            last.is_some() ==> last.unwrap() < n,
        decreases n - i,
    {
        if g.get((i / w64) as i128, (i % w64) as i128) == Some(94u8) {
            last = Some(i);
        }
        i += 1;
    }
    let (sx, sy): (u64, u64) = match last {
        Some(k) => (k % w64, k / w64),
        None => (0, 0),
    };
    proof {
        if last.is_some() {
            let k = last.unwrap();
            assert(k / w64 < h) by (nonlinear_arith)
                requires k < w * h, w64 == w, w >= 1;
            assert(k % w64 < w64);
        }
    }
    assert(sx < w && sy < h);
    assert(w <= n && h <= n);
    let mut marks: Vec<bool> = Vec::new();
    let mut j: u64 = 0;
    while j < n
        invariant
            j <= n,
            marks@.len() == j,
            forall|t: int| 0 <= t < j ==> !#[trigger] marks@[t],
        decreases n - j,
    {
        marks.push(false);
        j += 1;
    }
    let ml = marks.len();
    let ghost total = move_limit(rows);
    let mut fuel: u64 = 4 * n + 4;
    let mut x: i64 = sx as i64;
    let mut y: i64 = sy as i64;
    let mut dir = Direction::Up;
    let mut count: u64 = 0;
    let ghost mut seen: Set<(int, int)> = Set::empty();
    proof {
        assert(marked(marks@, w as int) =~= seen);
        assert(start(rows) == (Guard { x: x as int, y: y as int, dir: dir }));
        assert(4 * width(rows) * rows.len() == 4 * ((w as int) * (h as int))) by (nonlinear_arith)
            requires width(rows) == w, rows.len() == h;
        assert(fuel == total);
        assert(visited(rows, start(rows), total) == opt_union(visited(rows, start(rows), fuel as nat), seen)) by {
            match visited(rows, start(rows), total) {
                Some(a) => {
                    assert(a.union(seen) =~= a);
                },
                None => {},
            }
        }
    }
    loop
        invariant
            g.wf(),
            rows == g.rows(),
            w == width(rows),
            h == rows.len(),
            w >= 1,
            w64 == w,
            walkable(rows),
            rows == lines(input.spec_bytes()),
            n == w * h,
            n < 0x100_0000_0000,
            w <= n,
            h <= n,
            marks@.len() == n,
            ml == n,
            0 <= x < w,
            0 <= y < h,
            seen.finite(),
            seen == marked(marks@, w as int),
            count == seen.len(),
            count + fuel <= 4 * n + 4,
            visited(rows, start(rows), move_limit(rows)) == opt_union(
                visited(rows, Guard { x: x as int, y: y as int, dir: dir }, fuel as nat),
                seen,
            ),
        decreases fuel,
    {
        let ghost cur = Guard { x: x as int, y: y as int, dir: dir };
        let ghost old_seen = seen;
        proof {
            assert(y * w + x < w * h) by (nonlinear_arith)
                requires 0 <= x < w, 0 <= y < h;
            assert(y * w <= y * w + x);
        }
        let idx = (y as u64 * w64 + x as u64) as usize;
        if !marks[idx] {
            proof {
                assert(!seen.contains((x as int, y as int)));
            }
            marks.set(idx, true);
            count += 1;
        }
        proof {
            let s2 = seen.insert((x as int, y as int));
            assert forall|p: (int, int)| #[trigger] marked(marks@, w as int).contains(p) == s2.contains(p) by {
                if 0 <= p.0 < w && 0 <= p.1 && p.1 * w + p.0 < marks@.len() && p.1 * w + p.0 == idx {
                    lemma_index_unique(w as int, p.0, p.1, x as int, y as int);
                }
            }
            assert(marked(marks@, w as int) =~= s2);
            seen = s2;
        }
        let (dx, dy) = dir_to_vec(dir);
        let nx = x + dx;
        let ny = y + dy;
        if nx < 0 || ny < 0 || nx as usize >= w || ny as usize >= h {
            proof {
                assert(next_guard(rows, cur).is_none());
                assert(visited(rows, cur, fuel as nat) == Some(set![(x as int, y as int)]));
                assert(set![(x as int, y as int)].union(old_seen) =~= seen);
            }
            return Some(count);
        }
        if fuel == 0 {
            proof {
                assert(next_guard(rows, cur).is_some());
            }
            return None;
        }
        if g.get(ny as i128, nx as i128) == Some(35u8) {
            dir = rot_dir(dir);
        } else {
            x = nx;
            y = ny;
        }
        fuel -= 1;
    }
}

/// The map with a new obstacle on `(x, y)`.
pub open spec fn with_obstacle(rows: Seq<Seq<u8>>, x: int, y: int) -> Seq<Seq<u8>> {
    rows.update(y, rows[y].update(x, 35u8))
}

/// Where the guard is after `k` moves from `g`; `None` once it has left.
pub open spec fn guard_after(rows: Seq<Seq<u8>>, g: Guard, k: nat) -> Option<Guard>
    decreases k,
{
    if k == 0 {
        Some(g)
    } else {
        match guard_after(rows, g, (k - 1) as nat) {
            Some(h) => next_guard(rows, h),
            None => None,
        }
    }
}

/// The guard comes back to a position and direction it had before: it
/// walks in a loop.
pub open spec fn repeats(rows: Seq<Seq<u8>>, g: Guard) -> bool {
    exists|i: nat, j: nat|
        i < j && (#[trigger] guard_after(rows, g, i)).is_some() && guard_after(rows, g, i) == #[trigger] guard_after(
            rows,
            g,
            j,
        )
}

/// A new obstacle on `(x, y)` (a free cell of the map) makes the guard walk
/// in a loop.
pub open spec fn loop_cell(rows: Seq<Seq<u8>>, x: int, y: int) -> bool {
    on_map(rows, x, y) && cell(rows, y, x) == Some(46u8) && repeats(with_obstacle(rows, x, y), start(rows))
}

/// The number of cells where a new obstacle makes the guard walk in a loop.
pub open spec fn loop_count(rows: Seq<Seq<u8>>) -> int {
    let w = width(rows);
    crate::sums::sum(Seq::new((w * rows.len()) as nat, |i: int| if loop_cell(rows, i % w, i / w) { 1int } else { 0int }))
}

pub open spec fn dir_num(d: Direction) -> int {
    match d {
        Direction::Up => 0,
        Direction::Right => 1,
        Direction::Down => 2,
        Direction::Left => 3,
    }
}

/// The number of a position and direction on a map of width `w`.
pub open spec fn state_index(g: Guard, w: int) -> int {
    (g.y * w + g.x) * 4 + dir_num(g.dir)
}

/// The number of unset marks.
pub open spec fn unset(s: Seq<bool>) -> nat
    decreases s.len(),
{
    if s.len() == 0 {
        0
    } else {
        unset(s.drop_last()) + if s.last() { 0nat } else { 1nat }
    }
}

proof fn lemma_unset_update(s: Seq<bool>, i: int)
    requires
        0 <= i < s.len(),
        !s[i],
    ensures
        unset(s.update(i, true)) + 1 == unset(s),
    decreases s.len(),
{
    let t = s.update(i, true);
    if i == s.len() - 1 {
        assert(t.drop_last() =~= s.drop_last());
    } else {
        assert(t.drop_last() =~= s.drop_last().update(i, true));
        lemma_unset_update(s.drop_last(), i);
    }
}

proof fn lemma_left_stays_left(rows: Seq<Seq<u8>>, g: Guard, k: nat, j: nat)
    requires
        guard_after(rows, g, k).is_none(),
        k <= j,
    ensures
        guard_after(rows, g, j).is_none(),
    decreases j - k,
{
    if j > k {
        lemma_left_stays_left(rows, g, k, (j - 1) as nat);
    }
}

proof fn lemma_state_unique(w: int, h: int, a: Guard, b: Guard)
    requires
        0 <= a.x < w,
        0 <= b.x < w,
        0 <= a.y < h,
        0 <= b.y < h,
        state_index(a, w) == state_index(b, w),
    ensures
        a == b,
{
    let pa = a.y * w + a.x;
    let pb = b.y * w + b.x;
    assert(pa == pb && dir_num(a.dir) == dir_num(b.dir)) by (nonlinear_arith)
        requires pa * 4 + dir_num(a.dir) == pb * 4 + dir_num(b.dir), 0 <= dir_num(a.dir) < 4, 0 <= dir_num(b.dir) < 4;
    assert(0 <= a.y && 0 <= b.y);
    lemma_index_unique(w, a.x, a.y, b.x, b.y);
}

proof fn lemma_obstacle_cells(rows: Seq<Seq<u8>>, ox: int, oy: int)
    requires
        0 <= oy < rows.len(),
        0 <= ox < rows[oy].len(),
    ensures
        width(with_obstacle(rows, ox, oy)) == width(rows),
        with_obstacle(rows, ox, oy).len() == rows.len(),
        forall|x: int, y: int|
            #[trigger] cell(with_obstacle(rows, ox, oy), y, x) == if x == ox && y == oy {
                Some(35u8)
            } else {
                cell(rows, y, x)
            },
{
    let r2 = with_obstacle(rows, ox, oy);
    assert forall|x: int, y: int|
        #[trigger] cell(r2, y, x) == if x == ox && y == oy { Some(35u8) } else { cell(rows, y, x) } by {
        if y == oy {
            assert(r2[y] == rows[y].update(ox, 35u8));
        }
    }
}

/// Whether the guard, starting at `(sx, sy)` facing up, walks in a loop
/// once a new obstacle stands on `(ox, oy)`.
fn guard_loops(g: &Rows, w: usize, h: usize, ox: i64, oy: i64, sx: i64, sy: i64) -> (r: bool)
    requires
        g.wf(),
        w == width(g.rows()),
        h == g.rows().len(),
        w >= 1,
        w * h < 0x100_0000_0000,
        on_map(g.rows(), ox as int, oy as int),
        cell(g.rows(), oy as int, ox as int) == Some(46u8),
        on_map(g.rows(), sx as int, sy as int),
    ensures
        r == repeats(
            with_obstacle(g.rows(), ox as int, oy as int),
            Guard { x: sx as int, y: sy as int, dir: Direction::Up },
        ),
{
    let ghost rows = g.rows();
    let ghost r2 = with_obstacle(rows, ox as int, oy as int);
    let ghost g0 = Guard { x: sx as int, y: sy as int, dir: Direction::Up };
    proof {
        lemma_obstacle_cells(rows, ox as int, oy as int);
    }
    let n: u64 = w as u64 * h as u64;
    let mut marks: Vec<bool> = Vec::new();
    let mut i: u64 = 0;
    while i < 4 * n
        invariant
            n == w * h,
            n < 0x100_0000_0000,
            i <= 4 * n,
            marks@.len() == i,
            forall|t: int| 0 <= t < i ==> !#[trigger] marks@[t],
        decreases 4 * n - i,
    {
        marks.push(false);
        i += 1;
    }
    let ml = marks.len();
    proof {
        assert(w <= n && h <= n) by (nonlinear_arith)
            requires n == w * h, w >= 1, h >= 1;
    }
    let mut x = sx;
    let mut y = sy;
    let mut dir = Direction::Up;
    let ghost mut k: nat = 0;
    loop
        invariant
            g.wf(),
            rows == g.rows(),
            r2 == with_obstacle(rows, ox as int, oy as int),
            g0 == (Guard { x: sx as int, y: sy as int, dir: Direction::Up }),
            width(r2) == width(rows),
            r2.len() == rows.len(),
            forall|xx: int, yy: int| #[trigger] cell(r2, yy, xx) == if xx == ox && yy == oy { Some(35u8) } else { cell(rows, yy, xx) },
            w == width(rows),
            h == rows.len(),
            w >= 1,
            n == w * h,
            n < 0x100_0000_0000,
            marks@.len() == 4 * n,
            ml == marks@.len(),
            0 <= x < w,
            0 <= y < h,
            guard_after(r2, g0, k) == Some(Guard { x: x as int, y: y as int, dir }),
            forall|j: nat| j <= k ==> (#[trigger] guard_after(r2, g0, j)).is_some(),
            forall|j: nat| j <= k ==> 0 <= (#[trigger] guard_after(r2, g0, j)).unwrap().x < w && 0 <= guard_after(r2, g0, j).unwrap().y < h,
            forall|j: nat| j < k ==> marks@[state_index(#[trigger] guard_after(r2, g0, j).unwrap(), w as int)],
            forall|t: int| 0 <= t < marks@.len() && #[trigger] marks@[t] ==> exists|j: nat| j < k && state_index(#[trigger] guard_after(r2, g0, j).unwrap(), w as int) == t,
            forall|a: nat, b: nat| a < b < k ==> #[trigger] guard_after(r2, g0, a) != #[trigger] guard_after(r2, g0, b),
            w <= n,
            h <= n,
        decreases unset(marks@),
    {
        let ghost cur = Guard { x: x as int, y: y as int, dir };
        proof {
            assert((y * w + x) * 4 + dir_num(dir) < 4 * n) by (nonlinear_arith)
                requires 0 <= x < w, 0 <= y < h, n == w * h, 0 <= dir_num(dir) < 4;
            assert(0 <= (y * w + x) * 4 + dir_num(dir)) by (nonlinear_arith)
                requires 0 <= x, 0 <= y, w >= 1, 0 <= dir_num(dir);
        }
        let d: u64 = match dir {
            Direction::Up => 0,
            Direction::Right => 1,
            Direction::Down => 2,
            Direction::Left => 3,
        };
        let ci = ((y as u64 * w as u64 + x as u64) * 4 + d) as usize;
        assert(ci as int == state_index(cur, w as int));
        if marks[ci] {
            proof {
                let j = choose|j: nat| j < k && state_index(#[trigger] guard_after(r2, g0, j).unwrap(), w as int) == ci;
                let gj = guard_after(r2, g0, j).unwrap();
                lemma_state_unique(w as int, h as int, gj, cur);
                assert(guard_after(r2, g0, j) == guard_after(r2, g0, k));
                assert(repeats(r2, g0));
            }
            return true;
        }
        proof {
            lemma_unset_update(marks@, ci as int);
            assert forall|a: nat| a < k implies #[trigger] guard_after(r2, g0, a) != guard_after(r2, g0, k) by {
                let ga = guard_after(r2, g0, a).unwrap();
                assert(marks@[state_index(ga, w as int)]);
            }
        }
        marks.set(ci, true);
        proof {
            assert forall|j: nat| j < k + 1 implies marks@[state_index(#[trigger] guard_after(r2, g0, j).unwrap(), w as int)] by {
                if j < k {
                    let gj = guard_after(r2, g0, j).unwrap();
                    assert(0 <= (gj.y * w + gj.x) * 4 + dir_num(gj.dir) < 4 * n) by (nonlinear_arith)
                        requires 0 <= gj.x < w, 0 <= gj.y < h, n == w * h, 0 <= dir_num(gj.dir) < 4;
                }
            }
        }
        let (dx, dy) = dir_to_vec(dir);
        let nx = x + dx;
        let ny = y + dy;
        let off = nx < 0 || ny < 0 || nx as i128 >= w as i128 || ny as i128 >= h as i128;
        if off {
            proof {
                assert(next_guard(r2, cur).is_none());
                assert(guard_after(r2, g0, k + 1).is_none());
                assert forall|a: nat, b: nat| a < b <= k implies #[trigger] guard_after(r2, g0, a) != #[trigger] guard_after(r2, g0, b) by {
                    if b == k {
                        assert(guard_after(r2, g0, a) != guard_after(r2, g0, k));
                    }
                }
                if repeats(r2, g0) {
                    let (a, b) = choose|a: nat, b: nat|
                        a < b && (#[trigger] guard_after(r2, g0, a)).is_some() && guard_after(r2, g0, a) == #[trigger] guard_after(r2, g0, b);
                    if b > k {
                        lemma_left_stays_left(r2, g0, k + 1, b);
                    }
                }
            }
            return false;
        }
        let blocked = (nx == ox && ny == oy) || g.get(ny as i128, nx as i128) == Some(35u8);
        proof {
            assert(blocked == (cell(r2, ny as int, nx as int) == Some(35u8)));
        }
        if blocked {
            dir = rot_dir(dir);
        } else {
            x = nx;
            y = ny;
        }
        proof {
            let nxt = Guard { x: x as int, y: y as int, dir };
            assert(next_guard(r2, cur) == Some(nxt));
            assert(guard_after(r2, g0, k + 1) == Some(nxt));
            assert forall|a: nat, b: nat| a < b < k + 1 implies #[trigger] guard_after(r2, g0, a) != #[trigger] guard_after(r2, g0, b) by {
                if b == k {
                    assert(guard_after(r2, g0, a) != guard_after(r2, g0, k));
                }
            }
            k = k + 1;
        }
    }
}

/// Where the guard starts on the map `g` of `w` by `h` cells.
fn find_start(g: &Rows, w: usize, h: usize) -> (r: (i64, i64))
    requires
        g.wf(),
        w == width(g.rows()),
        h == g.rows().len(),
        w >= 1,
        h >= 1,
        w * h < 0x100_0000_0000,
    ensures
        start(g.rows()) == (Guard { x: r.0 as int, y: r.1 as int, dir: Direction::Up }),
        0 <= r.0 < w,
        0 <= r.1 < h,
{
    let ghost rows = g.rows();
    let n: u64 = w as u64 * h as u64;
    let w64 = w as u64;
    let mut last: Option<u64> = None;
    let mut i: u64 = 0;
    while i < n
        invariant
            g.wf(),
            rows == g.rows(),
            w == width(rows),
            h == rows.len(),
            w >= 1,
            w64 == w,
            n == w * h,
            n < 0x100_0000_0000,
            i <= n,
            last.is_some() == last_caret(rows, w as int, i as int).is_some(),
            last.is_some() ==> last.unwrap() == last_caret(rows, w as int, i as int).unwrap(),
            last.is_some() ==> last.unwrap() < n,
        decreases n - i,
    {
        if g.get((i / w64) as i128, (i % w64) as i128) == Some(94u8) {
            last = Some(i);
        }
        i += 1;
    }
    proof {
        assert(w <= n && h <= n) by (nonlinear_arith)
            requires n == w * h, w >= 1, h >= 1;
    }
    match last {
        Some(k) => {
            proof {
                assert(k / w64 < h) by (nonlinear_arith)
                    requires k < w * h, w64 == w, w >= 1;
                assert(k % w64 < w64);
            }
            ((k % w64) as i64, (k / w64) as i64)
        },
        None => (0, 0),
    }
}

/// The number of cells of the map `input` where a new obstacle makes the
/// guard walk in a loop; `None` when the map is empty or has 2^40 cells or
/// more.
pub fn second_part(input: &str) -> (r: Option<u64>)
    ensures
        ({
            let rows = lines(input.spec_bytes());
            &&& r.is_some() == walkable(rows)
            &&& r.is_some() ==> r.unwrap() == loop_count(rows)
        }),
{
    let g = Rows::new(input.as_bytes());
    let ghost rows = g.rows();
    let h = g.height();
    if h == 0 {
        return None;
    }
    let w = g.width(0);
    if w == 0 {
        return None;
    }
    let too_big = match (w as u128).checked_mul(h as u128) {
        Some(p) => p >= 0x100_0000_0000,
        None => true,
    };
    if too_big {
        proof {
            assert(!((w as int) * (h as int) < 0x100_0000_0000));
        }
        return None;
    }
    assert((w as int) * (h as int) < 0x100_0000_0000);
    let (sx, sy) = find_start(&g, w, h);
    let n: u64 = w as u64 * h as u64;
    let w64 = w as u64;
    let ghost terms = Seq::new(
        (width(rows) * rows.len()) as nat,
        |i: int| if loop_cell(rows, i % width(rows), i / width(rows)) { 1int } else { 0int },
    );
    let mut count: u64 = 0;
    let mut i: u64 = 0;
    proof {
        assert(terms.subrange(0, 0) =~= Seq::<int>::empty());
    }
    while i < n
        invariant
            g.wf(),
            rows == g.rows(),
            rows == lines(input.spec_bytes()),
            w == width(rows),
            h == rows.len(),
            w >= 1,
            h >= 1,
            w64 == w,
            n == w * h,
            n < 0x100_0000_0000,
            i <= n,
            terms.len() == n,
            start(rows) == (Guard { x: sx as int, y: sy as int, dir: Direction::Up }),
            0 <= sx < w,
            0 <= sy < h,
            forall|t: int| 0 <= t < n ==> #[trigger] terms[t] == if loop_cell(rows, t % (w as int), t / (w as int)) { 1int } else { 0int },
            count == crate::sums::sum(terms.subrange(0, i as int)),
            count <= i,
        decreases n - i,
    {
        proof {
            assert(i / w64 < h) by (nonlinear_arith)
                requires i < w * h, w64 == w, w >= 1;
            assert(i % w64 < w64);
            assert(w <= n && h <= n) by (nonlinear_arith)
                requires n == w * h, w >= 1, h >= 1;
        }
        let x = (i % w64) as i64;
        let y = (i / w64) as i64;
        proof {
            assert(terms.subrange(0, i + 1).drop_last() =~= terms.subrange(0, i as int));
        }
        let hit = g.get(y as i128, x as i128) == Some(46u8) && guard_loops(&g, w, h, x, y, sx, sy);
        proof {
            assert(hit == loop_cell(rows, x as int, y as int));
            assert(x as int == (i as int) % (w as int) && y as int == (i as int) / (w as int));
            assert(terms[i as int] == if hit { 1int } else { 0int });
            assert(terms.subrange(0, i + 1).last() == terms[i as int]);
        }
        if hit {
            count += 1;
        }
        i += 1;
    }
    proof {
        assert(terms.subrange(0, i as int) =~= terms);
        assert(walkable(rows));
    }
    Some(count)
}

proof fn lemma_index_unique(w: int, x: int, y: int, x2: int, y2: int)
    requires
        0 <= x < w,
        0 <= x2 < w,
        0 <= y,
        0 <= y2,
        y * w + x == y2 * w + x2,
    ensures
        x == x2 && y == y2,
{
    assert(y == y2) by (nonlinear_arith)
        requires 0 <= x < w, 0 <= x2 < w, y * w + x == y2 * w + x2, 0 <= y, 0 <= y2;
}

} // verus!

