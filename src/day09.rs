//! A disk map: files and free space laid out block by block, compacted by
//! moving blocks from the end into the free space at the front.
use crate::sums::{add_term, lemma_term_le_sum, sum};
use vstd::prelude::*;

verus! {

/// A disk map: decimal digits, alternately the length of a file and of the
/// free space after it.
pub open spec fn is_disk_map(d: Seq<u8>) -> bool {
    forall|i: int| 0 <= i < d.len() ==> 48 <= #[trigger] d[i] <= 57
}

/// The blocks of the first `n` entries of the map: the id of the file
/// (entry `2 * id`) a block belongs to, or -1 for a free block.
pub open spec fn blocks(d: Seq<u8>, n: int) -> Seq<int>
    decreases n,
{
    if n <= 0 {
        Seq::empty()
    } else {
        let v = if (n - 1) % 2 == 0 { (n - 1) / 2 } else { -1 };
        blocks(d, n - 1) + Seq::new((d[n - 1] - 48) as nat, |k: int| v)
    }
}

pub open spec fn is_file(v: int) -> bool {
    v >= 0
}

/// The file blocks, in order.
pub open spec fn file_blocks(e: Seq<int>) -> Seq<int> {
    e.filter(|v: int| v >= 0)
}

/// The number of free blocks before position `p`.
pub open spec fn free_before(e: Seq<int>, p: int) -> int {
    e.subrange(0, p).filter(|v: int| v < 0).len() as int
}

/// After compaction the first blocks hold all file blocks: a file block
/// stays where it is, and the `k`-th free block receives the `k`-th file
/// block counted from the end.
pub open spec fn compacted(e: Seq<int>, p: int) -> int {
    let f = file_blocks(e);
    if e[p] >= 0 {
        e[p]
    } else {
        f[f.len() - 1 - free_before(e, p)]
    }
}

/// The checksum of the compacted disk: each position times the id of the
/// file whose block ends up there.
pub open spec fn checksum(e: Seq<int>) -> int {
    sum(Seq::new(file_blocks(e).len(), |p: int| p * compacted(e, p)))
}

/// The blocks of the map `d`.
pub fn expand(d: &[u8]) -> (r: Vec<i64>)
    requires
        is_disk_map(d@),
    ensures
        r@.map_values(|v: i64| v as int) == blocks(d@, d@.len() as int),
{
    let mut e: Vec<i64> = Vec::new();
    let mut i: usize = 0;
    while i < d.len()
        invariant
            i <= d@.len(),
            is_disk_map(d@),
            e@.map_values(|v: i64| v as int) == blocks(d@, i as int),
        decreases d@.len() - i,
    {
        let v: i64 = if i % 2 == 0 {
            (i / 2) as i64
        } else {
            -1
        };
        let n = d[i] - 48;
        let ghost before = e@;
        let mut k: u8 = 0;
        while k < n
            invariant
                k <= n,
                n == d@[i as int] - 48,
                v as int == if i % 2 == 0 { (i / 2) as int } else { -1int },
                e@.map_values(|v: i64| v as int) == blocks(d@, i as int) + Seq::new(
                    k as nat,
                    |j: int| if i % 2 == 0 { (i / 2) as int } else { -1int },
                ),
            decreases n - k,
        {
            let ghost prior = e@;
            e.push(v);
            proof {
                assert(e@.map_values(|v: i64| v as int) =~= prior.map_values(|v: i64| v as int).push(v as int));
                assert(e@.map_values(|v: i64| v as int) =~= blocks(d@, i as int) + Seq::new(
                    (k + 1) as nat,
                    |j: int| if i % 2 == 0 { (i / 2) as int } else { -1int },
                ));
            }
            k += 1;
        }
        proof {
            assert(blocks(d@, i + 1) =~= blocks(d@, i as int) + Seq::new(
                n as nat,
                |j: int| if i % 2 == 0 { (i / 2) as int } else { -1int },
            ));
        }
        i += 1;
    }
    e
}

pub open spec fn ints(e: Seq<i64>) -> Seq<int> {
    e.map_values(|v: i64| v as int)
}

/// The file blocks of `e`, in order.
fn files_of(e: &Vec<i64>) -> (r: Vec<i64>)
    ensures
        ints(r@) == file_blocks(ints(e@)),
{
    let mut f: Vec<i64> = Vec::new();
    let mut i: usize = 0;
    proof {
        assert(ints(e@).subrange(0, 0) =~= Seq::<int>::empty());
        assert(ints(f@) =~= Seq::<int>::empty());
    }
    while i < e.len()
        invariant
            i <= e@.len(),
            ints(f@) == file_blocks(ints(e@).subrange(0, i as int)),
        decreases e@.len() - i,
    {
        let ghost prior = f@;
        proof {
            assert(ints(e@).subrange(0, i + 1) =~= ints(e@).subrange(0, i as int).push(e@[i as int] as int));
            ints(e@).subrange(0, i as int).lemma_filter_push(e@[i as int] as int, |v: int| v >= 0);
        }
        if e[i] >= 0 {
            f.push(e[i]);
            proof {
                assert(ints(f@) =~= ints(prior).push(e@[i as int] as int));
            }
        }
        i += 1;
    }
    proof {
        assert(ints(e@).subrange(0, i as int) =~= ints(e@));
    }
    f
}

proof fn lemma_compacted_nonneg(ev: Seq<int>, j: int)
    requires
        0 <= j < file_blocks(ev).len(),
    ensures
        j < ev.len(),
        0 <= free_before(ev, j) <= j,
        compacted(ev, j) >= 0,
{
    ev.lemma_filter_len(|v: int| v >= 0);
    ev.subrange(0, j).lemma_filter_len(|v: int| v < 0);
    if ev[j] < 0 {
        let f = file_blocks(ev);
        ev.lemma_filter_pred(|v: int| v >= 0, f.len() - 1 - free_before(ev, j));
    }
}

/// The checksum of the compacted blocks `e`; `None` when it does not fit
/// in a `u64`.
pub fn compacted_checksum(e: &Vec<i64>) -> (r: Option<u64>)
    ensures
        r.is_some() == (checksum(ints(e@)) <= u64::MAX),
        r.is_some() ==> r.unwrap() == checksum(ints(e@)),
{
    let ghost ev = ints(e@);
    let f = files_of(e);
    let ghost fv = file_blocks(ev);
    let n = f.len();
    proof {
        ev.lemma_filter_len(|v: int| v >= 0);
    }
    let ghost terms = Seq::new(fv.len(), |p: int| p * compacted(ev, p));
    let mut acc: u64 = 0;
    let mut k: usize = 0;
    let mut p: usize = 0;
    proof {
        assert(terms.subrange(0, 0) =~= Seq::<int>::empty());
        assert(ev.subrange(0, 0) =~= Seq::<int>::empty());
        assert forall|j: int| 0 <= j < terms.len() implies terms[j] >= 0 by {
            lemma_compacted_nonneg(ev, j);
            assert(j * compacted(ev, j) >= 0) by (nonlinear_arith)
                requires j >= 0, compacted(ev, j) >= 0;
        }
    }
    while p < n
        invariant
            p <= n == fv.len() == terms.len(),
            n <= e@.len(),
            ev == ints(e@),
            fv == file_blocks(ev),
            ints(f@) == fv,
            k == free_before(ev, p as int),
            checksum(ev) == sum(terms),
            forall|j: int| 0 <= j < terms.len() ==> terms[j] >= 0,
            forall|j: int| 0 <= j < terms.len() ==> #[trigger] terms[j] == j * compacted(ev, j),
            acc == sum(terms.subrange(0, p as int)),
        decreases n - p,
    {
        proof {
            lemma_compacted_nonneg(ev, p as int);
        }
        let v: i64 = if e[p] >= 0 {
            e[p]
        } else {
            proof {
                assert(ints(f@)[n - 1 - k] == f@[n - 1 - k] as int);
            }
            f[n - 1 - k]
        };
        assert(v as int == compacted(ev, p as int));
        let t = match (p as u64).checked_mul(v as u64) {
            Some(t) => t,
            None => {
                proof {
                    lemma_term_le_sum(terms, p as int);
                }
                return None;
            },
        };
        match add_term(acc, t, Ghost(terms), Ghost(p as int)) {
            Some(s) => {
                acc = s;
            },
            None => {
                return None;
            },
        }
        proof {
            assert(ev.subrange(0, p + 1) =~= ev.subrange(0, p as int).push(ev[p as int]));
            ev.subrange(0, p as int).lemma_filter_push(ev[p as int], |v: int| v < 0);
        }
        if e[p] < 0 {
            k += 1;
        }
        p += 1;
    }
    proof {
        assert(terms.subrange(0, p as int) =~= terms);
    }
    Some(acc)
}

/// The checksum of the disk map `memory` after moving file blocks, one at a
/// time from the end, into the leftmost free blocks; `None` when `memory`
/// holds a byte that is not a digit, or the checksum does not fit in a `u64`.
pub fn part1(memory: &[u8]) -> (r: Option<u64>)
    ensures
        r.is_some() == (is_disk_map(memory@) && checksum(blocks(memory@, memory@.len() as int)) <= u64::MAX),
        r.is_some() ==> r.unwrap() == checksum(blocks(memory@, memory@.len() as int)),
{
    let mut i: usize = 0;
    while i < memory.len()
        invariant
            i <= memory@.len(),
            forall|j: int| 0 <= j < i ==> 48 <= #[trigger] memory@[j] <= 57,
        decreases memory@.len() - i,
    {
        if memory[i] < 48 || memory[i] > 57 {
            return None;
        }
        i += 1;
    }
    let e = expand(memory);
    compacted_checksum(&e)
}

/// The length of file `i`.
pub open spec fn size_of(d: Seq<u8>, i: int) -> int {
    d[2 * i] - 48
}

/// The length of the free space after file `i` (none after the last).
pub open spec fn gap_of(d: Seq<u8>, i: int) -> int {
    if 2 * i + 1 < d.len() {
        d[2 * i + 1] - 48
    } else {
        0
    }
}

/// The first block of file `i` before any move.
pub open spec fn start_of(d: Seq<u8>, i: int) -> int
    decreases i,
{
    if i <= 0 {
        0
    } else {
        start_of(d, i - 1) + size_of(d, i - 1) + gap_of(d, i - 1)
    }
}

pub open spec fn file_count(d: Seq<u8>) -> int {
    (d.len() as int + 1) / 2
}

/// The layout while files move: where each free span starts and how long it
/// is, and where each file starts.
pub struct Layout {
    pub gaps: Seq<(int, int)>,
    pub pos: Seq<int>,
}

pub open spec fn initial_layout(d: Seq<u8>) -> Layout {
    Layout {
        gaps: Seq::new(
            file_count(d) as nat,
            |i: int| (start_of(d, i) + size_of(d, i), gap_of(d, i)),
        ),
        pos: Seq::new(file_count(d) as nat, |i: int| start_of(d, i)),
    }
}

/// The first free span from `j` on, left of file `id`, that can hold `s`
/// blocks; `id` when there is none.
pub open spec fn first_fit(gaps: Seq<(int, int)>, j: int, id: int, s: int) -> int
    decreases id - j,
{
    if j >= id {
        id
    } else if gaps[j].1 >= s {
        j
    } else {
        first_fit(gaps, j + 1, id, s)
    }
}

/// Moves file `id` to the first free span left of it that can hold it, if any.
pub open spec fn move_file(l: Layout, id: int, s: int) -> Layout {
    let j = first_fit(l.gaps, 0, id, s);
    if j < id {
        Layout {
            gaps: l.gaps.update(j, (l.gaps[j].0 + s, l.gaps[j].1 - s)),
            pos: l.pos.update(id, l.gaps[j].0),
        }
    } else {
        l
    }
}

/// Tries to move each of the files `n - 1` down to 1, in that order.
pub open spec fn move_all(l: Layout, d: Seq<u8>, n: int) -> Layout
    decreases n,
{
    if n <= 1 {
        l
    } else {
        move_all(move_file(l, n - 1, size_of(d, n - 1)), d, n - 1)
    }
}

/// The checksum after moving whole files: each file's id times the sum of
/// the positions of its blocks.
pub open spec fn whole_file_checksum(d: Seq<u8>) -> int {
    let l = move_all(initial_layout(d), d, file_count(d));
    sum(
        Seq::new(
            file_count(d) as nat,
            |i: int| i * (size_of(d, i) * l.pos[i] + size_of(d, i) * (size_of(d, i) - 1) / 2),
        ),
    )
}

proof fn lemma_start_bound(d: Seq<u8>, i: int)
    requires
        is_disk_map(d),
        0 <= i,
        2 * i <= d.len() + 1,
    ensures
        0 <= start_of(d, i) <= 18 * i,
    decreases i,
{
    if i > 0 {
        lemma_start_bound(d, i - 1);
        assert(48 <= d[2 * (i - 1)] <= 57);
        if 2 * (i - 1) + 1 < d.len() {
            assert(48 <= d[2 * (i - 1) + 1] <= 57);
        }
    }
}

pub open spec fn layout_view(gaps: Seq<(u64, u64)>, pos: Seq<u64>) -> Layout {
    Layout {
        gaps: gaps.map_values(|g: (u64, u64)| (g.0 as int, g.1 as int)),
        pos: pos.map_values(|p: u64| p as int),
    }
}

/// The layout before any move.
fn initial(d: &[u8]) -> (r: (Vec<(u64, u64)>, Vec<u64>))
    requires
        is_disk_map(d@),
        d@.len() <= 1000000000000,
    ensures
        layout_view(r.0@, r.1@) == initial_layout(d@),
        r.0@.len() == file_count(d@),
        r.1@.len() == file_count(d@),
        forall|j: int| 0 <= j < r.0@.len() ==> (#[trigger] r.0@[j]).0 + r.0@[j].1 <= 18 * d@.len() + 36,
        forall|j: int| 0 <= j < r.1@.len() ==> #[trigger] r.1@[j] <= 18 * d@.len() + 36,
{
    let n = d.len() / 2 + d.len() % 2;
    let mut gaps: Vec<(u64, u64)> = Vec::new();
    let mut pos: Vec<u64> = Vec::new();
    let mut start: u64 = 0;
    let mut i: usize = 0;
    while i < n
        invariant
            i <= n == file_count(d@),
            is_disk_map(d@),
            d@.len() <= 1000000000000,
            start == start_of(d@, i as int),
            gaps@.len() == i,
            pos@.len() == i,
            forall|j: int| 0 <= j < i ==> (#[trigger] gaps@[j]).0 == start_of(d@, j) + size_of(d@, j)
                && gaps@[j].1 == gap_of(d@, j),
            forall|j: int| 0 <= j < i ==> #[trigger] pos@[j] == start_of(d@, j),
            forall|j: int| 0 <= j < i ==> (#[trigger] gaps@[j]).0 + gaps@[j].1 <= 18 * d@.len() + 36,
            forall|j: int| 0 <= j < i ==> #[trigger] pos@[j] <= 18 * d@.len() + 36,
        decreases n - i,
    {
        proof {
            lemma_start_bound(d@, i as int);
            lemma_start_bound(d@, i + 1);
            assert(48 <= d@[2 * i as int] <= 57);
        }
        let len = d.len();
        assert(2 * i < len);
        let size = (d[2 * i] - 48) as u64;
        let gap: u64 = if 2 * i + 1 < d.len() {
            (d[2 * i + 1] - 48) as u64
        } else {
            0
        };
        gaps.push((start + size, gap));
        pos.push(start);
        start = start + size + gap;
        i += 1;
    }
    proof {
        let l = layout_view(gaps@, pos@);
        let w = initial_layout(d@);
        assert(l.gaps =~= w.gaps);
        assert(l.pos =~= w.pos);
    }
    (gaps, pos)
}

/// The first free span left of file `id` that can hold `s` blocks, or `id`.
fn fit(gaps: &Vec<(u64, u64)>, id: usize, s: u64) -> (r: usize)
    requires
        id <= gaps@.len(),
    ensures
        r == first_fit(layout_view(gaps@, Seq::empty()).gaps, 0, id as int, s as int),
{
    let ghost gv = layout_view(gaps@, Seq::empty()).gaps;
    let mut j: usize = 0;
    while j < id
        invariant
            j <= id <= gaps@.len(),
            gv == layout_view(gaps@, Seq::empty()).gaps,
            first_fit(gv, 0, id as int, s as int) == first_fit(gv, j as int, id as int, s as int),
        decreases id - j,
    {
        if gaps[j].1 >= s {
            return j;
        }
        j += 1;
    }
    j
}

/// The layout after trying to move each file, from the last down to the
/// second, to the first free span left of it that can hold it.
fn move_files(d: &[u8]) -> (r: Vec<u64>)
    requires
        is_disk_map(d@),
        d@.len() <= 1000000000000,
    ensures
        r@.map_values(|p: u64| p as int) == move_all(initial_layout(d@), d@, file_count(d@)).pos,
        r@.len() == file_count(d@),
        forall|j: int| 0 <= j < r@.len() ==> #[trigger] r@[j] <= 18 * d@.len() + 36,
{
    let (mut gaps, mut pos) = initial(d);
    let n = d.len() / 2 + d.len() % 2;
    let mut m: usize = n;
    while m > 1
        invariant
            m <= n == file_count(d@),
            is_disk_map(d@),
            d@.len() <= 1000000000000,
            gaps@.len() == n,
            pos@.len() == n,
            move_all(layout_view(gaps@, pos@), d@, m as int) == move_all(
                initial_layout(d@),
                d@,
                file_count(d@),
            ),
            forall|j: int| 0 <= j < gaps@.len() ==> (#[trigger] gaps@[j]).0 + gaps@[j].1 <= 18 * d@.len() + 36,
            forall|j: int| 0 <= j < pos@.len() ==> #[trigger] pos@[j] <= 18 * d@.len() + 36,
        decreases m,
    {
        let id = m - 1;
        let len = d.len();
        assert(2 * id < len);
        let s = (d[2 * id] - 48) as u64;
        let j = fit(&gaps, id, s);
        let ghost l = layout_view(gaps@, pos@);
        proof {
            assert(layout_view(gaps@, Seq::empty()).gaps == l.gaps);
        }
        if j < id {
            let (g0, g1) = gaps[j];
            proof {
                lemma_fit_found(l.gaps, 0, id as int, s as int);
                assert(l.gaps[j as int] == (g0 as int, g1 as int));
                assert(gaps@[j as int].0 + gaps@[j as int].1 <= 18 * d@.len() + 36);
            }
            gaps.set(j, (g0 + s, g1 - s));
            pos.set(id, g0);
            proof {
                let l2 = layout_view(gaps@, pos@);
                let w = move_file(l, id as int, s as int);
                assert(l2.gaps =~= w.gaps);
                assert(l2.pos =~= w.pos);
            }
        }
        m -= 1;
    }
    pos
}

proof fn lemma_fit_found(gaps: Seq<(int, int)>, j: int, id: int, s: int)
    requires
        0 <= j,
        id <= gaps.len(),
    ensures
        first_fit(gaps, j, id, s) < id ==> j <= first_fit(gaps, j, id, s) && gaps[first_fit(gaps, j, id, s)].1 >= s,
    decreases id - j,
{
    if j < id && gaps[j].1 < s {
        lemma_fit_found(gaps, j + 1, id, s);
    }
}

/// The checksum of the disk map `memory` after moving whole files, from the
/// last down to the second, each to the first free span left of it that can
/// hold it; `None` when `memory` holds a byte that is not a digit, or the
/// checksum does not fit in a `u64`.
pub fn part2(memory: &[u8]) -> (r: Option<u64>)
    requires
        memory@.len() <= 1000000000000,
    ensures
        r.is_some() == (is_disk_map(memory@) && whole_file_checksum(memory@) <= u64::MAX),
        r.is_some() ==> r.unwrap() == whole_file_checksum(memory@),
{
    let mut i: usize = 0;
    while i < memory.len()
        invariant
            i <= memory@.len(),
            forall|j: int| 0 <= j < i ==> 48 <= #[trigger] memory@[j] <= 57,
        decreases memory@.len() - i,
    {
        if memory[i] < 48 || memory[i] > 57 {
            return None;
        }
        i += 1;
    }
    let pos = move_files(memory);
    let ghost d = memory@;
    let ghost l = move_all(initial_layout(d), d, file_count(d));
    let ghost terms = Seq::new(
        file_count(d) as nat,
        |i: int| i * (size_of(d, i) * l.pos[i] + size_of(d, i) * (size_of(d, i) - 1) / 2),
    );
    let n = memory.len() / 2 + memory.len() % 2;
    let mut acc: u64 = 0;
    let mut id: usize = 0;
    proof {
        assert(terms.subrange(0, 0) =~= Seq::<int>::empty());
        assert forall|j: int| 0 <= j < terms.len() implies terms[j] >= 0 by {
            let sz = size_of(d, j);
            assert(48 <= d[2 * j] <= 57);
            assert(pos@.map_values(|p: u64| p as int)[j] == pos@[j] as int);
            let p = l.pos[j];
            assert(sz * p >= 0) by (nonlinear_arith)
                requires sz >= 0, p >= 0;
            assert(sz * (sz - 1) / 2 >= 0) by (nonlinear_arith)
                requires sz >= 0;
            assert(j * (sz * p + sz * (sz - 1) / 2) >= 0) by (nonlinear_arith)
                requires j >= 0, sz * p + sz * (sz - 1) / 2 >= 0;
        }
    }
    while id < n
        invariant
            id <= n == file_count(d) == terms.len(),
            d == memory@,
            is_disk_map(d),
            d.len() <= 1000000000000,
            pos@.map_values(|p: u64| p as int) == l.pos,
            pos@.len() == n,
            forall|j: int| 0 <= j < pos@.len() ==> #[trigger] pos@[j] <= 18 * d.len() + 36,
            whole_file_checksum(d) == sum(terms),
            forall|j: int| 0 <= j < terms.len() ==> terms[j] >= 0,
            forall|j: int| 0 <= j < terms.len() ==> #[trigger] terms[j] == j * (size_of(d, j) * l.pos[j] + size_of(d, j) * (size_of(d, j) - 1) / 2),
            acc == sum(terms.subrange(0, id as int)),
        decreases n - id,
    {
        let len = memory.len();
        assert(2 * id < len);
        let s = (memory[2 * id] - 48) as u64;
        let p = pos[id];
        proof {
            assert(pos@.map_values(|p: u64| p as int)[id as int] == p as int);
            assert(s * p <= 9 * (18 * 1000000000000 + 36)) by (nonlinear_arith)
                requires s <= 9, p <= 18 * 1000000000000 + 36;
            assert(s * (s - 1) / 2 <= 36) by (nonlinear_arith)
                requires s <= 9, s >= 0;
        }
        let tri = if s > 0 {
            s * (s - 1) / 2
        } else {
            0
        };
        let inner = s * p + tri;
        proof {
            let sz = size_of(d, id as int);
            assert(sz == s);
            assert(l.pos[id as int] == p);
            if s == 0 {
                assert(sz * (sz - 1) / 2 == 0) by (nonlinear_arith)
                    requires sz == 0;
            }
            assert(inner == sz * l.pos[id as int] + sz * (sz - 1) / 2);
        }
        let t = match (id as u64).checked_mul(inner) {
            Some(t) => t,
            None => {
                proof {
                    lemma_term_le_sum(terms, id as int);
                }
                return None;
            },
        };
        match add_term(acc, t, Ghost(terms), Ghost(id as int)) {
            Some(v) => {
                acc = v;
            },
            None => {
                return None;
            },
        }
        id += 1;
    }
    proof {
        assert(terms.subrange(0, id as int) =~= terms);
    }
    Some(acc)
}

} // verus!



