//! Lock and key schematics: which keys fit which locks without their pin
//! and key columns overlapping.
use crate::sums::{add_term, lemma_sum_bounded, sum};
use crate::text::{line_spans, lines, spans_are};
use vstd::prelude::*;
use vstd::string::StringSliceAdditionalSpecFns;

verus! {

/// The groups of lines between empty lines, as `split` gives them.
pub open spec fn groups(ls: Seq<Seq<u8>>) -> Seq<Seq<Seq<u8>>>
    decreases ls.len(),
{
    if ls.len() == 0 {
        seq![Seq::<Seq<u8>>::empty()]
    } else {
        let g = groups(ls.drop_last());
        if ls.last().len() == 0 {
            g.push(Seq::<Seq<u8>>::empty())
        } else {
            g.update(g.len() - 1, g.last().push(ls.last()))
        }
    }
}

/// The schematics: the groups that are not empty.
pub open spec fn schematics(b: Seq<u8>) -> Seq<Seq<Seq<u8>>> {
    groups(lines(b)).filter(|g: Seq<Seq<u8>>| g.len() > 0)
}

/// A lock: its first line is `#####`.
pub open spec fn is_lock(g: Seq<Seq<u8>>) -> bool {
    g[0] == seq![35u8, 35u8, 35u8, 35u8, 35u8]
}

/// The number of `#` in column `c` of the lines of `g` (a line too short
/// for the column has none there).
pub open spec fn column_height(g: Seq<Seq<u8>>, c: int) -> int
    decreases g.len(),
{
    if g.len() == 0 {
        0
    } else {
        column_height(g.drop_last(), c) + if c < g.last().len() && g.last()[c] == 35u8 {
            1int
        } else {
            0int
        }
    }
}

/// The columns of a lock and a key do not overlap.
pub open spec fn fits(lock: Seq<Seq<u8>>, key: Seq<Seq<u8>>) -> bool {
    forall|c: int| 0 <= c < 5 ==> #[trigger] column_height(lock, c) + column_height(key, c) <= 7
}

pub open spec fn locks(b: Seq<u8>) -> Seq<Seq<Seq<u8>>> {
    schematics(b).filter(|g: Seq<Seq<u8>>| is_lock(g))
}

pub open spec fn keys(b: Seq<u8>) -> Seq<Seq<Seq<u8>>> {
    schematics(b).filter(|g: Seq<Seq<u8>>| !is_lock(g))
}

/// The column heights of a schematic.
pub open spec fn heights(g: Seq<Seq<u8>>) -> Seq<int> {
    Seq::new(5, |c: int| column_height(g, c))
}

pub open spec fn nonempty(g: Seq<Seq<u8>>) -> bool {
    g.len() > 0
}

pub open spec fn hview(v: Seq<Vec<u64>>) -> Seq<Seq<int>> {
    Seq::new(v.len(), |i: int| v[i]@.map_values(|h: u64| h as int))
}

proof fn lemma_groups_nonempty(ls: Seq<Seq<u8>>)
    ensures
        groups(ls).len() >= 1,
    decreases ls.len(),
{
    if ls.len() > 0 {
        lemma_groups_nonempty(ls.drop_last());
    }
}

/// Files the finished group `g` among the locks or the keys.
proof fn lemma_close(done: Seq<Seq<Seq<u8>>>, g: Seq<Seq<u8>>)
    ensures
        done.push(g).filter(|x: Seq<Seq<u8>>| x.len() > 0) == if g.len() > 0 {
            done.filter(|x: Seq<Seq<u8>>| x.len() > 0).push(g)
        } else {
            done.filter(|x: Seq<Seq<u8>>| x.len() > 0)
        },
{
    done.lemma_filter_push(g, |x: Seq<Seq<u8>>| x.len() > 0);
}

pub open spec fn lock_heights(done: Seq<Seq<Seq<u8>>>) -> Seq<Seq<int>> {
    done.filter(|x: Seq<Seq<u8>>| x.len() > 0).filter(|g: Seq<Seq<u8>>| is_lock(g)).map_values(
        |g: Seq<Seq<u8>>| heights(g),
    )
}

pub open spec fn key_heights(done: Seq<Seq<Seq<u8>>>) -> Seq<Seq<int>> {
    done.filter(|x: Seq<Seq<u8>>| x.len() > 0).filter(|g: Seq<Seq<u8>>| !is_lock(g)).map_values(
        |g: Seq<Seq<u8>>| heights(g),
    )
}

proof fn lemma_close_lists(done: Seq<Seq<Seq<u8>>>, g: Seq<Seq<u8>>)
    ensures
        lock_heights(done.push(g)) == if g.len() > 0 && is_lock(g) {
            lock_heights(done).push(heights(g))
        } else {
            lock_heights(done)
        },
        key_heights(done.push(g)) == if g.len() > 0 && !is_lock(g) {
            key_heights(done).push(heights(g))
        } else {
            key_heights(done)
        },
{
    let ne = done.filter(|x: Seq<Seq<u8>>| x.len() > 0);
    done.lemma_filter_push(g, |x: Seq<Seq<u8>>| x.len() > 0);
    if g.len() > 0 {
        ne.lemma_filter_push(g, |g: Seq<Seq<u8>>| is_lock(g));
        ne.lemma_filter_push(g, |g: Seq<Seq<u8>>| !is_lock(g));
        let l = ne.filter(|g: Seq<Seq<u8>>| is_lock(g));
        let k = ne.filter(|g: Seq<Seq<u8>>| !is_lock(g));
        assert(l.push(g).map_values(|g: Seq<Seq<u8>>| heights(g)) =~= l.map_values(
            |g: Seq<Seq<u8>>| heights(g),
        ).push(heights(g)));
        assert(k.push(g).map_values(|g: Seq<Seq<u8>>| heights(g)) =~= k.map_values(
            |g: Seq<Seq<u8>>| heights(g),
        ).push(heights(g)));
    }
}

fn push_heights(out: &mut Vec<Vec<u64>>, h: &Vec<u64>)
    ensures
        hview(final(out)@) == hview(old(out)@).push(h@.map_values(|v: u64| v as int)),
{
    let mut copy: Vec<u64> = Vec::new();
    let mut i: usize = 0;
    while i < h.len()
        invariant
            i <= h@.len(),
            copy@ == h@.subrange(0, i as int),
        decreases h@.len() - i,
    {
        copy.push(h[i]);
        proof {
            assert(copy@ =~= h@.subrange(0, i + 1));
        }
        i += 1;
    }
    proof {
        assert(copy@ =~= h@);
    }
    let ghost prior = out@;
    out.push(copy);
    proof {
        assert(hview(out@) =~= hview(prior).push(h@.map_values(|v: u64| v as int)));
    }
}

/// The column heights of the locks and of the keys of `input`, in order.
pub fn parse_input(input: &[u8]) -> (r: (Vec<Vec<u64>>, Vec<Vec<u64>>))
    ensures
        hview(r.0@) == locks(input@).map_values(|g: Seq<Seq<u8>>| heights(g)),
        hview(r.1@) == keys(input@).map_values(|g: Seq<Seq<u8>>| heights(g)),
{
    let spans = line_spans(input);
    let ghost ls = lines(input@);
    let mut lk: Vec<Vec<u64>> = Vec::new();
    let mut ky: Vec<Vec<u64>> = Vec::new();
    let mut cur: Vec<u64> = vec![0, 0, 0, 0, 0];
    let mut cur_len: usize = 0;
    let mut cur_lock = false;
    let mut k: usize = 0;
    let nspans = spans.len();
    proof {
        assert(ls.subrange(0, 0) =~= Seq::<Seq<u8>>::empty());
        let gs = groups(ls.subrange(0, 0));
        assert(gs.drop_last() =~= Seq::<Seq<Seq<u8>>>::empty());
        assert(hview(lk@) =~= lock_heights(gs.drop_last()));
        assert(hview(ky@) =~= key_heights(gs.drop_last()));
        assert(cur@.map_values(|v: u64| v as int) =~= heights(gs.last()));
    }
    while k < spans.len()
        invariant
            k <= spans@.len(),
            nspans == spans@.len(),
            ls == lines(input@),
            spans_are(input@, spans@, ls),
            cur@.len() == 5,
            ({
                let gs = groups(ls.subrange(0, k as int));
                &&& gs.len() >= 1
                &&& hview(lk@) == lock_heights(gs.drop_last())
                &&& hview(ky@) == key_heights(gs.drop_last())
                &&& cur@.map_values(|v: u64| v as int) == heights(gs.last())
                &&& cur_len == gs.last().len()
                &&& cur_len > 0 ==> cur_lock == is_lock(gs.last())
            }),
            forall|c: int| 0 <= c < 5 ==> #[trigger] cur@[c] <= cur_len,
            cur_len <= k,
        decreases spans@.len() - k,
    {
        let (lo, hi) = spans[k];
        let ghost gs = groups(ls.subrange(0, k as int));
        proof {
            lemma_groups_nonempty(ls.subrange(0, k as int));
            assert(ls.subrange(0, k + 1).drop_last() =~= ls.subrange(0, k as int));
            assert(ls[k as int] == input@.subrange(lo as int, hi as int));
        }
        if lo == hi {
            proof {
                lemma_close_lists(gs.drop_last(), gs.last());
                assert(gs.drop_last().push(gs.last()) =~= gs);
            }
            if cur_len > 0 {
                if cur_lock {
                    push_heights(&mut lk, &cur);
                } else {
                    push_heights(&mut ky, &cur);
                }
            }
            cur = vec![0, 0, 0, 0, 0];
            cur_len = 0;
            proof {
                let gs2 = groups(ls.subrange(0, k + 1));
                assert(gs2 == gs.push(Seq::<Seq<u8>>::empty()));
                assert(gs2.drop_last() =~= gs);
                assert(cur@.map_values(|v: u64| v as int) =~= heights(gs2.last()));
            }
        } else {
            let ghost line = ls[k as int];
            if cur_len == 0 {
                cur_lock = hi - lo == 5 && input[lo] == 35 && input[lo + 1] == 35 && input[lo + 2] == 35
                    && input[lo + 3] == 35 && input[lo + 4] == 35;
                proof {
                    if cur_lock {
                        assert(line =~= seq![35u8, 35u8, 35u8, 35u8, 35u8]);
                    } else if line.len() == 5 {
                        if line == seq![35u8, 35u8, 35u8, 35u8, 35u8] {
                            assert(line[0] == 35 && line[1] == 35 && line[2] == 35 && line[3] == 35 && line[4] == 35);
                        }
                    }
                }
            }
            let ghost before = cur@;
            let mut c: usize = 0;
            while c < 5
                invariant
                    c <= 5,
                    cur@.len() == 5,
                    before.len() == 5,
                    nspans == spans@.len(),
                    lo < hi <= input@.len(),
                    line == input@.subrange(lo as int, hi as int),
                    forall|j: int| 0 <= j < c ==> #[trigger] cur@[j] == before[j] + if j < line.len() && line[j] == 35u8 { 1int } else { 0int },
                    forall|j: int| c <= j < 5 ==> #[trigger] cur@[j] == before[j],
                    forall|j: int| 0 <= j < 5 ==> #[trigger] before[j] <= cur_len,
                    cur_len <= k,
                    k < spans@.len(),
                decreases 5 - c,
            {
                proof {
                    if c < hi - lo {
                        assert(line[c as int] == input@[lo + c]);
                    }
                }
                let ghost prior = cur@;
                assert(line.len() == hi - lo);
                if c < hi - lo && input[lo + c] == 35 {
                    let v = cur[c];
                    assert(v == before[c as int]);
                    assert(v < nspans);
                    cur.set(c, v + 1);
                    assert(cur@ == prior.update(c as int, (v + 1) as u64));
                    assert(cur@[c as int] == before[c as int] + 1);
                } else {
                    assert(!(c < line.len() && line[c as int] == 35u8));
                    assert(cur@[c as int] == before[c as int] + 0);
                }
                c += 1;
            }
            cur_len += 1;
            proof {
                let gs2 = groups(ls.subrange(0, k + 1));
                assert(gs2 == gs.update(gs.len() - 1, gs.last().push(line)));
                assert(gs2.drop_last() =~= gs.drop_last());
                assert(gs2.last() == gs.last().push(line));
                assert(gs.last().push(line).drop_last() =~= gs.last());
                assert(before.map_values(|v: u64| v as int) == heights(gs.last()));
                assert forall|c: int| 0 <= c < 5 implies cur@.map_values(|v: u64| v as int)[c] == heights(gs2.last())[c] by {
                    assert(before.map_values(|v: u64| v as int)[c] == heights(gs.last())[c]);
                    assert(column_height(gs2.last(), c) == column_height(gs.last(), c) + if c < line.len() && line[c] == 35u8 { 1int } else { 0int });
                }
                assert(cur@.map_values(|v: u64| v as int) =~= heights(gs2.last()));
                if gs.last().len() > 0 {
                    assert(gs2.last()[0] == gs.last()[0]);
                }
            }
        }
        k += 1;
    }
    proof {
        let gs = groups(ls.subrange(0, k as int));
        assert(ls.subrange(0, k as int) =~= ls);
        lemma_close_lists(gs.drop_last(), gs.last());
        assert(gs.drop_last().push(gs.last()) =~= gs);
    }
    if cur_len > 0 {
        if cur_lock {
            push_heights(&mut lk, &cur);
        } else {
            push_heights(&mut ky, &cur);
        }
    }
    (lk, ky)
}

pub open spec fn row_pairs(ls: Seq<Seq<Seq<u8>>>, ks: Seq<Seq<Seq<u8>>>, i: int) -> int {
    sum(Seq::new(ks.len(), |j: int| if fits(ls[i], ks[j]) { 1int } else { 0int }))
}

/// The number of lock and key pairs that fit together.
pub open spec fn fitting_pairs(b: Seq<u8>) -> int {
    sum(Seq::new(locks(b).len(), |i: int| row_pairs(locks(b), keys(b), i)))
}

fn fits_heights(l: &Vec<u64>, k: &Vec<u64>) -> (r: bool)
    requires
        l@.len() == 5,
        k@.len() == 5,
    ensures
        r == forall|c: int| 0 <= c < 5 ==> #[trigger] l@[c] + k@[c] <= 7,
{
    let mut c: usize = 0;
    while c < 5
        invariant
            c <= 5,
            l@.len() == 5,
            k@.len() == 5,
            forall|j: int| 0 <= j < c ==> #[trigger] l@[j] + k@[j] <= 7,
        decreases 5 - c,
    {
        if l[c] > 7 || k[c] > 7 - l[c] {
            return false;
        }
        c += 1;
    }
    true
}

/// The number of lock and key pairs of `input` whose columns do not
/// overlap; `None` when it does not fit in a `u64`.
pub fn first_part(input: &str) -> (r: Option<u64>)
    ensures
        r.is_some() == (fitting_pairs(input.spec_bytes()) <= u64::MAX),
        r.is_some() ==> r.unwrap() == fitting_pairs(input.spec_bytes()),
{
    let (lk, ky) = parse_input(input.as_bytes());
    let ghost b = input.spec_bytes();
    let ghost ls = locks(b);
    let ghost ks = keys(b);
    proof {
        assert(hview(lk@).len() == ls.len());
        assert(hview(ky@).len() == ks.len());
    }
    let ghost terms = Seq::new(ls.len(), |i: int| row_pairs(ls, ks, i));
    let mut total: u64 = 0;
    let mut i: usize = 0;
    proof {
        assert(terms.subrange(0, 0) =~= Seq::<int>::empty());
        assert forall|j: int| 0 <= j < terms.len() implies terms[j] >= 0 by {
            lemma_sum_bounded(Seq::new(ks.len(), |q: int| if fits(ls[j], ks[q]) { 1int } else { 0int }), 1);
        }
    }
    while i < lk.len()
        invariant
            i <= lk@.len() == ls.len() == terms.len(),
            ky@.len() == ks.len(),
            b == input.spec_bytes(),
            ls == locks(b),
            ks == keys(b),
            hview(lk@) == ls.map_values(|g: Seq<Seq<u8>>| heights(g)),
            hview(ky@) == ks.map_values(|g: Seq<Seq<u8>>| heights(g)),
            fitting_pairs(b) == sum(terms),
            forall|j: int| 0 <= j < terms.len() ==> terms[j] >= 0,
            forall|j: int| 0 <= j < terms.len() ==> #[trigger] terms[j] == row_pairs(ls, ks, j),
            total == sum(terms.subrange(0, i as int)),
        decreases lk@.len() - i,
    {
        let ghost row_terms = Seq::new(ks.len(), |q: int| if fits(ls[i as int], ks[q]) { 1int } else { 0int });
        let mut row: u64 = 0;
        let mut j: usize = 0;
        proof {
            assert(hview(lk@)[i as int] == heights(ls[i as int]));
        }
        while j < ky.len()
            invariant
                i < lk@.len() == ls.len(),
                j <= ky@.len() == ks.len() == row_terms.len(),
                hview(lk@) == ls.map_values(|g: Seq<Seq<u8>>| heights(g)),
                hview(ky@) == ks.map_values(|g: Seq<Seq<u8>>| heights(g)),
                forall|q: int| 0 <= q < row_terms.len() ==> #[trigger] row_terms[q] == if fits(ls[i as int], ks[q]) { 1int } else { 0int },
                row == sum(row_terms.subrange(0, j as int)),
                row <= j,
            decreases ky@.len() - j,
        {
            proof {
                assert(row_terms.subrange(0, j + 1).drop_last() =~= row_terms.subrange(0, j as int));
                assert(hview(lk@)[i as int] == heights(ls[i as int]));
                assert(hview(ky@)[j as int] == heights(ks[j as int]));
                assert(lk@[i as int]@.len() == 5);
                assert(ky@[j as int]@.len() == 5);
                assert forall|c: int| 0 <= c < 5 implies (lk@[i as int]@[c] + ky@[j as int]@[c] <= 7) == (column_height(ls[i as int], c) + column_height(ks[j as int], c) <= 7) by {
                    assert(hview(lk@)[i as int][c] == lk@[i as int]@[c] as int);
                    assert(hview(ky@)[j as int][c] == ky@[j as int]@[c] as int);
                }
                let lh = lk@[i as int]@;
                let kh = ky@[j as int]@;
                if fits(ls[i as int], ks[j as int]) {
                    assert forall|c: int| 0 <= c < 5 implies #[trigger] lh[c] + kh[c] <= 7 by {
                        assert(column_height(ls[i as int], c) + column_height(ks[j as int], c) <= 7);
                    }
                } else {
                    let c = choose|c: int| 0 <= c < 5 && !(#[trigger] column_height(ls[i as int], c) + column_height(ks[j as int], c) <= 7);
                    assert(!(lh[c] + kh[c] <= 7));
                }
            }
            if fits_heights(&lk[i], &ky[j]) {
                row += 1;
            }
            j += 1;
        }
        proof {
            assert(row_terms.subrange(0, j as int) =~= row_terms);
        }
        match add_term(total, row, Ghost(terms), Ghost(i as int)) {
            Some(v) => {
                total = v;
            },
            None => {
                return None;
            },
        }
        i += 1;
    }
    proof {
        assert(terms.subrange(0, i as int) =~= terms);
    }
    Some(total)
}

} // verus!

