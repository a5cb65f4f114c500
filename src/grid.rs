//! A rectangular grid of values stored row by row, indexed by points.
use crate::point::Point;
use crate::text::{line_spans, lines, spans_are};
use vstd::prelude::*;
use vstd::string::StringSliceAdditionalSpecFns;

verus! {

/// `width` columns by `height` rows of values, row after row in `data`.
pub struct Grid<T> {
    pub width: u32,
    pub height: u32,
    pub data: Vec<T>,
}

/// The rows of `ls` one after the other.
pub open spec fn concat_rows(ls: Seq<Seq<u8>>) -> Seq<u8>
    decreases ls.len(),
{
    if ls.len() == 0 {
        Seq::empty()
    } else {
        concat_rows(ls.drop_last()) + ls.last()
    }
}

/// The point of index `i` in a grid of the given width.
pub open spec fn point_at(i: int, width: int) -> Point {
    Point { x: (i % width) as i32, y: (i / width) as i32 }
}

impl<T> Grid<T> {
    /// The data holds `width * height` values, and every point of the grid
    /// has coordinates that fit in an `i32`.
    pub open spec fn wf(&self) -> bool {
        &&& self.data@.len() == self.width as int * self.height as int
        &&& self.width <= i32::MAX
        &&& self.height <= i32::MAX
    }

    /// The index of `p` in `data`, when `p` lies in the grid.
    pub open spec fn index_of(&self, p: Point) -> Option<int> {
        if 0 <= p.x < self.width && 0 <= p.y < self.height {
            Some(p.y * self.width + p.x)
        } else {
            None
        }
    }
}

impl<T: Copy> Grid<T> {
    /// A grid of the given size with every value `fill_value`.
    pub fn new(width: u32, height: u32, fill_value: T) -> (r: Grid<T>)
        requires
            width as int * height as int <= u32::MAX,
            width <= i32::MAX,
            height <= i32::MAX,
        ensures
            r.wf(),
            r.width == width,
            r.height == height,
            r.data@ == Seq::new((width * height) as nat, |i: int| fill_value),
    {
        let n = width * height;
        let mut data: Vec<T> = Vec::new();
        let mut i: u32 = 0;
        while i < n
            invariant
                i <= n,
                data@ == Seq::new(i as nat, |k: int| fill_value),
            decreases n - i,
        {
            data.push(fill_value);
            proof {
                assert(data@ =~= Seq::new((i + 1) as nat, |k: int| fill_value));
            }
            i += 1;
        }
        Grid { width, height, data }
    }

    /// A grid of the same size with every value `value`.
    pub fn clone_with<U: Copy>(&self, value: U) -> (r: Grid<U>)
        requires
            self.wf(),
            self.width as int * self.height as int <= u32::MAX,
        ensures
            r.wf(),
            r.width == self.width,
            r.height == self.height,
            r.data@ == Seq::new(self.data@.len(), |i: int| value),
    {
        Grid::new(self.width, self.height, value)
    }

    /// The value at `p`, or `None` off the grid.
    pub fn get(&self, p: Point) -> (r: Option<T>)
        requires
            self.wf(),
        ensures
            r == match self.index_of(p) {
                Some(i) => Some(self.data@[i]),
                None => None::<T>,
            },
    {
        if p.x < 0 || p.y < 0 || p.x as u32 >= self.width || p.y as u32 >= self.height {
            return None;
        }
        let _n = self.data.len();
        proof {
            assert(p.y * self.width + p.x < self.width as int * self.height as int) by (nonlinear_arith)
                requires
                    0 <= p.x < self.width,
                    0 <= p.y < self.height,
            ;
            assert(p.y * self.width <= p.y * self.width + p.x);
        }
        let i = p.y as usize * self.width as usize + p.x as usize;
        Some(self.data[i])
    }

    /// Sets the value at `p`; returns false, changing nothing, off the grid.
    pub fn set(&mut self, p: Point, value: T) -> (r: bool)
        requires
            old(self).wf(),
        ensures
            final(self).wf(),
            final(self).width == old(self).width,
            final(self).height == old(self).height,
            r == old(self).index_of(p).is_some(),
            r ==> final(self).data@ == old(self).data@.update(old(self).index_of(p).unwrap(), value),
            !r ==> final(self).data@ == old(self).data@,
    {
        if p.x < 0 || p.y < 0 || p.x as u32 >= self.width || p.y as u32 >= self.height {
            return false;
        }
        let _n = self.data.len();
        proof {
            assert(p.y * self.width + p.x < self.width as int * self.height as int) by (nonlinear_arith)
                requires
                    0 <= p.x < self.width,
                    0 <= p.y < self.height,
            ;
            assert(p.y * self.width <= p.y * self.width + p.x);
        }
        let i = p.y as usize * self.width as usize + p.x as usize;
        self.data.set(i, value);
        true
    }
}

/// Lines of one length, at least one of them, that fit an `i32`-indexed grid.
pub open spec fn is_rectangle(ls: Seq<Seq<u8>>) -> bool {
    &&& ls.len() > 0
    &&& ls.len() <= i32::MAX
    &&& ls[0].len() <= i32::MAX
    &&& forall|i: int| 0 <= i < ls.len() ==> (#[trigger] ls[i]).len() == ls[0].len()
}

/// The points of the values of `data[..n]` equal to `v`, in order.
pub open spec fn matches_upto(data: Seq<u8>, v: u8, width: int, n: int) -> Seq<Point>
    decreases n,
{
    if n <= 0 {
        Seq::empty()
    } else {
        let m = matches_upto(data, v, width, n - 1);
        if data[n - 1] == v {
            m.push(point_at(n - 1, width))
        } else {
            m
        }
    }
}

impl Grid<u8> {
    /// A grid of the bytes of the lines of `input`; `None` when there are no
    /// lines or they differ in length.
    pub fn parse(input: &str) -> (r: Option<Grid<u8>>)
        ensures
            r.is_some() == is_rectangle(lines(input.spec_bytes())),
            r.is_some() ==> ({
                let g = r.unwrap();
                let ls = lines(input.spec_bytes());
                &&& g.wf()
                &&& g.width == ls[0].len()
                &&& g.height == ls.len()
                &&& g.data@ == concat_rows(ls)
            }),
    {
        let b = input.as_bytes();
        let spans = line_spans(b);
        let ghost ls = lines(b@);
        if spans.len() == 0 || spans.len() > 0x7fff_ffff {
            return None;
        }
        let w = spans[0].1 - spans[0].0;
        if w > 0x7fff_ffff {
            return None;
        }
        let mut data: Vec<u8> = Vec::new();
        let mut k: usize = 0;
        proof {
            assert(ls.subrange(0, 0).len() == 0);
        }
        while k < spans.len()
            invariant
                k <= spans@.len(),
                0 < spans@.len() <= i32::MAX,
                w <= i32::MAX,
                b@ == input.spec_bytes(),
                ls == lines(b@),
                spans_are(b@, spans@, ls),
                w == ls[0].len(),
                forall|i: int| 0 <= i < k ==> (#[trigger] ls[i]).len() == w,
                data@ == concat_rows(ls.subrange(0, k as int)),
                data@.len() == k * w,
            decreases spans@.len() - k,
        {
            let (lo, hi) = spans[k];
            if hi - lo != w {
                proof {
                    assert(ls[k as int] == b@.subrange(lo as int, hi as int));
                    assert(ls[k as int].len() != ls[0].len());
                }
                return None;
            }
            let ghost before = data@;
            let mut j: usize = lo;
            while j < hi
                invariant
                    lo <= j <= hi <= b@.len(),
                    data@ == before + b@.subrange(lo as int, j as int),
                decreases hi - j,
            {
                data.push(b[j]);
                proof {
                    assert(data@ =~= before + b@.subrange(lo as int, j + 1));
                }
                j += 1;
            }
            proof {
                assert(ls.subrange(0, k + 1).drop_last() =~= ls.subrange(0, k as int));
                assert(ls[k as int] == b@.subrange(lo as int, hi as int));
                assert(data@.len() == (k + 1) * w) by (nonlinear_arith)
                    requires data@.len() == k * w + w;
            }
            k += 1;
        }
        proof {
            assert(ls.subrange(0, k as int) =~= ls);
            assert(data@.len() == w as int * spans@.len() as int) by (nonlinear_arith)
                requires data@.len() == k * w, k == spans@.len();
        }
        Some(Grid { width: w as u32, height: spans.len() as u32, data })
    }

    /// The points holding `value`, in row order.
    pub fn find_all(&self, value: u8) -> (r: Vec<Point>)
        requires
            self.wf(),
        ensures
            r@ == matches_upto(self.data@, value, self.width as int, self.data@.len() as int),
    {
        let mut out: Vec<Point> = Vec::new();
        let mut i: usize = 0;
        let n = self.data.len();
        while i < n
            invariant
                self.wf(),
                n == self.data@.len(),
                i <= n,
                out@ == matches_upto(self.data@, value, self.width as int, i as int),
            decreases n - i,
        {
            if self.data[i] == value {
                proof {
                    assert(self.width > 0) by (nonlinear_arith)
                        requires i < self.width as int * self.height as int, i >= 0;
                    assert((i as int) / (self.width as int) < self.height) by (nonlinear_arith)
                        requires i < self.width as int * self.height as int, i >= 0, self.width > 0;
                }
                let w = self.width as usize;
                out.push(Point::new((i % w) as i32, (i / w) as i32));
            }
            i += 1;
        }
        out
    }

    /// The first point holding `value` in row order, or `None`.
    pub fn find(&self, value: u8) -> (r: Option<Point>)
        requires
            self.wf(),
        ensures
            ({
                let m = matches_upto(self.data@, value, self.width as int, self.data@.len() as int);
                r == if m.len() > 0 {
                    Some(m[0])
                } else {
                    None::<Point>
                }
            }),
    {
        let all = self.find_all(value);
        if all.len() == 0 {
            None
        } else {
            Some(all[0])
        }
    }
}

} // verus!
