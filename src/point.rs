//! A point (or vector) in two-dimensional integer space.
use vstd::math::abs;
use vstd::prelude::*;

verus! {

/// A point with `x` growing to the right and `y` growing downwards.
#[derive(Clone, Copy, Debug, PartialEq, Eq, Structural)]
pub struct Point {
    pub x: i32,
    pub y: i32,
}

/// True when `v` fits in an `i32`.
pub open spec fn fits_i32(v: int) -> bool {
    i32::MIN <= v <= i32::MAX
}

/// Integer division rounding towards zero, as `/` on machine integers does.
pub open spec fn div_toward_zero(a: int, b: int) -> int {
    let q = abs(a) as int / abs(b) as int;
    if (a < 0) != (b < 0) {
        -q
    } else {
        q
    }
}

/// The remainder that goes with `div_toward_zero`: it has the sign of `a`.
pub open spec fn rem_toward_zero(a: int, b: int) -> int {
    let r = abs(a) as int % abs(b) as int;
    if a < 0 {
        -r
    } else {
        r
    }
}

/// `a / b` rounding towards zero, computed on magnitudes.
fn div_i32(a: i32, b: i32) -> (r: i32)
    requires
        b != 0,
        !(a == i32::MIN && b == -1),
    ensures
        r == div_toward_zero(a as int, b as int),
{
    let ua: i64 = if a < 0 { -(a as i64) } else { a as i64 };
    let ub: i64 = if b < 0 { -(b as i64) } else { b as i64 };
    let q = ua / ub;
    proof {
        assert(q <= ua) by (nonlinear_arith)
            requires q == ua / ub, ub >= 1, ua >= 0;
    }
    if (a < 0) != (b < 0) {
        (-q) as i32
    } else {
        proof {
            if ua == 0x8000_0000 {
                assert(ub >= 2);
                assert(q <= ua / 2) by (nonlinear_arith)
                    requires q == ua / ub, ub >= 2, ua >= 0;
            }
        }
        q as i32
    }
}

/// The remainder of `a / b` rounding towards zero, computed on magnitudes.
fn rem_i32(a: i32, b: i32) -> (r: i32)
    requires
        b != 0,
    ensures
        r == rem_toward_zero(a as int, b as int),
{
    let ua: i64 = if a < 0 { -(a as i64) } else { a as i64 };
    let ub: i64 = if b < 0 { -(b as i64) } else { b as i64 };
    let m = ua % ub;
    proof {
        assert(m < ub);
    }
    if a < 0 {
        (-m) as i32
    } else {
        m as i32
    }
}

impl Point {
    pub fn new(x: i32, y: i32) -> (r: Point)
        ensures
            r.x == x,
            r.y == y,
    {
        Point { x, y }
    }

    /// Rotates a quarter turn clockwise (with `y` pointing down).
    pub fn cw(self) -> (r: Point)
        requires
            self.y != i32::MIN,
        ensures
            r.x == -self.y,
            r.y == self.x,
    {
        Point::new(-self.y, self.x)
    }

    /// Rotates a quarter turn counter-clockwise (with `y` pointing down).
    pub fn ccw(self) -> (r: Point)
        requires
            self.x != i32::MIN,
        ensures
            r.x == self.y,
            r.y == -self.x,
    {
        Point::new(self.y, -self.x)
    }

    pub fn add(self, o: Point) -> (r: Point)
        requires
            fits_i32(self.x + o.x),
            fits_i32(self.y + o.y),
        ensures
            r.x == self.x + o.x,
            r.y == self.y + o.y,
    {
        Point::new(self.x + o.x, self.y + o.y)
    }

    pub fn sub(self, o: Point) -> (r: Point)
        requires
            fits_i32(self.x - o.x),
            fits_i32(self.y - o.y),
        ensures
            r.x == self.x - o.x,
            r.y == self.y - o.y,
    {
        Point::new(self.x - o.x, self.y - o.y)
    }

    /// Scales both coordinates by `k`.
    pub fn mul(self, k: i32) -> (r: Point)
        requires
            fits_i32(self.x * k),
            fits_i32(self.y * k),
        ensures
            r.x == self.x * k,
            r.y == self.y * k,
    {
        Point::new(self.x * k, self.y * k)
    }

    /// Divides both coordinates by `k`, rounding towards zero as `/` does.
    pub fn div(self, k: i32) -> (r: Point)
        requires
            k != 0,
            !(k == -1 && (self.x == i32::MIN || self.y == i32::MIN)),
        ensures
            r.x == div_toward_zero(self.x as int, k as int),
            r.y == div_toward_zero(self.y as int, k as int),
    {
        Point::new(div_i32(self.x, k), div_i32(self.y, k))
    }

    /// The remainders of both coordinates by `k`, with their signs.
    pub fn rem(self, k: i32) -> (r: Point)
        requires
            k != 0,
        ensures
            r.x == rem_toward_zero(self.x as int, k as int),
            r.y == rem_toward_zero(self.y as int, k as int),
    {
        Point::new(rem_i32(self.x, k), rem_i32(self.y, k))
    }

    pub fn mul_assign(&mut self, k: i32)
        requires
            fits_i32(old(self).x * k),
            fits_i32(old(self).y * k),
        ensures
            final(self).x == old(self).x * k,
            final(self).y == old(self).y * k,
    {
        *self = self.mul(k);
    }

    pub fn div_assign(&mut self, k: i32)
        requires
            k != 0,
            !(k == -1 && (old(self).x == i32::MIN || old(self).y == i32::MIN)),
        ensures
            final(self).x == div_toward_zero(old(self).x as int, k as int),
            final(self).y == div_toward_zero(old(self).y as int, k as int),
    {
        *self = self.div(k);
    }

    pub fn rem_assign(&mut self, k: i32)
        requires
            k != 0,
        ensures
            final(self).x == rem_toward_zero(old(self).x as int, k as int),
            final(self).y == rem_toward_zero(old(self).y as int, k as int),
    {
        *self = self.rem(k);
    }

    pub fn add_assign(&mut self, o: Point)
        requires
            fits_i32(old(self).x + o.x),
            fits_i32(old(self).y + o.y),
        ensures
            final(self).x == old(self).x + o.x,
            final(self).y == old(self).y + o.y,
    {
        *self = self.add(o);
    }

    pub fn sub_assign(&mut self, o: Point)
        requires
            fits_i32(old(self).x - o.x),
            fits_i32(old(self).y - o.y),
        ensures
            final(self).x == old(self).x - o.x,
            final(self).y == old(self).y - o.y,
    {
        *self = self.sub(o);
    }
}

/// The four unit steps, clockwise from the step to the right: right,
/// down, left, up.
pub open spec fn direction(i: int) -> Point {
    if i == 0 {
        Point { x: 1, y: 0 }
    } else if i == 1 {
        Point { x: 0, y: 1 }
    } else if i == 2 {
        Point { x: -1i32, y: 0 }
    } else {
        Point { x: 0, y: -1i32 }
    }
}

/// The four unit steps in the order of `direction`.
pub fn directions() -> (r: [Point; 4])
    ensures
        forall|i: int| 0 <= i < 4 ==> r@[i] == direction(i),
{
    [Point::new(1, 0), Point::new(0, 1), Point::new(-1, 0), Point::new(0, -1)]
}

} // verus!
