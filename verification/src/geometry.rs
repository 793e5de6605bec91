//! Integer vector types for screen-space positions.
//!
//! Screen positions, depths and clip-space coordinates are held as plain
//! integers; all geometric predicates over them are exact.

use vstd::prelude::*;

verus! {

/// A 2D integer point (a pixel position).
#[derive(Clone, Copy, Debug, PartialEq, Eq, Structural)]
pub struct Vec2i {
    pub x: i32,
    pub y: i32,
}

impl Vec2i {
    pub fn new(x: i32, y: i32) -> (v: Vec2i)
        ensures
            v == (Vec2i { x, y }),
    {
        Vec2i { x, y }
    }
}

/// A 3D integer point: a pixel position with a depth.
#[derive(Clone, Copy, Debug, PartialEq, Eq, Structural)]
pub struct Vec3i {
    pub x: i32,
    pub y: i32,
    pub z: i32,
}

impl Vec3i {
    pub fn new(x: i32, y: i32, z: i32) -> (v: Vec3i)
        ensures
            v == (Vec3i { x, y, z }),
    {
        Vec3i { x, y, z }
    }

    /// The screen-plane projection.
    pub open spec fn spec_xy(self) -> Vec2i {
        Vec2i { x: self.x, y: self.y }
    }

    /// Executable twin of [`Self::spec_xy`].
    pub fn xy(self) -> (v: Vec2i)
        ensures
            v == self.spec_xy(),
    {
        Vec2i { x: self.x, y: self.y }
    }
}

/// A homogeneous clip-space vertex scaled to integers: the screen position
/// is `(x / w, y / w)` and the perspective-correct depth of a fragment is a
/// blend of the `z` and `w` components.
#[derive(Clone, Copy, Debug, PartialEq, Eq, Structural)]
pub struct Vec4i {
    pub x: i32,
    pub y: i32,
    pub z: i32,
    pub w: i32,
}

impl Vec4i {
    pub fn new(x: i32, y: i32, z: i32, w: i32) -> (v: Vec4i)
        ensures
            v == (Vec4i { x, y, z, w }),
    {
        Vec4i { x, y, z, w }
    }
}

/// Floor division of a bounded numerator by a positive denominator; the
/// result agrees with mathematical (Euclidean) integer division.
pub fn div_floor(num: i128, den: i128) -> (q: i128)
    requires
        den > 0,
    ensures
        q == (num as int) / (den as int),
        num >= 0 ==> 0 <= q <= num,
        num < 0 ==> num <= q <= 0,
{
    proof {
        vstd::arithmetic::div_mod::lemma_fundamental_div_mod(num as int, den as int);
        vstd::arithmetic::div_mod::lemma_mod_bound(num as int, den as int);
        let qq = (num as int) / (den as int);
        let rr = (num as int) % (den as int);
        assert(num >= 0 ==> 0 <= qq <= num) by (nonlinear_arith)
            requires
                den > 0,
                num == den * qq + rr,
                0 <= rr < den,
        {}
        assert(num < 0 ==> num <= qq <= 0) by (nonlinear_arith)
            requires
                den > 0,
                num == den * qq + rr,
                0 <= rr < den,
        {}
    }
    match num.checked_div_euclid(den) {
        Some(q) => q,
        None => 0,  // unreachable: the quotient is bracketed by 0 and num
    }
}

/// Division by a positive denominator rounded toward zero, as a spec
/// value: the rounding a float-to-integer cast applies.
pub open spec fn spec_div_trunc(a: int, b: int) -> int {
    if a >= 0 {
        a / b
    } else {
        -((-a) / b)
    }
}

/// Toward-zero division of a numerator by a positive denominator.
pub fn div_trunc(num: i128, den: i128) -> (q: i128)
    requires
        den > 0,
    ensures
        q == spec_div_trunc(num as int, den as int),
        num >= 0 ==> 0 <= q <= num,
        num < 0 ==> num <= q <= 0,
{
    proof {
        let a = num as int;
        let b = den as int;
        if a >= 0 {
            vstd::arithmetic::div_mod::lemma_fundamental_div_mod(a, b);
            vstd::arithmetic::div_mod::lemma_mod_bound(a, b);
            assert(0 <= a / b <= a) by (nonlinear_arith)
                requires
                    b > 0,
                    a >= 0,
                    a == b * (a / b) + a % b,
                    0 <= a % b < b,
            {}
        } else {
            vstd::arithmetic::div_mod::lemma_fundamental_div_mod(-a, b);
            vstd::arithmetic::div_mod::lemma_mod_bound(-a, b);
            assert(0 <= (-a) / b <= -a) by (nonlinear_arith)
                requires
                    b > 0,
                    -a > 0,
                    -a == b * ((-a) / b) + (-a) % b,
                    0 <= (-a) % b < b,
            {}
        }
    }
    match num.checked_div(den) {
        Some(q) => q,
        None => 0,  // unreachable: the quotient is bracketed by 0 and num
    }
}

} // verus!
