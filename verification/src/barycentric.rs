//! Exact barycentric classification of pixels against a triangle.
//!
//! The weights of a pixel with respect to a triangle are computed as the
//! cross product of two integer edge vectors; instead of dividing them out
//! as floats, the evaluator keeps the three numerators and the common
//! denominator, so that the inside test and every interpolation are exact.
//! A degenerate triangle (zero cross product, that is collinear or repeated
//! vertices) yields a sentinel with a strictly negative component, which
//! every inside test rejects.

use vstd::prelude::*;

use crate::geometry::Vec2i;

verus! {

/// First cross-product component: the weight numerator of vertex `c`.
pub open spec fn bary_ux(a: Vec2i, b: Vec2i, c: Vec2i, px: int, py: int) -> int {
    (b.x - a.x) * (a.y - py) - (a.x - px) * (b.y - a.y)
}

/// Second cross-product component: the weight numerator of vertex `b`.
pub open spec fn bary_uy(a: Vec2i, b: Vec2i, c: Vec2i, px: int, py: int) -> int {
    (a.x - px) * (c.y - a.y) - (c.x - a.x) * (a.y - py)
}

/// Third cross-product component: twice the signed area of the triangle,
/// the common denominator of the weights.
pub open spec fn bary_uz(a: Vec2i, b: Vec2i, c: Vec2i) -> int {
    (c.x - a.x) * (b.y - a.y) - (b.x - a.x) * (c.y - a.y)
}

/// A triangle is degenerate when its doubled signed area is zero.
pub open spec fn spec_degenerate(a: Vec2i, b: Vec2i, c: Vec2i) -> bool {
    bary_uz(a, b, c) == 0
}

/// Whether pixel `(px, py)` lies inside the triangle: all three barycentric
/// weights are at least zero, as exact rationals. False for a degenerate
/// triangle.
pub open spec fn spec_inside(a: Vec2i, b: Vec2i, c: Vec2i, px: int, py: int) -> bool {
    let ux = bary_ux(a, b, c, px, py);
    let uy = bary_uy(a, b, c, px, py);
    let uz = bary_uz(a, b, c);
    if uz > 0 {
        uz - ux - uy >= 0 && uy >= 0 && ux >= 0
    } else if uz < 0 {
        uz - ux - uy <= 0 && uy <= 0 && ux <= 0
    } else {
        false
    }
}

/// Barycentric weights of a pixel with respect to a triangle, as the exact
/// rationals `alpha/den`, `beta/den`, `gamma/den` with `den > 0`.
///
/// `alpha` weights the first vertex, `beta` the second, `gamma` the third.
/// The weights always sum to one; the pixel is inside the triangle exactly
/// when none of them is negative.
#[derive(Clone, Copy, Debug, PartialEq, Eq, Structural)]
pub struct Bary {
    pub alpha: i128,
    pub beta: i128,
    pub gamma: i128,
    pub den: i128,
}

/// A generous magnitude cap on the barycentric numerators and denominator:
/// each is a sum of two products of screen-coordinate differences, so it
/// stays far below this bound, and interpolation cannot overflow.
pub open spec fn bary_num_bound() -> int {
    0x8000000000000000000
}

impl Bary {
    /// Well-formedness: positive denominator, weights summing to one, and
    /// numerators small enough that interpolation cannot overflow.
    pub open spec fn wf(self) -> bool {
        &&& self.den > 0
        &&& self.alpha + self.beta + self.gamma == self.den
        &&& self.den <= bary_num_bound()
        &&& -bary_num_bound() <= self.alpha <= bary_num_bound()
        &&& -bary_num_bound() <= self.beta <= bary_num_bound()
        &&& -bary_num_bound() <= self.gamma <= bary_num_bound()
    }

    /// The sentinel returned for a degenerate triangle: its first weight is
    /// strictly negative, so no inside test accepts it.
    pub open spec fn spec_sentinel() -> Bary {
        Bary { alpha: -1i128, beta: 1i128, gamma: 1i128, den: 1i128 }
    }

    /// No weight is negative.
    pub open spec fn spec_is_inside(self) -> bool {
        self.alpha >= 0 && self.beta >= 0 && self.gamma >= 0
    }

    /// Executable twin of [`Self::spec_is_inside`].
    pub fn is_inside(&self) -> (r: bool)
        ensures
            r == self.spec_is_inside(),
    {
        self.alpha >= 0 && self.beta >= 0 && self.gamma >= 0
    }

    /// The weighted blend of three per-vertex values, rounded down: the
    /// floor of `(alpha*v0 + beta*v1 + gamma*v2) / den`.
    pub open spec fn spec_interp(self, v0: int, v1: int, v2: int) -> int {
        (self.alpha * v0 + self.beta * v1 + self.gamma * v2) / (self.den as int)
    }

    /// Interpolate a per-vertex integer value at this pixel. For an inside
    /// pixel the blend is convex, so the result stays between the smallest
    /// and largest of the three values.
    pub fn interp(&self, v0: i32, v1: i32, v2: i32) -> (r: i32)
        requires
            self.wf(),
            self.spec_is_inside(),
        ensures
            r == self.spec_interp(v0 as int, v1 as int, v2 as int),
            min3(v0 as int, v1 as int, v2 as int) <= r <= max3(v0 as int, v1 as int, v2 as int),
    {
        proof {
            lemma_mul_bounds(
                self.alpha as int,
                v0 as int,
                0x8000000000000000000,
                0x80000000,
            );
            lemma_mul_bounds(self.beta as int, v1 as int, 0x8000000000000000000, 0x80000000);
            lemma_mul_bounds(self.gamma as int, v2 as int, 0x8000000000000000000, 0x80000000);
            assert(0x8000000000000000000 * 0x80000000 == 0x400000000000000000000000000int);
        }
        let n0: i128 = self.alpha * (v0 as i128);
        let n1: i128 = self.beta * (v1 as i128);
        let n2: i128 = self.gamma * (v2 as i128);
        proof {
            let lo = min3(v0 as int, v1 as int, v2 as int);
            let hi = max3(v0 as int, v1 as int, v2 as int);
            assert(self.alpha * v0 + self.beta * v1 + self.gamma * v2 <= hi * (self.den as int)
                && lo * (self.den as int) <= self.alpha * v0 + self.beta * v1 + self.gamma * v2)
                by (nonlinear_arith)
                requires
                    self.alpha >= 0,
                    self.beta >= 0,
                    self.gamma >= 0,
                    self.alpha + self.beta + self.gamma == self.den,
                    lo <= v0 <= hi,
                    lo <= v1 <= hi,
                    lo <= v2 <= hi,
            {}
            lemma_div_bounds(
                self.alpha * (v0 as int) + self.beta * (v1 as int) + self.gamma * (v2 as int),
                self.den as int,
                lo,
                hi,
            );
        }
        let num: i128 = n0 + n1 + n2;
        let q: i128 = match num.checked_div_euclid(self.den) {
            Some(q) => q,
            None => 0,  // unreachable: the quotient is bounded by the vertex values
        };
        q as i32
    }
}

/// The smaller of three values.
pub open spec fn min3(a: int, b: int, c: int) -> int {
    if a <= b && a <= c {
        a
    } else if b <= c {
        b
    } else {
        c
    }
}

/// The larger of three values.
pub open spec fn max3(a: int, b: int, c: int) -> int {
    if a >= b && a >= c {
        a
    } else if b >= c {
        b
    } else {
        c
    }
}

/// A product of two values bounded in magnitude is bounded by the product
/// of the magnitudes.
pub proof fn lemma_mul_bounds(a: int, b: int, ab: int, bb: int)
    by (nonlinear_arith)
    requires
        0 <= ab,
        0 <= bb,
        -ab <= a <= ab,
        -bb <= b <= bb,
    ensures
        -(ab * bb) <= a * b <= ab * bb,
{
}

/// Floor division bracketing: if `lo*den <= num <= hi*den` with `den > 0`,
/// the floor of `num/den` lies in `[lo, hi]`.
pub proof fn lemma_div_bounds(num: int, den: int, lo: int, hi: int)
    requires
        den > 0,
        lo * den <= num,
        num <= hi * den,
    ensures
        lo <= num / den <= hi,
{
    vstd::arithmetic::div_mod::lemma_fundamental_div_mod(num, den);
    let q = num / den;
    let r = num % den;
    vstd::arithmetic::div_mod::lemma_mod_bound(num, den);
    assert(lo <= q <= hi) by (nonlinear_arith)
        requires
            den > 0,
            num == den * q + r,
            0 <= r < den,
            lo * den <= num,
            num <= hi * den,
    {}
}

/// Product of two bounded values, without overflow.
pub(crate) fn mul_wide(a: i128, b: i128) -> (r: i128)
    requires
        -0x200000000 <= a <= 0x200000000,
        -0x200000000 <= b <= 0x200000000,
    ensures
        r == a * b,
        -0x40000000000000000 <= r <= 0x40000000000000000,
{
    proof {
        assert(-0x40000000000000000 <= (a as int) * (b as int) <= 0x40000000000000000)
            by (nonlinear_arith)
            requires
                -0x200000000 <= a <= 0x200000000,
                -0x200000000 <= b <= 0x200000000,
        {}
    }
    a * b
}

/// The weights that [`barycentric`] returns, as a spec-level value: the
/// sentinel for a degenerate triangle, else the cross-product numerators
/// normalized to a positive denominator.
pub open spec fn spec_bary(a: Vec2i, b: Vec2i, c: Vec2i, px: int, py: int) -> Bary {
    let ux = bary_ux(a, b, c, px, py);
    let uy = bary_uy(a, b, c, px, py);
    let uz = bary_uz(a, b, c);
    if uz == 0 {
        Bary::spec_sentinel()
    } else if uz > 0 {
        Bary {
            alpha: (uz - ux - uy) as i128,
            beta: uy as i128,
            gamma: ux as i128,
            den: uz as i128,
        }
    } else {
        Bary {
            alpha: (ux + uy - uz) as i128,
            beta: (-uy) as i128,
            gamma: (-ux) as i128,
            den: (-uz) as i128,
        }
    }
}

/// Barycentric weights of pixel `p` with respect to triangle `(a, b, c)`,
/// by the cross product of the two integer edge vectors
/// `[c.x-a.x, b.x-a.x, a.x-p.x]` and `[c.y-a.y, b.y-a.y, a.y-p.y]`.
///
/// For a degenerate triangle the sentinel is returned; otherwise the exact
/// weight numerators and their common positive denominator.
pub fn barycentric(a: Vec2i, b: Vec2i, c: Vec2i, p: Vec2i) -> (bc: Bary)
    ensures
        bc.wf(),
        bc == spec_bary(a, b, c, p.x as int, p.y as int),
        spec_degenerate(a, b, c) ==> bc == Bary::spec_sentinel(),
        bc.spec_is_inside() == spec_inside(a, b, c, p.x as int, p.y as int),
{
    let ax: i128 = a.x as i128;
    let ay: i128 = a.y as i128;
    let bx: i128 = b.x as i128;
    let by: i128 = b.y as i128;
    let cx: i128 = c.x as i128;
    let cy: i128 = c.y as i128;
    let px: i128 = p.x as i128;
    let py: i128 = p.y as i128;
    let ux: i128 = mul_wide(bx - ax, ay - py) - mul_wide(ax - px, by - ay);
    let uy: i128 = mul_wide(ax - px, cy - ay) - mul_wide(cx - ax, ay - py);
    let uz: i128 = mul_wide(cx - ax, by - ay) - mul_wide(bx - ax, cy - ay);
    if uz == 0 {
        Bary { alpha: -1, beta: 1, gamma: 1, den: 1 }
    } else if uz > 0 {
        Bary { alpha: uz - ux - uy, beta: uy, gamma: ux, den: uz }
    } else {
        Bary { alpha: (ux + uy) - uz, beta: -uy, gamma: -ux, den: -uz }
    }
}

/// Blend three per-vertex texture positions with the barycentric weights of
/// a pixel: each coordinate is interpolated exactly and rounded down.
pub fn sample_barycentric_uv(uvs: &[Vec2i; 3], bc: &Bary) -> (uv: Vec2i)
    requires
        bc.wf(),
        bc.spec_is_inside(),
    ensures
        uv.x == bc.spec_interp(uvs[0].x as int, uvs[1].x as int, uvs[2].x as int),
        uv.y == bc.spec_interp(uvs[0].y as int, uvs[1].y as int, uvs[2].y as int),
        min3(uvs[0].x as int, uvs[1].x as int, uvs[2].x as int) <= uv.x <= max3(
            uvs[0].x as int,
            uvs[1].x as int,
            uvs[2].x as int,
        ),
        min3(uvs[0].y as int, uvs[1].y as int, uvs[2].y as int) <= uv.y <= max3(
            uvs[0].y as int,
            uvs[1].y as int,
            uvs[2].y as int,
        ),
{
    Vec2i {
        x: bc.interp(uvs[0].x, uvs[1].x, uvs[2].x),
        y: bc.interp(uvs[0].y, uvs[1].y, uvs[2].y),
    }
}

} // verus!
