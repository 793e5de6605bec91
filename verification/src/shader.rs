//! The programmable two-stage shader interface.
//!
//! A shader is invoked by the triangle filler in a fixed pattern: per
//! triangle, `vertex` runs once for each of the three corners (slots 0..2)
//! and yields a clip-space position; `fragment` then runs once per candidate
//! pixel with that pixel's barycentric weights and either yields a color or
//! discards the fragment. Each implementation also gives `fragment` a pure
//! model, `fragment_spec`, which the filler's contract is stated over.

use vstd::prelude::*;

use crate::barycentric::Bary;
use crate::geometry::Vec4i;
use crate::tga::TgaColor;

verus! {

/// The two-stage programmable shader: one lighting model per implementor.
pub trait IShader {
    /// The pure model of [`Self::fragment`].
    spec fn fragment_spec(&self, bc: Bary) -> Option<TgaColor>;

    /// Run the vertex stage for corner slot `nthvert` (0..2) of the current
    /// triangle, reading mesh vertex `vertex_idx`; returns the clip-space
    /// position and may record per-vertex varyings for the fragment stage.
    fn vertex(&mut self, vertex_idx: usize, nthvert: usize) -> Vec4i
        requires
            nthvert < 3,
    ;

    /// Run the fragment stage at a pixel with barycentric weights `bc`;
    /// `None` discards the fragment, leaving pixel and depth untouched.
    fn fragment(&self, bc: Bary) -> (r: Option<TgaColor>)
        ensures
            r == self.fragment_spec(bc),
    ;
}

/// The simplest lighting model: every fragment of the triangle receives
/// one fixed color.
pub struct FlatShader {
    pub verts: [Vec4i; 3],
    pub color: TgaColor,
}

impl IShader for FlatShader {
    open spec fn fragment_spec(&self, bc: Bary) -> Option<TgaColor> {
        Some(self.color)
    }

    fn vertex(&mut self, vertex_idx: usize, nthvert: usize) -> Vec4i {
        self.verts[nthvert]
    }

    fn fragment(&self, bc: Bary) -> (r: Option<TgaColor>) {
        Some(self.color)
    }
}

/// A per-vertex-intensity lighting model: each corner carries an intensity
/// in units of 1/255, and every fragment receives the base color scaled by
/// the barycentric blend of the three intensities. Weights that are not
/// well-formed or lie outside the triangle discard the fragment.
pub struct GouraudShader {
    pub verts: [Vec4i; 3],
    pub intensities: [i32; 3],
    pub color: TgaColor,
}

impl IShader for GouraudShader {
    open spec fn fragment_spec(&self, bc: Bary) -> Option<TgaColor> {
        if bc.wf() && bc.spec_is_inside() {
            Some(
                self.color.spec_scaled(
                    bc.spec_interp(
                        self.intensities[0] as int,
                        self.intensities[1] as int,
                        self.intensities[2] as int,
                    ) as i64,
                    255,
                ),
            )
        } else {
            None
        }
    }

    fn vertex(&mut self, vertex_idx: usize, nthvert: usize) -> Vec4i {
        self.verts[nthvert]
    }

    fn fragment(&self, bc: Bary) -> (r: Option<TgaColor>) {
        let bound: i128 = 0x8000000000000000000;
        if bc.den > 0 && bc.den <= bound && -bound <= bc.alpha && bc.alpha <= bound && -bound
            <= bc.beta && bc.beta <= bound && -bound <= bc.gamma && bc.gamma <= bound && bc.alpha
            + bc.beta + bc.gamma == bc.den && bc.is_inside() {
            let ity = bc.interp(self.intensities[0], self.intensities[1], self.intensities[2]);
            Some(self.color.mul_intensity(ity as i64, 255))
        } else {
            None
        }
    }
}

/// A shadow-mapped lighting model: besides a per-vertex intensity, each
/// corner carries its position in light space, where a previous pass
/// recorded the depth nearest to the light in a row-major shadow buffer.
/// A fragment whose interpolated light-space depth (plus a bias against
/// acne) stays below the recorded depth is occluded and keeps only a
/// fraction of its intensity; the comparison against the shadow buffer is
/// what gates the multiplier.
pub struct ShadowShader {
    pub verts: [Vec4i; 3],
    pub light_space: [crate::geometry::Vec3i; 3],
    pub intensities: [i32; 3],
    pub color: TgaColor,
    pub shadow_buffer: Vec<i32>,
    pub shadow_width: usize,
}

impl ShadowShader {
    /// The recorded light-space depth covering `(sx, sy)`, if the shadow
    /// buffer has such a cell.
    pub open spec fn spec_shadow_at(&self, sx: int, sy: int) -> Option<i32> {
        if 0 <= sx < self.shadow_width && 0 <= sy && sx + sy * self.shadow_width
            < self.shadow_buffer@.len() {
            Some(self.shadow_buffer@[sx + sy * self.shadow_width])
        } else {
            None
        }
    }
}

impl IShader for ShadowShader {
    open spec fn fragment_spec(&self, bc: Bary) -> Option<TgaColor> {
        if bc.wf() && bc.spec_is_inside() {
            let ity = bc.spec_interp(
                self.intensities[0] as int,
                self.intensities[1] as int,
                self.intensities[2] as int,
            );
            let sx = bc.spec_interp(
                self.light_space[0].x as int,
                self.light_space[1].x as int,
                self.light_space[2].x as int,
            );
            let sy = bc.spec_interp(
                self.light_space[0].y as int,
                self.light_space[1].y as int,
                self.light_space[2].y as int,
            );
            let sz = bc.spec_interp(
                self.light_space[0].z as int,
                self.light_space[1].z as int,
                self.light_space[2].z as int,
            );
            let lit = match self.spec_shadow_at(sx, sy) {
                // the bias keeps a surface from shadowing itself
                Some(recorded) => recorded < sz + 2,
                // no shadow information outside the buffer: treat as lit
                None => true,
            };
            if lit {
                Some(self.color.spec_scaled(ity as i64, 255))
            } else {
                Some(self.color.spec_scaled((3 * ity) as i64, 2550))
            }
        } else {
            None
        }
    }

    fn vertex(&mut self, vertex_idx: usize, nthvert: usize) -> Vec4i {
        self.verts[nthvert]
    }

    fn fragment(&self, bc: Bary) -> (r: Option<TgaColor>) {
        let bound: i128 = 0x8000000000000000000;
        if bc.den > 0 && bc.den <= bound && -bound <= bc.alpha && bc.alpha <= bound && -bound
            <= bc.beta && bc.beta <= bound && -bound <= bc.gamma && bc.gamma <= bound && bc.alpha
            + bc.beta + bc.gamma == bc.den && bc.is_inside() {
            let ity = bc.interp(self.intensities[0], self.intensities[1], self.intensities[2]);
            let sx = bc.interp(
                self.light_space[0].x,
                self.light_space[1].x,
                self.light_space[2].x,
            );
            let sy = bc.interp(
                self.light_space[0].y,
                self.light_space[1].y,
                self.light_space[2].y,
            );
            let sz = bc.interp(
                self.light_space[0].z,
                self.light_space[1].z,
                self.light_space[2].z,
            );
            let n = self.shadow_buffer.len();
            proof {
                crate::barycentric::lemma_mul_bounds(
                    sy as int,
                    self.shadow_width as int,
                    0x80000000,
                    0xffffffffffffffff,
                );
            }
            let lit = if sx >= 0 && (sx as usize) < self.shadow_width && sy >= 0 && (sx as u128)
                + (sy as u128) * (self.shadow_width as u128) < (n as u128) {
                let idx = (sx as usize) + (sy as usize) * self.shadow_width;
                let recorded = self.shadow_buffer[idx];
                (recorded as i64) < (sz as i64) + 2
            } else {
                true
            };
            if lit {
                Some(self.color.mul_intensity(ity as i64, 255))
            } else {
                Some(self.color.mul_intensity(3 * (ity as i64), 2550))
            }
        } else {
            None
        }
    }
}

} // verus!
