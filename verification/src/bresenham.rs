//! Incremental line rasterization.
//!
//! The drawers canonicalize their endpoints first: when the line is steeper
//! than 45 degrees the axes are transposed so the major axis is horizontal,
//! and the endpoints are exchanged if needed so the walk runs left to
//! right. The canonical form is the same whichever endpoint comes first, so
//! a line is undirected: both call orders rasterize the same pixels.

use vstd::prelude::*;

use crate::tga::{TgaColor, TgaImage};

verus! {

/// Absolute value.
pub open spec fn iabs(a: int) -> int {
    if a < 0 {
        -a
    } else {
        a
    }
}

/// The pixels of the error-accumulating walk along the major axis from
/// `x` to `x1` inclusive: at each step the error grows by `dy2`; when it
/// exceeds `dx` the minor coordinate moves one step and the error is
/// reduced by a whole unit (`2*dx` in the doubled scale). Pixels are
/// emitted de-transposed.
pub open spec fn line_walk(
    x: int,
    y: int,
    err: int,
    x1: int,
    dx: int,
    dy2: int,
    ystep: int,
    steep: bool,
) -> Seq<(int, int)>
    decreases x1 - x + 1,
{
    if x > x1 {
        Seq::empty()
    } else {
        let pix = if steep {
            (y, x)
        } else {
            (x, y)
        };
        let err2 = err + dy2;
        if err2 > dx {
            seq![pix] + line_walk(x + 1, y + ystep, err2 - 2 * dx, x1, dx, dy2, ystep, steep)
        } else {
            seq![pix] + line_walk(x + 1, y, err2, x1, dx, dy2, ystep, steep)
        }
    }
}

/// The canonical endpoints of an undirected line: transposed when steep,
/// then ordered along the major axis.
pub open spec fn line_canonical(x0: int, y0: int, x1: int, y1: int) -> (bool, int, int, int, int) {
    let steep = iabs(x0 - x1) < iabs(y0 - y1);
    let (a0, b0, a1, b1) = if steep {
        (y0, x0, y1, x1)
    } else {
        (x0, y0, x1, y1)
    };
    if a0 > a1 {
        (steep, a1, b1, a0, b0)
    } else {
        (steep, a0, b0, a1, b1)
    }
}

/// The pixels that drawing the line from `(x0, y0)` to `(x1, y1)` covers,
/// both endpoints included.
pub open spec fn line_path(x0: int, y0: int, x1: int, y1: int) -> Seq<(int, int)> {
    let (steep, a0, b0, a1, b1) = line_canonical(x0, y0, x1, y1);
    let dx = a1 - a0;
    let dy2 = 2 * iabs(b1 - b0);
    let ystep: int = if b1 > b0 {
        1
    } else {
        -1
    };
    line_walk(a0, b0, 0, a1, dx, dy2, ystep, steep)
}

/// A line is undirected: drawing it from either endpoint covers exactly
/// the same pixels, in the same order, because both call orders
/// canonicalize to the same walk.
pub proof fn lemma_line_symmetric(x0: int, y0: int, x1: int, y1: int)
    ensures
        line_path(x0, y0, x1, y1) == line_path(x1, y1, x0, y0),
{
    let steep = iabs(x0 - x1) < iabs(y0 - y1);
    if !steep && x0 == x1 {
        assert(y0 == y1);
    }
    assert(line_canonical(x0, y0, x1, y1) == line_canonical(x1, y1, x0, y0));
}

/// The `i`-th of the 100 evenly spaced samples that the parametric drawer
/// takes between the endpoints: each fractional offset from the first
/// endpoint is truncated toward zero, as a float-to-integer cast rounds.
pub open spec fn v1_point(x0: int, y0: int, x1: int, y1: int, i: int) -> (int, int) {
    (
        x0 + crate::geometry::spec_div_trunc((x1 - x0) * i, 100),
        y0 + crate::geometry::spec_div_trunc((y1 - y0) * i, 100),
    )
}

/// Draw the line by sampling 100 evenly spaced points along it; steep or
/// long lines may be left with gaps, which is why the incremental drawers
/// exist. Pixels outside the surface are ignored.
///
/// Afterwards a pixel holds `color`'s bytes exactly when one of the 100
/// samples lands on it.
pub fn line_segment_v1(
    image: &mut TgaImage,
    x0: i32,
    y0: i32,
    x1: i32,
    y1: i32,
    color: &TgaColor,
)
    requires
        old(image).wf(),
    ensures
        final(image).wf(),
        final(image).same_dims(*old(image)),
        final(image).data@.len() == old(image).data@.len(),
        forall|px: int, py: int|
            old(image).spec_in_bounds(px, py) ==> final(image).spec_pixel(px, py) == if (exists|
                i: int,
            |
                0 <= i < 100 && v1_point(x0 as int, y0 as int, x1 as int, y1 as int, i) == (
                px,
                py,
            )) {
                color.spec_bytes(old(image).bytes_per_pixel as int)
            } else {
                old(image).spec_pixel(px, py)
            },
{
    let ghost orig = *image;
    let mut i: i64 = 0;
    while i < 100
        invariant
            orig.wf(),
            image.wf(),
            image.same_dims(orig),
            image.data@.len() == orig.data@.len(),
            0 <= i <= 100,
            forall|px: int, py: int|
                orig.spec_in_bounds(px, py) ==> image.spec_pixel(px, py) == if (exists|j: int|
                    0 <= j < i && v1_point(x0 as int, y0 as int, x1 as int, y1 as int, j) == (
                    px,
                    py,
                )) {
                    color.spec_bytes(orig.bytes_per_pixel as int)
                } else {
                    orig.spec_pixel(px, py)
                },
        decreases 100 - i,
    {
        let qx = crate::geometry::div_trunc(
            crate::barycentric::mul_wide((x1 as i128) - (x0 as i128), i as i128),
            100,
        );
        let qy = crate::geometry::div_trunc(
            crate::barycentric::mul_wide((y1 as i128) - (y0 as i128), i as i128),
            100,
        );
        let xd: i128 = (x0 as i128) + qx;
        let yd: i128 = (y0 as i128) + qy;
        let ghost before = *image;
        if 0 <= xd && xd < (image.width as i128) && 0 <= yd && yd < (image.height as i128) {
            image.set(xd as i32, yd as i32, color);
        }
        proof {
            assert(v1_point(x0 as int, y0 as int, x1 as int, y1 as int, i as int) == (
                xd as int,
                yd as int,
            ));
            assert forall|px: int, py: int| orig.spec_in_bounds(px, py) implies image.spec_pixel(
                px,
                py,
            ) == if (exists|j: int|
                0 <= j < i + 1 && v1_point(x0 as int, y0 as int, x1 as int, y1 as int, j) == (
                px,
                py,
            )) {
                color.spec_bytes(orig.bytes_per_pixel as int)
            } else {
                orig.spec_pixel(px, py)
            } by {
                if px == xd && py == yd {
                    assert(exists|j: int|
                        0 <= j < i + 1 && v1_point(x0 as int, y0 as int, x1 as int, y1 as int, j)
                            == (px, py));
                } else {
                    assert(image.spec_pixel(px, py) == before.spec_pixel(px, py));
                    if exists|j: int|
                        0 <= j < i + 1 && v1_point(x0 as int, y0 as int, x1 as int, y1 as int, j)
                            == (px, py) {
                        let j = choose|j: int|
                            0 <= j < i + 1 && v1_point(
                                x0 as int,
                                y0 as int,
                                x1 as int,
                                y1 as int,
                                j,
                            ) == (px, py);
                        assert(j != i);
                        assert(exists|j2: int|
                            0 <= j2 < i && v1_point(x0 as int, y0 as int, x1 as int, y1 as int, j2)
                                == (px, py));
                    }
                }
            }
        }
        i = i + 1;
    }
}

/// Coverage of the per-column interpolating drawer: after the same
/// canonicalization as the walk, each major coordinate in the half-open
/// canonical range gets the one pixel whose minor coordinate is the
/// linear interpolation between the endpoints truncated toward zero, as
/// a float-to-integer cast rounds.
pub open spec fn covered_line_v2(x0: int, y0: int, x1: int, y1: int, px: int, py: int) -> bool {
    let (steep, a0, b0, a1, b1) = line_canonical(x0, y0, x1, y1);
    let pa = if steep {
        py
    } else {
        px
    };
    let pb = if steep {
        px
    } else {
        py
    };
    a0 <= pa < a1 && pb == crate::geometry::spec_div_trunc(
        b0 * (a1 - a0) + (b1 - b0) * (pa - a0),
        a1 - a0,
    )
}

/// Draw the line by interpolating the minor coordinate for each major
/// coordinate in turn, with one division per pixel; the right endpoint is
/// excluded. Pixels outside the surface are ignored.
///
/// Afterwards a pixel holds `color`'s bytes exactly when the interpolation
/// covers it.
pub fn line_segment_v2(
    image: &mut TgaImage,
    x0: i32,
    y0: i32,
    x1: i32,
    y1: i32,
    color: &TgaColor,
)
    requires
        old(image).wf(),
    ensures
        final(image).wf(),
        final(image).same_dims(*old(image)),
        final(image).data@.len() == old(image).data@.len(),
        forall|px: int, py: int|
            old(image).spec_in_bounds(px, py) ==> final(image).spec_pixel(px, py)
                == if covered_line_v2(x0 as int, y0 as int, x1 as int, y1 as int, px, py) {
                color.spec_bytes(old(image).bytes_per_pixel as int)
            } else {
                old(image).spec_pixel(px, py)
            },
{
    let ghost orig = *image;
    let mut a0: i64 = x0 as i64;
    let mut b0: i64 = y0 as i64;
    let mut a1: i64 = x1 as i64;
    let mut b1: i64 = y1 as i64;
    let dxa: i64 = if a0 >= a1 {
        a0 - a1
    } else {
        a1 - a0
    };
    let dya: i64 = if b0 >= b1 {
        b0 - b1
    } else {
        b1 - b0
    };
    let steep = dxa < dya;
    if steep {
        let t = a0;
        a0 = b0;
        b0 = t;
        let u = a1;
        a1 = b1;
        b1 = u;
    }
    if a0 > a1 {
        let t = a0;
        a0 = a1;
        a1 = t;
        let u = b0;
        b0 = b1;
        b1 = u;
    }
    proof {
        assert((steep, a0 as int, b0 as int, a1 as int, b1 as int) == line_canonical(
            x0 as int,
            y0 as int,
            x1 as int,
            y1 as int,
        ));
    }
    let mut x: i64 = a0;
    while x < a1
        invariant
            orig.wf(),
            image.wf(),
            image.same_dims(orig),
            image.data@.len() == orig.data@.len(),
            (steep, a0 as int, b0 as int, a1 as int, b1 as int) == line_canonical(
                x0 as int,
                y0 as int,
                x1 as int,
                y1 as int,
            ),
            -0x80000000 <= a0 <= 0x80000000,
            -0x80000000 <= a1 <= 0x80000000,
            -0x80000000 <= b0 <= 0x80000000,
            -0x80000000 <= b1 <= 0x80000000,
            a0 <= x,
            forall|px: int, py: int|
                orig.spec_in_bounds(px, py) ==> image.spec_pixel(px, py) == if covered_line_v2(
                    x0 as int,
                    y0 as int,
                    x1 as int,
                    y1 as int,
                    px,
                    py,
                ) && (if steep {
                    py
                } else {
                    px
                }) < x {
                    color.spec_bytes(orig.bytes_per_pixel as int)
                } else {
                    orig.spec_pixel(px, py)
                },
        decreases a1 - x,
    {
        let num = crate::barycentric::mul_wide(b0 as i128, (a1 - a0) as i128)
            + crate::barycentric::mul_wide((b1 - b0) as i128, (x - a0) as i128);
        let yd: i128 = crate::geometry::div_trunc(num, (a1 - a0) as i128);
        let (pxd, pyd): (i128, i128) = if steep {
            (yd, x as i128)
        } else {
            (x as i128, yd)
        };
        let ghost before = *image;
        if 0 <= pxd && pxd < (image.width as i128) && 0 <= pyd && pyd < (image.height as i128) {
            image.set(pxd as i32, pyd as i32, color);
        }
        proof {
            assert forall|px: int, py: int| orig.spec_in_bounds(px, py) implies image.spec_pixel(
                px,
                py,
            ) == if covered_line_v2(x0 as int, y0 as int, x1 as int, y1 as int, px, py) && (if steep {
                py
            } else {
                px
            }) < x + 1 {
                color.spec_bytes(orig.bytes_per_pixel as int)
            } else {
                orig.spec_pixel(px, py)
            } by {
                if px == pxd && py == pyd {
                } else {
                    assert(image.spec_pixel(px, py) == before.spec_pixel(px, py));
                }
            }
        }
        x = x + 1;
    }
}

/// Draw the line from `(x0, y0)` to `(x1, y1)`, both endpoints included,
/// by walking the major axis one pixel at a time and accumulating a
/// doubled error term; no per-pixel division is needed. Pixels outside
/// the surface are ignored.
///
/// Afterwards a pixel holds `color`'s bytes exactly when the line's path
/// covers it; every other pixel keeps its bytes. The path is the same
/// whichever endpoint comes first.
pub fn line_segment_v3(
    image: &mut TgaImage,
    x0: i32,
    y0: i32,
    x1: i32,
    y1: i32,
    color: &TgaColor,
)
    requires
        old(image).wf(),
    ensures
        final(image).wf(),
        final(image).same_dims(*old(image)),
        final(image).data@.len() == old(image).data@.len(),
        forall|px: int, py: int|
            old(image).spec_in_bounds(px, py) ==> final(image).spec_pixel(px, py) == if line_path(
                x0 as int,
                y0 as int,
                x1 as int,
                y1 as int,
            ).contains((px, py)) {
                color.spec_bytes(old(image).bytes_per_pixel as int)
            } else {
                old(image).spec_pixel(px, py)
            },
{
    let ghost orig = *image;
    let ghost path = line_path(x0 as int, y0 as int, x1 as int, y1 as int);
    let mut a0: i64 = x0 as i64;
    let mut b0: i64 = y0 as i64;
    let mut a1: i64 = x1 as i64;
    let mut b1: i64 = y1 as i64;
    let dxa: i64 = if a0 >= a1 {
        a0 - a1
    } else {
        a1 - a0
    };
    let dya: i64 = if b0 >= b1 {
        b0 - b1
    } else {
        b1 - b0
    };
    let steep = dxa < dya;
    if steep {
        let t = a0;
        a0 = b0;
        b0 = t;
        let u = a1;
        a1 = b1;
        b1 = u;
    }
    if a0 > a1 {
        let t = a0;
        a0 = a1;
        a1 = t;
        let u = b0;
        b0 = b1;
        b1 = u;
    }
    proof {
        assert((steep, a0 as int, b0 as int, a1 as int, b1 as int) == line_canonical(
            x0 as int,
            y0 as int,
            x1 as int,
            y1 as int,
        ));
    }
    let dx: i64 = a1 - a0;
    let dy2: i64 = 2 * (if b1 >= b0 {
        b1 - b0
    } else {
        b0 - b1
    });
    let ystep: i64 = if b1 > b0 {
        1
    } else {
        -1
    };
    proof {
        assert(path == line_walk(
            a0 as int,
            b0 as int,
            0,
            a1 as int,
            dx as int,
            dy2 as int,
            ystep as int,
            steep,
        ));
    }
    let mut x: i64 = a0;
    let mut y: i64 = b0;
    let mut err: i64 = 0;
    let ghost mut k: int = 0;
    while x <= a1
        invariant
            orig.wf(),
            image.wf(),
            image.same_dims(orig),
            image.data@.len() == orig.data@.len(),
            path == line_path(x0 as int, y0 as int, x1 as int, y1 as int),
            -0x80000000 <= a0 <= 0x80000000,
            -0x80000000 <= a1 <= 0x80000000,
            -0x80000000 <= b0 <= 0x80000000,
            -0x80000000 <= b1 <= 0x80000000,
            dx == a1 - a0,
            0 <= dx,
            dy2 == 2 * (if b1 >= b0 {
                b1 - b0
            } else {
                b0 - b1
            }),
            ystep == 1 || ystep == -1,
            0 <= k,
            x == a0 + k,
            x <= a1 + 1,
            b0 - k <= y <= b0 + k,
            dy2 <= 2 * dx,
            0 <= dy2,
            -dx <= err <= dx,
            path.skip(k) == line_walk(
                x as int,
                y as int,
                err as int,
                a1 as int,
                dx as int,
                dy2 as int,
                ystep as int,
                steep,
            ),
            k <= path.len(),
            forall|px: int, py: int|
                orig.spec_in_bounds(px, py) ==> image.spec_pixel(px, py) == if (exists|j: int|
                    0 <= j < k && path[j] == (px, py)) {
                    color.spec_bytes(orig.bytes_per_pixel as int)
                } else {
                    orig.spec_pixel(px, py)
                },
        decreases a1 + 1 - x,
    {
        let (pxd, pyd): (i64, i64) = if steep {
            (y, x)
        } else {
            (x, y)
        };
        proof {
            assert(path.skip(k).len() > 0);
            assert(k < path.len());
            assert(path =~= path.take(k) + path.skip(k));
            assert(path[k] == path.skip(k)[0]);
            assert(path[k] == (pxd as int, pyd as int));
        }
        let ghost before = *image;
        if 0 <= pxd && pxd < (image.width as i64) && 0 <= pyd && pyd < (image.height as i64) {
            image.set(pxd as i32, pyd as i32, color);
        }
        proof {
            assert forall|px: int, py: int| orig.spec_in_bounds(px, py) implies image.spec_pixel(
                px,
                py,
            ) == if (exists|j: int| 0 <= j < k + 1 && path[j] == (px, py)) {
                color.spec_bytes(orig.bytes_per_pixel as int)
            } else {
                orig.spec_pixel(px, py)
            } by {
                if px == pxd && py == pyd {
                    assert(path[k] == (px, py));
                    assert(exists|j: int| 0 <= j < k + 1 && path[j] == (px, py));
                } else {
                    assert(image.spec_pixel(px, py) == before.spec_pixel(px, py));
                    if exists|j: int| 0 <= j < k + 1 && path[j] == (px, py) {
                        let j = choose|j: int| 0 <= j < k + 1 && path[j] == (px, py);
                        assert(j != k);
                        assert(exists|j2: int| 0 <= j2 < k && path[j2] == (px, py));
                    }
                }
            }
        }
        err = err + dy2;
        if err > dx {
            y = y + ystep;
            err = err - 2 * dx;
        }
        x = x + 1;
        proof {
            k = k + 1;
            assert(path.skip(k) =~= path.skip(k - 1).skip(1));
            assert(path.skip(k) == line_walk(
                x as int,
                y as int,
                err as int,
                a1 as int,
                dx as int,
                dy2 as int,
                ystep as int,
                steep,
            ));
        }
    }
    proof {
        assert(path.skip(k).len() == 0);
        assert(k == path.len());
        assert forall|px: int, py: int| orig.spec_in_bounds(px, py) implies image.spec_pixel(
            px,
            py,
        ) == if path.contains((px, py)) {
            color.spec_bytes(orig.bytes_per_pixel as int)
        } else {
            orig.spec_pixel(px, py)
        } by {
            if path.contains((px, py)) {
                let j = choose|j: int| 0 <= j < path.len() && path[j] == (px, py);
                assert(exists|j2: int| 0 <= j2 < k && path[j2] == (px, py));
            }
        }
    }
}

} // verus!
