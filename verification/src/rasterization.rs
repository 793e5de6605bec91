//! Triangle scan conversion: bounding-box fillers over the exact
//! barycentric inside test, with and without depth buffering.
//!
//! Every filler's contract gives the final value of each pixel: a pixel is
//! recolored exactly when it is covered by the triangle (and, for the
//! depth-buffered variants, strictly closer than what the depth buffer
//! held); every other pixel keeps its bytes. A degenerate triangle covers
//! nothing, so it leaves the surface untouched.

use vstd::prelude::*;

use crate::barycentric::{barycentric, max3, min3, spec_bary, spec_degenerate, spec_inside};
use crate::geometry::{Vec2i, Vec3i, Vec4i};
use crate::tga::{TgaColor, TgaImage};

verus! {

/// A per-pixel scalar store resolving visibility: larger depth wins, and a
/// freshly built buffer holds the smallest representable depth everywhere.
pub trait ZBuffer {
    /// Whether `(x, y)` addresses a cell of the buffer.
    spec fn valid(&self, x: int, y: int) -> bool;

    /// The depth stored at `(x, y)`.
    spec fn depth_at(&self, x: int, y: int) -> i32;

    /// Read the depth at `(x, y)`; bounds are the caller's responsibility.
    fn get(&self, x: usize, y: usize) -> (d: i32)
        requires
            self.valid(x as int, y as int),
        ensures
            d == self.depth_at(x as int, y as int),
    ;

    /// Store a depth at `(x, y)`; every other cell is kept.
    fn set(&mut self, x: usize, y: usize, v: i32)
        requires
            old(self).valid(x as int, y as int),
        ensures
            forall|px: int, py: int| final(self).valid(px, py) == old(self).valid(px, py),
            forall|px: int, py: int|
                old(self).valid(px, py) ==> final(self).depth_at(px, py) == if px == x && py == y {
                    v
                } else {
                    old(self).depth_at(px, py)
                },
    ;
}

/// A dense row-major depth buffer of `width` columns.
pub struct ZbufferEx {
    pub buffer: Vec<i32>,
    pub width: usize,
}

impl ZbufferEx {
    /// A buffer of `width * height` cells, each holding the smallest
    /// representable depth, meaning "nothing drawn here yet".
    pub fn new_filled(width: usize, height: usize) -> (z: ZbufferEx)
        requires
            width * height <= usize::MAX,
        ensures
            z.width == width,
            z.buffer@.len() == width * height,
            forall|x: int, y: int| 0 <= x < width && 0 <= y < height ==> z.valid(x, y),
            forall|x: int, y: int| z.valid(x, y) ==> z.depth_at(x, y) == i32::MIN,
    {
        let n: usize = width * height;
        let mut buffer: Vec<i32> = Vec::new();
        while buffer.len() < n
            invariant
                buffer@.len() <= n,
                forall|i: int| 0 <= i < buffer@.len() ==> buffer@[i] == i32::MIN,
            decreases n - buffer@.len(),
        {
            buffer.push(i32::MIN);
        }
        let z = ZbufferEx { buffer, width };
        proof {
            assert forall|x: int, y: int| 0 <= x < width && 0 <= y < height implies z.valid(
                x,
                y,
            ) by {
                assert(x + y * width < width * height) by (nonlinear_arith)
                    requires
                        0 <= x < width,
                        0 <= y < height,
                {}
            }
        }
        z
    }
}

/// Row-major cell indices are unique: two distinct column-bounded cells
/// never share an index.
proof fn lemma_row_major_unique(w: int, x1: int, y1: int, x2: int, y2: int)
    by (nonlinear_arith)
    requires
        0 <= x1 < w,
        0 <= x2 < w,
        0 <= y1,
        0 <= y2,
        !(x1 == x2 && y1 == y2),
    ensures
        x1 + y1 * w != x2 + y2 * w,
{
}

impl ZBuffer for ZbufferEx {
    open spec fn valid(&self, x: int, y: int) -> bool {
        0 <= x < self.width && 0 <= y && x + y * self.width < self.buffer@.len()
    }

    open spec fn depth_at(&self, x: int, y: int) -> i32 {
        self.buffer@[x + y * self.width]
    }

    fn get(&self, x: usize, y: usize) -> (d: i32) {
        let _n = self.buffer.len();
        self.buffer[x + y * self.width]
    }

    fn set(&mut self, x: usize, y: usize, v: i32) {
        let _n = self.buffer.len();
        self.buffer.set(x + y * self.width, v);
        proof {
            assert forall|px: int, py: int| old(self).valid(px, py) implies self.depth_at(px, py)
                == if px == x && py == y {
                v
            } else {
                old(self).depth_at(px, py)
            } by {
                if !(px == x && py == y) {
                    lemma_row_major_unique(
                        self.width as int,
                        px,
                        py,
                        x as int,
                        y as int,
                    );
                }
            }
        }
    }
}

/// The lower edge of the clamped bounding box on one axis: the smallest of
/// the three coordinates, clamped into `[0, limit]`.
pub open spec fn bbox_lo(c0: int, c1: int, c2: int, limit: int) -> int {
    let m = min3(c0, c1, c2);
    let m = if m > limit {
        limit
    } else {
        m
    };
    if m < 0 {
        0
    } else {
        m
    }
}

/// The upper edge of the clamped bounding box on one axis: the largest of
/// the three coordinates raised to at least 0, then clamped to `limit`.
pub open spec fn bbox_hi(c0: int, c1: int, c2: int, limit: int) -> int {
    let m = max3(c0, c1, c2);
    let m = if m < 0 {
        0
    } else {
        m
    };
    if m > limit {
        limit
    } else {
        m
    }
}

/// Whether a pixel lies in the clamped bounding box of the triangle and
/// passes the exact barycentric inside test.
pub open spec fn covered_bbox(a: Vec2i, b: Vec2i, c: Vec2i, w: int, h: int, px: int, py: int) -> bool {
    &&& bbox_lo(a.x as int, b.x as int, c.x as int, w - 1) <= px <= bbox_hi(
        a.x as int,
        b.x as int,
        c.x as int,
        w - 1,
    )
    &&& bbox_lo(a.y as int, b.y as int, c.y as int, h - 1) <= py <= bbox_hi(
        a.y as int,
        b.y as int,
        c.y as int,
        h - 1,
    )
    &&& spec_inside(a, b, c, px, py)
}

/// The smallest of three coordinates, clamped into `[0, limit]`.
fn bbox_lo_exec(c0: i32, c1: i32, c2: i32, limit: i32) -> (r: i32)
    ensures
        r == bbox_lo(c0 as int, c1 as int, c2 as int, limit as int),
{
    let m = if c0 <= c1 && c0 <= c2 {
        c0
    } else if c1 <= c2 {
        c1
    } else {
        c2
    };
    let m = if m > limit {
        limit
    } else {
        m
    };
    if m < 0 {
        0
    } else {
        m
    }
}

/// The largest of three coordinates raised to at least 0, then clamped.
fn bbox_hi_exec(c0: i32, c1: i32, c2: i32, limit: i32) -> (r: i32)
    ensures
        r == bbox_hi(c0 as int, c1 as int, c2 as int, limit as int),
{
    let m = if c0 >= c1 && c0 >= c2 {
        c0
    } else if c1 >= c2 {
        c1
    } else {
        c2
    };
    let m = if m < 0 {
        0
    } else {
        m
    };
    if m > limit {
        limit
    } else {
        m
    }
}

/// Fill a triangle by walking its clamped bounding box and recoloring the
/// pixels that pass the exact barycentric inside test.
///
/// Afterwards a pixel holds `color`'s bytes exactly when it is covered;
/// every other pixel keeps its bytes, and a degenerate triangle leaves the
/// whole surface untouched.
pub fn barycentric_rasterization_v1(image: &mut TgaImage, pts: [Vec2i; 3], color: &TgaColor)
    requires
        old(image).wf(),
    ensures
        final(image).wf(),
        final(image).same_dims(*old(image)),
        final(image).data@.len() == old(image).data@.len(),
        forall|px: int, py: int|
            old(image).spec_in_bounds(px, py) ==> final(image).spec_pixel(px, py) == if covered_bbox(
                pts[0],
                pts[1],
                pts[2],
                old(image).width as int,
                old(image).height as int,
                px,
                py,
            ) {
                color.spec_bytes(old(image).bytes_per_pixel as int)
            } else {
                old(image).spec_pixel(px, py)
            },
        spec_degenerate(pts[0], pts[1], pts[2]) ==> final(image).data@ == old(image).data@,
    {
        let ghost orig = *image;
        let w = image.width;
        let h = image.height;
        let lo_x = bbox_lo_exec(pts[0].x, pts[1].x, pts[2].x, w - 1);
        let hi_x = bbox_hi_exec(pts[0].x, pts[1].x, pts[2].x, w - 1);
        let lo_y = bbox_lo_exec(pts[0].y, pts[1].y, pts[2].y, h - 1);
        let hi_y = bbox_hi_exec(pts[0].y, pts[1].y, pts[2].y, h - 1);
        let mut x = lo_x;
        while x <= hi_x
            invariant
                orig.wf(),
                w == orig.width,
                h == orig.height,
                lo_x == bbox_lo(pts[0].x as int, pts[1].x as int, pts[2].x as int, w - 1),
                hi_x == bbox_hi(pts[0].x as int, pts[1].x as int, pts[2].x as int, w - 1),
                lo_y == bbox_lo(pts[0].y as int, pts[1].y as int, pts[2].y as int, h - 1),
                hi_y == bbox_hi(pts[0].y as int, pts[1].y as int, pts[2].y as int, h - 1),
                lo_x <= x,
                x <= hi_x + 1,
                hi_x < w,
                image.wf(),
                image.same_dims(orig),
                image.data@.len() == orig.data@.len(),
                forall|px: int, py: int|
                    orig.spec_in_bounds(px, py) ==> image.spec_pixel(px, py) == if covered_bbox(
                        pts[0],
                        pts[1],
                        pts[2],
                        orig.width as int,
                        orig.height as int,
                        px,
                        py,
                    ) && px < x {
                        color.spec_bytes(orig.bytes_per_pixel as int)
                    } else {
                        orig.spec_pixel(px, py)
                    },
            decreases hi_x + 1 - x,
        {
            let mut y = lo_y;
            while y <= hi_y
                invariant
                    orig.wf(),
                    w == orig.width,
                    h == orig.height,
                    lo_x == bbox_lo(pts[0].x as int, pts[1].x as int, pts[2].x as int, w - 1),
                    hi_x == bbox_hi(pts[0].x as int, pts[1].x as int, pts[2].x as int, w - 1),
                    lo_y == bbox_lo(pts[0].y as int, pts[1].y as int, pts[2].y as int, h - 1),
                    hi_y == bbox_hi(pts[0].y as int, pts[1].y as int, pts[2].y as int, h - 1),
                    lo_x <= x <= hi_x,
                    lo_y <= y,
                    y <= hi_y + 1,
                    hi_x < w,
                    hi_y < h,
                    image.wf(),
                    image.same_dims(orig),
                    image.data@.len() == orig.data@.len(),
                    forall|px: int, py: int|
                        orig.spec_in_bounds(px, py) ==> image.spec_pixel(px, py) == if covered_bbox(
                            pts[0],
                            pts[1],
                            pts[2],
                            orig.width as int,
                            orig.height as int,
                            px,
                            py,
                        ) && (px < x || (px == x && py < y)) {
                            color.spec_bytes(orig.bytes_per_pixel as int)
                        } else {
                            orig.spec_pixel(px, py)
                        },
                decreases hi_y + 1 - y,
            {
                let bc = barycentric(pts[0], pts[1], pts[2], Vec2i { x, y });
                if bc.is_inside() {
                    image.set(x, y, color);
                }
                y = y + 1;
            }
            x = x + 1;
        }
        proof {
            if spec_degenerate(pts[0], pts[1], pts[2]) {
                assert forall|px: int, py: int| orig.spec_in_bounds(px, py) implies
                    image.spec_pixel(px, py) == orig.spec_pixel(px, py) by {}
                orig.lemma_same_pixels_same_data(*image);
            }
        }
    }

/// Coverage for a triangle given with depths: its screen projection covers
/// the pixel.
pub open spec fn covered_bbox3(
    p0: Vec3i,
    p1: Vec3i,
    p2: Vec3i,
    w: int,
    h: int,
    px: int,
    py: int,
) -> bool {
    covered_bbox(p0.spec_xy(), p1.spec_xy(), p2.spec_xy(), w, h, px, py)
}

/// The interpolated depth of a pixel: the barycentric blend of the three
/// vertex depths, rounded down.
pub open spec fn spec_depth(p0: Vec3i, p1: Vec3i, p2: Vec3i, px: int, py: int) -> int {
    spec_bary(p0.spec_xy(), p1.spec_xy(), p2.spec_xy(), px, py).spec_interp(
        p0.z as int,
        p1.z as int,
        p2.z as int,
    )
}

/// Whether a covered pixel at interpolated depth `z` beats the stored
/// depth: the comparison is strict, so an equal depth is rejected.
pub open spec fn depth_wins(
    p0: Vec3i,
    p1: Vec3i,
    p2: Vec3i,
    w: int,
    h: int,
    px: int,
    py: int,
    stored: int,
) -> bool {
    covered_bbox3(p0, p1, p2, w, h, px, py) && stored < spec_depth(p0, p1, p2, px, py)
}

/// Depth-test idempotence: rendering the same triangle at the same depths
/// a second time changes nothing, because the pixels the first pass wrote
/// now store exactly the interpolated depth, and the strict comparison
/// rejects an equal depth.
pub proof fn lemma_depth_test_idempotent(
    p0: Vec3i,
    p1: Vec3i,
    p2: Vec3i,
    w: int,
    h: int,
    px: int,
    py: int,
    stored: int,
)
    ensures
        !depth_wins(
            p0,
            p1,
            p2,
            w,
            h,
            px,
            py,
            if depth_wins(p0, p1, p2, w, h, px, py, stored) {
                spec_depth(p0, p1, p2, px, py)
            } else {
                stored
            },
        ),
{
}

/// Fill a triangle with depth buffering: walk the clamped bounding box of
/// its screen projection; a pixel that passes the inside test and whose
/// interpolated depth strictly beats the stored depth is recolored and its
/// depth updated; every other pixel and cell is kept.
///
/// Ties at equal depth fail the strict comparison, so the triangle drawn
/// first keeps the pixel.
pub fn barycentric_rasterization_v2<Z: ZBuffer>(
    image: &mut TgaImage,
    zbuffer: &mut Z,
    pts: [Vec3i; 3],
    color: &TgaColor,
)
    requires
        old(image).wf(),
        forall|x: int, y: int|
            old(image).spec_in_bounds(x, y) ==> old(zbuffer).valid(x, y),
    ensures
        final(image).wf(),
        final(image).same_dims(*old(image)),
        final(image).data@.len() == old(image).data@.len(),
        forall|px: int, py: int| final(zbuffer).valid(px, py) == old(zbuffer).valid(px, py),
        forall|px: int, py: int|
            old(image).spec_in_bounds(px, py) ==> final(image).spec_pixel(px, py) == if depth_wins(
                pts[0],
                pts[1],
                pts[2],
                old(image).width as int,
                old(image).height as int,
                px,
                py,
                old(zbuffer).depth_at(px, py) as int,
            ) {
                color.spec_bytes(old(image).bytes_per_pixel as int)
            } else {
                old(image).spec_pixel(px, py)
            },
        forall|px: int, py: int|
            old(image).spec_in_bounds(px, py) ==> if depth_wins(
                pts[0],
                pts[1],
                pts[2],
                old(image).width as int,
                old(image).height as int,
                px,
                py,
                old(zbuffer).depth_at(px, py) as int,
            ) {
                final(zbuffer).depth_at(px, py) as int == spec_depth(pts[0], pts[1], pts[2], px, py)
            } else {
                final(zbuffer).depth_at(px, py) == old(zbuffer).depth_at(px, py)
            },
        forall|px: int, py: int|
            old(zbuffer).valid(px, py) && !old(image).spec_in_bounds(px, py) ==> final(zbuffer).depth_at(px, py) == old(zbuffer).depth_at(px, py),
        spec_degenerate(pts[0].spec_xy(), pts[1].spec_xy(), pts[2].spec_xy()) ==> final(image).data@
            == old(image).data@,
{
    let ghost orig = *image;
    let ghost zorig = *zbuffer;
    let w = image.width;
    let h = image.height;
    let a = pts[0].xy();
    let b = pts[1].xy();
    let c = pts[2].xy();
    let lo_x = bbox_lo_exec(a.x, b.x, c.x, w - 1);
    let hi_x = bbox_hi_exec(a.x, b.x, c.x, w - 1);
    let lo_y = bbox_lo_exec(a.y, b.y, c.y, h - 1);
    let hi_y = bbox_hi_exec(a.y, b.y, c.y, h - 1);
    let mut x = lo_x;
    while x <= hi_x
        invariant
            orig.wf(),
            w == orig.width,
            h == orig.height,
            a == pts[0].spec_xy(),
            b == pts[1].spec_xy(),
            c == pts[2].spec_xy(),
            lo_x == bbox_lo(a.x as int, b.x as int, c.x as int, w - 1),
            hi_x == bbox_hi(a.x as int, b.x as int, c.x as int, w - 1),
            lo_y == bbox_lo(a.y as int, b.y as int, c.y as int, h - 1),
            hi_y == bbox_hi(a.y as int, b.y as int, c.y as int, h - 1),
            lo_x <= x,
            x <= hi_x + 1,
            hi_x < w,
            hi_y < h,
            image.wf(),
            image.same_dims(orig),
            image.data@.len() == orig.data@.len(),
            forall|qx: int, qy: int| zorig.valid(qx, qy) ==> orig.spec_in_bounds(qx, qy)
                ==> true,
            forall|qx: int, qy: int| orig.spec_in_bounds(qx, qy) ==> zorig.valid(qx, qy),
            forall|qx: int, qy: int| zbuffer.valid(qx, qy) == zorig.valid(qx, qy),
            forall|px: int, py: int|
                orig.spec_in_bounds(px, py) ==> image.spec_pixel(px, py) == if depth_wins(
                    pts[0],
                    pts[1],
                    pts[2],
                    w as int,
                    h as int,
                    px,
                    py,
                    zorig.depth_at(px, py) as int,
                ) && px < x {
                    color.spec_bytes(orig.bytes_per_pixel as int)
                } else {
                    orig.spec_pixel(px, py)
                },
            forall|px: int, py: int|
                orig.spec_in_bounds(px, py) ==> if depth_wins(
                    pts[0],
                    pts[1],
                    pts[2],
                    w as int,
                    h as int,
                    px,
                    py,
                    zorig.depth_at(px, py) as int,
                ) && px < x {
                    zbuffer.depth_at(px, py) as int == spec_depth(pts[0], pts[1], pts[2], px, py)
                } else {
                    zbuffer.depth_at(px, py) == zorig.depth_at(px, py)
                },
            forall|px: int, py: int|
                zorig.valid(px, py) && !orig.spec_in_bounds(px, py) ==> zbuffer.depth_at(px, py)
                    == zorig.depth_at(px, py),
        decreases hi_x + 1 - x,
    {
        let mut y = lo_y;
        while y <= hi_y
            invariant
                orig.wf(),
                w == orig.width,
                h == orig.height,
                a == pts[0].spec_xy(),
                b == pts[1].spec_xy(),
                c == pts[2].spec_xy(),
                lo_x == bbox_lo(a.x as int, b.x as int, c.x as int, w - 1),
                hi_x == bbox_hi(a.x as int, b.x as int, c.x as int, w - 1),
                lo_y == bbox_lo(a.y as int, b.y as int, c.y as int, h - 1),
                hi_y == bbox_hi(a.y as int, b.y as int, c.y as int, h - 1),
                lo_x <= x <= hi_x,
                lo_y <= y,
                y <= hi_y + 1,
                hi_x < w,
                hi_y < h,
                image.wf(),
                image.same_dims(orig),
                image.data@.len() == orig.data@.len(),
                forall|qx: int, qy: int| orig.spec_in_bounds(qx, qy) ==> zorig.valid(qx, qy),
                forall|qx: int, qy: int| zbuffer.valid(qx, qy) == zorig.valid(qx, qy),
                forall|px: int, py: int|
                    orig.spec_in_bounds(px, py) ==> image.spec_pixel(px, py) == if depth_wins(
                        pts[0],
                        pts[1],
                        pts[2],
                        w as int,
                        h as int,
                        px,
                        py,
                        zorig.depth_at(px, py) as int,
                    ) && (px < x || (px == x && py < y)) {
                        color.spec_bytes(orig.bytes_per_pixel as int)
                    } else {
                        orig.spec_pixel(px, py)
                    },
                forall|px: int, py: int|
                    orig.spec_in_bounds(px, py) ==> if depth_wins(
                        pts[0],
                        pts[1],
                        pts[2],
                        w as int,
                        h as int,
                        px,
                        py,
                        zorig.depth_at(px, py) as int,
                    ) && (px < x || (px == x && py < y)) {
                        zbuffer.depth_at(px, py) as int == spec_depth(
                            pts[0],
                            pts[1],
                            pts[2],
                            px,
                            py,
                        )
                    } else {
                        zbuffer.depth_at(px, py) == zorig.depth_at(px, py)
                    },
                forall|px: int, py: int|
                    zorig.valid(px, py) && !orig.spec_in_bounds(px, py) ==> zbuffer.depth_at(
                        px,
                        py,
                    ) == zorig.depth_at(px, py),
            decreases hi_y + 1 - y,
        {
            let bc = barycentric(a, b, c, Vec2i { x, y });
            if bc.is_inside() {
                let z = bc.interp(pts[0].z, pts[1].z, pts[2].z);
                proof {
                    assert(0 <= lo_x && 0 <= lo_y);
                    assert(orig.spec_in_bounds(x as int, y as int));
                    assert(zbuffer.valid(x as int, y as int));
                }
                let stored = zbuffer.get(x as usize, y as usize);
                if stored < z {
                    zbuffer.set(x as usize, y as usize, z);
                    image.set(x, y, color);
                }
            }
            y = y + 1;
        }
        x = x + 1;
    }
    proof {
        if spec_degenerate(a, b, c) {
            assert forall|px: int, py: int| orig.spec_in_bounds(px, py) implies image.spec_pixel(
                px,
                py,
            ) == orig.spec_pixel(px, py) by {}
            orig.lemma_same_pixels_same_data(*image);
        }
    }
}

/// The three vertices reordered by ascending `y` with a three-exchange
/// sorting network; ties keep the argument order.
pub open spec fn sort3_by_y(v0: Vec2i, v1: Vec2i, v2: Vec2i) -> (Vec2i, Vec2i, Vec2i) {
    let (a, b) = if v0.y > v1.y {
        (v1, v0)
    } else {
        (v0, v1)
    };
    let (a, c) = if a.y > v2.y {
        (v2, a)
    } else {
        (a, v2)
    };
    let (b, c) = if b.y > c.y {
        (c, b)
    } else {
        (b, c)
    };
    (a, b, c)
}

/// The x coordinate where the edge from `p` to `q` crosses scanline `y`:
/// the fractional offset from `p` is truncated toward zero, as a
/// float-to-integer cast rounds.
pub open spec fn calc_x(p: Vec2i, q: Vec2i, y: int) -> int {
    crate::geometry::spec_div_trunc((y - p.y) * (q.x - p.x), q.y - p.y) + p.x
}

/// Executable twin of [`calc_x`] for an edge that properly crosses the
/// scanline.
fn calc_x_exec(p: Vec2i, q: Vec2i, y: i32) -> (r: i128)
    requires
        q.y > p.y,
    ensures
        r == calc_x(p, q, y as int),
        -0x80000000000000000 <= r <= 0x80000000000000000,
{
    let num = crate::barycentric::mul_wide(
        (y as i128) - (p.y as i128),
        (q.x as i128) - (p.x as i128),
    );
    let den = (q.y as i128) - (p.y as i128);
    crate::geometry::div_trunc(num, den) + (p.x as i128)
}

/// Scanline coverage for the edge-walking filler: the pixel's row lies
/// strictly between the lowest and highest vertex, and its column lies in
/// the half-open span between the two active edges of that row.
pub open spec fn covered_sweep_v1(t0: Vec2i, t1: Vec2i, t2: Vec2i, px: int, py: int) -> bool {
    let (s0, s1, s2) = sort3_by_y(t0, t1, t2);
    &&& s0.y <= py < s2.y
    &&& {
        let e1 = if py < s1.y {
            calc_x(s0, s1, py)
        } else {
            calc_x(s1, s2, py)
        };
        let e2 = calc_x(s0, s2, py);
        let l = if e1 <= e2 {
            e1
        } else {
            e2
        };
        let r = if e1 <= e2 {
            e2
        } else {
            e1
        };
        l <= px < r
    }
}

/// Recolor the pixels of row `y` whose column lies in `[l, r)`; every
/// other pixel keeps its bytes.
fn fill_span(image: &mut TgaImage, y: i32, l: i128, r: i128, color: &TgaColor)
    requires
        old(image).wf(),
    ensures
        final(image).wf(),
        final(image).same_dims(*old(image)),
        final(image).data@.len() == old(image).data@.len(),
        forall|px: int, py: int|
            old(image).spec_in_bounds(px, py) ==> final(image).spec_pixel(px, py) == if py == y
                && l <= px < r {
                color.spec_bytes(old(image).bytes_per_pixel as int)
            } else {
                old(image).spec_pixel(px, py)
            },
{
    let ghost orig = *image;
    let w = image.width;
    let xlo: i128 = if l < 0 {
        0
    } else {
        l
    };
    let xhi: i128 = if r > (w as i128) {
        w as i128
    } else {
        r
    };
    let mut x = xlo;
    while x < xhi
        invariant
            orig.wf(),
            w == orig.width,
            xlo == if l < 0 {
                0int
            } else {
                l as int
            },
            xhi == if r > w {
                w as int
            } else {
                r as int
            },
            xlo <= x,
            x <= xhi || x == xlo,
            0 <= x,
            image.wf(),
            image.same_dims(orig),
            image.data@.len() == orig.data@.len(),
            forall|px: int, py: int|
                orig.spec_in_bounds(px, py) ==> image.spec_pixel(px, py) == if py == y && l <= px
                    < x {
                    color.spec_bytes(orig.bytes_per_pixel as int)
                } else {
                    orig.spec_pixel(px, py)
                },
        decreases xhi - x,
    {
        image.set(x as i32, y, color);
        x = x + 1;
    }
}

/// Edge-walking scanline fill: sort the vertices by ascending `y`, then
/// for each scanline between the lowest and highest vertex interpolate the
/// two active edge crossings and fill the half-open span between them.
///
/// Afterwards a pixel holds `color`'s bytes exactly when the scanline walk
/// covers it; every other pixel keeps its bytes.
pub fn line_sweeping_v1(image: &mut TgaImage, v0: Vec2i, v1: Vec2i, v2: Vec2i, color: &TgaColor)
    requires
        old(image).wf(),
    ensures
        final(image).wf(),
        final(image).same_dims(*old(image)),
        final(image).data@.len() == old(image).data@.len(),
        forall|px: int, py: int|
            old(image).spec_in_bounds(px, py) ==> final(image).spec_pixel(px, py)
                == if covered_sweep_v1(v0, v1, v2, px, py) {
                color.spec_bytes(old(image).bytes_per_pixel as int)
            } else {
                old(image).spec_pixel(px, py)
            },
{
    let ghost orig = *image;
    let h = image.height;
    let mut s0 = v0;
    let mut s1 = v1;
    let mut s2 = v2;
    if s0.y > s1.y {
        let t = s0;
        s0 = s1;
        s1 = t;
    }
    if s0.y > s2.y {
        let t = s0;
        s0 = s2;
        s2 = t;
    }
    if s1.y > s2.y {
        let t = s1;
        s1 = s2;
        s2 = t;
    }
    proof {
        assert((s0, s1, s2) == sort3_by_y(v0, v1, v2));
        assert(s0.y <= s1.y <= s2.y);
    }
    let y_end = if s2.y < h {
        s2.y
    } else {
        h
    };
    let mut y = if s0.y > 0 {
        s0.y
    } else {
        0
    };
    while y < y_end
        invariant
            orig.wf(),
            h == orig.height,
            (s0, s1, s2) == sort3_by_y(v0, v1, v2),
            s0.y <= s1.y <= s2.y,
            y_end == if s2.y < h {
                s2.y as int
            } else {
                h as int
            },
            s0.y <= y || 0 <= y,
            y >= s0.y,
            y >= 0,
            image.wf(),
            image.same_dims(orig),
            image.data@.len() == orig.data@.len(),
            forall|px: int, py: int|
                orig.spec_in_bounds(px, py) ==> image.spec_pixel(px, py) == if covered_sweep_v1(
                    v0,
                    v1,
                    v2,
                    px,
                    py,
                ) && py < y {
                    color.spec_bytes(orig.bytes_per_pixel as int)
                } else {
                    orig.spec_pixel(px, py)
                },
        decreases y_end - y,
    {
        let e1 = if y < s1.y {
            calc_x_exec(s0, s1, y)
        } else {
            calc_x_exec(s1, s2, y)
        };
        let e2 = calc_x_exec(s0, s2, y);
        let l = if e1 <= e2 {
            e1
        } else {
            e2
        };
        let r = if e1 <= e2 {
            e2
        } else {
            e1
        };
        fill_span(image, y, l, r, color);
        proof {
            assert forall|px: int, py: int| orig.spec_in_bounds(px, py) && py == y implies (
            covered_sweep_v1(v0, v1, v2, px, py) == (l <= px < r)) by {}
        }
        y = y + 1;
    }
}

/// Scanline coverage for the two-segment edge-walking filler: the lower
/// segment interpolates along the short edge with its height raised by one
/// (which guards against dividing by zero on a flat edge), the upper
/// segment along the second short edge; both interpolate the long edge,
/// fractional offsets truncated toward zero.
pub open spec fn covered_sweep_v2(t0: Vec2i, t1: Vec2i, t2: Vec2i, px: int, py: int) -> bool {
    let (s0, s1, s2) = sort3_by_y(t0, t1, t2);
    &&& s0.y <= py < s2.y
    &&& {
        let a = s0.x + crate::geometry::spec_div_trunc(
            (s2.x - s0.x) * (py - s0.y),
            s2.y - s0.y,
        );
        let b = if py < s1.y {
            s0.x + crate::geometry::spec_div_trunc(
                (s1.x - s0.x) * (py - s0.y),
                s1.y - s0.y + 1,
            )
        } else {
            s1.x + crate::geometry::spec_div_trunc((s2.x - s1.x) * (py - s1.y), s2.y - s1.y)
        };
        let l = if a <= b {
            a
        } else {
            b
        };
        let r = if a <= b {
            b
        } else {
            a
        };
        l <= px < r
    }
}

/// Two-segment edge-walking scanline fill: the triangle is split at its
/// middle vertex; each scanline of each segment is filled between the long
/// edge and the active short edge.
///
/// Afterwards a pixel holds `color`'s bytes exactly when the scanline walk
/// covers it; every other pixel keeps its bytes.
pub fn line_sweeping_v2(image: &mut TgaImage, v0: Vec2i, v1: Vec2i, v2: Vec2i, color: &TgaColor)
    requires
        old(image).wf(),
    ensures
        final(image).wf(),
        final(image).same_dims(*old(image)),
        final(image).data@.len() == old(image).data@.len(),
        forall|px: int, py: int|
            old(image).spec_in_bounds(px, py) ==> final(image).spec_pixel(px, py)
                == if covered_sweep_v2(v0, v1, v2, px, py) {
                color.spec_bytes(old(image).bytes_per_pixel as int)
            } else {
                old(image).spec_pixel(px, py)
            },
{
    let ghost orig = *image;
    let h = image.height;
    let mut s0 = v0;
    let mut s1 = v1;
    let mut s2 = v2;
    if s0.y > s1.y {
        let t = s0;
        s0 = s1;
        s1 = t;
    }
    if s0.y > s2.y {
        let t = s0;
        s0 = s2;
        s2 = t;
    }
    if s1.y > s2.y {
        let t = s1;
        s1 = s2;
        s2 = t;
    }
    proof {
        assert((s0, s1, s2) == sort3_by_y(v0, v1, v2));
        assert(s0.y <= s1.y <= s2.y);
    }
    let y_mid = if s1.y < h {
        s1.y
    } else {
        h
    };
    let y_end = if s2.y < h {
        s2.y
    } else {
        h
    };
    let mut y = if s0.y > 0 {
        s0.y
    } else {
        0
    };
    while y < y_mid
        invariant
            orig.wf(),
            h == orig.height,
            (s0, s1, s2) == sort3_by_y(v0, v1, v2),
            s0.y <= s1.y <= s2.y,
            y_mid == if s1.y < h {
                s1.y as int
            } else {
                h as int
            },
            y >= s0.y,
            y >= 0,
            image.wf(),
            image.same_dims(orig),
            image.data@.len() == orig.data@.len(),
            forall|px: int, py: int|
                orig.spec_in_bounds(px, py) ==> image.spec_pixel(px, py) == if covered_sweep_v2(
                    v0,
                    v1,
                    v2,
                    px,
                    py,
                ) && py < y {
                    color.spec_bytes(orig.bytes_per_pixel as int)
                } else {
                    orig.spec_pixel(px, py)
                },
        decreases y_mid - y,
    {
        let num_a = crate::barycentric::mul_wide(
            (s2.x as i128) - (s0.x as i128),
            (y as i128) - (s0.y as i128),
        );
        let a = (s0.x as i128) + crate::geometry::div_trunc(
            num_a,
            (s2.y as i128) - (s0.y as i128),
        );
        let num_b = crate::barycentric::mul_wide(
            (s1.x as i128) - (s0.x as i128),
            (y as i128) - (s0.y as i128),
        );
        let b = (s0.x as i128) + crate::geometry::div_trunc(
            num_b,
            (s1.y as i128) - (s0.y as i128) + 1,
        );
        let l = if a <= b {
            a
        } else {
            b
        };
        let r = if a <= b {
            b
        } else {
            a
        };
        fill_span(image, y, l, r, color);
        proof {
            assert forall|px: int, py: int| orig.spec_in_bounds(px, py) && py == y implies (
            covered_sweep_v2(v0, v1, v2, px, py) == (l <= px < r)) by {}
        }
        y = y + 1;
    }
    let mut y = if s1.y > y {
        s1.y
    } else {
        y
    };
    while y < y_end
        invariant
            orig.wf(),
            h == orig.height,
            (s0, s1, s2) == sort3_by_y(v0, v1, v2),
            s0.y <= s1.y <= s2.y,
            y_end == if s2.y < h {
                s2.y as int
            } else {
                h as int
            },
            y >= s1.y,
            y >= 0,
            image.wf(),
            image.same_dims(orig),
            image.data@.len() == orig.data@.len(),
            forall|px: int, py: int|
                orig.spec_in_bounds(px, py) ==> image.spec_pixel(px, py) == if covered_sweep_v2(
                    v0,
                    v1,
                    v2,
                    px,
                    py,
                ) && py < y {
                    color.spec_bytes(orig.bytes_per_pixel as int)
                } else {
                    orig.spec_pixel(px, py)
                },
        decreases y_end - y,
    {
        let num_a = crate::barycentric::mul_wide(
            (s2.x as i128) - (s0.x as i128),
            (y as i128) - (s0.y as i128),
        );
        let a = (s0.x as i128) + crate::geometry::div_trunc(
            num_a,
            (s2.y as i128) - (s0.y as i128),
        );
        let num_b = crate::barycentric::mul_wide(
            (s2.x as i128) - (s1.x as i128),
            (y as i128) - (s1.y as i128),
        );
        let b = (s1.x as i128) + crate::geometry::div_trunc(
            num_b,
            (s2.y as i128) - (s1.y as i128),
        );
        let l = if a <= b {
            a
        } else {
            b
        };
        let r = if a <= b {
            b
        } else {
            a
        };
        fill_span(image, y, l, r, color);
        proof {
            assert forall|px: int, py: int| orig.spec_in_bounds(px, py) && py == y implies (
            covered_sweep_v2(v0, v1, v2, px, py) == (l <= px < r)) by {}
        }
        y = y + 1;
    }
}

/// Linear interpolation from `p` to `q` by the fraction `num/den`, rounded
/// down.
pub open spec fn lerp(p: int, q: int, num: int, den: int) -> int {
    p + (q - p) * num / den
}

/// Executable twin of [`lerp`] for a fraction in `[0, 1]`; the result then
/// stays between `p` and `q`.
fn lerp_exec(p: i32, q: i32, num: i128, den: i128) -> (r: i32)
    requires
        den > 0,
        0 <= num <= den,
        den <= 0x200000000,
    ensures
        r as int == lerp(p as int, q as int, num as int, den as int),
        (if p <= q {
            p
        } else {
            q
        }) <= r <= (if p <= q {
            q
        } else {
            p
        }),
{
    let d: i128 = (q as i128) - (p as i128);
    let wide = crate::barycentric::mul_wide(d, num);
    let step = crate::geometry::div_floor(wide, den);
    proof {
        let lo: int = if d >= 0 {
            0
        } else {
            d as int
        };
        let hi: int = if d >= 0 {
            d as int
        } else {
            0
        };
        assert(lo * (den as int) <= (d as int) * (num as int) <= hi * (den as int))
            by (nonlinear_arith)
            requires
                den > 0,
                0 <= num <= den,
                lo == if d >= 0 {
                    0int
                } else {
                    d as int
                },
                hi == if d >= 0 {
                    d as int
                } else {
                    0int
                },
        {}
        crate::barycentric::lemma_div_bounds((d as int) * (num as int), den as int, lo, hi);
    }
    (p as i128 + step) as i32
}

/// The three vertices with their intensities reordered by ascending `y`,
/// with the same exchange network as [`sort3_by_y`].
pub open spec fn sort3_gouraud(v0: Vec3i, i0: i32, v1: Vec3i, i1: i32, v2: Vec3i, i2: i32) -> (
    Vec3i,
    i32,
    Vec3i,
    i32,
    Vec3i,
    i32,
) {
    let (a, ia, b, ib) = if v0.y > v1.y {
        (v1, i1, v0, i0)
    } else {
        (v0, i0, v1, i1)
    };
    let (a, ia, c, ic) = if a.y > v2.y {
        (v2, i2, a, ia)
    } else {
        (a, ia, v2, i2)
    };
    let (b, ib, c, ic) = if b.y > c.y {
        (c, ic, b, ib)
    } else {
        (b, ib, c, ic)
    };
    (a, ia, b, ib, c, ic)
}

/// The row span of the Gouraud scanline walk at row `py`, for sorted
/// vertices: `(ax, az, aity)` interpolates the long edge, `(bx, bz, bity)`
/// the active short edge, both before the left-right exchange.
pub open spec fn gouraud_span(
    s0: Vec3i,
    i0: i32,
    s1: Vec3i,
    i1: i32,
    s2: Vec3i,
    i2: i32,
    py: int,
) -> (int, int, int, int, int, int) {
    let i = py - s0.y;
    let th = s2.y - s0.y;
    let second = i > s1.y - s0.y || s1.y == s0.y;
    let ax = lerp(s0.x as int, s2.x as int, i, th);
    let az = lerp(s0.z as int, s2.z as int, i, th);
    let aity = lerp(i0 as int, i2 as int, i, th);
    if second {
        let seg = s2.y - s1.y;
        let j = i - (s1.y - s0.y);
        (
            ax,
            az,
            aity,
            lerp(s1.x as int, s2.x as int, j, seg),
            lerp(s1.z as int, s2.z as int, j, seg),
            lerp(i1 as int, i2 as int, j, seg),
        )
    } else {
        let seg = s1.y - s0.y;
        (
            ax,
            az,
            aity,
            lerp(s0.x as int, s1.x as int, i, seg),
            lerp(s0.z as int, s1.z as int, i, seg),
            lerp(i0 as int, i1 as int, i, seg),
        )
    }
}

/// The row span with its ends exchanged so the left end comes first.
pub open spec fn gouraud_span_lr(
    s0: Vec3i,
    i0: i32,
    s1: Vec3i,
    i1: i32,
    s2: Vec3i,
    i2: i32,
    py: int,
) -> (int, int, int, int, int, int) {
    let (ax, az, aity, bx, bz, bity) = gouraud_span(s0, i0, s1, i1, s2, i2, py);
    if ax > bx {
        (bx, bz, bity, ax, az, aity)
    } else {
        (ax, az, aity, bx, bz, bity)
    }
}

/// Whether the Gouraud scanline walk covers pixel `(px, py)`: the row lies
/// between the lowest and highest vertex and the column in the half-open
/// row span. A triangle whose vertices share one row covers nothing.
pub open spec fn gouraud_covered(
    v0: Vec3i,
    i0: i32,
    v1: Vec3i,
    i1: i32,
    v2: Vec3i,
    i2: i32,
    px: int,
    py: int,
) -> bool {
    if v0.y == v1.y && v0.y == v2.y {
        false
    } else {
        let (s0, j0, s1, j1, s2, j2) = sort3_gouraud(v0, i0, v1, i1, v2, i2);
        let (lx, lz, lity, rx, rz, rity) = gouraud_span_lr(s0, j0, s1, j1, s2, j2, py);
        s0.y <= py < s2.y && lx <= px < rx
    }
}

/// The interpolated depth of a covered pixel under the Gouraud walk.
pub open spec fn gouraud_z(
    v0: Vec3i,
    i0: i32,
    v1: Vec3i,
    i1: i32,
    v2: Vec3i,
    i2: i32,
    px: int,
    py: int,
) -> int {
    let (s0, j0, s1, j1, s2, j2) = sort3_gouraud(v0, i0, v1, i1, v2, i2);
    let (lx, lz, lity, rx, rz, rity) = gouraud_span_lr(s0, j0, s1, j1, s2, j2, py);
    lerp(lz, rz, px - lx, rx - lx)
}

/// The interpolated intensity of a covered pixel under the Gouraud walk.
pub open spec fn gouraud_ity(
    v0: Vec3i,
    i0: i32,
    v1: Vec3i,
    i1: i32,
    v2: Vec3i,
    i2: i32,
    px: int,
    py: int,
) -> int {
    let (s0, j0, s1, j1, s2, j2) = sort3_gouraud(v0, i0, v1, i1, v2, i2);
    let (lx, lz, lity, rx, rz, rity) = gouraud_span_lr(s0, j0, s1, j1, s2, j2, py);
    lerp(lity, rity, px - lx, rx - lx)
}

/// White scaled by an intensity in units of 1/255, each channel clamped
/// and truncated: the color a Gouraud pixel receives.
pub open spec fn gouraud_color(ity: int) -> TgaColor {
    let v = if ity <= 0 {
        0u8
    } else if ity >= 255 {
        255u8
    } else {
        ity as u8
    };
    TgaColor { b: v, g: v, r: v, a: 0u8, format: crate::tga::TgaFormat::RGB }
}

/// The color a pixel receives under the textured filler: the texture is
/// sampled at the barycentric blend of the three texture positions, and
/// the texel is scaled by the intensity (in units of 1/255).
/// Whether the blended texture position of a pixel lands outside the
/// texture, so that sampling it fails.
pub open spec fn diffuse_uv_out(
    p0: Vec3i,
    p1: Vec3i,
    p2: Vec3i,
    uvs: [Vec2i; 3],
    diffuse: TgaImage,
    px: int,
    py: int,
) -> bool {
    let bc = spec_bary(p0.spec_xy(), p1.spec_xy(), p2.spec_xy(), px, py);
    let ux = bc.spec_interp(uvs[0].x as int, uvs[1].x as int, uvs[2].x as int);
    let uy = bc.spec_interp(uvs[0].y as int, uvs[1].y as int, uvs[2].y as int);
    !diffuse.spec_in_bounds(ux, uy)
}

pub open spec fn diffuse_pixel_color(
    p0: Vec3i,
    p1: Vec3i,
    p2: Vec3i,
    uvs: [Vec2i; 3],
    diffuse: TgaImage,
    intensity: i32,
    px: int,
    py: int,
) -> TgaColor {
    let bc = spec_bary(p0.spec_xy(), p1.spec_xy(), p2.spec_xy(), px, py);
    let ux = bc.spec_interp(uvs[0].x as int, uvs[1].x as int, uvs[2].x as int);
    let uy = bc.spec_interp(uvs[0].y as int, uvs[1].y as int, uvs[2].y as int);
    diffuse.spec_get_color(ux, uy).spec_scaled(intensity as i64, 255)
}

/// Textured bounding-box fill: like the depth-buffered filler, but the
/// color of each winning pixel is sampled from `diffuse` at the
/// barycentric blend of the three texture positions (in texture pixels)
/// and scaled by `intensity` in units of 1/255.
///
/// A winning pixel whose blended texture position lands outside the
/// texture aborts the fill at once with `OutOfBounds`: the pixels already
/// filled keep their colors and depths, the failing pixel's depth is
/// already recorded (the depth write precedes the sample), and nothing
/// after it is touched.
pub fn barycentric_rasterization_diffuse<Z: ZBuffer>(
    image: &mut TgaImage,
    zbuffer: &mut Z,
    pts: [Vec3i; 3],
    uvs: [Vec2i; 3],
    diffuse: &TgaImage,
    intensity: i32,
) -> (res: Result<(), crate::error::ErrorKind>)
    requires
        old(image).wf(),
        forall|x: int, y: int| old(image).spec_in_bounds(x, y) ==> old(zbuffer).valid(x, y),
        diffuse.wf(),
    ensures
        res is Ok <==> (forall|px: int, py: int|
            !(depth_wins(
                pts[0],
                pts[1],
                pts[2],
                old(image).width as int,
                old(image).height as int,
                px,
                py,
                old(zbuffer).depth_at(px, py) as int,
            ) && diffuse_uv_out(pts[0], pts[1], pts[2], uvs, *diffuse, px, py))),
        res is Err ==> res == Err::<(), crate::error::ErrorKind>(crate::error::ErrorKind::OutOfBounds),
        final(image).wf(),
        final(image).same_dims(*old(image)),
        final(image).data@.len() == old(image).data@.len(),
        forall|px: int, py: int| final(zbuffer).valid(px, py) == old(zbuffer).valid(px, py),
        res is Ok ==> forall|px: int, py: int|
            old(image).spec_in_bounds(px, py) ==> final(image).spec_pixel(px, py) == if depth_wins(
                pts[0],
                pts[1],
                pts[2],
                old(image).width as int,
                old(image).height as int,
                px,
                py,
                old(zbuffer).depth_at(px, py) as int,
            ) {
                diffuse_pixel_color(pts[0], pts[1], pts[2], uvs, *diffuse, intensity, px, py)
                    .spec_bytes(old(image).bytes_per_pixel as int)
            } else {
                old(image).spec_pixel(px, py)
            },
        res is Ok ==> forall|px: int, py: int|
            old(image).spec_in_bounds(px, py) ==> if depth_wins(
                pts[0],
                pts[1],
                pts[2],
                old(image).width as int,
                old(image).height as int,
                px,
                py,
                old(zbuffer).depth_at(px, py) as int,
            ) {
                final(zbuffer).depth_at(px, py) as int == spec_depth(pts[0], pts[1], pts[2], px, py)
            } else {
                final(zbuffer).depth_at(px, py) == old(zbuffer).depth_at(px, py)
            },
        res is Err ==> exists|bx: int, by: int|
            {
                &&& depth_wins(
                    pts[0],
                    pts[1],
                    pts[2],
                    old(image).width as int,
                    old(image).height as int,
                    bx,
                    by,
                    old(zbuffer).depth_at(bx, by) as int,
                )
                &&& diffuse_uv_out(pts[0], pts[1], pts[2], uvs, *diffuse, bx, by)
                &&& forall|px: int, py: int|
                    (px < bx || (px == bx && py < by)) ==> !(depth_wins(
                        pts[0],
                        pts[1],
                        pts[2],
                        old(image).width as int,
                        old(image).height as int,
                        px,
                        py,
                        old(zbuffer).depth_at(px, py) as int,
                    ) && diffuse_uv_out(pts[0], pts[1], pts[2], uvs, *diffuse, px, py))
                &&& forall|px: int, py: int|
                    old(image).spec_in_bounds(px, py) ==> final(image).spec_pixel(px, py)
                        == if depth_wins(
                        pts[0],
                        pts[1],
                        pts[2],
                        old(image).width as int,
                        old(image).height as int,
                        px,
                        py,
                        old(zbuffer).depth_at(px, py) as int,
                    ) && (px < bx || (px == bx && py < by)) {
                        diffuse_pixel_color(
                            pts[0],
                            pts[1],
                            pts[2],
                            uvs,
                            *diffuse,
                            intensity,
                            px,
                            py,
                        ).spec_bytes(old(image).bytes_per_pixel as int)
                    } else {
                        old(image).spec_pixel(px, py)
                    }
                &&& forall|px: int, py: int|
                    old(image).spec_in_bounds(px, py) ==> if depth_wins(
                        pts[0],
                        pts[1],
                        pts[2],
                        old(image).width as int,
                        old(image).height as int,
                        px,
                        py,
                        old(zbuffer).depth_at(px, py) as int,
                    ) && (px < bx || (px == bx && py <= by)) {
                        final(zbuffer).depth_at(px, py) as int == spec_depth(
                            pts[0],
                            pts[1],
                            pts[2],
                            px,
                            py,
                        )
                    } else {
                        final(zbuffer).depth_at(px, py) == old(zbuffer).depth_at(px, py)
                    }
            },
        forall|px: int, py: int|
            old(zbuffer).valid(px, py) && !old(image).spec_in_bounds(px, py) ==> final(zbuffer).depth_at(px, py) == old(zbuffer).depth_at(px, py),
{
    let ghost orig = *image;
    let ghost zorig = *zbuffer;
    let w = image.width;
    let h = image.height;
    let a = pts[0].xy();
    let b = pts[1].xy();
    let c = pts[2].xy();
    let lo_x = bbox_lo_exec(a.x, b.x, c.x, w - 1);
    let hi_x = bbox_hi_exec(a.x, b.x, c.x, w - 1);
    let lo_y = bbox_lo_exec(a.y, b.y, c.y, h - 1);
    let hi_y = bbox_hi_exec(a.y, b.y, c.y, h - 1);
    let mut x = lo_x;
    while x <= hi_x
        invariant
            orig.wf(),
            w == orig.width,
            h == orig.height,
            a == pts[0].spec_xy(),
            b == pts[1].spec_xy(),
            c == pts[2].spec_xy(),
            diffuse.wf(),
            orig == *old(image),
            zorig == *old(zbuffer),
            forall|px: int, py: int|
                px < x ==> !(depth_wins(
                    pts[0],
                    pts[1],
                    pts[2],
                    w as int,
                    h as int,
                    px,
                    py,
                    zorig.depth_at(px, py) as int,
                ) && diffuse_uv_out(pts[0], pts[1], pts[2], uvs, *diffuse, px, py)),
            lo_x == bbox_lo(a.x as int, b.x as int, c.x as int, w - 1),
            hi_x == bbox_hi(a.x as int, b.x as int, c.x as int, w - 1),
            lo_y == bbox_lo(a.y as int, b.y as int, c.y as int, h - 1),
            hi_y == bbox_hi(a.y as int, b.y as int, c.y as int, h - 1),
            lo_x <= x,
            x <= hi_x + 1,
            hi_x < w,
            hi_y < h,
            image.wf(),
            image.same_dims(orig),
            image.data@.len() == orig.data@.len(),
            forall|qx: int, qy: int| orig.spec_in_bounds(qx, qy) ==> zorig.valid(qx, qy),
            forall|qx: int, qy: int| zbuffer.valid(qx, qy) == zorig.valid(qx, qy),
            forall|px: int, py: int|
                orig.spec_in_bounds(px, py) ==> image.spec_pixel(px, py) == if depth_wins(
                    pts[0],
                    pts[1],
                    pts[2],
                    w as int,
                    h as int,
                    px,
                    py,
                    zorig.depth_at(px, py) as int,
                ) && px < x {
                    diffuse_pixel_color(pts[0], pts[1], pts[2], uvs, *diffuse, intensity, px, py)
                        .spec_bytes(orig.bytes_per_pixel as int)
                } else {
                    orig.spec_pixel(px, py)
                },
            forall|px: int, py: int|
                orig.spec_in_bounds(px, py) ==> if depth_wins(
                    pts[0],
                    pts[1],
                    pts[2],
                    w as int,
                    h as int,
                    px,
                    py,
                    zorig.depth_at(px, py) as int,
                ) && px < x {
                    zbuffer.depth_at(px, py) as int == spec_depth(pts[0], pts[1], pts[2], px, py)
                } else {
                    zbuffer.depth_at(px, py) == zorig.depth_at(px, py)
                },
            forall|px: int, py: int|
                zorig.valid(px, py) && !orig.spec_in_bounds(px, py) ==> zbuffer.depth_at(px, py)
                    == zorig.depth_at(px, py),
        decreases hi_x + 1 - x,
    {
        let mut y = lo_y;
        while y <= hi_y
            invariant
                orig.wf(),
                w == orig.width,
                h == orig.height,
                a == pts[0].spec_xy(),
                b == pts[1].spec_xy(),
                c == pts[2].spec_xy(),
                diffuse.wf(),
                orig == *old(image),
                zorig == *old(zbuffer),
                forall|px: int, py: int|
                    (px < x || (px == x && py < y)) ==> !(depth_wins(
                        pts[0],
                        pts[1],
                        pts[2],
                        w as int,
                        h as int,
                        px,
                        py,
                        zorig.depth_at(px, py) as int,
                    ) && diffuse_uv_out(pts[0], pts[1], pts[2], uvs, *diffuse, px, py)),
                lo_x == bbox_lo(a.x as int, b.x as int, c.x as int, w - 1),
                hi_x == bbox_hi(a.x as int, b.x as int, c.x as int, w - 1),
                lo_y == bbox_lo(a.y as int, b.y as int, c.y as int, h - 1),
                hi_y == bbox_hi(a.y as int, b.y as int, c.y as int, h - 1),
                lo_x <= x <= hi_x,
                lo_y <= y,
                y <= hi_y + 1,
                hi_x < w,
                hi_y < h,
                image.wf(),
                image.same_dims(orig),
                image.data@.len() == orig.data@.len(),
                forall|qx: int, qy: int| orig.spec_in_bounds(qx, qy) ==> zorig.valid(qx, qy),
                forall|qx: int, qy: int| zbuffer.valid(qx, qy) == zorig.valid(qx, qy),
                forall|px: int, py: int|
                    orig.spec_in_bounds(px, py) ==> image.spec_pixel(px, py) == if depth_wins(
                        pts[0],
                        pts[1],
                        pts[2],
                        w as int,
                        h as int,
                        px,
                        py,
                        zorig.depth_at(px, py) as int,
                    ) && (px < x || (px == x && py < y)) {
                        diffuse_pixel_color(
                            pts[0],
                            pts[1],
                            pts[2],
                            uvs,
                            *diffuse,
                            intensity,
                            px,
                            py,
                        ).spec_bytes(orig.bytes_per_pixel as int)
                    } else {
                        orig.spec_pixel(px, py)
                    },
                forall|px: int, py: int|
                    orig.spec_in_bounds(px, py) ==> if depth_wins(
                        pts[0],
                        pts[1],
                        pts[2],
                        w as int,
                        h as int,
                        px,
                        py,
                        zorig.depth_at(px, py) as int,
                    ) && (px < x || (px == x && py < y)) {
                        zbuffer.depth_at(px, py) as int == spec_depth(
                            pts[0],
                            pts[1],
                            pts[2],
                            px,
                            py,
                        )
                    } else {
                        zbuffer.depth_at(px, py) == zorig.depth_at(px, py)
                    },
                forall|px: int, py: int|
                    zorig.valid(px, py) && !orig.spec_in_bounds(px, py) ==> zbuffer.depth_at(
                        px,
                        py,
                    ) == zorig.depth_at(px, py),
            decreases hi_y + 1 - y,
        {
            let bc = barycentric(a, b, c, Vec2i { x, y });
            if bc.is_inside() {
                let z = bc.interp(pts[0].z, pts[1].z, pts[2].z);
                proof {
                    assert(0 <= lo_x && 0 <= lo_y);
                    assert(orig.spec_in_bounds(x as int, y as int));
                    assert(zbuffer.valid(x as int, y as int));
                }
                let stored = zbuffer.get(x as usize, y as usize);
                if stored < z {
                    zbuffer.set(x as usize, y as usize, z);
                    let uv = crate::barycentric::sample_barycentric_uv(&uvs, &bc);
                    let texel = match diffuse.get(uv.x, uv.y) {
                        Ok(t) => t,
                        Err(_) => {
                            proof {
                                let bxi = x as int;
                                let byi = y as int;
                                assert(diffuse_uv_out(
                                    pts[0],
                                    pts[1],
                                    pts[2],
                                    uvs,
                                    *diffuse,
                                    bxi,
                                    byi,
                                ));
                                assert(depth_wins(
                                    pts[0],
                                    pts[1],
                                    pts[2],
                                    w as int,
                                    h as int,
                                    bxi,
                                    byi,
                                    zorig.depth_at(bxi, byi) as int,
                                ));
                                assert forall|px: int, py: int|
                                    orig.spec_in_bounds(px, py) implies if depth_wins(
                                    pts[0],
                                    pts[1],
                                    pts[2],
                                    w as int,
                                    h as int,
                                    px,
                                    py,
                                    zorig.depth_at(px, py) as int,
                                ) && (px < bxi || (px == bxi && py <= byi)) {
                                    zbuffer.depth_at(px, py) as int == spec_depth(
                                        pts[0],
                                        pts[1],
                                        pts[2],
                                        px,
                                        py,
                                    )
                                } else {
                                    zbuffer.depth_at(px, py) == zorig.depth_at(px, py)
                                } by {}
                            }
                            return Err(crate::error::ErrorKind::OutOfBounds);
                        },
                    };
                    let col = texel.mul_intensity(intensity as i64, 255);
                    proof {
                        assert(col == diffuse_pixel_color(
                            pts[0],
                            pts[1],
                            pts[2],
                            uvs,
                            *diffuse,
                            intensity,
                            x as int,
                            y as int,
                        ));
                    }
                    image.set(x, y, &col);
                }
            }
            y = y + 1;
        }
        x = x + 1;
    }
    proof {
        assert forall|px: int, py: int|
            !(depth_wins(
                pts[0],
                pts[1],
                pts[2],
                w as int,
                h as int,
                px,
                py,
                zorig.depth_at(px, py) as int,
            ) && diffuse_uv_out(pts[0], pts[1], pts[2], uvs, *diffuse, px, py)) by {
            if depth_wins(
                pts[0],
                pts[1],
                pts[2],
                w as int,
                h as int,
                px,
                py,
                zorig.depth_at(px, py) as int,
            ) {
                assert(px <= hi_x);
            }
        }
    }
    Ok(())
}

/// A degenerate triangle is covered by no pixel of the Gouraud scanline
/// walk either: on every scanline the long-edge and short-edge crossings
/// are floors of equal exact fractions, so the row span is empty.
#[verifier::spinoff_prover]
pub proof fn lemma_gouraud_degenerate(
    v0: Vec3i,
    i0: i32,
    v1: Vec3i,
    i1: i32,
    v2: Vec3i,
    i2: i32,
    px: int,
    py: int,
)
    requires
        spec_degenerate(v0.spec_xy(), v1.spec_xy(), v2.spec_xy()),
    ensures
        !gouraud_covered(v0, i0, v1, i1, v2, i2, px, py),
{
    if v0.y == v1.y && v0.y == v2.y {
    } else {
        let (a, ia, b, ib) = if v0.y > v1.y {
            (v1, i1, v0, i0)
        } else {
            (v0, i0, v1, i1)
        };
        assert(crate::barycentric::bary_uz(a.spec_xy(), b.spec_xy(), v2.spec_xy()) == 0) by {
            if v0.y > v1.y {
                lemma_uz_swap01(v0.spec_xy(), v1.spec_xy(), v2.spec_xy());
            }
        }
        let (a2, ia2, c2, ic2) = if a.y > v2.y {
            (v2, i2, a, ia)
        } else {
            (a, ia, v2, i2)
        };
        assert(crate::barycentric::bary_uz(a2.spec_xy(), b.spec_xy(), c2.spec_xy()) == 0) by {
            if a.y > v2.y {
                lemma_uz_swap02(a.spec_xy(), b.spec_xy(), v2.spec_xy());
            }
        }
        let (b3, ib3, c3, ic3) = if b.y > c2.y {
            (c2, ic2, b, ib)
        } else {
            (b, ib, c2, ic2)
        };
        assert(crate::barycentric::bary_uz(a2.spec_xy(), b3.spec_xy(), c3.spec_xy()) == 0) by {
            if b.y > c2.y {
                lemma_uz_swap12(a2.spec_xy(), b.spec_xy(), c2.spec_xy());
            }
        }
        let s0 = a2;
        let s1 = b3;
        let s2 = c3;
        assert((s0, ia2, s1, ib3, s2, ic3) == sort3_gouraud(v0, i0, v1, i1, v2, i2));
        assert((s2.x - s0.x) * (s1.y - s0.y) == (s1.x - s0.x) * (s2.y - s0.y));
        if s0.y <= py < s2.y {
            let i = py - s0.y;
            let th = s2.y - s0.y;
            let second = i > s1.y - s0.y || s1.y == s0.y;
            if !second {
                let seg = s1.y - s0.y;
                let n1 = (s1.x - s0.x) * i;
                let n2 = (s2.x - s0.x) * i;
                assert(n1 * th == n2 * seg) by (nonlinear_arith)
                    requires
                        (s2.x - s0.x) * (s1.y - s0.y) == (s1.x - s0.x) * (s2.y - s0.y),
                        n1 == (s1.x - s0.x) * i,
                        n2 == (s2.x - s0.x) * i,
                        seg == s1.y - s0.y,
                        th == s2.y - s0.y,
                {}
                lemma_equal_fractions_floor(n1, seg, n2, th);
                assert(lerp(s0.x as int, s1.x as int, i, seg) == lerp(
                    s0.x as int,
                    s2.x as int,
                    i,
                    th,
                )) by {
                    assert((s1.x - s0.x) * i == n1 && (s2.x - s0.x) * i == n2);
                }
            } else {
                let seg = s2.y - s1.y;
                let j = i - (s1.y - s0.y);
                assert(j == py - s1.y);
                let n1 = (s2.x - s1.x) * j + s1.x * seg;
                let n2 = (s2.x - s0.x) * i + s0.x * th;
                vstd::arithmetic::div_mod::lemma_hoist_over_denominator(
                    (s2.x - s1.x) * j,
                    s1.x as int,
                    seg as nat,
                );
                vstd::arithmetic::div_mod::lemma_hoist_over_denominator(
                    (s2.x - s0.x) * i,
                    s0.x as int,
                    th as nat,
                );
                assert(n1 == (py - s1.y) * (s2.x - s1.x) + s1.x * (s2.y - s1.y))
                    by (nonlinear_arith)
                    requires
                        n1 == (s2.x - s1.x) * j + s1.x * seg,
                        j == py - s1.y,
                        seg == s2.y - s1.y,
                {}
                assert(n2 == (py - s0.y) * (s2.x - s0.x) + s0.x * (s2.y - s0.y))
                    by (nonlinear_arith)
                    requires
                        n2 == (s2.x - s0.x) * i + s0.x * th,
                        i == py - s0.y,
                        th == s2.y - s0.y,
                {}
                assert(n1 * th - n2 * seg == (py - s2.y) * ((s2.x - s0.x) * (s1.y - s0.y) - (s1.x
                    - s0.x) * (s2.y - s0.y))) by (nonlinear_arith)
                    requires
                        n1 == (py - s1.y) * (s2.x - s1.x) + s1.x * (s2.y - s1.y),
                        n2 == (py - s0.y) * (s2.x - s0.x) + s0.x * (s2.y - s0.y),
                        seg == s2.y - s1.y,
                        th == s2.y - s0.y,
                {}
                assert(n1 * th == n2 * seg);
                lemma_equal_fractions_floor(n1, seg, n2, th);
                assert(lerp(s1.x as int, s2.x as int, j, seg) == lerp(
                    s0.x as int,
                    s2.x as int,
                    i,
                    th,
                ));
            }
        }
    }
}

/// Whether a Gouraud-covered pixel at its interpolated depth beats the
/// stored depth; the comparison is strict.
pub open spec fn gouraud_wins(
    v0: Vec3i,
    i0: i32,
    v1: Vec3i,
    i1: i32,
    v2: Vec3i,
    i2: i32,
    px: int,
    py: int,
    stored: int,
) -> bool {
    gouraud_covered(v0, i0, v1, i1, v2, i2, px, py) && stored < gouraud_z(
        v0,
        i0,
        v1,
        i1,
        v2,
        i2,
        px,
        py,
    )
}

/// Gouraud-shaded scanline fill: walk the triangle's scanlines as the
/// edge-walking filler does, interpolating a per-vertex depth and a
/// per-vertex intensity (in units of 1/255) along the edges and across
/// each row; a pixel whose interpolated depth strictly beats the stored
/// depth receives white scaled by its interpolated intensity.
///
/// A triangle whose three vertices share one row is skipped entirely.
pub fn line_sweeping_gouraud_shading<Z: ZBuffer>(
    image: &mut TgaImage,
    zbuffer: &mut Z,
    v0: Vec3i,
    v1: Vec3i,
    v2: Vec3i,
    ity0: i32,
    ity1: i32,
    ity2: i32,
)
    requires
        old(image).wf(),
        forall|x: int, y: int| old(image).spec_in_bounds(x, y) ==> old(zbuffer).valid(x, y),
    ensures
        final(image).wf(),
        final(image).same_dims(*old(image)),
        final(image).data@.len() == old(image).data@.len(),
        forall|px: int, py: int| final(zbuffer).valid(px, py) == old(zbuffer).valid(px, py),
        forall|px: int, py: int|
            old(image).spec_in_bounds(px, py) ==> final(image).spec_pixel(px, py)
                == if gouraud_wins(
                v0,
                ity0,
                v1,
                ity1,
                v2,
                ity2,
                px,
                py,
                old(zbuffer).depth_at(px, py) as int,
            ) {
                gouraud_color(gouraud_ity(v0, ity0, v1, ity1, v2, ity2, px, py)).spec_bytes(
                    old(image).bytes_per_pixel as int,
                )
            } else {
                old(image).spec_pixel(px, py)
            },
        forall|px: int, py: int|
            old(image).spec_in_bounds(px, py) ==> if gouraud_wins(
                v0,
                ity0,
                v1,
                ity1,
                v2,
                ity2,
                px,
                py,
                old(zbuffer).depth_at(px, py) as int,
            ) {
                final(zbuffer).depth_at(px, py) as int == gouraud_z(
                    v0,
                    ity0,
                    v1,
                    ity1,
                    v2,
                    ity2,
                    px,
                    py,
                )
            } else {
                final(zbuffer).depth_at(px, py) == old(zbuffer).depth_at(px, py)
            },
        forall|px: int, py: int|
            old(zbuffer).valid(px, py) && !old(image).spec_in_bounds(px, py) ==> final(zbuffer).depth_at(px, py) == old(zbuffer).depth_at(px, py),
{
    if v0.y == v1.y && v0.y == v2.y {
        return ;
    }
    let ghost orig = *image;
    let ghost zorig = *zbuffer;
    let w = image.width;
    let h = image.height;
    let mut s0 = v0;
    let mut s1 = v1;
    let mut s2 = v2;
    let mut j0 = ity0;
    let mut j1 = ity1;
    let mut j2 = ity2;
    if s0.y > s1.y {
        let t = s0;
        s0 = s1;
        s1 = t;
        let u = j0;
        j0 = j1;
        j1 = u;
    }
    if s0.y > s2.y {
        let t = s0;
        s0 = s2;
        s2 = t;
        let u = j0;
        j0 = j2;
        j2 = u;
    }
    if s1.y > s2.y {
        let t = s1;
        s1 = s2;
        s2 = t;
        let u = j1;
        j1 = j2;
        j2 = u;
    }
    proof {
        assert((s0, j0, s1, j1, s2, j2) == sort3_gouraud(v0, ity0, v1, ity1, v2, ity2));
        assert(s0.y <= s1.y <= s2.y);
        assert(s0.y < s2.y);
    }
    let y_end = if s2.y < h {
        s2.y
    } else {
        h
    };
    let mut y = if s0.y > 0 {
        s0.y
    } else {
        0
    };
    while y < y_end
        invariant
            orig.wf(),
            w == orig.width,
            h == orig.height,
            (s0, j0, s1, j1, s2, j2) == sort3_gouraud(v0, ity0, v1, ity1, v2, ity2),
            s0.y <= s1.y <= s2.y,
            s0.y < s2.y,
            !(v0.y == v1.y && v0.y == v2.y),
            y_end == if s2.y < h {
                s2.y as int
            } else {
                h as int
            },
            y >= s0.y,
            y >= 0,
            image.wf(),
            image.same_dims(orig),
            image.data@.len() == orig.data@.len(),
            forall|qx: int, qy: int| orig.spec_in_bounds(qx, qy) ==> zorig.valid(qx, qy),
            forall|qx: int, qy: int| zbuffer.valid(qx, qy) == zorig.valid(qx, qy),
            forall|px: int, py: int|
                orig.spec_in_bounds(px, py) ==> image.spec_pixel(px, py) == if gouraud_wins(
                    v0,
                    ity0,
                    v1,
                    ity1,
                    v2,
                    ity2,
                    px,
                    py,
                    zorig.depth_at(px, py) as int,
                ) && py < y {
                    gouraud_color(gouraud_ity(v0, ity0, v1, ity1, v2, ity2, px, py)).spec_bytes(
                        orig.bytes_per_pixel as int,
                    )
                } else {
                    orig.spec_pixel(px, py)
                },
            forall|px: int, py: int|
                orig.spec_in_bounds(px, py) ==> if gouraud_wins(
                    v0,
                    ity0,
                    v1,
                    ity1,
                    v2,
                    ity2,
                    px,
                    py,
                    zorig.depth_at(px, py) as int,
                ) && py < y {
                    zbuffer.depth_at(px, py) as int == gouraud_z(
                        v0,
                        ity0,
                        v1,
                        ity1,
                        v2,
                        ity2,
                        px,
                        py,
                    )
                } else {
                    zbuffer.depth_at(px, py) == zorig.depth_at(px, py)
                },
            forall|px: int, py: int|
                zorig.valid(px, py) && !orig.spec_in_bounds(px, py) ==> zbuffer.depth_at(px, py)
                    == zorig.depth_at(px, py),
        decreases y_end - y,
    {
        let i: i128 = (y as i128) - (s0.y as i128);
        let th: i128 = (s2.y as i128) - (s0.y as i128);
        let second = y > s1.y || s1.y == s0.y;
        let ax = lerp_exec(s0.x, s2.x, i, th);
        let az = lerp_exec(s0.z, s2.z, i, th);
        let aity = lerp_exec(j0, j2, i, th);
        let (bx, bz, bity) = if second {
            let seg: i128 = (s2.y as i128) - (s1.y as i128);
            let j: i128 = (y as i128) - (s1.y as i128);
            (lerp_exec(s1.x, s2.x, j, seg), lerp_exec(s1.z, s2.z, j, seg), lerp_exec(
                j1,
                j2,
                j,
                seg,
            ))
        } else {
            let seg: i128 = (s1.y as i128) - (s0.y as i128);
            (lerp_exec(s0.x, s1.x, i, seg), lerp_exec(s0.z, s1.z, i, seg), lerp_exec(
                j0,
                j1,
                i,
                seg,
            ))
        };
        let (lx, lz, lity, rx, rz, rity) = if ax > bx {
            (bx, bz, bity, ax, az, aity)
        } else {
            (ax, az, aity, bx, bz, bity)
        };
        proof {
            assert((lx as int, lz as int, lity as int, rx as int, rz as int, rity as int)
                == gouraud_span_lr(s0, j0, s1, j1, s2, j2, y as int));
        }
        let x_end = if rx < w {
            rx
        } else {
            w
        };
        let mut x = if lx > 0 {
            lx
        } else {
            0
        };
        while x < x_end
            invariant
                orig.wf(),
                w == orig.width,
                h == orig.height,
                (s0, j0, s1, j1, s2, j2) == sort3_gouraud(v0, ity0, v1, ity1, v2, ity2),
                s0.y <= s1.y <= s2.y,
                s0.y < s2.y,
                !(v0.y == v1.y && v0.y == v2.y),
                s0.y <= y,
                0 <= y,
                y < s2.y,
                y < h,
                (lx as int, lz as int, lity as int, rx as int, rz as int, rity as int)
                    == gouraud_span_lr(s0, j0, s1, j1, s2, j2, y as int),
                x_end == if rx < w {
                    rx as int
                } else {
                    w as int
                },
                x >= lx,
                x >= 0,
                image.wf(),
                image.same_dims(orig),
                image.data@.len() == orig.data@.len(),
                forall|qx: int, qy: int| orig.spec_in_bounds(qx, qy) ==> zorig.valid(qx, qy),
                forall|qx: int, qy: int| zbuffer.valid(qx, qy) == zorig.valid(qx, qy),
                forall|px: int, py: int|
                    orig.spec_in_bounds(px, py) ==> image.spec_pixel(px, py) == if gouraud_wins(
                        v0,
                        ity0,
                        v1,
                        ity1,
                        v2,
                        ity2,
                        px,
                        py,
                        zorig.depth_at(px, py) as int,
                    ) && (py < y || (py == y && px < x)) {
                        gouraud_color(gouraud_ity(v0, ity0, v1, ity1, v2, ity2, px, py)).spec_bytes(
                            orig.bytes_per_pixel as int,
                        )
                    } else {
                        orig.spec_pixel(px, py)
                    },
                forall|px: int, py: int|
                    orig.spec_in_bounds(px, py) ==> if gouraud_wins(
                        v0,
                        ity0,
                        v1,
                        ity1,
                        v2,
                        ity2,
                        px,
                        py,
                        zorig.depth_at(px, py) as int,
                    ) && (py < y || (py == y && px < x)) {
                        zbuffer.depth_at(px, py) as int == gouraud_z(
                            v0,
                            ity0,
                            v1,
                            ity1,
                            v2,
                            ity2,
                            px,
                            py,
                        )
                    } else {
                        zbuffer.depth_at(px, py) == zorig.depth_at(px, py)
                    },
                forall|px: int, py: int|
                    zorig.valid(px, py) && !orig.spec_in_bounds(px, py) ==> zbuffer.depth_at(
                        px,
                        py,
                    ) == zorig.depth_at(px, py),
            decreases x_end - x,
        {
            let num: i128 = (x as i128) - (lx as i128);
            let den: i128 = (rx as i128) - (lx as i128);
            let z = lerp_exec(lz, rz, num, den);
            let pity = lerp_exec(lity, rity, num, den);
            proof {
                assert(orig.spec_in_bounds(x as int, y as int));
                assert(zbuffer.valid(x as int, y as int));
            }
            let stored = zbuffer.get(x as usize, y as usize);
            if stored < z {
                zbuffer.set(x as usize, y as usize, z);
                let white = TgaColor::from_rgb(255, 255, 255);
                let col = white.mul_intensity(pity as i64, 255);
                proof {
                    vstd::arithmetic::div_mod::lemma_div_multiples_vanish(pity as int, 255);
                    assert(col == gouraud_color(pity as int));
                    assert(gouraud_ity(v0, ity0, v1, ity1, v2, ity2, x as int, y as int)
                        == pity as int);
                }
                image.set(x, y, &col);
            }
            x = x + 1;
        }
        y = y + 1;
    }
}

/// Two equal fractions have equal floors.
proof fn lemma_equal_fractions_floor(a: int, b: int, c: int, d: int)
    requires
        b > 0,
        d > 0,
        a * d == c * b,
    ensures
        a / b == c / d,
{
    vstd::arithmetic::div_mod::lemma_fundamental_div_mod(a, b);
    vstd::arithmetic::div_mod::lemma_mod_bound(a, b);
    let q = a / b;
    let r = a % b;
    let t = c - q * d;
    assert(r * d == b * t) by (nonlinear_arith)
        requires
            a == b * q + r,
            a * d == c * b,
            t == c - q * d,
    {}
    assert(0 <= t < d) by (nonlinear_arith)
        requires
            r * d == b * t,
            0 <= r < b,
            b > 0,
            d > 0,
    {}
    vstd::arithmetic::div_mod::lemma_fundamental_div_mod(c, d);
    vstd::arithmetic::div_mod::lemma_mod_bound(c, d);
    assert(c / d == q) by (nonlinear_arith)
        requires
            c == d * (c / d) + c % d,
            0 <= c % d < d,
            c == q * d + t,
            0 <= t < d,
    {}
}

/// Two equal fractions also have equal toward-zero roundings: the
/// numerators carry the same sign, so truncation reduces to the floor of
/// the fraction or of its negation on both sides alike.
proof fn lemma_equal_fractions_trunc(a: int, b: int, c: int, d: int)
    requires
        b > 0,
        d > 0,
        a * d == c * b,
    ensures
        crate::geometry::spec_div_trunc(a, b) == crate::geometry::spec_div_trunc(c, d),
{
    assert(a >= 0 <==> c >= 0) by (nonlinear_arith)
        requires
            b > 0,
            d > 0,
            a * d == c * b,
    {}
    if a >= 0 {
        lemma_equal_fractions_floor(a, b, c, d);
    } else {
        assert((-a) * d == (-c) * b) by (nonlinear_arith)
            requires
                a * d == c * b,
        {}
        lemma_equal_fractions_floor(-a, b, -c, d);
    }
}

/// Exchanging the first two vertices negates the doubled signed area.
proof fn lemma_uz_swap01(a: Vec2i, b: Vec2i, c: Vec2i)
    by (nonlinear_arith)
    ensures
        crate::barycentric::bary_uz(b, a, c) == -crate::barycentric::bary_uz(a, b, c),
{
}

/// Exchanging the first and third vertices negates the doubled signed area.
proof fn lemma_uz_swap02(a: Vec2i, b: Vec2i, c: Vec2i)
    by (nonlinear_arith)
    ensures
        crate::barycentric::bary_uz(c, b, a) == -crate::barycentric::bary_uz(a, b, c),
{
}

/// Exchanging the last two vertices negates the doubled signed area.
proof fn lemma_uz_swap12(a: Vec2i, b: Vec2i, c: Vec2i)
    by (nonlinear_arith)
    ensures
        crate::barycentric::bary_uz(a, c, b) == -crate::barycentric::bary_uz(a, b, c),
{
}

/// A degenerate triangle — collinear or repeated vertices — is covered by
/// no pixel of the edge-walking scanline fill: on every scanline the two
/// interpolated edge crossings are floors of equal exact fractions, so the
/// half-open span between them is empty.
#[verifier::spinoff_prover]
pub proof fn lemma_sweep_v1_degenerate(t0: Vec2i, t1: Vec2i, t2: Vec2i, px: int, py: int)
    requires
        spec_degenerate(t0, t1, t2),
    ensures
        !covered_sweep_v1(t0, t1, t2, px, py),
{
    let (a, b) = if t0.y > t1.y {
        (t1, t0)
    } else {
        (t0, t1)
    };
    assert(crate::barycentric::bary_uz(a, b, t2) == 0) by {
        if t0.y > t1.y {
            lemma_uz_swap01(t0, t1, t2);
        }
    }
    let (a2, c2) = if a.y > t2.y {
        (t2, a)
    } else {
        (a, t2)
    };
    assert(crate::barycentric::bary_uz(a2, b, c2) == 0) by {
        if a.y > t2.y {
            lemma_uz_swap02(a, b, t2);
        }
    }
    let (b3, c3) = if b.y > c2.y {
        (c2, b)
    } else {
        (b, c2)
    };
    assert(crate::barycentric::bary_uz(a2, b3, c3) == 0) by {
        if b.y > c2.y {
            lemma_uz_swap12(a2, b, c2);
        }
    }
    let s0 = a2;
    let s1 = b3;
    let s2 = c3;
    assert((s0, s1, s2) == sort3_by_y(t0, t1, t2));
    assert((s2.x - s0.x) * (s1.y - s0.y) == (s1.x - s0.x) * (s2.y - s0.y));
    if s0.y <= py < s2.y {
        if py < s1.y {
            let n1 = (py - s0.y) * (s1.x - s0.x);
            let d1 = s1.y - s0.y;
            let n2 = (py - s0.y) * (s2.x - s0.x);
            let d2 = s2.y - s0.y;
            assert(n1 * d2 == n2 * d1) by (nonlinear_arith)
                requires
                    (s2.x - s0.x) * (s1.y - s0.y) == (s1.x - s0.x) * (s2.y - s0.y),
                    n1 == (py - s0.y) * (s1.x - s0.x),
                    n2 == (py - s0.y) * (s2.x - s0.x),
                    d1 == s1.y - s0.y,
                    d2 == s2.y - s0.y,
            {}
            lemma_equal_fractions_trunc(n1, d1, n2, d2);
            assert(calc_x(s0, s1, py) == calc_x(s0, s2, py));
        } else {
            // the fractional offsets along the two active edges: both
            // measure the same exact crossing from their own base vertex
            let m1 = (py - s1.y) * (s2.x - s1.x);
            let d1 = s2.y - s1.y;
            let m2 = (py - s0.y) * (s2.x - s0.x);
            let d2 = s2.y - s0.y;
            let n1 = m1 + s1.x * d1;
            let n2 = m2 + s0.x * d2;
            assert(n1 * d2 - n2 * d1 == (py - s2.y) * ((s2.x - s0.x) * (s1.y - s0.y) - (s1.x
                - s0.x) * (s2.y - s0.y))) by (nonlinear_arith)
                requires
                    n1 == (py - s1.y) * (s2.x - s1.x) + s1.x * (s2.y - s1.y),
                    n2 == (py - s0.y) * (s2.x - s0.x) + s0.x * (s2.y - s0.y),
                    d1 == s2.y - s1.y,
                    d2 == s2.y - s0.y,
            {}
            assert(n1 * d2 == n2 * d1);
            if m1 > 0 && m2 < 0 {
                // impossible: the crossing would lie right of the middle
                // vertex yet left of the bottom one, off the common line
                assert(s2.x > s1.x && s2.x < s0.x) by (nonlinear_arith)
                    requires
                        m1 == (py - s1.y) * (s2.x - s1.x),
                        m2 == (py - s0.y) * (s2.x - s0.x),
                        m1 > 0,
                        m2 < 0,
                        s0.y <= s1.y <= py,
                {}
                assert((s0.x - s2.x) * (s1.y - s2.y) == (s1.x - s2.x) * (s0.y - s2.y))
                    by (nonlinear_arith)
                    requires
                        (s2.x - s0.x) * (s1.y - s0.y) == (s1.x - s0.x) * (s2.y - s0.y),
                {}
                assert(false) by (nonlinear_arith)
                    requires
                        (s0.x - s2.x) * (s1.y - s2.y) == (s1.x - s2.x) * (s0.y - s2.y),
                        s0.x > s2.x,
                        s1.x < s2.x,
                        s1.y <= s2.y,
                        s0.y < s2.y,
                {}
            } else if m1 < 0 && m2 > 0 {
                assert(s2.x < s1.x && s2.x > s0.x) by (nonlinear_arith)
                    requires
                        m1 == (py - s1.y) * (s2.x - s1.x),
                        m2 == (py - s0.y) * (s2.x - s0.x),
                        m1 < 0,
                        m2 > 0,
                        s0.y <= s1.y <= py,
                {}
                assert((s0.x - s2.x) * (s1.y - s2.y) == (s1.x - s2.x) * (s0.y - s2.y))
                    by (nonlinear_arith)
                    requires
                        (s2.x - s0.x) * (s1.y - s0.y) == (s1.x - s0.x) * (s2.y - s0.y),
                {}
                assert(false) by (nonlinear_arith)
                    requires
                        (s0.x - s2.x) * (s1.y - s2.y) == (s1.x - s2.x) * (s0.y - s2.y),
                        s0.x < s2.x,
                        s1.x > s2.x,
                        s1.y <= s2.y,
                        s0.y < s2.y,
                {}
            } else if m1 >= 0 && m2 >= 0 {
                // both offsets are nonnegative: truncation is the floor,
                // and the shifted fractions are equal
                vstd::arithmetic::div_mod::lemma_hoist_over_denominator(m1, s1.x as int, d1 as nat);
                vstd::arithmetic::div_mod::lemma_hoist_over_denominator(m2, s0.x as int, d2 as nat);
                lemma_equal_fractions_floor(n1, d1, n2, d2);
                assert(calc_x(s1, s2, py) == calc_x(s0, s2, py));
            } else {
                // both offsets are nonpositive: truncation is the negated
                // floor of the negation, and the shifted negated fractions
                // are equal
                vstd::arithmetic::div_mod::lemma_hoist_over_denominator(
                    -m1,
                    -(s1.x as int),
                    d1 as nat,
                );
                vstd::arithmetic::div_mod::lemma_hoist_over_denominator(
                    -m2,
                    -(s0.x as int),
                    d2 as nat,
                );
                assert((-n1) * d2 == (-n2) * d1) by (nonlinear_arith)
                    requires
                        n1 * d2 == n2 * d1,
                {}
                lemma_equal_fractions_floor(-n1, d1, -n2, d2);
                assert((-m1) + (-(s1.x as int)) * d1 == -n1) by (nonlinear_arith)
                    requires
                        n1 == m1 + s1.x * d1,
                {}
                assert((-m2) + (-(s0.x as int)) * d2 == -n2) by (nonlinear_arith)
                    requires
                        n2 == m2 + s0.x * d2,
                {}
                assert((-m1) / d1 + (-(s1.x as int)) == (-n1) / d1);
                assert((-m2) / d2 + (-(s0.x as int)) == (-n2) / d2);
                assert(calc_x(s1, s2, py) == -((-n1) / d1));
                assert(calc_x(s0, s2, py) == -((-n2) / d2));
                assert(calc_x(s1, s2, py) == calc_x(s0, s2, py));
            }
        }
    }
}

/// The screen-plane pixel of a clip-space vertex: each coordinate divided
/// by the vertex's own `w` and rounded down.
pub open spec fn clip_xy(p: Vec4i) -> Vec2i {
    Vec2i {
        x: ((p.x as int) / (p.w as int)) as i32,
        y: ((p.y as int) / (p.w as int)) as i32,
    }
}

/// Executable twin of [`clip_xy`].
fn clip_xy_exec(p: Vec4i) -> (r: Vec2i)
    requires
        p.w >= 1,
    ensures
        r == clip_xy(p),
{
    let x = crate::geometry::div_floor(p.x as i128, p.w as i128);
    let y = crate::geometry::div_floor(p.y as i128, p.w as i128);
    Vec2i { x: x as i32, y: y as i32 }
}

/// The perspective-correct fragment depth of a pixel: the blend of the
/// vertices' `z` components divided by the blend of their `w` components,
/// rounded down and clamped into the viewport depth range `[0, 255]`.
pub open spec fn triangle_fd(p0: Vec4i, p1: Vec4i, p2: Vec4i, px: int, py: int) -> int {
    let bc = spec_bary(clip_xy(p0), clip_xy(p1), clip_xy(p2), px, py);
    let zn = bc.alpha * p0.z + bc.beta * p1.z + bc.gamma * p2.z;
    let wn = bc.alpha * p0.w + bc.beta * p1.w + bc.gamma * p2.w;
    let q = zn / wn;
    if q < 0 {
        0
    } else if q > 255 {
        255
    } else {
        q
    }
}

/// Whether a pixel is a candidate under the shader-driven filler: its
/// pixel lies in the clamped bounding box of the projected triangle,
/// passes the inside test, and its fragment depth strictly beats the
/// stored depth — an equal depth is rejected, so the triangle drawn
/// first keeps the pixel, as under every other depth-buffered fill.
pub open spec fn triangle_pass(
    p0: Vec4i,
    p1: Vec4i,
    p2: Vec4i,
    w: int,
    h: int,
    px: int,
    py: int,
    stored: int,
) -> bool {
    covered_bbox(clip_xy(p0), clip_xy(p1), clip_xy(p2), w, h, px, py) && stored < triangle_fd(
        p0,
        p1,
        p2,
        px,
        py,
    )
}

/// Shader-driven perspective-correct fill: walk the clamped bounding box
/// of the projected triangle; for each pixel that passes the inside test
/// and whose fragment depth strictly beats the stored depth, invoke the
/// fragment stage; if it yields a color, write color and depth, and if it
/// discards, leave both untouched — depth is never written for a
/// discarded fragment.
pub fn triangle<S: crate::shader::IShader, Z: ZBuffer>(
    image: &mut TgaImage,
    shader: &S,
    zbuffer: &mut Z,
    pts: [Vec4i; 3],
)
    requires
        old(image).wf(),
        forall|x: int, y: int| old(image).spec_in_bounds(x, y) ==> old(zbuffer).valid(x, y),
        pts[0].w >= 1,
        pts[1].w >= 1,
        pts[2].w >= 1,
    ensures
        final(image).wf(),
        final(image).same_dims(*old(image)),
        final(image).data@.len() == old(image).data@.len(),
        forall|px: int, py: int| final(zbuffer).valid(px, py) == old(zbuffer).valid(px, py),
        forall|px: int, py: int|
            old(image).spec_in_bounds(px, py) ==> {
                let fr = shader.fragment_spec(
                    spec_bary(clip_xy(pts[0]), clip_xy(pts[1]), clip_xy(pts[2]), px, py),
                );
                final(image).spec_pixel(px, py) == if triangle_pass(
                    pts[0],
                    pts[1],
                    pts[2],
                    old(image).width as int,
                    old(image).height as int,
                    px,
                    py,
                    old(zbuffer).depth_at(px, py) as int,
                ) && fr is Some {
                    fr->Some_0.spec_bytes(old(image).bytes_per_pixel as int)
                } else {
                    old(image).spec_pixel(px, py)
                }
            },
        forall|px: int, py: int|
            old(image).spec_in_bounds(px, py) ==> {
                let fr = shader.fragment_spec(
                    spec_bary(clip_xy(pts[0]), clip_xy(pts[1]), clip_xy(pts[2]), px, py),
                );
                if triangle_pass(
                    pts[0],
                    pts[1],
                    pts[2],
                    old(image).width as int,
                    old(image).height as int,
                    px,
                    py,
                    old(zbuffer).depth_at(px, py) as int,
                ) && fr is Some {
                    final(zbuffer).depth_at(px, py) as int == triangle_fd(
                        pts[0],
                        pts[1],
                        pts[2],
                        px,
                        py,
                    )
                } else {
                    final(zbuffer).depth_at(px, py) == old(zbuffer).depth_at(px, py)
                }
            },
        forall|px: int, py: int|
            old(zbuffer).valid(px, py) && !old(image).spec_in_bounds(px, py) ==> final(zbuffer).depth_at(px, py) == old(zbuffer).depth_at(px, py),
        spec_degenerate(clip_xy(pts[0]), clip_xy(pts[1]), clip_xy(pts[2])) ==> final(image).data@
            == old(image).data@,
{
    let ghost orig = *image;
    let ghost zorig = *zbuffer;
    let w = image.width;
    let h = image.height;
    let a = clip_xy_exec(pts[0]);
    let b = clip_xy_exec(pts[1]);
    let c = clip_xy_exec(pts[2]);
    let lo_x = bbox_lo_exec(a.x, b.x, c.x, w - 1);
    let hi_x = bbox_hi_exec(a.x, b.x, c.x, w - 1);
    let lo_y = bbox_lo_exec(a.y, b.y, c.y, h - 1);
    let hi_y = bbox_hi_exec(a.y, b.y, c.y, h - 1);
    let mut x = lo_x;
    while x <= hi_x
        invariant
            orig.wf(),
            w == orig.width,
            h == orig.height,
            a == clip_xy(pts[0]),
            b == clip_xy(pts[1]),
            c == clip_xy(pts[2]),
            pts[0].w >= 1,
            pts[1].w >= 1,
            pts[2].w >= 1,
            lo_x == bbox_lo(a.x as int, b.x as int, c.x as int, w - 1),
            hi_x == bbox_hi(a.x as int, b.x as int, c.x as int, w - 1),
            lo_y == bbox_lo(a.y as int, b.y as int, c.y as int, h - 1),
            hi_y == bbox_hi(a.y as int, b.y as int, c.y as int, h - 1),
            lo_x <= x,
            x <= hi_x + 1,
            hi_x < w,
            hi_y < h,
            image.wf(),
            image.same_dims(orig),
            image.data@.len() == orig.data@.len(),
            forall|qx: int, qy: int| orig.spec_in_bounds(qx, qy) ==> zorig.valid(qx, qy),
            forall|qx: int, qy: int| zbuffer.valid(qx, qy) == zorig.valid(qx, qy),
            forall|px: int, py: int|
                orig.spec_in_bounds(px, py) ==> {
                    let fr = shader.fragment_spec(spec_bary(a, b, c, px, py));
                    image.spec_pixel(px, py) == if triangle_pass(
                        pts[0],
                        pts[1],
                        pts[2],
                        w as int,
                        h as int,
                        px,
                        py,
                        zorig.depth_at(px, py) as int,
                    ) && fr is Some && px < x {
                        fr->Some_0.spec_bytes(orig.bytes_per_pixel as int)
                    } else {
                        orig.spec_pixel(px, py)
                    }
                },
            forall|px: int, py: int|
                orig.spec_in_bounds(px, py) ==> {
                    let fr = shader.fragment_spec(spec_bary(a, b, c, px, py));
                    if triangle_pass(
                        pts[0],
                        pts[1],
                        pts[2],
                        w as int,
                        h as int,
                        px,
                        py,
                        zorig.depth_at(px, py) as int,
                    ) && fr is Some && px < x {
                        zbuffer.depth_at(px, py) as int == triangle_fd(
                            pts[0],
                            pts[1],
                            pts[2],
                            px,
                            py,
                        )
                    } else {
                        zbuffer.depth_at(px, py) == zorig.depth_at(px, py)
                    }
                },
            forall|px: int, py: int|
                zorig.valid(px, py) && !orig.spec_in_bounds(px, py) ==> zbuffer.depth_at(px, py)
                    == zorig.depth_at(px, py),
        decreases hi_x + 1 - x,
    {
        let mut y = lo_y;
        while y <= hi_y
            invariant
                orig.wf(),
                w == orig.width,
                h == orig.height,
                a == clip_xy(pts[0]),
                b == clip_xy(pts[1]),
                c == clip_xy(pts[2]),
                pts[0].w >= 1,
                pts[1].w >= 1,
                pts[2].w >= 1,
                lo_x == bbox_lo(a.x as int, b.x as int, c.x as int, w - 1),
                hi_x == bbox_hi(a.x as int, b.x as int, c.x as int, w - 1),
                lo_y == bbox_lo(a.y as int, b.y as int, c.y as int, h - 1),
                hi_y == bbox_hi(a.y as int, b.y as int, c.y as int, h - 1),
                lo_x <= x <= hi_x,
                lo_y <= y,
                y <= hi_y + 1,
                hi_x < w,
                hi_y < h,
                image.wf(),
                image.same_dims(orig),
                image.data@.len() == orig.data@.len(),
                forall|qx: int, qy: int| orig.spec_in_bounds(qx, qy) ==> zorig.valid(qx, qy),
                forall|qx: int, qy: int| zbuffer.valid(qx, qy) == zorig.valid(qx, qy),
                forall|px: int, py: int|
                    orig.spec_in_bounds(px, py) ==> {
                        let fr = shader.fragment_spec(spec_bary(a, b, c, px, py));
                        image.spec_pixel(px, py) == if triangle_pass(
                            pts[0],
                            pts[1],
                            pts[2],
                            w as int,
                            h as int,
                            px,
                            py,
                            zorig.depth_at(px, py) as int,
                        ) && fr is Some && (px < x || (px == x && py < y)) {
                            fr->Some_0.spec_bytes(orig.bytes_per_pixel as int)
                        } else {
                            orig.spec_pixel(px, py)
                        }
                    },
                forall|px: int, py: int|
                    orig.spec_in_bounds(px, py) ==> {
                        let fr = shader.fragment_spec(spec_bary(a, b, c, px, py));
                        if triangle_pass(
                            pts[0],
                            pts[1],
                            pts[2],
                            w as int,
                            h as int,
                            px,
                            py,
                            zorig.depth_at(px, py) as int,
                        ) && fr is Some && (px < x || (px == x && py < y)) {
                            zbuffer.depth_at(px, py) as int == triangle_fd(
                                pts[0],
                                pts[1],
                                pts[2],
                                px,
                                py,
                            )
                        } else {
                            zbuffer.depth_at(px, py) == zorig.depth_at(px, py)
                        }
                    },
                forall|px: int, py: int|
                    zorig.valid(px, py) && !orig.spec_in_bounds(px, py) ==> zbuffer.depth_at(
                        px,
                        py,
                    ) == zorig.depth_at(px, py),
            decreases hi_y + 1 - y,
        {
            let bc = barycentric(a, b, c, Vec2i { x, y });
            if bc.is_inside() {
                proof {
                    crate::barycentric::lemma_mul_bounds(
                        bc.alpha as int,
                        pts[0].z as int,
                        0x8000000000000000000,
                        0x80000000,
                    );
                    crate::barycentric::lemma_mul_bounds(
                        bc.beta as int,
                        pts[1].z as int,
                        0x8000000000000000000,
                        0x80000000,
                    );
                    crate::barycentric::lemma_mul_bounds(
                        bc.gamma as int,
                        pts[2].z as int,
                        0x8000000000000000000,
                        0x80000000,
                    );
                    crate::barycentric::lemma_mul_bounds(
                        bc.alpha as int,
                        pts[0].w as int,
                        0x8000000000000000000,
                        0x80000000,
                    );
                    crate::barycentric::lemma_mul_bounds(
                        bc.beta as int,
                        pts[1].w as int,
                        0x8000000000000000000,
                        0x80000000,
                    );
                    crate::barycentric::lemma_mul_bounds(
                        bc.gamma as int,
                        pts[2].w as int,
                        0x8000000000000000000,
                        0x80000000,
                    );
                    assert(0x8000000000000000000 * 0x80000000 == 0x400000000000000000000000000int);
                }
                let zn: i128 = bc.alpha * (pts[0].z as i128) + bc.beta * (pts[1].z as i128)
                    + bc.gamma * (pts[2].z as i128);
                let wn: i128 = bc.alpha * (pts[0].w as i128) + bc.beta * (pts[1].w as i128)
                    + bc.gamma * (pts[2].w as i128);
                proof {
                    assert(bc.alpha * (pts[0].w as int) + bc.beta * (pts[1].w as int) + bc.gamma
                        * (pts[2].w as int) >= bc.den) by (nonlinear_arith)
                        requires
                            bc.alpha >= 0,
                            bc.beta >= 0,
                            bc.gamma >= 0,
                            bc.alpha + bc.beta + bc.gamma == bc.den,
                            pts[0].w >= 1,
                            pts[1].w >= 1,
                            pts[2].w >= 1,
                    {}
                }
                let q = crate::geometry::div_floor(zn, wn);
                let fd: i32 = if q < 0 {
                    0
                } else if q > 255 {
                    255
                } else {
                    q as i32
                };
                proof {
                    assert(0 <= lo_x && 0 <= lo_y);
                    assert(orig.spec_in_bounds(x as int, y as int));
                    assert(zbuffer.valid(x as int, y as int));
                    assert(fd as int == triangle_fd(pts[0], pts[1], pts[2], x as int, y as int));
                }
                let stored = zbuffer.get(x as usize, y as usize);
                if stored < fd {
                    match shader.fragment(bc) {
                        Some(col) => {
                            zbuffer.set(x as usize, y as usize, fd);
                            image.set(x, y, &col);
                        },
                        None => {},
                    }
                }
            }
            y = y + 1;
        }
        x = x + 1;
    }
    proof {
        if spec_degenerate(a, b, c) {
            assert forall|px: int, py: int| orig.spec_in_bounds(px, py) implies image.spec_pixel(
                px,
                py,
            ) == orig.spec_pixel(px, py) by {}
            orig.lemma_same_pixels_same_data(*image);
        }
    }
}

} // verus!
