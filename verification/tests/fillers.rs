use tinyrenderer::barycentric::barycentric;
use tinyrenderer::error::ErrorKind;
use tinyrenderer::geometry::{Vec2i, Vec3i, Vec4i};
use tinyrenderer::rasterization::{
    barycentric_rasterization_diffuse, barycentric_rasterization_v1, barycentric_rasterization_v2,
    line_sweeping_gouraud_shading, line_sweeping_v1, line_sweeping_v2, triangle, ZBuffer,
    ZbufferEx,
};
use tinyrenderer::shader::{FlatShader, GouraudShader};
use tinyrenderer::tga::{TgaColor, TgaFormat, TgaImage};

fn p2(x: i32, y: i32) -> Vec2i {
    Vec2i::new(x, y)
}

fn p3(x: i32, y: i32, z: i32) -> Vec3i {
    Vec3i::new(x, y, z)
}

fn marked(img: &TgaImage, x: i32, y: i32) -> bool {
    img.get(x, y).unwrap().b != 0
}

fn inside(a: Vec2i, b: Vec2i, c: Vec2i, x: i32, y: i32) -> bool {
    barycentric(a, b, c, p2(x, y)).is_inside()
}

/// The bounding-box filler and the scanline filler mark the same pixels,
/// up to the single-pixel edge convention: wherever they disagree, the
/// 3x3 neighborhood straddles the exact triangle boundary.
#[test]
fn fillers_agree_up_to_edge_pixels() {
    let white = TgaColor::from_greyscale(255);
    let (a, b, c) = (p2(10, 10), p2(100, 30), p2(190, 160));
    let mut bb = TgaImage::new(200, 200, TgaFormat::Grayscale);
    let mut sweep = TgaImage::new(200, 200, TgaFormat::Grayscale);
    barycentric_rasterization_v1(&mut bb, [a, b, c], &white);
    line_sweeping_v1(&mut sweep, a, b, c, &white);
    let mut differing = 0;
    for y in 0..200 {
        for x in 0..200 {
            if marked(&bb, x, y) != marked(&sweep, x, y) {
                differing += 1;
                // the disagreeing pixel must sit on the boundary: its
                // neighborhood contains both inside and outside pixels
                let mut saw_in = false;
                let mut saw_out = false;
                for dy in -1..=1 {
                    for dx in -1..=1 {
                        if inside(a, b, c, x + dx, y + dy) {
                            saw_in = true;
                        } else {
                            saw_out = true;
                        }
                    }
                }
                assert!(saw_in && saw_out, "pixel ({}, {}) differs away from the boundary", x, y);
            }
        }
    }
    // strictly interior pixels are marked by the bounding-box filler, and
    // deep interior pixels (whole 3x3 neighborhood inside) by both
    for y in 0..200 {
        for x in 0..200 {
            let bc = barycentric(a, b, c, p2(x, y));
            if bc.alpha > 0 && bc.beta > 0 && bc.gamma > 0 {
                assert!(marked(&bb, x, y));
            }
            let deep = (-1..=1)
                .all(|dy| (-1..=1).all(|dx| inside(a, b, c, x + dx, y + dy)));
            if deep {
                assert!(marked(&bb, x, y));
                assert!(marked(&sweep, x, y));
            }
        }
    }
    assert!(differing < 600, "far too many edge disagreements: {}", differing);
}

/// Degenerate triangles cover nothing: collinear or repeated vertices
/// leave the surface untouched under both filler families.
#[test]
fn degenerate_triangles_write_no_pixels() {
    let white = TgaColor::from_greyscale(255);
    let cases = [
        (p2(0, 0), p2(10, 10), p2(20, 20)),    // collinear, diagonal
        (p2(3, 7), p2(3, 7), p2(40, 50)),      // duplicate vertex
        (p2(5, 5), p2(5, 5), p2(5, 5)),        // a single point
        (p2(0, 9), p2(30, 9), p2(60, 9)),      // collinear, horizontal
        (p2(9, 0), p2(9, 30), p2(9, 60)),      // collinear, vertical
    ];
    for &(a, b, c) in cases.iter() {
        let mut img = TgaImage::new(64, 64, TgaFormat::Grayscale);
        barycentric_rasterization_v1(&mut img, [a, b, c], &white);
        assert!(img.data.iter().all(|&v| v == 0));

        let mut img = TgaImage::new(64, 64, TgaFormat::Grayscale);
        line_sweeping_v1(&mut img, a, b, c, &white);
        assert!(img.data.iter().all(|&v| v == 0));
    }
}

/// The Gouraud walk also writes nothing for degenerate triangles, whether
/// they collapse to a row or to a slanted line.
#[test]
fn gouraud_skips_degenerate_triangles() {
    let cases = [
        (p3(0, 0, 10), p3(10, 10, 20), p3(20, 20, 30)), // collinear, diagonal
        (p3(3, 7, 1), p3(3, 7, 1), p3(40, 50, 2)),      // duplicate vertex
        (p3(9, 0, 1), p3(9, 30, 2), p3(9, 60, 3)),      // collinear, vertical
    ];
    for &(a, b, c) in cases.iter() {
        let mut img = TgaImage::new(64, 64, TgaFormat::RGB);
        let mut zb = ZbufferEx::new_filled(64, 64);
        line_sweeping_gouraud_shading(&mut img, &mut zb, a, b, c, 255, 255, 255);
        assert!(img.data.iter().all(|&v| v == 0));
        assert!(zb.buffer.iter().all(|&v| v == i32::MIN));
    }
}

/// Re-rendering the same triangle at the same depth changes neither the
/// image nor the depth buffer: the strict comparison rejects equal depth.
#[test]
fn depth_test_is_idempotent() {
    let red = TgaColor::from_rgb(255, 0, 0);
    let pts = [p3(2, 2, 50), p3(40, 5, 50), p3(10, 45, 50)];
    let mut img = TgaImage::new(64, 64, TgaFormat::RGB);
    let mut zb = ZbufferEx::new_filled(64, 64);
    barycentric_rasterization_v2(&mut img, &mut zb, pts, &red);
    let img_after_one = img.data.clone();
    let depth_after_one = zb.buffer.clone();
    assert!(img_after_one.iter().any(|&v| v != 0));
    barycentric_rasterization_v2(&mut img, &mut zb, pts, &red);
    assert_eq!(img.data, img_after_one);
    assert_eq!(zb.buffer, depth_after_one);
}

/// The filled region of a concrete triangle is connected, non-empty, and
/// its pixel count matches the shoelace area within rounding tolerance.
#[test]
fn filled_region_matches_shoelace_area() {
    let white = TgaColor::from_greyscale(255);
    let (a, b, c) = (p2(10, 10), p2(100, 30), p2(190, 160));
    let mut img = TgaImage::new(200, 200, TgaFormat::Grayscale);
    barycentric_rasterization_v1(&mut img, [a, b, c], &white);
    let mut pixels = Vec::new();
    for y in 0..200 {
        for x in 0..200 {
            if marked(&img, x, y) {
                pixels.push((x, y));
            }
        }
    }
    assert!(!pixels.is_empty());
    // shoelace: |(b-a) x (c-a)| / 2 = 4950 for these vertices
    let area2 = ((b.x - a.x) as i64 * (c.y - a.y) as i64
        - (c.x - a.x) as i64 * (b.y - a.y) as i64)
        .abs();
    let area = area2 as f64 / 2.0;
    let count = pixels.len() as f64;
    assert!((count - area).abs() < 500.0, "count {} vs area {}", count, area);
    // connectivity: an eight-neighbor flood fill from an interior pixel
    // reaches the whole region, except that a sharp vertex can leave its
    // tip pixel detached by one diagonal step
    let mut seen = vec![false; 200 * 200];
    let idx = |x: i32, y: i32| (x + 200 * y) as usize;
    // start from a pixel well inside the region, not a vertex tip
    let start = pixels[pixels.len() / 2];
    let mut stack = vec![start];
    seen[idx(start.0, start.1)] = true;
    let mut reached = 0;
    while let Some((x, y)) = stack.pop() {
        reached += 1;
        for (dx, dy) in [
            (1, 0), (-1, 0), (0, 1), (0, -1), (1, 1), (1, -1), (-1, 1), (-1, -1),
        ] {
            let (nx, ny) = (x + dx, y + dy);
            if (0..200).contains(&nx) && (0..200).contains(&ny) && !seen[idx(nx, ny)]
                && marked(&img, nx, ny)
            {
                seen[idx(nx, ny)] = true;
                stack.push((nx, ny));
            }
        }
    }
    assert!(
        reached + 3 >= pixels.len(),
        "filled region is not connected: {} of {}",
        reached,
        pixels.len()
    );
}

/// Two overlapping triangles drawn in painter's-algorithm-defiant order:
/// the far one is drawn second, yet only the near one's color shows in
/// the overlap — the depth test overrides draw order.
#[test]
fn depth_test_overrides_draw_order() {
    let red = TgaColor::from_rgb(255, 0, 0);
    let blue = TgaColor::from_rgb(0, 0, 255);
    let near = [p3(0, 0, 100), p3(50, 0, 100), p3(0, 50, 100)];
    let far = [p3(10, 10, 40), p3(60, 10, 40), p3(10, 60, 40)];
    let mut img = TgaImage::new(80, 80, TgaFormat::RGB);
    let mut zb = ZbufferEx::new_filled(80, 80);
    barycentric_rasterization_v2(&mut img, &mut zb, near, &red);
    barycentric_rasterization_v2(&mut img, &mut zb, far, &blue);
    let near_xy = [p2(0, 0), p2(50, 0), p2(0, 50)];
    let far_xy = [p2(10, 10), p2(60, 10), p2(10, 60)];
    let mut overlap = 0;
    let mut far_only = 0;
    for y in 0..80 {
        for x in 0..80 {
            let in_near = inside(near_xy[0], near_xy[1], near_xy[2], x, y);
            let in_far = inside(far_xy[0], far_xy[1], far_xy[2], x, y);
            let c = img.get(x, y).unwrap();
            if in_near && in_far {
                overlap += 1;
                assert_eq!((c.r, c.b), (255, 0), "far triangle leaked at ({}, {})", x, y);
            }
            if in_far && !in_near {
                far_only += 1;
                assert_eq!((c.r, c.b), (0, 255));
            }
        }
    }
    assert!(overlap > 0 && far_only > 0);
}

#[test]
fn two_segment_sweep_matches_single_loop_sweep_on_interiors() {
    let white = TgaColor::from_greyscale(255);
    let (a, b, c) = (p2(5, 3), p2(50, 20), p2(20, 55));
    let mut one = TgaImage::new(64, 64, TgaFormat::Grayscale);
    let mut two = TgaImage::new(64, 64, TgaFormat::Grayscale);
    line_sweeping_v1(&mut one, a, b, c, &white);
    line_sweeping_v2(&mut two, a, b, c, &white);
    // deep interior pixels appear in the single-loop variant
    for y in 0..64 {
        for x in 0..64 {
            let deep = (-1..=1)
                .all(|dy| (-1..=1).all(|dx| inside(a, b, c, x + dx, y + dy)));
            if deep {
                assert!(marked(&one, x, y));
            }
        }
    }
    assert!(two.data.iter().any(|&v| v != 0));
}

#[test]
fn gouraud_sweep_shades_by_interpolated_intensity() {
    let mut img = TgaImage::new(64, 64, TgaFormat::RGB);
    let mut zb = ZbufferEx::new_filled(64, 64);
    line_sweeping_gouraud_shading(
        &mut img,
        &mut zb,
        p3(0, 0, 10),
        p3(40, 0, 10),
        p3(0, 40, 10),
        255,
        255,
        255,
    );
    // full intensity everywhere: covered pixels are white
    let c = img.get(5, 5).unwrap();
    assert_eq!((c.r, c.g, c.b), (255, 255, 255));
    assert_eq!(zb.get(5, 5), 10);

    let mut dark = TgaImage::new(64, 64, TgaFormat::RGB);
    let mut zb2 = ZbufferEx::new_filled(64, 64);
    line_sweeping_gouraud_shading(
        &mut dark,
        &mut zb2,
        p3(0, 0, 10),
        p3(40, 0, 10),
        p3(0, 40, 10),
        0,
        0,
        0,
    );
    // zero intensity: the pixel is written but black, and depth recorded
    assert_eq!(zb2.get(5, 5), 10);
    let c = dark.get(5, 5).unwrap();
    assert_eq!((c.r, c.g, c.b), (0, 0, 0));
}

#[test]
fn gouraud_sweep_skips_single_row_triangles() {
    let mut img = TgaImage::new(32, 32, TgaFormat::RGB);
    let mut zb = ZbufferEx::new_filled(32, 32);
    line_sweeping_gouraud_shading(
        &mut img,
        &mut zb,
        p3(1, 7, 10),
        p3(9, 7, 10),
        p3(20, 7, 10),
        255,
        255,
        255,
    );
    assert!(img.data.iter().all(|&v| v == 0));
}

#[test]
fn diffuse_fill_samples_the_texture() {
    let mut tex = TgaImage::new(2, 2, TgaFormat::RGB);
    tex.set(0, 0, &TgaColor::from_rgb(10, 20, 30));
    tex.set(1, 1, &TgaColor::from_rgb(200, 100, 50));
    let mut img = TgaImage::new(32, 32, TgaFormat::RGB);
    let mut zb = ZbufferEx::new_filled(32, 32);
    let pts = [p3(0, 0, 5), p3(20, 0, 5), p3(0, 20, 5)];
    let uvs = [p2(0, 0), p2(0, 0), p2(0, 0)];
    let r = barycentric_rasterization_diffuse(&mut img, &mut zb, pts, uvs, &tex, 255);
    assert!(r.is_ok());
    let c = img.get(2, 2).unwrap();
    assert_eq!((c.r, c.g, c.b), (10, 20, 30));
}

#[test]
fn shader_driven_fill_writes_color_and_depth() {
    let shader = FlatShader {
        verts: [
            Vec4i::new(0, 0, 100, 1),
            Vec4i::new(30, 0, 100, 1),
            Vec4i::new(0, 30, 100, 1),
        ],
        color: TgaColor::from_rgb(9, 8, 7),
    };
    let mut img = TgaImage::new(40, 40, TgaFormat::RGB);
    let mut zb = ZbufferEx::new_filled(40, 40);
    let pts = [shader.verts[0], shader.verts[1], shader.verts[2]];
    triangle(&mut img, &shader, &mut zb, pts);
    let c = img.get(3, 3).unwrap();
    assert_eq!((c.r, c.g, c.b), (9, 8, 7));
    // fragment depth is z/w clamped into [0, 255]
    assert_eq!(zb.get(3, 3), 100);
    // a pixel outside the triangle keeps the far sentinel
    assert_eq!(zb.get(39, 39), i32::MIN);
}

#[test]
fn gouraud_shader_blends_vertex_intensities() {
    let shader = GouraudShader {
        verts: [
            Vec4i::new(0, 0, 10, 1),
            Vec4i::new(20, 0, 10, 1),
            Vec4i::new(0, 20, 10, 1),
        ],
        intensities: [255, 255, 255],
        color: TgaColor::from_rgb(100, 100, 100),
    };
    let mut img = TgaImage::new(32, 32, TgaFormat::RGB);
    let mut zb = ZbufferEx::new_filled(32, 32);
    let pts = [shader.verts[0], shader.verts[1], shader.verts[2]];
    triangle(&mut img, &shader, &mut zb, pts);
    let c = img.get(1, 1).unwrap();
    assert_eq!((c.r, c.g, c.b), (100, 100, 100));
}

#[test]
fn shadow_shader_dims_occluded_fragments() {
    let verts = [
        Vec4i::new(0, 0, 50, 1),
        Vec4i::new(20, 0, 50, 1),
        Vec4i::new(0, 20, 50, 1),
    ];
    let base = |shadow_depth: i32| tinyrenderer::shader::ShadowShader {
        verts,
        light_space: [p3(1, 1, 10), p3(1, 1, 10), p3(1, 1, 10)],
        intensities: [255, 255, 255],
        color: TgaColor::from_rgb(200, 100, 50),
        shadow_buffer: vec![shadow_depth; 16],
        shadow_width: 4,
    };

    // the recorded depth is far behind the fragment: it is lit
    let lit = base(0);
    let mut img = TgaImage::new(32, 32, TgaFormat::RGB);
    let mut zb = ZbufferEx::new_filled(32, 32);
    triangle(&mut img, &lit, &mut zb, verts);
    let c = img.get(2, 2).unwrap();
    assert_eq!((c.r, c.g, c.b), (200, 100, 50));

    // something nearer to the light was recorded: the fragment keeps only
    // three tenths of its intensity
    let occluded = base(100);
    let mut img = TgaImage::new(32, 32, TgaFormat::RGB);
    let mut zb = ZbufferEx::new_filled(32, 32);
    triangle(&mut img, &occluded, &mut zb, verts);
    let c = img.get(2, 2).unwrap();
    assert_eq!((c.r, c.g, c.b), (60, 30, 15));
}

#[test]
fn shader_fill_rejects_equal_depth() {
    // the depth test is strict for the shader-driven filler too: a second
    // triangle at exactly the same depth loses every pixel
    let verts = [
        Vec4i::new(0, 0, 100, 1),
        Vec4i::new(30, 0, 100, 1),
        Vec4i::new(0, 30, 100, 1),
    ];
    let red = FlatShader { verts, color: TgaColor::from_rgb(255, 0, 0) };
    let blue = FlatShader { verts, color: TgaColor::from_rgb(0, 0, 255) };
    let mut img = TgaImage::new(40, 40, TgaFormat::RGB);
    let mut zb = ZbufferEx::new_filled(40, 40);
    triangle(&mut img, &red, &mut zb, verts);
    let after_red = img.data.clone();
    let depth_after_red = zb.buffer.clone();
    triangle(&mut img, &blue, &mut zb, verts);
    assert_eq!(img.data, after_red);
    assert_eq!(zb.buffer, depth_after_red);
}

#[test]
fn diffuse_fill_fails_loudly_on_an_out_of_bounds_sample() {
    let tex = TgaImage::new(2, 2, TgaFormat::RGB);
    let mut img = TgaImage::new(32, 32, TgaFormat::RGB);
    let mut zb = ZbufferEx::new_filled(32, 32);
    let pts = [p3(0, 0, 5), p3(20, 0, 5), p3(0, 20, 5)];
    // every blended texture position lands outside the 2x2 texture
    let uvs = [p2(5, 5), p2(5, 5), p2(5, 5)];
    let r = barycentric_rasterization_diffuse(&mut img, &mut zb, pts, uvs, &tex, 255);
    assert_eq!(r.unwrap_err(), ErrorKind::OutOfBounds);
    // the render aborted at the first winning pixel: no color was written
    assert!(img.data.iter().all(|&v| v == 0));
}

#[test]
fn perspective_division_scales_screen_positions() {
    // with w = 2 the screen triangle is half the size
    let shader = FlatShader {
        verts: [
            Vec4i::new(0, 0, 100, 2),
            Vec4i::new(60, 0, 100, 2),
            Vec4i::new(0, 60, 100, 2),
        ],
        color: TgaColor::from_rgb(1, 2, 3),
    };
    let mut img = TgaImage::new(64, 64, TgaFormat::RGB);
    let mut zb = ZbufferEx::new_filled(64, 64);
    triangle(&mut img, &shader, &mut zb, shader.verts);
    // inside the scaled triangle
    assert_eq!(img.get(2, 2).unwrap().r, 1);
    // outside it, beyond the halved extent
    assert_eq!(img.get(40, 2).unwrap().r, 0);
    // fragment depth is z/w = 50
    assert_eq!(zb.get(2, 2), 50);
}
