use tinyrenderer::bresenham::{line_segment_v1, line_segment_v2, line_segment_v3};
use tinyrenderer::tga::{TgaColor, TgaFormat, TgaImage};

fn drawn_set(img: &TgaImage) -> Vec<(i32, i32)> {
    let mut v = Vec::new();
    for y in 0..img.height {
        for x in 0..img.width {
            let c = img.get(x, y).unwrap();
            if c.b != 0 {
                v.push((x, y));
            }
        }
    }
    v
}

#[test]
fn line_drawer_is_symmetric_in_its_endpoints() {
    let white = TgaColor::from_greyscale(255);
    let cases = [
        (13, 20, 80, 40),
        (0, 0, 99, 99),
        (5, 90, 60, 3),
        (7, 7, 7, 7),
        (0, 50, 99, 50),
        (50, 0, 50, 99),
        (2, 3, 9, 80),
    ];
    for &(x0, y0, x1, y1) in cases.iter() {
        let mut a = TgaImage::new(100, 100, TgaFormat::Grayscale);
        let mut b = TgaImage::new(100, 100, TgaFormat::Grayscale);
        line_segment_v3(&mut a, x0, y0, x1, y1, &white);
        line_segment_v3(&mut b, x1, y1, x0, y0, &white);
        assert_eq!(a.data, b.data);
    }
}

#[test]
fn line_covers_every_major_column_exactly_once() {
    let white = TgaColor::from_greyscale(255);
    let mut img = TgaImage::new(100, 100, TgaFormat::Grayscale);
    line_segment_v3(&mut img, 13, 20, 80, 40, &white);
    // both endpoints are set
    assert_eq!(img.get(13, 20).unwrap().b, 255);
    assert_eq!(img.get(80, 40).unwrap().b, 255);
    // no gaps: each x in [13, 80] has exactly one drawn y
    for x in 13..=80 {
        let mut ys = Vec::new();
        for y in 0..100 {
            if img.get(x, y).unwrap().b != 0 {
                ys.push(y);
            }
        }
        assert_eq!(ys.len(), 1, "column {} should hold exactly one pixel", x);
    }
    // nothing outside the covered columns
    for (x, _) in drawn_set(&img) {
        assert!((13..=80).contains(&x));
    }
}

#[test]
fn steep_line_covers_every_major_row_exactly_once() {
    let white = TgaColor::from_greyscale(255);
    let mut img = TgaImage::new(100, 100, TgaFormat::Grayscale);
    line_segment_v3(&mut img, 20, 13, 40, 80, &white);
    for y in 13..=80 {
        let mut xs = Vec::new();
        for x in 0..100 {
            if img.get(x, y).unwrap().b != 0 {
                xs.push(x);
            }
        }
        assert_eq!(xs.len(), 1, "row {} should hold exactly one pixel", y);
    }
}

#[test]
fn degenerate_line_draws_its_single_pixel() {
    let white = TgaColor::from_greyscale(255);
    let mut img = TgaImage::new(10, 10, TgaFormat::Grayscale);
    line_segment_v3(&mut img, 4, 5, 4, 5, &white);
    assert_eq!(drawn_set(&img), vec![(4, 5)]);
}

#[test]
fn parametric_drawer_marks_both_ends_of_a_short_line() {
    let white = TgaColor::from_greyscale(255);
    let mut img = TgaImage::new(100, 100, TgaFormat::Grayscale);
    line_segment_v1(&mut img, 10, 10, 20, 15, &white);
    assert_eq!(img.get(10, 10).unwrap().b, 255);
    // the 100 samples stop one step short of the far endpoint but cover
    // every other column of a line shorter than 100 columns
    assert_eq!(img.get(20, 15).unwrap().b, 0);
    for x in 10..20 {
        let mut found = false;
        for y in 0..100 {
            if img.get(x, y).unwrap().b != 0 {
                found = true;
            }
        }
        assert!(found, "column {} missed by the parametric samples", x);
    }
}

#[test]
fn parametric_drawer_truncates_toward_zero_on_reversed_lines() {
    // from (1,0) to (0,0) every sample offset lies in (-1, 0], which a
    // float-to-integer cast truncates to 0: only (1,0) is drawn
    let white = TgaColor::from_greyscale(255);
    let mut img = TgaImage::new(10, 10, TgaFormat::Grayscale);
    line_segment_v1(&mut img, 1, 0, 0, 0, &white);
    assert_eq!(img.get(1, 0).unwrap().b, 255);
    assert_eq!(img.get(0, 0).unwrap().b, 0);
}

#[test]
fn interpolating_drawer_truncates_toward_zero_below_the_axis() {
    // the line from (0,0) toward (4,-2) dips to exactly -0.5 at column 1,
    // which truncates to row 0; the later columns leave the surface
    let white = TgaColor::from_greyscale(255);
    let mut img = TgaImage::new(10, 10, TgaFormat::Grayscale);
    line_segment_v2(&mut img, 0, 0, 4, -2, &white);
    assert_eq!(drawn_set(&img), vec![(0, 0), (1, 0)]);
}

#[test]
fn interpolating_drawer_covers_columns_up_to_the_excluded_end() {
    let white = TgaColor::from_greyscale(255);
    let mut img = TgaImage::new(100, 100, TgaFormat::Grayscale);
    line_segment_v2(&mut img, 13, 20, 80, 40, &white);
    assert_eq!(img.get(13, 20).unwrap().b, 255);
    // the right endpoint is excluded by this variant
    assert_eq!(img.get(80, 40).unwrap().b, 0);
    for x in 13..80 {
        let mut count = 0;
        for y in 0..100 {
            if img.get(x, y).unwrap().b != 0 {
                count += 1;
            }
        }
        assert_eq!(count, 1, "column {} should hold exactly one pixel", x);
    }
}
