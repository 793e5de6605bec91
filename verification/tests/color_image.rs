use tinyrenderer::error::ErrorKind;
use tinyrenderer::tga::{TgaColor, TgaFormat, TgaImage};

#[test]
fn color_constructors_fix_channels_and_format() {
    let z = TgaColor::zeros();
    assert_eq!((z.b, z.g, z.r, z.a), (0, 0, 0, 0));
    assert_eq!(z.format, TgaFormat::RGBA);

    let c = TgaColor::from_rgb(1, 2, 3);
    assert_eq!((c.b, c.g, c.r, c.a), (3, 2, 1, 0));
    assert_eq!(c.format, TgaFormat::RGB);

    let c = TgaColor::from_rgba(1, 2, 3, 4);
    assert_eq!((c.b, c.g, c.r, c.a), (3, 2, 1, 4));
    assert_eq!(c.format, TgaFormat::RGBA);

    let c = TgaColor::from_greyscale(9);
    assert_eq!((c.b, c.g, c.r, c.a), (9, 0, 0, 0));
    assert_eq!(c.format, TgaFormat::Grayscale);

    assert_eq!(TgaFormat::Grayscale.bytes_per_pixel(), 1);
    assert_eq!(TgaFormat::RGB.bytes_per_pixel(), 3);
    assert_eq!(TgaFormat::RGBA.bytes_per_pixel(), 4);

    let c = TgaColor::from_rgba(1, 2, 3, 4);
    assert_eq!(c.channel(0), 3);
    assert_eq!(c.channel(1), 2);
    assert_eq!(c.channel(2), 1);
    assert_eq!(c.channel(3), 4);
}

#[test]
fn intensity_scaling_truncates_each_channel() {
    let c = TgaColor::from_rgb(100, 200, 50);
    let half = c.mul_intensity(128, 255);
    // floor(channel * 128 / 255) per channel, channels stored B,G,R
    assert_eq!(half.b as u32, 50 * 128 / 255);
    assert_eq!(half.g as u32, 200 * 128 / 255);
    assert_eq!(half.r as u32, 100 * 128 / 255);
    assert_eq!(half.a, 0);
    assert_eq!(half.format, TgaFormat::RGB);
}

#[test]
fn intensity_scaling_clamps_to_unit_interval() {
    let c = TgaColor::from_rgb(10, 20, 30);
    let dark = c.mul_intensity(-7, 255);
    assert_eq!((dark.b, dark.g, dark.r), (0, 0, 0));
    let same = c.mul_intensity(400, 255);
    assert_eq!((same.b, same.g, same.r), (c.b, c.g, c.r));
}

#[test]
fn new_surface_is_zero_filled() {
    let img = TgaImage::new(4, 3, TgaFormat::RGB);
    assert_eq!(img.width, 4);
    assert_eq!(img.height, 3);
    assert_eq!(img.bytes_per_pixel, 3);
    assert_eq!(img.data.len(), 4 * 3 * 3);
    assert!(img.data.iter().all(|&b| b == 0));
}

#[test]
fn unset_surface_is_empty() {
    let img = TgaImage::unset();
    assert_eq!(img.width, 0);
    assert_eq!(img.height, 0);
    assert_eq!(img.bytes_per_pixel, 0);
    assert_eq!(img.data.len(), 0);
}

#[test]
fn set_then_get_round_trips_a_pixel() {
    let mut img = TgaImage::new(10, 10, TgaFormat::RGB);
    img.set(3, 4, &TgaColor::from_rgb(1, 2, 3));
    let c = img.get(3, 4).unwrap();
    assert_eq!((c.r, c.g, c.b), (1, 2, 3));
    assert_eq!(c.format, TgaFormat::RGB);
    // an untouched pixel stays zero
    let c0 = img.get(0, 0).unwrap();
    assert_eq!((c0.r, c0.g, c0.b), (0, 0, 0));
}

#[test]
fn out_of_bounds_write_is_ignored() {
    let mut img = TgaImage::new(5, 5, TgaFormat::Grayscale);
    let before = img.data.clone();
    img.set(5, 0, &TgaColor::from_greyscale(9));
    img.set(0, 5, &TgaColor::from_greyscale(9));
    img.set(-1, 2, &TgaColor::from_greyscale(9));
    img.set(2, -1, &TgaColor::from_greyscale(9));
    assert_eq!(img.data, before);
}

#[test]
fn out_of_bounds_read_fails_loudly() {
    let img = TgaImage::new(5, 5, TgaFormat::Grayscale);
    assert_eq!(img.get(5, 0).unwrap_err(), ErrorKind::OutOfBounds);
    assert_eq!(img.get(0, 5).unwrap_err(), ErrorKind::OutOfBounds);
    assert_eq!(img.get(-1, 0).unwrap_err(), ErrorKind::OutOfBounds);
    assert_eq!(img.get(0, -1).unwrap_err(), ErrorKind::OutOfBounds);
}

#[test]
fn vertical_flip_reverses_rows() {
    let mut img = TgaImage::new(2, 3, TgaFormat::Grayscale);
    for y in 0..3 {
        for x in 0..2 {
            img.set(x, y, &TgaColor::from_greyscale((10 * y + x) as u8));
        }
    }
    img.flip_vertically();
    for y in 0..3 {
        for x in 0..2 {
            let c = img.get(x, y).unwrap();
            assert_eq!(c.b as i32, 10 * (2 - y) + x);
        }
    }
}

#[test]
fn horizontal_flip_mirrors_each_row() {
    let mut img = TgaImage::new(3, 2, TgaFormat::Grayscale);
    for y in 0..2 {
        for x in 0..3 {
            img.set(x, y, &TgaColor::from_greyscale((10 * y + x) as u8));
        }
    }
    assert!(img.flip_horizontally().is_ok());
    for y in 0..2 {
        for x in 0..3 {
            let c = img.get(x, y).unwrap();
            assert_eq!(c.b as i32, 10 * y + (2 - x));
        }
    }
}

#[test]
fn double_flip_restores_the_image() {
    let mut img = TgaImage::new(4, 5, TgaFormat::RGB);
    for y in 0..5 {
        for x in 0..4 {
            img.set(x, y, &TgaColor::from_rgb((x + 4 * y) as u8, x as u8, y as u8));
        }
    }
    let before = img.data.clone();
    img.flip_vertically();
    img.flip_vertically();
    assert_eq!(img.data, before);
    assert!(img.flip_horizontally().is_ok());
    assert!(img.flip_horizontally().is_ok());
    assert_eq!(img.data, before);
}
