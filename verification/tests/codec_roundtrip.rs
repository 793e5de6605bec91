use tinyrenderer::codec::{decode_tga, encode_tga};
use tinyrenderer::error::ErrorKind;
use tinyrenderer::mesh::resolve_face_vertex;
use tinyrenderer::tga::{TgaColor, TgaFormat, TgaImage};

fn sample_image() -> TgaImage {
    let mut img = TgaImage::new(5, 4, TgaFormat::RGB);
    for y in 0..4 {
        for x in 0..5 {
            // mix long runs (row 0 constant) with distinct pixels
            let c = if y == 0 {
                TgaColor::from_rgb(7, 7, 7)
            } else {
                TgaColor::from_rgb((x * 40) as u8, (y * 60) as u8, (x + y) as u8)
            };
            img.set(x, y, &c);
        }
    }
    img
}

#[test]
fn raw_mode_round_trips_byte_identically() {
    let img = sample_image();
    let bytes = encode_tga(&img, false);
    let back = decode_tga(&bytes).unwrap();
    assert_eq!(back.width, img.width);
    assert_eq!(back.height, img.height);
    assert_eq!(back.bytes_per_pixel, img.bytes_per_pixel);
    assert_eq!(back.data, img.data);
}

#[test]
fn rle_mode_round_trips_byte_identically() {
    let img = sample_image();
    let bytes = encode_tga(&img, true);
    let back = decode_tga(&bytes).unwrap();
    assert_eq!(back.width, img.width);
    assert_eq!(back.height, img.height);
    assert_eq!(back.bytes_per_pixel, img.bytes_per_pixel);
    assert_eq!(back.data, img.data);
}

#[test]
fn rle_compresses_constant_images_and_still_round_trips() {
    let mut img = TgaImage::new(64, 64, TgaFormat::Grayscale);
    for y in 0..64 {
        for x in 0..64 {
            img.set(x, y, &TgaColor::from_greyscale(42));
        }
    }
    let rle = encode_tga(&img, true);
    let raw = encode_tga(&img, false);
    assert!(rle.len() < raw.len());
    let back = decode_tga(&rle).unwrap();
    assert_eq!(back.data, img.data);
}

#[test]
fn rle_round_trips_runs_longer_than_one_packet() {
    // 300 equal pixels force more than one 128-pixel repetition packet
    let mut img = TgaImage::new(300, 1, TgaFormat::Grayscale);
    for x in 0..300 {
        img.set(x, 0, &TgaColor::from_greyscale(9));
    }
    let bytes = encode_tga(&img, true);
    let back = decode_tga(&bytes).unwrap();
    assert_eq!(back.data, img.data);
}

#[test]
fn rgba_round_trips_in_both_modes() {
    let mut img = TgaImage::new(3, 3, TgaFormat::RGBA);
    for y in 0..3 {
        for x in 0..3 {
            img.set(x, y, &TgaColor::from_rgba(x as u8, y as u8, 9, (x * y) as u8));
        }
    }
    for rle in [false, true] {
        let back = decode_tga(&encode_tga(&img, rle)).unwrap();
        assert_eq!(back.data, img.data, "mode rle={}", rle);
    }
}

#[test]
fn encoded_files_carry_header_and_footer() {
    let img = sample_image();
    let bytes = encode_tga(&img, false);
    assert_eq!(bytes[0], 0); // no id field
    assert_eq!(bytes[2], 2); // raw true-color
    assert_eq!(bytes[12], 5); // width, little endian
    assert_eq!(bytes[13], 0);
    assert_eq!(bytes[14], 4); // height
    assert_eq!(bytes[15], 0);
    assert_eq!(bytes[16], 24); // bits per pixel
    assert_eq!(bytes[17], 0x20); // origin at top
    let tail = &bytes[bytes.len() - 26..];
    assert_eq!(&tail[..8], &[0; 8]);
    assert_eq!(&tail[8..], b"TRUEVISION-XFILE.\0");
    let rle_bytes = encode_tga(&img, true);
    assert_eq!(rle_bytes[2], 10); // run-length true-color
    let grey = TgaImage::new(2, 2, TgaFormat::Grayscale);
    assert_eq!(encode_tga(&grey, false)[2], 3);
    assert_eq!(encode_tga(&grey, true)[2], 11);
}

#[test]
fn empty_image_encodes_but_reads_back_as_malformed() {
    // a zero-sized surface can be written, but its header announces zero
    // dimensions, which the decoder rejects
    let img = TgaImage::new(0, 0, TgaFormat::RGB);
    let bytes = encode_tga(&img, false);
    assert_eq!(decode_tga(&bytes).unwrap_err(), ErrorKind::MalformedHeader);
}

#[test]
fn truncated_input_fails_with_io_failure() {
    assert_eq!(decode_tga(&[]).unwrap_err(), ErrorKind::IoFailure);
    assert_eq!(decode_tga(&[0u8; 17]).unwrap_err(), ErrorKind::IoFailure);
}

#[test]
fn zero_dimensions_fail_with_malformed_header() {
    let mut hdr = [0u8; 18];
    hdr[2] = 2;
    hdr[12] = 0; // width 0
    hdr[14] = 4;
    hdr[16] = 24;
    assert_eq!(decode_tga(&hdr).unwrap_err(), ErrorKind::MalformedHeader);
}

#[test]
fn bad_channel_depth_fails_with_malformed_header() {
    let mut hdr = [0u8; 18];
    hdr[2] = 2;
    hdr[12] = 4;
    hdr[14] = 4;
    hdr[16] = 16; // two bytes per pixel is unsupported
    assert_eq!(decode_tga(&hdr).unwrap_err(), ErrorKind::MalformedHeader);
}

#[test]
fn unknown_type_code_fails_with_unsupported_codec() {
    let mut hdr = [0u8; 18];
    hdr[2] = 7;
    hdr[12] = 2;
    hdr[14] = 2;
    hdr[16] = 8;
    assert_eq!(decode_tga(&hdr).unwrap_err(), ErrorKind::UnsupportedCodec);
}

#[test]
fn short_raw_payload_fails_with_io_failure() {
    let mut b = vec![0u8; 18 + 3];
    b[2] = 2;
    b[12] = 2;
    b[14] = 2;
    b[16] = 24; // needs 12 payload bytes, only 3 present
    assert_eq!(decode_tga(&b).unwrap_err(), ErrorKind::IoFailure);
}

#[test]
fn overrunning_rle_packet_fails_with_io_failure() {
    let mut b = vec![0u8; 18];
    b[2] = 11;
    b[12] = 1;
    b[14] = 1;
    b[16] = 8;
    // a literal packet announcing two pixels for a one-pixel image
    b.push(1);
    b.push(5);
    b.push(6);
    assert_eq!(decode_tga(&b).unwrap_err(), ErrorKind::IoFailure);
}

#[test]
fn decoder_flips_bottom_up_files() {
    // descriptor 0 means origin at bottom: rows come back flipped
    let mut b = vec![0u8; 18];
    b[2] = 3;
    b[12] = 1;
    b[14] = 2;
    b[16] = 8;
    b[17] = 0;
    b.push(11); // stored row 0
    b.push(22); // stored row 1
    let img = decode_tga(&b).unwrap();
    assert_eq!(img.get(0, 0).unwrap().b, 22);
    assert_eq!(img.get(0, 1).unwrap().b, 11);
}

#[test]
fn decoder_honors_right_to_left_storage() {
    let mut b = vec![0u8; 18];
    b[2] = 3;
    b[12] = 2;
    b[14] = 1;
    b[16] = 8;
    b[17] = 0x20 | 0x10;
    b.push(11);
    b.push(22);
    let img = decode_tga(&b).unwrap();
    assert_eq!(img.get(0, 0).unwrap().b, 22);
    assert_eq!(img.get(1, 0).unwrap().b, 11);
}

#[test]
fn face_indices_are_validated_and_decremented() {
    assert_eq!(resolve_face_vertex(1, 1, 1, 3, 2, 2).unwrap(), (0, 0, 0));
    assert_eq!(resolve_face_vertex(3, 2, 1, 3, 2, 2).unwrap(), (2, 1, 0));
    // a zero index is invalid: the format is one-based
    assert_eq!(
        resolve_face_vertex(0, 1, 1, 3, 2, 2).unwrap_err(),
        ErrorKind::MeshParseFailure
    );
    // an index beyond the arrays seen so far is rejected
    assert_eq!(
        resolve_face_vertex(4, 1, 1, 3, 2, 2).unwrap_err(),
        ErrorKind::MeshParseFailure
    );
    assert_eq!(
        resolve_face_vertex(1, 3, 1, 3, 2, 2).unwrap_err(),
        ErrorKind::MeshParseFailure
    );
    assert_eq!(
        resolve_face_vertex(1, 1, 9, 3, 2, 2).unwrap_err(),
        ErrorKind::MeshParseFailure
    );
}
