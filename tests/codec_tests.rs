use tinyrender::codec::{TGAHeader, TgaError};
use tinyrender::image::{TGAColor, TGAFormat, TGAImage};

const SIGNATURE: &[u8] = b"TRUEVISION-XFILE.\0";

fn gray_image(values: &[u8], w: usize, h: usize) -> TGAImage {
    let mut img = TGAImage::new(w, h, TGAFormat::GRAYSCALE);
    for (i, &v) in values.iter().enumerate() {
        img.set(i % w, i / w, TGAColor { r: 0, g: 0, b: v, a: 0 });
    }
    img
}

fn header(code: u8, w: u16, h: u16, bits: u8, descriptor: u8) -> Vec<u8> {
    let mut out = Vec::new();
    TGAHeader {
        id_length: 0,
        color_map_type: 0,
        data_type_code: code,
        color_map_origin: 0,
        color_map_length: 0,
        color_map_depth: 0,
        x_origin: 0,
        y_origin: 0,
        width: w,
        height: h,
        bits_per_pixel: bits,
        image_descriptor: descriptor,
    }
    .write_to(&mut out);
    out
}

fn mixed(w: usize, h: usize, format: TGAFormat) -> TGAImage {
    let mut img = TGAImage::new(w, h, format);
    for y in 0..h {
        for x in 0..w {
            let v = if (x / 3) % 2 == 0 { 7 } else { (x * 13 + y * 5) as u8 };
            img.set(x, y, TGAColor { r: v, g: v / 2, b: v.wrapping_add(9), a: 200 });
        }
    }
    img
}

fn assert_same(a: &TGAImage, b: &TGAImage) {
    assert_eq!(a.get_width(), b.get_width());
    assert_eq!(a.get_height(), b.get_height());
    assert_eq!(a.get_format(), b.get_format());
    assert_eq!(a.data(), b.data());
}

#[test]
fn header_bytes_are_little_endian_in_field_order() {
    let h = header(2, 0x1234, 0x0302, 24, 0x20);
    assert_eq!(h.len(), 18);
    assert_eq!(h, vec![0, 0, 2, 0, 0, 0, 0, 0, 0, 0, 0, 0, 0x34, 0x12, 0x02, 0x03, 24, 0x20]);
    let back = TGAHeader::from_bytes(&h);
    assert_eq!(back.width, 0x1234);
    assert_eq!(back.height, 0x0302);
    assert_eq!(back.bits_per_pixel, 24);
}

#[test]
fn raw_encoding_layout() {
    let img = gray_image(&[1, 2, 3, 4], 2, 2);
    let bytes = img.encode(false);
    assert_eq!(&bytes[..18], &header(3, 2, 2, 8, 0x20)[..]);
    assert_eq!(&bytes[18..22], &[1, 2, 3, 4]);
    assert_eq!(&bytes[22..30], &[0; 8]);
    assert_eq!(&bytes[30..], SIGNATURE);
    assert_eq!(bytes.len(), 18 + 4 + 26);
}

#[test]
fn rgb_data_type_codes() {
    let img = TGAImage::new(1, 1, TGAFormat::RGB);
    assert_eq!(img.encode(false)[2], 2);
    assert_eq!(img.encode(true)[2], 10);
    assert_eq!(img.encode(true)[16], 24);
    let gray = TGAImage::new(1, 1, TGAFormat::GRAYSCALE);
    assert_eq!(gray.encode(true)[2], 11);
}

#[test]
fn rle_run_then_single_raw() {
    let img = gray_image(&[5, 5, 5, 7], 4, 1);
    let bytes = img.encode(true);
    assert_eq!(&bytes[18..22], &[130, 5, 0, 7]);
    assert_eq!(&bytes[22..], &[&[0u8; 8][..], SIGNATURE].concat()[..]);
}

#[test]
fn rle_raw_packet_gives_up_pixel_before_a_run() {
    let img = gray_image(&[1, 2, 3, 3], 4, 1);
    let bytes = img.encode(true);
    assert_eq!(&bytes[18..24], &[1, 1, 2, 129, 3, 0]);
}

#[test]
fn rle_packets_are_capped_at_128_pixels() {
    let img = gray_image(&[9; 300], 300, 1);
    let bytes = img.encode(true);
    assert_eq!(&bytes[18..24], &[255, 9, 255, 9, 171, 9]);
    let distinct: Vec<u8> = (0..200).map(|i| (i % 2 * 100 + i / 2) as u8).collect();
    let img = gray_image(&distinct, 200, 1);
    let bytes = img.encode(true);
    assert_eq!(bytes[18], 127);
    assert_eq!(bytes[18 + 1 + 128], 71);
}

#[test]
fn raw_round_trip() {
    for format in [TGAFormat::GRAYSCALE, TGAFormat::RGB, TGAFormat::RGBA] {
        let img = mixed(7, 5, format);
        let back = TGAImage::decode(&img.encode(false)).unwrap();
        assert_same(&img, &back);
    }
}

#[test]
fn rle_round_trip_same_distinct_and_mixed() {
    let same = gray_image(&[42; 400], 20, 20);
    let distinct: Vec<u8> = (0..=255u8).collect();
    let distinct = gray_image(&distinct, 16, 16);
    for img in [same, distinct, mixed(33, 9, TGAFormat::RGB), mixed(130, 2, TGAFormat::RGBA)] {
        let back = TGAImage::decode(&img.encode(true)).unwrap();
        assert_same(&img, &back);
    }
}

#[test]
fn rle_compresses_uniform_image() {
    let img = gray_image(&[42; 400], 20, 20);
    assert!(img.encode(true).len() < img.encode(false).len());
}

#[test]
fn decode_flips_bottom_up_rows() {
    let mut bytes = header(3, 1, 2, 8, 0x00);
    bytes.extend_from_slice(&[1, 2]);
    let img = TGAImage::decode(&bytes).unwrap();
    assert_eq!(img.data(), &vec![2, 1]);
}

#[test]
fn decode_flips_right_to_left_rows() {
    let mut bytes = header(3, 2, 1, 8, 0x30);
    bytes.extend_from_slice(&[1, 2]);
    let img = TGAImage::decode(&bytes).unwrap();
    assert_eq!(img.data(), &vec![2, 1]);
}

#[test]
fn decode_rejects_bad_depth_and_dimensions() {
    let mut bytes = header(2, 1, 1, 16, 0x20);
    bytes.extend_from_slice(&[0, 0]);
    assert_eq!(TGAImage::decode(&bytes).err(), Some(TgaError::BadFormat));
    let bytes = header(2, 0, 1, 24, 0x20);
    assert_eq!(TGAImage::decode(&bytes).err(), Some(TgaError::BadFormat));
    let bytes = header(2, 1, 0, 24, 0x20);
    assert_eq!(TGAImage::decode(&bytes).err(), Some(TgaError::BadFormat));
}

#[test]
fn decode_rejects_unknown_data_type() {
    let mut bytes = header(1, 1, 1, 8, 0x20);
    bytes.push(0);
    assert_eq!(TGAImage::decode(&bytes).err(), Some(TgaError::BadFormat));
}

#[test]
fn decode_reports_truncated_input() {
    assert_eq!(TGAImage::decode(&[0; 10]).err(), Some(TgaError::Truncated));
    let mut bytes = header(2, 2, 2, 24, 0x20);
    bytes.extend_from_slice(&[0; 11]);
    assert_eq!(TGAImage::decode(&bytes).err(), Some(TgaError::Truncated));
    let mut bytes = header(11, 2, 1, 8, 0x20);
    bytes.extend_from_slice(&[0, 5]);
    assert_eq!(TGAImage::decode(&bytes).err(), Some(TgaError::Truncated));
}

#[test]
fn decode_reports_excess_pixels() {
    let mut bytes = header(11, 2, 1, 8, 0x20);
    bytes.extend_from_slice(&[130, 5]);
    assert_eq!(TGAImage::decode(&bytes).err(), Some(TgaError::ExcessPixels));
    let mut bytes = header(11, 2, 1, 8, 0x20);
    bytes.extend_from_slice(&[2, 1, 2, 3]);
    assert_eq!(TGAImage::decode(&bytes).err(), Some(TgaError::ExcessPixels));
}

#[test]
fn decode_rle_mixed_packets() {
    let mut bytes = header(11, 5, 1, 8, 0x20);
    bytes.extend_from_slice(&[129, 4, 2, 7, 8, 9]);
    let img = TGAImage::decode(&bytes).unwrap();
    assert_eq!(img.data(), &vec![4, 4, 7, 8, 9]);
}
