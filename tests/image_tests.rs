use tinyrender::image::{TGAColor, TGAFormat, TGAImage};

fn rgb(r: u8, g: u8, b: u8) -> TGAColor {
    TGAColor { r, g, b, a: 255 }
}

fn patterned(w: usize, h: usize, format: TGAFormat) -> TGAImage {
    let mut img = TGAImage::new(w, h, format);
    for y in 0..h {
        for x in 0..w {
            let v = (x * 31 + y * 17) as u8;
            img.set(x, y, TGAColor { r: v, g: v.wrapping_add(1), b: v.wrapping_mul(3), a: v ^ 0x55 });
        }
    }
    img
}

#[test]
fn new_image_is_zeroed_with_exact_length() {
    let img = TGAImage::new(5, 3, TGAFormat::RGB);
    assert_eq!(img.get_width(), 5);
    assert_eq!(img.get_height(), 3);
    assert_eq!(img.bytespp(), 3);
    assert_eq!(img.data().len(), 45);
    assert!(img.data().iter().all(|&b| b == 0));
    assert_eq!(TGAImage::new(2, 2, TGAFormat::GRAYSCALE).data().len(), 4);
    assert_eq!(TGAImage::new(2, 2, TGAFormat::RGBA).data().len(), 16);
}

#[test]
fn raw_is_bgra_order() {
    let c = TGAColor { r: 1, g: 2, b: 3, a: 4 };
    assert_eq!(c.raw(), [3, 2, 1, 4]);
}

#[test]
fn named_colors() {
    assert_eq!(TGAColor::white(), TGAColor { r: 255, g: 255, b: 255, a: 255 });
    assert_eq!(TGAColor::black(), TGAColor { r: 0, g: 0, b: 0, a: 255 });
    assert_eq!(TGAColor::red(), rgb(255, 0, 0));
    assert_eq!(TGAColor::green(), rgb(0, 255, 0));
    assert_eq!(TGAColor::blue(), rgb(0, 0, 255));
    assert_eq!(TGAColor::yellow(), rgb(255, 255, 0));
    assert_eq!(TGAColor::purple(), rgb(255, 0, 255));
    assert_eq!(TGAColor::clear(), TGAColor { r: 0, g: 0, b: 0, a: 0 });
}

#[test]
fn set_then_get_per_format() {
    let c = TGAColor { r: 10, g: 20, b: 30, a: 40 };
    let mut rgba = TGAImage::new(4, 4, TGAFormat::RGBA);
    assert!(rgba.set(1, 2, c));
    assert_eq!(rgba.get(1, 2), c);
    let off = (1 + 2 * 4) * 4;
    assert_eq!(&rgba.data()[off..off + 4], &[30, 20, 10, 40]);

    let mut rgb_img = TGAImage::new(4, 4, TGAFormat::RGB);
    rgb_img.set(3, 3, c);
    assert_eq!(rgb_img.get(3, 3), TGAColor { r: 10, g: 20, b: 30, a: 255 });

    let mut gray = TGAImage::new(4, 4, TGAFormat::GRAYSCALE);
    gray.set(0, 1, c);
    assert_eq!(gray.get(0, 1), TGAColor { r: 0, g: 0, b: 30, a: 0 });
    assert_eq!(gray.data()[4], 30);
}

#[test]
fn out_of_bounds_set_is_dropped_and_get_is_clear() {
    let mut img = patterned(3, 2, TGAFormat::RGB);
    let before = img.data().clone();
    assert!(!img.set(3, 0, TGAColor::white()));
    assert!(!img.set(0, 2, TGAColor::white()));
    assert_eq!(img.data(), &before);
    assert_eq!(img.get(3, 0), TGAColor::clear());
    assert_eq!(img.get(0, 7), TGAColor::clear());
}

#[test]
fn clear_zeroes_every_byte() {
    let mut img = patterned(3, 3, TGAFormat::RGBA);
    img.clear();
    assert_eq!(img.data().len(), 36);
    assert!(img.data().iter().all(|&b| b == 0));
}

#[test]
fn swap_exchanges_two_pixels() {
    let mut img = TGAImage::new(2, 1, TGAFormat::RGB);
    img.set(0, 0, rgb(1, 2, 3));
    img.set(1, 0, rgb(4, 5, 6));
    img.swap(0, 0, 1, 0);
    assert_eq!(img.get(0, 0), rgb(4, 5, 6));
    assert_eq!(img.get(1, 0), rgb(1, 2, 3));
}

#[test]
fn flip_horizontally_mirrors_columns() {
    let mut img = TGAImage::new(3, 2, TGAFormat::RGB);
    img.set(0, 0, rgb(1, 0, 0));
    img.set(2, 1, rgb(0, 2, 0));
    img.flip_horizontally();
    assert_eq!(img.get(2, 0), rgb(1, 0, 0));
    assert_eq!(img.get(0, 1), rgb(0, 2, 0));
    assert_eq!(img.get(0, 0), rgb(0, 0, 0));
}

#[test]
fn flip_vertically_mirrors_rows() {
    let mut img = TGAImage::new(2, 3, TGAFormat::GRAYSCALE);
    img.set(1, 0, TGAColor { r: 0, g: 0, b: 9, a: 0 });
    img.flip_vertically();
    assert_eq!(img.get(1, 2).b, 9);
    assert_eq!(img.get(1, 0).b, 0);
}

#[test]
fn flip_twice_restores_the_buffer() {
    for format in [TGAFormat::GRAYSCALE, TGAFormat::RGB, TGAFormat::RGBA] {
        for (w, h) in [(1, 1), (4, 3), (5, 2), (0, 3)] {
            let img = patterned(w, h, format);
            let mut f = patterned(w, h, format);
            f.flip_horizontally();
            f.flip_horizontally();
            assert_eq!(f.data(), img.data());
            f.flip_vertically();
            f.flip_vertically();
            assert_eq!(f.data(), img.data());
        }
    }
}

#[test]
fn flip_changes_an_asymmetric_buffer() {
    let img = patterned(4, 3, TGAFormat::RGB);
    let mut f = patterned(4, 3, TGAFormat::RGB);
    f.flip_horizontally();
    assert_ne!(f.data(), img.data());
    assert_eq!(f.get(0, 1), img.get(3, 1));
}

#[test]
fn scale_up_and_down_keeps_length_invariant() {
    let mut img = patterned(5, 4, TGAFormat::RGB);
    img.scale(9, 7);
    assert_eq!((img.get_width(), img.get_height()), (9, 7));
    assert_eq!(img.data().len(), 9 * 7 * 3);
    img.scale(5, 4);
    assert_eq!((img.get_width(), img.get_height()), (5, 4));
    assert_eq!(img.data().len(), 5 * 4 * 3);
}

#[test]
fn scale_identity_keeps_pixels() {
    let img = patterned(4, 3, TGAFormat::RGBA);
    let mut s = patterned(4, 3, TGAFormat::RGBA);
    s.scale(4, 3);
    assert_eq!(s.data(), img.data());
}

#[test]
fn scale_doubling_selects_by_error_accumulation() {
    // Two pixels wide doubled: target column t takes source ceil(t * 2 / 4);
    // column 3 would take source 2, past the last, and takes the last instead.
    let mut img = TGAImage::new(2, 1, TGAFormat::GRAYSCALE);
    img.set(0, 0, TGAColor { r: 0, g: 0, b: 10, a: 0 });
    img.set(1, 0, TGAColor { r: 0, g: 0, b: 20, a: 0 });
    img.scale(4, 2);
    assert_eq!(img.data(), &vec![10, 20, 20, 20, 10, 20, 20, 20]);
}

#[test]
fn scale_enlarging_leaves_no_empty_column() {
    let mut img = TGAImage::new(1, 1, TGAFormat::GRAYSCALE);
    img.set(0, 0, TGAColor { r: 0, g: 0, b: 5, a: 0 });
    img.scale(2, 1);
    assert_eq!(img.data(), &vec![5, 5]);
    let mut img = TGAImage::new(3, 2, TGAFormat::RGB);
    for y in 0..2 {
        for x in 0..3 {
            img.set(x, y, TGAColor { r: 1 + x as u8, g: 10 + y as u8, b: 7, a: 255 });
        }
    }
    img.scale(7, 5);
    for y in 0..5 {
        for x in 0..7 {
            let c = img.get(x, y);
            assert!(c.r >= 1 && c.r <= 3 && c.g >= 10 && c.g <= 11 && c.b == 7, "pixel ({}, {})", x, y);
        }
    }
}

#[test]
fn scale_halving_keeps_last_of_each_pair_of_rows() {
    let mut img = TGAImage::new(1, 4, TGAFormat::GRAYSCALE);
    for y in 0..4 {
        img.set(0, y, TGAColor { r: 0, g: 0, b: y as u8 + 1, a: 0 });
    }
    img.scale(1, 2);
    // target row r takes source row ((r + 1) * 4 - 1) / 2
    assert_eq!(img.data(), &vec![2, 4]);
}

#[test]
fn color_scaling_truncates_and_keeps_alpha() {
    let c = TGAColor { r: 200, g: 101, b: 3, a: 77 };
    assert_eq!(c.scaled(1, 2), TGAColor { r: 100, g: 50, b: 1, a: 77 });
    assert_eq!(c.scaled(5, 5), c);
    assert_eq!(c.scaled(0, 5), TGAColor { r: 0, g: 0, b: 0, a: 77 });
    assert_eq!(c.scaled(3, 2), TGAColor { r: 255, g: 151, b: 4, a: 77 });
}

#[test]
fn from_raw_parts_checks_length() {
    let img = TGAImage::from_raw_parts(2, 1, TGAFormat::RGB, vec![1, 2, 3, 4, 5, 6]).unwrap();
    assert_eq!(img.get(1, 0), TGAColor { r: 6, g: 5, b: 4, a: 255 });
    assert!(TGAImage::from_raw_parts(2, 1, TGAFormat::RGB, vec![1, 2, 3]).is_none());
    assert!(TGAImage::from_raw_parts(usize::MAX, 2, TGAFormat::RGBA, vec![]).is_none());
}

#[test]
fn bytes_per_pixel_of_formats() {
    assert_eq!(TGAFormat::GRAYSCALE.bytes_per_pixel(), 1);
    assert_eq!(TGAFormat::RGB.bytes_per_pixel(), 3);
    assert_eq!(TGAFormat::RGBA.bytes_per_pixel(), 4);
}
