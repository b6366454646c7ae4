use tinyrender::image::{TGAColor, TGAFormat, TGAImage};
use tinyrender::line::{draw_line, ScreenPoint};
use tinyrender::triangle::{draw_triangle, Direction, TriangleVertex, TEX_ONE, UNIT};

const UP: Direction = Direction { x: 0, y: 0, z: UNIT as i16 };

fn vertex(x: u16, y: u16, z: i32) -> TriangleVertex {
    TriangleVertex { x, y, z, tex_u: 0, tex_v: 0, normal: UP }
}

fn set_pixels(img: &TGAImage) -> Vec<(usize, usize)> {
    let mut out = Vec::new();
    for y in 0..img.get_height() {
        for x in 0..img.get_width() {
            if img.get(x, y) != TGAColor::black() {
                out.push((x, y));
            }
        }
    }
    out
}

#[test]
fn plain_horizontal_line_sets_exactly_its_pixels() {
    let mut img = TGAImage::new(8, 8, TGAFormat::RGB);
    draw_line(ScreenPoint { x: 0, y: 0 }, ScreenPoint { x: 4, y: 0 }, &mut img, TGAColor::red(), false);
    assert_eq!(set_pixels(&img), vec![(0, 0), (1, 0), (2, 0), (3, 0), (4, 0)]);
}

#[test]
fn plain_line_is_symmetric_in_endpoints() {
    let mut a = TGAImage::new(8, 8, TGAFormat::RGB);
    let mut b = TGAImage::new(8, 8, TGAFormat::RGB);
    draw_line(ScreenPoint { x: 1, y: 6 }, ScreenPoint { x: 3, y: 0 }, &mut a, TGAColor::white(), false);
    draw_line(ScreenPoint { x: 3, y: 0 }, ScreenPoint { x: 1, y: 6 }, &mut b, TGAColor::white(), false);
    assert_eq!(a.data(), b.data());
    // steep: one pixel per row, no gaps
    let px = set_pixels(&a);
    assert_eq!(px.len(), 7);
    for y in 0..7 {
        assert!(px.iter().any(|&(_, py)| py == y));
    }
}

#[test]
fn plain_diagonal_interpolation() {
    let mut img = TGAImage::new(8, 8, TGAFormat::RGB);
    draw_line(ScreenPoint { x: 0, y: 0 }, ScreenPoint { x: 3, y: 3 }, &mut img, TGAColor::white(), false);
    // y = trunc(3 * x / 4)
    assert_eq!(set_pixels(&img), vec![(0, 0), (1, 0), (2, 1), (3, 2)]);
}

#[test]
fn line_writes_outside_the_buffer_are_dropped() {
    let mut img = TGAImage::new(3, 3, TGAFormat::RGB);
    draw_line(ScreenPoint { x: 0, y: 1 }, ScreenPoint { x: 9, y: 1 }, &mut img, TGAColor::white(), false);
    assert_eq!(set_pixels(&img), vec![(0, 1), (1, 1), (2, 1)]);
}

#[test]
fn antialiased_line_splits_coverage() {
    let mut img = TGAImage::new(6, 6, TGAFormat::RGB);
    let c = TGAColor { r: 200, g: 100, b: 40, a: 255 };
    draw_line(ScreenPoint { x: 0, y: 0 }, ScreenPoint { x: 4, y: 2 }, &mut img, c, true);
    // at x = 1 the exact y is 0.5: both rows get half the color
    assert_eq!(img.get(1, 0), TGAColor { r: 100, g: 50, b: 20, a: 255 });
    assert_eq!(img.get(1, 1), TGAColor { r: 100, g: 50, b: 20, a: 255 });
    // at x = 2 the exact y is 1: full color
    assert_eq!(img.get(2, 1), c);
    assert_eq!(img.get(4, 2), c);
}

#[test]
fn antialiased_single_point() {
    let mut img = TGAImage::new(4, 4, TGAFormat::RGB);
    draw_line(ScreenPoint { x: 2, y: 3 }, ScreenPoint { x: 2, y: 3 }, &mut img, TGAColor::white(), true);
    assert_eq!(set_pixels(&img), vec![(2, 3)]);
}

fn render(img: &mut TGAImage, zbuf: &mut Vec<i64>, tri: [TriangleVertex; 3], color: TGAColor) {
    let tex = TGAImage::new(1, 1, TGAFormat::RGB);
    draw_triangle(&tri[0], &tri[1], &tri[2], &UP, img, zbuf, &tex, &color, false);
}

#[test]
fn right_triangle_covers_its_half_of_the_square() {
    let mut img = TGAImage::new(12, 12, TGAFormat::RGB);
    let mut zbuf = vec![i64::MIN; 144];
    let green = TGAColor::green();
    render(&mut img, &mut zbuf, [vertex(0, 0, 5), vertex(10, 0, 5), vertex(0, 10, 5)], green);
    for y in 0..10 {
        for x in 0..10 - y {
            assert_eq!(img.get(x, y), green, "pixel ({}, {})", x, y);
        }
    }
    assert_ne!(img.get(9, 9), green);
    assert_eq!(zbuf[0], 5);
    assert_eq!(zbuf[9 + 9 * 12], i64::MIN);
}

#[test]
fn degenerate_triangle_draws_nothing() {
    let mut img = TGAImage::new(8, 8, TGAFormat::RGB);
    let mut zbuf = vec![i64::MIN; 64];
    render(&mut img, &mut zbuf, [vertex(0, 0, 1), vertex(3, 3, 1), vertex(6, 6, 1)], TGAColor::white());
    assert!(img.data().iter().all(|&b| b == 0));
}

#[test]
fn nearer_triangle_wins_in_either_order() {
    let far = [vertex(0, 0, 10), vertex(7, 0, 10), vertex(0, 7, 10)];
    let near = [vertex(0, 0, 20), vertex(7, 0, 20), vertex(0, 7, 20)];
    let mut a = TGAImage::new(8, 8, TGAFormat::RGB);
    let mut za = vec![i64::MIN; 64];
    render(&mut a, &mut za, far, TGAColor::blue());
    render(&mut a, &mut za, near, TGAColor::red());
    let mut b = TGAImage::new(8, 8, TGAFormat::RGB);
    let mut zb = vec![i64::MIN; 64];
    render(&mut b, &mut zb, near, TGAColor::red());
    render(&mut b, &mut zb, far, TGAColor::blue());
    assert_eq!(a.get(1, 1), TGAColor::red());
    assert_eq!(a.data(), b.data());
    assert_eq!(za, zb);
}

#[test]
fn depth_is_interpolated_with_weights_of_the_matching_corners() {
    // a = (0,0) depth 0, b = (8,0) depth 800, c = (0,8) depth 80:
    // at (4, 2) the weights are a 1/4, b 1/2, c 1/4.
    let mut img = TGAImage::new(10, 10, TGAFormat::RGB);
    let mut zbuf = vec![i64::MIN; 100];
    render(&mut img, &mut zbuf, [vertex(0, 0, 0), vertex(8, 0, 800), vertex(0, 8, 80)], TGAColor::white());
    assert_eq!(zbuf[4 + 2 * 10], 420);
}

#[test]
fn back_facing_pixels_are_skipped() {
    let mut img = TGAImage::new(8, 8, TGAFormat::RGB);
    let mut zbuf = vec![i64::MIN; 64];
    let tex = TGAImage::new(1, 1, TGAFormat::RGB);
    let down = Direction { x: 0, y: 0, z: -(UNIT as i16) };
    let (a, b, c) = (vertex(0, 0, 1), vertex(6, 0, 1), vertex(0, 6, 1));
    draw_triangle(&a, &b, &c, &down, &mut img, &mut zbuf, &tex, &TGAColor::white(), false);
    assert!(img.data().iter().all(|&b| b == 0));
}

#[test]
fn half_intensity_halves_the_color() {
    let mut img = TGAImage::new(8, 8, TGAFormat::RGB);
    let mut zbuf = vec![i64::MIN; 64];
    let tex = TGAImage::new(1, 1, TGAFormat::RGB);
    let half = Direction { x: 0, y: 0, z: (UNIT / 2) as i16 };
    let (a, b, c) = (vertex(0, 0, 1), vertex(6, 0, 1), vertex(0, 6, 1));
    draw_triangle(&a, &b, &c, &half, &mut img, &mut zbuf, &tex, &TGAColor::white(), false);
    assert_eq!(img.get(1, 1), TGAColor { r: 127, g: 127, b: 127, a: 255 });
}

#[test]
fn texture_is_sampled_at_interpolated_coordinates() {
    let mut tex = TGAImage::new(2, 2, TGAFormat::RGB);
    tex.set(0, 0, TGAColor::red());
    tex.set(1, 0, TGAColor::green());
    tex.set(0, 1, TGAColor::blue());
    tex.set(1, 1, TGAColor::yellow());
    let t = TEX_ONE as u32;
    let a = TriangleVertex { tex_u: 0, tex_v: 0, ..vertex(0, 0, 1) };
    let b = TriangleVertex { tex_u: t - 1, tex_v: 0, ..vertex(8, 0, 1) };
    let c = TriangleVertex { tex_u: 0, tex_v: t - 1, ..vertex(0, 8, 1) };
    let mut img = TGAImage::new(10, 10, TGAFormat::RGB);
    let mut zbuf = vec![i64::MIN; 100];
    draw_triangle(&a, &b, &c, &UP, &mut img, &mut zbuf, &tex, &TGAColor::white(), true);
    assert_eq!(img.get(0, 0), TGAColor::red());
    assert_eq!(img.get(7, 0), TGAColor::green());
    assert_eq!(img.get(0, 7), TGAColor::blue());
}

#[test]
fn short_depth_buffer_stops_the_scan() {
    let mut img = TGAImage::new(8, 8, TGAFormat::RGB);
    let mut zbuf = vec![i64::MIN; 8];
    render(&mut img, &mut zbuf, [vertex(0, 0, 1), vertex(6, 0, 1), vertex(0, 6, 1)], TGAColor::white());
    // only row 0 has depth entries
    assert_eq!(img.get(3, 0), TGAColor::white());
    assert_eq!(img.get(1, 1), TGAColor::black());
    assert!(img.data()[8 * 3..].iter().all(|&b| b == 0));
}
