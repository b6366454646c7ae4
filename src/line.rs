//! Line rasterization with and without anti-aliasing.
use crate::image::{scale_color, Raster, TGAColor, TGAImage};
use vstd::arithmetic::div_mod::{lemma_div_is_ordered, lemma_div_multiples_vanish, lemma_fundamental_div_mod, lemma_mod_pos_bound};
use vstd::prelude::*;

verus! {

/// A pixel position in screen space.
#[derive(PartialEq, Eq, Structural, Clone, Copy, Debug)]
pub struct ScreenPoint {
    pub x: u16,
    pub y: u16,
}

/// One write of a color at a position.
pub struct Plot {
    pub x: int,
    pub y: int,
    pub color: TGAColor,
}

/// The buffer after the writes of `s`, in order.
pub open spec fn apply_plots(g: Raster, s: Seq<Plot>) -> Raster
    decreases s.len(),
{
    if s.len() == 0 {
        g
    } else {
        let p = s.last();
        apply_plots(g, s.drop_last()).set(p.x, p.y, p.color)
    }
}

pub open spec fn abs_diff(a: int, b: int) -> int {
    if a >= b {
        a - b
    } else {
        b - a
    }
}

/// A line is steep when it rises more than it runs; it is then walked along y.
pub open spec fn is_steep(a: ScreenPoint, b: ScreenPoint) -> bool {
    abs_diff(a.x as int, b.x as int) < abs_diff(a.y as int, b.y as int)
}

/// The endpoints along the major axis, lower one first: (start major,
/// start minor, end major, end minor).
pub open spec fn line_frame(a: ScreenPoint, b: ScreenPoint) -> (int, int, int, int) {
    if is_steep(a, b) {
        if a.y > b.y {
            (b.y as int, b.x as int, a.y as int, a.x as int)
        } else {
            (a.y as int, a.x as int, b.y as int, b.x as int)
        }
    } else {
        if a.x > b.x {
            (b.x as int, b.y as int, a.x as int, a.y as int)
        } else {
            (a.x as int, a.y as int, b.x as int, b.y as int)
        }
    }
}

/// A write at major coordinate `u` and minor coordinate `v`.
pub open spec fn plot_at(steep: bool, u: int, v: int, c: TGAColor) -> Plot {
    if steep {
        Plot { x: v, y: u, color: c }
    } else {
        Plot { x: u, y: v, color: c }
    }
}

/// The numerator of the minor coordinate at major coordinate `u`, over the
/// denominator `dd`: ys + (ye - ys) * (u - xs) / dd.
pub open spec fn minor_num(xs: int, ys: int, ye: int, dd: int, u: int) -> int {
    ys * dd + (ye - ys) * (u - xs)
}

/// The writes of the plain line: one pixel per major step from the start to
/// the end inclusive, the minor coordinate interpolated with
/// t = (u - xs) / (xe + 1 - xs) and truncated.
pub open spec fn plain_plots(a: ScreenPoint, b: ScreenPoint, c: TGAColor) -> Seq<Plot> {
    let (xs, ys, xe, ye) = line_frame(a, b);
    let dd = xe + 1 - xs;
    Seq::new(
        (xe - xs + 1) as nat,
        |i: int| plot_at(is_steep(a, b), xs + i, minor_num(xs, ys, ye, dd, xs + i) / dd, c),
    )
}

/// The write on the ceiling side at major coordinate `u` of an anti-aliased
/// line: coverage 1 - (ceil(y) - y).
pub open spec fn upper_plot(steep: bool, xs: int, ys: int, ye: int, dd: int, u: int, c: TGAColor) -> Plot {
    let n = minor_num(xs, ys, ye, dd, u);
    let r = n % dd;
    if r == 0 {
        plot_at(steep, u, n / dd, scale_color(c, dd, dd))
    } else {
        plot_at(steep, u, n / dd + 1, scale_color(c, r, dd))
    }
}

/// The write on the floor side at major coordinate `u` of an anti-aliased
/// line: coverage 1 - (y - floor(y)).
pub open spec fn lower_plot(steep: bool, xs: int, ys: int, ye: int, dd: int, u: int, c: TGAColor) -> Plot {
    let n = minor_num(xs, ys, ye, dd, u);
    plot_at(steep, u, n / dd, scale_color(c, dd - n % dd, dd))
}

/// The writes of the anti-aliased line: for each major step from the start to
/// the end inclusive, the ceiling pixel then the floor pixel, each with the
/// color scaled by its coverage. A line of one point writes that point.
pub open spec fn smooth_plots(a: ScreenPoint, b: ScreenPoint, c: TGAColor) -> Seq<Plot> {
    let (xs, ys, xe, ye) = line_frame(a, b);
    let steep = is_steep(a, b);
    let dd = xe - xs;
    if dd == 0 {
        seq![plot_at(steep, xs, ys, c)]
    } else {
        Seq::new(
            (2 * (dd + 1)) as nat,
            |i: int|
                if i % 2 == 0 {
                    upper_plot(steep, xs, ys, ye, dd, xs + i / 2, c)
                } else {
                    lower_plot(steep, xs, ys, ye, dd, xs + i / 2, c)
                },
        )
    }
}

pub open spec fn line_plots(a: ScreenPoint, b: ScreenPoint, c: TGAColor, antialiasing: bool) -> Seq<Plot> {
    if antialiasing {
        smooth_plots(a, b, c)
    } else {
        plain_plots(a, b, c)
    }
}

proof fn lemma_apply_step(g: Raster, s: Seq<Plot>, k: int)
    requires
        0 <= k < s.len(),
    ensures
        apply_plots(g, s.take(k + 1)) == apply_plots(g, s.take(k)).set(s[k].x, s[k].y, s[k].color),
{
    assert(s.take(k + 1).drop_last() =~= s.take(k));
}

/// The minor coordinate stays within the endpoints' range.
proof fn lemma_minor_bounds(xs: int, ys: int, ye: int, dd: int, u: int)
    requires
        0 <= ys <= 65535,
        0 <= ye <= 65535,
        dd > 0,
        0 <= u - xs <= dd,
    ensures
        0 <= minor_num(xs, ys, ye, dd, u),
        minor_num(xs, ys, ye, dd, u) / dd <= 65535,
        0 <= minor_num(xs, ys, ye, dd, u) / dd,
{
    let n = minor_num(xs, ys, ye, dd, u);
    assert(0 <= n <= 65535 * dd) by (nonlinear_arith)
        requires
            n == ys * dd + (ye - ys) * (u - xs),
            0 <= ys <= 65535,
            0 <= ye <= 65535,
            dd > 0,
            0 <= u - xs <= dd,
    ;
    lemma_div_is_ordered(n, 65535 * dd, dd);
    lemma_div_multiples_vanish(65535, dd);
    lemma_div_is_ordered(0, n, dd);
    assert(65535 * dd == dd * 65535);
}

/// Draws the segment from `a` to `b` into `image` with `color`. Writes that
/// fall outside the buffer are dropped by the buffer.
pub fn draw_line(a: ScreenPoint, b: ScreenPoint, image: &mut TGAImage, color: TGAColor, antialiasing: bool)
    requires
        old(image).wf(),
    ensures
        final(image).wf(),
        final(image)@ == apply_plots(old(image)@, line_plots(a, b, color, antialiasing)),
{
    if antialiasing {
        xw_line(a, b, image, color);
    } else {
        b_line(a, b, image, color);
    }
}

/// The endpoints along the major axis and whether the line is steep.
fn frame(a: ScreenPoint, b: ScreenPoint) -> (r: (i64, i64, i64, i64, bool))
    ensures
        (r.0 as int, r.1 as int, r.2 as int, r.3 as int) == line_frame(a, b),
        r.4 == is_steep(a, b),
        0 <= r.0 <= r.2 <= 65535,
        0 <= r.1 <= 65535,
        0 <= r.3 <= 65535,
{
    let dx = if a.x >= b.x { a.x - b.x } else { b.x - a.x };
    let dy = if a.y >= b.y { a.y - b.y } else { b.y - a.y };
    let steep = dx < dy;
    if steep {
        if a.y > b.y {
            (b.y as i64, b.x as i64, a.y as i64, a.x as i64, true)
        } else {
            (a.y as i64, a.x as i64, b.y as i64, b.x as i64, true)
        }
    } else {
        if a.x > b.x {
            (b.x as i64, b.y as i64, a.x as i64, a.y as i64, false)
        } else {
            (a.x as i64, a.y as i64, b.x as i64, b.y as i64, false)
        }
    }
}

/// Writes `color` at major coordinate `u`, minor coordinate `v`.
fn put(image: &mut TGAImage, steep: bool, u: usize, v: usize, color: TGAColor)
    requires
        old(image).wf(),
    ensures
        final(image).wf(),
        ({
            let p = plot_at(steep, u as int, v as int, color);
            final(image)@ == old(image)@.set(p.x, p.y, p.color)
        }),
{
    if steep {
        image.set(v, u, color);
    } else {
        image.set(u, v, color);
    }
}

/// The plain line: one pixel per major step.
fn b_line(a: ScreenPoint, b: ScreenPoint, image: &mut TGAImage, color: TGAColor)
    requires
        old(image).wf(),
    ensures
        final(image).wf(),
        final(image)@ == apply_plots(old(image)@, plain_plots(a, b, color)),
{
    let ghost g = image@;
    let ghost plots = plain_plots(a, b, color);
    let (xs, ys, xe, ye, steep) = frame(a, b);
    let dd = xe + 1 - xs;
    let mut x: i64 = xs;
    assert(plots.take(0) =~= Seq::<Plot>::empty());
    while x <= xe
        invariant
            image.wf(),
            plots == plain_plots(a, b, color),
            (xs as int, ys as int, xe as int, ye as int) == line_frame(a, b),
            steep == is_steep(a, b),
            0 <= xs <= xe <= 65535,
            0 <= ys <= 65535,
            0 <= ye <= 65535,
            dd == xe + 1 - xs,
            xs <= x <= xe + 1,
            image@ == apply_plots(g, plots.take(x - xs)),
        decreases xe + 1 - x,
    {
        proof {
            lemma_minor_bounds(xs as int, ys as int, ye as int, dd as int, x as int);
        }
        proof {
            assert(0 <= ys * dd <= 65535 * 65536) by (nonlinear_arith)
                requires
                    0 <= ys <= 65535,
                    0 < dd <= 65536,
            ;
            assert(-65535 * 65536 <= (ye - ys) * (x - xs) <= 65535 * 65536) by (nonlinear_arith)
                requires
                    0 <= ys <= 65535,
                    0 <= ye <= 65535,
                    0 <= x - xs <= 65536,
            ;
        }
        let n = ys * dd + (ye - ys) * (x - xs);
        let v = n / dd;
        proof {
            lemma_apply_step(g, plots, x - xs);
        }
        put(image, steep, x as usize, v as usize, color);
        x += 1;
    }
    assert(plots.take(xe + 1 - xs) =~= plots);
}

/// The anti-aliased line: two pixels per major step, on either side of the
/// exact minor coordinate, each with the color scaled by its coverage.
fn xw_line(a: ScreenPoint, b: ScreenPoint, image: &mut TGAImage, color: TGAColor)
    requires
        old(image).wf(),
    ensures
        final(image).wf(),
        final(image)@ == apply_plots(old(image)@, smooth_plots(a, b, color)),
{
    let ghost g = image@;
    let ghost plots = smooth_plots(a, b, color);
    let (xs, ys, xe, ye, steep) = frame(a, b);
    if xe == xs {
        put(image, steep, xs as usize, ys as usize, color);
        proof {
            lemma_apply_step(g, plots, 0);
            assert(plots.take(1) =~= plots);
            assert(plots.take(0) =~= Seq::<Plot>::empty());
        }
        return;
    }
    let dd = xe - xs;
    let mut x: i64 = xs;
    assert(plots.take(0) =~= Seq::<Plot>::empty());
    while x <= xe
        invariant
            image.wf(),
            plots == smooth_plots(a, b, color),
            (xs as int, ys as int, xe as int, ye as int) == line_frame(a, b),
            steep == is_steep(a, b),
            0 <= xs < xe <= 65535,
            0 <= ys <= 65535,
            0 <= ye <= 65535,
            dd == xe - xs,
            xs <= x <= xe + 1,
            image@ == apply_plots(g, plots.take(2 * (x - xs))),
        decreases xe + 1 - x,
    {
        proof {
            lemma_minor_bounds(xs as int, ys as int, ye as int, dd as int, x as int);
            lemma_fundamental_div_mod(minor_num(xs as int, ys as int, ye as int, dd as int, x as int), dd as int);
            lemma_mod_pos_bound(minor_num(xs as int, ys as int, ye as int, dd as int, x as int), dd as int);
        }
        proof {
            assert(0 <= ys * dd <= 65535 * 65536) by (nonlinear_arith)
                requires
                    0 <= ys <= 65535,
                    0 < dd <= 65536,
            ;
            assert(-65535 * 65536 <= (ye - ys) * (x - xs) <= 65535 * 65536) by (nonlinear_arith)
                requires
                    0 <= ys <= 65535,
                    0 <= ye <= 65535,
                    0 <= x - xs <= 65536,
            ;
        }
        let n = ys * dd + (ye - ys) * (x - xs);
        let yd = n / dd;
        let r = n % dd;
        let k = 2 * (x - xs);
        proof {
            assert(k / 2 == x - xs && k % 2 == 0);
            assert((k + 1) / 2 == x - xs && (k + 1) % 2 == 1);
            lemma_apply_step(g, plots, k as int);
            lemma_apply_step(g, plots, k + 1);
        }
        if r == 0 {
            put(image, steep, x as usize, yd as usize, color.scaled(dd as u128, dd as u128));
        } else {
            put(image, steep, x as usize, (yd + 1) as usize, color.scaled(r as u128, dd as u128));
        }
        put(image, steep, x as usize, yd as usize, color.scaled((dd - r) as u128, dd as u128));
        x += 1;
    }
    assert(plots.take(2 * (xe + 1 - xs)) =~= plots);
}

} // verus!
