//! Triangle rasterization: barycentric scan conversion with a depth buffer,
//! per-pixel shading and nearest-texel texture sampling.
use crate::image::{lemma_set_commute, lemma_set_set, lemma_set_wf, scale_color, Raster, TGAColor, TGAImage};
use vstd::arithmetic::div_mod::{
    lemma_div_is_ordered, lemma_div_multiples_vanish, lemma_fundamental_div_mod,
    lemma_fundamental_div_mod_converse, lemma_mod_pos_bound, lemma_multiply_divide_lt,
};
use vstd::prelude::*;

verus! {

/// A direction; each component is in units of 1 / `UNIT`.
#[derive(PartialEq, Eq, Structural, Clone, Copy, Debug)]
pub struct Direction {
    pub x: i16,
    pub y: i16,
    pub z: i16,
}

/// A triangle corner: its screen position, its depth (larger is closer), its
/// texture coordinate in units of 1 / `TEX_ONE`, and its normal.
#[derive(PartialEq, Eq, Structural, Clone, Copy, Debug)]
pub struct TriangleVertex {
    pub x: u16,
    pub y: u16,
    pub z: i32,
    pub tex_u: u32,
    pub tex_v: u32,
    pub normal: Direction,
}

/// The fixed-point one of direction components.
pub const UNIT: i128 = 16384;

/// The fixed-point one of texture coordinates.
pub const TEX_ONE: i128 = 65536;

/// Barycentric weights of point (px, py) in triangle (a, b, c), scaled by
/// the common denominator: (U, V, D), where U / D is the weight of `c`,
/// V / D the weight of `b`, and (D - U - V) / D the weight of `a`.
pub open spec fn bary(a: TriangleVertex, b: TriangleVertex, c: TriangleVertex, px: int, py: int) -> (int, int, int) {
    let (cx, cy) = (c.x - a.x, c.y - a.y);
    let (bx, by) = (b.x - a.x, b.y - a.y);
    let (qx, qy) = (px - a.x, py - a.y);
    let cc = cx * cx + cy * cy;
    let bc = bx * cx + by * cy;
    let pc = cx * qx + cy * qy;
    let bb = bx * bx + by * by;
    let pb = bx * qx + by * qy;
    let d = cc * bb - bc * bc;
    (bb * pc - bc * pb, cc * pb - bc * pc, d)
}

/// Whether (px, py) lies in the triangle; a degenerate triangle holds no point.
pub open spec fn inside(w: (int, int, int)) -> bool {
    let (u, v, d) = w;
    d > 0 && u >= 0 && v >= 0 && u + v <= d
}

/// The weighted sum of three corner values: `qa` with weight D - U - V, `qb`
/// with V, `qc` with U.
pub open spec fn blend(w: (int, int, int), qa: int, qb: int, qc: int) -> int {
    let (u, v, d) = w;
    (d - u - v) * qa + v * qb + u * qc
}

/// The interpolated depth, rounded down.
pub open spec fn depth_at(a: TriangleVertex, b: TriangleVertex, c: TriangleVertex, w: (int, int, int)) -> int {
    blend(w, a.z as int, b.z as int, c.z as int) / w.2
}

/// The light intensity times D * UNIT * UNIT: the interpolated normal
/// dotted with the light direction.
pub open spec fn light_at(a: TriangleVertex, b: TriangleVertex, c: TriangleVertex, l: Direction, w: (int, int, int)) -> int {
    blend(w, a.normal.x as int, b.normal.x as int, c.normal.x as int) * l.x + blend(
        w,
        a.normal.y as int,
        b.normal.y as int,
        c.normal.y as int,
    ) * l.y + blend(w, a.normal.z as int, b.normal.z as int, c.normal.z as int) * l.z
}

/// The nearest texel to the interpolated texture coordinate.
pub open spec fn texel_at(a: TriangleVertex, b: TriangleVertex, c: TriangleVertex, tex: Raster, w: (int, int, int)) -> TGAColor {
    let tx = blend(w, a.tex_u as int, b.tex_u as int, c.tex_u as int) * tex.width / (w.2 * TEX_ONE);
    let ty = blend(w, a.tex_v as int, b.tex_v as int, c.tex_v as int) * tex.height / (w.2 * TEX_ONE);
    tex.get(tx, ty)
}

/// The depth and color that pixel (x, y) receives from the triangle, or
/// `None` when it lies outside or faces away from the light.
pub open spec fn shade(
    a: TriangleVertex,
    b: TriangleVertex,
    c: TriangleVertex,
    l: Direction,
    tex: Raster,
    color: TGAColor,
    use_texture: bool,
    x: int,
    y: int,
) -> Option<(int, TGAColor)> {
    let w = bary(a, b, c, x, y);
    let i = light_at(a, b, c, l, w);
    if !inside(w) || i <= 0 {
        None
    } else {
        let base = if use_texture {
            texel_at(a, b, c, tex, w)
        } else {
            color
        };
        Some((depth_at(a, b, c, w), scale_color(base, i, w.2 * UNIT * UNIT)))
    }
}

/// The image and depth buffer during a scan; `stopped` once a pixel's depth
/// index fell outside the depth buffer.
pub struct RenderState {
    pub image: Raster,
    pub depth: Seq<i64>,
    pub stopped: bool,
}

/// The state after visiting pixel (x, y): the pixel is written, and its
/// depth recorded, when the triangle covers it, faces the light there, and is
/// strictly closer than the depth recorded so far.
pub open spec fn pixel_step(
    a: TriangleVertex,
    b: TriangleVertex,
    c: TriangleVertex,
    l: Direction,
    tex: Raster,
    color: TGAColor,
    use_texture: bool,
    s: RenderState,
    x: int,
    y: int,
) -> RenderState {
    let idx = x + s.image.width * y;
    if s.stopped {
        s
    } else if idx >= s.depth.len() {
        RenderState { stopped: true, ..s }
    } else {
        match shade(a, b, c, l, tex, color, use_texture, x, y) {
            Some((z, col)) => if z > s.depth[idx] {
                RenderState { image: s.image.set(x, y, col), depth: s.depth.update(idx, z as i64), stopped: false }
            } else {
                s
            },
            None => s,
        }
    }
}

pub open spec fn min3(p: int, q: int, r: int) -> int {
    if p <= q && p <= r {
        p
    } else if q <= r {
        q
    } else {
        r
    }
}

pub open spec fn max3(p: int, q: int, r: int) -> int {
    if p >= q && p >= r {
        p
    } else if q >= r {
        q
    } else {
        r
    }
}

/// The bounding box of the triangle: (x0, y0, x1, y1), inclusive.
pub open spec fn bounding_box(a: TriangleVertex, b: TriangleVertex, c: TriangleVertex) -> (int, int, int, int) {
    (
        min3(a.x as int, b.x as int, c.x as int),
        min3(a.y as int, b.y as int, c.y as int),
        max3(a.x as int, b.x as int, c.x as int),
        max3(a.y as int, b.y as int, c.y as int),
    )
}

/// The state after the first `k` pixels of the bounding box, row by row.
pub open spec fn scan(
    a: TriangleVertex,
    b: TriangleVertex,
    c: TriangleVertex,
    l: Direction,
    tex: Raster,
    color: TGAColor,
    use_texture: bool,
    s: RenderState,
    k: nat,
) -> RenderState
    decreases k,
{
    if k == 0 {
        s
    } else {
        let (x0, y0, x1, y1) = bounding_box(a, b, c);
        let bw = x1 - x0 + 1;
        let prev = scan(a, b, c, l, tex, color, use_texture, s, (k - 1) as nat);
        pixel_step(a, b, c, l, tex, color, use_texture, prev, x0 + (k - 1) % bw, y0 + (k - 1) / bw)
    }
}

/// The state after the whole bounding box.
pub open spec fn render(
    a: TriangleVertex,
    b: TriangleVertex,
    c: TriangleVertex,
    l: Direction,
    tex: Raster,
    color: TGAColor,
    use_texture: bool,
    s: RenderState,
) -> RenderState {
    let (x0, y0, x1, y1) = bounding_box(a, b, c);
    scan(a, b, c, l, tex, color, use_texture, s, ((x1 - x0 + 1) * (y1 - y0 + 1)) as nat)
}

/// Inside the triangle the interpolated depth lies within the corners' range.
proof fn lemma_depth_range(a: TriangleVertex, b: TriangleVertex, c: TriangleVertex, w: (int, int, int))
    requires
        inside(w),
    ensures
        i32::MIN <= depth_at(a, b, c, w) <= i32::MAX,
{
    let (u, v, d) = w;
    let n = blend(w, a.z as int, b.z as int, c.z as int);
    let q = 0x8000_0000int;
    assert(-(d * q) <= n <= d * (q - 1)) by (nonlinear_arith)
        requires
            n == (d - u - v) * (a.z as int) + v * (b.z as int) + u * (c.z as int),
            0 <= u,
            0 <= v,
            u + v <= d,
            -q <= a.z < q,
            -q <= b.z < q,
            -q <= c.z < q,
    ;
    lemma_div_is_ordered(n, d * (q - 1), d);
    lemma_div_is_ordered(-(d * q), n, d);
    lemma_div_multiples_vanish(q - 1, d);
    lemma_div_multiples_vanish(-q, d);
    assert(d * (-q) == -(d * q)) by (nonlinear_arith);
}

/// Max-depth-wins does not depend on submission order: at any pixel, the
/// steps of two triangles whose depths there differ give the same image and
/// depth buffer in either order.
pub proof fn lemma_depth_order_independent(
    t1: (TriangleVertex, TriangleVertex, TriangleVertex, TGAColor),
    t2: (TriangleVertex, TriangleVertex, TriangleVertex, TGAColor),
    l: Direction,
    tex: Raster,
    use_texture: bool,
    s: RenderState,
    x: int,
    y: int,
)
    requires
        s.image.wf(),
        0 <= x,
        0 <= y,
        ({
            let r1 = shade(t1.0, t1.1, t1.2, l, tex, t1.3, use_texture, x, y);
            let r2 = shade(t2.0, t2.1, t2.2, l, tex, t2.3, use_texture, x, y);
            r1 is Some && r2 is Some ==> r1->Some_0.0 != r2->Some_0.0
        }),
    ensures
        pixel_step(
            t2.0,
            t2.1,
            t2.2,
            l,
            tex,
            t2.3,
            use_texture,
            pixel_step(t1.0, t1.1, t1.2, l, tex, t1.3, use_texture, s, x, y),
            x,
            y,
        ) == pixel_step(
            t1.0,
            t1.1,
            t1.2,
            l,
            tex,
            t1.3,
            use_texture,
            pixel_step(t2.0, t2.1, t2.2, l, tex, t2.3, use_texture, s, x, y),
            x,
            y,
        ),
{
    let r1 = shade(t1.0, t1.1, t1.2, l, tex, t1.3, use_texture, x, y);
    let r2 = shade(t2.0, t2.1, t2.2, l, tex, t2.3, use_texture, x, y);
    let idx = x + s.image.width * y;
    assert(idx >= 0) by (nonlinear_arith)
        requires
            idx == x + s.image.width * y,
            x >= 0,
            y >= 0,
    ;
    if !s.stopped && idx < s.depth.len() {
        if let Some((z1, c1)) = r1 {
            lemma_depth_range(t1.0, t1.1, t1.2, bary(t1.0, t1.1, t1.2, x, y));
            lemma_set_wf(s.image, x, y, c1);
            lemma_set_set(s.image, x, y, c1, c1);
        }
        if let Some((z2, c2)) = r2 {
            lemma_depth_range(t2.0, t2.1, t2.2, bary(t2.0, t2.1, t2.2, x, y));
            lemma_set_wf(s.image, x, y, c2);
        }
        if let (Some((z1, c1)), Some((z2, c2))) = (r1, r2) {
            lemma_set_set(s.image, x, y, c1, c2);
            lemma_set_set(s.image, x, y, c2, c1);
            assert(s.depth.update(idx, z1 as i64).update(idx, z2 as i64) =~= s.depth.update(idx, z2 as i64));
            assert(s.depth.update(idx, z2 as i64).update(idx, z1 as i64) =~= s.depth.update(idx, z1 as i64));
        }
    }
}

/// A triangle to render: its corners and flat color.
pub type Shape = (TriangleVertex, TriangleVertex, TriangleVertex, TGAColor);

pub open spec fn step_of(t: Shape, l: Direction, tex: Raster, ut: bool, s: RenderState, x: int, y: int) -> RenderState {
    pixel_step(t.0, t.1, t.2, l, tex, t.3, ut, s, x, y)
}

pub open spec fn scan_of(t: Shape, l: Direction, tex: Raster, ut: bool, s: RenderState, k: nat) -> RenderState {
    scan(t.0, t.1, t.2, l, tex, t.3, ut, s, k)
}

pub open spec fn render_of(t: Shape, l: Direction, tex: Raster, ut: bool, s: RenderState) -> RenderState {
    render(t.0, t.1, t.2, l, tex, t.3, ut, s)
}

/// A well-formed image, a depth buffer with one entry per pixel, not stopped.
pub open spec fn consistent(s: RenderState) -> bool {
    s.image.wf() && !s.stopped && s.depth.len() == s.image.width * s.image.height
}

/// Every corner of the triangle lies on the image.
pub open spec fn on_image(t: Shape, g: Raster) -> bool {
    t.0.x < g.width && t.0.y < g.height && t.1.x < g.width && t.1.y < g.height && t.2.x < g.width
        && t.2.y < g.height
}

/// Wherever both triangles shade a pixel, their depths there differ.
pub open spec fn no_depth_ties(t1: Shape, t2: Shape, l: Direction, tex: Raster, ut: bool) -> bool {
    forall|x: int, y: int|
        #![trigger shade(t1.0, t1.1, t1.2, l, tex, t1.3, ut, x, y), shade(t2.0, t2.1, t2.2, l, tex, t2.3, ut, x, y)]
        ({
            let r1 = shade(t1.0, t1.1, t1.2, l, tex, t1.3, ut, x, y);
            let r2 = shade(t2.0, t2.1, t2.2, l, tex, t2.3, ut, x, y);
            r1 is Some && r2 is Some ==> r1->Some_0.0 != r2->Some_0.0
        })
}

proof fn lemma_step_consistent(t: Shape, l: Direction, tex: Raster, ut: bool, s: RenderState, x: int, y: int)
    requires
        consistent(s),
        s.image.in_bounds(x, y),
    ensures
        consistent(step_of(t, l, tex, ut, s, x, y)),
        step_of(t, l, tex, ut, s, x, y).image.width == s.image.width,
        step_of(t, l, tex, ut, s, x, y).image.height == s.image.height,
        0 <= x + s.image.width * y < s.depth.len(),
{
    let w = s.image.width as int;
    let h = s.image.height as int;
    assert(0 <= x + w * y < w * h) by (nonlinear_arith)
        requires
            0 <= x < w,
            0 <= y < h,
    ;
    if let Some((z, c)) = shade(t.0, t.1, t.2, l, tex, t.3, ut, x, y) {
        lemma_set_wf(s.image, x, y, c);
    }
}

/// Steps of two triangles at any two pixels of the image commute.
proof fn lemma_steps_commute(
    t1: Shape,
    t2: Shape,
    l: Direction,
    tex: Raster,
    ut: bool,
    s: RenderState,
    x1: int,
    y1: int,
    x2: int,
    y2: int,
)
    requires
        consistent(s),
        s.image.in_bounds(x1, y1),
        s.image.in_bounds(x2, y2),
        no_depth_ties(t1, t2, l, tex, ut),
    ensures
        step_of(t2, l, tex, ut, step_of(t1, l, tex, ut, s, x1, y1), x2, y2) == step_of(
            t1,
            l,
            tex,
            ut,
            step_of(t2, l, tex, ut, s, x2, y2),
            x1,
            y1,
        ),
{
    lemma_step_consistent(t1, l, tex, ut, s, x1, y1);
    lemma_step_consistent(t2, l, tex, ut, s, x2, y2);
    if x1 == x2 && y1 == y2 {
        let r1 = shade(t1.0, t1.1, t1.2, l, tex, t1.3, ut, x1, y1);
        let r2 = shade(t2.0, t2.1, t2.2, l, tex, t2.3, ut, x1, y1);
        assert(r1 is Some && r2 is Some ==> r1->Some_0.0 != r2->Some_0.0);
        lemma_depth_order_independent(t1, t2, l, tex, ut, s, x1, y1);
    } else {
        let w = s.image.width;
        let i1 = x1 + w * y1;
        let i2 = x2 + w * y2;
        crate::image::lemma_offset_decompose(w, 1, x1 as nat, y1 as nat, 0);
        crate::image::lemma_offset_decompose(w, 1, x2 as nat, y2 as nat, 0);
        assert(x1 + y1 * w == x1 + w * y1) by (nonlinear_arith);
        assert(x2 + y2 * w == x2 + w * y2) by (nonlinear_arith);
        assert(i1 != i2);
        let r1 = shade(t1.0, t1.1, t1.2, l, tex, t1.3, ut, x1, y1);
        let r2 = shade(t2.0, t2.1, t2.2, l, tex, t2.3, ut, x2, y2);
        if let (Some((z1, c1)), Some((z2, c2))) = (r1, r2) {
            lemma_set_commute(s.image, x1, y1, c1, x2, y2, c2);
            lemma_set_wf(s.image, x1, y1, c1);
            lemma_set_wf(s.image, x2, y2, c2);
            assert(s.depth.update(i1, z1 as i64).update(i2, z2 as i64) =~= s.depth.update(i2, z2 as i64).update(
                i1,
                z1 as i64,
            ));
        }
    }
}

/// The pixel that the `k`-th step of the scan visits lies on the image.
proof fn lemma_scan_pixel_on_image(t: Shape, g: Raster, k: int)
    requires
        on_image(t, g),
        ({
            let (x0, y0, x1, y1) = bounding_box(t.0, t.1, t.2);
            0 <= k < (x1 - x0 + 1) * (y1 - y0 + 1)
        }),
    ensures
        ({
            let (x0, y0, x1, y1) = bounding_box(t.0, t.1, t.2);
            let bw = x1 - x0 + 1;
            g.in_bounds(x0 + k % bw, y0 + k / bw)
        }),
{
    let (x0, y0, x1, y1) = bounding_box(t.0, t.1, t.2);
    let bw = x1 - x0 + 1;
    let bh = y1 - y0 + 1;
    lemma_fundamental_div_mod(k, bw);
    lemma_mod_pos_bound(k, bw);
    lemma_multiply_divide_lt(k, bw, bh);
    assert(k / bw >= 0) by (nonlinear_arith)
        requires
            k == bw * (k / bw) + k % bw,
            k >= 0,
            k % bw < bw,
            bw > 0,
    ;
}

proof fn lemma_scan_consistent(t: Shape, l: Direction, tex: Raster, ut: bool, s: RenderState, k: nat)
    requires
        consistent(s),
        on_image(t, s.image),
        ({
            let (x0, y0, x1, y1) = bounding_box(t.0, t.1, t.2);
            k <= (x1 - x0 + 1) * (y1 - y0 + 1)
        }),
    ensures
        consistent(scan_of(t, l, tex, ut, s, k)),
        scan_of(t, l, tex, ut, s, k).image.width == s.image.width,
        scan_of(t, l, tex, ut, s, k).image.height == s.image.height,
    decreases k,
{
    if k > 0 {
        lemma_scan_consistent(t, l, tex, ut, s, (k - 1) as nat);
        let prev = scan_of(t, l, tex, ut, s, (k - 1) as nat);
        lemma_scan_pixel_on_image(t, s.image, k - 1);
        let (x0, y0, x1, y1) = bounding_box(t.0, t.1, t.2);
        let bw = x1 - x0 + 1;
        lemma_step_consistent(t, l, tex, ut, prev, x0 + (k - 1) % bw, y0 + (k - 1) / bw);
    }
}

/// One step of the second triangle passes through the first `k` steps of
/// the first triangle's scan.
proof fn lemma_step_through_scan(
    t1: Shape,
    t2: Shape,
    l: Direction,
    tex: Raster,
    ut: bool,
    s: RenderState,
    k: nat,
    x: int,
    y: int,
)
    requires
        consistent(s),
        on_image(t1, s.image),
        s.image.in_bounds(x, y),
        no_depth_ties(t1, t2, l, tex, ut),
        ({
            let (x0, y0, x1, y1) = bounding_box(t1.0, t1.1, t1.2);
            k <= (x1 - x0 + 1) * (y1 - y0 + 1)
        }),
    ensures
        step_of(t2, l, tex, ut, scan_of(t1, l, tex, ut, s, k), x, y) == scan_of(
            t1,
            l,
            tex,
            ut,
            step_of(t2, l, tex, ut, s, x, y),
            k,
        ),
    decreases k,
{
    if k > 0 {
        let (x0, y0, x1, y1) = bounding_box(t1.0, t1.1, t1.2);
        let bw = x1 - x0 + 1;
        let (px, py) = (x0 + (k - 1) % bw, y0 + (k - 1) / bw);
        lemma_scan_consistent(t1, l, tex, ut, s, (k - 1) as nat);
        lemma_scan_pixel_on_image(t1, s.image, k - 1);
        let prev = scan_of(t1, l, tex, ut, s, (k - 1) as nat);
        lemma_steps_commute(t1, t2, l, tex, ut, prev, px, py, x, y);
        lemma_step_through_scan(t1, t2, l, tex, ut, s, (k - 1) as nat, x, y);
    }
}

/// The first `m` steps of the second triangle's scan pass through the whole
/// scan of the first triangle.
proof fn lemma_scans_commute(t1: Shape, t2: Shape, l: Direction, tex: Raster, ut: bool, s: RenderState, m: nat)
    requires
        consistent(s),
        on_image(t1, s.image),
        on_image(t2, s.image),
        no_depth_ties(t1, t2, l, tex, ut),
        ({
            let (x0, y0, x1, y1) = bounding_box(t2.0, t2.1, t2.2);
            m <= (x1 - x0 + 1) * (y1 - y0 + 1)
        }),
    ensures
        ({
            let (a0, b0, a1, b1) = bounding_box(t1.0, t1.1, t1.2);
            let n = ((a1 - a0 + 1) * (b1 - b0 + 1)) as nat;
            scan_of(t2, l, tex, ut, scan_of(t1, l, tex, ut, s, n), m) == scan_of(
                t1,
                l,
                tex,
                ut,
                scan_of(t2, l, tex, ut, s, m),
                n,
            )
        }),
    decreases m,
{
    let (a0, b0, a1, b1) = bounding_box(t1.0, t1.1, t1.2);
    let n = ((a1 - a0 + 1) * (b1 - b0 + 1)) as nat;
    assert((a1 - a0 + 1) * (b1 - b0 + 1) >= 0) by (nonlinear_arith)
        requires
            a1 >= a0,
            b1 >= b0,
    ;
    if m > 0 {
        lemma_scans_commute(t1, t2, l, tex, ut, s, (m - 1) as nat);
        let (x0, y0, x1, y1) = bounding_box(t2.0, t2.1, t2.2);
        let bw = x1 - x0 + 1;
        let (qx, qy) = (x0 + (m - 1) % bw, y0 + (m - 1) / bw);
        lemma_scan_pixel_on_image(t2, s.image, m - 1);
        lemma_scan_consistent(t2, l, tex, ut, s, (m - 1) as nat);
        let s2 = scan_of(t2, l, tex, ut, s, (m - 1) as nat);
        lemma_step_through_scan(t1, t2, l, tex, ut, s2, n, qx, qy);
    }
}

/// Max-depth-wins makes whole triangles independent of submission order:
/// drawing two triangles that lie on the image, into a depth buffer with one
/// entry per pixel, gives the same image and depth buffer in either order,
/// provided that wherever both cover a pixel their depths there differ.
pub proof fn lemma_render_order_independent(t1: Shape, t2: Shape, l: Direction, tex: Raster, ut: bool, s: RenderState)
    requires
        consistent(s),
        on_image(t1, s.image),
        on_image(t2, s.image),
        no_depth_ties(t1, t2, l, tex, ut),
    ensures
        render_of(t2, l, tex, ut, render_of(t1, l, tex, ut, s)) == render_of(t1, l, tex, ut, render_of(t2, l, tex, ut, s)),
{
    let (x0, y0, x1, y1) = bounding_box(t2.0, t2.1, t2.2);
    let m = ((x1 - x0 + 1) * (y1 - y0 + 1)) as nat;
    assert((x1 - x0 + 1) * (y1 - y0 + 1) >= 0) by (nonlinear_arith)
        requires
            x1 >= x0,
            y1 >= y0,
    ;
    lemma_scans_commute(t1, t2, l, tex, ut, s, m);
}

// ---- executable scan -------------------------------------------------------

/// Bound on a screen coordinate and on a coordinate difference.
const K: i128 = 65535;

proof fn lemma_mul_abs(x: int, y: int, bx: int, by: int)
    requires
        -bx <= x <= bx,
        -by <= y <= by,
    ensures
        -(bx * by) <= x * y <= bx * by,
{
    assert(-(bx * by) <= x * y <= bx * by) by (nonlinear_arith)
        requires
            -bx <= x <= bx,
            -by <= y <= by,
    ;
}

/// `x1 * x2 + y1 * y2` for coordinate differences.
fn dot(x1: i128, y1: i128, x2: i128, y2: i128) -> (r: i128)
    requires
        -K <= x1 <= K,
        -K <= y1 <= K,
        -K <= x2 <= K,
        -K <= y2 <= K,
    ensures
        r == x1 * x2 + y1 * y2,
        -2 * K * K <= r <= 2 * K * K,
{
    proof {
        lemma_mul_abs(x1 as int, x2 as int, K as int, K as int);
        lemma_mul_abs(y1 as int, y2 as int, K as int, K as int);
    }
    x1 * x2 + y1 * y2
}

/// `p * q - r * s` for dot products.
fn cross_diff(p: i128, q: i128, r: i128, s: i128) -> (out: i128)
    requires
        -2 * K * K <= p <= 2 * K * K,
        -2 * K * K <= q <= 2 * K * K,
        -2 * K * K <= r <= 2 * K * K,
        -2 * K * K <= s <= 2 * K * K,
    ensures
        out == p * q - r * s,
        -8 * K * K * K * K <= out <= 8 * K * K * K * K,
{
    proof {
        lemma_mul_abs(p as int, q as int, 2 * K * K, 2 * K * K);
        lemma_mul_abs(r as int, s as int, 2 * K * K, 2 * K * K);
        assert((2 * K * K) * (2 * K * K) == 4 * K * K * K * K) by (nonlinear_arith);
    }
    p * q - r * s
}

/// The sum weighted by the barycentric weights, for corner values within `q`.
fn blend_exec(u: i128, v: i128, d: i128, qa: i128, qb: i128, qc: i128, q: i128) -> (r: i128)
    requires
        0 <= u,
        0 <= v,
        u + v <= d,
        d <= 8 * K * K * K * K,
        0 <= q <= 0x1_0000_0000,
        -q <= qa <= q,
        -q <= qb <= q,
        -q <= qc <= q,
    ensures
        r == blend((u as int, v as int, d as int), qa as int, qb as int, qc as int),
        -(d * q) <= r <= d * q,
        qa >= 0 && qb >= 0 && qc >= 0 ==> r >= 0,
{
    let w = d - u - v;
    proof {
        assert(-(d * q) <= w * qa + v * qb + u * qc <= d * q) by (nonlinear_arith)
            requires
                0 <= u,
                0 <= v,
                0 <= w,
                w == d - u - v,
                -q <= qa <= q,
                -q <= qb <= q,
                -q <= qc <= q,
        ;
        assert(qa >= 0 && qb >= 0 && qc >= 0 ==> w * qa + v * qb + u * qc >= 0) by (nonlinear_arith)
            requires
                0 <= u,
                0 <= v,
                0 <= w,
        ;
        assert(d * q <= 8 * K * K * K * K * 0x1_0000_0000) by (nonlinear_arith)
            requires
                0 <= d <= 8 * K * K * K * K,
                0 <= q <= 0x1_0000_0000,
        ;
        lemma_mul_abs(w as int, qa as int, d as int, q as int);
        lemma_mul_abs(v as int, qb as int, d as int, q as int);
        lemma_mul_abs(u as int, qc as int, d as int, q as int);
    }
    w * qa + v * qb + u * qc
}

/// `n / d` rounded down.
fn floor_div(n: i128, d: i128) -> (r: i128)
    requires
        d > 0,
        -0x1_0000_0000_0000_0000_0000_0000_0000 <= n <= 0x1_0000_0000_0000_0000_0000_0000_0000,
        d <= 0x1_0000_0000_0000_0000_0000_0000_0000,
    ensures
        r == n / d,
{
    if n >= 0 {
        ((n as u128) / (d as u128)) as i128
    } else {
        let t = (-n) as u128 + d as u128 - 1;
        let m = t / (d as u128);
        proof {
            lemma_fundamental_div_mod(t as int, d as int);
            lemma_mod_pos_bound(t as int, d as int);
            let s = t as int % d as int;
            assert(n == (-(m as int)) * d + (d - 1 - s)) by (nonlinear_arith)
                requires
                    t == -n + d - 1,
                    t == d * m + s,
            ;
            lemma_fundamental_div_mod_converse(n as int, d as int, -(m as int), d - 1 - s);
            assert(m <= t);
        }
        -(m as i128)
    }
}

/// The triangle's corners, for barycentric tests.
struct Triangle {
    a: TriangleVertex,
    b: TriangleVertex,
    c: TriangleVertex,
}

impl Triangle {
    fn new(a: TriangleVertex, b: TriangleVertex, c: TriangleVertex) -> (t: Triangle)
        ensures
            t.a == a,
            t.b == b,
            t.c == c,
    {
        Triangle { a, b, c }
    }

    /// The scaled barycentric weights (U, V, D) of (px, py).
    fn barycentric(&self, px: i128, py: i128) -> (r: (i128, i128, i128))
        requires
            0 <= px <= K,
            0 <= py <= K,
        ensures
            (r.0 as int, r.1 as int, r.2 as int) == bary(self.a, self.b, self.c, px as int, py as int),
            -8 * K * K * K * K <= r.0 <= 8 * K * K * K * K,
            -8 * K * K * K * K <= r.1 <= 8 * K * K * K * K,
            -8 * K * K * K * K <= r.2 <= 8 * K * K * K * K,
    {
        let ax = self.a.x as i128;
        let ay = self.a.y as i128;
        let cx = self.c.x as i128 - ax;
        let cy = self.c.y as i128 - ay;
        let bx = self.b.x as i128 - ax;
        let by = self.b.y as i128 - ay;
        let qx = px - ax;
        let qy = py - ay;
        let cc = dot(cx, cy, cx, cy);
        let bc = dot(bx, by, cx, cy);
        let pc = dot(cx, cy, qx, qy);
        let bb = dot(bx, by, bx, by);
        let pb = dot(bx, by, qx, qy);
        let d = cross_diff(cc, bb, bc, bc);
        let u = cross_diff(bb, pc, bc, pb);
        let v = cross_diff(cc, pb, bc, pc);
        (u, v, d)
    }

    /// Whether (px, py) lies in the triangle, with its scaled weights.
    fn contains_with_uv(&self, px: i128, py: i128) -> (r: (bool, i128, i128, i128))
        requires
            0 <= px <= K,
            0 <= py <= K,
        ensures
            (r.1 as int, r.2 as int, r.3 as int) == bary(self.a, self.b, self.c, px as int, py as int),
            r.0 == inside(bary(self.a, self.b, self.c, px as int, py as int)),
            r.0 ==> r.3 <= 8 * K * K * K * K,
    {
        let (u, v, d) = self.barycentric(px, py);
        (d > 0 && u >= 0 && v >= 0 && u + v <= d, u, v, d)
    }
}

/// An executable shading result that carries the spec result.
pub open spec fn shade_matches(r: Option<(i64, TGAColor)>, s: Option<(int, TGAColor)>) -> bool {
    match s {
        Some((z, c)) => r == Some((z as i64, c)) && i64::MIN <= z <= i64::MAX,
        None => r.is_none(),
    }
}

proof fn lemma_div_within(n: int, d: int, q: int)
    requires
        d > 0,
        q >= 0,
        -(d * q) <= n <= d * q,
    ensures
        -q <= n / d <= q,
{
    lemma_div_is_ordered(n, d * q, d);
    lemma_div_is_ordered(-(d * q), n, d);
    lemma_div_multiples_vanish(q, d);
    lemma_div_multiples_vanish(-q, d);
    assert(d * (-q) == -(d * q)) by (nonlinear_arith);
}

/// The depth and color that pixel (x, y) receives, if any.
fn shade_pixel(
    tri: &Triangle,
    l: &Direction,
    texture: &TGAImage,
    color: &TGAColor,
    use_texture: bool,
    x: i128,
    y: i128,
) -> (r: Option<(i64, TGAColor)>)
    requires
        texture.wf(),
        texture@.width <= 65535,
        texture@.height <= 65535,
        0 <= x <= K,
        0 <= y <= K,
    ensures
        shade_matches(r, shade(tri.a, tri.b, tri.c, *l, texture@, *color, use_texture, x as int, y as int)),
{
    let (ins, u, v, d) = tri.contains_with_uv(x, y);
    if !ins {
        return None;
    }
    let (a, b, c) = (tri.a, tri.b, tri.c);
    let nq: i128 = 32768;
    let nx = blend_exec(u, v, d, a.normal.x as i128, b.normal.x as i128, c.normal.x as i128, nq);
    let ny = blend_exec(u, v, d, a.normal.y as i128, b.normal.y as i128, c.normal.y as i128, nq);
    let nz = blend_exec(u, v, d, a.normal.z as i128, b.normal.z as i128, c.normal.z as i128, nq);
    proof {
        let bound = 8 * K * K * K * K * 32768;
        assert(d * nq <= 8 * K * K * K * K * 32768) by (nonlinear_arith)
            requires
                0 < d <= 8 * K * K * K * K,
                nq == 32768,
        ;
        lemma_mul_abs(nx as int, l.x as int, bound, 32768);
        lemma_mul_abs(ny as int, l.y as int, bound, 32768);
        lemma_mul_abs(nz as int, l.z as int, bound, 32768);
    }
    let i = nx * (l.x as i128) + ny * (l.y as i128) + nz * (l.z as i128);
    if i <= 0 {
        return None;
    }
    let zq: i128 = 0x8000_0000;
    let zsum = blend_exec(u, v, d, a.z as i128, b.z as i128, c.z as i128, zq);
    proof {
        assert(d * zq <= 8 * K * K * K * K * 0x8000_0000) by (nonlinear_arith)
            requires
                0 < d <= 8 * K * K * K * K,
                zq == 0x8000_0000,
        ;
    }
    let z = floor_div(zsum, d);
    proof {
        lemma_div_within(zsum as int, d as int, zq as int);
    }
    let base = if use_texture {
        let tq: i128 = 0x1_0000_0000;
        let tu = blend_exec(u, v, d, a.tex_u as i128, b.tex_u as i128, c.tex_u as i128, tq);
        let tv = blend_exec(u, v, d, a.tex_v as i128, b.tex_v as i128, c.tex_v as i128, tq);
        let tw = texture.get_width() as i128;
        let th = texture.get_height() as i128;
        proof {
            assert(d * tq <= 8 * K * K * K * K * 0x1_0000_0000) by (nonlinear_arith)
                requires
                    0 < d <= 8 * K * K * K * K,
                    tq == 0x1_0000_0000,
            ;
            lemma_mul_abs(tu as int, tw as int, 8 * K * K * K * K * 0x1_0000_0000, 65535);
            lemma_mul_abs(tv as int, th as int, 8 * K * K * K * K * 0x1_0000_0000, 65535);
            assert(0 <= tu * tw) by (nonlinear_arith)
                requires
                    0 <= tu,
                    0 <= tw,
            ;
            assert(0 <= tv * th) by (nonlinear_arith)
                requires
                    0 <= tv,
                    0 <= th,
            ;
        }
        let den = (d * TEX_ONE) as u128;
        let tx = ((tu * tw) as u128) / den;
        let ty = ((tv * th) as u128) / den;
        if tx > 65535 || ty > 65535 {
            TGAColor::clear()
        } else {
            texture.get(tx as usize, ty as usize)
        }
    } else {
        *color
    };
    proof {
        assert(d * UNIT * UNIT <= 8 * K * K * K * K * 16384 * 16384) by (nonlinear_arith)
            requires
                0 < d <= 8 * K * K * K * K,
        ;
        assert(d * UNIT * UNIT > 0) by (nonlinear_arith)
            requires
                0 < d,
        ;
    }
    let shaded = base.scaled(i as u128, (d * UNIT * UNIT) as u128);
    Some((z as i64, shaded))
}

/// Once the scan has stopped, the remaining pixels change nothing.
proof fn lemma_scan_stopped(
    a: TriangleVertex,
    b: TriangleVertex,
    c: TriangleVertex,
    l: Direction,
    tex: Raster,
    color: TGAColor,
    use_texture: bool,
    s: RenderState,
    k: nat,
    k2: nat,
)
    requires
        k <= k2,
        scan(a, b, c, l, tex, color, use_texture, s, k).stopped,
    ensures
        scan(a, b, c, l, tex, color, use_texture, s, k2) == scan(a, b, c, l, tex, color, use_texture, s, k),
    decreases k2,
{
    if k2 > k {
        lemma_scan_stopped(a, b, c, l, tex, color, use_texture, s, k, (k2 - 1) as nat);
    }
}

/// Scan-converts the triangle (a, b, c) into `image`. Every pixel of the
/// bounding box is visited row by row; a covered pixel that faces the light
/// and lies strictly closer than `zbuffer` records is written with the
/// (textured, when `use_texture`) color scaled by the light intensity, and its
/// depth recorded. A depth index past the end of `zbuffer` ends the scan.
pub fn draw_triangle(
    a: &TriangleVertex,
    b: &TriangleVertex,
    c: &TriangleVertex,
    light_dir: &Direction,
    image: &mut TGAImage,
    zbuffer: &mut Vec<i64>,
    texture: &TGAImage,
    color: &TGAColor,
    use_texture: bool,
)
    requires
        old(image).wf(),
        texture.wf(),
        texture@.width <= 65535,
        texture@.height <= 65535,
    ensures
        final(image).wf(),
        final(image)@ == render(
            *a,
            *b,
            *c,
            *light_dir,
            texture@,
            *color,
            use_texture,
            RenderState { image: old(image)@, depth: old(zbuffer)@, stopped: false },
        ).image,
        final(zbuffer)@ == render(
            *a,
            *b,
            *c,
            *light_dir,
            texture@,
            *color,
            use_texture,
            RenderState { image: old(image)@, depth: old(zbuffer)@, stopped: false },
        ).depth,
{
    let ghost s0 = RenderState { image: image@, depth: zbuffer@, stopped: false };
    let ghost tex = texture@;
    let tri = Triangle::new(*a, *b, *c);
    let x0 = if a.x <= b.x && a.x <= c.x { a.x } else if b.x <= c.x { b.x } else { c.x } as i128;
    let y0 = if a.y <= b.y && a.y <= c.y { a.y } else if b.y <= c.y { b.y } else { c.y } as i128;
    let x1 = if a.x >= b.x && a.x >= c.x { a.x } else if b.x >= c.x { b.x } else { c.x } as i128;
    let y1 = if a.y >= b.y && a.y >= c.y { a.y } else if b.y >= c.y { b.y } else { c.y } as i128;
    let ghost bw = x1 - x0 + 1;
    let ghost bh = y1 - y0 + 1;
    assert((x0 as int, y0 as int, x1 as int, y1 as int) == bounding_box(*a, *b, *c));
    let width = image.get_width();
    let mut y: i128 = y0;
    proof {
        assert(0 * bw == 0) by (nonlinear_arith);
    }
    while y <= y1
        invariant
            image.wf(),
            texture.wf(),
            texture@ == tex,
            tex.width <= 65535,
            tex.height <= 65535,
            tri.a == *a,
            tri.b == *b,
            tri.c == *c,
            (x0 as int, y0 as int, x1 as int, y1 as int) == bounding_box(*a, *b, *c),
            0 <= x0 <= x1 <= K,
            0 <= y0 <= y1 <= K,
            bw == x1 - x0 + 1,
            bh == y1 - y0 + 1,
            y0 <= y <= y1 + 1,
            width == image@.width,
            width == s0.image.width,
            s0 == (RenderState { image: old(image)@, depth: old(zbuffer)@, stopped: false }),
            ({
                let st = scan(*a, *b, *c, *light_dir, tex, *color, use_texture, s0, ((y - y0) * bw) as nat);
                &&& !st.stopped
                &&& st.image == image@
                &&& st.depth == zbuffer@
            }),
        decreases y1 + 1 - y,
    {
        let mut x: i128 = x0;
        proof {
            assert((y - y0) * bw >= 0) by (nonlinear_arith)
                requires
                    y >= y0,
                    bw > 0,
            ;
        }
        while x <= x1
            invariant
                image.wf(),
                texture.wf(),
                texture@ == tex,
                tex.width <= 65535,
                tex.height <= 65535,
                tri.a == *a,
                tri.b == *b,
                tri.c == *c,
                (x0 as int, y0 as int, x1 as int, y1 as int) == bounding_box(*a, *b, *c),
                0 <= x0 <= x1 <= K,
                0 <= y0 <= y1 <= K,
                bw == x1 - x0 + 1,
                bh == y1 - y0 + 1,
                y0 <= y <= y1,
                x0 <= x <= x1 + 1,
                width == image@.width,
                width == s0.image.width,
                s0 == (RenderState { image: old(image)@, depth: old(zbuffer)@, stopped: false }),
                (y - y0) * bw >= 0,
                ({
                    let st = scan(*a, *b, *c, *light_dir, tex, *color, use_texture, s0, ((y - y0) * bw + (x - x0)) as nat);
                    &&& !st.stopped
                    &&& st.image == image@
                    &&& st.depth == zbuffer@
                }),
            decreases x1 + 1 - x,
        {
            let ghost k = ((y - y0) * bw + (x - x0)) as nat;
            proof {
                lemma_fundamental_div_mod_converse(k as int, bw, y - y0, x - x0);
                assert(scan(*a, *b, *c, *light_dir, tex, *color, use_texture, s0, k + 1) == pixel_step(
                    *a,
                    *b,
                    *c,
                    *light_dir,
                    tex,
                    *color,
                    use_texture,
                    scan(*a, *b, *c, *light_dir, tex, *color, use_texture, s0, k),
                    x as int,
                    y as int,
                ));
                assert(bw * bh == (y1 - y0 + 1) * bw) by (nonlinear_arith)
                    requires
                        bw == x1 - x0 + 1,
                        bh == y1 - y0 + 1,
                ;
                assert((y - y0) * bw <= (y1 - y0) * bw) by (nonlinear_arith)
                    requires
                        y0 <= y <= y1,
                        bw > 0,
                ;
                assert((y1 - y0) * bw + bw == bw * bh) by (nonlinear_arith)
                    requires
                        bh == y1 - y0 + 1,
                ;
            }
            let zlen = zbuffer.len();
            let row = (y as usize).checked_mul(width);
            let idx = match row {
                Some(r) => r.checked_add(x as usize),
                None => None,
            };
            let in_range = match idx {
                Some(i) => i < zlen,
                None => false,
            };
            if !in_range {
                proof {
                    let st = scan(*a, *b, *c, *light_dir, tex, *color, use_texture, s0, k);
                    assert(y * width == width * y) by (nonlinear_arith);
                    assert(x + width * y >= st.depth.len());
                    lemma_scan_stopped(*a, *b, *c, *light_dir, tex, *color, use_texture, s0, k + 1, (bw * bh) as nat);
                    assert(render(
                        *a,
                        *b,
                        *c,
                        *light_dir,
                        tex,
                        *color,
                        use_texture,
                        s0,
                    ) == scan(*a, *b, *c, *light_dir, tex, *color, use_texture, s0, (bw * bh) as nat));
                }
                return;
            }
            let i = idx.unwrap();
            proof {
                assert(y * width == width * y) by (nonlinear_arith);
                assert(i == x + width * y);
            }
            match shade_pixel(&tri, light_dir, texture, color, use_texture, x, y) {
                Some((z, col)) => {
                    if z > zbuffer[i] {
                        proof {
                            lemma_set_wf(image@, x as int, y as int, col);
                        }
                        image.set(x as usize, y as usize, col);
                        zbuffer.set(i, z);
                    }
                },
                None => {},
            }
            x += 1;
        }
        proof {
            assert((y - y0) * bw + (x - x0) == (y + 1 - y0) * bw) by (nonlinear_arith)
                requires
                    x == x1 + 1,
                    bw == x1 - x0 + 1,
            ;
        }
        y += 1;
    }
    proof {
        assert((y - y0) * bw == bw * bh) by (nonlinear_arith)
            requires
                y == y1 + 1,
                bh == y1 - y0 + 1,
        ;
    }
}

} // verus!
