//! The pixel buffer: a row-major array of pixels in one of three formats.
use crate::resample::{rows_reached, scale_col, scale_columns, scale_rows, scale_src_row};
use vstd::arithmetic::div_mod::{
    lemma_fundamental_div_mod, lemma_fundamental_div_mod_converse, lemma_mod_pos_bound,
    lemma_multiply_divide_lt,
};
use vstd::prelude::*;

verus! {

/// A color with four 8-bit channels.
#[derive(PartialEq, Eq, Structural, Clone, Copy, Debug)]
pub struct TGAColor {
    pub r: u8,
    pub g: u8,
    pub b: u8,
    pub a: u8,
}

/// The bytes of a color in on-disk channel order: blue, green, red, alpha.
pub open spec fn color_bytes(c: TGAColor) -> Seq<u8> {
    seq![c.b, c.g, c.r, c.a]
}

impl TGAColor {
    /// Opaque white.
    pub fn white() -> (c: TGAColor)
        ensures
            c == (TGAColor { r: 255, g: 255, b: 255, a: 255 }),
    {
        TGAColor { r: 255, g: 255, b: 255, a: 255 }
    }

    /// Opaque black.
    pub fn black() -> (c: TGAColor)
        ensures
            c == (TGAColor { r: 0, g: 0, b: 0, a: 255 }),
    {
        TGAColor { r: 0, g: 0, b: 0, a: 255 }
    }

    /// Opaque red.
    pub fn red() -> (c: TGAColor)
        ensures
            c == (TGAColor { r: 255, g: 0, b: 0, a: 255 }),
    {
        TGAColor { r: 255, g: 0, b: 0, a: 255 }
    }

    /// Opaque green.
    pub fn green() -> (c: TGAColor)
        ensures
            c == (TGAColor { r: 0, g: 255, b: 0, a: 255 }),
    {
        TGAColor { r: 0, g: 255, b: 0, a: 255 }
    }

    /// Opaque blue.
    pub fn blue() -> (c: TGAColor)
        ensures
            c == (TGAColor { r: 0, g: 0, b: 255, a: 255 }),
    {
        TGAColor { r: 0, g: 0, b: 255, a: 255 }
    }

    /// Opaque yellow.
    pub fn yellow() -> (c: TGAColor)
        ensures
            c == (TGAColor { r: 255, g: 255, b: 0, a: 255 }),
    {
        TGAColor { r: 255, g: 255, b: 0, a: 255 }
    }

    /// Opaque purple.
    pub fn purple() -> (c: TGAColor)
        ensures
            c == (TGAColor { r: 255, g: 0, b: 255, a: 255 }),
    {
        TGAColor { r: 255, g: 0, b: 255, a: 255 }
    }

    /// Fully transparent black.
    pub fn clear() -> (c: TGAColor)
        ensures
            c == (TGAColor { r: 0, g: 0, b: 0, a: 0 }),
    {
        TGAColor { r: 0, g: 0, b: 0, a: 0 }
    }

    /// This color at intensity `num / den`: red, green and blue are multiplied
    /// by it, truncated toward zero and saturated at 255; alpha is kept.
    pub fn scaled(&self, num: u128, den: u128) -> (c: TGAColor)
        requires
            den > 0,
            num <= 0x1_0000_0000_0000_0000_0000_0000_0000,
        ensures
            c == scale_color(*self, num as int, den as int),
    {
        TGAColor {
            r: scale_channel_exec(self.r, num, den),
            g: scale_channel_exec(self.g, num, den),
            b: scale_channel_exec(self.b, num, den),
            a: self.a,
        }
    }

    /// The channels in on-disk order: blue, green, red, alpha.
    pub fn raw(&self) -> (r: [u8; 4])
        ensures
            r@ == color_bytes(*self),
    {
        [self.b, self.g, self.r, self.a]
    }
}

/// A channel multiplied by the intensity `num / den`, truncated toward zero
/// and saturated at 255.
pub open spec fn scale_channel(c: u8, num: int, den: int) -> u8 {
    if c * num / den > 255 {
        255
    } else {
        (c * num / den) as u8
    }
}

/// A color with red, green and blue multiplied by the intensity `num / den`;
/// alpha is kept.
pub open spec fn scale_color(c: TGAColor, num: int, den: int) -> TGAColor {
    TGAColor {
        r: scale_channel(c.r, num, den),
        g: scale_channel(c.g, num, den),
        b: scale_channel(c.b, num, den),
        a: c.a,
    }
}

fn scale_channel_exec(c: u8, num: u128, den: u128) -> (r: u8)
    requires
        den > 0,
        num <= 0x1_0000_0000_0000_0000_0000_0000_0000,
    ensures
        r == scale_channel(c, num as int, den as int),
{
    proof {
        assert(c * num <= 255 * 0x1_0000_0000_0000_0000_0000_0000_0000) by (nonlinear_arith)
            requires
                c <= 255,
                num <= 0x1_0000_0000_0000_0000_0000_0000_0000,
        ;
    }
    let v = (c as u128) * num / den;
    if v > 255 {
        255
    } else {
        v as u8
    }
}

/// The layout of one pixel: grayscale (1 byte), RGB (3 bytes) or RGBA (4 bytes).
#[derive(PartialEq, Eq, Structural, Clone, Copy, Debug)]
pub enum TGAFormat {
    GRAYSCALE,
    RGB,
    RGBA,
}

/// Bytes per pixel of a format.
pub open spec fn format_bpp(f: TGAFormat) -> nat {
    match f {
        TGAFormat::GRAYSCALE => 1,
        TGAFormat::RGB => 3,
        TGAFormat::RGBA => 4,
    }
}

/// The mathematical content of a pixel buffer.
pub struct Raster {
    pub width: nat,
    pub height: nat,
    pub format: TGAFormat,
    pub data: Seq<u8>,
}

/// Byte offset of pixel (x, y) in a row-major buffer.
pub open spec fn pixel_offset(width: nat, bpp: nat, x: nat, y: nat) -> nat {
    (x + y * width) * bpp
}

impl Raster {
    pub open spec fn bpp(self) -> nat {
        format_bpp(self.format)
    }

    /// The buffer holds exactly one pixel's bytes for every position.
    pub open spec fn wf(self) -> bool {
        self.data.len() == self.width * self.height * self.bpp()
    }

    pub open spec fn in_bounds(self, x: int, y: int) -> bool {
        0 <= x < self.width && 0 <= y < self.height
    }

    pub open spec fn offset(self, x: int, y: int) -> int {
        pixel_offset(self.width, self.bpp(), x as nat, y as nat) as int
    }

    /// The color read at (x, y); positions outside the buffer read as `CLEAR`.
    pub open spec fn get(self, x: int, y: int) -> TGAColor {
        if !self.in_bounds(x, y) {
            TGAColor { r: 0, g: 0, b: 0, a: 0 }
        } else {
            let o = self.offset(x, y);
            match self.format {
                TGAFormat::GRAYSCALE => TGAColor { r: 0, g: 0, b: self.data[o], a: 0 },
                TGAFormat::RGB => TGAColor {
                    r: self.data[o + 2],
                    g: self.data[o + 1],
                    b: self.data[o],
                    a: 255,
                },
                TGAFormat::RGBA => TGAColor {
                    r: self.data[o + 2],
                    g: self.data[o + 1],
                    b: self.data[o],
                    a: self.data[o + 3],
                },
            }
        }
    }

    /// The source byte of byte `j` of the vertically mirrored buffer.
    pub open spec fn flip_v_source(self, j: int) -> int {
        let p = j / self.bpp() as int;
        pixel_offset(self.width, self.bpp(), (p % self.width as int) as nat, (self.height - 1 - p / self.width as int) as nat) + j % self.bpp() as int
    }

    /// The source byte of byte `j` of the horizontally mirrored buffer.
    pub open spec fn flip_h_source(self, j: int) -> int {
        let p = j / self.bpp() as int;
        pixel_offset(self.width, self.bpp(), (self.width - 1 - p % self.width as int) as nat, (p / self.width as int) as nat) + j % self.bpp() as int
    }

    /// The buffer with its rows in reverse order.
    pub open spec fn flip_v(self) -> Raster {
        Raster { data: Seq::new(self.data.len(), |j: int| self.data[self.flip_v_source(j)]), ..self }
    }

    /// The buffer with each row's pixels in reverse order.
    pub open spec fn flip_h(self) -> Raster {
        Raster { data: Seq::new(self.data.len(), |j: int| self.data[self.flip_h_source(j)]), ..self }
    }

    /// The buffer resampled to `w` x `h` pixels by nearest neighbour: target
    /// column t takes source column min(ceil(t * width / w), width - 1) and
    /// target row r takes source row floor(((r + 1) * height - 1) / h), so
    /// every target pixel is a source pixel. An empty source gives zeros.
    pub open spec fn scaled(self, w: nat, h: nat) -> Raster {
        Raster {
            width: w,
            height: h,
            format: self.format,
            data: Seq::new(
                w * h * self.bpp(),
                |j: int|
                    {
                        let p = j / self.bpp() as int;
                        let sx = scale_col(self.width, w, (p % w as int) as nat);
                        let sy = scale_src_row(self.height, h, (p / w as int) as nat);
                        if self.width > 0 && self.height > 0 {
                            self.data[pixel_offset(self.width, self.bpp(), sx as nat, sy as nat) + j
                                % self.bpp() as int]
                        } else {
                            0u8
                        }
                    },
            ),
        }
    }

    /// The buffer after writing `c` at (x, y): the first `bpp` bytes of the
    /// color in on-disk order replace the pixel; outside writes change nothing.
    pub open spec fn set(self, x: int, y: int, c: TGAColor) -> Raster {
        if !self.in_bounds(x, y) {
            self
        } else {
            let o = self.offset(x, y);
            Raster {
                data: self.data.subrange(0, o) + color_bytes(c).subrange(0, self.bpp() as int)
                    + self.data.subrange(o + self.bpp(), self.data.len() as int),
                ..self
            }
        }
    }
}

/// Byte `k` of pixel (x, y) lies before the end of the buffer.
pub proof fn lemma_offset_in_bounds(w: nat, h: nat, bpp: nat, x: nat, y: nat, k: nat)
    requires
        x < w,
        y < h,
        k < bpp,
    ensures
        pixel_offset(w, bpp, x, y) + k < w * h * bpp,
        pixel_offset(w, bpp, x, y) + bpp <= w * h * bpp,
        x + y * w <= pixel_offset(w, bpp, x, y),
{
    assert((x + y * w) * bpp + bpp <= w * h * bpp) by (nonlinear_arith)
        requires
            x < w,
            y < h,
    ;
    assert(x + y * w <= (x + y * w) * bpp) by (nonlinear_arith)
        requires
            k < bpp,
    ;
}

/// Byte `k` of pixel (x, y) splits back into its pixel and channel.
pub proof fn lemma_offset_decompose(w: nat, bpp: nat, x: nat, y: nat, k: nat)
    requires
        x < w,
        k < bpp,
    ensures
        ((pixel_offset(w, bpp, x, y) + k) as int / bpp as int) == x + y * w,
        ((pixel_offset(w, bpp, x, y) + k) as int % bpp as int) == k,
        ((x + y * w) as int % w as int) == x,
        ((x + y * w) as int / w as int) == y,
{
    lemma_fundamental_div_mod_converse(
        (pixel_offset(w, bpp, x, y) + k) as int,
        bpp as int,
        (x + y * w) as int,
        k as int,
    );
    lemma_fundamental_div_mod_converse((x + y * w) as int, w as int, y as int, x as int);
}

/// Every byte index of a well-formed buffer is byte `k` of some pixel (x, y).
pub proof fn lemma_index_recompose(w: nat, h: nat, bpp: nat, j: int)
    requires
        0 <= j < w * h * bpp,
    ensures
        w > 0,
        bpp > 0,
        ({
            let p = j / bpp as int;
            let x = p % w as int;
            let y = p / w as int;
            let k = j % bpp as int;
            &&& 0 <= x < w
            &&& 0 <= y < h
            &&& 0 <= k < bpp
            &&& j == pixel_offset(w, bpp, x as nat, y as nat) + k
        }),
{
    if w == 0 || bpp == 0 {
        assert(w * h * bpp == 0) by (nonlinear_arith)
            requires
                w == 0 || bpp == 0,
        ;
    }
    let p = j / bpp as int;
    lemma_fundamental_div_mod(j, bpp as int);
    lemma_mod_pos_bound(j, bpp as int);
    assert(j < bpp * (w * h)) by (nonlinear_arith)
        requires
            j < w * h * bpp,
    ;
    lemma_multiply_divide_lt(j, bpp as int, (w * h) as int);
    assert(p >= 0) by (nonlinear_arith)
        requires
            p == j / bpp as int,
            j >= 0,
            bpp > 0,
    ;
    lemma_fundamental_div_mod(p, w as int);
    lemma_mod_pos_bound(p, w as int);
    assert(p < w * h);
    lemma_multiply_divide_lt(p, w as int, h as int);
    assert(p / w as int >= 0) by (nonlinear_arith)
        requires
            p >= 0,
            w > 0,
    ;
    assert(j == (p % w as int + (p / w as int) * w) * bpp + j % bpp as int) by (nonlinear_arith)
        requires
            j == bpp * p + j % bpp as int,
            p == w * (p / w as int) + p % w as int,
    ;
}

/// Writing a pixel keeps a buffer well formed.
pub proof fn lemma_set_wf(g: Raster, x: int, y: int, c: TGAColor)
    requires
        g.wf(),
    ensures
        g.set(x, y, c).wf(),
        g.set(x, y, c).width == g.width,
        g.set(x, y, c).height == g.height,
        g.set(x, y, c).format == g.format,
{
    if g.in_bounds(x, y) {
        lemma_offset_in_bounds(g.width, g.height, g.bpp(), x as nat, y as nat, 0);
    }
}

/// A second write at the same pixel replaces the first.
pub proof fn lemma_set_set(g: Raster, x: int, y: int, c1: TGAColor, c2: TGAColor)
    requires
        g.wf(),
    ensures
        g.set(x, y, c1).set(x, y, c2) == g.set(x, y, c2),
{
    if g.in_bounds(x, y) {
        lemma_offset_in_bounds(g.width, g.height, g.bpp(), x as nat, y as nat, 0);
        lemma_set_wf(g, x, y, c1);
        assert(g.set(x, y, c1).set(x, y, c2).data =~= g.set(x, y, c2).data);
    }
}

/// Writes at two different pixels can be made in either order.
pub proof fn lemma_set_commute(g: Raster, x1: int, y1: int, c1: TGAColor, x2: int, y2: int, c2: TGAColor)
    requires
        g.wf(),
        g.in_bounds(x1, y1),
        g.in_bounds(x2, y2),
        x1 != x2 || y1 != y2,
    ensures
        g.set(x1, y1, c1).set(x2, y2, c2) == g.set(x2, y2, c2).set(x1, y1, c1),
{
    let (w, bpp) = (g.width, g.bpp());
    lemma_offset_in_bounds(g.width, g.height, bpp, x1 as nat, y1 as nat, 0);
    lemma_offset_in_bounds(g.width, g.height, bpp, x2 as nat, y2 as nat, 0);
    lemma_offset_decompose(w, bpp, x1 as nat, y1 as nat, 0);
    lemma_offset_decompose(w, bpp, x2 as nat, y2 as nat, 0);
    let l1 = x1 + y1 * w;
    let l2 = x2 + y2 * w;
    assert(l1 != l2);
    let o1 = g.offset(x1, y1);
    let o2 = g.offset(x2, y2);
    assert(o1 + bpp <= o2 || o2 + bpp <= o1) by (nonlinear_arith)
        requires
            o1 == l1 * bpp,
            o2 == l2 * bpp,
            l1 != l2,
            bpp >= 1,
    ;
    lemma_set_wf(g, x1, y1, c1);
    lemma_set_wf(g, x2, y2, c2);
    let a = g.set(x1, y1, c1).set(x2, y2, c2);
    let b = g.set(x2, y2, c2).set(x1, y1, c1);
    assert(a.data =~= b.data);
}

/// Resampling a buffer to any size, and back to its own size, gives well
/// formed buffers of exactly width * height * bytes-per-pixel bytes.
pub proof fn lemma_scale_keeps_length(g: Raster, w: nat, h: nat)
    requires
        g.wf(),
    ensures
        g.scaled(w, h).wf(),
        g.scaled(w, h).data.len() == w * h * g.bpp(),
        g.scaled(w, h).scaled(g.width, g.height).wf(),
        g.scaled(w, h).scaled(g.width, g.height).data.len() == g.data.len(),
{
}

/// Resampling a non-empty buffer is nearest neighbour: every byte of every
/// target pixel is the same byte of one source pixel.
pub proof fn lemma_scaled_from_source(g: Raster, w: nat, h: nat, i: nat, j: nat, k: nat)
    requires
        g.wf(),
        g.width > 0,
        g.height > 0,
        i < w,
        j < h,
        k < g.bpp(),
    ensures
        ({
            let sx = scale_col(g.width, w, i);
            let sy = scale_src_row(g.height, h, j);
            &&& 0 <= sx < g.width
            &&& 0 <= sy < g.height
            &&& g.scaled(w, h).data[pixel_offset(w, g.bpp(), i, j) + k as int]
                == g.data[pixel_offset(g.width, g.bpp(), sx as nat, sy as nat) + k as int]
        }),
{
    let bpp = g.bpp();
    lemma_offset_decompose(w, bpp, i, j, k);
    lemma_offset_in_bounds(w, h, bpp, i, j, k);
    let n = (i * g.width + w - 1) as int;
    assert(n >= 0) by (nonlinear_arith)
        requires
            n == i * g.width + w - 1,
            w > 0,
    ;
    lemma_fundamental_div_mod(n, w as int);
    lemma_mod_pos_bound(n, w as int);
    assert(n / (w as int) >= 0) by (nonlinear_arith)
        requires
            n == w * (n / (w as int)) + n % (w as int),
            n >= 0,
            n % (w as int) < w,
            w > 0,
    ;
    let m = ((j + 1) * g.height - 1) as int;
    assert(0 <= m < h * g.height) by (nonlinear_arith)
        requires
            m == (j + 1) * g.height - 1,
            j < h,
            g.height > 0,
    ;
    lemma_fundamental_div_mod(m, h as int);
    lemma_mod_pos_bound(m, h as int);
    assert(0 <= m / (h as int) < g.height) by (nonlinear_arith)
        requires
            m == h * (m / (h as int)) + m % (h as int),
            0 <= m < h * g.height,
            0 <= m % (h as int) < h,
    ;
}

/// Mirroring a buffer left to right twice gives back the buffer.
pub proof fn lemma_flip_h_involutive(g: Raster)
    requires
        g.wf(),
    ensures
        g.flip_h().flip_h() == g,
{
    let f = g.flip_h();
    let ff = f.flip_h();
    assert forall|j: int| 0 <= j < g.data.len() implies #[trigger] ff.data[j] == g.data[j] by {
        let (w, h, bpp) = (g.width, g.height, g.bpp());
        lemma_index_recompose(w, h, bpp, j);
        let p = j / bpp as int;
        let x = (p % w as int) as nat;
        let y = (p / w as int) as nat;
        let k = (j % bpp as int) as nat;
        let m = f.flip_h_source(j);
        lemma_offset_decompose(w, bpp, (w - 1 - x) as nat, y, k);
        lemma_offset_in_bounds(w, h, bpp, (w - 1 - x) as nat, y, k);
        assert(g.flip_h_source(m) == j);
    }
    assert(ff.data =~= g.data);
}

/// Mirroring a buffer top to bottom twice gives back the buffer.
pub proof fn lemma_flip_v_involutive(g: Raster)
    requires
        g.wf(),
    ensures
        g.flip_v().flip_v() == g,
{
    let f = g.flip_v();
    let ff = f.flip_v();
    assert forall|j: int| 0 <= j < g.data.len() implies #[trigger] ff.data[j] == g.data[j] by {
        let (w, h, bpp) = (g.width, g.height, g.bpp());
        lemma_index_recompose(w, h, bpp, j);
        let p = j / bpp as int;
        let x = (p % w as int) as nat;
        let y = (p / w as int) as nat;
        let k = (j % bpp as int) as nat;
        let m = f.flip_v_source(j);
        lemma_offset_decompose(w, bpp, x, (h - 1 - y) as nat, k);
        lemma_offset_in_bounds(w, h, bpp, x, (h - 1 - y) as nat, k);
        assert(g.flip_v_source(m) == j);
    }
    assert(ff.data =~= g.data);
}

/// A zero-filled byte vector.
pub fn zeroed_bytes(n: usize) -> (v: Vec<u8>)
    ensures
        v@ == Seq::new(n as nat, |i: int| 0u8),
{
    let mut v: Vec<u8> = Vec::with_capacity(n);
    let mut i: usize = 0;
    while i < n
        invariant
            i <= n,
            v@ == Seq::new(i as nat, |j: int| 0u8),
        decreases n - i,
    {
        v.push(0u8);
        i += 1;
    }
    v
}

/// A pixel buffer of `width` x `height` pixels.
pub struct TGAImage {
    width: usize,
    height: usize,
    format: TGAFormat,
    data: Vec<u8>,
}

impl View for TGAImage {
    type V = Raster;

    closed spec fn view(&self) -> Raster {
        Raster { width: self.width as nat, height: self.height as nat, format: self.format, data: self.data@ }
    }
}

impl TGAFormat {
    /// Bytes per pixel.
    pub fn bytes_per_pixel(&self) -> (r: usize)
        ensures
            r == format_bpp(*self),
    {
        match self {
            TGAFormat::GRAYSCALE => 1,
            TGAFormat::RGB => 3,
            TGAFormat::RGBA => 4,
        }
    }
}

impl TGAImage {
    pub open spec fn wf(&self) -> bool {
        self@.wf()
    }

    /// An all-zero buffer of the given size and format.
    pub fn new(width: usize, height: usize, format: TGAFormat) -> (img: Self)
        requires
            width * height * format_bpp(format) <= usize::MAX,
        ensures
            img.wf(),
            img@.width == width,
            img@.height == height,
            img@.format == format,
            img@.data == Seq::new((width * height * format_bpp(format)) as nat, |i: int| 0u8),
    {
        let bytespp = format.bytes_per_pixel();
        let n = width * height * bytespp;
        TGAImage { width, height, format, data: zeroed_bytes(n) }
    }

    /// Builds a buffer around existing pixel bytes; `None` when their number
    /// is not width * height * bytes per pixel.
    pub fn from_raw_parts(width: usize, height: usize, format: TGAFormat, data: Vec<u8>) -> (r: Option<Self>)
        ensures
            r.is_some() <==> data@.len() == width * height * format_bpp(format),
            r.is_some() ==> r.unwrap()@ == (Raster { width: width as nat, height: height as nat, format, data: data@ }),
            r.is_some() ==> r.unwrap().wf(),
    {
        let bytespp = format.bytes_per_pixel();
        let dlen = data.len();
        match width.checked_mul(height) {
            Some(n) => match n.checked_mul(bytespp) {
                Some(len) => {
                    if dlen == len {
                        Some(TGAImage { width, height, format, data })
                    } else {
                        None
                    }
                },
                None => {
                    None
                },
            },
            None => {
                proof {
                    assert(width * height * format_bpp(format) >= width * height) by (nonlinear_arith)
                        requires
                            format_bpp(format) >= 1,
                    ;
                }
                None
            },
        }
    }

    /// Bytes per pixel.
    pub fn bytespp(&self) -> (r: usize)
        ensures
            r == self@.bpp(),
    {
        self.format.bytes_per_pixel()
    }

    /// Width in pixels.
    pub fn get_width(&self) -> (r: usize)
        ensures
            r == self@.width,
    {
        self.width
    }

    /// Height in pixels.
    pub fn get_height(&self) -> (r: usize)
        ensures
            r == self@.height,
    {
        self.height
    }

    /// Pixel format.
    pub fn get_format(&self) -> (r: TGAFormat)
        ensures
            r == self@.format,
    {
        self.format
    }

    /// The pixel bytes, row-major, each pixel in on-disk channel order.
    pub fn data(&self) -> (r: &Vec<u8>)
        ensures
            r@ == self@.data,
    {
        &self.data
    }
}

impl TGAImage {
    /// Byte offset of pixel (x, y).
    fn offset(&self, x: usize, y: usize) -> (r: usize)
        requires
            self.wf(),
            x < self@.width,
            y < self@.height,
        ensures
            r == self@.offset(x as int, y as int),
            r + self@.bpp() <= self@.data.len(),
            self@.data.len() <= usize::MAX,
    {
        let len = self.data.len();
        let bytespp = self.bytespp();
        proof {
            lemma_offset_in_bounds(self@.width, self@.height, self@.bpp(), x as nat, y as nat, 0);
        }
        (x + y * self.width) * bytespp
    }

    /// The color at (x, y); `CLEAR` (all channels zero) outside the buffer.
    pub fn get(&self, x: usize, y: usize) -> (c: TGAColor)
        requires
            self.wf(),
        ensures
            c == self@.get(x as int, y as int),
    {
        if x >= self.width || y >= self.height {
            return TGAColor::clear();
        }
        let offset = self.offset(x, y);
        match self.format {
            TGAFormat::GRAYSCALE => TGAColor { r: 0, g: 0, b: self.data[offset], a: 0 },
            TGAFormat::RGB => TGAColor {
                r: self.data[offset + 2],
                g: self.data[offset + 1],
                b: self.data[offset],
                a: 255,
            },
            TGAFormat::RGBA => TGAColor {
                r: self.data[offset + 2],
                g: self.data[offset + 1],
                b: self.data[offset],
                a: self.data[offset + 3],
            },
        }
    }

    /// Writes `color` at (x, y). Returns false, changing nothing, when the
    /// position lies outside the buffer.
    pub fn set(&mut self, x: usize, y: usize, color: TGAColor) -> (ok: bool)
        requires
            old(self).wf(),
        ensures
            final(self).wf(),
            ok == old(self)@.in_bounds(x as int, y as int),
            final(self)@ == old(self)@.set(x as int, y as int, color),
    {
        if x >= self.width || y >= self.height {
            return false;
        }
        let bytespp = self.bytespp();
        let offset = self.offset(x, y);
        let raw = color.raw();
        let ghost before = self.data@;
        let mut k: usize = 0;
        while k < bytespp
            invariant
                self.wf(),
                self.width == old(self).width,
                self.height == old(self).height,
                self.format == old(self).format,
                before == old(self)@.data,
                bytespp == self@.bpp(),
                bytespp <= 4,
                offset == old(self)@.offset(x as int, y as int),
                offset + bytespp <= before.len(),
                before.len() <= usize::MAX,
                raw@ == color_bytes(color),
                k <= bytespp,
                self.data@.len() == before.len(),
                forall|j: int|
                    0 <= j < before.len() ==> #[trigger] self.data@[j] == if offset <= j < offset + k {
                        raw@[j - offset]
                    } else {
                        before[j]
                    },
            decreases bytespp - k,
        {
            self.data.set(offset + k, raw[k]);
            k += 1;
        }
        assert(self.data@ =~= old(self)@.set(x as int, y as int, color).data);
        true
    }

    /// Resets every byte to zero.
    pub fn clear(&mut self)
        requires
            old(self).wf(),
        ensures
            final(self).wf(),
            final(self)@ == (Raster { data: Seq::new(old(self)@.data.len(), |i: int| 0u8), ..old(self)@ }),
    {
        let n = self.data.len();
        self.data = zeroed_bytes(n);
    }

    /// Exchanges the colors of pixels (x1, y1) and (x2, y2).
    pub fn swap(&mut self, x1: usize, y1: usize, x2: usize, y2: usize)
        requires
            old(self).wf(),
            old(self)@.in_bounds(x1 as int, y1 as int),
            old(self)@.in_bounds(x2 as int, y2 as int),
        ensures
            final(self).wf(),
            final(self)@ == old(self)@.set(x1 as int, y1 as int, old(self)@.get(x2 as int, y2 as int)).set(
                x2 as int,
                y2 as int,
                old(self)@.get(x1 as int, y1 as int),
            ),
    {
        let c1 = self.get(x1, y1);
        let c2 = self.get(x2, y2);
        self.set(x1, y1, c2);
        self.set(x2, y2, c1);
    }

    /// Mirrors the buffer left to right.
    pub fn flip_horizontally(&mut self)
        requires
            old(self).wf(),
        ensures
            final(self).wf(),
            final(self)@ == old(self)@.flip_h(),
    {
        let ghost g = self@;
        let w = self.width;
        let h = self.height;
        let bytespp = self.bytespp();
        let mut out: Vec<u8> = Vec::with_capacity(self.data.len());
        let mut y: usize = 0;
        proof {
            assert(pixel_offset(w as nat, bytespp as nat, 0, 0) == 0) by (nonlinear_arith);
        }
        while y < h
            invariant
                self@ == g,
                g.wf(),
                w == g.width,
                h == g.height,
                bytespp == g.bpp(),
                y <= h,
                out@.len() == pixel_offset(w as nat, bytespp as nat, 0, y as nat),
                forall|j: int| 0 <= j < out@.len() ==> #[trigger] out@[j] == g.data[g.flip_h_source(j)],
            decreases h - y,
        {
            let mut x: usize = 0;
            while x < w
                invariant
                    self@ == g,
                    g.wf(),
                    w == g.width,
                    h == g.height,
                    bytespp == g.bpp(),
                    y < h,
                    x <= w,
                    out@.len() == pixel_offset(w as nat, bytespp as nat, x as nat, y as nat),
                    forall|j: int| 0 <= j < out@.len() ==> #[trigger] out@[j] == g.data[g.flip_h_source(j)],
                decreases w - x,
            {
                let src = self.offset(w - 1 - x, y);
                let mut k: usize = 0;
                while k < bytespp
                    invariant
                        self@ == g,
                        g.wf(),
                        w == g.width,
                        h == g.height,
                        bytespp == g.bpp(),
                        y < h,
                        x < w,
                        k <= bytespp,
                        src == pixel_offset(w as nat, bytespp as nat, (w - 1 - x) as nat, y as nat),
                        src + bytespp <= g.data.len(),
                        g.data.len() <= usize::MAX,
                        out@.len() == pixel_offset(w as nat, bytespp as nat, x as nat, y as nat) + k,
                        forall|j: int| 0 <= j < out@.len() ==> #[trigger] out@[j] == g.data[g.flip_h_source(j)],
                    decreases bytespp - k,
                {
                    proof {
                        lemma_offset_decompose(w as nat, bytespp as nat, x as nat, y as nat, k as nat);
                    }
                    out.push(self.data[src + k]);
                    k += 1;
                }
                proof {
                    assert(pixel_offset(w as nat, bytespp as nat, x as nat, y as nat) + bytespp
                        == pixel_offset(w as nat, bytespp as nat, (x + 1) as nat, y as nat)) by (nonlinear_arith);
                }
                x += 1;
            }
            proof {
                assert(pixel_offset(w as nat, bytespp as nat, w as nat, y as nat)
                    == pixel_offset(w as nat, bytespp as nat, 0, (y + 1) as nat)) by (nonlinear_arith);
            }
            y += 1;
        }
        proof {
            assert(pixel_offset(w as nat, bytespp as nat, 0, h as nat) == g.data.len()) by (nonlinear_arith)
                requires
                    g.data.len() == w * h * bytespp,
            ;
        }
        self.data = out;
        assert(self@.data =~= g.flip_h().data);
    }

    /// Mirrors the buffer top to bottom.
    pub fn flip_vertically(&mut self)
        requires
            old(self).wf(),
        ensures
            final(self).wf(),
            final(self)@ == old(self)@.flip_v(),
    {
        let ghost g = self@;
        let w = self.width;
        let h = self.height;
        let bytespp = self.bytespp();
        let mut out: Vec<u8> = Vec::with_capacity(self.data.len());
        let mut y: usize = 0;
        proof {
            assert(pixel_offset(w as nat, bytespp as nat, 0, 0) == 0) by (nonlinear_arith);
        }
        while y < h
            invariant
                self@ == g,
                g.wf(),
                w == g.width,
                h == g.height,
                bytespp == g.bpp(),
                y <= h,
                out@.len() == pixel_offset(w as nat, bytespp as nat, 0, y as nat),
                forall|j: int| 0 <= j < out@.len() ==> #[trigger] out@[j] == g.data[g.flip_v_source(j)],
            decreases h - y,
        {
            let mut x: usize = 0;
            while x < w
                invariant
                    self@ == g,
                    g.wf(),
                    w == g.width,
                    h == g.height,
                    bytespp == g.bpp(),
                    y < h,
                    x <= w,
                    out@.len() == pixel_offset(w as nat, bytespp as nat, x as nat, y as nat),
                    forall|j: int| 0 <= j < out@.len() ==> #[trigger] out@[j] == g.data[g.flip_v_source(j)],
                decreases w - x,
            {
                let src = self.offset(x, h - 1 - y);
                let mut k: usize = 0;
                while k < bytespp
                    invariant
                        self@ == g,
                        g.wf(),
                        w == g.width,
                        h == g.height,
                        bytespp == g.bpp(),
                        y < h,
                        x < w,
                        k <= bytespp,
                        src == pixel_offset(w as nat, bytespp as nat, x as nat, (h - 1 - y) as nat),
                        src + bytespp <= g.data.len(),
                        g.data.len() <= usize::MAX,
                        out@.len() == pixel_offset(w as nat, bytespp as nat, x as nat, y as nat) + k,
                        forall|j: int| 0 <= j < out@.len() ==> #[trigger] out@[j] == g.data[g.flip_v_source(j)],
                    decreases bytespp - k,
                {
                    proof {
                        lemma_offset_decompose(w as nat, bytespp as nat, x as nat, y as nat, k as nat);
                    }
                    out.push(self.data[src + k]);
                    k += 1;
                }
                proof {
                    assert(pixel_offset(w as nat, bytespp as nat, x as nat, y as nat) + bytespp
                        == pixel_offset(w as nat, bytespp as nat, (x + 1) as nat, y as nat)) by (nonlinear_arith);
                }
                x += 1;
            }
            proof {
                assert(pixel_offset(w as nat, bytespp as nat, w as nat, y as nat)
                    == pixel_offset(w as nat, bytespp as nat, 0, (y + 1) as nat)) by (nonlinear_arith);
            }
            y += 1;
        }
        proof {
            assert(pixel_offset(w as nat, bytespp as nat, 0, h as nat) == g.data.len()) by (nonlinear_arith)
                requires
                    g.data.len() == w * h * bytespp,
            ;
        }
        self.data = out;
        assert(self@.data =~= g.flip_v().data);
    }
}

impl TGAImage {
    /// Resamples the buffer to `w` x `h` pixels by nearest neighbour, choosing
    /// source pixels with an integer error accumulator per axis.
    pub fn scale(&mut self, w: usize, h: usize)
        requires
            old(self).wf(),
            w > 0,
            h > 0,
            w * h * old(self)@.bpp() <= usize::MAX,
        ensures
            final(self).wf(),
            final(self)@ == old(self)@.scaled(w as nat, h as nat),
    {
        let ghost g = self@;
        let bytespp = self.bytespp();
        let ow = self.width;
        let oh = self.height;
        let dlen = self.data.len();
        proof {
            assert(w * h <= w * h * bytespp) by (nonlinear_arith)
                requires
                    bytespp >= 1,
            ;
        }
        if ow == 0 || oh == 0 {
            self.data = zeroed_bytes(w * h * bytespp);
            self.width = w;
            self.height = h;
            assert(self@.data =~= g.scaled(w as nat, h as nat).data);
            return;
        }
        let cols = scale_columns(ow, w);
        let rows = scale_rows(oh, h);
        let mut out: Vec<u8> = Vec::with_capacity(w * h * bytespp);
        let ghost target = g.scaled(w as nat, h as nat);
        let mut y: usize = 0;
        proof {
            assert(pixel_offset(w as nat, bytespp as nat, 0, 0) == 0) by (nonlinear_arith);
        }
        while y < h
            invariant
                self@ == g,
                g.wf(),
                ow == g.width,
                oh == g.height,
                ow > 0,
                oh > 0,
                bytespp == g.bpp(),
                target == g.scaled(w as nat, h as nat),
                dlen == g.data.len(),
                w > 0,
                cols@.len() == w,
                rows@.len() == h,
                forall|t: int| 0 <= t < w ==> #[trigger] cols@[t] == scale_col(ow as nat, w as nat, t as nat) && cols@[t] < ow,
                rows_reached(rows@, oh as nat, h as nat, h as int),
                y <= h,
                out@.len() == pixel_offset(w as nat, bytespp as nat, 0, y as nat),
                forall|j: int| 0 <= j < out@.len() ==> #[trigger] out@[j] == target.data[j],
            decreases h - y,
        {
            let sy = rows[y];
            let mut x: usize = 0;
            while x < w
                invariant
                    self@ == g,
                    g.wf(),
                    ow == g.width,
                    oh == g.height,
                    ow > 0,
                    oh > 0,
                    bytespp == g.bpp(),
                    target == g.scaled(w as nat, h as nat),
                    dlen == g.data.len(),
                    cols@.len() == w,
                    forall|t: int| 0 <= t < w ==> #[trigger] cols@[t] == scale_col(ow as nat, w as nat, t as nat) && cols@[t] < ow,
                    y < h,
                    sy == scale_src_row(oh as nat, h as nat, y as nat),
                    sy < oh,
                    x <= w,
                    out@.len() == pixel_offset(w as nat, bytespp as nat, x as nat, y as nat),
                    forall|j: int| 0 <= j < out@.len() ==> #[trigger] out@[j] == target.data[j],
                decreases w - x,
            {
                let sx = cols[x];
                let src = self.offset(sx, sy);
                let mut k: usize = 0;
                while k < bytespp
                    invariant
                        self@ == g,
                        g.wf(),
                        ow == g.width,
                        oh == g.height,
                        ow > 0,
                        oh > 0,
                        bytespp == g.bpp(),
                        target == g.scaled(w as nat, h as nat),
                        y < h,
                        x < w,
                        sy == scale_src_row(oh as nat, h as nat, y as nat),
                        sy < oh,
                        sx == scale_col(ow as nat, w as nat, x as nat),
                        sx < ow,
                        src == pixel_offset(ow as nat, bytespp as nat, sx as nat, sy as nat),
                        src + bytespp <= g.data.len(),
                        g.data.len() <= usize::MAX,
                        k <= bytespp,
                        out@.len() == pixel_offset(w as nat, bytespp as nat, x as nat, y as nat) + k,
                        forall|j: int| 0 <= j < out@.len() ==> #[trigger] out@[j] == target.data[j],
                    decreases bytespp - k,
                {
                    proof {
                        lemma_offset_decompose(w as nat, bytespp as nat, x as nat, y as nat, k as nat);
                        lemma_offset_in_bounds(w as nat, h as nat, bytespp as nat, x as nat, y as nat, k as nat);
                    }
                    out.push(self.data[src + k]);
                    k += 1;
                }
                proof {
                    assert(pixel_offset(w as nat, bytespp as nat, x as nat, y as nat) + bytespp
                        == pixel_offset(w as nat, bytespp as nat, (x + 1) as nat, y as nat)) by (nonlinear_arith);
                }
                x += 1;
            }
            proof {
                assert(pixel_offset(w as nat, bytespp as nat, w as nat, y as nat)
                    == pixel_offset(w as nat, bytespp as nat, 0, (y + 1) as nat)) by (nonlinear_arith);
            }
            y += 1;
        }
        proof {
            assert(pixel_offset(w as nat, bytespp as nat, 0, h as nat) == w * h * bytespp) by (nonlinear_arith);
        }
        self.data = out;
        self.width = w;
        self.height = h;
        assert(self@.data =~= target.data);
    }
}

} // verus!
