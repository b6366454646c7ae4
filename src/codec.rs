//! The binary image file format: an 18-byte header, raw or run-length encoded
//! pixel data, and a fixed trailer.
use crate::image::{format_bpp, Raster, TGAFormat, TGAImage};
use crate::rle::{
    extend_from, lemma_unpack_len, lemma_unpack_stream, load_rle_data, rle_stream, rle_unpack,
    unload_rle_data,
};
use vstd::arithmetic::div_mod::lemma_fundamental_div_mod;
use vstd::prelude::*;

verus! {

/// Why a byte stream could not be decoded.
#[derive(PartialEq, Eq, Structural, Clone, Copy, Debug)]
pub enum TgaError {
    /// The stream ended before the header or the pixel data did.
    Truncated,
    /// The header holds an unsupported pixel depth, a zero dimension or an
    /// unknown data type code.
    BadFormat,
    /// A run-length packet describes more pixels than the header declares.
    ExcessPixels,
    /// The declared pixel data would not fit in memory on this machine.
    TooLarge,
}

/// The fixed 18-byte file header. Multi-byte fields are little-endian on disk.
#[derive(PartialEq, Eq, Structural, Clone, Copy, Debug)]
pub struct TGAHeader {
    pub id_length: u8,
    pub color_map_type: u8,
    pub data_type_code: u8,
    pub color_map_origin: u16,
    pub color_map_length: u16,
    pub color_map_depth: u8,
    pub x_origin: u16,
    pub y_origin: u16,
    pub width: u16,
    pub height: u16,
    pub bits_per_pixel: u8,
    pub image_descriptor: u8,
}

/// Length of the fixed file header in bytes.
pub const HEADER_LEN: usize = 18;

/// The little-endian 16-bit value at `b[i]`, `b[i + 1]`.
pub open spec fn u16_le(b: Seq<u8>, i: int) -> u16 {
    (b[i] as int + b[i + 1] as int * 256) as u16
}

/// The two little-endian bytes of `v`.
pub open spec fn u16_bytes(v: u16) -> Seq<u8> {
    seq![(v % 256) as u8, (v / 256) as u8]
}

/// The header read from the first 18 bytes of `b`.
pub open spec fn parse_header(b: Seq<u8>) -> TGAHeader {
    TGAHeader {
        id_length: b[0],
        color_map_type: b[1],
        data_type_code: b[2],
        color_map_origin: u16_le(b, 3),
        color_map_length: u16_le(b, 5),
        color_map_depth: b[7],
        x_origin: u16_le(b, 8),
        y_origin: u16_le(b, 10),
        width: u16_le(b, 12),
        height: u16_le(b, 14),
        bits_per_pixel: b[16],
        image_descriptor: b[17],
    }
}

/// The 18 bytes of a header, fields in order.
pub open spec fn header_bytes(h: TGAHeader) -> Seq<u8> {
    seq![h.id_length, h.color_map_type, h.data_type_code] + u16_bytes(h.color_map_origin)
        + u16_bytes(h.color_map_length) + seq![h.color_map_depth] + u16_bytes(h.x_origin)
        + u16_bytes(h.y_origin) + u16_bytes(h.width) + u16_bytes(h.height) + seq![
        h.bits_per_pixel,
        h.image_descriptor,
    ]
}

/// The pixel format with the given number of bytes per pixel, if any.
pub open spec fn format_of_depth(bytes: u8) -> Option<TGAFormat> {
    if bytes == 1 {
        Some(TGAFormat::GRAYSCALE)
    } else if bytes == 3 {
        Some(TGAFormat::RGB)
    } else if bytes == 4 {
        Some(TGAFormat::RGBA)
    } else {
        None
    }
}

/// The buffer after the orientation flags of the descriptor byte: without
/// bit 0x20 the rows are stored bottom-up, with bit 0x10 right to left.
pub open spec fn orient(g: Raster, descriptor: u8) -> Raster {
    let g1 = if descriptor & 0x20 == 0 {
        g.flip_v()
    } else {
        g
    };
    if descriptor & 0x10 != 0 {
        g1.flip_h()
    } else {
        g1
    }
}

/// What decoding the bytes `b` gives.
pub open spec fn decode_spec(b: Seq<u8>) -> Result<Raster, TgaError> {
    if b.len() < HEADER_LEN {
        Err(TgaError::Truncated)
    } else {
        let h = parse_header(b);
        let f = format_of_depth(h.bits_per_pixel / 8);
        if h.width == 0 || h.height == 0 || f.is_none() {
            Err(TgaError::BadFormat)
        } else {
            let format = f.unwrap();
            let bpp = format_bpp(format);
            let npix = h.width as nat * h.height as nat;
            if npix * bpp > usize::MAX {
                Err(TgaError::TooLarge)
            } else {
            let pixels: Result<Seq<u8>, TgaError> = if h.data_type_code == 2 || h.data_type_code
                == 3 {
                if b.len() < HEADER_LEN + npix * bpp {
                    Err(TgaError::Truncated)
                } else {
                    Ok(b.subrange(HEADER_LEN as int, HEADER_LEN + npix * bpp))
                }
            } else if h.data_type_code == 10 || h.data_type_code == 11 {
                rle_unpack(b, HEADER_LEN as int, bpp, npix)
            } else {
                Err(TgaError::BadFormat)
            };
            match pixels {
                Ok(data) => Ok(
                    orient(
                        Raster { width: h.width as nat, height: h.height as nat, format, data },
                        h.image_descriptor,
                    ),
                ),
                Err(e) => Err(e),
            }
            }
        }
    }
}

/// The 26-byte trailer: two zero area offsets and the signature
/// "TRUEVISION-XFILE." with a terminating zero.
pub open spec fn footer_bytes() -> Seq<u8> {
    seq![0u8, 0, 0, 0, 0, 0, 0, 0, 84, 82, 85, 69, 86, 73, 83, 73, 79, 78, 45, 88, 70, 73, 76, 69, 46, 0]
}

/// The header written for a buffer.
pub open spec fn header_of(g: Raster, rle: bool) -> TGAHeader {
    TGAHeader {
        id_length: 0,
        color_map_type: 0,
        data_type_code: if g.format == TGAFormat::GRAYSCALE {
            if rle { 11 } else { 3 }
        } else {
            if rle { 10 } else { 2 }
        },
        color_map_origin: 0,
        color_map_length: 0,
        color_map_depth: 0,
        x_origin: 0,
        y_origin: 0,
        width: g.width as u16,
        height: g.height as u16,
        bits_per_pixel: (g.bpp() * 8) as u8,
        image_descriptor: 0x20,
    }
}

/// The file bytes written for a buffer.
pub open spec fn encode_spec(g: Raster, rle: bool) -> Seq<u8> {
    header_bytes(header_of(g, rle)) + (if rle {
        rle_stream(g.data, g.bpp() as int, (g.width * g.height) as int, 0)
    } else {
        g.data
    }) + footer_bytes()
}

proof fn lemma_u16_bytes(v: u16, b: Seq<u8>, i: int)
    requires
        0 <= i,
        i + 2 <= b.len(),
        b[i] == u16_bytes(v)[0],
        b[i + 1] == u16_bytes(v)[1],
    ensures
        u16_le(b, i) == v,
{
    lemma_fundamental_div_mod(v as int, 256);
}

/// Reading back the bytes of a header gives the header.
pub proof fn lemma_header_round_trip(h: TGAHeader, rest: Seq<u8>)
    ensures
        parse_header(header_bytes(h) + rest) == h,
{
    let b = header_bytes(h) + rest;
    lemma_u16_bytes(h.color_map_origin, b, 3);
    lemma_u16_bytes(h.color_map_length, b, 5);
    lemma_u16_bytes(h.x_origin, b, 8);
    lemma_u16_bytes(h.y_origin, b, 10);
    lemma_u16_bytes(h.width, b, 12);
    lemma_u16_bytes(h.height, b, 14);
}

/// Encoding a buffer, raw or run-length compressed, and decoding the bytes
/// gives back the same width, height, format and pixel bytes. The header
/// stores each dimension in 16 bits, and a decoded dimension is never zero.
pub proof fn lemma_round_trip(g: Raster, rle: bool)
    requires
        g.wf(),
        g.data.len() <= usize::MAX,
        0 < g.width <= 65535,
        0 < g.height <= 65535,
    ensures
        decode_spec(encode_spec(g, rle)) == Ok::<Raster, TgaError>(g),
{
    let bpp = g.bpp() as int;
    let n = (g.width * g.height) as int;
    let hd = header_of(g, rle);
    let body = if rle {
        rle_stream(g.data, bpp, n, 0)
    } else {
        g.data
    };
    let b = encode_spec(g, rle);
    assert(b == header_bytes(hd) + (body + footer_bytes()));
    lemma_header_round_trip(hd, body + footer_bytes());
    let h = parse_header(b);
    assert(h == hd);
    assert(h.width == g.width);
    assert(h.height == g.height);
    assert(format_of_depth(h.bits_per_pixel / 8) == Some(g.format));
    assert(header_bytes(hd).len() == HEADER_LEN);
    assert(h.width as nat * h.height as nat * bpp == g.data.len());
    assert(b.subrange(HEADER_LEN as int, HEADER_LEN + body.len()) =~= body);
    if rle {
        lemma_unpack_stream(g.data, bpp, n, 0, b, HEADER_LEN as int);
        assert(g.data.subrange(0, n * bpp) =~= g.data);
    }
    assert((0x20u8 & 0x20u8) == 0x20u8) by (bit_vector);
    assert((0x20u8 & 0x10u8) == 0u8) by (bit_vector);
}

/// The 16-bit little-endian value at `b[i]`.
fn read_u16_le(b: &[u8], i: usize) -> (v: u16)
    requires
        i + 2 <= b@.len(),
    ensures
        v == u16_le(b@, i as int),
{
    (b[i] as u16) + (b[i + 1] as u16) * 256
}

fn push_u16_le(out: &mut Vec<u8>, v: u16)
    ensures
        final(out)@ == old(out)@ + u16_bytes(v),
{
    out.push((v % 256) as u8);
    out.push((v / 256) as u8);
    assert(final(out)@ =~= old(out)@ + u16_bytes(v));
}

impl TGAHeader {
    /// Reads a header from the first 18 bytes.
    pub fn from_bytes(b: &[u8]) -> (h: TGAHeader)
        requires
            b@.len() >= HEADER_LEN,
        ensures
            h == parse_header(b@),
    {
        TGAHeader {
            id_length: b[0],
            color_map_type: b[1],
            data_type_code: b[2],
            color_map_origin: read_u16_le(b, 3),
            color_map_length: read_u16_le(b, 5),
            color_map_depth: b[7],
            x_origin: read_u16_le(b, 8),
            y_origin: read_u16_le(b, 10),
            width: read_u16_le(b, 12),
            height: read_u16_le(b, 14),
            bits_per_pixel: b[16],
            image_descriptor: b[17],
        }
    }

    /// Appends the 18 header bytes to `out`.
    pub fn write_to(&self, out: &mut Vec<u8>)
        ensures
            final(out)@ == old(out)@ + header_bytes(*self),
    {
        out.push(self.id_length);
        out.push(self.color_map_type);
        out.push(self.data_type_code);
        push_u16_le(out, self.color_map_origin);
        push_u16_le(out, self.color_map_length);
        out.push(self.color_map_depth);
        push_u16_le(out, self.x_origin);
        push_u16_le(out, self.y_origin);
        push_u16_le(out, self.width);
        push_u16_le(out, self.height);
        out.push(self.bits_per_pixel);
        out.push(self.image_descriptor);
        assert(final(out)@ =~= old(out)@ + header_bytes(*self));
    }
}

/// Appends the trailer bytes to `out`.
fn write_footer(out: &mut Vec<u8>)
    ensures
        final(out)@ == old(out)@ + footer_bytes(),
{
    let footer: [u8; 26] = [
        0, 0, 0, 0, 0, 0, 0, 0, 84, 82, 85, 69, 86, 73, 83, 73, 79, 78, 45, 88, 70, 73, 76, 69, 46, 0,
    ];
    assert(footer@ =~= footer_bytes());
    extend_from(out, footer.as_slice(), 0, 26);
    assert(footer_bytes().subrange(0, 26) =~= footer_bytes());
}

/// A decoded buffer that is well formed and carries the model `s`, or the
/// error of `s`.
pub open spec fn same_image(r: Result<TGAImage, TgaError>, s: Result<Raster, TgaError>) -> bool {
    match r {
        Ok(img) => img.wf() && s == Ok::<Raster, TgaError>(img@),
        Err(e) => s == Err::<Raster, TgaError>(e),
    }
}

impl TGAImage {
    /// Decodes a file image: header, raw or run-length pixel data, then the
    /// orientation flags, so that row 0 of the result is the bottom row.
    pub fn decode(bytes: &[u8]) -> (r: Result<TGAImage, TgaError>)
        ensures
            same_image(r, decode_spec(bytes@)),
    {
        let blen = bytes.len();
        if blen < HEADER_LEN {
            return Err(TgaError::Truncated);
        }
        let h = TGAHeader::from_bytes(bytes);
        let depth = h.bits_per_pixel / 8;
        let format = if depth == 1 {
            TGAFormat::GRAYSCALE
        } else if depth == 3 {
            TGAFormat::RGB
        } else if depth == 4 {
            TGAFormat::RGBA
        } else {
            return Err(TgaError::BadFormat);
        };
        if h.width == 0 || h.height == 0 {
            return Err(TgaError::BadFormat);
        }
        let bpp = format.bytes_per_pixel();
        let w = h.width as usize;
        let ht = h.height as usize;
        let npix = match w.checked_mul(ht) {
            Some(n) => n,
            None => {
                proof {
                    assert(w * ht * bpp >= w * ht) by (nonlinear_arith)
                        requires
                            bpp >= 1,
                    ;
                }
                return Err(TgaError::TooLarge);
            },
        };
        let nbytes = match npix.checked_mul(bpp) {
            Some(n) => n,
            None => {
                return Err(TgaError::TooLarge);
            },
        };
        let code = h.data_type_code;
        let data = if code == 2 || code == 3 {
            if blen - HEADER_LEN < nbytes {
                return Err(TgaError::Truncated);
            }
            let mut v: Vec<u8> = Vec::new();
            extend_from(&mut v, bytes, HEADER_LEN, nbytes);
            assert(v@ =~= bytes@.subrange(HEADER_LEN as int, HEADER_LEN + nbytes));
            v
        } else if code == 10 || code == 11 {
            match load_rle_data(bytes, HEADER_LEN, bpp, npix) {
                Ok(v) => v,
                Err(e) => {
                    return Err(e);
                },
            }
        } else {
            return Err(TgaError::BadFormat);
        };
        let ghost g = Raster { width: w as nat, height: ht as nat, format, data: data@ };
        assert(data@.len() == npix * bpp) by {
            if code == 10 || code == 11 {
                lemma_unpack_len(bytes@, HEADER_LEN as int, bpp as nat, npix as nat);
            }
        }
        let mut img = match TGAImage::from_raw_parts(w, ht, format, data) {
            Some(img) => img,
            None => {
                return Err(TgaError::BadFormat);
            },
        };
        assert(img@ == g);
        if h.image_descriptor & 0x20 == 0 {
            img.flip_vertically();
        }
        if h.image_descriptor & 0x10 != 0 {
            img.flip_horizontally();
        }
        Ok(img)
    }

    /// The file bytes of this buffer: header, pixel data (run-length
    /// compressed when `rle`), and trailer. The header marks row 0 as the top and
    /// holds each dimension in 16 bits, so neither may exceed 65535.
    pub fn encode(&self, rle: bool) -> (r: Vec<u8>)
        requires
            self.wf(),
            self@.width <= 65535,
            self@.height <= 65535,
        ensures
            r@ == encode_spec(self@, rle),
    {
        let bytespp = self.bytespp();
        let w = self.get_width();
        let ht = self.get_height();
        let code: u8 = match self.get_format() {
            TGAFormat::GRAYSCALE => if rle {
                11
            } else {
                3
            },
            _ => if rle {
                10
            } else {
                2
            },
        };
        let header = TGAHeader {
            id_length: 0,
            color_map_type: 0,
            data_type_code: code,
            color_map_origin: 0,
            color_map_length: 0,
            color_map_depth: 0,
            x_origin: 0,
            y_origin: 0,
            width: w as u16,
            height: ht as u16,
            bits_per_pixel: (bytespp * 8) as u8,
            image_descriptor: 0x20,
        };
        assert(header == header_of(self@, rle));
        let mut out: Vec<u8> = Vec::new();
        header.write_to(&mut out);
        let data = self.data().as_slice();
        let dlen = data.len();
        let ghost before = out@;
        if rle {
            proof {
                assert(w * ht <= w * ht * bytespp) by (nonlinear_arith)
                    requires
                        bytespp >= 1,
                ;
                assert(w * ht * bytespp == dlen);
                assert(w * ht <= usize::MAX);
            }
            unload_rle_data(data, bytespp, w * ht, &mut out);
        } else {
            extend_from(&mut out, data, 0, data.len());
            assert(data@.subrange(0, data@.len() as int) =~= data@);
        }
        write_footer(&mut out);
        assert(out@ =~= encode_spec(self@, rle));
        out
    }
}

} // verus!
