//! Run-length packets of pixels: the stream that the encoder emits, what a
//! packet stream unpacks to, and the proof that unpacking inverts packing.
use crate::codec::TgaError;
use vstd::prelude::*;

verus! {

/// Pixel `i` (its `bpp` bytes) of a flat pixel array.
pub open spec fn pixel(d: Seq<u8>, bpp: int, i: int) -> Seq<u8> {
    d.subrange(i * bpp, i * bpp + bpp)
}

pub open spec fn pix_eq(d: Seq<u8>, bpp: int, i: int, j: int) -> bool {
    pixel(d, bpp, i) == pixel(d, bpp, j)
}

/// `n` copies of the pixel `px`.
pub open spec fn repeat_pixel(px: Seq<u8>, n: nat) -> Seq<u8>
    decreases n,
{
    if n == 0 {
        Seq::empty()
    } else {
        px + repeat_pixel(px, (n - 1) as nat)
    }
}

/// Prepends `s` to a successful result.
pub open spec fn prepend(s: Seq<u8>, r: Result<Seq<u8>, TgaError>) -> Result<Seq<u8>, TgaError> {
    match r {
        Ok(t) => Ok(s + t),
        Err(e) => Err(e),
    }
}

/// The pixel bytes of `want` pixels of run-length packets starting at `b[pos]`.
/// A control byte below 128 is followed by control + 1 raw pixels; one of 128
/// or more by one pixel repeated control - 127 times.
pub open spec fn rle_unpack(b: Seq<u8>, pos: int, bpp: nat, want: nat) -> Result<Seq<u8>, TgaError>
    decreases want,
{
    if want == 0 {
        Ok(Seq::empty())
    } else if pos < 0 || pos >= b.len() {
        Err(TgaError::Truncated)
    } else {
        let c = b[pos];
        if c < 128 {
            let n = c as nat + 1;
            if n > want {
                Err(TgaError::ExcessPixels)
            } else if pos + 1 + n * bpp > b.len() {
                Err(TgaError::Truncated)
            } else {
                prepend(
                    b.subrange(pos + 1, pos + 1 + n * bpp),
                    rle_unpack(b, pos + 1 + n * bpp, bpp, (want - n) as nat),
                )
            }
        } else {
            let n = c as nat - 127;
            if n > want {
                Err(TgaError::ExcessPixels)
            } else if pos + 1 + bpp > b.len() {
                Err(TgaError::Truncated)
            } else {
                prepend(
                    repeat_pixel(b.subrange(pos + 1, pos + 1 + bpp), n as nat),
                    rle_unpack(b, pos + 1 + bpp, bpp, (want - n) as nat),
                )
            }
        }
    }
}

/// Length of the run that starts at pixel `p` and already holds `len` equal
/// pixels, grown while the next pixel equals the last, up to 128 pixels.
pub open spec fn run_len(d: Seq<u8>, bpp: int, n: int, p: int, len: int) -> int
    decreases 128 - len,
{
    if len < 128 && p + len < n && pix_eq(d, bpp, p + len - 1, p + len) {
        run_len(d, bpp, n, p, len + 1)
    } else {
        len
    }
}

/// Length of the raw packet that starts at pixel `p` and holds `len` pixels
/// so far: it grows while successive pixels differ, up to 128 pixels, and
/// gives its last pixel back as soon as that pixel equals the next one.
pub open spec fn raw_len(d: Seq<u8>, bpp: int, n: int, p: int, len: int) -> int
    decreases 128 - len,
{
    if len < 128 && p + len < n {
        if pix_eq(d, bpp, p + len - 1, p + len) {
            len - 1
        } else {
            raw_len(d, bpp, n, p, len + 1)
        }
    } else {
        len
    }
}

/// Whether the packet at pixel `p` is a run: its first two pixels are equal.
pub open spec fn starts_run(d: Seq<u8>, bpp: int, n: int, p: int) -> bool {
    p + 1 < n && pix_eq(d, bpp, p, p + 1)
}

/// Number of pixels in the packet that the encoder emits at pixel `p`.
pub open spec fn packet_len(d: Seq<u8>, bpp: int, n: int, p: int) -> int {
    if starts_run(d, bpp, n, p) {
        run_len(d, bpp, n, p, 2)
    } else {
        raw_len(d, bpp, n, p, 1)
    }
}

/// The packet emitted at pixel `p`: a control byte, then one pixel for a run
/// or every pixel of a raw packet.
pub open spec fn packet_bytes(d: Seq<u8>, bpp: int, n: int, p: int) -> Seq<u8> {
    let l = packet_len(d, bpp, n, p);
    if starts_run(d, bpp, n, p) {
        seq![(l + 127) as u8] + pixel(d, bpp, p)
    } else {
        seq![(l - 1) as u8] + d.subrange(p * bpp, (p + l) * bpp)
    }
}

/// The run-length encoding of pixels `p..n` of `d`.
pub open spec fn rle_stream(d: Seq<u8>, bpp: int, n: int, p: int) -> Seq<u8>
    decreases n - p,
{
    if p >= n {
        Seq::empty()
    } else {
        proof {
            lemma_packet_len(d, bpp, n, p);
        }
        packet_bytes(d, bpp, n, p) + rle_stream(d, bpp, n, p + packet_len(d, bpp, n, p))
    }
}

proof fn lemma_run_len(d: Seq<u8>, bpp: int, n: int, p: int, len: int)
    requires
        2 <= len <= 128,
        p + len <= n,
        forall|k: int| 0 <= k < len ==> #[trigger] pixel(d, bpp, p + k) == pixel(d, bpp, p),
    ensures
        len <= run_len(d, bpp, n, p, len) <= 128,
        p + run_len(d, bpp, n, p, len) <= n,
        forall|k: int|
            0 <= k < run_len(d, bpp, n, p, len) ==> #[trigger] pixel(d, bpp, p + k) == pixel(d, bpp, p),
    decreases 128 - len,
{
    if len < 128 && p + len < n && pix_eq(d, bpp, p + len - 1, p + len) {
        assert(pixel(d, bpp, p + (len - 1)) == pixel(d, bpp, p));
        assert forall|k: int| 0 <= k < len + 1 implies #[trigger] pixel(d, bpp, p + k) == pixel(d, bpp, p) by {
            if k == len {
                assert(p + (len - 1) == p + len - 1);
            }
        }
        lemma_run_len(d, bpp, n, p, len + 1);
    }
}

proof fn lemma_raw_len(d: Seq<u8>, bpp: int, n: int, p: int, len: int)
    requires
        1 <= len <= 128,
        p + len <= n,
        len == 1 ==> !starts_run(d, bpp, n, p),
    ensures
        1 <= raw_len(d, bpp, n, p, len) <= 128,
        p + raw_len(d, bpp, n, p, len) <= n,
    decreases 128 - len,
{
    if len < 128 && p + len < n {
        if !pix_eq(d, bpp, p + len - 1, p + len) {
            lemma_raw_len(d, bpp, n, p, len + 1);
        }
    }
}

/// The packet at pixel `p` holds between 1 and 128 pixels, all within the
/// image, and a run's pixels are all equal to its first.
pub proof fn lemma_packet_len(d: Seq<u8>, bpp: int, n: int, p: int)
    requires
        p < n,
    ensures
        1 <= packet_len(d, bpp, n, p) <= 128,
        p + packet_len(d, bpp, n, p) <= n,
        starts_run(d, bpp, n, p) ==> packet_len(d, bpp, n, p) >= 2,
        starts_run(d, bpp, n, p) ==> forall|k: int|
            0 <= k < packet_len(d, bpp, n, p) ==> #[trigger] pixel(d, bpp, p + k) == pixel(d, bpp, p),
{
    if starts_run(d, bpp, n, p) {
        assert forall|k: int| 0 <= k < 2 implies #[trigger] pixel(d, bpp, p + k) == pixel(d, bpp, p) by {
            if k == 0 {
                assert(p + k == p);
            }
        }
        lemma_run_len(d, bpp, n, p, 2);
    } else {
        lemma_raw_len(d, bpp, n, p, 1);
    }
}

/// `len` equal pixels side by side are that pixel repeated.
proof fn lemma_repeat_run(d: Seq<u8>, bpp: int, p: int, len: int)
    requires
        bpp >= 1,
        0 <= p,
        0 <= len,
        (p + len) * bpp <= d.len(),
        forall|k: int| 0 <= k < len ==> #[trigger] pixel(d, bpp, p + k) == pixel(d, bpp, p),
    ensures
        repeat_pixel(pixel(d, bpp, p), len as nat) == d.subrange(p * bpp, (p + len) * bpp),
    decreases len,
{
    if len == 0 {
        assert(d.subrange(p * bpp, (p + len) * bpp) =~= Seq::<u8>::empty());
    } else {
        let q = p + 1;
        assert forall|k: int| 0 <= k < len - 1 implies #[trigger] pixel(d, bpp, q + k) == pixel(d, bpp, q) by {
            assert(pixel(d, bpp, p + (k + 1)) == pixel(d, bpp, p));
            assert(pixel(d, bpp, p + 1) == pixel(d, bpp, p));
            assert(p + (k + 1) == q + k);
        }
        assert((p + len) * bpp == (q + (len - 1)) * bpp);
        assert(p * bpp + bpp == q * bpp) by (nonlinear_arith)
            requires
                q == p + 1,
        ;
        assert(0 <= p * bpp) by (nonlinear_arith)
            requires
                p >= 0,
                bpp >= 1,
        ;
        assert(q * bpp <= (p + len) * bpp) by (nonlinear_arith)
            requires
                q <= p + len,
                bpp >= 1,
        ;
        lemma_repeat_run(d, bpp, q, len - 1);
        if len > 1 {
            assert(pixel(d, bpp, p + 1) == pixel(d, bpp, p));
        } else {
            assert(repeat_pixel(pixel(d, bpp, q), 0) == repeat_pixel(pixel(d, bpp, p), 0));
        }
        assert(d.subrange(p * bpp, (p + len) * bpp) =~= pixel(d, bpp, p) + d.subrange(q * bpp, (q + (len - 1)) * bpp));
    }
}

/// Unpacking the encoder's packets for pixels `p..n`, wherever they stand in
/// a byte stream, gives back exactly those pixels.
pub proof fn lemma_unpack_stream(d: Seq<u8>, bpp: int, n: int, p: int, b: Seq<u8>, pos: int)
    requires
        bpp >= 1,
        0 <= p <= n,
        d.len() == n * bpp,
        0 <= pos,
        pos + rle_stream(d, bpp, n, p).len() <= b.len(),
        b.subrange(pos, pos + rle_stream(d, bpp, n, p).len()) == rle_stream(d, bpp, n, p),
    ensures
        rle_unpack(b, pos, bpp as nat, (n - p) as nat) == Ok::<Seq<u8>, TgaError>(d.subrange(p * bpp, n * bpp)),
    decreases n - p,
{
    if p == n {
        assert(d.subrange(p * bpp, n * bpp) =~= Seq::<u8>::empty());
    } else {
        lemma_packet_len(d, bpp, n, p);
        let l = packet_len(d, bpp, n, p);
        let pk = packet_bytes(d, bpp, n, p);
        let rest = rle_stream(d, bpp, n, p + l);
        let stream = rle_stream(d, bpp, n, p);
        assert(1 <= packet_len(d, bpp, n, p) <= n - p);
        assert(stream == pk + rest);
        assert((p + l) * bpp == p * bpp + l * bpp) by (nonlinear_arith);
        assert(0 <= p * bpp) by (nonlinear_arith)
            requires
                p >= 0,
                bpp >= 1,
        ;
        assert(l * bpp >= bpp) by (nonlinear_arith)
            requires
                l >= 1,
                bpp >= 1,
        ;
        assert((p + l) * bpp <= n * bpp) by (nonlinear_arith)
            requires
                p + l <= n,
                bpp >= 1,
        ;
        assert(b[pos] == stream[0]);
        let pos2 = pos + pk.len();
        assert(b.subrange(pos2, pos2 + rest.len()) =~= rest) by {
            assert forall|i: int| 0 <= i < rest.len() implies b.subrange(pos2, pos2 + rest.len())[i] == rest[i] by {
                assert(b[pos2 + i] == stream[pk.len() + i]);
            }
        }
        lemma_unpack_stream(d, bpp, n, p + l, b, pos2);
        let chunk = d.subrange(p * bpp, (p + l) * bpp);
        assert(chunk + d.subrange((p + l) * bpp, n * bpp) =~= d.subrange(p * bpp, n * bpp));
        if starts_run(d, bpp, n, p) {
            assert(b.subrange(pos + 1, pos + 1 + bpp) =~= pixel(d, bpp, p)) by {
                assert forall|i: int| 0 <= i < bpp implies b.subrange(pos + 1, pos + 1 + bpp)[i] == pixel(d, bpp, p)[i] by {
                    assert(b[pos + 1 + i] == stream[1 + i]);
                }
            }
            lemma_repeat_run(d, bpp, p, l);
        } else {
            assert(b.subrange(pos + 1, pos + 1 + l * bpp) =~= chunk) by {
                assert forall|i: int| 0 <= i < l * bpp implies b.subrange(pos + 1, pos + 1 + l * bpp)[i] == chunk[i] by {
                    assert(b[pos + 1 + i] == stream[1 + i]);
                }
            }
        }
    }
}

proof fn lemma_prepend_assoc(a: Seq<u8>, c: Seq<u8>, r: Result<Seq<u8>, TgaError>)
    ensures
        prepend(a, prepend(c, r)) == prepend(a + c, r),
{
    if let Ok(t) = r {
        assert(a + (c + t) =~= (a + c) + t);
    }
}

pub proof fn lemma_repeat_push(px: Seq<u8>, k: nat)
    ensures
        repeat_pixel(px, k + 1) == repeat_pixel(px, k) + px,
        repeat_pixel(px, k).len() == k * px.len(),
    decreases k,
{
    if k == 0 {
        assert(repeat_pixel(px, 0) == Seq::<u8>::empty());
        assert(repeat_pixel(px, 1) =~= Seq::<u8>::empty() + px);
    } else {
        lemma_repeat_push(px, (k - 1) as nat);
        assert(repeat_pixel(px, k + 1) =~= repeat_pixel(px, k) + px);
        assert(k * px.len() == (k - 1) * px.len() + px.len()) by (nonlinear_arith)
            requires
                k >= 1,
        ;
    }
}

/// Appends `src[start..start + len]` to `out`.
pub(crate) fn extend_from(out: &mut Vec<u8>, src: &[u8], start: usize, len: usize)
    requires
        start + len <= src@.len(),
    ensures
        final(out)@ == old(out)@ + src@.subrange(start as int, start + len),
{
    let n = src.len();
    let mut i: usize = 0;
    while i < len
        invariant
            n == src@.len(),
            start + len <= src@.len(),
            i <= len,
            out@ == old(out)@ + src@.subrange(start as int, start + i),
        decreases len - i,
    {
        out.push(src[start + i]);
        i += 1;
        assert(out@ =~= old(out)@ + src@.subrange(start as int, start + i));
    }
}

/// An executable result that carries the bytes of `s`, or its error.
pub open spec fn same_result(r: Result<Vec<u8>, TgaError>, s: Result<Seq<u8>, TgaError>) -> bool {
    match r {
        Ok(v) => s == Ok::<Seq<u8>, TgaError>(v@),
        Err(e) => s == Err::<Seq<u8>, TgaError>(e),
    }
}

pub proof fn lemma_unpack_len(b: Seq<u8>, pos: int, bpp: nat, want: nat)
    ensures
        rle_unpack(b, pos, bpp, want) is Ok ==> rle_unpack(b, pos, bpp, want)->Ok_0.len() == want * bpp,
    decreases want,
{
    if want == 0 {
        assert(want * bpp == 0) by (nonlinear_arith)
            requires
                want == 0,
        ;
    } else if 0 <= pos < b.len() {
        let c = b[pos];
        if c < 128 {
            let n = c as nat + 1;
            if n <= want && pos + 1 + n * bpp <= b.len() {
                lemma_unpack_len(b, pos + 1 + n * bpp, bpp, (want - n) as nat);
                assert(want * bpp == n * bpp + (want - n) * bpp) by (nonlinear_arith)
                    requires
                        n <= want,
                ;
            }
        } else {
            let n = c as nat - 127;
            if n <= want && pos + 1 + bpp <= b.len() {
                lemma_unpack_len(b, pos + 1 + bpp, bpp, (want - n) as nat);
                lemma_repeat_push(b.subrange(pos + 1, pos + 1 + bpp), n as nat);
                assert(want * bpp == n * bpp + (want - n) * bpp) by (nonlinear_arith)
                    requires
                        n <= want,
                ;
            }
        }
    }
}

/// Unpacks the run-length packets at `b[pos]` into `npix` pixels.
pub(crate) fn load_rle_data(b: &[u8], pos: usize, bpp: usize, npix: usize) -> (r: Result<Vec<u8>, TgaError>)
    requires
        1 <= bpp <= 4,
        npix * bpp <= usize::MAX,
    ensures
        same_result(r, rle_unpack(b@, pos as int, bpp as nat, npix as nat)),
{
    let ghost total = rle_unpack(b@, pos as int, bpp as nat, npix as nat);
    let mut out: Vec<u8> = Vec::new();
    let mut cur: usize = 0;
    let mut at: usize = pos;
    let len = b.len();
    while cur < npix
        invariant
            1 <= bpp <= 4,
            npix * bpp <= usize::MAX,
            len == b@.len(),
            cur <= npix,
            out@.len() == cur * bpp,
            total == rle_unpack(b@, pos as int, bpp as nat, npix as nat),
            total == prepend(out@, rle_unpack(b@, at as int, bpp as nat, (npix - cur) as nat)),
        decreases npix - cur,
    {
        if at >= len {
            return Err(TgaError::Truncated);
        }
        let c = b[at];
        let ghost rem = (npix - cur) as nat;
        if c < 128 {
            let n = c as usize + 1;
            if n > npix - cur {
                return Err(TgaError::ExcessPixels);
            }
            proof {
                assert(n * bpp <= 512) by (nonlinear_arith)
                    requires
                        n <= 128,
                        bpp <= 4,
                ;
            }
            let need = n * bpp;
            if len - at - 1 < need {
                return Err(TgaError::Truncated);
            }
            let ghost before = out@;
            extend_from(&mut out, b, at + 1, need);
            proof {
                lemma_prepend_assoc(before, b@.subrange(at + 1, at + 1 + need), rle_unpack(b@, at + 1 + need, bpp as nat, (rem - n) as nat));
                assert((cur + n) * bpp == cur * bpp + n * bpp) by (nonlinear_arith);
            }
            at = at + 1 + need;
            cur = cur + n;
        } else {
            let n = c as usize - 127;
            if n > npix - cur {
                return Err(TgaError::ExcessPixels);
            }
            if len - at - 1 < bpp {
                return Err(TgaError::Truncated);
            }
            let ghost before = out@;
            let ghost px = b@.subrange(at + 1, at + 1 + bpp);
            let mut k: usize = 0;
            while k < n
                invariant
                    1 <= bpp <= 4,
                    at + 1 + bpp <= b@.len(),
                    len == b@.len(),
                    px == b@.subrange(at + 1, at + 1 + bpp),
                    k <= n,
                    out@ == before + repeat_pixel(px, k as nat),
                decreases n - k,
            {
                proof {
                    lemma_repeat_push(px, k as nat);
                }
                extend_from(&mut out, b, at + 1, bpp);
                k += 1;
                proof {
                    assert(out@ =~= before + repeat_pixel(px, k as nat));
                }
            }
            proof {
                lemma_repeat_push(px, n as nat);
                lemma_prepend_assoc(before, repeat_pixel(px, n as nat), rle_unpack(b@, at + 1 + bpp, bpp as nat, (rem - n) as nat));
                assert((cur + n) * bpp == cur * bpp + n * bpp) by (nonlinear_arith);
                assert(n * px.len() == n * bpp);
            }
            at = at + 1 + bpp;
            cur = cur + n;
        }
    }
    assert(out@ + Seq::<u8>::empty() =~= out@);
    Ok(out)
}

/// Whether the `bpp` bytes at `i` equal the `bpp` bytes at `j`.
fn pixels_equal(d: &[u8], i: usize, j: usize, bpp: usize) -> (r: bool)
    requires
        i + bpp <= d@.len(),
        j + bpp <= d@.len(),
    ensures
        r == (d@.subrange(i as int, i + bpp) == d@.subrange(j as int, j + bpp)),
{
    let dlen = d.len();
    let mut t: usize = 0;
    while t < bpp
        invariant
            dlen == d@.len(),
            i + bpp <= d@.len(),
            j + bpp <= d@.len(),
            t <= bpp,
            forall|u: int| 0 <= u < t ==> d@.subrange(i as int, i + bpp)[u] == #[trigger] d@.subrange(j as int, j + bpp)[u],
        decreases bpp - t,
    {
        if d[i + t] != d[j + t] {
            assert(d@.subrange(i as int, i + bpp)[t as int] != d@.subrange(j as int, j + bpp)[t as int]);
            return false;
        }
        t += 1;
    }
    assert(d@.subrange(i as int, i + bpp) =~= d@.subrange(j as int, j + bpp));
    true
}

/// Appends the run-length packets of the `npix` pixels of `d` to `out`.
pub(crate) fn unload_rle_data(d: &[u8], bpp: usize, npix: usize, out: &mut Vec<u8>)
    requires
        1 <= bpp <= 4,
        d@.len() == npix * bpp,
    ensures
        final(out)@ == old(out)@ + rle_stream(d@, bpp as int, npix as int, 0),
{
    let ghost ds = d@;
    let ghost bp = bpp as int;
    let ghost n = npix as int;
    let dlen = d.len();
    let mut curpix: usize = 0;
    let mut chunkstart: usize = 0;
    while curpix < npix
        invariant
            1 <= bpp <= 4,
            ds == d@,
            bp == bpp,
            n == npix,
            dlen == d@.len(),
            d@.len() == npix * bpp,
            curpix <= npix,
            chunkstart == curpix * bpp,
            old(out)@ + rle_stream(ds, bp, n, 0) == out@ + rle_stream(ds, bp, n, curpix as int),
        decreases npix - curpix,
    {
        proof {
            lemma_packet_len(ds, bp, n, curpix as int);
            assert(chunkstart + bpp <= dlen) by (nonlinear_arith)
                requires
                    chunkstart == curpix * bpp,
                    curpix < npix,
                    dlen == npix * bpp,
            ;
        }
        proof {
            if curpix + 1 < npix {
                assert(chunkstart + bpp + bpp <= dlen) by (nonlinear_arith)
                    requires
                        chunkstart == curpix * bpp,
                        curpix + 1 < npix,
                        dlen == npix * bpp,
                ;
                assert(chunkstart + bpp == (curpix + 1) * bpp) by (nonlinear_arith)
                    requires
                        chunkstart == curpix * bpp,
                ;
            }
        }
        let run = curpix + 1 < npix && pixels_equal(d, chunkstart, chunkstart + bpp, bpp);
        assert(run == starts_run(ds, bp, n, curpix as int));
        let mut len: usize = if run { 2 } else { 1 };
        let mut done = false;
        // byte offset of the last pixel of the packet so far
        let mut last: usize = if run { chunkstart + bpp } else { chunkstart };
        while !done && len < 128 && curpix + len < npix
            invariant
                1 <= bpp <= 4,
                ds == d@,
                bp == bpp,
                n == npix,
                dlen == d@.len(),
                d@.len() == npix * bpp,
                curpix < npix,
                chunkstart == curpix * bpp,
                run == starts_run(ds, bp, n, curpix as int),
                1 <= len <= 128,
                run ==> len >= 2,
                curpix + len <= npix,
                !done ==> last == (curpix + len - 1) * bpp,
                !done ==> packet_len(ds, bp, n, curpix as int) == if run {
                    run_len(ds, bp, n, curpix as int, len as int)
                } else {
                    raw_len(ds, bp, n, curpix as int, len as int)
                },
                done ==> packet_len(ds, bp, n, curpix as int) == len,
            decreases (if done { 0int } else { 256 - len }),
        {
            proof {
                assert(last + bpp + bpp <= dlen) by (nonlinear_arith)
                    requires
                        last == (curpix + len - 1) * bpp,
                        curpix + len < npix,
                        dlen == npix * bpp,
                ;
                assert(last + bpp == (curpix + len) * bpp) by (nonlinear_arith)
                    requires
                        last == (curpix + len - 1) * bpp,
                ;
            }
            let eq = pixels_equal(d, last, last + bpp, bpp);
            proof {
                assert(eq == pix_eq(ds, bp, curpix + len - 1, curpix + len));
            }
            if run {
                if eq {
                    len += 1;
                    last += bpp;
                } else {
                    done = true;
                }
            } else {
                if eq {
                    len -= 1;
                    done = true;
                } else {
                    len += 1;
                    last += bpp;
                }
            }
        }
        let ghost l = packet_len(ds, bp, n, curpix as int);
        assert(len == l);
        let ghost before = out@;
        if run {
            out.push((len + 127) as u8);
            extend_from(out, d, chunkstart, bpp);
        } else {
            proof {
                assert(chunkstart + len * bpp <= dlen) by (nonlinear_arith)
                    requires
                        chunkstart == curpix * bpp,
                        curpix + len <= npix,
                        dlen == npix * bpp,
                ;
                assert(chunkstart + len * bpp == (curpix + len) * bpp) by (nonlinear_arith)
                    requires
                        chunkstart == curpix * bpp,
                ;
            }
            out.push((len - 1) as u8);
            extend_from(out, d, chunkstart, len * bpp);
        }
        proof {
            assert(out@ =~= before + packet_bytes(ds, bp, n, curpix as int));
            assert(rle_stream(ds, bp, n, curpix as int) == packet_bytes(ds, bp, n, curpix as int) + rle_stream(ds, bp, n, curpix + l));
            assert(before + rle_stream(ds, bp, n, curpix as int) =~= out@ + rle_stream(ds, bp, n, curpix + l));
            assert(chunkstart + len * bpp == (curpix + len) * bpp) by (nonlinear_arith)
                requires
                    chunkstart == curpix * bpp,
            ;
            assert((curpix + len) * bpp <= npix * bpp) by (nonlinear_arith)
                requires
                    curpix + len <= npix,
                    bpp >= 1,
            ;
        }
        curpix += len;
        chunkstart += len * bpp;
    }
    assert(out@ + rle_stream(ds, bp, n, curpix as int) =~= out@);
}

} // verus!
