//! The diffusion engine: one full Floyd–Steinberg pass over a raster.
//!
//! The pass walks the raster in row-major order (rows top to bottom, pixels
//! left to right), quantizes each sample to the two-level palette, and
//! shares the quantization error out to the four not-yet-visited neighbors
//! with weights 7/16 (right), 5/16 (below), 1/16 (below right) and 3/16
//! (below left), clamping each adjusted sample to [0, 255].

use vstd::prelude::*;
use vstd::arithmetic::div_mod::{lemma_fundamental_div_mod, lemma_fundamental_div_mod_converse};
use crate::quantizer::{find_nearest_1bit_grayscale, quantize_spec};
use crate::raster::{lemma_sample_index_bound, sample_index, Mode, Raster};

verus! {

/// The rounded share of error `e` carried by weight `wgt`/16: `e * wgt / 16`
/// rounded to the nearest integer, halves away from zero.
pub open spec fn scaled_error(e: int, wgt: int) -> int {
    if e >= 0 {
        (e * wgt + 8) / 16
    } else {
        -(((-e) * wgt + 8) / 16)
    }
}

/// `v` forced into the representable sample range [0, 255].
pub open spec fn clamp_sample(v: int) -> u8 {
    if v < 0 {
        0u8
    } else if v > 255 {
        255u8
    } else {
        v as u8
    }
}

/// A neighbor sample after receiving its share of the error: the rounded
/// share is added and the result clamped to [0, 255].
pub open spec fn diffuse_spec(s: u8, e: int, wgt: int) -> u8 {
    clamp_sample(s + scaled_error(e, wgt))
}

/// One channel of the pixel at (`x`, `y`) processed: its sample is replaced
/// by the quantized value, and the quantization error is shared out to the
/// in-bounds unvisited neighbors, in the order right, below, below right,
/// below left.
pub open spec fn step_channel_spec(d: Seq<u8>, w: int, h: int, c: int, x: int, y: int, ch: int) -> Seq<u8> {
    let i = sample_index(w, c, x, y, ch);
    let e = d[i] - quantize_spec(d[i]);
    let d0 = d.update(i, quantize_spec(d[i]));
    let d1 = if x + 1 < w {
        let j = sample_index(w, c, x + 1, y, ch);
        d0.update(j, diffuse_spec(d0[j], e, 7))
    } else {
        d0
    };
    let d2 = if y + 1 < h {
        let j = sample_index(w, c, x, y + 1, ch);
        d1.update(j, diffuse_spec(d1[j], e, 5))
    } else {
        d1
    };
    let d3 = if y + 1 < h && x + 1 < w {
        let j = sample_index(w, c, x + 1, y + 1, ch);
        d2.update(j, diffuse_spec(d2[j], e, 1))
    } else {
        d2
    };
    let d4 = if y + 1 < h && x > 0 {
        let j = sample_index(w, c, x - 1, y + 1, ch);
        d3.update(j, diffuse_spec(d3[j], e, 3))
    } else {
        d3
    };
    d4
}

/// The first `k` channels of the pixel at (`x`, `y`) processed in order.
pub open spec fn step_channels_spec(d: Seq<u8>, w: int, h: int, c: int, x: int, y: int, k: int) -> Seq<u8>
    decreases k,
{
    if k <= 0 {
        d
    } else {
        step_channel_spec(step_channels_spec(d, w, h, c, x, y, k - 1), w, h, c, x, y, k - 1)
    }
}

/// The first `n` pixels in row-major order fully processed.
pub open spec fn dither_prefix_spec(d: Seq<u8>, w: int, h: int, c: int, n: int) -> Seq<u8>
    decreases n,
{
    if n <= 0 {
        d
    } else {
        let p = n - 1;
        step_channels_spec(dither_prefix_spec(d, w, h, c, p), w, h, c, p % w, p / w, c)
    }
}

/// A full error-diffusion pass: every pixel processed in row-major order.
pub open spec fn dither_spec(d: Seq<u8>, w: int, h: int, c: int) -> Seq<u8> {
    dither_prefix_spec(d, w, h, c, w * h)
}

/// The rounded share of error `e` carried by weight `wgt`/16.
fn scale_error(e: i16, wgt: u16) -> (r: i16)
    requires
        -255 <= e <= 255,
        wgt <= 7,
    ensures
        r == scaled_error(e as int, wgt as int),
        -112 <= r <= 112,
{
    let m: u16 = if e >= 0 {
        e as u16
    } else {
        (-e) as u16
    };
    proof {
        assert(m * wgt <= 1785) by (nonlinear_arith)
            requires
                m <= 255,
                wgt <= 7,
        ;
    }
    let t: u16 = m * wgt + 8;
    let q = (t / 16) as i16;
    if e >= 0 {
        q
    } else {
        -q
    }
}

/// Add the rounded share of error `e` for weight `wgt`/16 to the neighbor
/// sample `s`, clamped to [0, 255].
fn diffuse_sample(s: u8, e: i16, wgt: u16) -> (r: u8)
    requires
        -255 <= e <= 255,
        wgt <= 7,
    ensures
        r == diffuse_spec(s, e as int, wgt as int),
{
    let adj = scale_error(e, wgt);
    let v: i16 = s as i16 + adj;
    if v < 0 {
        0
    } else if v > 255 {
        255
    } else {
        v as u8
    }
}

/// Processing one channel of the pixel at (`x`, `y`) leaves every earlier
/// sample untouched (the error flows only forward in raster order), leaves
/// the pixel's other channels untouched, and sets the processed sample to
/// its quantized value.
proof fn lemma_step_channel_frame(d: Seq<u8>, w: int, h: int, c: int, x: int, y: int, ch: int)
    requires
        0 <= x < w,
        0 <= y < h,
        0 <= ch < c,
        d.len() == w * h * c,
    ensures
        step_channel_spec(d, w, h, c, x, y, ch).len() == d.len(),
        step_channel_spec(d, w, h, c, x, y, ch)[sample_index(w, c, x, y, ch)]
            == quantize_spec(d[sample_index(w, c, x, y, ch)]),
        forall|j: int|
            0 <= j < d.len() && j < (y * w + x + 1) * c && j != sample_index(w, c, x, y, ch)
                ==> step_channel_spec(d, w, h, c, x, y, ch)[j] == d[j],
{
    let p = y * w + x;
    let i = sample_index(w, c, x, y, ch);
    lemma_sample_index_bound(w, h, c, x, y, ch);
    assert(p * c <= i < (p + 1) * c) by (nonlinear_arith)
        requires
            i == (y * w + x) * c + ch,
            p == y * w + x,
            0 <= ch < c,
    ;
    if x + 1 < w {
        lemma_sample_index_bound(w, h, c, x + 1, y, ch);
        assert(sample_index(w, c, x + 1, y, ch) >= (p + 1) * c) by (nonlinear_arith)
            requires
                p == y * w + x,
                0 <= ch,
        ;
    }
    if y + 1 < h {
        lemma_sample_index_bound(w, h, c, x, y + 1, ch);
        assert(sample_index(w, c, x, y + 1, ch) >= (p + 1) * c) by (nonlinear_arith)
            requires
                p == y * w + x,
                0 <= ch,
                0 <= c,
                1 <= w,
        ;
        if x + 1 < w {
            lemma_sample_index_bound(w, h, c, x + 1, y + 1, ch);
            assert(sample_index(w, c, x + 1, y + 1, ch) >= (p + 1) * c) by (nonlinear_arith)
                requires
                    p == y * w + x,
                    0 <= ch,
                    0 <= c,
                    1 <= w,
            ;
        }
        if x > 0 {
            lemma_sample_index_bound(w, h, c, x - 1, y + 1, ch);
            assert(sample_index(w, c, x - 1, y + 1, ch) >= (p + 1) * c) by (nonlinear_arith)
                requires
                    p == y * w + x,
                    0 <= ch,
                    0 <= c,
                    1 <= x,
                    x + 1 <= w,
            ;
        }
    }
}

/// Fully processing a pixel leaves every sample of earlier pixels
/// untouched, and puts each of its own processed channels at a palette
/// level (0 or 255).
proof fn lemma_step_channels_frame(d: Seq<u8>, w: int, h: int, c: int, x: int, y: int, k: int)
    requires
        0 <= x < w,
        0 <= y < h,
        0 <= k <= c,
        d.len() == w * h * c,
    ensures
        step_channels_spec(d, w, h, c, x, y, k).len() == d.len(),
        forall|j: int|
            0 <= j < d.len() && j < (y * w + x) * c
                ==> step_channels_spec(d, w, h, c, x, y, k)[j] == d[j],
        forall|ch: int|
            0 <= ch < k ==> (step_channels_spec(d, w, h, c, x, y, k)[sample_index(w, c, x, y, ch)] == 0
                || step_channels_spec(d, w, h, c, x, y, k)[sample_index(w, c, x, y, ch)] == 255),
    decreases k,
{
    let p = y * w + x;
    assert(forall|ch: int| 0 <= ch < c ==> sample_index(w, c, x, y, ch) == p * c + ch);
    assert(p >= 0) by (nonlinear_arith)
        requires
            0 <= y,
            0 <= x,
            1 <= w,
            p == y * w + x,
    ;
    assert(p * c >= 0 && (p + 1) * c == p * c + c) by (nonlinear_arith)
        requires
            p >= 0,
            0 <= c,
    ;
    if k > 0 {
        let r1 = step_channels_spec(d, w, h, c, x, y, k - 1);
        lemma_step_channels_frame(d, w, h, c, x, y, k - 1);
        lemma_step_channel_frame(r1, w, h, c, x, y, k - 1);
        lemma_sample_index_bound(w, h, c, x, y, k - 1);
    }
}

/// After the first `n` pixels are processed, every sample of those pixels
/// sits at a palette level, and the buffer keeps its length.
proof fn lemma_dither_prefix_range(d: Seq<u8>, w: int, h: int, c: int, n: int)
    requires
        w >= 0,
        h >= 0,
        c >= 1,
        d.len() == w * h * c,
        0 <= n <= w * h,
    ensures
        dither_prefix_spec(d, w, h, c, n).len() == d.len(),
        forall|j: int|
            0 <= j < n * c
                ==> (dither_prefix_spec(d, w, h, c, n)[j] == 0
                    || dither_prefix_spec(d, w, h, c, n)[j] == 255),
    decreases n,
{
    if n > 0 {
        let p = n - 1;
        assert(w >= 1 && h >= 1) by (nonlinear_arith)
            requires
                w >= 0,
                h >= 0,
                w * h >= 1,
        ;
        let x = p % w;
        let y = p / w;
        lemma_fundamental_div_mod(p, w);
        assert(0 <= x < w);
        assert(0 <= y < h) by (nonlinear_arith)
            requires
                w >= 1,
                h >= 1,
                0 <= p < w * h,
                p == w * y + x,
                0 <= x < w,
        ;
        let r1 = dither_prefix_spec(d, w, h, c, p);
        lemma_dither_prefix_range(d, w, h, c, p);
        lemma_step_channels_frame(r1, w, h, c, x, y, c);
        assert(y * w + x == p);
        assert(n * c <= w * h * c && n * c == p * c + c && 0 <= p * c) by (nonlinear_arith)
            requires
                0 <= p,
                n == p + 1,
                n <= w * h,
                c >= 1,
        ;
        let r = dither_prefix_spec(d, w, h, c, n);
        assert(r == step_channels_spec(r1, w, h, c, x, y, c));
        assert forall|j: int| 0 <= j < n * c implies (r[j] == 0 || r[j] == 255) by {
            if j < p * c {
                assert(r[j] == r1[j]);
                assert(r1[j] == 0 || r1[j] == 255);
            } else {
                let ch = j - p * c;
                assert(sample_index(w, c, x, y, ch) == p * c + ch);
                assert(r[sample_index(w, c, x, y, ch)] == 0
                    || r[sample_index(w, c, x, y, ch)] == 255);
            }
        }
    }
}

/// Output range law: after a full pass, every sample of the raster sits at
/// one of the two palette levels, 0 or 255.
pub proof fn lemma_dither_output_range(d: Seq<u8>, w: int, h: int, c: int)
    requires
        w >= 0,
        h >= 0,
        c >= 1,
        d.len() == w * h * c,
    ensures
        dither_spec(d, w, h, c).len() == d.len(),
        forall|j: int|
            0 <= j < d.len()
                ==> (dither_spec(d, w, h, c)[j] == 0 || dither_spec(d, w, h, c)[j] == 255),
{
    assert(w * h >= 0 && (w * h) * c == w * h * c) by (nonlinear_arith)
        requires
            w >= 0,
            h >= 0,
    ;
    lemma_dither_prefix_range(d, w, h, c, w * h);
}

/// Determinism law: the engine's output is a function of the input samples
/// and the geometry alone, so two runs on identical copies of a raster
/// produce identical output.
pub proof fn lemma_dither_deterministic(d1: Seq<u8>, d2: Seq<u8>, w: int, h: int, c: int)
    requires
        d1 == d2,
    ensures
        dither_spec(d1, w, h, c) == dither_spec(d2, w, h, c),
{
}

/// No-op law: a raster with no pixels (zero width or zero height) passes
/// through a dithering pass unchanged.
pub proof fn lemma_dither_empty_noop(d: Seq<u8>, w: int, h: int, c: int)
    requires
        w == 0 || h == 0,
    ensures
        dither_spec(d, w, h, c) == d,
{
    assert(w * h == 0) by (nonlinear_arith)
        requires
            w == 0 || h == 0,
    ;
}

/// Error-conservation law: the four diffusion weights sum to 16 sixteenths
/// (a whole unit), and the four rounded shares of an error reconstruct it
/// to within the rounding slack — no error is created or destroyed except
/// through rounding (and, at the receiving samples, clamping).
pub proof fn lemma_error_conservation(e: int)
    requires
        -255 <= e <= 255,
    ensures
        7 + 5 + 3 + 1 == 16,
        e - 2 <= scaled_error(e, 7) + scaled_error(e, 5) + scaled_error(e, 3) + scaled_error(e, 1) <= e + 2,
{
}

/// Clamping law: a neighbor sample adjusted by a share of the error stays
/// within [0, 255], whatever error has accumulated.
pub proof fn lemma_diffuse_in_range(s: u8, e: int, wgt: int)
    ensures
        0 <= diffuse_spec(s, e, wgt) <= 255,
{
}

/// Boundary law for the smallest raster: a single-pixel raster is simply
/// quantized, channel by channel, with no diffusion at all.
pub proof fn lemma_dither_single_pixel(d: Seq<u8>, c: int)
    requires
        c >= 1,
        d.len() == c,
    ensures
        dither_spec(d, 1, 1, c).len() == c,
        forall|ch: int| 0 <= ch < c ==> dither_spec(d, 1, 1, c)[ch] == quantize_spec(d[ch]),
{
    assert(dither_spec(d, 1, 1, c) == dither_prefix_spec(d, 1, 1, c, 1));
    assert(0int % 1 == 0 && 0int / 1 == 0);
    assert(dither_prefix_spec(d, 1, 1, c, 0) == d);
    assert(dither_prefix_spec(d, 1, 1, c, 1) == step_channels_spec(d, 1, 1, c, 0, 0, c));
    lemma_single_pixel_channels(d, c, c);
}

/// On a 1-by-1 raster, processing the first `k` channels quantizes each of
/// them in place and touches nothing else.
proof fn lemma_single_pixel_channels(d: Seq<u8>, c: int, k: int)
    requires
        c >= 1,
        0 <= k <= c,
        d.len() == c,
    ensures
        step_channels_spec(d, 1, 1, c, 0, 0, k).len() == c,
        forall|ch: int| 0 <= ch < k ==> step_channels_spec(d, 1, 1, c, 0, 0, k)[ch] == quantize_spec(d[ch]),
        forall|ch: int| k <= ch < c ==> step_channels_spec(d, 1, 1, c, 0, 0, k)[ch] == d[ch],
    decreases k,
{
    if k > 0 {
        lemma_single_pixel_channels(d, c, k - 1);
        let r1 = step_channels_spec(d, 1, 1, c, 0, 0, k - 1);
        let i = sample_index(1, c, 0, 0, k - 1);
        assert((0 * 1 + 0) * c == 0) by (nonlinear_arith);
        assert(i == k - 1);
        assert(step_channels_spec(d, 1, 1, c, 0, 0, k) == step_channel_spec(r1, 1, 1, c, 0, 0, k - 1));
        assert(step_channel_spec(r1, 1, 1, c, 0, 0, k - 1) == r1.update(i, quantize_spec(r1[i])));
    }
}

/// One full Floyd–Steinberg error-diffusion pass over the raster, in place.
/// The geometry is unchanged and the samples become exactly `dither_spec`
/// of the input samples, so the pass is deterministic.
pub fn dither(image: &mut Raster)
    requires
        old(image).wf(),
    ensures
        final(image).wf(),
        final(image).spec_width() == old(image).spec_width(),
        final(image).spec_height() == old(image).spec_height(),
        final(image).spec_mode() == old(image).spec_mode(),
        final(image)@ == dither_spec(
            old(image)@,
            old(image).spec_width(),
            old(image).spec_height(),
            old(image).spec_channels(),
        ),
        forall|j: int|
            0 <= j < final(image)@.len() ==> (final(image)@[j] == 0 || final(image)@[j] == 255),
{
    let w = image.width();
    let h = image.height();
    let c = image.channels();
    let ghost d0 = image@;
    let mut y: usize = 0;
    while y < h
        invariant
            image.wf(),
            image.spec_width() == w,
            image.spec_height() == h,
            image.spec_channels() == c,
            image.spec_mode() == old(image).spec_mode(),
            y <= h,
            d0.len() == w * h * c,
            image@ == dither_prefix_spec(d0, w as int, h as int, c as int, y * w),
        decreases h - y,
    {
        let mut x: usize = 0;
        while x < w
            invariant
                image.wf(),
                image.spec_width() == w,
                image.spec_height() == h,
                image.spec_channels() == c,
                image.spec_mode() == old(image).spec_mode(),
                y < h,
                x <= w,
                d0.len() == w * h * c,
                image@ == dither_prefix_spec(d0, w as int, h as int, c as int, y * w + x),
            decreases w - x,
        {
            let ghost before_pixel = image@;
            let mut ch: usize = 0;
            while ch < c
                invariant
                    image.wf(),
                    image.spec_width() == w,
                    image.spec_height() == h,
                    image.spec_channels() == c,
                    image.spec_mode() == old(image).spec_mode(),
                    y < h,
                    x < w,
                    ch <= c,
                    image@ == step_channels_spec(
                        before_pixel,
                        w as int,
                        h as int,
                        c as int,
                        x as int,
                        y as int,
                        ch as int,
                    ),
                decreases c - ch,
            {
                let ghost before_channel = image@;
                let old_s = image.get(x, y, ch);
                let q = find_nearest_1bit_grayscale(old_s);
                image.set(x, y, ch, q);
                let e: i16 = old_s as i16 - q as i16;
                if x + 1 < w {
                    let s = image.get(x + 1, y, ch);
                    image.set(x + 1, y, ch, diffuse_sample(s, e, 7));
                }
                if y + 1 < h {
                    let s = image.get(x, y + 1, ch);
                    image.set(x, y + 1, ch, diffuse_sample(s, e, 5));
                    if x + 1 < w {
                        let s = image.get(x + 1, y + 1, ch);
                        image.set(x + 1, y + 1, ch, diffuse_sample(s, e, 1));
                    }
                    if x > 0 {
                        let s = image.get(x - 1, y + 1, ch);
                        image.set(x - 1, y + 1, ch, diffuse_sample(s, e, 3));
                    }
                }
                proof {
                    assert(image@ == step_channel_spec(
                        before_channel,
                        w as int,
                        h as int,
                        c as int,
                        x as int,
                        y as int,
                        ch as int,
                    ));
                }
                ch = ch + 1;
            }
            proof {
                let p = y * w + x;
                lemma_fundamental_div_mod_converse(p as int, w as int, y as int, x as int);
                assert(image@ == dither_prefix_spec(d0, w as int, h as int, c as int, p + 1));
            }
            x = x + 1;
        }
        proof {
            assert((y + 1) * w == y * w + w) by (nonlinear_arith);
        }
        y = y + 1;
    }
    proof {
        assert(h * w == w * h) by (nonlinear_arith);
        lemma_dither_output_range(d0, w as int, h as int, c as int);
    }
}

/// The samples of channel `ch` alone, pixel by pixel in raster order, of a
/// buffer with `np` pixels and `c` interleaved channels per pixel.
pub open spec fn channel_of(d: Seq<u8>, c: int, ch: int, np: int) -> Seq<u8> {
    Seq::new(np as nat, |p: int| d[p * c + ch])
}

/// Two sample positions of a channel-interleaved buffer coincide only for
/// the same pixel and the same channel.
proof fn lemma_pixel_cancel(c: int, q1: int, q2: int, a: int, b: int)
    by (nonlinear_arith)
    requires
        c >= 1,
        0 <= a < c,
        0 <= b < c,
        q1 != q2 || a != b,
    ensures
        q1 * c + a != q2 * c + b,
{
}

/// A sample position of a pixel before the pixel count is inside the buffer.
proof fn lemma_pixel_sample_bound(c: int, np: int, q: int, a: int)
    by (nonlinear_arith)
    requires
        c >= 1,
        0 <= q < np,
        0 <= a < c,
    ensures
        0 <= q * c + a < np * c,
{
}

/// Processing one channel of a pixel acts on that channel's plane exactly
/// as the single-channel step does, and leaves every other channel's plane
/// untouched.
proof fn lemma_step_channel_extract(d: Seq<u8>, w: int, h: int, c: int, x: int, y: int, ch: int, ch2: int)
    requires
        0 <= x < w,
        0 <= y < h,
        0 <= ch < c,
        0 <= ch2 < c,
        d.len() == w * h * c,
    ensures
        ch2 == ch ==> channel_of(step_channel_spec(d, w, h, c, x, y, ch), c, ch2, w * h)
            == step_channel_spec(channel_of(d, c, ch2, w * h), w, h, 1, x, y, 0),
        ch2 != ch ==> channel_of(step_channel_spec(d, w, h, c, x, y, ch), c, ch2, w * h)
            == channel_of(d, c, ch2, w * h),
{
    let np = w * h;
    let p = y * w + x;
    let r = step_channel_spec(d, w, h, c, x, y, ch);
    let i = sample_index(w, c, x, y, ch);
    lemma_sample_index_bound(w, h, c, x, y, ch);
    lemma_sample_index_bound(w, h, 1, x, y, 0);
    assert(i == p * c + ch && sample_index(w, 1, x, y, 0) == p && 0 <= p < np);
    assert((y + 1) * w == y * w + w) by (nonlinear_arith);
    if x + 1 < w {
        lemma_sample_index_bound(w, h, c, x + 1, y, ch);
        lemma_sample_index_bound(w, h, 1, x + 1, y, 0);
        assert(sample_index(w, c, x + 1, y, ch) == (p + 1) * c + ch);
        assert(sample_index(w, 1, x + 1, y, 0) == p + 1);
    }
    if y + 1 < h {
        lemma_sample_index_bound(w, h, c, x, y + 1, ch);
        lemma_sample_index_bound(w, h, 1, x, y + 1, 0);
        assert(sample_index(w, c, x, y + 1, ch) == (p + w) * c + ch);
        assert(sample_index(w, 1, x, y + 1, 0) == p + w);
        if x + 1 < w {
            lemma_sample_index_bound(w, h, c, x + 1, y + 1, ch);
            lemma_sample_index_bound(w, h, 1, x + 1, y + 1, 0);
            assert(sample_index(w, c, x + 1, y + 1, ch) == (p + w + 1) * c + ch);
            assert(sample_index(w, 1, x + 1, y + 1, 0) == p + w + 1);
        }
        if x > 0 {
            lemma_sample_index_bound(w, h, c, x - 1, y + 1, ch);
            lemma_sample_index_bound(w, h, 1, x - 1, y + 1, 0);
            assert(sample_index(w, c, x - 1, y + 1, ch) == (p + w - 1) * c + ch);
            assert(sample_index(w, 1, x - 1, y + 1, 0) == p + w - 1);
        }
    }
    assert forall|q: int| 0 <= q < np implies 0 <= #[trigger] (q * c) + ch2 < w * h * c by {
        lemma_pixel_sample_bound(c, np, q, ch2);
    }
    if ch2 == ch {
        let ec = channel_of(d, c, ch, np);
        assert(ec.len() == np);
        assert forall|q1: int, q2: int| q1 != q2 implies #[trigger] (q1 * c) + ch != #[trigger] (q2
            * c) + ch by {
            lemma_pixel_cancel(c, q1, q2, ch, ch);
        }
        let s = step_channel_spec(ec, w, h, 1, x, y, 0);
        assert forall|pp: int| 0 <= pp < np implies channel_of(r, c, ch, np)[pp] == s[pp] by {
            lemma_pixel_sample_bound(c, np, pp, ch);
            assert(channel_of(r, c, ch, np)[pp] == r[pp * c + ch]);
        }
        assert(channel_of(r, c, ch, np) =~= s);
    } else {
        assert forall|q1: int, q2: int| #[trigger] (q1 * c) + ch2 != #[trigger] (q2 * c) + ch by {
            lemma_pixel_cancel(c, q1, q2, ch2, ch);
        }
        assert forall|pp: int| 0 <= pp < np implies channel_of(r, c, ch2, np)[pp] == channel_of(
            d,
            c,
            ch2,
            np,
        )[pp] by {
            lemma_pixel_sample_bound(c, np, pp, ch2);
            assert(channel_of(r, c, ch2, np)[pp] == r[pp * c + ch2]);
        }
        assert(channel_of(r, c, ch2, np) =~= channel_of(d, c, ch2, np));
    }
}

/// Fully processing a pixel acts on each channel's plane exactly as the
/// single-channel step does on that plane alone.
proof fn lemma_step_channels_extract(d: Seq<u8>, w: int, h: int, c: int, x: int, y: int, k: int, ch: int)
    requires
        0 <= x < w,
        0 <= y < h,
        0 <= k <= c,
        0 <= ch < c,
        d.len() == w * h * c,
    ensures
        ch < k ==> channel_of(step_channels_spec(d, w, h, c, x, y, k), c, ch, w * h)
            == step_channel_spec(channel_of(d, c, ch, w * h), w, h, 1, x, y, 0),
        ch >= k ==> channel_of(step_channels_spec(d, w, h, c, x, y, k), c, ch, w * h)
            == channel_of(d, c, ch, w * h),
    decreases k,
{
    if k > 0 {
        let r1 = step_channels_spec(d, w, h, c, x, y, k - 1);
        lemma_step_channels_extract(d, w, h, c, x, y, k - 1, ch);
        lemma_step_channels_frame(d, w, h, c, x, y, k - 1);
        lemma_step_channel_extract(r1, w, h, c, x, y, k - 1, ch);
    }
}

/// Processing a prefix of the pixels acts on each channel's plane exactly
/// as the same prefix of a single-channel pass does.
proof fn lemma_prefix_extract(d: Seq<u8>, w: int, h: int, c: int, n: int, ch: int)
    requires
        w >= 0,
        h >= 0,
        c >= 1,
        0 <= ch < c,
        0 <= n <= w * h,
        d.len() == w * h * c,
    ensures
        channel_of(dither_prefix_spec(d, w, h, c, n), c, ch, w * h)
            == dither_prefix_spec(channel_of(d, c, ch, w * h), w, h, 1, n),
    decreases n,
{
    if n > 0 {
        let p = n - 1;
        assert(w >= 1 && h >= 1) by (nonlinear_arith)
            requires
                w >= 0,
                h >= 0,
                w * h >= 1,
        ;
        let x = p % w;
        let y = p / w;
        lemma_fundamental_div_mod(p, w);
        assert(0 <= x < w);
        assert(0 <= y < h) by (nonlinear_arith)
            requires
                w >= 1,
                h >= 1,
                0 <= p < w * h,
                p == w * y + x,
                0 <= x < w,
        ;
        lemma_prefix_extract(d, w, h, c, p, ch);
        let r1 = dither_prefix_spec(d, w, h, c, p);
        lemma_dither_prefix_range(d, w, h, c, p);
        lemma_step_channels_extract(r1, w, h, c, x, y, c, ch);
        let e1 = dither_prefix_spec(channel_of(d, c, ch, w * h), w, h, 1, p);
        assert(step_channels_spec(e1, w, h, 1, x, y, 0) == e1);
        assert(step_channels_spec(e1, w, h, 1, x, y, 1) == step_channel_spec(e1, w, h, 1, x, y, 0));
    }
}

/// Channel-independence law: in a multi-channel raster each channel's
/// plane is dithered exactly as a grayscale raster holding that plane
/// alone would be — channels never feed error into one another.
pub proof fn lemma_channel_independence(d: Seq<u8>, w: int, h: int, c: int, ch: int)
    requires
        w >= 0,
        h >= 0,
        c >= 1,
        0 <= ch < c,
        d.len() == w * h * c,
    ensures
        channel_of(dither_spec(d, w, h, c), c, ch, w * h)
            == dither_spec(channel_of(d, c, ch, w * h), w, h, 1),
{
    assert(w * h >= 0) by (nonlinear_arith)
        requires
            w >= 0,
            h >= 0,
    ;
    lemma_prefix_extract(d, w, h, c, w * h, ch);
}

/// Dither a grayscale (single-channel) raster in place.
pub fn dither_grayscale_image(image: &mut Raster)
    requires
        old(image).wf(),
        old(image).spec_mode() == Mode::Grayscale,
    ensures
        final(image).wf(),
        final(image).spec_width() == old(image).spec_width(),
        final(image).spec_height() == old(image).spec_height(),
        final(image).spec_mode() == old(image).spec_mode(),
        final(image)@ == dither_spec(
            old(image)@,
            old(image).spec_width(),
            old(image).spec_height(),
            1,
        ),
        forall|j: int|
            0 <= j < final(image)@.len() ==> (final(image)@[j] == 0 || final(image)@[j] == 255),
{
    dither(image)
}

/// Dither a color (three-channel) raster in place, each channel carrying
/// its own error independently.
pub fn dither_color_image(image: &mut Raster)
    requires
        old(image).wf(),
        old(image).spec_mode() == Mode::Color,
    ensures
        final(image).wf(),
        final(image).spec_width() == old(image).spec_width(),
        final(image).spec_height() == old(image).spec_height(),
        final(image).spec_mode() == old(image).spec_mode(),
        final(image)@ == dither_spec(
            old(image)@,
            old(image).spec_width(),
            old(image).spec_height(),
            3,
        ),
        forall|j: int|
            0 <= j < final(image)@.len() ==> (final(image)@[j] == 0 || final(image)@[j] == 255),
{
    dither(image)
}

} // verus!
