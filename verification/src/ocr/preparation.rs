//! How a picture is made ready before text is read from it.

use vstd::prelude::*;
use vstd::arithmetic::div_mod::lemma_fundamental_div_mod;
use crate::float::{F32, F64};
use crate::ocr::layout::{ONE, TWO};
use crate::picture::{PixelFormat, Picture, is_scalable};
use crate::picture::{
    Raster, can_scale, deep_luminance, luma_at, luma_of, luminance, narrowed, rgba_at, rgba_of,
    scaled, word_at,
};

verus! {

/// Pictures lower than this are enlarged.
pub const LOW_HEIGHT: u32 = 80;

/// The height that low pictures are enlarged to, as bits of a 32-bit number: 110.
pub const READABLE_SINGLE: u32 = 0x42dc_0000;

/// The least factor that low pictures are enlarged by, as bits of a 32-bit number: 2.
pub const LEAST_SINGLE: u32 = 0x4000_0000;

/// The height that low pictures are enlarged to, as bits of a 64-bit number: 110.
pub const READABLE: u64 = 0x405b_8000_0000_0000;

/// The sum of samples.
pub open spec fn sample_sum(s: Seq<u8>) -> nat
    decreases s.len(),
{
    if s.len() == 0 {
        0
    } else {
        sample_sum(s.drop_last()) + s.last() as nat
    }
}

/// The mean luminance of a picture, cut to a whole number. Without pixels it is zero.
pub open spec fn mean_luma(p: Raster) -> nat {
    sample_sum(luma_of(p)) / (if p.pixels() > 1 {
        p.pixels()
    } else {
        1
    })
}

/// The picture is dark: light text on a dark ground.
pub open spec fn is_dark(p: Raster) -> bool {
    mean_luma(p) < 128
}

/// Samples with their colours inverted and their opacity kept.
pub open spec fn inverted(s: Seq<u8>) -> Seq<u8> {
    Seq::new(
        s.len(),
        |k: int|
            if k % 4 == 3 {
                s[k]
            } else {
                (255 - s[k]) as u8
            },
    )
}

/// A dark picture with its colours inverted; another as it is.
pub open spec fn brightened(p: Raster) -> Raster {
    if is_dark(p) {
        Raster { format: PixelFormat::Rgba8, samples: inverted(rgba_of(p)), ..p }
    } else {
        p
    }
}

/// The size that a low picture is enlarged to before its text is read.
pub open spec fn enlarged_size(width: u32, height: u32) -> (u32, u32) {
    let scale = (F32 { bits: READABLE_SINGLE }).spec_over(F32::of_nat(height as nat)).spec_max(
        F32 { bits: LEAST_SINGLE },
    );
    (
        F32::of_nat(width as nat).spec_times(scale).spec_round_u32(),
        F32::of_nat(height as nat).spec_times(scale).spec_round_u32(),
    )
}

/// A picture made ready for reading: dark on light, and not too low.
pub open spec fn preprocessed(p: Raster) -> Raster {
    if p.height < LOW_HEIGHT {
        let size = enlarged_size(p.width, p.height);
        scaled(brightened(p), size.0, size.1)
    } else {
        brightened(p)
    }
}

/// A picture can be made ready for reading: its pixels can be counted, and a low one can be
/// enlarged.
pub open spec fn can_prepare(p: Raster) -> bool {
    let size = enlarged_size(p.width, p.height);
    &&& p.handy()
    &&& p.height < LOW_HEIGHT ==> can_scale(p.width, p.height, size.0, size.1)
}

/// The factor by which a picture is enlarged before a table of its words is made.
pub open spec fn table_scale(height: u32) -> F64 {
    if 0 < height < LOW_HEIGHT {
        (F64 { bits: READABLE }).spec_over(F64::of_nat(height as nat)).spec_max(F64 { bits: TWO })
    } else {
        F64 { bits: ONE }
    }
}

/// The size that a picture is enlarged to before a table of its words is made.
pub open spec fn table_size(width: u32, height: u32) -> (u32, u32) {
    (
        F64::of_nat(width as nat).spec_times(table_scale(height)).spec_round_u32(),
        F64::of_nat(height as nat).spec_times(table_scale(height)).spec_round_u32(),
    )
}

/// A picture made ready for a table of its words.
pub open spec fn prepared_for_table(p: Raster) -> Raster {
    if 0 < p.height < LOW_HEIGHT {
        let size = table_size(p.width, p.height);
        scaled(brightened(p), size.0, size.1)
    } else {
        brightened(p)
    }
}

proof fn lemma_sum_bound(s: Seq<u8>)
    ensures
        sample_sum(s) <= 255 * s.len(),
    decreases s.len(),
{
    if s.len() > 0 {
        lemma_sum_bound(s.drop_last());
    }
}

/// Whether a picture is dark.
pub fn find_dark(p: &Picture) -> (r: bool)
    requires
        p@.handy(),
    ensures
        r == is_dark(p@),
{
    let luma: Vec<u8> = p.to_luma8();
    let n: usize = luma.len();
    let mut sum: u64 = 0;
    let mut i: usize = 0;
    proof {
        assert(luma@.take(0) =~= Seq::<u8>::empty());
    }
    while i < n
        invariant
            i <= n == luma@.len() <= u32::MAX,
            sum == sample_sum(luma@.take(i as int)),
        decreases n - i,
    {
        proof {
            assert(luma@.take(i + 1).drop_last() =~= luma@.take(i as int));
            lemma_sum_bound(luma@.take(i as int));
        }
        sum = sum + luma[i] as u64;
        i = i + 1;
    }
    proof {
        assert(luma@.take(n as int) =~= luma@);
        assert(n == p@.pixels());
    }
    let count: u64 = if n > 1 {
        n as u64
    } else {
        1
    };
    sum / count < 128
}

/// Inverts the colours of samples in place.
pub fn invert(samples: &mut Vec<u8>)
    ensures
        final(samples)@ == inverted(old(samples)@),
{
    let n: usize = samples.len();
    let ghost start = samples@;
    let mut k: usize = 0;
    while k < n
        invariant
            k <= n == samples@.len() == start.len(),
            forall|i: int| 0 <= i < k ==> #[trigger] samples@[i] == inverted(start)[i],
            forall|i: int| k <= i < n ==> #[trigger] samples@[i] == start[i],
        decreases n - k,
    {
        if k % 4 != 3 {
            let v: u8 = samples[k];
            samples.set(k, 255 - v);
        }
        k = k + 1;
    }
    proof {
        assert(samples@ =~= inverted(start));
    }
}

/// The picture, dark on light.
pub fn brighten(p: &Picture) -> (r: Picture)
    requires
        p@.handy(),
    ensures
        r@ == brightened(p@),
        r@.wf(),
        r.width == p.width && r.height == p.height,
{
    if find_dark(p) {
        let mut r: Picture = p.to_rgba8();
        invert(&mut r.samples);
        r
    } else {
        p.clone()
    }
}

/// Computes [`enlarged_size`].
pub fn find_enlarged_size(width: u32, height: u32) -> (size: (u32, u32))
    ensures
        size == enlarged_size(width, height),
{
    let w: F32 = F32::of_count(width as u64);
    let h: F32 = F32::of_count(height as u64);
    let scale: F32 = (F32 { bits: READABLE_SINGLE }).over(h).max(F32 { bits: LEAST_SINGLE });
    (w.times(scale).round_u32(), h.times(scale).round_u32())
}

/// Whether a picture can be made ready for reading.
pub fn is_preparable(img: &Picture) -> (r: bool)
    ensures
        r == can_prepare(img@),
{
    let size: (u32, u32) = find_enlarged_size(img.width, img.height);
    img.is_handy() && (img.height >= LOW_HEIGHT || is_scalable(
        img.width,
        img.height,
        size.0,
        size.1,
    ))
}

/// Makes a picture ready for reading: light text on a dark ground is inverted, and a low
/// picture is enlarged.
pub fn preprocess_for_ocr(img: &Picture) -> (r: Picture)
    requires
        can_prepare(img@),
    ensures
        r@ == preprocessed(img@),
        r@.wf(),
{
    let bright: Picture = brighten(img);
    if img.height < LOW_HEIGHT {
        let size: (u32, u32) = find_enlarged_size(img.width, img.height);
        bright.resize_exact(size.0, size.1)
    } else {
        bright
    }
}

/// Computes [`table_scale`].
pub fn find_table_scale(height: u32) -> (scale: F64)
    ensures
        scale == table_scale(height),
{
    if 0 < height && height < LOW_HEIGHT {
        (F64 { bits: READABLE }).over(F64::of_count(height as u64)).max(F64 { bits: TWO })
    } else {
        F64 { bits: ONE }
    }
}

/// Computes [`table_size`].
pub fn find_table_size(width: u32, height: u32) -> (size: (u32, u32))
    ensures
        size == table_size(width, height),
{
    let scale: F64 = find_table_scale(height);
    (
        F64::of_count(width as u64).times(scale).round_u32(),
        F64::of_count(height as u64).times(scale).round_u32(),
    )
}

/// Makes a picture ready for a table of its words.
pub fn prepare_for_table(img: &Picture) -> (r: Picture)
    requires
        img@.handy(),
        0 < img.height < LOW_HEIGHT ==> can_scale(
            img.width,
            img.height,
            table_size(img.width, img.height).0,
            table_size(img.width, img.height).1,
        ),
    ensures
        r@ == prepared_for_table(img@),
        r@.wf(),
{
    let bright: Picture = brighten(img);
    if 0 < img.height && img.height < LOW_HEIGHT {
        let size: (u32, u32) = find_table_size(img.width, img.height);
        bright.resize_exact(size.0, size.1)
    } else {
        bright
    }
}

/// Inverting twice gives the samples back.
pub proof fn law_inverting_twice_changes_nothing(s: Seq<u8>)
    ensures
        inverted(inverted(s)) == s,
{
    assert(inverted(inverted(s)) =~= s);
}

/// Inverting leaves opacities alone and makes every colour as far from full as it was from none.
pub proof fn law_inverting_keeps_opacity(s: Seq<u8>, k: int)
    requires
        0 <= k < s.len(),
    ensures
        k % 4 == 3 ==> inverted(s)[k] == s[k],
        k % 4 != 3 ==> inverted(s)[k] + s[k] == 255,
{
}

proof fn lemma_sums_meet(a: Seq<u8>, b: Seq<u8>, least: int)
    requires
        a.len() == b.len(),
        forall|i: int| 0 <= i < a.len() ==> #[trigger] a[i] + b[i] >= least,
    ensures
        sample_sum(a) + sample_sum(b) >= least * a.len(),
    decreases a.len(),
{
    if a.len() > 0 {
        let n = a.len() - 1;
        assert(a[n] + b[n] >= least);
        assert forall|i: int| 0 <= i < n implies #[trigger] a.drop_last()[i] + b.drop_last()[i]
            >= least by {
            assert(a[i] + b[i] >= least);
        }
        lemma_sums_meet(a.drop_last(), b.drop_last(), least);
        assert(least * a.len() == least * n + least) by (nonlinear_arith)
            requires
                a.len() == n + 1,
        ;
    }
}

/// The luminance of a pixel follows from its colours, but for the rounding of samples of two
/// bytes.
proof fn lemma_luma_of_colours(p: Raster, i: int)
    ensures
        ({
            let l = luminance(rgba_at(p, i, 0), rgba_at(p, i, 1), rgba_at(p, i, 2));
            let m = luminance(
                (255 - rgba_at(p, i, 0)) as u8,
                (255 - rgba_at(p, i, 1)) as u8,
                (255 - rgba_at(p, i, 2)) as u8,
            );
            &&& !p.format.deep() ==> luma_at(p, i) == l && l + m >= 254
            &&& luma_at(p, i) + m >= 253
        }),
{
    let s = p.samples;
    if p.format is Rgb16 {
        lemma_luma_of_words(word_at(s, 3 * i), word_at(s, 3 * i + 1), word_at(s, 3 * i + 2));
    } else if p.format is Rgba16 {
        lemma_luma_of_words(word_at(s, 4 * i), word_at(s, 4 * i + 1), word_at(s, 4 * i + 2));
    }
}

proof fn lemma_luma_of_words(r: u16, g: u16, b: u16)
    ensures
        narrowed(deep_luminance(r, g, b)) + luminance(
            (255 - narrowed(r)) as u8,
            (255 - narrowed(g)) as u8,
            (255 - narrowed(b)) as u8,
        ) >= 253,
{
    assert(narrowed(r) == (r + 128) / 257);
    assert(narrowed(g) == (g + 128) / 257);
    assert(narrowed(b) == (b + 128) / 257);
    let d = deep_luminance(r, g, b);
    assert(d == (2126 * r + 7152 * g + 722 * b) / 10000);
    assert(narrowed(d) == (d + 128) / 257);
}

/// A dark picture becomes a light one: once it has been brightened, its mean luminance is 126 at
/// least, or 125 where its samples have two bytes, so that text is dark on light.
pub proof fn law_brightened_pictures_are_light(p: Raster)
    requires
        p.wf(),
        p.pixels() > 0,
    ensures
        mean_luma(brightened(p)) >= 125,
        !p.format.deep() ==> mean_luma(brightened(p)) >= 126,
{
    let n = p.pixels();
    let q = brightened(p);
    if is_dark(p) {
        let a = luma_of(p);
        let b = luma_of(q);
        let least: int = if p.format.deep() {
            253
        } else {
            254
        };
        assert forall|i: int| 0 <= i < n implies #[trigger] a[i] + b[i] >= least by {
            lemma_luma_of_colours(p, i);
            let r = rgba_at(p, i, 0);
            let g = rgba_at(p, i, 1);
            let c = rgba_at(p, i, 2);
            let s = rgba_of(p);
            assert(s[4 * i] == r && s[4 * i + 1] == g && s[4 * i + 2] == c);
            assert(q.samples[4 * i] == 255 - r);
            assert(q.samples[4 * i + 1] == 255 - g);
            assert(q.samples[4 * i + 2] == 255 - c);
        }
        lemma_sums_meet(a, b, least);
        let x = sample_sum(a);
        let y = sample_sum(b);
        lemma_fundamental_div_mod(x as int, n as int);
        lemma_fundamental_div_mod(y as int, n as int);
        let m = x / n;
        let k = y / n;
        assert(k >= least - 128) by (nonlinear_arith)
            requires
                x + y >= least * n,
                x < n * m + n,
                m <= 127,
                y < n * k + n,
                n > 0,
        ;
    }
}

} // verus!
