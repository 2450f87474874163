//! What holds of the lines that many words form.

use vstd::prelude::*;
use vstd::arithmetic::power2::{lemma2_to64, lemma2_to64_rest, lemma_pow2_pos, lemma_pow2_unfold, pow2};
use crate::exact::{
    grain, is_nearly, lemma_abs, lemma_bounded, lemma_compare, lemma_compare_nearly,
    lemma_exact_whole, lemma_fraction_bits, lemma_grain_difference, lemma_grid_sum, lemma_min_max,
    lemma_minus, lemma_of_nat, lemma_on_grid, lemma_over, lemma_over_error, lemma_part,
    lemma_pixel, lemma_plus, lemma_rank_is_value, lemma_shifted_is_number, lemma_whole_bits,
    on_grid, one,
};
use crate::float::F64;
use crate::ocr::detection::arranged;
use crate::ocr::layout::{NEGATIVE_ZERO, ONE, PARAGRAPH_GAP};
use crate::ocr::layout::{
    all_clustered, belongs, center, center_keys, clustered, first_line, left_keys, line_bottom,
    line_height, line_keys, line_top, mean_center, mean_height, parted, placed, reading_lines,
    sum_of_centers, sum_of_heights,
};
use crate::ocr::lines::{distance, lemma_center, lemma_single_band, twice_middle};
use crate::ocr::pipeline::JOIN_PART;
use crate::ocr::tesseract::LAYOUT_PART;
use crate::ocr::words::Frame;
use crate::rounding::Format;
use crate::sorting::{lemma_stable_order, stable_order};

verus! {

/// A frame on the grid that lies below the upper edge, is one high at least and does not reach
/// further down than `2^22` pixels.
pub open spec fn on_page(f: Frame) -> bool {
    &&& on_grid(f.y)
    &&& on_grid(f.h)
    &&& 0 <= f.y.value() <= 0x20_0000 * one()
    &&& one() <= f.h.value() <= 0x20_0000 * one()
}

/// The frames of a line lie on the page.
pub open spec fn line_on_page(frames: Seq<Frame>, line: Seq<usize>) -> bool {
    forall|k: int|
        0 <= k < line.len() ==> (#[trigger] line[k]) < frames.len() && on_page(
            frames[line[k] as int],
        )
}

/// Twice the sum of the heights at which the middles of the frames of a line lie.
pub open spec fn sum_of_middles(frames: Seq<Frame>, line: Seq<usize>) -> int
    decreases line.len(),
{
    if line.len() == 0 {
        0
    } else {
        sum_of_middles(frames, line.drop_last()) + twice_middle(frames[line.last() as int])
    }
}

/// The sum of the heights of the frames of a line.
pub open spec fn sum_of_sizes(frames: Seq<Frame>, line: Seq<usize>) -> int
    decreases line.len(),
{
    if line.len() == 0 {
        0
    } else {
        sum_of_sizes(frames, line.drop_last()) + frames[line.last() as int].h.value()
    }
}

/// The middle and the height of a frame on the page, in halves of grains.
proof fn lemma_on_page(f: Frame) -> (r: (int, int))
    requires
        on_page(f),
    ensures
        center(f).finite(),
        2 * center(f).value() == twice_middle(f),
        center(f).value() == r.0 * pow2(1057),
        f.h.value() == r.1 * pow2(1057),
        0 < r.0 <= 0x80_0000_0000,
        0 < r.1 <= 0x40_0000_0000,
        one() == 0x2_0000 * pow2(1057),
        pow2(1057) > 0,
{
    lemma_center(f);
    lemma_pixel();
    lemma_pow2_pos(1057);
    lemma_pow2_unfold(1058);
    let e = pow2(1057) as int;
    assert(grain() == 2 * e);
    let m = choose|m: int| -0x4_0000_0000_0000 < m < 0x4_0000_0000_0000 && center(f).value()
        == #[trigger] (m * pow2(1057));
    let h = choose|m: int| -0x8000_0000_0000 <= m <= 0x8000_0000_0000 && f.h.value()
        == #[trigger] (m * grain());
    assert(h * grain() == (2 * h) * e) by (nonlinear_arith)
        requires
            grain() == 2 * e,
    ;
    let k = 2 * h;
    assert(0 < m <= 0x80_0000_0000 && 0 < k <= 0x40_0000_0000) by (nonlinear_arith)
        requires
            2 * (m * e) == 2 * f.y.value() + f.h.value(),
            f.h.value() == k * e,
            0 <= f.y.value() <= 0x20_0000 * (0x2_0000 * e),
            0x2_0000 * e <= f.h.value() <= 0x20_0000 * (0x2_0000 * e),
            e > 0,
    ;
    (m, k)
}

/// The sums over a line on the page are exact.
proof fn lemma_sums(frames: Seq<Frame>, line: Seq<usize>) -> (r: (int, int))
    requires
        line_on_page(frames, line),
        line.len() <= 0x1000,
    ensures
        sum_of_centers(frames, line).finite(),
        2 * sum_of_centers(frames, line).value() == sum_of_middles(frames, line),
        sum_of_centers(frames, line).value() == r.0 * pow2(1057),
        0 <= r.0 <= line.len() * 0x80_0000_0000,
        sum_of_heights(frames, line).finite(),
        sum_of_heights(frames, line).value() == sum_of_sizes(frames, line),
        sum_of_heights(frames, line).value() == r.1 * pow2(1057),
        0 <= r.1 <= line.len() * 0x40_0000_0000,
        2 * r.0 >= r.1 >= line.len() * 0x2_0000,
    decreases line.len(),
{
    let e = pow2(1057) as int;
    lemma_pow2_pos(1057);
    if line.len() == 0 {
        let zero = F64 { bits: NEGATIVE_ZERO };
        lemma_rank_is_value(Format::Double, zero.datum(), zero.datum());
        assert(0 * e == 0);
        (0, 0)
    } else {
        let init = line.drop_last();
        let f = frames[line.last() as int];
        assert(on_page(f));
        assert(line_on_page(frames, init)) by {
            assert forall|k: int| 0 <= k < init.len() implies (#[trigger] init[k]) < frames.len()
                && on_page(frames[init[k] as int]) by {
                assert(init[k] == line[k]);
            }
        }
        let before = lemma_sums(frames, init);
        let last = lemma_on_page(f);
        let m = before.0 + last.0;
        let h = before.1 + last.1;
        assert(before.0 * e + last.0 * e == m * e && before.1 * e + last.1 * e == h * e)
            by (nonlinear_arith)
            requires
                m == before.0 + last.0,
                h == before.1 + last.1,
        ;
        lemma_shifted_is_number(m, 1057);
        lemma_shifted_is_number(h, 1057);
        let a = sum_of_centers(frames, init);
        let b = sum_of_heights(frames, init);
        lemma_plus(a, center(f));
        lemma_exact_whole(a.spec_plus(center(f)), m * e);
        lemma_plus(b, f.h);
        lemma_exact_whole(b.spec_plus(f.h), h * e);
        assert(last.1 >= 0x2_0000) by (nonlinear_arith)
            requires
                last.1 * e >= 0x2_0000 * e,
                e > 0,
        ;
        assert(2 * last.0 >= last.1) by (nonlinear_arith)
            requires
                2 * (last.0 * e) >= last.1 * e,
                e > 0,
        ;
        (m, h)
    }
}

/// A sum over the count of what was added up.
proof fn lemma_mean(sum: F64, n: nat, m: int)
    requires
        sum.finite(),
        sum.value() == m * pow2(1057),
        0 < n <= 0x1000,
        0 < m <= n * 0x80_0000_0000,
        m >= n,
    ensures
        ({
            let mean = sum.spec_over(F64::of_nat(n));
            &&& mean.finite()
            &&& mean.value() >= 0
            &&& 0x20_0000_0000_0000 * (mean.value() * n - sum.value()) <= sum.value()
            &&& 0x20_0000_0000_0000 * (sum.value() - mean.value() * n) <= sum.value()
        }),
{
    let o = one();
    let e = pow2(1057) as int;
    let c = F64::of_nat(n);
    let mean = sum.spec_over(c);
    let s = sum.value();
    lemma_pow2_pos(1057);
    lemma_pow2_pos(1074);
    lemma_of_nat(n);
    lemma_of_nat(0);
    assert(n * o > 0) by (nonlinear_arith)
        requires
            n >= 1,
            o > 0,
    ;
    assert(s > 0) by (nonlinear_arith)
        requires
            s == m * e,
            m > 0,
            e > 0,
    ;
    lemma_over(sum, c);
    assert(0 * (n * o) <= s * o <= s * (n * o)) by (nonlinear_arith)
        requires
            s > 0,
            n >= 1,
            o > 0,
    ;
    assert(0 * o == 0);
    lemma_bounded(mean, s * o, n * o, F64::of_nat(0), sum);
    lemma_large(e);
    assert(s * o >= 0x10_0000_0000_0000 * (n * o)) by (nonlinear_arith)
        requires
            s == m * e,
            m >= n,
            n >= 1,
            e >= 0x10_0000_0000_0000,
            o > 0,
    ;
    lemma_over_error(sum, c);
    let v = mean.value();
    assert(0x20_0000_0000_0000 * (v * n - s) <= s && 0x20_0000_0000_0000 * (s - v * n) <= s)
        by (nonlinear_arith)
        requires
            0x20_0000_0000_0000 * (v * (n * o)) <= 0x20_0000_0000_0000 * (s * o) + s * o,
            0x20_0000_0000_0000 * (s * o) <= 0x20_0000_0000_0000 * (v * (n * o)) + s * o,
            o > 0,
    ;
}

proof fn lemma_large(e: int)
    requires
        e == pow2(1057),
    ensures
        e >= 0x10_0000_0000_0000,
{
    lemma2_to64_rest();
    vstd::arithmetic::power2::lemma_pow2_strictly_increases(52, 1057);
}

/// The part of a line's height that words may be off its middle.
pub open spec fn is_share(part: F64, share: int) -> bool {
    ||| part == (F64 { bits: JOIN_PART }) && share == 450
    ||| part == (F64 { bits: LAYOUT_PART }) && share == 500
}

/// A share, and a share that is a little smaller.
proof fn lemma_share(part: F64, share: int) -> (under: F64)
    requires
        is_share(part, share),
    ensures
        part.finite(),
        under.finite(),
        (1000 * share - 1) * one() <= 1_000_000 * part.value() <= (1000 * share + 1) * one(),
        (1000 * share - 2001) * one() <= 1_000_000 * under.value() <= (1000 * share - 1999) * one(),
        part.value() <= one(),
        under.value() <= one(),
{
    lemma2_to64();
    lemma2_to64_rest();
    lemma_pow2_pos(1074);
    if share == 450 {
        lemma_fraction_bits(JOIN_PART, 0x1c_cccc_cccc_cccd, 54);
        lemma_fraction_bits(0x3fdc_ac08_3126_e979, 0x1c_ac08_3126_e979, 54);
        let under = F64 { bits: 0x3fdc_ac08_3126_e979 };
        assert(447_999 * one() <= 1_000_000 * under.value() <= 448_001 * one());
        under
    } else {
        lemma_fraction_bits(LAYOUT_PART, 0x10_0000_0000_0000, 53);
        lemma_fraction_bits(0x3fdf_df3b_645a_1cac, 0x1f_df3b_645a_1cac, 54);
        let under = F64 { bits: 0x3fdf_df3b_645a_1cac };
        assert(497_999 * one() <= 1_000_000 * under.value() <= 498_001 * one());
        under
    }
}

/// A line takes a word whose middle is nearer to the mean of the middles of its words than the
/// share of the mean of their heights, and does not take one that is further from it, up to a
/// part in two hundred of that height. The share is 0.45 where text is joined and 0.5 where words
/// are laid out.
pub proof fn law_a_line_takes_what_is_near_its_mean(
    frames: Seq<Frame>,
    line: Seq<usize>,
    word: usize,
    part: F64,
    share: int,
)
    requires
        is_share(part, share),
        0 < line.len() <= 0x1000,
        line_on_page(frames, line),
        word < frames.len(),
        on_page(frames[word as int]),
    ensures
        ({
            let n = line.len();
            let h = sum_of_sizes(frames, line);
            let off = distance(
                n * twice_middle(frames[word as int]),
                sum_of_middles(frames, line),
            );
            &&& 1000 * off <= (2 * share - 10) * h ==> belongs(frames, line, word, part)
            &&& 1000 * off >= (2 * share + 10) * h ==> !belongs(frames, line, word, part)
        }),
{
    let n = line.len();
    let e = pow2(1057) as int;
    let sums = lemma_sums(frames, line);
    let place = lemma_on_page(frames[word as int]);
    let c = center(frames[word as int]);
    let s = sum_of_centers(frames, line).value();
    let h = sum_of_heights(frames, line).value();
    lemma_mean(sum_of_centers(frames, line), n, sums.0);
    lemma_mean(sum_of_heights(frames, line), n, sums.1);
    let mean = mean_center(frames, line);
    let height = mean_height(frames, line);
    let mv = mean.value();
    let hv = height.value();
    let nm = mv * n;
    let nh = hv * n;
    let ne = n * e;
    let under = lemma_share(part, share);
    assert(s <= 0x80_0000_0000 * ne && h >= 0x2_0000 * ne && ne > 0) by (nonlinear_arith)
        requires
            s == sums.0 * e,
            h == sums.1 * e,
            sums.0 <= n * 0x80_0000_0000,
            sums.1 >= n * 0x2_0000,
            ne == n * e,
            e > 0,
            n > 0,
    ;
    lemma_pow2_unfold(1058);
    assert(hv >= grain()) by (nonlinear_arith)
        requires
            0x20_0000_0000_0000 * (h - hv * n) <= h,
            h >= 0x2_0000 * (n * e),
            grain() == 2 * e,
            n > 0,
            e > 0,
    ;
    lemma_part(height, part, share);
    lemma_part(height, under, share - 2);
    let reach = height.spec_times(part);
    let less = height.spec_times(under);
    lemma_minus(c, mean);
    let cv = c.value();
    let d = cv - mv;
    let away = if d < 0 {
        -d
    } else {
        d
    };
    lemma_abs(c.spec_minus(mean), d);
    let off = c.spec_minus(mean).spec_abs();
    assert(belongs(frames, line, word, part) == off.spec_less(reach));
    let t = n * twice_middle(frames[word as int]);
    let nc = cv * n;
    assert(t == 2 * nc) by (nonlinear_arith)
        requires
            t == n * (2 * cv),
            nc == cv * n,
    ;
    let na = away * n;
    assert(na == distance(nc, nm)) by (nonlinear_arith)
        requires
            na == away * n,
            away == (if cv - mv < 0 {
                mv - cv
            } else {
                cv - mv
            }),
            nc == cv * n,
            nm == mv * n,
            n > 0,
            distance(nc, nm) == (if nc < nm {
                nm - nc
            } else {
                nc - nm
            }),
    ;
    let far = distance(t, sum_of_middles(frames, line));
    assert(far - 2 * na <= 2 * (if nm < s {
        s - nm
    } else {
        nm - s
    }));
    assert(2 * na - far <= 2 * (if nm < s {
        s - nm
    } else {
        nm - s
    }));
    assert(1000 * far - 2000 * na <= h && 2000 * na - 1000 * far <= h);
    let nr = reach.value() * n;
    let nl = less.value() * n;
    lemma_scaled_bounds(reach.value(), hv, n as int, share);
    lemma_scaled_bounds(less.value(), hv, n as int, share - 2);
    if 1000 * far <= (2 * share - 10) * h {
        if share == 450 {
            assert(1000 * far <= 890 * h);
            assert(1000 * nl >= 447 * nh);
        } else {
            assert(1000 * far <= 990 * h);
            assert(1000 * nl >= 497 * nh);
        }
        assert(na <= nl);
        assert(away <= less.value()) by (nonlinear_arith)
            requires
                away * n <= less.value() * n,
                n > 0,
        ;
        lemma_compare_nearly(off, away, 1, less);
        assert(less.value() < reach.value());
        lemma_compare(less, reach);
        lemma_off_finite(off, away, less);
        lemma_compare(off, less);
        lemma_compare(off, reach);
    }
    if 1000 * far >= (2 * share + 10) * h {
        if share == 450 {
            assert(1000 * far >= 910 * h);
            assert(1000 * nr <= 451 * nh);
        } else {
            assert(1000 * far >= 1010 * h);
            assert(1000 * nr <= 501 * nh);
        }
        assert(nr <= na);
        assert(reach.value() <= away) by (nonlinear_arith)
            requires
                reach.value() * n <= away * n,
                n > 0,
        ;
        lemma_compare_nearly(off, away, 1, reach);
    }
}

proof fn lemma_off_finite(off: F64, away: int, high: F64)
    requires
        is_nearly(off, away, 1),
        0 <= away <= high.value(),
        high.finite(),
    ensures
        off.finite(),
{
    lemma_of_nat(0);
    assert(0 * one() == 0);
    lemma_bounded(off, away, 1, F64::of_nat(0), high);
}

proof fn lemma_scaled_bounds(v: int, h: int, n: int, share: int)
    requires
        n > 0,
        (share - 1) * h < 1000 * v,
        1000 * v < (share + 1) * h,
    ensures
        (share - 1) * (h * n) <= 1000 * (v * n) <= (share + 1) * (h * n),
{
    assert((share - 1) * (h * n) <= 1000 * (v * n) <= (share + 1) * (h * n)) by (nonlinear_arith)
        requires
            n > 0,
            (share - 1) * h < 1000 * v,
            1000 * v < (share + 1) * h,
    ;
}

/// Two words are on one line where they are of one row, and only there.
pub open spec fn is_rows(lines: Seq<Seq<usize>>, row: spec_fn(int) -> int) -> bool {
    forall|a: int, k: int, b: int, l: int|
        #![trigger lines[a][k], lines[b][l]]
        0 <= a < lines.len() && 0 <= k < lines[a].len() && 0 <= b < lines.len() && 0 <= l
            < lines[b].len() ==> (row(lines[a][k] as int) == row(lines[b][l] as int) <==> a == b)
}

/// Words in rows. The middles of words of one row are no further than the spread from each other
/// and those of words of different rows no nearer than the gap, measured as twice the heights at
/// which they lie. The spread is small against the lowest of the words and the gap large against
/// the highest.
pub open spec fn in_rows(
    frames: Seq<Frame>,
    row: spec_fn(int) -> int,
    share: int,
    spread: int,
    gap: int,
    low: int,
    high: int,
) -> bool {
    &&& forall|i: int|
        0 <= i < frames.len() ==> on_page(#[trigger] frames[i]) && low <= frames[i].h.value()
            <= high
    &&& 1000 * spread <= (2 * share - 10) * low
    &&& 1000 * gap >= (2 * share + 10) * high
    &&& forall|i: int, j: int|
        #![trigger frames[i], frames[j]]
        0 <= i < frames.len() && 0 <= j < frames.len() ==> {
            let d = distance(twice_middle(frames[i]), twice_middle(frames[j]));
            if row(i) == row(j) {
                d <= spread
            } else {
                d >= gap
            }
        }
}

/// The positions on lines are those of frames, and there are as many as are counted.
spec fn has_places(lines: Seq<Seq<usize>>, n: nat, count: nat) -> bool {
    &&& lines.len() <= count
    &&& forall|a: int| 0 <= a < lines.len() ==> 0 < (#[trigger] lines[a]).len() <= count
    &&& forall|a: int, k: int|
        0 <= a < lines.len() && 0 <= k < lines[a].len() ==> (#[trigger] lines[a][k]) < n
}

/// The sums over a line whose middles lie between two heights.
proof fn lemma_sums_between(
    frames: Seq<Frame>,
    line: Seq<usize>,
    lower: int,
    upper: int,
    low: int,
    high: int,
)
    requires
        forall|k: int|
            0 <= k < line.len() ==> {
                let f = frames[(#[trigger] line[k]) as int];
                &&& lower <= twice_middle(f) <= upper
                &&& low <= f.h.value() <= high
            },
    ensures
        line.len() * lower <= sum_of_middles(frames, line) <= line.len() * upper,
        line.len() * low <= sum_of_sizes(frames, line) <= line.len() * high,
    decreases line.len(),
{
    if line.len() > 0 {
        let init = line.drop_last();
        assert forall|k: int| 0 <= k < init.len() implies ({
            let f = frames[(#[trigger] init[k]) as int];
            &&& lower <= twice_middle(f) <= upper
            &&& low <= f.h.value() <= high
        }) by {
            assert(init[k] == line[k]);
        }
        lemma_sums_between(frames, init, lower, upper, low, high);
        assert(line[line.len() - 1] == line.last());
        let n = line.len() as int;
        assert(n * lower == (n - 1) * lower + lower) by (nonlinear_arith);
        assert(n * upper == (n - 1) * upper + upper) by (nonlinear_arith);
        assert(n * low == (n - 1) * low + low) by (nonlinear_arith);
        assert(n * high == (n - 1) * high + high) by (nonlinear_arith);
    } else {
        assert(0 * lower == 0 && 0 * upper == 0 && 0 * low == 0 && 0 * high == 0);
    }
}

/// A line of one row takes the words of that row and no others.
proof fn lemma_line_of_row(
    frames: Seq<Frame>,
    line: Seq<usize>,
    word: usize,
    part: F64,
    row: spec_fn(int) -> int,
    share: int,
    spread: int,
    gap: int,
    low: int,
    high: int,
)
    requires
        is_share(part, share),
        in_rows(frames, row, share, spread, gap, low, high),
        0 < line.len() <= 0x1000,
        forall|k: int| 0 <= k < line.len() ==> (#[trigger] line[k]) < frames.len(),
        forall|k: int|
            0 <= k < line.len() ==> row((#[trigger] line[k]) as int) == row(line[0] as int),
        word < frames.len(),
    ensures
        belongs(frames, line, word, part) == (row(word as int) == row(line[0] as int)),
{
    let n = line.len() as int;
    let f = frames[word as int];
    let t = twice_middle(f);
    let first = frames[line[0] as int];
    lemma_pixel();
    assert(low <= f.h.value() <= high && one() <= f.h.value());
    let h = sum_of_sizes(frames, line);
    if row(word as int) == row(line[0] as int) {
        assert forall|k: int| 0 <= k < line.len() implies ({
            let g = frames[(#[trigger] line[k]) as int];
            &&& t - spread <= twice_middle(g) <= t + spread
            &&& low <= g.h.value() <= high
        }) by {
            let g = frames[line[k] as int];
            assert(distance(twice_middle(f), twice_middle(g)) <= spread);
        }
        lemma_sums_between(frames, line, t - spread, t + spread, low, high);
        let m = sum_of_middles(frames, line);
        let off = distance(n * t, m);
        assert(off <= n * spread) by (nonlinear_arith)
            requires
                n * (t - spread) <= m <= n * (t + spread),
                off == (if n * t < m {
                    m - n * t
                } else {
                    n * t - m
                }),
        ;
        lemma_near(n, off, spread, h, low, 2 * share - 10);
    } else {
        let above = twice_middle(first) < t;
        let d = if above {
            t - twice_middle(first)
        } else {
            twice_middle(first) - t
        };
        assert(distance(t, twice_middle(first)) >= gap);
        assert(high >= one());
        lemma_spread(share, spread, gap, low, high);
        assert forall|k: int| 0 <= k < line.len() implies ({
            let g = frames[(#[trigger] line[k]) as int];
            &&& above ==> twice_middle(g) <= t - gap
            &&& !above ==> twice_middle(g) >= t + gap
            &&& low <= g.h.value() <= high
        }) by {
            let g = frames[line[k] as int];
            assert(distance(twice_middle(f), twice_middle(g)) >= gap);
            assert(distance(twice_middle(first), twice_middle(g)) <= spread);
        }
        let m = sum_of_middles(frames, line);
        let off = distance(n * t, m);
        if above {
            let least = twice_middle(first) - spread;
            assert forall|k: int| 0 <= k < line.len() implies ({
                let g = frames[(#[trigger] line[k]) as int];
                &&& least <= twice_middle(g) <= t - gap
                &&& low <= g.h.value() <= high
            }) by {
                assert(distance(twice_middle(first), twice_middle(frames[line[k] as int])) <= spread);
            }
            lemma_sums_between(frames, line, least, t - gap, low, high);
            assert(off >= n * gap) by (nonlinear_arith)
                requires
                    m <= n * (t - gap),
                    off == (if n * t < m {
                        m - n * t
                    } else {
                        n * t - m
                    }),
            ;
        } else {
            let most = twice_middle(first) + spread;
            assert forall|k: int| 0 <= k < line.len() implies ({
                let g = frames[(#[trigger] line[k]) as int];
                &&& t + gap <= twice_middle(g) <= most
                &&& low <= g.h.value() <= high
            }) by {
                assert(distance(twice_middle(first), twice_middle(frames[line[k] as int])) <= spread);
            }
            lemma_sums_between(frames, line, t + gap, most, low, high);
            assert(off >= n * gap) by (nonlinear_arith)
                requires
                    m >= n * (t + gap),
                    off == (if n * t < m {
                        m - n * t
                    } else {
                        n * t - m
                    }),
            ;
        }
        lemma_far(n, off, gap, h, high, 2 * share + 10);
    }
    law_a_line_takes_what_is_near_its_mean(frames, line, word, part, share);
}

proof fn lemma_near(n: int, off: int, spread: int, h: int, low: int, c: int)
    by (nonlinear_arith)
    requires
        n > 0,
        off <= n * spread,
        1000 * spread <= c * low,
        h >= n * low,
        c > 0,
    ensures
        1000 * off <= c * h,
{
    assert(n * (1000 * spread) <= n * (c * low));
    assert(c * (n * low) <= c * h);
}

proof fn lemma_far(n: int, off: int, gap: int, h: int, high: int, c: int)
    by (nonlinear_arith)
    requires
        n > 0,
        off >= n * gap,
        1000 * gap >= c * high,
        h <= n * high,
        c > 0,
    ensures
        1000 * off >= c * h,
{
    assert(n * (1000 * gap) >= n * (c * high));
    assert(c * (n * high) >= c * h);
}

proof fn lemma_spread(share: int, spread: int, gap: int, low: int, high: int)
    by (nonlinear_arith)
    requires
        share == 450 || share == 500,
        1000 * spread <= (2 * share - 10) * low,
        1000 * gap >= (2 * share + 10) * high,
        low <= high,
        high > 0,
    ensures
        spread < 2 * gap,
        gap > 0,
{
}

/// The first line that takes a word.
proof fn lemma_first(
    frames: Seq<Frame>,
    lines: Seq<Seq<usize>>,
    word: usize,
    part: F64,
    from: nat,
)
    requires
        from <= lines.len(),
    ensures
        ({
            let at = first_line(frames, lines, word, part, from);
            &&& from <= at <= lines.len()
            &&& at < lines.len() ==> belongs(frames, lines[at as int], word, part)
            &&& forall|k: int|
                from <= k < at ==> !belongs(frames, #[trigger] lines[k], word, part)
        }),
    decreases lines.len() - from,
{
    if from < lines.len() && !belongs(frames, lines[from as int], word, part) {
        lemma_first(frames, lines, word, part, from + 1);
    }
}

/// A word is put at the end of the first line that takes it, and on a line of its own where none
/// does; the other lines stay as they are.
pub proof fn law_words_join_the_first_line_that_takes_them(
    frames: Seq<Frame>,
    lines: Seq<Seq<usize>>,
    word: usize,
    part: F64,
)
    ensures
        (forall|k: int| 0 <= k < lines.len() ==> !belongs(frames, #[trigger] lines[k], word, part))
            ==> placed(frames, lines, word, part) == lines.push(seq![word]),
        forall|at: int|
            0 <= at < lines.len() && belongs(frames, #[trigger] lines[at], word, part) && (forall|
                k: int,
            |
                0 <= k < at ==> !belongs(frames, #[trigger] lines[k], word, part)) ==> placed(
                frames,
                lines,
                word,
                part,
            ) == lines.update(at, lines[at].push(word)),
{
    lemma_first(frames, lines, word, part, 0);
}

/// Lines of rows stay so as a word is placed.
proof fn lemma_placed_in_rows(
    frames: Seq<Frame>,
    lines: Seq<Seq<usize>>,
    word: usize,
    part: F64,
    row: spec_fn(int) -> int,
    share: int,
    spread: int,
    gap: int,
    low: int,
    high: int,
    count: nat,
)
    requires
        is_share(part, share),
        in_rows(frames, row, share, spread, gap, low, high),
        has_places(lines, frames.len(), count),
        is_rows(lines, row),
        count < 0x1000,
        word < frames.len(),
    ensures
        has_places(placed(frames, lines, word, part), frames.len(), count + 1),
        is_rows(placed(frames, lines, word, part), row),
{
    assert forall|a: int| 0 <= a < lines.len() implies belongs(
        frames,
        #[trigger] lines[a],
        word,
        part,
    ) == (row(word as int) == row(lines[a][0] as int)) by {
        let line = lines[a];
        assert forall|k: int| 0 <= k < line.len() implies (#[trigger] line[k]) < frames.len()
            && row(line[k] as int) == row(line[0] as int) by {
            assert(lines[a][k] < frames.len());
            assert(row(lines[a][k] as int) == row(lines[a][0] as int));
        }
        lemma_line_of_row(frames, line, word, part, row, share, spread, gap, low, high);
    }
    lemma_first(frames, lines, word, part, 0);
    let at = first_line(frames, lines, word, part, 0) as int;
    let r = placed(frames, lines, word, part);
    if at < lines.len() {
        assert forall|a: int, k: int| 0 <= a < r.len() && 0 <= k < r[a].len() implies ({
            &&& (#[trigger] r[a][k]) < frames.len()
            &&& row(r[a][k] as int) == row(lines[a][0] as int)
        }) by {
            if a == at && k == lines[a].len() {
                assert(r[a][k] == word);
            } else {
                assert(r[a][k] == lines[a][k]);
                assert(row(lines[a][k] as int) == row(lines[a][0] as int));
            }
        }
        assert forall|a: int, k: int, b: int, l: int|
            #![trigger r[a][k], r[b][l]]
            0 <= a < r.len() && 0 <= k < r[a].len() && 0 <= b < r.len() && 0 <= l
                < r[b].len() implies (row(r[a][k] as int) == row(r[b][l] as int) <==> a == b) by {
            assert(row(lines[a][0] as int) == row(lines[b][0] as int) <==> a == b);
        }
    } else {
        assert(r == lines.push(seq![word]));
        assert forall|a: int, k: int| 0 <= a < r.len() && 0 <= k < r[a].len() implies ({
            &&& (#[trigger] r[a][k]) < frames.len()
            &&& a < lines.len() ==> r[a][k] == lines[a][k]
            &&& a == lines.len() ==> r[a][k] == word
        }) by {}
        assert forall|a: int, k: int, b: int, l: int|
            #![trigger r[a][k], r[b][l]]
            0 <= a < r.len() && 0 <= k < r[a].len() && 0 <= b < r.len() && 0 <= l
                < r[b].len() implies (row(r[a][k] as int) == row(r[b][l] as int) <==> a == b) by {
            if a < lines.len() {
                assert(!belongs(frames, lines[a], word, part));
                assert(row(lines[a][k] as int) == row(lines[a][0] as int));
            }
            if b < lines.len() {
                assert(!belongs(frames, lines[b], word, part));
                assert(row(lines[b][l] as int) == row(lines[b][0] as int));
            }
            if a < lines.len() && b < lines.len() {
                assert(row(lines[a][k] as int) == row(lines[b][l] as int) <==> a == b);
            }
        }
    }
}

/// The lines that words in rows form are these rows.
proof fn lemma_clustered_in_rows(
    frames: Seq<Frame>,
    order: Seq<usize>,
    part: F64,
    row: spec_fn(int) -> int,
    share: int,
    spread: int,
    gap: int,
    low: int,
    high: int,
    n: nat,
)
    requires
        is_share(part, share),
        in_rows(frames, row, share, spread, gap, low, high),
        n <= order.len() <= 0x1000,
        forall|k: int| 0 <= k < order.len() ==> (#[trigger] order[k]) < frames.len(),
    ensures
        has_places(clustered(frames, order, part, n), frames.len(), n),
        is_rows(clustered(frames, order, part, n), row),
    decreases n,
{
    if n > 0 {
        let m = (n - 1) as nat;
        lemma_clustered_in_rows(frames, order, part, row, share, spread, gap, low, high, m);
        lemma_placed_in_rows(
            frames,
            clustered(frames, order, part, m),
            order[n - 1],
            part,
            row,
            share,
            spread,
            gap,
            low,
            high,
            m,
        );
    }
}

/// The lines of words that stand in rows are these rows: two words are on one line where they are
/// of one row, and on different lines where they are not, however many words a row has.
pub proof fn law_rows_of_words_are_the_lines(
    frames: Seq<Frame>,
    part: F64,
    row: spec_fn(int) -> int,
    share: int,
    spread: int,
    gap: int,
    low: int,
    high: int,
)
    requires
        is_share(part, share),
        frames.len() <= 0x1000,
        in_rows(frames, row, share, spread, gap, low, high),
    ensures
        is_rows(reading_lines(frames, part), row),
{
    let order = stable_order(center_keys(frames));
    lemma_stable_order(center_keys(frames));
    lemma_clustered_in_rows(
        frames,
        order,
        part,
        row,
        share,
        spread,
        gap,
        low,
        high,
        frames.len(),
    );
    let lines = all_clustered(frames, part);
    let keys = line_keys(frames, lines);
    let down = stable_order(keys);
    lemma_stable_order(keys);
    let r = reading_lines(frames, part);
    assert forall|a: int, k: int| 0 <= a < r.len() && 0 <= k < r[a].len() implies row(
        (#[trigger] r[a][k]) as int,
    ) == row(lines[down[a] as int][0] as int) by {
        let line = lines[down[a] as int];
        let left = left_keys(frames, line);
        lemma_stable_order(left);
        let across = stable_order(left);
        assert(r[a] == arranged(line, across));
        assert(r[a][k] == lines[down[a] as int][across[k] as int]);
        assert(row(lines[down[a] as int][across[k] as int] as int) == row(
            lines[down[a] as int][0] as int,
        ));
    }
    assert forall|a: int, k: int, b: int, l: int|
        #![trigger r[a][k], r[b][l]]
        0 <= a < r.len() && 0 <= k < r[a].len() && 0 <= b < r.len() && 0 <= l
            < r[b].len() implies (row(r[a][k] as int) == row(r[b][l] as int) <==> a == b) by {
        let i = down[a] as int;
        let j = down[b] as int;
        assert(row(lines[i][0] as int) == row(lines[j][0] as int) <==> i == j);
        assert(i == j <==> a == b);
    }
}

/// The highest of the frames of a line begins at a height.
pub open spec fn begins_at(frames: Seq<Frame>, line: Seq<usize>, v: int) -> bool {
    &&& exists|k: int| 0 <= k < line.len() && frames[(#[trigger] line[k]) as int].y.value() == v
    &&& forall|k: int| 0 <= k < line.len() ==> v <= frames[(#[trigger] line[k]) as int].y.value()
}

/// The lowest of the frames of a line ends at a height.
pub open spec fn ends_at(frames: Seq<Frame>, line: Seq<usize>, v: int) -> bool {
    &&& exists|k: int|
        0 <= k < line.len() && {
            let f = frames[(#[trigger] line[k]) as int];
            f.y.value() + f.h.value() == v
        }
    &&& forall|k: int|
        0 <= k < line.len() ==> {
            let f = frames[(#[trigger] line[k]) as int];
            f.y.value() + f.h.value() <= v
        }
}

/// A line reaches from the top of the highest of its words to the bottom of the lowest.
pub proof fn law_a_line_spans_its_words(frames: Seq<Frame>, line: Seq<usize>)
    requires
        line.len() > 0,
        line_on_page(frames, line),
    ensures
        line_top(frames, line).finite(),
        begins_at(frames, line, line_top(frames, line).value()),
        line_bottom(frames, line).finite(),
        ends_at(frames, line, line_bottom(frames, line).value()),
    decreases line.len(),
{
    let f = frames[line.last() as int];
    assert(line[line.len() - 1] == line.last());
    assert(on_page(f));
    lemma_grid_sum(f.y, f.h);
    if line.len() == 1 {
        assert(line =~= seq![line[0]]);
        lemma_single_band(frames, line[0]);
    } else {
        let init = line.drop_last();
        assert forall|k: int| 0 <= k < init.len() implies (#[trigger] init[k]) < frames.len()
            && on_page(frames[init[k] as int]) by {
            assert(init[k] == line[k]);
        }
        law_a_line_spans_its_words(frames, init);
        lemma_min_max(line_top(frames, init), f.y);
        lemma_min_max(line_bottom(frames, init), f.spec_bottom());
        let top = line_top(frames, line).value();
        let bottom = line_bottom(frames, line).value();
        assert forall|k: int| 0 <= k < line.len() implies top <= frames[(
        #[trigger] line[k]) as int].y.value() && frames[line[k] as int].y.value()
            + frames[line[k] as int].h.value() <= bottom by {
            if k < init.len() {
                assert(init[k] == line[k]);
            }
        }
        let i = choose|k: int|
            0 <= k < init.len() && frames[(#[trigger] init[k]) as int].y.value() == line_top(
                frames,
                init,
            ).value();
        assert(init[i] == line[i]);
        let j = choose|k: int|
            0 <= k < init.len() && {
                let g = frames[(#[trigger] init[k]) as int];
                g.y.value() + g.h.value() == line_bottom(frames, init).value()
            };
        assert(init[j] == line[j]);
        if top == f.y.value() {
            assert(frames[line[line.len() - 1] as int].y.value() == top);
        } else {
            assert(frames[line[i] as int].y.value() == top);
        }
        if bottom == f.y.value() + f.h.value() {
            assert({
                let g = frames[line[line.len() - 1] as int];
                g.y.value() + g.h.value() == bottom
            });
        } else {
            assert({
                let g = frames[line[j] as int];
                g.y.value() + g.h.value() == bottom
            });
        }
    }
}

/// A line begins a paragraph where the gap above it is wider than 0.65 of the height of the line
/// above, and does not where it is narrower, up to a thousandth of that height.
pub proof fn law_a_wide_gap_begins_a_paragraph(
    frames: Seq<Frame>,
    above: Seq<usize>,
    line: Seq<usize>,
    top: int,
    bottom: int,
    next: int,
)
    requires
        above.len() > 0,
        line.len() > 0,
        line_on_page(frames, above),
        line_on_page(frames, line),
        begins_at(frames, above, top),
        ends_at(frames, above, bottom),
        begins_at(frames, line, next),
    ensures
        1000 * (next - bottom) <= 649 * (bottom - top) ==> !parted(frames, above, line),
        1000 * (next - bottom) >= 651 * (bottom - top) ==> parted(frames, above, line),
{
    law_a_line_spans_its_words(frames, above);
    law_a_line_spans_its_words(frames, line);
    let t = line_top(frames, above);
    let b = line_bottom(frames, above);
    let n = line_top(frames, line);
    let i = choose|k: int|
        0 <= k < above.len() && frames[(#[trigger] above[k]) as int].y.value() == t.value();
    let i2 = choose|k: int|
        0 <= k < above.len() && frames[(#[trigger] above[k]) as int].y.value() == top;
    let j = choose|k: int|
        0 <= k < above.len() && {
            let g = frames[(#[trigger] above[k]) as int];
            g.y.value() + g.h.value() == b.value()
        };
    let j2 = choose|k: int|
        0 <= k < above.len() && {
            let g = frames[(#[trigger] above[k]) as int];
            g.y.value() + g.h.value() == bottom
        };
    let k = choose|k: int|
        0 <= k < line.len() && frames[(#[trigger] line[k]) as int].y.value() == n.value();
    let k2 = choose|k: int|
        0 <= k < line.len() && frames[(#[trigger] line[k]) as int].y.value() == next;
    assert(t.value() == top && b.value() == bottom && n.value() == next);
    let fi = frames[above[i] as int];
    let fj = frames[above[j] as int];
    let fk = frames[line[k] as int];
    assert(on_page(fi) && on_page(fj) && on_page(fk));
    assert(bottom - top >= one()) by {
        assert(fi.h.value() >= one());
    }
    let mi = lemma_on_grid(fi.y);
    let mj = lemma_on_grid(fj.y);
    let hj = lemma_on_grid(fj.h);
    let mk = lemma_on_grid(fk.y);
    let g = grain();
    lemma_pixel();
    let bb = mj + hj;
    assert(mj * g + hj * g == bb * g) by (nonlinear_arith)
        requires
            bb == mj + hj,
    ;
    lemma_grain_difference(b, t, bb, mi);
    lemma_grain_difference(n, b, mk, bb);
    assert(bb * g - mi * g == (bb - mi) * g) by (nonlinear_arith);
    assert(mk * g - bb * g == (mk - bb) * g) by (nonlinear_arith);
    let tall = b.spec_minus(t);
    let gap = n.spec_minus(b);
    lemma2_to64_rest();
    lemma_pow2_pos(1074);
    lemma_whole_bits(ONE, 1, 52);
    lemma_min_max(tall, F64 { bits: ONE });
    let height = line_height(frames, above);
    let share = F64 { bits: PARAGRAPH_GAP };
    lemma_fraction_bits(PARAGRAPH_GAP, 0x14_cccc_cccc_cccd, 53);
    assert(649_999 * one() <= 1_000_000 * share.value() <= 650_001 * one());
    lemma_part(height, share, 650);
    lemma_compare(height.spec_times(share), gap);
    assert(649 * height.value() < 1000 * height.spec_times(share).value());
    assert(1000 * height.spec_times(share).value() < 651 * height.value());
}

} // verus!
