//! What holds of the pictures that are handed to the models and of what their answers say.

use vstd::prelude::*;
use vstd::arithmetic::power2::{lemma2_to64, lemma_pow2_adds, lemma_pow2_pos, pow2};
use crate::exact::{
    is_nearly_single, lemma_bits_single, lemma_bounded_single, lemma_compare_single,
    lemma_exact_single, lemma_minus_single, lemma_of_nat_single, lemma_over_single,
    lemma_plus_single, lemma_rank_is_value, lemma_shifted_single, lemma_whole_bits_single,
    one_single,
};
use crate::datum::Datum;
use crate::float::F32;
use crate::ocr::engine::LEAST_ROW_SCORE;
use crate::ocr::engine::{EngineSetup, EngineStep, Extraction, Outcome, Reading};
use crate::ocr::engine::{
    by_rows, is_kept, is_next_extraction, is_next_reading, is_next_step, kept_count, row_pictures,
    rows_text,
};
use crate::ocr::pipeline::joined_text;
use crate::ocr::preparation::{
    brightened, is_dark, law_brightened_pictures_are_light, mean_luma, preprocessed, sample_sum,
};
use crate::ocr::recognition::FULL_SINGLE;
use crate::ocr::recognition::Norm;
use crate::ocr::recognition::{
    Norms, detection_norms, normalized, path_count, path_score, path_total, recognition_norms,
    tensor_of, writes,
};
use crate::ocr::rows::{law_text_rows_lie_in_the_picture, text_rows};
use crate::ocr::sizing::law_low_pictures_become_readable;
use crate::ocr::words::DetectedWord;
use crate::ocr::words::views;
use crate::picture::{Raster, cropped, luma_of, rgb_of, rgba_at};
use crate::rounding::Format;
use crate::text::{is_blank, trimmed};
use crate::writing::{joined, law_trimming_takes_the_blanks_off_both_ends};

verus! {

/// A result that is not large is off by a part in `2^21` at most.
proof fn lemma_coarse(r: F32, num: int, den: int)
    requires
        is_nearly_single(r, num, den),
        den > 0,
        -7 * (den * one_single()) <= num <= 7 * (den * one_single()),
    ensures
        r.finite(),
        r.value() * den - num <= den * pow2(128),
        num - r.value() * den <= den * pow2(128),
{
    let g = pow2(128) as int;
    lemma_pow2_pos(128);
    lemma_pow2_adds(21, 128);
    lemma2_to64();
    assert(one_single() == 0x20_0000 * g);
    let d = den * g;
    assert(d > 0) by (nonlinear_arith)
        requires
            d == den * g,
            den > 0,
            g > 0,
    ;
    assert(den * one_single() == 0x20_0000 * d) by (nonlinear_arith)
        requires
            one_single() == 0x20_0000 * g,
            d == den * g,
    ;
    let k = num / d;
    vstd::arithmetic::div_mod::lemma_fundamental_div_mod(num, d);
    assert(d * k <= num < d * k + d);
    assert(-0x100_0000 < k < 0xff_ffff) by (nonlinear_arith)
        requires
            d * k <= num < d * k + d,
            -7 * (0x20_0000 * d) <= num <= 7 * (0x20_0000 * d),
            d > 0,
    ;
    let low = lemma_shifted_single(k, 128);
    let high = lemma_shifted_single(k + 1, 128);
    assert((k * g) * den == d * k && ((k + 1) * g) * den == d * k + d) by (nonlinear_arith)
        requires
            d == den * g,
    ;
    lemma_bounded_single(r, num, den, low, high);
    let v = r.value();
    assert(d * k <= v * den <= d * k + d) by (nonlinear_arith)
        requires
            k * g <= v <= (k + 1) * g,
            d == den * g,
            den > 0,
    ;
}

/// A norm that samples from zero to one are normalized by: the mean is one of them, and the
/// deviation is not small.
pub open spec fn is_norm(norm: Norm) -> bool {
    &&& norm.mean.finite()
    &&& norm.deviation.finite()
    &&& 0 <= norm.mean.value() <= one_single()
    &&& one_single() <= 5 * norm.deviation.value()
    &&& norm.deviation.value() <= one_single()
}

/// A sample is normalized as its part of 255, less the mean, over the deviation, up to a part in
/// `2^16`.
pub proof fn law_samples_are_normalized(v: u8, norm: Norm)
    requires
        is_norm(norm),
    ensures
        ({
            let r = normalized(v, norm);
            let exact = (v * one_single() - 255 * norm.mean.value()) * one_single();
            let den = 255 * norm.deviation.value();
            &&& r.finite()
            &&& 0x1_0000 * (r.value() * den - exact) <= den * one_single()
            &&& 0x1_0000 * (exact - r.value() * den) <= den * one_single()
        }),
{
    let o = one_single();
    let g = pow2(128) as int;
    lemma2_to64();
    lemma_pow2_pos(128);
    lemma_pow2_adds(21, 128);
    assert(o == 0x20_0000 * g);
    lemma_pow2_pos(149);
    let m = norm.mean.value();
    let d = norm.deviation.value();
    let full = F32 { bits: FULL_SINGLE };
    lemma_whole_bits_single(FULL_SINGLE, 255, 16);
    lemma_of_nat_single(v as nat);
    let q = F32::of_nat(v as nat).spec_over(full);
    lemma_over_single(F32::of_nat(v as nat), full);
    let num = (v * o) * o;
    let den = 255 * o;
    assert(0 <= num <= 7 * (den * o)) by (nonlinear_arith)
        requires
            num == (v * o) * o,
            den == 255 * o,
            0 <= v <= 255,
            o > 0,
    ;
    lemma_coarse(q, num, den);
    let qv = q.value();
    assert(255 * qv - v * o <= 255 * g && v * o - 255 * qv <= 255 * g) by (nonlinear_arith)
        requires
            qv * (255 * o) - (v * o) * o <= (255 * o) * g,
            (v * o) * o - qv * (255 * o) <= (255 * o) * g,
            o > 0,
    ;
    let vo = v * o;
    assert(0 <= vo <= 255 * o) by (nonlinear_arith)
        requires
            vo == v * o,
            0 <= v <= 255,
            o > 0,
    ;
    let x = q.spec_minus(norm.mean);
    lemma_minus_single(q, norm.mean);
    assert(1 * o == o);
    lemma_coarse(x, qv - m, 1);
    let xv = x.value();
    assert(xv * 1 - (qv - m) <= g && (qv - m) - xv * 1 <= g);
    let r = x.spec_over(norm.deviation);
    lemma_over_single(x, norm.deviation);
    assert(-7 * (d * o) <= xv * o <= 7 * (d * o)) by (nonlinear_arith)
        requires
            4 * xv <= 5 * o,
            -5 * o <= 4 * xv,
            o <= 5 * d,
            o > 0,
    ;
    lemma_coarse(r, xv * o, d);
    let rv = r.value();
    let exact = vo - 255 * m;
    let left = 255 * (rv * d);
    assert(left - 255 * (xv * o) <= 255 * (d * g) && 255 * (xv * o) - left <= 255 * (d * g));
    let dg = d * g;
    assert((255 * xv) * o - exact * o <= 510 * (g * o) && exact * o - (255 * xv) * o <= 510 * (g
        * o)) by (nonlinear_arith)
        requires
            255 * xv - exact <= 510 * g,
            exact - 255 * xv <= 510 * g,
            o > 0,
    ;
    assert((255 * xv) * o == 255 * (xv * o)) by (nonlinear_arith);
    let go = g * o;
    assert(go <= 5 * dg * 0x20_0000 && dg > 0) by (nonlinear_arith)
        requires
            go == g * o,
            dg == d * g,
            o <= 5 * d,
            o == 0x20_0000 * g,
            g > 0,
    {
        assert(g * o <= g * (5 * d));
        assert(5 * dg <= 5 * dg * 0x20_0000);
    }
    assert(go <= 5 * dg) by (nonlinear_arith)
        requires
            go == g * o,
            dg == d * g,
            o <= 5 * d,
            g > 0,
    ;
    assert(rv * (255 * d) == left) by (nonlinear_arith)
        requires
            left == 255 * (rv * d),
    ;
    assert((255 * d) * o == 255 * (0x20_0000 * dg)) by (nonlinear_arith)
        requires
            o == 0x20_0000 * g,
            dg == d * g,
    ;
    assert(left - exact * o <= 255 * dg + 510 * (5 * dg));
    assert(exact * o - left <= 255 * dg + 510 * (5 * dg));
}

/// The value is a number of thousandths, up to a thousandth of one.
pub open spec fn is_about(a: F32, thousandths: int) -> bool {
    let v = thousandths * one_single();
    &&& a.finite()
    &&& 1000 * (1000 * a.value() - v) <= one_single()
    &&& 1000 * (v - 1000 * a.value()) <= one_single()
}

proof fn lemma_about(bits: u32, k: nat, r: nat, j: nat, share: int)
    requires
        bits == k * 0x80_0000 + r,
        0x80_0000 <= r < 0x100_0000,
        k + j == 149,
        1000 * (1000 * r - share * pow2(j)) <= pow2(j),
        1000 * (share * pow2(j) - 1000 * r) <= pow2(j),
    ensures
        is_about(F32 { bits }, share),
{
    lemma_bits_single(bits, k, r);
    lemma_pow2_adds(j, k);
    lemma_pow2_pos(k);
    let a = pow2(j) as int;
    let b = pow2(k) as int;
    assert(1000 * (1000 * (r * b) - share * (a * b)) <= a * b && 1000 * (share * (a * b) - 1000 * (r
        * b)) <= a * b) by (nonlinear_arith)
        requires
            1000 * (1000 * r - share * a) <= a,
            1000 * (share * a - 1000 * r) <= a,
            b > 0,
    ;
}

/// A norm has a mean and a deviation, in thousandths.
pub open spec fn norm_is(norm: Norm, mean: int, deviation: int) -> bool {
    is_norm(norm) && is_about(norm.mean, mean) && is_about(norm.deviation, deviation)
}

/// For detection, red, green and blue are normalized by means of 0.485, 0.456 and 0.406 and
/// deviations of 0.229, 0.224 and 0.225; for recognition, all of them by a half and a half.
pub proof fn law_the_norms_of_the_models()
    ensures
        norm_is(detection_norms().0, 485, 229),
        norm_is(detection_norms().1, 456, 224),
        norm_is(detection_norms().2, 406, 225),
        norm_is(recognition_norms().0, 500, 500),
        norm_is(recognition_norms().1, 500, 500),
        norm_is(recognition_norms().2, 500, 500),
{
    lemma2_to64();
    lemma_about(0x3ef8_51ec, 124, 0xf8_51ec, 25, 485);
    lemma_about(0x3e6a_7efa, 123, 0xea_7efa, 26, 229);
    lemma_about(0x3ee9_78d5, 124, 0xe9_78d5, 25, 456);
    lemma_about(0x3e65_6042, 123, 0xe5_6042, 26, 224);
    lemma_about(0x3ecf_df3b, 124, 0xcf_df3b, 25, 406);
    lemma_about(0x3e66_6666, 123, 0xe6_6666, 26, 225);
    lemma_about(0x3f00_0000, 125, 0x80_0000, 24, 500);
    lemma_pow2_pos(149);
}

/// What a model is given has all of red, then all of green, then all of blue, each pixel by pixel,
/// and each by its own norm.
pub proof fn law_planes_hold_one_colour_each(p: Raster, norms: Norms, i: int)
    requires
        0 <= i < p.pixels(),
    ensures
        tensor_of(p, norms).len() == 3 * p.pixels(),
        tensor_of(p, norms)[i] == normalized(rgba_at(p, i, 0), norms.0),
        tensor_of(p, norms)[p.pixels() + i] == normalized(rgba_at(p, i, 1), norms.1),
        tensor_of(p, norms)[2 * p.pixels() + i] == normalized(rgba_at(p, i, 2), norms.2),
{
    let n = p.pixels() as int;
    vstd::arithmetic::div_mod::lemma_fundamental_div_mod_converse(i, n, 0, i);
    vstd::arithmetic::div_mod::lemma_fundamental_div_mod_converse(n + i, n, 1, i);
    vstd::arithmetic::div_mod::lemma_fundamental_div_mod_converse(2 * n + i, n, 2, i);
    assert((3 * i) / 3 == i && (3 * i) % 3 == 0);
    assert((3 * i + 1) / 3 == i && (3 * i + 1) % 3 == 1);
    assert((3 * i + 2) / 3 == i && (3 * i + 2) % 3 == 2);
    assert(rgb_of(p)[i * 3] == rgba_at(p, i, 0));
    assert(rgb_of(p)[i * 3 + 1] == rgba_at(p, i, 1));
    assert(rgb_of(p)[i * 3 + 2] == rgba_at(p, i, 2));
}

/// The sum of the scores of the steps of a path that write an entry, in parts of `2^12`.
pub open spec fn sum_of_written(entries: nat, path: Seq<nat>, parts: Seq<int>) -> int
    decreases path.len(),
{
    if path.len() == 0 {
        0
    } else {
        sum_of_written(entries, path.drop_last(), parts) + (if writes(path, entries) {
            parts[path.len() - 1]
        } else {
            0
        })
    }
}

proof fn lemma_total(entries: nat, path: Seq<nat>, scores: Seq<F32>, parts: Seq<int>)
    requires
        path.len() <= scores.len(),
        path.len() <= parts.len(),
        path.len() < 0x1000,
        forall|t: int|
            0 <= t < path.len() ==> -0x1000 <= #[trigger] parts[t] <= 0x1000 && scores[t].finite()
                && scores[t].value() == parts[t] * pow2(137),
    ensures
        path_total(entries, path, scores).finite(),
        path_total(entries, path, scores).value() == sum_of_written(entries, path, parts) * pow2(
            137,
        ),
        -0x1000 * path.len() <= sum_of_written(entries, path, parts) <= 0x1000 * path.len(),
        path_count(entries, path) <= path.len(),
    decreases path.len(),
{
    let g = pow2(137) as int;
    if path.len() == 0 {
        let zero = F32 { bits: 0 };
        lemma_rank_is_value(Format::Single, zero.datum(), zero.datum());
        assert(0 * g == 0);
    } else {
        let init = path.drop_last();
        lemma_total(entries, init, scores, parts);
        if writes(path, entries) {
            let t = path.len() - 1;
            assert(-0x1000 <= parts[t] <= 0x1000);
            let a = path_total(entries, init, scores);
            let s = sum_of_written(entries, init, parts);
            let k = s + parts[t];
            assert(s * g + parts[t] * g == k * g) by (nonlinear_arith)
                requires
                    k == s + parts[t],
            ;
            let z = lemma_shifted_single(k, 137);
            lemma_plus_single(a, scores[t]);
            lemma_exact_single(a.spec_plus(scores[t]), a.value() + scores[t].value(), 1, z);
        }
    }
}

/// The score of a line is the mean of the scores of the entries that are written, up to rounding,
/// where these are parts of `2^12` from minus one to one. Repetitions and blanks do not count.
pub proof fn law_the_score_of_a_line_is_a_mean(
    entries: nat,
    path: Seq<nat>,
    scores: Seq<F32>,
    parts: Seq<int>,
)
    requires
        path.len() <= scores.len(),
        path.len() <= parts.len(),
        path.len() < 0x1000,
        forall|t: int|
            0 <= t < path.len() ==> -0x1000 <= #[trigger] parts[t] <= 0x1000 && scores[t].finite()
                && scores[t].value() == parts[t] * pow2(137),
        path_count(entries, path) > 0,
    ensures
        is_nearly_single(
            path_score(entries, path, scores),
            sum_of_written(entries, path, parts) * pow2(137),
            path_count(entries, path) as int,
        ),
{
    lemma_total(entries, path, scores, parts);
    let n = path_count(entries, path);
    let a = path_total(entries, path, scores);
    let c = F32::of_nat(n);
    let o = one_single();
    lemma_pow2_pos(149);
    lemma_of_nat_single(n);
    assert(n * o > 0) by (nonlinear_arith)
        requires
            n > 0,
            o > 0,
    ;
    lemma_over_single(a, c);
    let r = path_score(entries, path, scores);
    let v = a.value();
    let f = Format::Single;
    assert forall|z: Datum| z.finite(f) && #[trigger] z.value(f) * (n as int) <= v implies z.rank()
        <= r.datum().rank() by {
        let w = z.value(f);
        assert(w * (n * o) <= v * o) by (nonlinear_arith)
            requires
                w * n <= v,
                o > 0,
        ;
    }
    assert forall|z: Datum| z.finite(f) && v <= #[trigger] z.value(f) * (
    n as int) implies r.datum().rank() <= z.rank() by {
        let w = z.value(f);
        assert(v * o <= w * (n * o)) by (nonlinear_arith)
            requires
                v <= w * n,
                o > 0,
        ;
    }
}

/// What was read in a row is kept if it is not all blank and its score is above minus five.
pub proof fn law_rows_of_text_are_kept(text: Seq<char>, score: F32)
    requires
        score.finite(),
    ensures
        is_kept((text, score)) <==> score.value() > -5 * one_single() && exists|i: int|
            0 <= i < text.len() && !is_blank(#[trigger] text[i]),
{
    let least = F32 { bits: LEAST_ROW_SCORE };
    let five = F32 { bits: 0x40a0_0000 };
    lemma2_to64();
    lemma_whole_bits_single(0x40a0_0000, 5, 21);
    assert(least.datum().mag == five.datum().mag && least.datum().neg && !five.datum().neg);
    assert(least.finite() && least.value() == -5 * one_single());
    lemma_compare_single(least, score);
    let ends = law_trimming_takes_the_blanks_off_both_ends(text);
    if ends.0 < ends.1 {
        assert(!is_blank(text[ends.0]));
    }
}

/// The texts of the rows that are kept, without the blanks around them.
pub open spec fn kept_texts(read: Seq<(Seq<char>, F32)>) -> Seq<Seq<char>> {
    read.filter(|r: (Seq<char>, F32)| is_kept(r)).map_values(|r: (Seq<char>, F32)| trimmed(r.0))
}

/// The rows that are kept stand on lines of their own, in their order and without the blanks
/// around them; the others leave no trace.
pub proof fn law_kept_rows_stand_on_lines_of_their_own(read: Seq<(Seq<char>, F32)>)
    ensures
        rows_text(read, read.len()) == joined(kept_texts(read), '\n'),
{
    lemma_rows_joined(read, read.len());
    assert(read.take(read.len() as int) =~= read);
}

proof fn lemma_rows_joined(read: Seq<(Seq<char>, F32)>, n: nat)
    requires
        n <= read.len(),
    ensures
        rows_text(read, n) == joined(kept_texts(read.take(n as int)), '\n'),
        kept_count(read, n) == kept_texts(read.take(n as int)).len(),
    decreases n,
{
    let keeps = |r: (Seq<char>, F32)| is_kept(r);
    reveal(Seq::filter);
    if n == 0 {
        assert(read.take(0) =~= Seq::<(Seq<char>, F32)>::empty());
        assert(kept_texts(read.take(0)) =~= Seq::<Seq<char>>::empty());
    } else {
        let m = (n - 1) as nat;
        lemma_rows_joined(read, m);
        let head = read.take(n as int);
        let last = read[n - 1];
        assert(head.drop_last() =~= read.take(m as int));
        assert(head.last() == last);
        let before = kept_texts(read.take(m as int));
        let all = kept_texts(head);
        if is_kept(last) {
            assert(head.filter(keeps) == head.drop_last().filter(keeps).push(last));
            assert(all =~= before.push(trimmed(last.0)));
            assert(all.drop_last() =~= before);
            assert(all.last() == trimmed(last.0));
        } else {
            assert(head.filter(keeps) == head.drop_last().filter(keeps));
            assert(all =~= before);
        }
    }
}

/// A picture with a side below four is not read. One that is not higher than 64 is read as a
/// whole, and so is a higher one without rows of text; else each row of text is read, over the
/// whole width.
pub proof fn law_pictures_are_read_whole_or_row_by_row(p: Raster)
    ensures
        p.width < 4 || p.height < 4 <==> row_pictures(p).len() == 0,
        p.width >= 4 && 4 <= p.height <= 64 ==> row_pictures(p) == seq![p],
        p.width >= 4 && p.height > 64 && text_rows(p).len() == 0 ==> row_pictures(p) == seq![p],
        p.width >= 4 && p.height > 64 && text_rows(p).len() > 0 ==> {
            &&& row_pictures(p).len() == text_rows(p).len()
            &&& forall|i: int|
                0 <= i < text_rows(p).len() ==> {
                    let row = text_rows(p)[i];
                    let part = #[trigger] row_pictures(p)[i];
                    &&& part.width == p.width
                    &&& part.height == row.1 - row.0
                    &&& part == cropped(p, 0, row.0 as u32, p.width, (row.1 - row.0) as u32)
                }
        },
{
    law_text_rows_lie_in_the_picture(p);
    if by_rows(p) {
        assert forall|i: int| 0 <= i < text_rows(p).len() implies ({
            let row = text_rows(p)[i];
            let part = #[trigger] row_pictures(p)[i];
            &&& part.width == p.width
            &&& part.height == row.1 - row.0
            &&& part == cropped(p, 0, row.0 as u32, p.width, (row.1 - row.0) as u32)
        }) by {
            let row = text_rows(p)[i];
            assert(crate::ocr::rows::row_fits(row, p.height as nat));
        }
    }
}

/// A picture is dark where its luminances are below 128 on average, and only a dark one is
/// changed before its text is read.
pub proof fn law_a_dark_picture_is_below_the_middle(p: Raster)
    requires
        p.pixels() > 0,
    ensures
        is_dark(p) <==> sample_sum(luma_of(p)) < 128 * p.pixels(),
        sample_sum(luma_of(p)) >= 128 * p.pixels() ==> brightened(p) == p,
{
    let n = p.pixels() as int;
    let s = sample_sum(luma_of(p)) as int;
    vstd::arithmetic::div_mod::lemma_fundamental_div_mod(s, n);
    let m = s / n;
    assert(mean_luma(p) == m);
    assert(m < 128 <==> s < 128 * n) by (nonlinear_arith)
        requires
            n * m <= s < n * m + n,
            n > 0,
    ;
}

/// A text that is not all blank.
pub open spec fn says_something(t: Seq<char>) -> bool {
    exists|i: int| 0 <= i < t.len() && !is_blank(#[trigger] t[i])
}

proof fn lemma_says_something(t: Seq<char>)
    ensures
        says_something(t) <==> trimmed(t).len() > 0,
{
    let ends = law_trimming_takes_the_blanks_off_both_ends(t);
    if ends.0 < ends.1 {
        assert(!is_blank(t[ends.0]));
    }
}

/// The text of a picture is sought step by step: the models are tried first, then Tesseract, where
/// the models have found no text, and then the rows, where Tesseract has found none either. The
/// first text that says something is the text.
pub proof fn law_text_is_sought_step_by_step(
    p: Raster,
    detected: Outcome<Vec<DetectedWord>>,
    tesseract: Outcome<String>,
    r: Reading,
)
    requires
        is_next_reading(p, detected, tesseract, r),
        p.width >= 4,
        p.height >= 4,
    ensures
        ({
            let words = detected matches Outcome::Made(w) && w@.len() > 0 && says_something(
                joined_text(views(w@)),
            );
            let text = tesseract matches Outcome::Made(t) && says_something(t@);
            &&& r is Detect <==> detected is Untried
            &&& r is Tesseract <==> !(detected is Untried) && !words && tesseract is Untried
            &&& r is Rows <==> !(detected is Untried) && !words && !(tesseract is Untried) && !text
            &&& words ==> (r matches Reading::Text(t) && t@ == joined_text(
                views(detected->Made_0@),
            ))
            &&& r is Text && !words ==> text && r->Text_0@ == trimmed(tesseract->Made_0@)
            &&& r matches Reading::Tesseract(ready) ==> ready@ == preprocessed(p)
            &&& r matches Reading::Rows(ready) ==> ready@ == preprocessed(p)
        }),
{
    if let Outcome::Made(w) = detected {
        lemma_says_something(joined_text(views(w@)));
    }
    if let Outcome::Made(t) = tesseract {
        lemma_says_something(t@);
    }
}

/// A picture that is made ready for reading keeps its size where it is 80 high at least, and is
/// then light; a lower one becomes 110 high, or twice as high where that is more.
pub proof fn law_pictures_are_made_ready(p: Raster)
    requires
        p.wf(),
        0 < p.width <= 0x10_0000,
        p.height > 0,
    ensures
        p.height >= 80 ==> preprocessed(p).width == p.width && preprocessed(p).height == p.height
            && mean_luma(preprocessed(p)) >= 125,
        55 < p.height < 80 ==> preprocessed(p).height == 2 * p.height,
        p.height <= 55 ==> preprocessed(p).height == 110,
        p.height < 80 ==> preprocessed(p).width >= 2 * p.width,
{
    assert(p.pixels() > 0) by (nonlinear_arith)
        requires
            p.pixels() == p.width as nat * p.height as nat,
            p.width > 0,
            p.height > 0,
    ;
    law_brightened_pictures_are_light(p);
    if p.height < 80 {
        law_low_pictures_become_readable(p.width, p.height);
    }
}

/// Words are sought step by step: Tesseract is asked for a table first; where it has no words, the
/// engine is asked, once there is one, and made before that where it can be. What has words first
/// gives the words.
pub proof fn law_words_are_sought_step_by_step(
    table: Outcome<Vec<DetectedWord>>,
    setup: EngineSetup,
    detected: Outcome<Vec<DetectedWord>>,
    r: Extraction,
)
    requires
        is_next_extraction(table, setup, detected, r),
    ensures
        ({
            let listed = table matches Outcome::Made(w) && w@.len() > 0;
            let seen = detected matches Outcome::Made(w) && w@.len() > 0;
            &&& r is Table <==> table is Untried
            &&& listed ==> (r matches Extraction::Words(w) && views(w@) == views(
                table->Made_0@,
            ))
            &&& r is Detect <==> !(table is Untried) && !listed && setup.entered && setup.present
                && detected is Untried
            &&& r is Engine ==> !(table is Untried) && !listed && setup.entered && !setup.present
            &&& !(table is Untried) && !listed && setup.entered && setup.present && seen ==> (
            r matches Extraction::Words(w) && views(w@) == views(detected->Made_0@))
            &&& !(table is Untried) && !listed && !setup.entered ==> (r matches Extraction::Words(w)
                && w@.len() == 0)
            &&& r matches Extraction::Engine(step) ==> is_next_step(setup, step) && !(
            step is Nothing)
        }),
{
    if let Extraction::Engine(step) = r {
        if step is Nothing {
            assert(step == EngineStep::Nothing);
        }
    }
}

/// The engine is made step by step, where there is none and it can be put somewhere: the models are
/// made ready, the engine is made from them, and it is kept. What has failed is not tried again.
pub proof fn law_the_engine_is_made_step_by_step(setup: EngineSetup, step: EngineStep)
    requires
        is_next_step(setup, step),
    ensures
        ({
            let wanted = setup.entered && !setup.present;
            &&& step is EnsureModels <==> wanted && setup.models is Untried
            &&& step is Load <==> wanted && setup.models is Made && setup.engine is Untried
            &&& step is Keep <==> wanted && setup.models is Made && setup.engine is Made
            &&& step matches EngineStep::Load(p) ==> {
                let paths = setup.models->Made_0;
                &&& p.det_model@ == paths.det_model@
                &&& p.rec_model@ == paths.rec_model@
                &&& p.dict_file@ == paths.dict_file@
            }
        }),
{
}

} // verus!
