//! What holds of words that are put on lines and joined into text.

use vstd::prelude::*;
use vstd::arithmetic::power2::{
    lemma2_to64, lemma2_to64_rest, lemma_pow2_pos, lemma_pow2_unfold, pow2,
};
use crate::exact::{
    grain, is_nearly, is_number, lemma_compare, lemma_exact, lemma_exact_whole, lemma_fraction_bits,
    lemma_grid_number, lemma_grid_sum, lemma_half, lemma_minus, lemma_of_nat, lemma_over,
    lemma_part, lemma_pixel, lemma_plus, lemma_rank_is_value, lemma_shifted_is_number,
    lemma_whole_bits, on_grid, one,
};
use crate::datum::Datum;
use crate::float::F64;
use crate::ocr::layout::{NEGATIVE_ZERO, ONE, PARAGRAPH_GAP, TWO};
use crate::ocr::layout::{
    all_clustered, belongs, center, center_keys, clustered, first_line, left_keys, left_to_right,
    line_bottom, line_height, line_keys, line_top, mean_center, mean_height, parted, placed,
    reading_lines, sum_of_centers, sum_of_heights, top_to_bottom,
};
use crate::ocr::pipeline::JOIN_PART;
use crate::ocr::pipeline::{joined_text, line_text, lines_text, texts_of};
use crate::ocr::words::Frame;
use crate::ocr::words::{Word, frames_of};
use crate::rounding::Format;
use crate::sorting::Key;
use crate::sorting::{key_le, lemma_stable_order, stable_order};

verus! {

/// The height that words are put on lines by is that of the middle of their frames, up to
/// rounding: half of the height below the top.
pub proof fn law_the_center_is_the_middle(f: Frame)
    requires
        f.y.finite(),
        f.h.finite(),
        f.h.value() % 2 == 0,
    ensures
        is_nearly(center(f), 2 * f.y.value() + f.h.value(), 2),
        is_number(f.y.value() + f.h.value() / 2) ==> center(f).finite() && center(f).value()
            == f.y.value() + f.h.value() / 2,
{
    let two = F64 { bits: TWO };
    let half = f.h.spec_over(two);
    let o = one();
    let h = f.h.value();
    lemma2_to64_rest();
    lemma_pow2_pos(1074);
    lemma_whole_bits(TWO, 2, 51);
    lemma_over(f.h, two);
    lemma_half(f.h);
    let z = choose|z: F64| z.finite() && #[trigger] z.value() == h / 2;
    assert(z.value() * (2 * o) == h * o) by (nonlinear_arith)
        requires
            2 * z.value() == h,
    ;
    lemma_exact(half, h * o, 2 * o, z);
    lemma_plus(f.y, half);
    let c = center(f);
    let v = f.y.value() + h / 2;
    assert(is_nearly(c, v, 1));
    let fmt = Format::Double;
    assert forall|z: Datum| z.finite(fmt) && #[trigger] z.value(fmt) * 2 <= 2 * f.y.value()
        + h implies z.rank() <= c.datum().rank() by {
        assert(z.value(fmt) * 1 <= v);
    }
    assert forall|z: Datum| z.finite(fmt) && 2 * f.y.value() + h <= #[trigger] z.value(fmt)
        * 2 implies c.datum().rank() <= z.rank() by {
        assert(v <= z.value(fmt) * 1);
    }
    if is_number(v) {
        lemma_exact_whole(c, v);
    }
}

/// Twice the height of the middle of a frame.
pub open spec fn twice_middle(f: Frame) -> int {
    2 * f.y.value() + f.h.value()
}

/// The center of a frame on the grid is exact.
pub proof fn lemma_center(f: Frame)
    requires
        on_grid(f.y),
        on_grid(f.h),
    ensures
        center(f).finite(),
        2 * center(f).value() == twice_middle(f),
        exists|m: int| -0x4_0000_0000_0000 < m < 0x4_0000_0000_0000 && center(f).value()
            == #[trigger] (m * pow2(1057)),
{
    let g = grain();
    let e = pow2(1057) as int;
    let my = choose|m: int| -0x8000_0000_0000 <= m <= 0x8000_0000_0000 && f.y.value()
        == #[trigger] (m * grain());
    let mh = choose|m: int| -0x8000_0000_0000 <= m <= 0x8000_0000_0000 && f.h.value()
        == #[trigger] (m * grain());
    lemma_pow2_unfold(1058);
    assert(g == 2 * e);
    assert(mh * g == 2 * (mh * e)) by (nonlinear_arith)
        requires
            g == 2 * e,
    ;
    let m = 2 * my + mh;
    assert(my * g + mh * e == m * e) by (nonlinear_arith)
        requires
            g == 2 * e,
            m == 2 * my + mh,
    ;
    lemma_shifted_is_number(m, 1057);
    assert(f.h.value() % 2 == 0);
    assert(f.h.value() / 2 == mh * e);
    law_the_center_is_the_middle(f);
    assert(center(f).value() == m * pow2(1057));
}

/// The means over a line of one word.
proof fn lemma_single(frames: Seq<Frame>, i: usize)
    requires
        i < frames.len(),
        on_grid(frames[i as int].y),
        on_grid(frames[i as int].h),
    ensures
        mean_center(frames, seq![i]).finite(),
        mean_center(frames, seq![i]).value() == center(frames[i as int]).value(),
        mean_height(frames, seq![i]).finite(),
        mean_height(frames, seq![i]).value() == frames[i as int].h.value(),
{
    let f = frames[i as int];
    let line = seq![i];
    let zero = F64 { bits: NEGATIVE_ZERO };
    reveal_with_fuel(sum_of_centers, 2);
    reveal_with_fuel(sum_of_heights, 2);
    assert(line.drop_last() =~= Seq::<usize>::empty());
    lemma_rank_is_value(Format::Double, zero.datum(), zero.datum());
    lemma_center(f);
    lemma_of_nat(1);
    lemma_pow2_pos(1074);
    let o = one();
    lemma_plus(zero, center(f));
    lemma_exact_whole(zero.spec_plus(center(f)), center(f).value());
    lemma_plus(zero, f.h);
    lemma_exact_whole(zero.spec_plus(f.h), f.h.value());
    let c = zero.spec_plus(center(f));
    let h = zero.spec_plus(f.h);
    assert(sum_of_centers(frames, line) == c);
    assert(sum_of_heights(frames, line) == h);
    assert(1 * o == o);
    lemma_over(c, F64::of_nat(1));
    lemma_exact(c.spec_over(F64::of_nat(1)), c.value() * o, o, c);
    lemma_over(h, F64::of_nat(1));
    lemma_exact(h.spec_over(F64::of_nat(1)), h.value() * o, o, h);
}

/// The share of a line's height that words are joined within is 0.45, and the share that parts
/// paragraphs 0.65.
proof fn lemma_shares()
    ensures
        (F64 { bits: JOIN_PART }).finite(),
        449_999 * one() <= 1_000_000 * (F64 { bits: JOIN_PART }).value() <= 450_001 * one(),
        (F64 { bits: PARAGRAPH_GAP }).finite(),
        649_999 * one() <= 1_000_000 * (F64 { bits: PARAGRAPH_GAP }).value() <= 650_001 * one(),
{
    lemma2_to64();
    lemma2_to64_rest();
    lemma_pow2_pos(1074);
    lemma_fraction_bits(JOIN_PART, 0x1c_cccc_cccc_cccd, 54);
    lemma_fraction_bits(PARAGRAPH_GAP, 0x14_cccc_cccc_cccd, 53);
}

/// How far apart two values are.
pub open spec fn distance(a: int, b: int) -> int {
    if a < b {
        b - a
    } else {
        a - b
    }
}

/// A word belongs to the line of another where their middles are nearer to each other than 0.45
/// of the other's height, and does not where they are further, up to a thousandth of the height.
pub proof fn law_a_word_belongs_where_the_middle_is(frames: Seq<Frame>, i: usize, j: usize)
    requires
        i < frames.len(),
        j < frames.len(),
        on_grid(frames[i as int].y),
        on_grid(frames[i as int].h),
        on_grid(frames[j as int].y),
        on_grid(frames[j as int].h),
        frames[i as int].h.value() > 0,
    ensures
        ({
            let d = distance(twice_middle(frames[i as int]), twice_middle(frames[j as int]));
            let h = frames[i as int].h.value();
            let in_line = belongs(frames, seq![i], j, F64 { bits: JOIN_PART });
            &&& 1000 * d <= 898 * h ==> in_line
            &&& 1000 * d >= 902 * h ==> !in_line
        }),
{
    let f = frames[i as int];
    let g = frames[j as int];
    let part = F64 { bits: JOIN_PART };
    lemma_single(frames, i);
    lemma_center(f);
    lemma_center(g);
    lemma_shares();
    lemma_pixel();
    let mean = mean_center(frames, seq![i]);
    let height = mean_height(frames, seq![i]);
    let off = center(g).spec_minus(mean);
    let m = choose|m: int| -0x4_0000_0000_0000 < m < 0x4_0000_0000_0000 && center(f).value()
        == #[trigger] (m * pow2(1057));
    let n = choose|m: int| -0x4_0000_0000_0000 < m < 0x4_0000_0000_0000 && center(g).value()
        == #[trigger] (m * pow2(1057));
    let e = pow2(1057) as int;
    assert(n * e - m * e == (n - m) * e) by (nonlinear_arith);
    lemma_shifted_is_number(n - m, 1057);
    lemma_minus(center(g), mean);
    lemma_exact_whole(off, center(g).value() - mean.value());
    let away = off.spec_abs();
    assert(away.datum() == (Datum { neg: false, mag: off.datum().mag }));
    lemma_rank_is_value(Format::Double, off.datum(), off.datum());
    assert(away.finite());
    assert(2 * away.value() == distance(twice_middle(f), twice_middle(g)));
    let mh = choose|m: int| -0x8000_0000_0000 <= m <= 0x8000_0000_0000 && f.h.value()
        == #[trigger] (m * grain());
    assert(f.h.value() >= grain()) by (nonlinear_arith)
        requires
            f.h.value() == mh * grain(),
            f.h.value() > 0,
            grain() > 0,
    ;
    lemma_part(height, part, 450);
    let reach = height.spec_times(part);
    assert(449 * height.value() < 1000 * reach.value());
    assert(1000 * reach.value() < 451 * height.value());
    lemma_compare(away, reach);
    assert(belongs(frames, seq![i], j, part) == away.spec_less(reach));
}

/// One position is in order.
proof fn lemma_order_of_one(keys: Seq<Key>)
    requires
        keys.len() == 1,
    ensures
        stable_order(keys) == seq![0usize],
{
    lemma_stable_order(keys);
    assert(stable_order(keys) =~= seq![0usize]);
}

/// Two positions are in order, or are exchanged where the second comes before the first.
proof fn lemma_order_of_two(keys: Seq<Key>)
    requires
        keys.len() == 2,
    ensures
        stable_order(keys) == (if key_le(keys[0], keys[1]) {
            seq![0usize, 1usize]
        } else {
            seq![1usize, 0usize]
        }),
{
    lemma_stable_order(keys);
    let s = stable_order(keys);
    assert(s[0] < 2 && s[1] < 2 && s[0] != s[1]);
    let a = keys[s[0] as int];
    let b = keys[s[1] as int];
    assert(key_le(a, b) && (a == b ==> s[0] < s[1]));
    if key_le(keys[0], keys[1]) {
        assert(s =~= seq![0usize, 1usize]);
    } else {
        assert(s =~= seq![1usize, 0usize]);
    }
}

/// The lines that two words form as they are placed.
proof fn lemma_two_placed(frames: Seq<Frame>, part: F64)
    requires
        frames.len() == 2,
    ensures
        ({
            let order = stable_order(center_keys(frames));
            let p = order[0];
            let q = order[1];
            all_clustered(frames, part) == (if belongs(frames, seq![p], q, part) {
                seq![seq![p, q]]
            } else {
                seq![seq![p], seq![q]]
            })
        }),
{
    let order = stable_order(center_keys(frames));
    lemma_order_of_two(center_keys(frames));
    let p = order[0];
    let q = order[1];
    let none = Seq::<Seq<usize>>::empty();
    reveal_with_fuel(clustered, 3);
    reveal_with_fuel(first_line, 3);
    assert(clustered(frames, order, part, 0) == none);
    assert(placed(frames, none, p, part) =~= seq![seq![p]]);
    let one_line = seq![seq![p]];
    if belongs(frames, seq![p], q, part) {
        assert(seq![p].push(q) =~= seq![p, q]);
        assert(placed(frames, one_line, q, part) =~= seq![seq![p, q]]);
    } else {
        assert(placed(frames, one_line, q, part) =~= seq![seq![p], seq![q]]);
    }
}

/// Two words on one line are read from left to right.
proof fn lemma_two_on_a_line(frames: Seq<Frame>, part: F64, l: usize, r: usize)
    requires
        frames.len() == 2,
        (l == 0 && r == 1) || (l == 1 && r == 0),
        frames[l as int].x.finite(),
        frames[r as int].x.finite(),
        frames[l as int].x.value() < frames[r as int].x.value(),
        all_clustered(frames, part) == seq![seq![l, r]] || all_clustered(frames, part)
            == seq![seq![r, l]],
    ensures
        reading_lines(frames, part) == seq![seq![l, r]],
{
    let lines = all_clustered(frames, part);
    lemma_order_of_one(line_keys(frames, lines));
    assert(top_to_bottom(frames, part) =~= lines);
    let line = lines[0];
    lemma_order_of_two(left_keys(frames, line));
    lemma_compare(frames[l as int].x, frames[r as int].x);
    assert(left_to_right(frames, line) =~= seq![l, r]);
    assert(reading_lines(frames, part) =~= seq![seq![l, r]]);
}

/// Two words on lines of their own are read from top to bottom.
proof fn lemma_two_on_two_lines(frames: Seq<Frame>, part: F64, u: usize, v: usize)
    requires
        frames.len() == 2,
        (u == 0 && v == 1) || (u == 1 && v == 0),
        mean_center(frames, seq![u]).finite(),
        mean_center(frames, seq![v]).finite(),
        mean_center(frames, seq![u]).value() < mean_center(frames, seq![v]).value(),
        all_clustered(frames, part) == seq![seq![u], seq![v]] || all_clustered(frames, part)
            == seq![seq![v], seq![u]],
    ensures
        reading_lines(frames, part) == seq![seq![u], seq![v]],
{
    let lines = all_clustered(frames, part);
    lemma_order_of_two(line_keys(frames, lines));
    lemma_compare(mean_center(frames, seq![u]), mean_center(frames, seq![v]));
    let sorted = top_to_bottom(frames, part);
    assert(sorted =~= seq![seq![u], seq![v]]);
    lemma_order_of_one(left_keys(frames, seq![u]));
    lemma_order_of_one(left_keys(frames, seq![v]));
    assert(left_to_right(frames, seq![u]) =~= seq![u]);
    assert(left_to_right(frames, seq![v]) =~= seq![v]);
    assert(reading_lines(frames, part) =~= seq![seq![u], seq![v]]);
}

/// The texts of two words on one line.
proof fn lemma_two_joined(frames: Seq<Frame>, texts: Seq<Seq<char>>, l: usize, r: usize)
    ensures
        lines_text(frames, texts, seq![seq![l, r]], 1) == texts[l as int].push(' ')
            + texts[r as int],
{
    reveal_with_fuel(line_text, 2);
    assert(seq![l, r].drop_last() =~= seq![l]);
}

/// The top and the bottom of a line of one word.
pub proof fn lemma_single_band(frames: Seq<Frame>, i: usize)
    requires
        i < frames.len(),
        frames[i as int].y.finite(),
        frames[i as int].spec_bottom().finite(),
    ensures
        line_top(frames, seq![i]) == frames[i as int].y,
        line_bottom(frames, seq![i]) == frames[i as int].spec_bottom(),
{
    reveal_with_fuel(line_top, 2);
    reveal_with_fuel(line_bottom, 2);
    assert(seq![i].drop_last() =~= Seq::<usize>::empty());
}

/// A frame whose top and height lie on the grid and that has a height.
pub open spec fn is_high(f: Frame) -> bool {
    f.x.finite() && on_grid(f.y) && on_grid(f.h) && f.h.value() > 0
}

/// Two words whose middles are nearer to each other than 0.45 of either's height, up to a
/// thousandth, stand on one line, whatever their heights: they are joined by a space, the one
/// further left first, in whichever order they were found. Words of one middle do so always.
pub proof fn law_words_of_one_middle_stand_on_one_line(a: Word, b: Word)
    requires
        is_high(a.frame),
        is_high(b.frame),
        a.frame.x.value() < b.frame.x.value(),
        1000 * distance(twice_middle(a.frame), twice_middle(b.frame)) <= 898 * a.frame.h.value(),
        1000 * distance(twice_middle(a.frame), twice_middle(b.frame)) <= 898 * b.frame.h.value(),
    ensures
        joined_text(seq![a, b]) == a.text.push(' ') + b.text,
        joined_text(seq![b, a]) == a.text.push(' ') + b.text,
{
    let part = F64 { bits: JOIN_PART };
    let ab = seq![a, b];
    let ba = seq![b, a];
    let f = frames_of(ab);
    let g = frames_of(ba);
    law_a_word_belongs_where_the_middle_is(f, 0, 1);
    law_a_word_belongs_where_the_middle_is(f, 1, 0);
    law_a_word_belongs_where_the_middle_is(g, 0, 1);
    law_a_word_belongs_where_the_middle_is(g, 1, 0);
    lemma_order_of_two(center_keys(f));
    lemma_order_of_two(center_keys(g));
    lemma_two_placed(f, part);
    lemma_two_placed(g, part);
    lemma_two_on_a_line(f, part, 0, 1);
    lemma_two_on_a_line(g, part, 1, 0);
    lemma_two_joined(f, texts_of(ab), 0, 1);
    lemma_two_joined(g, texts_of(ba), 1, 0);
}

/// What two words on two lines are joined into.
proof fn lemma_two_lines_joined(
    frames: Seq<Frame>,
    texts: Seq<Seq<char>>,
    u: usize,
    v: usize,
)
    requires
        frames.len() == 2,
        (u == 0 && v == 1) || (u == 1 && v == 0),
        on_grid(frames[u as int].y),
        on_grid(frames[u as int].h),
        on_grid(frames[v as int].y),
        on_grid(frames[v as int].h),
        frames[u as int].h.value() > 0,
    ensures
        ({
            let t = lines_text(frames, texts, seq![seq![u], seq![v]], 2);
            let f = frames[u as int];
            let gap = frames[v as int].y.value() - (f.y.value() + f.h.value());
            let height = if f.h.value() < one() {
                one()
            } else {
                f.h.value()
            };
            &&& 1000 * gap <= 649 * height ==> t == texts[u as int].push('\n') + texts[v as int]
            &&& 1000 * gap >= 651 * height ==> t == texts[u as int].push('\n').push('\n')
                + texts[v as int]
        }),
{
    let f = frames[u as int];
    let g = frames[v as int];
    let lines = seq![seq![u], seq![v]];
    reveal_with_fuel(lines_text, 3);
    reveal_with_fuel(line_text, 2);
    assert(lines[0] == seq![u] && lines[1] == seq![v]);
    assert(line_text(texts, seq![u]) == texts[u as int]);
    assert(line_text(texts, seq![v]) == texts[v as int]);
    lemma_grid_sum(f.y, f.h);
    lemma_grid_sum(g.y, g.h);
    lemma_single_band(frames, u);
    lemma_single_band(frames, v);
    let bottom = f.spec_bottom();
    lemma_minus(bottom, f.y);
    assert(is_number(f.h.value()));
    lemma_exact_whole(bottom.spec_minus(f.y), f.h.value());
    lemma2_to64_rest();
    lemma_whole_bits(ONE, 1, 52);
    let tall = bottom.spec_minus(f.y);
    lemma_compare(tall, F64 { bits: ONE });
    let height = line_height(frames, seq![u]);
    lemma_pixel();
    let my = choose|m: int| -0x8000_0000_0000 <= m <= 0x8000_0000_0000 && f.y.value()
        == #[trigger] (m * grain());
    let mh = choose|m: int| -0x8000_0000_0000 <= m <= 0x8000_0000_0000 && f.h.value()
        == #[trigger] (m * grain());
    let mg = choose|m: int| -0x8000_0000_0000 <= m <= 0x8000_0000_0000 && g.y.value()
        == #[trigger] (m * grain());
    let e = grain();
    assert(mg * e - (my * e + mh * e) == (mg - my - mh) * e) by (nonlinear_arith);
    lemma_grid_number(mg - my - mh);
    let gap = g.y.spec_minus(bottom);
    lemma_minus(g.y, bottom);
    lemma_exact_whole(gap, g.y.value() - bottom.value());
    assert(f.h.value() >= e) by (nonlinear_arith)
        requires
            f.h.value() == mh * e,
            f.h.value() > 0,
            e > 0,
    ;
    lemma_shares();
    lemma_part(height, F64 { bits: PARAGRAPH_GAP }, 650);
    lemma_compare(height.spec_times(F64 { bits: PARAGRAPH_GAP }), gap);
}

/// Two words whose middles are further from each other than 0.45 of the upper one's height, up to
/// a thousandth, stand on two lines: the upper one comes first, in whichever order they were
/// found, and an empty line parts them where the gap between them is wider than 0.65 of the upper
/// one's height, which counts as one at least.
pub proof fn law_words_of_other_middles_stand_on_lines_of_their_own(a: Word, b: Word)
    requires
        is_high(a.frame),
        is_high(b.frame),
        twice_middle(a.frame) < twice_middle(b.frame),
        1000 * distance(twice_middle(a.frame), twice_middle(b.frame)) >= 902 * a.frame.h.value(),
    ensures
        joined_text(seq![a, b]) == joined_text(seq![b, a]),
        ({
            let f = a.frame;
            let gap = b.frame.y.value() - (f.y.value() + f.h.value());
            let height = if f.h.value() < one() {
                one()
            } else {
                f.h.value()
            };
            &&& 1000 * gap <= 649 * height ==> joined_text(seq![a, b]) == a.text.push('\n')
                + b.text
            &&& 1000 * gap >= 651 * height ==> joined_text(seq![a, b]) == a.text.push('\n').push(
                '\n',
            ) + b.text
        }),
{
    let part = F64 { bits: JOIN_PART };
    let ab = seq![a, b];
    let ba = seq![b, a];
    let f = frames_of(ab);
    let g = frames_of(ba);
    law_a_word_belongs_where_the_middle_is(f, 0, 1);
    law_a_word_belongs_where_the_middle_is(g, 1, 0);
    lemma_center(a.frame);
    lemma_center(b.frame);
    lemma_compare(center(a.frame), center(b.frame));
    lemma_order_of_two(center_keys(f));
    lemma_order_of_two(center_keys(g));
    lemma_two_placed(f, part);
    lemma_two_placed(g, part);
    lemma_single(f, 0);
    lemma_single(f, 1);
    lemma_single(g, 0);
    lemma_single(g, 1);
    lemma_two_on_two_lines(f, part, 0, 1);
    lemma_two_on_two_lines(g, part, 1, 0);
    lemma_two_lines_joined(f, texts_of(ab), 0, 1);
    lemma_two_lines_joined(g, texts_of(ba), 1, 0);
    let fl = seq![seq![0usize], seq![1usize]];
    let gl = seq![seq![1usize], seq![0usize]];
    lemma_grid_sum(a.frame.y, a.frame.h);
    lemma_grid_sum(b.frame.y, b.frame.h);
    lemma_single_band(f, 0);
    lemma_single_band(f, 1);
    lemma_single_band(g, 0);
    lemma_single_band(g, 1);
    reveal_with_fuel(lines_text, 3);
    reveal_with_fuel(line_text, 2);
    assert(parted(f, seq![0usize], seq![1usize]) == parted(g, seq![1usize], seq![0usize]));
    assert(fl[0] == seq![0usize] && fl[1] == seq![1usize]);
    assert(gl[0] == seq![1usize] && gl[1] == seq![0usize]);
}

} // verus!
