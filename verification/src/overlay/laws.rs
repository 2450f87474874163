//! What holds of the overlay as a whole.

use vstd::prelude::*;
use vstd::arithmetic::div_mod::lemma_fundamental_div_mod_converse;
use vstd::arithmetic::power2::{
    pow2, lemma_pow2_adds, lemma_pow2_pos, lemma_pow2_unfold, lemma2_to64, lemma2_to64_rest,
};
use crate::accuracy::{lemma_rounding_grows, lemma_units_grow};
use crate::constants::MIN_SELECTION_AREA_PIXELS;
use crate::datum::product_of;
use crate::exact::{
    is_nearly, is_ordinary, lemma_abs, lemma_compare, lemma_compare_nearly,
    lemma_count_is_ordinary, lemma_exact_whole, lemma_grid_end, lemma_grid_moved,
    lemma_inverse_ratio, lemma_min_max, lemma_minus, lemma_of_nat, lemma_one_is_large, lemma_plus,
    lemma_ratio, lemma_round, lemma_whole_bits, one,
};
use crate::float::F64;
use crate::ocr::detection::arranged;
use crate::ocr::pipeline::joined_text;
use crate::ocr::words::{Frame, Word, frame_on_grid, lemma_frame_sides};
use crate::overlay::copying::{Plan, plan_of, text_touching, words_touching};
use crate::overlay::selection::{
    Point, flow_of, is_outside, is_within, law_the_first_word_pointed_at_is_taken, points_at,
};
use crate::overlay::state::{
    CropRect, Cursor, DragEnd, Language, Scene, all_reset, all_selected, crop_of, cursor_at,
    drag_end_of, drag_ended,
    dragging_from, dragging_to, escaped, first_scene, framed_region, framing_ended, framing_from,
    framing_to, image_ratio, in_area, in_picture, in_reading_order, is_inside, merged, picked, reading_keys,
    selected_by, shifted, spanned, text_drag_ended, words_outside, CLICK_SIDE, LEAST_REGION_SIDE,
};
use crate::rounding::{Format, excess, rounded_magnitude, units};
use crate::sorting::{covers, in_order, key_le, lemma_stable_order, stable_order};
use crate::text::{is_blank, trimmed};
use crate::writing::law_trimming_takes_the_blanks_off_both_ends;

verus! {

/// Whatever gesture is made, a region is never framed while text is selected by dragging.
pub proof fn law_gestures_never_mix(v: Scene, p: Point, picture: Option<(u32, u32)>)
    requires
        v.wf(),
    ensures
        first_scene(picture).wf(),
        dragging_from(v, p).wf(),
        framing_from(v, p).wf(),
        dragging_to(v, p).wf(),
        framing_to(v, p).wf(),
        drag_ended(v, p).wf(),
        framing_ended(v, p).wf(),
        all_selected(v).wf(),
        all_reset(v).wf(),
        escaped(v).wf(),
{
}

/// A drag that begins in the framed region keeps the region and selects anew; one that begins
/// elsewhere gives the region up.
pub proof fn law_a_drag_selects_in_the_region_and_frames_elsewhere(v: Scene, p: Point)
    ensures
        ({
            let w = dragging_from(v, p);
            &&& w.selected.len() == 0
            &&& w.cached is None
            &&& w.words == v.words
            &&& if v.locked is Some && is_inside(p, v.locked->0) {
                w.locked == v.locked && w.text_drag is Some && w.framing is None
            } else {
                w.locked is None && w.text_drag is None && w.framing is Some
            }
        }),
{
}

/// A region that stays framed is at least eight by eight; a smaller drag frames none.
pub proof fn law_a_framed_region_is_large_enough(v: Scene, off: Point)
    requires
        v.framing is Some,
    ensures
        framing_ended(v, off).framing is None,
        framing_ended(v, off).selected.len() == 0,
        framing_ended(v, off).locked matches Some(f) ==> (F64 {
            bits: LEAST_REGION_SIDE,
        }).spec_at_most(f.w) && (F64 { bits: LEAST_REGION_SIDE }).spec_at_most(f.h),
{
}

/// The part of the picture that is read for a region lies in the picture.
pub proof fn law_crops_lie_in_the_picture(region: Frame, size: (u32, u32))
    requires
        size.0 > 0,
        size.1 > 0,
    ensures
        crop_of(region, size).x + crop_of(region, size).width <= size.0,
        crop_of(region, size).y + crop_of(region, size).height <= size.1,
        crop_of(region, size).width > 0,
        crop_of(region, size).height > 0,
{
}

/// Escape takes back the selection first and the framed region after it; when it has been pressed
/// twice, there is nothing left to take back.
pub proof fn law_escape_takes_back_one_thing_at_a_time(v: Scene)
    ensures
        v.selected.len() > 0 ==> escaped(v).selected.len() == 0 && escaped(v).locked == v.locked,
        v.selected.len() == 0 && v.locked is Some ==> escaped(v).locked is None,
        v.selected.len() == 0 && v.locked is None ==> escaped(v) == v,
        escaped(escaped(v)).selected.len() == 0,
        escaped(escaped(v)).locked is None,
        escaped(v).words == v.words,
{
}

/// Resetting once is resetting for good, and keeps the words that were found.
pub proof fn law_resetting_takes_all_back(v: Scene)
    ensures
        all_reset(v).locked is None,
        all_reset(v).selected.len() == 0,
        all_reset(v).cached is None,
        all_reset(v).words == v.words,
        all_reset(all_reset(v)) == all_reset(v),
{
    assert(all_reset(all_reset(v)) =~= all_reset(v));
}

/// The text that was selected, by dragging or with everything else, is what is copied.
pub proof fn law_the_selected_text_is_copied(v: Scene, off: Point)
    ensures
        ({
            let w = text_drag_ended(v, off);
            let t = joined_text(picked(w.words, w.selected));
            v.text_drag is Some && picked(w.words, w.selected).len() > 0 && trimmed(t).len() > 0
                ==> plan_of(w) == Plan::Text(t)
        }),
        ({
            let w = all_selected(v);
            let t = joined_text(picked(w.words, w.selected));
            picked(w.words, w.selected).len() > 0 && trimmed(t).len() > 0 ==> plan_of(w)
                == Plan::Text(t)
        }),
{
}

/// Where nothing is selected, the words of the framed region are copied; where nothing is framed
/// either, all words are.
pub proof fn law_without_a_selection_what_is_framed_is_copied(v: Scene)
    requires
        v.cached is None,
        picked(v.words, v.selected).len() == 0,
    ensures
        v.locked matches Some(region) ==> words_touching(v.words, region).len() > 0 ==> plan_of(v)
            == Plan::Text(joined_text(words_touching(v.words, region))),
        v.locked matches Some(region) ==> words_touching(v.words, region).len() == 0 && v.pictured
            ==> plan_of(v) == Plan::Read(crop_of(region, v.size)),
        v.locked is None && v.words.len() > 0 ==> plan_of(v) == Plan::Text(joined_text(v.words)),
{
    assert(trimmed(Seq::<char>::empty()).len() == 0);
}

/// When a drag has framed a region and its words have been found, the text of the region, which
/// is copied at once, is the text of the words that were found there: it is what is copied again
/// on demand, as long as nothing else is selected.
pub proof fn law_the_text_of_a_framed_region_is_copied(
    v: Scene,
    off: Point,
    region: Frame,
    crop: CropRect,
    found: Seq<Word>,
)
    requires
        v.framing is Some,
        framing_ended(v, off).locked == Some(region),
    ensures
        ({
            let ended = framing_ended(v, off);
            let w = Scene { words: merged(ended.words, region, crop, found), ..ended };
            text_touching(w.words, region) matches Some(t) ==> plan_of(w) == Plan::Text(t)
        }),
{
    let ended = framing_ended(v, off);
    let w = Scene { words: merged(ended.words, region, crop, found), ..ended };
    assert(trimmed(Seq::<char>::empty()).len() == 0);
    assert(picked(w.words, w.selected) =~= Seq::<Word>::empty());
}

/// Reading a region anew keeps every word outside it and every word that was found, each once,
/// and nothing else; the words are then in reading order.
pub proof fn law_merging_keeps_what_is_outside(
    words: Seq<Word>,
    region: Frame,
    crop: CropRect,
    found: Seq<Word>,
)
    requires
        words.len() + found.len() <= usize::MAX,
    ensures
        ({
            let all = words_outside(words, region) + shifted(found, crop);
            exists|order: Seq<usize>| #[trigger]
                covers(order, all.len()) && in_order(reading_keys(all), order) && merged(
                    words,
                    region,
                    crop,
                    found,
                ) == arranged(all, order)
        }),
        forall|i: int|
            0 <= i < words_outside(words, region).len() ==> is_outside(
                (#[trigger] words_outside(words, region)[i]).frame,
                region,
            ),
{
    broadcast use {Seq::lemma_filter_pred, Seq::lemma_filter_len};

    let all = words_outside(words, region) + shifted(found, crop);
    assert(words_outside(words, region).len() <= words.len());
    lemma_stable_order(reading_keys(all));
    let order = stable_order(reading_keys(all));
    assert(covers(order, all.len()));
    let outside = |w: Word| is_outside(w.frame, region);
    assert forall|i: int| 0 <= i < words_outside(words, region).len() implies is_outside(
        (#[trigger] words_outside(words, region)[i]).frame,
        region,
    ) by {
        assert(outside(words.filter(outside)[i]));
    }
}

/// While text is selected by dragging, the pointer for text is shown wherever it is.
pub proof fn law_the_text_pointer_stays_while_dragging(v: Scene, p: Point)
    requires
        v.text_drag is Some,
    ensures
        cursor_at(v, p) == Cursor::Text,
{
}

/// The magnitudes of 8 and 64, and the rounding of 64.
proof fn lemma_eight_and_sixty_four()
    ensures
        units(Format::Double, LEAST_REGION_SIDE as nat) == 8 * pow2(1074),
        rounded_magnitude(
            Format::Double,
            64 * (pow2(1074) * pow2(1074)),
            pow2(1074),
        ) == MIN_SELECTION_AREA_PIXELS,
{
    let f = Format::Double;
    let lead = f.lead();
    let u = pow2(1074);
    lemma2_to64();
    lemma2_to64_rest();
    lemma_pow2_pos(1074);
    // 8 is the leading significand, shifted by 1025 places.
    lemma_pow2_adds(3, 1074);
    lemma_pow2_adds(52, 1025);
    // 64 is the leading significand, shifted by 1028 places.
    let num = 64 * (u * u);
    let q = 64 * u;
    lemma_pow2_adds(6, 1074);
    lemma_pow2_adds(52, 1028);
    assert(num == q * u + 0) by (nonlinear_arith)
        requires
            num == 64 * (u * u),
            q == 64 * u,
    ;
    lemma_fundamental_div_mod_converse(num as int, u as int, q as int, 0);
    lemma_excess_of_power(f, 1028);
    let w = pow2(1028);
    let d = u * w;
    assert(num == lead * d + 0) by (nonlinear_arith)
        requires
            num == q * u,
            q == lead * w,
            d == u * w,
    ;
    lemma_pow2_pos(1028);
    assert(d > 0) by (nonlinear_arith)
        requires
            d == u * w,
            u > 0,
            w > 0,
    ;
    lemma_fundamental_div_mod_converse(num as int, d as int, lead as int, 0);
}

/// The excess of the leading significand, shifted.
proof fn lemma_excess_of_power(f: Format, k: nat)
    ensures
        excess(f, f.lead() * pow2(k)) == k,
    decreases k,
{
    lemma2_to64();
    let lead = f.lead();
    if k == 0 {
        assert(lead * 1 == lead);
    } else {
        lemma_excess_of_power(f, (k - 1) as nat);
        lemma_pow2_unfold(k);
        lemma_pow2_pos((k - 1) as nat);
        let w = pow2((k - 1) as nat);
        assert(lead * (2 * w) == 2 * (lead * w)) by (nonlinear_arith);
        assert(lead * w >= lead) by (nonlinear_arith)
            requires
                w >= 1,
        ;
    }
}

/// A region that is framed covers the least area that can be selected.
pub proof fn law_a_framed_region_covers_the_least_area(start: Point, current: Point)
    ensures
        framed_region(start, current) matches Some(f) ==> (F64 {
            bits: MIN_SELECTION_AREA_PIXELS,
        }).spec_at_most(f.w.spec_times(f.h)),
{
    reveal(product_of);
    if let Some(r) = framed_region(start, current) {
        let f = Format::Double;
        let least = F64 { bits: LEAST_REGION_SIDE };
        let a = r.w.datum();
        let b = r.h.datum();
        assert(!a.neg && !b.neg);
        assert(a.mag >= LEAST_REGION_SIDE && b.mag >= LEAST_REGION_SIDE);
        if !(a.infinite(f) || b.infinite(f)) {
            let u = pow2(1074);
            lemma_eight_and_sixty_four();
            lemma_pow2_pos(1074);
            lemma_units_grow(f, LEAST_REGION_SIDE as nat, a.mag as nat);
            lemma_units_grow(f, LEAST_REGION_SIDE as nat, b.mag as nat);
            let ua = units(f, a.mag as nat);
            let ub = units(f, b.mag as nat);
            assert(ua * ub >= 64 * (u * u)) by (nonlinear_arith)
                requires
                    ua >= 8 * u,
                    ub >= 8 * u,
                    u >= 0,
            ;
            lemma_rounding_grows(f, 64 * (u * u), ua * ub, u);
        }
    }
}

/// A word that was found in a part of the picture stands among the words of the picture as far
/// right of and below the corner of the part as it stood in it, with its size and its text.
pub proof fn law_found_words_stand_at_their_places(
    words: Seq<Word>,
    region: Frame,
    crop: CropRect,
    found: Seq<Word>,
    k: int,
)
    requires
        words.len() + found.len() <= usize::MAX,
        0 <= k < found.len(),
        found[k].frame.x.finite(),
        found[k].frame.y.finite(),
    ensures
        exists|j: int|
            0 <= j < merged(words, region, crop, found).len() && {
                let w = #[trigger] merged(words, region, crop, found)[j];
                let f = found[k].frame;
                &&& is_nearly(w.frame.x, f.x.value() + crop.x * one(), 1)
                &&& is_nearly(w.frame.y, f.y.value() + crop.y * one(), 1)
                &&& w.frame.w == f.w
                &&& w.frame.h == f.h
                &&& w.text == found[k].text
                &&& w.line_num == found[k].line_num
                &&& w.par_num == found[k].par_num
                &&& w.block_num == found[k].block_num
            },
{
    let j = lemma_found_in_merged(words, region, crop, found, k);
    let f = found[k].frame;
    lemma_of_nat(crop.x as nat);
    lemma_of_nat(crop.y as nat);
    lemma_plus(f.x, F64::of_nat(crop.x as nat));
    lemma_plus(f.y, F64::of_nat(crop.y as nat));
    assert(merged(words, region, crop, found)[j] == shifted(found, crop)[k]);
}

proof fn lemma_found_in_merged(
    words: Seq<Word>,
    region: Frame,
    crop: CropRect,
    found: Seq<Word>,
    k: int,
) -> (j: int)
    requires
        words.len() + found.len() <= usize::MAX,
        0 <= k < found.len(),
    ensures
        0 <= j < merged(words, region, crop, found).len(),
        merged(words, region, crop, found)[j] == shifted(found, crop)[k],
{
    broadcast use Seq::lemma_filter_len;

    let kept = words_outside(words, region);
    let all = kept + shifted(found, crop);
    assert(kept.len() <= words.len());
    lemma_stable_order(reading_keys(all));
    let order = stable_order(reading_keys(all));
    let at = (kept.len() + k) as usize;
    assert(order.contains(at));
    let j = choose|j: int| 0 <= j < order.len() && order[j] == at;
    assert(all[at as int] == shifted(found, crop)[k]);
    j
}

/// A word that lies within the bounds of the part of the picture in which it was found lies, in
/// the picture, within that part; where the framed region covers the part, its text is copied.
pub proof fn law_found_words_lie_in_the_part_that_was_read(
    words: Seq<Word>,
    region: Frame,
    crop: CropRect,
    found: Seq<Word>,
    k: int,
)
    requires
        words.len() + found.len() <= usize::MAX,
        0 <= k < found.len(),
        frame_on_grid(found[k].frame),
        0 <= found[k].frame.x.value(),
        0 <= found[k].frame.y.value(),
        0 <= found[k].frame.w.value(),
        0 <= found[k].frame.h.value(),
        found[k].frame.x.value() + found[k].frame.w.value() <= crop.width * one(),
        found[k].frame.y.value() + found[k].frame.h.value() <= crop.height * one(),
    ensures
        exists|j: int|
            0 <= j < merged(words, region, crop, found).len() && {
                let w = #[trigger] merged(words, region, crop, found)[j];
                &&& w.text == found[k].text
                &&& w.frame.x.finite() && w.frame.y.finite()
                &&& w.frame.x.value() == found[k].frame.x.value() + crop.x * one()
                &&& w.frame.y.value() == found[k].frame.y.value() + crop.y * one()
                &&& crop.x * one() <= w.frame.x.value()
                &&& crop.y * one() <= w.frame.y.value()
                &&& w.frame.x.value() + w.frame.w.value() <= (crop.x + crop.width) * one()
                &&& w.frame.y.value() + w.frame.h.value() <= (crop.y + crop.height) * one()
            },
        ({
            &&& frame_on_grid(region)
            &&& region.x.value() <= crop.x * one()
            &&& region.y.value() <= crop.y * one()
            &&& (crop.x + crop.width) * one() <= region.x.value() + region.w.value()
            &&& (crop.y + crop.height) * one() <= region.y.value() + region.h.value()
        }) ==> text_touching(merged(words, region, crop, found), region) is Some,
{
    let j = lemma_found_in_merged(words, region, crop, found, k);
    let all = merged(words, region, crop, found);
    let w = all[j];
    let f = found[k].frame;
    assert(w == shifted(found, crop)[k]);
    lemma_grid_moved(f.x, crop.x as nat);
    lemma_grid_moved(f.y, crop.y as nat);
    let o = one();
    assert((crop.x + crop.width) * o == crop.x * o + crop.width * o) by (nonlinear_arith);
    assert((crop.y + crop.height) * o == crop.y * o + crop.height * o) by (nonlinear_arith);
    if {
        &&& frame_on_grid(region)
        &&& region.x.value() <= crop.x * one()
        &&& region.y.value() <= crop.y * one()
        &&& (crop.x + crop.width) * one() <= region.x.value() + region.w.value()
        &&& (crop.y + crop.height) * one() <= region.y.value() + region.h.value()
    } {
        lemma_frame_sides(region);
        lemma_grid_end(f.x, f.w, crop.x as nat);
        lemma_grid_end(f.y, f.h, crop.y as nat);
        lemma_plus(w.frame.x, w.frame.w);
        lemma_plus(w.frame.y, w.frame.h);
        lemma_exact_whole(w.frame.spec_right(), f.x.value() + f.w.value() + crop.x * o);
        lemma_exact_whole(w.frame.spec_bottom(), f.y.value() + f.h.value() + crop.y * o);
        lemma_compare(w.frame.spec_right(), region.x);
        lemma_compare(region.spec_right(), w.frame.x);
        lemma_compare(w.frame.spec_bottom(), region.y);
        lemma_compare(region.spec_bottom(), w.frame.y);
        assert(!is_outside(w.frame, region));
        let touches = |v: Word| !is_outside(v.frame, region);
        assert(touches(all[j]));
        all.lemma_filter_contains(touches, j);
        assert(words_touching(all, region).len() > 0);
    }
}

/// Every word outside the region stays as it is, and every word that is there afterwards was
/// outside the region or has been found.
pub proof fn law_words_outside_the_region_stay(
    words: Seq<Word>,
    region: Frame,
    crop: CropRect,
    found: Seq<Word>,
)
    requires
        words.len() + found.len() <= usize::MAX,
    ensures
        forall|i: int|
            0 <= i < words.len() && is_outside((#[trigger] words[i]).frame, region) ==> merged(
                words,
                region,
                crop,
                found,
            ).contains(words[i]),
        forall|j: int|
            0 <= j < merged(words, region, crop, found).len() ==> {
                let w = #[trigger] merged(words, region, crop, found)[j];
                ||| words.contains(w) && is_outside(w.frame, region)
                ||| exists|k: int|
                    0 <= k < found.len() && w.text == (#[trigger] found[k]).text && w.frame.w
                        == found[k].frame.w && w.frame.h == found[k].frame.h
            },
        merged(words, region, crop, found).len() <= words.len() + found.len(),
{
    broadcast use Seq::lemma_filter_len;

    let outside = |w: Word| is_outside(w.frame, region);
    let kept = words_outside(words, region);
    let all = kept + shifted(found, crop);
    let result = merged(words, region, crop, found);
    assert(kept.len() <= words.len());
    lemma_stable_order(reading_keys(all));
    let order = stable_order(reading_keys(all));
    assert forall|i: int|
        0 <= i < words.len() && is_outside((#[trigger] words[i]).frame, region) implies result.contains(
        words[i],
    ) by {
        assert(outside(words[i]));
        words.lemma_filter_contains(outside, i);
        let a = choose|a: int| 0 <= a < kept.len() && kept[a] == words[i];
        assert(order.contains(a as usize));
        let j = choose|j: int| 0 <= j < order.len() && order[j] == a as usize;
        assert(result[j] == words[i]);
    }
    assert forall|j: int| 0 <= j < result.len() implies {
        let w = #[trigger] result[j];
        ||| words.contains(w) && is_outside(w.frame, region)
        ||| exists|k: int|
            0 <= k < found.len() && w.text == (#[trigger] found[k]).text && w.frame.w
                == found[k].frame.w && w.frame.h == found[k].frame.h
    } by {
        let a = order[j] as int;
        if a < kept.len() {
            words.lemma_filter_pred(outside, a);
            assert(kept.contains(kept[a]));
            words.lemma_filter_contains_rev(outside, kept[a]);
        } else {
            let k = a - kept.len();
            assert(result[j].text == found[k].text);
        }
    }
}

/// The part of the picture that is read for a region covers the region to half a pixel: it begins
/// at the pixel nearest to its corner, where the picture has it, and is as large, to the nearest
/// pixel, as far as the picture goes.
pub proof fn law_the_part_that_is_read_is_the_region(region: Frame, size: (u32, u32))
    requires
        size.0 > 0,
        size.1 > 0,
        region.x.finite(),
        region.y.finite(),
        region.w.finite(),
        region.h.finite(),
        0 <= region.x.value() <= (size.0 - 1) * one(),
        0 <= region.y.value() <= (size.1 - 1) * one(),
        one() <= region.w.value() < 0xffff_ffff * one(),
        one() <= region.h.value() < 0xffff_ffff * one(),
    ensures
        ({
            let c = crop_of(region, size);
            &&& 2 * (c.x * one() - region.x.value()) <= one()
            &&& 2 * (region.x.value() - c.x * one()) <= one()
            &&& 2 * (c.y * one() - region.y.value()) <= one()
            &&& 2 * (region.y.value() - c.y * one()) <= one()
            &&& 2 * (c.width * one() - region.w.value()) <= one()
            &&& 2 * (c.height * one() - region.h.value()) <= one()
            &&& 2 * (region.w.value() - c.width * one()) <= one() || c.x + c.width == size.0
            &&& 2 * (region.h.value() - c.height * one()) <= one() || c.y + c.height == size.1
        }),
{
    lemma_one_is_large();
    lemma_crop_side(region.x, region.w, size.0);
    lemma_crop_side(region.y, region.h, size.1);
}

proof fn lemma_crop_side(start: F64, length: F64, side: u32)
    requires
        side > 0,
        start.finite(),
        length.finite(),
        0 <= start.value() <= (side - 1) * one(),
        one() <= length.value() < 0xffff_ffff * one(),
        one() > 0,
    ensures
        ({
            let x = start.spec_round_u32();
            let w = length.spec_round_u32();
            &&& x <= side - 1
            &&& w >= 1
            &&& 2 * (x * one() - start.value()) <= one()
            &&& 2 * (start.value() - x * one()) <= one()
            &&& 2 * (w * one() - length.value()) <= one()
            &&& 2 * (length.value() - w * one()) <= one()
            &&& forall|r: int| #![trigger r * one()] r <= w ==> r * one() <= w * one()
        }),
{
    let o = one();
    let x = start.spec_round_u32() as int;
    let w = length.spec_round_u32() as int;
    assert((side - 1) * o <= 0xffff_fffe * o) by (nonlinear_arith)
        requires
            side - 1 <= 0xffff_fffe,
            o > 0,
    ;
    lemma_round(start);
    lemma_round(length);
    assert(x <= side - 1) by (nonlinear_arith)
        requires
            2 * (x * o) <= 2 * start.value() + o,
            start.value() <= (side - 1) * o,
            o > 0,
    ;
    assert(w >= 1) by (nonlinear_arith)
        requires
            2 * length.value() + o < 2 * (w * o) + 2 * o,
            length.value() >= o,
            o > 0,
    ;
    assert forall|r: int| #![trigger r * one()] r <= w implies r * one() <= w * one() by {
        assert(r * o <= w * o) by (nonlinear_arith)
            requires
                r <= w,
                o > 0,
        ;
    }
}

/// A place of the area is, in the picture, as far from the left and from the top in proportion to
/// the sizes of the two, up to one part in `2^51`.
pub proof fn law_places_go_to_the_picture_in_proportion(
    size: (u32, u32),
    area: (i32, i32),
    p: Point,
)
    requires
        area.0 > 0,
        area.1 > 0,
        is_ordinary(p.0),
        is_ordinary(p.1),
    ensures
        ({
            let q = in_picture(size, area, p);
            let x = p.0.value() * size.0;
            let y = p.1.value() * size.1;
            &&& q.0.finite() && q.1.finite()
            &&& 0x8_0000_0000_0000 * (q.0.value() * area.0 - x) <= x
            &&& 0x8_0000_0000_0000 * (x - q.0.value() * area.0) <= x
            &&& 0x8_0000_0000_0000 * (q.1.value() * area.1 - y) <= y
            &&& 0x8_0000_0000_0000 * (y - q.1.value() * area.1) <= y
        }),
{
    lemma_to_picture(p.0, size.0, area.0);
    lemma_to_picture(p.1, size.1, area.1);
}

proof fn lemma_to_picture(p: F64, side: u32, shown: i32)
    requires
        shown > 0,
        is_ordinary(p),
    ensures
        ({
            let r = p.spec_times(image_ratio(side, shown));
            let v = p.value() * side;
            &&& r.finite()
            &&& 0x8_0000_0000_0000 * (r.value() * shown - v) <= v
            &&& 0x8_0000_0000_0000 * (v - r.value() * shown) <= v
        }),
{
    let o = one();
    lemma_pow2_pos(1074);
    lemma_count_is_ordinary(side as nat);
    lemma_count_is_ordinary(shown as nat);
    let b = F64::of_nat(side as nat);
    let c = F64::of_nat(shown as nat);
    assert(image_ratio(side, shown) == b.spec_over(c));
    assert(shown * o > 0) by (nonlinear_arith)
        requires
            shown >= 1,
            o > 0,
    ;
    lemma_ratio(p, b, c);
    let u = p.spec_times(image_ratio(side, shown)).value();
    let x = p.value();
    assert(0x8_0000_0000_0000 * (u * shown - x * side) <= x * side && 0x8_0000_0000_0000 * (x * side
        - u * shown) <= x * side) by (nonlinear_arith)
        requires
            0x8_0000_0000_0000 * (u * (shown * o) - x * (side * o)) <= x * (side * o),
            0x8_0000_0000_0000 * (x * (side * o) - u * (shown * o)) <= x * (side * o),
            o > 0,
    ;
}

/// A place of the picture is, in the area, as far from the left and from the top in proportion to
/// the sizes of the two, up to one part in `2^50`: what goes to the picture comes back.
pub proof fn law_places_come_back_to_the_area(size: (u32, u32), area: (i32, i32), p: Point)
    requires
        size.0 > 0,
        size.1 > 0,
        area.0 > 0,
        area.1 > 0,
        is_ordinary(p.0),
        is_ordinary(p.1),
    ensures
        ({
            let q = in_area(size, area, p);
            let x = p.0.value() * area.0;
            let y = p.1.value() * area.1;
            &&& q.0.finite() && q.1.finite()
            &&& 0x4_0000_0000_0000 * (q.0.value() * size.0 - x) <= x
            &&& 0x4_0000_0000_0000 * (x - q.0.value() * size.0) <= x
            &&& 0x4_0000_0000_0000 * (q.1.value() * size.1 - y) <= y
            &&& 0x4_0000_0000_0000 * (y - q.1.value() * size.1) <= y
        }),
{
    lemma_inverse_ratio(p.0, size.0 as nat, area.0 as nat);
    lemma_inverse_ratio(p.1, size.1 as nat, area.1 as nat);
}

/// How far apart two values are.
pub open spec fn apart(a: int, b: int) -> int {
    if a < b {
        b - a
    } else {
        a - b
    }
}

/// A value that is below a whole number even when it is rounded: a number lies between.
pub open spec fn below_whole(v: int, n: int) -> bool {
    exists|z: F64| z.finite() && v <= #[trigger] z.value() < n * one()
}

/// The rectangle that a drag spans reaches from the lesser to the greater of the distances of its
/// ends from the left and from the top, whichever end the drag began at.
pub proof fn law_a_drag_spans_what_lies_between_its_ends(start: Point, current: Point)
    requires
        start.0.finite(),
        start.1.finite(),
        current.0.finite(),
        current.1.finite(),
    ensures
        ({
            let f = spanned(start, current);
            &&& f.x.finite() && f.y.finite()
            &&& f.x.value() <= start.0.value() && f.x.value() <= current.0.value()
            &&& f.x.value() == start.0.value() || f.x.value() == current.0.value()
            &&& f.y.value() <= start.1.value() && f.y.value() <= current.1.value()
            &&& f.y.value() == start.1.value() || f.y.value() == current.1.value()
            &&& is_nearly(f.w, apart(start.0.value(), current.0.value()), 1)
            &&& is_nearly(f.h, apart(start.1.value(), current.1.value()), 1)
        }),
{
    lemma_min_max(start.0, current.0);
    lemma_min_max(start.1, current.1);
    lemma_minus(start.0, current.0);
    lemma_minus(start.1, current.1);
    lemma_abs(start.0.spec_minus(current.0), start.0.value() - current.0.value());
    lemma_abs(start.1.spec_minus(current.1), start.1.value() - current.1.value());
}

/// A drag frames a region where it is at least eight wide and high, and none where it is less wide
/// or less high.
pub proof fn law_a_drag_of_eight_frames_a_region(start: Point, current: Point)
    requires
        start.0.finite(),
        start.1.finite(),
        current.0.finite(),
        current.1.finite(),
    ensures
        ({
            let w = apart(start.0.value(), current.0.value());
            let h = apart(start.1.value(), current.1.value());
            &&& w >= 8 * one() && h >= 8 * one() ==> framed_region(start, current) == Some(
                spanned(start, current),
            )
            &&& below_whole(w, 8) || below_whole(h, 8) ==> framed_region(start, current) is None
        }),
{
    law_a_drag_spans_what_lies_between_its_ends(start, current);
    lemma2_to64_rest();
    lemma_whole_bits(LEAST_REGION_SIDE, 8, 49);
    let least = F64 { bits: LEAST_REGION_SIDE };
    let f = spanned(start, current);
    lemma_against(f.w, apart(start.0.value(), current.0.value()), least, 8);
    lemma_against(f.h, apart(start.1.value(), current.1.value()), least, 8);
}

proof fn lemma_against(r: F64, v: int, k: F64, n: int)
    requires
        is_nearly(r, v, 1),
        k.finite(),
        k.value() == n * one(),
    ensures
        v >= n * one() ==> k.spec_at_most(r) && !r.spec_less(k),
        below_whole(v, n) ==> !k.spec_at_most(r) && r.spec_less(k),
{
    lemma_compare_nearly(r, v, 1, k);
    if below_whole(v, n) {
        let z = choose|z: F64| z.finite() && v <= #[trigger] z.value() < n * one();
        lemma_compare_nearly(r, v, 1, z);
        lemma_compare(z, k);
    }
}

/// A drag that is less than four wide and high is a click, which selects the word that it points
/// at; one that is wider or higher selects all words between its ends.
pub proof fn law_a_short_drag_is_a_click(v: Scene, start: Point, current: Point)
    requires
        start.0.finite(),
        start.1.finite(),
        current.0.finite(),
        current.1.finite(),
        v.words.len() <= usize::MAX,
    ensures
        ({
            let w = apart(start.0.value(), current.0.value());
            let h = apart(start.1.value(), current.1.value());
            let selected = selected_by(v, start, current);
            &&& below_whole(w, 4) && below_whole(h, 4) ==> {
                &&& selected.len() <= 1
                &&& selected.len() == 1 ==> selected[0] < v.words.len() && points_at(
                    start,
                    v.words[selected[0] as int].frame,
                )
                &&& selected.len() == 0 ==> forall|i: int|
                    0 <= i < v.words.len() ==> !points_at(start, (#[trigger] v.words[i]).frame)
            }
            &&& w >= 4 * one() || h >= 4 * one() ==> selected == flow_of(
                v.words,
                start,
                current,
                v.locked,
            )
        }),
{
    law_a_drag_spans_what_lies_between_its_ends(start, current);
    law_the_first_word_pointed_at_is_taken(v.words, start);
    lemma2_to64_rest();
    lemma_whole_bits(CLICK_SIDE, 4, 50);
    let click = F64 { bits: CLICK_SIDE };
    let f = spanned(start, current);
    lemma_against(f.w, apart(start.0.value(), current.0.value()), click, 4);
    lemma_against(f.h, apart(start.1.value(), current.1.value()), click, 4);
}

/// The words that are picked are those at the positions, in the order of the positions.
pub proof fn law_positions_pick_their_words(words: Seq<Word>, selected: Seq<usize>)
    requires
        forall|k: int| 0 <= k < selected.len() ==> #[trigger] selected[k] < words.len(),
    ensures
        picked(words, selected).len() == selected.len(),
        forall|k: int|
            0 <= k < selected.len() ==> #[trigger] picked(words, selected)[k]
                == words[selected[k] as int],
    decreases selected.len(),
{
    if selected.len() > 0 {
        law_positions_pick_their_words(words, selected.drop_last());
        assert(selected.last() == selected[selected.len() - 1]);
        assert forall|k: int| 0 <= k < selected.len() implies #[trigger] picked(words, selected)[k]
            == words[selected[k] as int] by {
            if k < selected.len() - 1 {
                assert(picked(words, selected.drop_last())[k] == words[selected.drop_last()[k] as int]);
            }
        }
    }
}

/// A drag goes from where it began to where it began and the offset: both are kept exactly, up to
/// rounding, and the words under way are selected at once.
pub proof fn law_a_drag_keeps_where_it_began(v: Scene, p: Point, off: Point)
    requires
        p.0.finite(),
        p.1.finite(),
        off.0.finite(),
        off.1.finite(),
    ensures
        ({
            let w = framing_to(framing_from(v, p), off);
            &&& w.framing is Some
            &&& w.framing->0.start == p
            &&& is_nearly(w.framing->0.current.0, p.0.value() + off.0.value(), 1)
            &&& is_nearly(w.framing->0.current.1, p.1.value() + off.1.value(), 1)
            &&& w.words == v.words && w.size == v.size && w.language == v.language
        }),
        v.text_drag matches Some(d) && d.start == p ==> ({
            let w = dragging_to(v, off);
            &&& w.text_drag is Some
            &&& w.text_drag->0.start == p
            &&& is_nearly(w.text_drag->0.current.0, p.0.value() + off.0.value(), 1)
            &&& is_nearly(w.text_drag->0.current.1, p.1.value() + off.1.value(), 1)
            &&& w.selected == flow_of(v.words, p, w.text_drag->0.current, v.locked)
            &&& w.words == v.words && w.locked == v.locked && w.cached == v.cached
        }),
{
    lemma_plus(p.0, off.0);
    lemma_plus(p.1, off.1);
}

/// A place lies in a region from its left to its right side and from its top to its bottom.
pub proof fn law_a_region_holds_what_lies_between_its_sides(p: Point, region: Frame)
    requires
        frame_on_grid(region),
        p.0.finite(),
        p.1.finite(),
    ensures
        is_inside(p, region) <==> {
            &&& region.x.value() <= p.0.value() <= region.x.value() + region.w.value()
            &&& region.y.value() <= p.1.value() <= region.y.value() + region.h.value()
        },
{
    lemma_frame_sides(region);
    lemma_compare(region.x, p.0);
    lemma_compare(p.0, region.spec_right());
    lemma_compare(region.y, p.1);
    lemma_compare(p.1, region.spec_bottom());
}

/// Words are put in order by their paragraphs, within a paragraph by their lines, and within a line
/// from left to right; none is lost and none is added.
pub proof fn law_words_are_put_in_order_by_paragraph_line_and_left(words: Seq<Word>)
    requires
        words.len() <= usize::MAX,
        forall|i: int| 0 <= i < words.len() ==> (#[trigger] words[i]).frame.x.finite(),
    ensures
        exists|order: Seq<usize>| #[trigger]
            covers(order, words.len()) && in_reading_order(words) == arranged(words, order),
        forall|i: int, j: int|
            0 <= i < j < words.len() ==> {
                let a = #[trigger] in_reading_order(words)[i];
                let b = #[trigger] in_reading_order(words)[j];
                ||| a.par_num < b.par_num
                ||| a.par_num == b.par_num && a.line_num < b.line_num
                ||| a.par_num == b.par_num && a.line_num == b.line_num && a.frame.x.value()
                    <= b.frame.x.value()
            },
{
    let keys = reading_keys(words);
    lemma_stable_order(keys);
    let order = stable_order(keys);
    assert(covers(order, words.len()));
    let r = in_reading_order(words);
    assert forall|i: int, j: int| 0 <= i < j < words.len() implies {
        let a = #[trigger] r[i];
        let b = #[trigger] r[j];
        ||| a.par_num < b.par_num
        ||| a.par_num == b.par_num && a.line_num < b.line_num
        ||| a.par_num == b.par_num && a.line_num == b.line_num && a.frame.x.value()
            <= b.frame.x.value()
    } by {
        assert(key_le(keys[order[i] as int], keys[order[j] as int]));
        lemma_compare(words[order[j] as int].frame.x, words[order[i] as int].frame.x);
    }
}

/// At first nothing is framed, selected or known, the text is taken for Turkish, and where there
/// is no picture its size is taken to be 1920 by 1080.
pub proof fn law_at_first_there_is_nothing(picture: Option<(u32, u32)>)
    ensures
        ({
            let v = first_scene(picture);
            &&& v.locked is None && v.framing is None && v.text_drag is None
            &&& v.cached is None && v.words.len() == 0 && v.selected.len() == 0
            &&& v.cursor == Cursor::Crosshair
            &&& v.language == Language::Turkish
            &&& v.pictured == picture is Some
            &&& v.size == (match picture {
                Some(size) => size,
                None => (1920u32, 1080u32),
            })
        }),
{
}

/// The scene is that of the same picture, with the same words and language.
pub open spec fn same_picture(v: Scene, w: Scene) -> bool {
    &&& w.size == v.size
    &&& w.pictured == v.pictured
    &&& w.words == v.words
    &&& w.language == v.language
    &&& w.cursor == v.cursor
}

/// Gestures change what is framed and selected, and nothing else.
pub proof fn law_gestures_leave_the_picture_alone(v: Scene, p: Point)
    ensures
        same_picture(v, dragging_from(v, p)),
        same_picture(v, framing_from(v, p)),
        same_picture(v, dragging_to(v, p)),
        same_picture(v, framing_to(v, p)),
        same_picture(v, drag_ended(v, p)),
        same_picture(v, framing_ended(v, p)),
        same_picture(v, text_drag_ended(v, p)),
        same_picture(v, all_selected(v)),
        same_picture(v, all_reset(v)),
        same_picture(v, escaped(v)),
        dragging_to(v, p).locked == v.locked,
        framing_to(v, p).locked == v.locked,
        text_drag_ended(v, p).locked == v.locked,
        all_selected(v).locked == v.locked,
        drag_ended(v, p).framing is None,
        v.framing is None ==> drag_ended(v, p).text_drag is None,
{
}

/// Where a drag begins, both of its ends are at first.
pub proof fn law_a_drag_begins_at_a_point(v: Scene, p: Point)
    ensures
        dragging_from(v, p).framing matches Some(d) ==> d.start == p && d.current == p,
        dragging_from(v, p).text_drag matches Some(d) ==> d.start == p && d.current == p,
        framing_from(v, p).framing matches Some(d) && d.start == p && d.current == p,
        framing_from(v, p).locked is None && framing_from(v, p).cached is None,
        framing_from(v, p).selected.len() == 0,
{
}

/// Once a selection has been taken back or a region given up, no text that was selected before is
/// left to be copied.
pub proof fn law_what_is_taken_back_is_not_copied(v: Scene, off: Point)
    ensures
        v.selected.len() > 0 || v.locked is Some ==> escaped(v).cached is None,
        all_reset(v).cached is None,
        v.framing is Some ==> framing_ended(v, off).cached is None,
        v.text_drag is Some && text_drag_ended(v, off).selected.len() == 0 ==> text_drag_ended(
            v,
            off,
        ).cached is None,
{
}

/// The pointer is that of text over a word that does not lie outside the framed region, and while
/// text is selected, and a crosshair elsewhere.
pub proof fn law_the_pointer_tells_where_words_are(v: Scene, p: Point)
    ensures
        cursor_at(v, p) == Cursor::Text <==> {
            ||| v.text_drag is Some
            ||| exists|i: int|
                0 <= i < v.words.len() && points_at(p, (#[trigger] v.words[i]).frame) && (
                v.locked matches Some(region) ==> !is_outside(v.words[i].frame, region))
        },
{
    if exists|i: int|
        0 <= i < v.words.len() && points_at(p, (#[trigger] v.words[i]).frame) && (
        v.locked matches Some(region) ==> !is_outside(v.words[i].frame, region)) {
        let i = choose|i: int|
            0 <= i < v.words.len() && points_at(p, (#[trigger] v.words[i]).frame) && (
            v.locked matches Some(region) ==> !is_outside(v.words[i].frame, region));
        assert(is_within(v.words[i].frame, v.locked));
    }
}

/// When a drag has ended, it is told what it has done: a region has been framed where one is framed
/// from then on, and its words are read where there is a picture; copying is offered where there
/// is text to be copied, and at the place where the drag ended.
pub proof fn law_a_drag_tells_what_it_has_done(v: Scene, area: (i32, i32), off: Point)
    requires
        v.wf(),
    ensures
        ({
            let w = drag_ended(v, off);
            let end = drag_end_of(v, area, off);
            &&& end is Nothing <==> v.framing is None && v.text_drag is None
            &&& end is Framed <==> v.framing is Some && w.locked is Some
            &&& end is Cleared <==> v.framing is Some && w.locked is None
            &&& end is Selected <==> v.text_drag is Some
            &&& end matches DragEnd::Framed { region, crop } ==> {
                &&& w.locked == Some(region)
                &&& crop is Some <==> v.pictured
                &&& crop matches Some(c) ==> c == crop_of(region, v.size)
            }
            &&& end matches DragEnd::Selected { offer } ==> {
                &&& offer is Some <==> w.cached is Some
                &&& offer matches Some(p) ==> p == in_area(
                    v.size,
                    area,
                    dragging_to(v, off).text_drag->0.current,
                )
            }
        }),
{
}

/// A text that was selected last is copied before anything else, unless all of it is blank, and then
/// it counts for nothing while there are words to copy.
pub proof fn law_what_was_selected_last_is_copied_first(v: Scene, t: Seq<char>)
    requires
        v.cached == Some(t),
    ensures
        (exists|i: int| 0 <= i < t.len() && !is_blank(#[trigger] t[i])) ==> plan_of(v)
            == Plan::Text(t),
        (forall|i: int| 0 <= i < t.len() ==> is_blank(#[trigger] t[i])) && (picked(
            v.words,
            v.selected,
        ).len() > 0 || (v.locked is None && v.words.len() > 0) || (v.locked is Some && v.pictured))
            ==> plan_of(v) == plan_of(Scene { cached: None, ..v }),
{
    let ends = law_trimming_takes_the_blanks_off_both_ends(t);
    assert(trimmed(Seq::<char>::empty()).len() == 0);
    if ends.0 < ends.1 {
        assert(!is_blank(t[ends.0]));
    }
}

} // verus!
