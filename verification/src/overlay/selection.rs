//! Which words a drag over the picture selects.

use vstd::prelude::*;
use vstd::arithmetic::power2::{lemma2_to64_rest, lemma_pow2_pos};
use crate::datum::Datum;
use crate::exact::{
    grain, lemma_compare, lemma_compare_nearly, lemma_exact_whole, lemma_grid_number, lemma_minus,
    lemma_pixel, lemma_plus, lemma_rank_is_value, lemma_whole_bits, on_grid, one,
};
use crate::float::F64;
use crate::float::lemma_difference_turns;
use crate::ocr::words::{DetectedWord, Frame};
use crate::ocr::words::{Word, frame_on_grid, frames_of, lemma_frame_sides, views};
use crate::rounding::Format;

verus! {

/// A place in the picture: its distances from the left and from the top.
pub type Point = (F64, F64);

/// How far a drag goes up or down before its direction is taken from that, as bits of a 64-bit
/// number: 10.
pub const STEEP: u64 = 0x4024_0000_0000_0000;

/// The room that a line has above and below its words, as bits of a 64-bit number: 4.
pub const LINE_ROOM: u64 = 0x4010_0000_0000_0000;

/// The room around a word in which it is still pointed at, as bits of a 64-bit number: 2.
pub const POINTING_ROOM: u64 = 0x4000_0000_0000_0000;

/// A frame lies wholly to one side of a region.
pub open spec fn is_outside(f: Frame, region: Frame) -> bool {
    ||| f.spec_right().spec_less(region.x)
    ||| region.spec_right().spec_less(f.x)
    ||| f.spec_bottom().spec_less(region.y)
    ||| region.spec_bottom().spec_less(f.y)
}

/// A frame can be selected: it does not lie outside the region that is framed, if one is.
pub open spec fn is_within(f: Frame, locked: Option<Frame>) -> bool {
    locked matches Some(region) ==> !is_outside(f, region)
}

/// The two ends of a drag in reading order. A drag that goes up or down is read from its upper
/// end, another from its left end.
pub open spec fn reading_ends(start: Point, current: Point) -> (Point, Point) {
    let dy = current.1.spec_minus(start.1);
    if (F64 { bits: STEEP }).spec_less(dy.spec_abs()) {
        if (F64 { bits: 0 }).spec_less(dy) {
            (start, current)
        } else {
            (current, start)
        }
    } else if start.0.spec_at_most(current.0) {
        (start, current)
    } else {
        (current, start)
    }
}

/// The height at which the line of a word begins.
pub open spec fn room_top(f: Frame) -> F64 {
    f.y.spec_minus(F64 { bits: LINE_ROOM })
}

/// The height at which the line of a word ends.
pub open spec fn room_bottom(f: Frame) -> F64 {
    f.spec_bottom().spec_plus(F64 { bits: LINE_ROOM })
}

/// A word is read after a place: it is on a lower line, or on the line and ends no further left.
pub open spec fn is_after(f: Frame, p: Point) -> bool {
    if p.1.spec_less(room_top(f)) {
        true
    } else if room_bottom(f).spec_less(p.1) {
        false
    } else {
        p.0.spec_at_most(f.spec_right())
    }
}

/// A word is read before a place: it is on a higher line, or on the line and begins no further
/// right.
pub open spec fn is_before(f: Frame, p: Point) -> bool {
    if room_bottom(f).spec_less(p.1) {
        true
    } else if p.1.spec_less(room_top(f)) {
        false
    } else {
        f.x.spec_at_most(p.0)
    }
}

/// A drag selects a word.
pub open spec fn is_selected(f: Frame, start: Point, current: Point, locked: Option<Frame>) -> bool {
    let ends = reading_ends(start, current);
    is_within(f, locked) && is_after(f, ends.0) && is_before(f, ends.1)
}

/// The first `n` of the words that a drag selects, by their positions.
pub open spec fn flow(
    frames: Seq<Frame>,
    start: Point,
    current: Point,
    locked: Option<Frame>,
    n: nat,
) -> Seq<usize>
    decreases n,
{
    if n == 0 {
        Seq::empty()
    } else {
        let before = flow(frames, start, current, locked, (n - 1) as nat);
        if is_selected(frames[n - 1], start, current, locked) {
            before.push((n - 1) as usize)
        } else {
            before
        }
    }
}

/// The words that a drag selects, by their positions.
pub open spec fn flow_of(
    words: Seq<Word>,
    start: Point,
    current: Point,
    locked: Option<Frame>,
) -> Seq<usize> {
    flow(frames_of(words), start, current, locked, words.len())
}

/// The first `n` of the words that can be selected, by their positions.
pub open spec fn within(frames: Seq<Frame>, locked: Option<Frame>, n: nat) -> Seq<usize>
    decreases n,
{
    if n == 0 {
        Seq::empty()
    } else {
        let before = within(frames, locked, (n - 1) as nat);
        if is_within(frames[n - 1], locked) {
            before.push((n - 1) as usize)
        } else {
            before
        }
    }
}

/// The words that can be selected, by their positions.
pub open spec fn selectable(words: Seq<Word>, locked: Option<Frame>) -> Seq<usize> {
    within(frames_of(words), locked, words.len())
}

/// A place points at a frame: it lies in it or next to it.
pub open spec fn points_at(p: Point, f: Frame) -> bool {
    let room = F64 { bits: POINTING_ROOM };
    &&& f.x.spec_minus(room).spec_at_most(p.0)
    &&& p.0.spec_at_most(f.spec_right().spec_plus(room))
    &&& f.y.spec_minus(room).spec_at_most(p.1)
    &&& p.1.spec_at_most(f.spec_bottom().spec_plus(room))
}

/// The first of the words, from `from` on, that a place points at; their number where there is
/// none.
pub open spec fn first_pointed(words: Seq<Word>, p: Point, from: nat) -> nat
    decreases words.len() - from,
{
    if from >= words.len() {
        words.len()
    } else if points_at(p, words[from as int].frame) {
        from
    } else {
        first_pointed(words, p, from + 1)
    }
}

/// A place points at a word that can be selected.
pub open spec fn over_a_word(words: Seq<Word>, p: Point, locked: Option<Frame>) -> bool {
    exists|i: int|
        0 <= i < words.len() && is_within((#[trigger] words[i]).frame, locked) && points_at(
            p,
            words[i].frame,
        )
}

/// Whether a frame lies wholly to one side of a region.
pub fn lies_outside(f: Frame, region: Frame) -> (r: bool)
    ensures
        r == is_outside(f, region),
{
    f.right().less(region.x) || region.right().less(f.x) || f.bottom().less(region.y)
        || region.bottom().less(f.y)
}

/// Whether a frame can be selected.
pub fn lies_within(f: Frame, locked: Option<Frame>) -> (r: bool)
    ensures
        r == is_within(f, locked),
{
    match locked {
        Some(region) => !lies_outside(f, region),
        None => true,
    }
}

/// The two ends of a drag in reading order.
pub fn find_ends(start: Point, current: Point) -> (r: (Point, Point))
    ensures
        r == reading_ends(start, current),
{
    let dy: F64 = current.1.minus(start.1);
    let down: bool = if (F64 { bits: STEEP }).less(dy.abs()) {
        (F64 { bits: 0 }).less(dy)
    } else {
        start.0.at_most(current.0)
    };
    if down {
        (start, current)
    } else {
        (current, start)
    }
}

fn reads_after(f: Frame, p: Point) -> (r: bool)
    ensures
        r == is_after(f, p),
{
    let room: F64 = F64 { bits: LINE_ROOM };
    if p.1.less(f.y.minus(room)) {
        true
    } else if f.bottom().plus(room).less(p.1) {
        false
    } else {
        p.0.at_most(f.right())
    }
}

fn reads_before(f: Frame, p: Point) -> (r: bool)
    ensures
        r == is_before(f, p),
{
    let room: F64 = F64 { bits: LINE_ROOM };
    if f.bottom().plus(room).less(p.1) {
        true
    } else if p.1.less(f.y.minus(room)) {
        false
    } else {
        f.x.at_most(p.0)
    }
}

/// The words that a drag from one place to another selects, by their positions: in reading
/// order, all from the one end to the other, but none outside the region that is framed.
pub fn select_words_in_flow(
    words: &[DetectedWord],
    start: Point,
    current: Point,
    locked_region: Option<Frame>,
) -> (selected: Vec<usize>)
    ensures
        selected@ == flow_of(views(words@), start, current, locked_region),
{
    let ghost frames = frames_of(views(words@));
    let ends: (Point, Point) = find_ends(start, current);
    let mut selected: Vec<usize> = Vec::new();
    let mut i: usize = 0;
    while i < words.len()
        invariant
            i <= words@.len(),
            frames == frames_of(views(words@)),
            ends == reading_ends(start, current),
            selected@ == flow(frames, start, current, locked_region, i as nat),
        decreases words@.len() - i,
    {
        let f: Frame = words[i].frame();
        proof {
            assert(frames[i as int] == f);
        }
        if lies_within(f, locked_region) && reads_after(f, ends.0) && reads_before(f, ends.1) {
            selected.push(i);
        }
        i = i + 1;
    }
    selected
}

/// The words that can be selected, by their positions.
pub fn find_selectable(words: &Vec<DetectedWord>, locked: Option<Frame>) -> (r: Vec<usize>)
    ensures
        r@ == selectable(views(words@), locked),
{
    let ghost frames = frames_of(views(words@));
    let mut r: Vec<usize> = Vec::new();
    let mut i: usize = 0;
    while i < words.len()
        invariant
            i <= words@.len(),
            frames == frames_of(views(words@)),
            r@ == within(frames, locked, i as nat),
        decreases words@.len() - i,
    {
        proof {
            assert(frames[i as int] == words@[i as int]@.frame);
        }
        if lies_within(words[i].frame(), locked) {
            r.push(i);
        }
        i = i + 1;
    }
    r
}

/// Whether a place points at a frame.
pub fn is_pointed_at(p: Point, f: Frame) -> (r: bool)
    ensures
        r == points_at(p, f),
{
    let room: F64 = F64 { bits: POINTING_ROOM };
    f.x.minus(room).at_most(p.0) && p.0.at_most(f.right().plus(room)) && f.y.minus(room).at_most(
        p.1,
    ) && p.1.at_most(f.bottom().plus(room))
}

/// The first word that a place points at.
pub fn find_pointed(words: &Vec<DetectedWord>, p: Point) -> (r: Option<usize>)
    ensures
        match r {
            Some(i) => i < words@.len() && i == first_pointed(views(words@), p, 0),
            None => first_pointed(views(words@), p, 0) == words@.len(),
        },
{
    let ghost v = views(words@);
    let mut i: usize = 0;
    while i < words.len()
        invariant
            i <= words@.len(),
            v == views(words@),
            first_pointed(v, p, 0) == first_pointed(v, p, i as nat),
        decreases words@.len() - i,
    {
        proof {
            assert(v[i as int] == words@[i as int]@);
        }
        if is_pointed_at(p, words[i].frame()) {
            return Some(i);
        }
        i = i + 1;
    }
    None
}

/// Whether a place points at a word that can be selected.
pub fn is_over_a_word(words: &Vec<DetectedWord>, p: Point, locked: Option<Frame>) -> (r: bool)
    ensures
        r == over_a_word(views(words@), p, locked),
{
    let ghost v = views(words@);
    let mut i: usize = 0;
    while i < words.len()
        invariant
            i <= words@.len(),
            v == views(words@),
            forall|k: int|
                0 <= k < i ==> !(is_within((#[trigger] v[k]).frame, locked) && points_at(
                    p,
                    v[k].frame,
                )),
        decreases words@.len() - i,
    {
        let f: Frame = words[i].frame();
        proof {
            assert(v[i as int].frame == f);
        }
        if lies_within(f, locked) && is_pointed_at(p, f) {
            return true;
        }
        i = i + 1;
    }
    false
}

/// The words that a drag selects are, in the order of their positions, those between its ends.
pub proof fn law_flow_selects_what_lies_between(
    words: Seq<Word>,
    start: Point,
    current: Point,
    locked: Option<Frame>,
)
    requires
        words.len() <= usize::MAX,
    ensures
        forall|i: int|
            0 <= i < words.len() ==> (#[trigger] flow_of(words, start, current, locked).contains(
                i as usize,
            ) <==> is_selected(words[i].frame, start, current, locked)),
        forall|k: int|
            0 <= k < flow_of(words, start, current, locked).len() ==> (#[trigger] flow_of(
                words,
                start,
                current,
                locked,
            )[k]) < words.len(),
        forall|k: int, l: int|
            0 <= k < l < flow_of(words, start, current, locked).len() ==> (#[trigger] flow_of(
                words,
                start,
                current,
                locked,
            )[k]) < (#[trigger] flow_of(words, start, current, locked)[l]),
{
    lemma_flow(frames_of(words), start, current, locked, words.len());
}

proof fn lemma_flow(
    frames: Seq<Frame>,
    start: Point,
    current: Point,
    locked: Option<Frame>,
    n: nat,
)
    requires
        n <= frames.len() <= usize::MAX,
    ensures
        forall|k: int|
            0 <= k < flow(frames, start, current, locked, n).len() ==> (#[trigger] flow(
                frames,
                start,
                current,
                locked,
                n,
            )[k]) < n,
        forall|k: int, l: int|
            0 <= k < l < flow(frames, start, current, locked, n).len() ==> (#[trigger] flow(
                frames,
                start,
                current,
                locked,
                n,
            )[k]) < (#[trigger] flow(frames, start, current, locked, n)[l]),
        forall|i: int|
            0 <= i < n ==> (#[trigger] flow(frames, start, current, locked, n).contains(
                i as usize,
            ) <==> is_selected(frames[i], start, current, locked)),
    decreases n,
{
    if n > 0 {
        let m = (n - 1) as nat;
        lemma_flow(frames, start, current, locked, m);
        let before = flow(frames, start, current, locked, m);
        let all = flow(frames, start, current, locked, n);
        assert forall|i: int| 0 <= i < n implies (#[trigger] all.contains(i as usize)
            <==> is_selected(frames[i], start, current, locked)) by {
            if i < m {
                assert(before.contains(i as usize) <==> is_selected(
                    frames[i],
                    start,
                    current,
                    locked,
                ));
                if all.contains(i as usize) {
                    let k = choose|k: int| 0 <= k < all.len() && all[k] == i as usize;
                    assert(before[k] == i as usize);
                }
                if before.contains(i as usize) {
                    let k = choose|k: int| 0 <= k < before.len() && before[k] == i as usize;
                    assert(all[k] == i as usize);
                }
            } else {
                if is_selected(frames[i], start, current, locked) {
                    assert(all[before.len() as int] == i as usize);
                }
            }
        }
    }
}

/// It does not matter from which end words are dragged over, as long as the drag goes up or
/// down, or its ends are not one above the other.
pub proof fn law_flow_is_the_same_from_either_end(
    words: Seq<Word>,
    start: Point,
    current: Point,
    locked: Option<Frame>,
)
    requires
        (F64 { bits: STEEP }).spec_less(current.1.spec_minus(start.1).spec_abs())
            || start.0.spec_less(current.0) || current.0.spec_less(start.0),
    ensures
        flow_of(words, start, current, locked) == flow_of(words, current, start, locked),
{
    lemma_difference_turns(current.1, start.1);
    let dy = current.1.spec_minus(start.1);
    if (F64 { bits: STEEP }).spec_less(dy.spec_abs()) {
        assert(dy.spec_abs().datum().mag == dy.datum().mag);
        assert(dy.datum().mag > 0);
    }
    assert(reading_ends(start, current) == reading_ends(current, start));
    lemma_flow_by_ends(frames_of(words), start, current, locked, words.len());
}

proof fn lemma_flow_by_ends(
    frames: Seq<Frame>,
    start: Point,
    current: Point,
    locked: Option<Frame>,
    n: nat,
)
    requires
        reading_ends(start, current) == reading_ends(current, start),
    ensures
        flow(frames, start, current, locked, n) == flow(frames, current, start, locked, n),
    decreases n,
{
    if n > 0 {
        lemma_flow_by_ends(frames, start, current, locked, (n - 1) as nat);
    }
}

/// Nothing outside the framed region is ever selected.
pub proof fn law_flow_stays_within_the_region(
    words: Seq<Word>,
    start: Point,
    current: Point,
    region: Frame,
    k: int,
)
    requires
        words.len() <= usize::MAX,
        0 <= k < flow_of(words, start, current, Some(region)).len(),
    ensures
        !is_outside(
            words[flow_of(words, start, current, Some(region))[k] as int].frame,
            region,
        ),
{
    let f = flow_of(words, start, current, Some(region));
    lemma_flow(frames_of(words), start, current, Some(region), words.len());
    assert(f.contains(f[k]));
    assert(f.contains(f[k] as int as usize));
}

/// Dragging further selects no less. A drag that goes on to the right and down keeps what it has
/// selected, and so does one that goes on to the left and up, as long as its ends are not
/// exchanged.
pub proof fn law_dragging_further_keeps_what_is_selected(
    words: Seq<Word>,
    start: Point,
    current: Point,
    further: Point,
    locked: Option<Frame>,
    i: int,
)
    requires
        words.len() <= usize::MAX,
        0 <= i < words.len(),
        ({
            ||| reading_ends(start, current) == (start, current) && reading_ends(start, further)
                == (start, further) && current.0.spec_at_most(further.0)
                && current.1.spec_at_most(further.1)
            ||| reading_ends(start, current) == (current, start) && reading_ends(start, further)
                == (further, start) && further.0.spec_at_most(current.0)
                && further.1.spec_at_most(current.1)
        }),
        flow_of(words, start, current, locked).contains(i as usize),
    ensures
        flow_of(words, start, further, locked).contains(i as usize),
{
    law_flow_selects_what_lies_between(words, start, current, locked);
    law_flow_selects_what_lies_between(words, start, further, locked);
    let f = words[i].frame;
    assert(is_selected(f, start, current, locked));
    assert(is_selected(f, start, further, locked));
}

/// A difference that is beyond ten even when it is rounded: a number lies between.
pub open spec fn beyond_ten(difference: int) -> bool {
    exists|z: F64| z.finite() && 10 * one() < #[trigger] z.value() <= difference
}

/// The value of the least steepness.
proof fn lemma_ten()
    ensures
        (F64 { bits: STEEP }).finite(),
        (F64 { bits: STEEP }).value() == 10 * one(),
        (F64 { bits: 0 }).finite(),
        (F64 { bits: 0 }).value() == 0,
{
    lemma2_to64_rest();
    lemma_whole_bits(STEEP, 10, 49);
    lemma_rank_is_value(Format::Double, (F64 { bits: 0 }).datum(), (F64 { bits: 0 }).datum());
}

/// When the ends of a drag are more than ten apart in height, the upper one comes first, whatever
/// their distances from the left. Otherwise the one further left does, and of two that are as far
/// left the one where the drag began.
pub proof fn law_the_upper_end_comes_first(start: Point, current: Point)
    requires
        start.0.finite(),
        start.1.finite(),
        current.0.finite(),
        current.1.finite(),
    ensures
        beyond_ten(current.1.value() - start.1.value()) ==> reading_ends(start, current) == (
            start,
            current,
        ),
        beyond_ten(start.1.value() - current.1.value()) ==> reading_ends(start, current) == (
            current,
            start,
        ),
        -10 * one() <= current.1.value() - start.1.value() <= 10 * one() ==> reading_ends(
            start,
            current,
        ) == (if start.0.value() <= current.0.value() {
            (start, current)
        } else {
            (current, start)
        }),
{
    let dy = current.1.spec_minus(start.1);
    let v = current.1.value() - start.1.value();
    let ten = F64 { bits: STEEP };
    let minus_ten = ten.spec_negated();
    lemma_ten();
    lemma_minus(current.1, start.1);
    lemma_compare(start.0, current.0);
    assert(minus_ten.datum() == (Datum { neg: true, mag: STEEP }));
    assert(minus_ten.value() == -10 * one());
    lemma_pow2_pos(1074);
    assert(dy.spec_abs().datum() == (Datum { neg: false, mag: dy.datum().mag }));
    if beyond_ten(v) {
        let z = choose|z: F64| z.finite() && 10 * one() < #[trigger] z.value() <= v;
        lemma_compare(ten, z);
        lemma_compare_nearly(dy, v, 1, z);
    }
    if beyond_ten(-v) {
        let z = choose|z: F64| z.finite() && 10 * one() < #[trigger] z.value() <= -v;
        lemma_compare(ten, z);
        let y = z.spec_negated();
        assert(y.datum() == (Datum { neg: !z.datum().neg, mag: z.datum().mag }));
        assert(y.value() == -z.value());
        lemma_compare_nearly(dy, v, 1, y);
    }
    if -10 * one() <= v <= 10 * one() {
        lemma_compare_nearly(dy, v, 1, ten);
        lemma_compare_nearly(dy, v, 1, minus_ten);
    }
}

/// The sides of a frame on the grid, and of its line, are exact.
proof fn lemma_line_of_frame(f: Frame)
    requires
        on_grid(f.x),
        on_grid(f.y),
        on_grid(f.w),
        on_grid(f.h),
    ensures
        f.spec_right().finite(),
        f.spec_right().value() == f.x.value() + f.w.value(),
        f.spec_bottom().finite(),
        f.spec_bottom().value() == f.y.value() + f.h.value(),
        room_top(f).finite(),
        room_top(f).value() == f.y.value() - 4 * one(),
        room_bottom(f).finite(),
        room_bottom(f).value() == f.y.value() + f.h.value() + 4 * one(),
{
    lemma_frame_sides(f);
    lemma2_to64_rest();
    lemma_whole_bits(LINE_ROOM, 4, 50);
    let room = F64 { bits: LINE_ROOM };
    let g = grain();
    lemma_pixel();
    let my = choose|m: int| -0x8000_0000_0000 <= m <= 0x8000_0000_0000 && f.y.value()
        == #[trigger] (m * grain());
    let mh = choose|m: int| -0x8000_0000_0000 <= m <= 0x8000_0000_0000 && f.h.value()
        == #[trigger] (m * grain());
    let four = 0x4_0000int;
    assert(4 * one() == four * g);
    assert(my * g - four * g == (my - four) * g) by (nonlinear_arith);
    assert(my * g + mh * g + four * g == (my + mh + four) * g) by (nonlinear_arith);
    lemma_grid_number(my - four);
    lemma_grid_number(my + mh + four);
    lemma_minus(f.y, room);
    lemma_exact_whole(room_top(f), f.y.value() - 4 * one());
    lemma_plus(f.spec_bottom(), room);
    lemma_exact_whole(room_bottom(f), f.y.value() + f.h.value() + 4 * one());
}

/// Where a word stands to a place decides whether it is read after it and before it: words on a
/// lower line, four above the word's top or lower, are read after it, words on a higher line
/// before it, and of the words on its line those that do not end further left after it, and those
/// that do not begin further right before it.
pub proof fn law_lines_part_what_is_read_before_and_after(f: Frame, p: Point)
    requires
        on_grid(f.x),
        on_grid(f.y),
        on_grid(f.w),
        on_grid(f.h),
        p.0.finite(),
        p.1.finite(),
        f.h.value() >= 0,
    ensures
        p.1.value() < f.y.value() - 4 * one() ==> is_after(f, p) && !is_before(f, p),
        f.y.value() + f.h.value() + 4 * one() < p.1.value() ==> !is_after(f, p) && is_before(f, p),
        f.y.value() - 4 * one() <= p.1.value() <= f.y.value() + f.h.value() + 4 * one() ==> {
            &&& is_after(f, p) <==> p.0.value() <= f.x.value() + f.w.value()
            &&& is_before(f, p) <==> f.x.value() <= p.0.value()
        },
{
    lemma_line_of_frame(f);
    lemma_pow2_pos(1074);
    lemma_compare(p.1, room_top(f));
    lemma_compare(room_bottom(f), p.1);
    lemma_compare(p.0, f.spec_right());
    lemma_compare(f.x, p.0);
}

/// A drag down from a place selects the words right of the place on its line, all words on the
/// lines in between, and the words left of the other end on the last line, and no others.
pub proof fn law_a_drag_down_selects_what_is_read_on_the_way(
    words: Seq<Word>,
    start: Point,
    current: Point,
    i: int,
)
    requires
        words.len() <= usize::MAX,
        0 <= i < words.len(),
        start.0.finite(),
        start.1.finite(),
        current.0.finite(),
        current.1.finite(),
        beyond_ten(current.1.value() - start.1.value()),
        on_grid(words[i].frame.x),
        on_grid(words[i].frame.y),
        on_grid(words[i].frame.w),
        on_grid(words[i].frame.h),
        words[i].frame.h.value() >= 0,
    ensures
        ({
            let f = words[i].frame;
            let top = f.y.value() - 4 * one();
            let bottom = f.y.value() + f.h.value() + 4 * one();
            let right = f.x.value() + f.w.value();
            let selected = flow_of(words, start, current, None).contains(i as usize);
            &&& selected == flow_of(words, current, start, None).contains(i as usize)
            &&& start.1.value() < top && bottom < current.1.value() ==> selected
            &&& bottom < start.1.value() || current.1.value() < top ==> !selected
            &&& top <= start.1.value() <= bottom < current.1.value() ==> (selected
                <==> start.0.value() <= right)
            &&& start.1.value() < top <= current.1.value() <= bottom ==> (selected
                <==> f.x.value() <= current.0.value())
            &&& top <= start.1.value() && current.1.value() <= bottom ==> (selected
                <==> start.0.value() <= right && f.x.value() <= current.0.value())
        }),
{
    law_the_upper_end_comes_first(start, current);
    law_the_upper_end_comes_first(current, start);
    law_flow_selects_what_lies_between(words, start, current, None);
    law_flow_selects_what_lies_between(words, current, start, None);
    law_lines_part_what_is_read_before_and_after(words[i].frame, start);
    law_lines_part_what_is_read_before_and_after(words[i].frame, current);
    let z = choose|z: F64| z.finite() && 10 * one() < #[trigger] z.value() <= current.1.value()
        - start.1.value();
    lemma_pow2_pos(1074);
    assert(current.1.value() > start.1.value());
}

/// A frame lies outside a region where it ends left of it, begins right of it, ends above it or
/// begins below it.
pub proof fn law_outside_is_apart(f: Frame, region: Frame)
    requires
        frame_on_grid(f),
        frame_on_grid(region),
    ensures
        is_outside(f, region) <==> {
            ||| f.x.value() + f.w.value() < region.x.value()
            ||| region.x.value() + region.w.value() < f.x.value()
            ||| f.y.value() + f.h.value() < region.y.value()
            ||| region.y.value() + region.h.value() < f.y.value()
        },
{
    lemma_frame_sides(f);
    lemma_frame_sides(region);
    lemma_compare(f.spec_right(), region.x);
    lemma_compare(region.spec_right(), f.x);
    lemma_compare(f.spec_bottom(), region.y);
    lemma_compare(region.spec_bottom(), f.y);
}

/// A place points at a frame where it is no further than two from it to either side.
pub proof fn law_a_place_points_at_what_is_within_two(p: Point, f: Frame)
    requires
        frame_on_grid(f),
        p.0.finite(),
        p.1.finite(),
    ensures
        points_at(p, f) <==> {
            &&& f.x.value() - 2 * one() <= p.0.value() <= f.x.value() + f.w.value() + 2 * one()
            &&& f.y.value() - 2 * one() <= p.1.value() <= f.y.value() + f.h.value() + 2 * one()
        },
{
    let room = F64 { bits: POINTING_ROOM };
    lemma_frame_sides(f);
    lemma_room_around(f.x, f.w, f.spec_right(), room);
    lemma_room_around(f.y, f.h, f.spec_bottom(), room);
    lemma_compare(f.x.spec_minus(room), p.0);
    lemma_compare(p.0, f.spec_right().spec_plus(room));
    lemma_compare(f.y.spec_minus(room), p.1);
    lemma_compare(p.1, f.spec_bottom().spec_plus(room));
}

proof fn lemma_room_around(a: F64, l: F64, end: F64, room: F64)
    requires
        on_grid(a),
        on_grid(l),
        end.finite(),
        end.value() == a.value() + l.value(),
        room == (F64 { bits: POINTING_ROOM }),
    ensures
        a.spec_minus(room).finite(),
        a.spec_minus(room).value() == a.value() - 2 * one(),
        end.spec_plus(room).finite(),
        end.spec_plus(room).value() == a.value() + l.value() + 2 * one(),
{
    lemma2_to64_rest();
    lemma_whole_bits(POINTING_ROOM, 2, 51);
    lemma_pixel();
    let g = grain();
    let m = choose|m: int| -0x8000_0000_0000 <= m <= 0x8000_0000_0000 && a.value()
        == #[trigger] (m * grain());
    let k = choose|m: int| -0x8000_0000_0000 <= m <= 0x8000_0000_0000 && l.value()
        == #[trigger] (m * grain());
    let two = 0x2_0000int;
    assert(2 * one() == two * g);
    assert(m * g - two * g == (m - two) * g) by (nonlinear_arith);
    assert(m * g + k * g + two * g == (m + k + two) * g) by (nonlinear_arith);
    lemma_grid_number(m - two);
    lemma_grid_number(m + k + two);
    lemma_minus(a, room);
    lemma_exact_whole(a.spec_minus(room), a.value() - 2 * one());
    lemma_plus(end, room);
    lemma_exact_whole(end.spec_plus(room), a.value() + l.value() + 2 * one());
}

/// A click takes the first word that it points at, and none where it points at none.
pub proof fn law_the_first_word_pointed_at_is_taken(words: Seq<Word>, p: Point)
    ensures
        ({
            let i = first_pointed(words, p, 0);
            &&& i <= words.len()
            &&& i < words.len() ==> points_at(p, words[i as int].frame)
            &&& forall|k: int|
                0 <= k < i && k < words.len() ==> !points_at(p, (#[trigger] words[k]).frame)
        }),
{
    lemma_first_pointed(words, p, 0);
}

proof fn lemma_first_pointed(words: Seq<Word>, p: Point, from: nat)
    requires
        from <= words.len(),
    ensures
        from <= first_pointed(words, p, from) <= words.len(),
        first_pointed(words, p, from) < words.len() ==> points_at(
            p,
            words[first_pointed(words, p, from) as int].frame,
        ),
        forall|k: int|
            from <= k < first_pointed(words, p, from) ==> !points_at(p, (#[trigger] words[k]).frame),
    decreases words.len() - from,
{
    if from < words.len() && !points_at(p, words[from as int].frame) {
        lemma_first_pointed(words, p, from + 1);
    }
}

/// All words that do not lie outside the framed region can be selected, in their order, and no
/// others.
pub proof fn law_all_words_in_the_region_can_be_selected(words: Seq<Word>, locked: Option<Frame>)
    requires
        words.len() <= usize::MAX,
    ensures
        forall|i: int|
            0 <= i < words.len() ==> (#[trigger] selectable(words, locked).contains(i as usize)
                <==> (locked is None || !is_outside(words[i].frame, locked->0))),
        forall|k: int|
            0 <= k < selectable(words, locked).len() ==> (#[trigger] selectable(words, locked)[k])
                < words.len(),
        forall|k: int, l: int|
            0 <= k < l < selectable(words, locked).len() ==> (#[trigger] selectable(words, locked)[k])
                < (#[trigger] selectable(words, locked)[l]),
{
    lemma_within(frames_of(words), locked, words.len());
}

proof fn lemma_within(frames: Seq<Frame>, locked: Option<Frame>, n: nat)
    requires
        n <= frames.len() <= usize::MAX,
    ensures
        forall|k: int|
            0 <= k < within(frames, locked, n).len() ==> (#[trigger] within(frames, locked, n)[k])
                < n,
        forall|k: int, l: int|
            0 <= k < l < within(frames, locked, n).len() ==> (#[trigger] within(
                frames,
                locked,
                n,
            )[k]) < (#[trigger] within(frames, locked, n)[l]),
        forall|i: int|
            0 <= i < n ==> (#[trigger] within(frames, locked, n).contains(i as usize)
                <==> is_within(frames[i], locked)),
    decreases n,
{
    if n > 0 {
        let m = (n - 1) as nat;
        lemma_within(frames, locked, m);
        let before = within(frames, locked, m);
        let all = within(frames, locked, n);
        assert forall|i: int| 0 <= i < n implies (#[trigger] all.contains(i as usize)
            <==> is_within(frames[i], locked)) by {
            if i < m {
                assert(before.contains(i as usize) <==> is_within(frames[i], locked));
                if all.contains(i as usize) {
                    let k = choose|k: int| 0 <= k < all.len() && all[k] == i as usize;
                    assert(before[k] == i as usize);
                }
                if before.contains(i as usize) {
                    let k = choose|k: int| 0 <= k < before.len() && before[k] == i as usize;
                    assert(all[k] == i as usize);
                }
            } else {
                if is_within(frames[i], locked) {
                    assert(all[before.len() as int] == i as usize);
                }
            }
        }
    }
}

} // verus!
