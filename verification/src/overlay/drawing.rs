//! What the overlay draws, and where.

use vstd::prelude::*;
use vstd::arithmetic::power2::{
    lemma2_to64, lemma2_to64_rest, lemma_pow2_adds, lemma_pow2_pos, pow2,
};
use crate::datum::Datum;
use crate::exact::{
    grain, lemma_bits, lemma_compare, lemma_count_on_grid, lemma_exact, lemma_exact_whole,
    lemma_fraction_bits, lemma_grain_difference, lemma_grain_sum, lemma_grid_number, lemma_min_max,
    lemma_minus, lemma_on_grid, lemma_over, lemma_part, lemma_pixel, lemma_plus,
    lemma_rank_is_value, lemma_shifted_is_number, lemma_times, lemma_whole_bits, on_grid, one,
};
use crate::float::F64;
use crate::ocr::layout::{INFINITE, NEGATIVE_INFINITE, ONE, TWO};
use crate::ocr::words::{DetectedWord, Frame};
use crate::ocr::words::{Word, frame_on_grid, lemma_frame_sides, views};
use crate::overlay::selection::Point;
use crate::overlay::state::{Overlay, find_span, picked_words, put_in_order};
use crate::overlay::state::{Scene, in_reading_order, picked, spanned};
use crate::rounding::Format;

verus! {

/// Zero, as bits of a 64-bit number.
pub const ZERO: u64 = 0;

/// The longest arm of a corner mark, as bits of a 64-bit number: 14.
pub const CORNER_ARM: u64 = 0x402c_0000_0000_0000;

/// Four, as bits of a 64-bit number.
pub const FOUR: u64 = 0x4010_0000_0000_0000;

/// The part of the lower of two heights that words of one line may be off each other, as bits of
/// a 64-bit number: 0.6.
pub const OVERLAP_PART: u64 = 0x3fe3_3333_3333_3333;

/// The room that a highlight leaves beside its words, as bits of a 64-bit number: 2.5.
pub const PAD_X: u64 = 0x4004_0000_0000_0000;

/// The room that a highlight leaves above and below its words, as bits of a 64-bit number: 1.5.
pub const PAD_Y: u64 = 0x3ff8_0000_0000_0000;

/// The greatest radius of the corners of a highlight, as bits of a 64-bit number: 3.
pub const ROUNDING: u64 = 0x4008_0000_0000_0000;

/// How strongly the ground is darkened while a region is being framed: 0.35.
pub const FRAMING_SHADE: u64 = 0x3fd6_6666_6666_6666;

/// How strongly the ground is darkened around a framed region: 0.38.
pub const LOCKED_SHADE: u64 = 0x3fd8_51eb_851e_b852;

/// How strongly the ground is darkened where nothing is framed: 0.22.
pub const PLAIN_SHADE: u64 = 0x3fcc_28f5_c28f_5c29;

/// The four rectangles around a region: above it, below it, left of it and right of it.
pub open spec fn around(f: Frame, width: F64, height: F64) -> Seq<Frame> {
    let zero = F64 { bits: ZERO };
    seq![
        Frame { x: zero, y: zero, w: width, h: f.y },
        Frame {
            x: zero,
            y: f.spec_bottom(),
            w: width,
            h: height.spec_minus(f.spec_bottom()).spec_max(zero),
        },
        Frame { x: zero, y: f.y, w: f.x, h: f.h },
        Frame {
            x: f.spec_right(),
            y: f.y,
            w: width.spec_minus(f.spec_right()).spec_max(zero),
            h: f.h,
        },
    ]
}

/// The length of the arms of the corner marks of a region.
pub open spec fn corner_arm(f: Frame) -> F64 {
    let four = F64 { bits: FOUR };
    (F64 { bits: CORNER_ARM }).spec_min(f.w.spec_over(four)).spec_min(f.h.spec_over(four))
}

/// The corner marks of a region, each by the end of one arm, the corner and the end of the
/// other arm.
pub open spec fn corner_marks(f: Frame) -> Seq<(Point, Point, Point)> {
    let a = corner_arm(f);
    let right = f.spec_right();
    let bottom = f.spec_bottom();
    seq![
        ((f.x, f.y.spec_plus(a)), (f.x, f.y), (f.x.spec_plus(a), f.y)),
        ((right.spec_minus(a), f.y), (right, f.y), (right, f.y.spec_plus(a))),
        ((f.x, bottom.spec_minus(a)), (f.x, bottom), (f.x.spec_plus(a), bottom)),
        ((right.spec_minus(a), bottom), (right, bottom), (right, bottom.spec_minus(a))),
    ]
}

/// What is drawn of the ground and of the region that is framed.
#[derive(Debug)]
pub struct Shading {
    /// The rectangles that are darkened.
    pub shaded: Vec<Frame>,
    /// How strongly.
    pub shade: F64,
    /// The region that is outlined.
    pub outlined: Option<Frame>,
    /// Its corner marks.
    pub corners: Vec<(Point, Point, Point)>,
}

/// What is drawn of the ground and of the region that is framed, as a mathematical value.
#[verifier::ext_equal]
pub struct Shades {
    pub shaded: Seq<Frame>,
    pub shade: F64,
    pub outlined: Option<Frame>,
    pub corners: Seq<(Point, Point, Point)>,
}

impl View for Shading {
    type V = Shades;

    open spec fn view(&self) -> Shades {
        Shades {
            shaded: self.shaded@,
            shade: self.shade,
            outlined: self.outlined,
            corners: self.corners@,
        }
    }
}

/// What is drawn of the ground and of the region that is framed: while a region is being framed,
/// all around it is darkened and it is outlined; a framed region has corner marks too; else the
/// whole ground is darkened a little.
pub open spec fn shades_of(v: Scene) -> Shades {
    let width = F64::of_nat(v.size.0 as nat);
    let height = F64::of_nat(v.size.1 as nat);
    let zero = F64 { bits: ZERO };
    if let Some(d) = v.framing {
        let f = spanned(d.start, d.current);
        Shades {
            shaded: around(f, width, height),
            shade: F64 { bits: FRAMING_SHADE },
            outlined: Some(f),
            corners: Seq::empty(),
        }
    } else if let Some(f) = v.locked {
        Shades {
            shaded: around(f, width, height),
            shade: F64 { bits: LOCKED_SHADE },
            outlined: Some(f),
            corners: corner_marks(f),
        }
    } else {
        Shades {
            shaded: seq![Frame { x: zero, y: zero, w: width, h: height }],
            shade: F64 { bits: PLAIN_SHADE },
            outlined: None,
            corners: Seq::empty(),
        }
    }
}

fn find_around(f: Frame, width: F64, height: F64) -> (r: Vec<Frame>)
    ensures
        r@ == around(f, width, height),
{
    let zero: F64 = F64 { bits: ZERO };
    let r: Vec<Frame> = vec![
        Frame { x: zero, y: zero, w: width, h: f.y },
        Frame { x: zero, y: f.bottom(), w: width, h: height.minus(f.bottom()).max(zero) },
        Frame { x: zero, y: f.y, w: f.x, h: f.h },
        Frame { x: f.right(), y: f.y, w: width.minus(f.right()).max(zero), h: f.h },
    ];
    proof {
        assert(r@ =~= around(f, width, height));
    }
    r
}

fn find_corners(f: Frame) -> (r: Vec<(Point, Point, Point)>)
    ensures
        r@ == corner_marks(f),
{
    let four: F64 = F64 { bits: FOUR };
    let a: F64 = (F64 { bits: CORNER_ARM }).min(f.w.over(four)).min(f.h.over(four));
    let right: F64 = f.right();
    let bottom: F64 = f.bottom();
    let r: Vec<(Point, Point, Point)> = vec![
        ((f.x, f.y.plus(a)), (f.x, f.y), (f.x.plus(a), f.y)),
        ((right.minus(a), f.y), (right, f.y), (right, f.y.plus(a))),
        ((f.x, bottom.minus(a)), (f.x, bottom), (f.x.plus(a), bottom)),
        ((right.minus(a), bottom), (right, bottom), (right, bottom.minus(a))),
    ];
    proof {
        assert(r@ =~= corner_marks(f));
    }
    r
}

/// Two words that follow each other are highlighted together: they are on one line by their
/// numbers, or by their heights.
pub open spec fn joins(before: Word, w: Word) -> bool {
    ||| w.par_num == before.par_num && w.line_num == before.line_num
    ||| w.frame.y.spec_minus(before.frame.y).spec_abs().spec_less(
        w.frame.h.spec_min(before.frame.h).spec_times(F64 { bits: OVERLAP_PART }),
    )
}

/// The first `n` words in groups that are highlighted together.
pub open spec fn groups(words: Seq<Word>, n: nat) -> Seq<Seq<Word>>
    decreases n,
{
    if n == 0 {
        Seq::empty()
    } else {
        let before = groups(words, (n - 1) as nat);
        let w = words[n - 1];
        if n > 1 && joins(words[n - 2], w) {
            before.update(before.len() - 1, before.last().push(w))
        } else {
            before.push(seq![w])
        }
    }
}

/// The left, the top, the right and the bottom of a group.
pub open spec fn group_extent(group: Seq<Word>) -> (F64, F64, F64, F64)
    decreases group.len(),
{
    let least = F64 { bits: INFINITE };
    let most = F64 { bits: NEGATIVE_INFINITE };
    if group.len() == 0 {
        (least, least, most, most)
    } else {
        let e = group_extent(group.drop_last());
        let f = group.last().frame;
        (
            e.0.spec_min(f.x),
            e.1.spec_min(f.y),
            e.2.spec_max(f.spec_right()),
            e.3.spec_max(f.spec_bottom()),
        )
    }
}

/// A rectangle with round corners.
#[derive(Clone, Copy, Debug, PartialEq, Eq, Structural)]
pub struct Rounded {
    pub frame: Frame,
    pub radius: F64,
}

/// The rectangle from the extent of a group, with room around it.
pub open spec fn padded(e: (F64, F64, F64, F64)) -> Rounded {
    let two = F64 { bits: TWO };
    let px = F64 { bits: PAD_X };
    let py = F64 { bits: PAD_Y };
    let w = e.2.spec_minus(e.0).spec_plus(px.spec_times(two));
    let h = e.3.spec_minus(e.1).spec_plus(py.spec_times(two));
    Rounded {
        frame: Frame { x: e.0.spec_minus(px), y: e.1.spec_minus(py), w, h },
        radius: (F64 { bits: ROUNDING }).spec_min(w.spec_over(two)).spec_min(h.spec_over(two)),
    }
}

/// The highlights of the words that are selected.
pub open spec fn highlights_of(v: Scene) -> Seq<Rounded> {
    let words = in_reading_order(picked(v.words, v.selected));
    let g = groups(words, words.len());
    Seq::new(g.len(), |i: int| padded(group_extent(g[i])))
}

fn is_joined(before: &DetectedWord, w: &DetectedWord) -> (r: bool)
    ensures
        r == joins(before@, w@),
{
    (w.par_num == before.par_num && w.line_num == before.line_num) || w.y.minus(
        before.y,
    ).abs().less(w.h.min(before.h).times(F64 { bits: OVERLAP_PART }))
}

fn pad(e: (F64, F64, F64, F64)) -> (r: Rounded)
    ensures
        r == padded(e),
{
    let two: F64 = F64 { bits: TWO };
    let px: F64 = F64 { bits: PAD_X };
    let py: F64 = F64 { bits: PAD_Y };
    let w: F64 = e.2.minus(e.0).plus(px.times(two));
    let h: F64 = e.3.minus(e.1).plus(py.times(two));
    Rounded {
        frame: Frame { x: e.0.minus(px), y: e.1.minus(py), w, h },
        radius: (F64 { bits: ROUNDING }).min(w.over(two)).min(h.over(two)),
    }
}

fn extend(e: (F64, F64, F64, F64), f: Frame) -> (r: (F64, F64, F64, F64))
    ensures
        r == (
            e.0.spec_min(f.x),
            e.1.spec_min(f.y),
            e.2.spec_max(f.spec_right()),
            e.3.spec_max(f.spec_bottom()),
        ),
{
    (e.0.min(f.x), e.1.min(f.y), e.2.max(f.right()), e.3.max(f.bottom()))
}

/// The extents of groups.
spec fn extents(g: Seq<Seq<Word>>) -> Seq<(F64, F64, F64, F64)> {
    Seq::new(g.len(), |i: int| group_extent(g[i]))
}

proof fn lemma_groups_nonempty(words: Seq<Word>, n: nat)
    ensures
        n > 0 ==> groups(words, n).len() > 0,
    decreases n,
{
    if n > 0 {
        lemma_groups_nonempty(words, (n - 1) as nat);
    }
}

impl Overlay {
    /// What is drawn of the ground and of the region that is framed.
    pub fn shading(&self) -> (r: Shading)
        ensures
            r@ == shades_of(self@),
    {
        let width: F64 = F64::of_count(self.size.0 as u64);
        let height: F64 = F64::of_count(self.size.1 as u64);
        let zero: F64 = F64 { bits: ZERO };
        match self.framing {
            Some(d) => {
                let f: Frame = find_span(d.start, d.current);
                Shading {
                    shaded: find_around(f, width, height),
                    shade: F64 { bits: FRAMING_SHADE },
                    outlined: Some(f),
                    corners: Vec::new(),
                }
            },
            None => match self.locked {
                Some(f) => Shading {
                    shaded: find_around(f, width, height),
                    shade: F64 { bits: LOCKED_SHADE },
                    outlined: Some(f),
                    corners: find_corners(f),
                },
                None => {
                    let shaded: Vec<Frame> = vec![Frame { x: zero, y: zero, w: width, h: height }];
                    proof {
                        assert(shaded@ =~= seq![Frame { x: zero, y: zero, w: width, h: height }]);
                    }
                    Shading {
                        shaded,
                        shade: F64 { bits: PLAIN_SHADE },
                        outlined: None,
                        corners: Vec::new(),
                    }
                },
            },
        }
    }

    /// The highlights of the words that are selected.
    pub fn highlights(&self) -> (r: Vec<Rounded>)
        ensures
            r@ == highlights_of(self@),
    {
        let words: Vec<DetectedWord> = put_in_order(&picked_words(&self.words, &self.selected));
        let ghost v = views(words@);
        let least: F64 = F64 { bits: INFINITE };
        let most: F64 = F64 { bits: NEGATIVE_INFINITE };
        let mut found: Vec<(F64, F64, F64, F64)> = Vec::new();
        let mut i: usize = 0;
        proof {
            assert(found@ =~= extents(groups(v, 0)));
        }
        while i < words.len()
            invariant
                i <= words@.len(),
                v == views(words@),
                least == (F64 { bits: INFINITE }),
                most == (F64 { bits: NEGATIVE_INFINITE }),
                found@ == extents(groups(v, i as nat)),
            decreases words@.len() - i,
        {
            let ghost g = groups(v, i as nat);
            let ghost next = groups(v, (i + 1) as nat);
            let f: Frame = words[i].frame();
            proof {
                lemma_groups_nonempty(v, i as nat);
                assert(v[i as int].frame == f);
            }
            if i > 0 && is_joined(&words[i - 1], &words[i]) {
                let last: usize = found.len() - 1;
                let e: (F64, F64, F64, F64) = found[last];
                found.set(last, extend(e, f));
                proof {
                    let grown = g.last().push(v[i as int]);
                    assert(grown.drop_last() =~= g.last());
                    assert(found@ =~= extents(next));
                }
            } else {
                found.push(extend((least, least, most, most), f));
                proof {
                    let one = seq![v[i as int]];
                    assert(one.drop_last() =~= Seq::<Word>::empty());
                    reveal_with_fuel(group_extent, 2);
                    assert(found@ =~= extents(next));
                }
            }
            i = i + 1;
        }
        let mut r: Vec<Rounded> = Vec::new();
        let mut k: usize = 0;
        let ghost target = highlights_of(self@);
        while k < found.len()
            invariant
                k <= found@.len() == target.len(),
                forall|j: int| 0 <= j < target.len() ==> #[trigger] target[j] == padded(found@[j]),
                r@ == target.take(k as int),
            decreases found@.len() - k,
        {
            r.push(pad(found[k]));
            k = k + 1;
            proof {
                assert(r@ =~= target.take(k as int));
            }
        }
        proof {
            assert(target.take(k as int) =~= target);
        }
        r
    }
}

/// How many pixels of an area there are to one of the picture that is shown in it.
pub open spec fn shown_ratio(shown: i32, side: u32) -> F64 {
    F64::of_int(shown as int).spec_over(F64::of_nat(side as nat).spec_max(F64 { bits: ONE }))
}

/// Computes [`shown_ratio`].
pub fn find_shown_ratio(shown: i32, side: u32) -> (r: F64)
    ensures
        r == shown_ratio(shown, side),
{
    F64::of_i32(shown).over(F64::of_count(side as u64).max(F64 { bits: ONE }))
}

/// How a rectangle with round corners is drawn.
#[derive(Clone, Copy, Debug, PartialEq, Eq, Structural)]
pub enum Outline {
    /// With sharp corners.
    Sharp(Frame),
    /// By arcs of a radius around four centers: of the upper right, the lower right, the lower
    /// left and the upper left corner.
    Arcs { radius: F64, left: F64, right: F64, upper: F64, lower: F64 },
}

/// How a rectangle with round corners is drawn. The radius is at most half of a side; where it is
/// not above zero, the corners are sharp.
pub open spec fn outline_of(b: Rounded) -> Outline {
    let two = F64 { bits: TWO };
    let f = b.frame;
    let r = b.radius.spec_min(f.w.spec_over(two)).spec_min(f.h.spec_over(two));
    if r.spec_at_most(F64 { bits: ZERO }) {
        Outline::Sharp(f)
    } else {
        Outline::Arcs {
            radius: r,
            left: f.x.spec_plus(r),
            right: f.spec_right().spec_minus(r),
            upper: f.y.spec_plus(r),
            lower: f.spec_bottom().spec_minus(r),
        }
    }
}

/// Computes [`outline_of`].
pub fn find_outline(b: Rounded) -> (r: Outline)
    ensures
        r == outline_of(b),
{
    let two: F64 = F64 { bits: TWO };
    let f: Frame = b.frame;
    let r: F64 = b.radius.min(f.w.over(two)).min(f.h.over(two));
    if r.at_most(F64 { bits: ZERO }) {
        Outline::Sharp(f)
    } else {
        Outline::Arcs {
            radius: r,
            left: f.x.plus(r),
            right: f.right().minus(r),
            upper: f.y.plus(r),
            lower: f.bottom().minus(r),
        }
    }
}

/// A place lies in a rectangle: its left and upper sides count to it.
pub open spec fn holds(f: Frame, px: int, py: int) -> bool {
    &&& f.x.value() <= px < f.x.value() + f.w.value()
    &&& f.y.value() <= py < f.y.value() + f.h.value()
}

/// What is darkened around a region is all of the picture but the region: every place of the
/// picture lies in the region or in one of the four rectangles, and in one of them only.
pub proof fn law_all_around_the_region_is_darkened(
    f: Frame,
    width: u32,
    height: u32,
    px: int,
    py: int,
)
    requires
        frame_on_grid(f),
        width <= 0x8000_0000,
        height <= 0x8000_0000,
        0 <= f.x.value(),
        0 <= f.y.value(),
        0 <= f.w.value(),
        0 <= f.h.value(),
        f.x.value() + f.w.value() <= width * one(),
        f.y.value() + f.h.value() <= height * one(),
        0 <= px < width * one(),
        0 <= py < height * one(),
    ensures
        ({
            let a = around(f, F64::of_nat(width as nat), F64::of_nat(height as nat));
            &&& a.len() == 4
            &&& holds(f, px, py) <==> forall|i: int| 0 <= i < 4 ==> !holds(#[trigger] a[i], px, py)
            &&& forall|i: int, j: int|
                0 <= i < j < 4 ==> !(holds(#[trigger] a[i], px, py) && holds(
                    #[trigger] a[j],
                    px,
                    py,
                ))
        }),
{
    let w = F64::of_nat(width as nat);
    let h = F64::of_nat(height as nat);
    let zero = F64 { bits: ZERO };
    lemma_rank_is_value(Format::Double, zero.datum(), zero.datum());
    lemma_count_on_grid(width as nat);
    lemma_count_on_grid(height as nat);
    lemma_frame_sides(f);
    lemma_room_beyond(f.x, f.w, f.spec_right(), w);
    lemma_room_beyond(f.y, f.h, f.spec_bottom(), h);
    lemma_min_max(h.spec_minus(f.spec_bottom()), zero);
    lemma_min_max(w.spec_minus(f.spec_right()), zero);
    let a = around(f, w, h);
    assert(a[0].h.value() == f.y.value());
    assert(a[1].h.value() == h.value() - f.spec_bottom().value());
    assert(a[3].w.value() == w.value() - f.spec_right().value());
    if !holds(f, px, py) {
        assert(holds(a[0], px, py) || holds(a[1], px, py) || holds(a[2], px, py) || holds(
            a[3],
            px,
            py,
        ));
    }
}

proof fn lemma_room_beyond(start: F64, length: F64, end: F64, all: F64)
    requires
        on_grid(start),
        on_grid(length),
        on_grid(all),
        end.finite(),
        end.value() == start.value() + length.value(),
    ensures
        all.spec_minus(end).finite(),
        all.spec_minus(end).value() == all.value() - end.value(),
{
    let m = lemma_on_grid(start);
    let n = lemma_on_grid(length);
    let k = lemma_on_grid(all);
    let g = grain();
    assert(m * g + n * g == (m + n) * g) by (nonlinear_arith);
    lemma_grain_difference(all, end, k, m + n);
    assert(k * g - (m + n) * g == (k - (m + n)) * g) by (nonlinear_arith);
}

/// A share of two heights that words of one line may be off each other: 0.6.
proof fn lemma_overlap()
    ensures
        (F64 { bits: OVERLAP_PART }).finite(),
        599_999 * one() <= 1_000_000 * (F64 { bits: OVERLAP_PART }).value() <= 600_001 * one(),
{
    lemma2_to64_rest();
    lemma_pow2_pos(1074);
    lemma_fraction_bits(OVERLAP_PART, 0x13_3333_3333_3333, 53);
}

/// Words that follow each other are highlighted together where they have the numbers of one line,
/// or where their tops are nearer to each other than 0.6 of the lower of their heights, up to a
/// thousandth, and apart otherwise.
pub proof fn law_words_of_one_line_are_highlighted_together(before: Word, w: Word)
    requires
        frame_on_grid(before.frame),
        frame_on_grid(w.frame),
        before.frame.h.value() > 0,
        w.frame.h.value() > 0,
    ensures
        ({
            let same = w.par_num == before.par_num && w.line_num == before.line_num;
            let d = w.frame.y.value() - before.frame.y.value();
            let off = if d < 0 {
                -d
            } else {
                d
            };
            let h = if w.frame.h.value() < before.frame.h.value() {
                w.frame.h.value()
            } else {
                before.frame.h.value()
            };
            &&& same || 1000 * off <= 599 * h ==> joins(before, w)
            &&& !same && 1000 * off >= 601 * h ==> !joins(before, w)
        }),
{
    let a = w.frame.y;
    let b = before.frame.y;
    let m = lemma_on_grid(a);
    let n = lemma_on_grid(b);
    let mw = lemma_on_grid(w.frame.h);
    let mb = lemma_on_grid(before.frame.h);
    let g = grain();
    lemma_pixel();
    lemma_grain_difference(a, b, m, n);
    assert(m * g - n * g == (m - n) * g) by (nonlinear_arith);
    let d = a.spec_minus(b);
    let off = d.spec_abs();
    assert(off.datum() == (Datum { neg: false, mag: d.datum().mag }));
    lemma_rank_is_value(Format::Double, d.datum(), d.datum());
    lemma_min_max(w.frame.h, before.frame.h);
    let h = w.frame.h.spec_min(before.frame.h);
    assert(h.value() >= g) by (nonlinear_arith)
        requires
            h.value() == mw * g || h.value() == mb * g,
            h.value() > 0,
            g > 0,
    ;
    lemma_overlap();
    lemma_part(h, F64 { bits: OVERLAP_PART }, 600);
    let reach = h.spec_times(F64 { bits: OVERLAP_PART });
    assert(599 * h.value() < 1000 * reach.value());
    assert(1000 * reach.value() < 601 * h.value());
    lemma_compare(off, reach);
}

/// The words of groups, one group after the other.
pub open spec fn ungrouped(groups: Seq<Seq<Word>>) -> Seq<Word>
    decreases groups.len(),
{
    if groups.len() == 0 {
        Seq::empty()
    } else {
        ungrouped(groups.drop_last()) + groups.last()
    }
}

/// Groups hold every word, in their order; within a group each word joins the one before it, and
/// where a group begins, its first word does not join the last one of the group before.
pub proof fn law_groups_hold_the_words_in_their_order(words: Seq<Word>, n: nat)
    requires
        n <= words.len(),
    ensures
        ungrouped(groups(words, n)) == words.take(n as int),
        forall|i: int| 0 <= i < groups(words, n).len() ==> (#[trigger] groups(words, n)[i]).len() > 0,
        forall|i: int, k: int|
            0 <= i < groups(words, n).len() && 0 < k < groups(words, n)[i].len() ==> joins(
                groups(words, n)[i][k - 1],
                #[trigger] groups(words, n)[i][k],
            ),
        forall|i: int|
            0 < i < groups(words, n).len() ==> !joins(
                groups(words, n)[i - 1].last(),
                (#[trigger] groups(words, n)[i])[0],
            ),
        n > 0 ==> groups(words, n).len() > 0 && groups(words, n).last().last() == words[n - 1],
    decreases n,
{
    if n == 0 {
        assert(words.take(0) =~= Seq::<Word>::empty());
    } else {
        let m = (n - 1) as nat;
        law_groups_hold_the_words_in_their_order(words, m);
        let before = groups(words, m);
        let all = groups(words, n);
        let w = words[n - 1];
        assert(words.take(n as int) =~= words.take(m as int).push(w));
        if n > 1 && joins(words[n - 2], w) {
            let last = before.len() - 1;
            assert(all.drop_last() =~= before.drop_last());
            assert(all.last() == before.last().push(w));
            assert(ungrouped(all) =~= ungrouped(before).push(w));
            assert forall|i: int, k: int|
                0 <= i < all.len() && 0 < k < all[i].len() implies joins(
                all[i][k - 1],
                #[trigger] all[i][k],
            ) by {
                if i < last || k < before[i].len() {
                    assert(all[i][k] == before[i][k]);
                    assert(all[i][k - 1] == before[i][k - 1]);
                } else {
                    assert(all[i][k - 1] == before.last().last());
                }
            }
            assert forall|i: int| 0 < i < all.len() implies !joins(
                all[i - 1].last(),
                (#[trigger] all[i])[0],
            ) by {
                assert(all[i][0] == before[i][0]);
                assert(all[i - 1] == before[i - 1]);
            }
        } else {
            assert(all.drop_last() =~= before);
            assert(ungrouped(all) =~= ungrouped(before).push(w));
            assert forall|i: int| 0 < i < all.len() implies !joins(
                all[i - 1].last(),
                (#[trigger] all[i])[0],
            ) by {
                if i < before.len() {
                    assert(all[i] == before[i] && all[i - 1] == before[i - 1]);
                } else {
                    assert(all[i - 1] == before.last());
                    assert(n > 1);
                }
            }
        }
    }
}

/// A highlight reaches from 2.5 left of the leftmost of its words to 2.5 right of the rightmost
/// end, and from 1.5 above the topmost to 1.5 below the lowest end.
pub proof fn law_highlights_reach_around_their_words(group: Seq<Word>)
    requires
        group.len() > 0,
        forall|k: int| 0 <= k < group.len() ==> frame_on_grid((#[trigger] group[k]).frame),
    ensures
        ({
            let f = padded(group_extent(group)).frame;
            let left = f.x.value();
            let top = f.y.value();
            let right = left + f.w.value();
            let bottom = top + f.h.value();
            &&& forall|k: int|
                0 <= k < group.len() ==> {
                    let g = (#[trigger] group[k]).frame;
                    &&& 2 * left + 5 * one() <= 2 * g.x.value()
                    &&& 2 * top + 3 * one() <= 2 * g.y.value()
                    &&& 2 * (g.x.value() + g.w.value()) + 5 * one() <= 2 * right
                    &&& 2 * (g.y.value() + g.h.value()) + 3 * one() <= 2 * bottom
                }
            &&& exists|k: int|
                0 <= k < group.len() && 2 * left + 5 * one() == 2 * (
                #[trigger] group[k]).frame.x.value()
            &&& exists|k: int|
                0 <= k < group.len() && 2 * top + 3 * one() == 2 * (
                #[trigger] group[k]).frame.y.value()
            &&& exists|k: int|
                0 <= k < group.len() && 2 * ((#[trigger] group[k]).frame.x.value()
                    + group[k].frame.w.value()) + 5 * one() == 2 * right
            &&& exists|k: int|
                0 <= k < group.len() && 2 * ((#[trigger] group[k]).frame.y.value()
                    + group[k].frame.h.value()) + 3 * one() == 2 * bottom
        }),
{
    let e = group_extent(group);
    lemma_extent_of_group(group);
    lemma2_to64_rest();
    lemma_pixel();
    lemma_pow2_pos(1074);
    lemma_fraction_bits(PAD_Y, 0x18_0000_0000_0000, 52);
    lemma_bits(PAD_X, 1023, 0x14_0000_0000_0000);
    lemma_pow2_adds(51, 1023);
    lemma_whole_bits(TWO, 2, 51);
    let px = F64 { bits: PAD_X };
    let py = F64 { bits: PAD_Y };
    let two = F64 { bits: TWO };
    let g = grain();
    // 2.5 and 1.5 pixels.
    let w = pow2(1023) as int;
    assert(px.value() == 0x2_8000 * g) by (nonlinear_arith)
        requires
            px.value() == 0x14_0000_0000_0000 * w,
            one() == 0x8_0000_0000_0000 * w,
            one() == 0x1_0000 * g,
    ;
    assert(py.value() == 0x1_8000 * g) by (nonlinear_arith)
        requires
            py.value() * 0x10_0000_0000_0000 == 0x18_0000_0000_0000 * one(),
            one() == 0x1_0000 * g,
    ;
    lemma_doubled(px, two, 0x2_8000);
    lemma_doubled(py, two, 0x1_8000);
    lemma_padded_side(e.0, e.2, px, px.spec_times(two), 0x2_8000);
    lemma_padded_side(e.1, e.3, py, py.spec_times(two), 0x1_8000);
}

proof fn lemma_doubled(a: F64, two: F64, m: int)
    requires
        a.finite(),
        a.value() == m * grain(),
        two.finite(),
        two.value() == 2 * one(),
        0 <= m <= 0x10_0000,
    ensures
        a.spec_times(two).finite(),
        a.spec_times(two).value() == (2 * m) * grain(),
{
    lemma_pow2_pos(1074);
    lemma_grid_number(2 * m);
    let z = choose|z: F64| z.finite() && #[trigger] z.value() == (2 * m) * grain();
    lemma_times(a, two);
    let o = one();
    let g = grain();
    assert(z.value() * o == a.value() * (2 * o)) by (nonlinear_arith)
        requires
            z.value() == (2 * m) * g,
            a.value() == m * g,
    ;
    lemma_exact(a.spec_times(two), a.value() * two.value(), o, z);
}

proof fn lemma_padded_side(least: F64, most: F64, pad: F64, twice: F64, k: int)
    requires
        least.finite(),
        most.finite(),
        exists|m: int|
            -0x8000_0000_0000 <= m <= 0x8000_0000_0000 && least.value() == #[trigger] (m * grain()),
        exists|m: int|
            -0x1_0000_0000_0000 <= m <= 0x1_0000_0000_0000 && most.value() == #[trigger] (m
                * grain()),
        pad.finite(),
        pad.value() == k * grain(),
        twice.finite(),
        twice.value() == (2 * k) * grain(),
        0 <= k <= 0x10_0000,
    ensures
        ({
            let x = least.spec_minus(pad);
            let w = most.spec_minus(least).spec_plus(twice);
            &&& x.value() + pad.value() == least.value()
            &&& x.value() + w.value() == most.value() + pad.value()
        }),
{
    let g = grain();
    let m = choose|m: int|
        -0x8000_0000_0000 <= m <= 0x8000_0000_0000 && least.value() == #[trigger] (m * grain());
    let n = choose|m: int|
        -0x1_0000_0000_0000 <= m <= 0x1_0000_0000_0000 && most.value() == #[trigger] (m * grain());
    lemma_grain_difference(least, pad, m, k);
    lemma_grain_difference(most, least, n, m);
    lemma_grain_sum(most.spec_minus(least), twice, n - m, 2 * k);
    assert((m - k) * g + k * g == m * g) by (nonlinear_arith);
    assert((m - k) * g + (n - m + 2 * k) * g == n * g + k * g) by (nonlinear_arith);
}

/// The extent of a group is that of its frames.
proof fn lemma_extent_of_group(group: Seq<Word>)
    requires
        group.len() > 0,
        forall|k: int| 0 <= k < group.len() ==> frame_on_grid((#[trigger] group[k]).frame),
    ensures
        ({
            let e = group_extent(group);
            &&& e.0.finite() && e.1.finite() && e.2.finite() && e.3.finite()
            &&& forall|k: int|
                0 <= k < group.len() ==> {
                    let f = (#[trigger] group[k]).frame;
                    &&& e.0.value() <= f.x.value()
                    &&& e.1.value() <= f.y.value()
                    &&& f.x.value() + f.w.value() <= e.2.value()
                    &&& f.y.value() + f.h.value() <= e.3.value()
                }
            &&& exists|k: int|
                0 <= k < group.len() && e.0.value() == (#[trigger] group[k]).frame.x.value()
            &&& exists|k: int|
                0 <= k < group.len() && e.1.value() == (#[trigger] group[k]).frame.y.value()
            &&& exists|k: int|
                0 <= k < group.len() && e.2.value() == (#[trigger] group[k]).frame.x.value()
                    + group[k].frame.w.value()
            &&& exists|k: int|
                0 <= k < group.len() && e.3.value() == (#[trigger] group[k]).frame.y.value()
                    + group[k].frame.h.value()
            &&& exists|m: int|
                -0x8000_0000_0000 <= m <= 0x8000_0000_0000 && e.0.value() == #[trigger] (m
                    * grain())
            &&& exists|m: int|
                -0x8000_0000_0000 <= m <= 0x8000_0000_0000 && e.1.value() == #[trigger] (m
                    * grain())
            &&& exists|m: int|
                -0x1_0000_0000_0000 <= m <= 0x1_0000_0000_0000 && e.2.value() == #[trigger] (m
                    * grain())
            &&& exists|m: int|
                -0x1_0000_0000_0000 <= m <= 0x1_0000_0000_0000 && e.3.value() == #[trigger] (m
                    * grain())
        }),
    decreases group.len(),
{
    let n = group.len() - 1;
    let f = group.last().frame;
    assert(frame_on_grid(group[n].frame));
    lemma_frame_sides(f);
    let x = lemma_on_grid(f.x);
    let y = lemma_on_grid(f.y);
    let w = lemma_on_grid(f.w);
    let h = lemma_on_grid(f.h);
    let g = grain();
    assert(x * g + w * g == (x + w) * g) by (nonlinear_arith);
    assert(y * g + h * g == (y + h) * g) by (nonlinear_arith);
    let rest = group.drop_last();
    let before = group_extent(rest);
    let e = group_extent(group);
    if rest.len() == 0 {
        assert(before == (
            F64 { bits: INFINITE },
            F64 { bits: INFINITE },
            F64 { bits: NEGATIVE_INFINITE },
            F64 { bits: NEGATIVE_INFINITE },
        ));
        assert(e.0 == f.x && e.1 == f.y && e.2 == f.spec_right() && e.3 == f.spec_bottom());
        assert(group[0] == group.last());
        assert(e.0.value() == x * grain());
        assert(e.1.value() == y * grain());
        assert(e.2.value() == (x + w) * grain());
        assert(e.3.value() == (y + h) * grain());
    } else {
        assert forall|k: int| 0 <= k < rest.len() implies frame_on_grid((#[trigger] rest[k]).frame) by {
            assert(rest[k] == group[k]);
        }
        lemma_extent_of_group(rest);
        lemma_min_max(before.0, f.x);
        lemma_min_max(before.1, f.y);
        lemma_min_max(before.2, f.spec_right());
        lemma_min_max(before.3, f.spec_bottom());
        assert forall|k: int| 0 <= k < group.len() implies {
            let c = (#[trigger] group[k]).frame;
            &&& e.0.value() <= c.x.value()
            &&& e.1.value() <= c.y.value()
            &&& c.x.value() + c.w.value() <= e.2.value()
            &&& c.y.value() + c.h.value() <= e.3.value()
        } by {
            if k < n {
                assert(rest[k] == group[k]);
            }
        }
        let a = choose|k: int|
            0 <= k < rest.len() && before.0.value() == (#[trigger] rest[k]).frame.x.value();
        assert(group[a] == rest[a] && group[n] == group.last());
        let b = choose|k: int|
            0 <= k < rest.len() && before.1.value() == (#[trigger] rest[k]).frame.y.value();
        assert(group[b] == rest[b]);
        let c = choose|k: int|
            0 <= k < rest.len() && before.2.value() == (#[trigger] rest[k]).frame.x.value()
                + rest[k].frame.w.value();
        assert(group[c] == rest[c]);
        let d = choose|k: int|
            0 <= k < rest.len() && before.3.value() == (#[trigger] rest[k]).frame.y.value()
                + rest[k].frame.h.value();
        assert(group[d] == rest[d]);
        if e.0.value() == f.x.value() {
            assert(e.0.value() == x * grain());
        }
        if e.1.value() == f.y.value() {
            assert(e.1.value() == y * grain());
        }
        if e.2.value() == f.spec_right().value() {
            assert(e.2.value() == (x + w) * grain());
        }
        if e.3.value() == f.spec_bottom().value() {
            assert(e.3.value() == (y + h) * grain());
        }
    }
}

/// A quarter of a size on the grid is a number.
proof fn lemma_quarter(a: F64) -> (m: int)
    requires
        on_grid(a),
    ensures
        a.spec_over(F64 { bits: FOUR }).finite(),
        4 * a.spec_over(F64 { bits: FOUR }).value() == a.value(),
        a.spec_over(F64 { bits: FOUR }).value() == m * pow2(1056),
        a.value() == (4 * m) * pow2(1056),
        -0x8000_0000_0000 <= m <= 0x8000_0000_0000,
{
    let m = lemma_on_grid(a);
    let e = pow2(1056) as int;
    let o = one();
    lemma2_to64();
    lemma2_to64_rest();
    lemma_pow2_pos(1074);
    lemma_pow2_adds(2, 1056);
    assert(grain() == 4 * e);
    let four = F64 { bits: FOUR };
    lemma_whole_bits(FOUR, 4, 50);
    lemma_shifted_is_number(m, 1056);
    let z = choose|z: F64| z.finite() && #[trigger] z.value() == m * pow2(1056);
    assert(m * grain() == 4 * (m * e) && m * grain() == (4 * m) * e) by (nonlinear_arith)
        requires
            grain() == 4 * e,
    ;
    lemma_over(a, four);
    assert(z.value() * (4 * o) == a.value() * o) by (nonlinear_arith)
        requires
            a.value() == 4 * z.value(),
    ;
    lemma_exact(a.spec_over(four), a.value() * o, 4 * o, z);
    m
}

/// The arms of the corner marks are 14 long, but no longer than a quarter of either side.
pub proof fn law_corner_arms_fit_the_region(f: Frame)
    requires
        frame_on_grid(f),
    ensures
        corner_arm(f).finite(),
        corner_arm(f).value() <= 14 * one(),
        4 * corner_arm(f).value() <= f.w.value(),
        4 * corner_arm(f).value() <= f.h.value(),
        corner_arm(f).value() == 14 * one() || 4 * corner_arm(f).value() == f.w.value() || 4
            * corner_arm(f).value() == f.h.value(),
{
    let four = F64 { bits: FOUR };
    lemma2_to64_rest();
    lemma_pow2_pos(1074);
    lemma_whole_bits(CORNER_ARM, 14, 49);
    let w = lemma_quarter(f.w);
    let h = lemma_quarter(f.h);
    let arm = F64 { bits: CORNER_ARM };
    lemma_min_max(arm, f.w.spec_over(four));
    lemma_min_max(arm.spec_min(f.w.spec_over(four)), f.h.spec_over(four));
}

/// One place stands at an offset from another.
pub open spec fn stands_off(p: Point, from: Point, dx: int, dy: int) -> bool {
    &&& p.0.finite() && p.1.finite()
    &&& p.0.value() == from.0.value() + dx
    &&& p.1.value() == from.1.value() + dy
}

/// Each corner mark has its corner at one of the corners of the region, and its arms go from there
/// along the sides of the region, inwards.
pub proof fn law_corner_marks_hug_the_corners(f: Frame)
    requires
        frame_on_grid(f),
        f.w.value() > 0,
        f.h.value() > 0,
    ensures
        ({
            let m = corner_marks(f);
            let a = corner_arm(f).value();
            let corner = (f.x, f.y);
            let w = f.w.value();
            let h = f.h.value();
            &&& m.len() == 4
            &&& stands_off(m[0].1, corner, 0, 0) && stands_off(m[0].0, corner, 0, a)
                && stands_off(m[0].2, corner, a, 0)
            &&& stands_off(m[1].1, corner, w, 0) && stands_off(m[1].0, corner, w - a, 0)
                && stands_off(m[1].2, corner, w, a)
            &&& stands_off(m[2].1, corner, 0, h) && stands_off(m[2].0, corner, 0, h - a)
                && stands_off(m[2].2, corner, a, h)
            &&& stands_off(m[3].1, corner, w, h) && stands_off(m[3].0, corner, w - a, h)
                && stands_off(m[3].2, corner, w, h - a)
        }),
{
    let e = pow2(1056) as int;
    let x = lemma_quarter(f.x);
    let y = lemma_quarter(f.y);
    let w = lemma_quarter(f.w);
    let h = lemma_quarter(f.h);
    lemma_frame_sides(f);
    let arm = corner_arm(f);
    lemma2_to64();
    lemma2_to64_rest();
    lemma_pow2_pos(1074);
    lemma_pow2_pos(1056);
    lemma_pow2_adds(18, 1056);
    let four = F64 { bits: FOUR };
    lemma_whole_bits(CORNER_ARM, 14, 49);
    let full = F64 { bits: CORNER_ARM };
    lemma_min_max(full, f.w.spec_over(four));
    lemma_min_max(full.spec_min(f.w.spec_over(four)), f.h.spec_over(four));
    let a: int = if arm.value() == w * e {
        w
    } else if arm.value() == h * e {
        h
    } else {
        0x38_0000
    };
    assert(arm.value() == a * e);
    let r = 4 * x + 4 * w;
    let b = 4 * y + 4 * h;
    assert((4 * x) * e + (4 * w) * e == r * e) by (nonlinear_arith)
        requires
            r == 4 * x + 4 * w,
    ;
    assert((4 * y) * e + (4 * h) * e == b * e) by (nonlinear_arith)
        requires
            b == 4 * y + 4 * h,
    ;
    lemma_small_sum(f.x, arm, 4 * x, a);
    lemma_small_sum(f.y, arm, 4 * y, a);
    lemma_small_difference(f.spec_right(), arm, r, a);
    lemma_small_difference(f.spec_bottom(), arm, b, a);
}

proof fn lemma_small_sum(a: F64, b: F64, m: int, n: int)
    requires
        a.finite(),
        b.finite(),
        a.value() == m * pow2(1056),
        b.value() == n * pow2(1056),
        -0x20_0000_0000_0000 < m + n < 0x20_0000_0000_0000,
    ensures
        a.spec_plus(b).finite(),
        a.spec_plus(b).value() == a.value() + b.value(),
{
    let e = pow2(1056) as int;
    assert(m * e + n * e == (m + n) * e) by (nonlinear_arith);
    lemma_shifted_is_number(m + n, 1056);
    lemma_plus(a, b);
    lemma_exact_whole(a.spec_plus(b), (m + n) * e);
}

proof fn lemma_small_difference(a: F64, b: F64, m: int, n: int)
    requires
        a.finite(),
        b.finite(),
        a.value() == m * pow2(1056),
        b.value() == n * pow2(1056),
        -0x20_0000_0000_0000 < m - n < 0x20_0000_0000_0000,
    ensures
        a.spec_minus(b).finite(),
        a.spec_minus(b).value() == a.value() - b.value(),
{
    let e = pow2(1056) as int;
    assert(m * e - n * e == (m - n) * e) by (nonlinear_arith);
    lemma_shifted_is_number(m - n, 1056);
    lemma_minus(a, b);
    lemma_exact_whole(a.spec_minus(b), (m - n) * e);
}

/// While a region is being framed, and once it is, the ground is darkened around it and it is
/// outlined; only once it is framed has it corner marks. Where there is none, the whole ground is
/// darkened, less than around a region.
pub proof fn law_the_ground_is_darkened_around_what_is_framed(v: Scene)
    ensures
        ({
            let s = shades_of(v);
            let width = F64::of_nat(v.size.0 as nat);
            let height = F64::of_nat(v.size.1 as nat);
            &&& s.outlined is Some <==> v.framing is Some || v.locked is Some
            &&& s.outlined matches Some(f) ==> s.shaded == around(f, width, height)
            &&& v.framing matches Some(d) ==> s.outlined == Some(spanned(d.start, d.current))
            &&& v.framing is None ==> s.outlined == v.locked
            &&& s.corners.len() > 0 <==> v.framing is None && v.locked is Some
            &&& s.corners.len() > 0 ==> s.corners == corner_marks(v.locked->0)
            &&& s.outlined is None ==> s.shaded.len() == 1 && s.shaded[0].w == width
                && s.shaded[0].h == height && s.shaded[0].x.value() == 0 && s.shaded[0].y.value()
                == 0
            &&& s.shade.finite()
            &&& 99 * (100 * s.shade.value()) <= 100 * (one() * (if v.framing is Some {
                35int
            } else if v.locked is Some {
                38int
            } else {
                22int
            })) <= 101 * (100 * s.shade.value())
        }),
{
    lemma2_to64();
    lemma2_to64_rest();
    lemma_pow2_pos(1074);
    lemma_fraction_bits(FRAMING_SHADE, 0x16_6666_6666_6666, 54);
    lemma_fraction_bits(LOCKED_SHADE, 0x18_51eb_851e_b852, 54);
    lemma_fraction_bits(PLAIN_SHADE, 0x1c_28f5_c28f_5c29, 55);
    let zero = F64 { bits: ZERO };
    lemma_rank_is_value(Format::Double, zero.datum(), zero.datum());
    let f = F64 { bits: FRAMING_SHADE };
    let l = F64 { bits: LOCKED_SHADE };
    let p = F64 { bits: PLAIN_SHADE };
    assert(99 * (100 * f.value()) <= 3500 * one() <= 101 * (100 * f.value()));
    assert(99 * (100 * l.value()) <= 3800 * one() <= 101 * (100 * l.value()));
    assert(99 * (100 * p.value()) <= 2200 * one() <= 101 * (100 * p.value()));
}

} // verus!
