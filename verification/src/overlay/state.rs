//! The state of the overlay and what changes it.

use vstd::prelude::*;
use crate::float::F64;
use crate::ocr::detection::arranged;
use crate::ocr::pipeline::join_words;
use crate::ocr::pipeline::{joined_text, ref_views};
use crate::ocr::words::{DetectedWord, Frame};
use crate::ocr::words::{Word, views};
use crate::overlay::copying::join_touching;
use crate::overlay::copying::text_touching;
use crate::overlay::selection::{
    Point, find_pointed, find_selectable, is_over_a_word, lies_outside, select_words_in_flow,
};
use crate::overlay::selection::{
    first_pointed, flow_of, is_outside, over_a_word, selectable,
};
use crate::sorting::{Key, sort_positions};
use crate::sorting::{covers, stable_order};

verus! {

/// The least side of a region that is framed, as bits of a 64-bit number: 8.
pub const LEAST_REGION_SIDE: u64 = 0x4020_0000_0000_0000;

/// A drag shorter than this is a click, as bits of a 64-bit number: 4.
pub const CLICK_SIDE: u64 = 0x4010_0000_0000_0000;

/// A drag: where it began and where it is.
#[derive(Clone, Copy, Debug)]
pub struct Drag {
    pub start: Point,
    pub current: Point,
}

/// The language that text is read in.
#[derive(Clone, Copy, Debug, PartialEq, Eq, Structural)]
pub enum Language {
    Turkish,
    English,
}

/// The pointer that is shown.
#[derive(Clone, Copy, Debug, PartialEq, Eq, Structural)]
pub enum Cursor {
    Crosshair,
    Text,
}

/// A part of the picture in whole pixels.
#[derive(Clone, Copy, Debug, PartialEq, Eq, Structural)]
pub struct CropRect {
    pub x: u32,
    pub y: u32,
    pub width: u32,
    pub height: u32,
}

/// The state of the overlay.
#[derive(Debug)]
pub struct Overlay {
    /// The size of the picture of the screen.
    pub size: (u32, u32),
    /// There is a picture of the screen.
    pub pictured: bool,
    /// The region that is framed.
    pub locked: Option<Frame>,
    /// The drag that frames a region.
    pub framing: Option<Drag>,
    /// The drag that selects text.
    pub text_drag: Option<Drag>,
    pub language: Language,
    /// The text that was selected last.
    pub cached: Option<String>,
    /// The words that were found in the picture.
    pub words: Vec<DetectedWord>,
    /// The words that are selected, by their positions.
    pub selected: Vec<usize>,
    pub cursor: Cursor,
}

/// The state of the overlay as a mathematical value.
#[verifier::ext_equal]
pub struct Scene {
    pub size: (u32, u32),
    pub pictured: bool,
    pub locked: Option<Frame>,
    pub framing: Option<Drag>,
    pub text_drag: Option<Drag>,
    pub language: Language,
    pub cached: Option<Seq<char>>,
    pub words: Seq<Word>,
    pub selected: Seq<usize>,
    pub cursor: Cursor,
}

pub open spec fn text_view(t: Option<String>) -> Option<Seq<char>> {
    match t {
        Some(s) => Some(s@),
        None => None,
    }
}

impl View for Overlay {
    type V = Scene;

    open spec fn view(&self) -> Scene {
        Scene {
            size: self.size,
            pictured: self.pictured,
            locked: self.locked,
            framing: self.framing,
            text_drag: self.text_drag,
            language: self.language,
            cached: text_view(self.cached),
            words: views(self.words@),
            selected: self.selected@,
            cursor: self.cursor,
        }
    }
}

impl Scene {
    /// No region is framed while text is selected by dragging.
    pub open spec fn wf(self) -> bool {
        !(self.framing is Some && self.text_drag is Some)
    }
}

/// The size that is taken where there is no picture of the screen.
pub const DEFAULT_WIDTH: u32 = 1920;

/// The size that is taken where there is no picture of the screen.
pub const DEFAULT_HEIGHT: u32 = 1080;

/// The state at the beginning.
pub open spec fn first_scene(picture: Option<(u32, u32)>) -> Scene {
    Scene {
        size: match picture {
            Some(size) => size,
            None => (DEFAULT_WIDTH, DEFAULT_HEIGHT),
        },
        pictured: picture is Some,
        locked: None,
        framing: None,
        text_drag: None,
        language: Language::Turkish,
        cached: None,
        words: Seq::empty(),
        selected: Seq::empty(),
        cursor: Cursor::Crosshair,
    }
}

/// How many pixels of the picture there are to one of the area it is shown in.
pub open spec fn image_ratio(side: u32, shown: i32) -> F64 {
    F64::of_nat(side as nat).spec_over(F64::of_int(if shown > 1 {
        shown as int
    } else {
        1
    }))
}

/// A distance in the area, as a distance in the picture.
pub open spec fn in_picture(size: (u32, u32), area: (i32, i32), p: Point) -> Point {
    (
        p.0.spec_times(image_ratio(size.0, area.0)),
        p.1.spec_times(image_ratio(size.1, area.1)),
    )
}

/// A place in the picture, as a place in the area.
pub open spec fn in_area(size: (u32, u32), area: (i32, i32), p: Point) -> Point {
    (
        p.0.spec_over(image_ratio(size.0, area.0)),
        p.1.spec_over(image_ratio(size.1, area.1)),
    )
}

/// A place lies in a region.
pub open spec fn is_inside(p: Point, region: Frame) -> bool {
    &&& region.x.spec_at_most(p.0)
    &&& p.0.spec_at_most(region.spec_right())
    &&& region.y.spec_at_most(p.1)
    &&& p.1.spec_at_most(region.spec_bottom())
}

/// A new region begins to be framed at a place.
pub open spec fn framing_from(v: Scene, p: Point) -> Scene {
    Scene {
        locked: None,
        text_drag: None,
        framing: Some(Drag { start: p, current: p }),
        selected: Seq::empty(),
        cached: None,
        ..v
    }
}

/// A drag begins at a place: in the framed region it selects text, elsewhere it frames a new
/// region.
pub open spec fn dragging_from(v: Scene, p: Point) -> Scene {
    if v.locked matches Some(region) && is_inside(p, region) {
        Scene {
            text_drag: Some(Drag { start: p, current: p }),
            framing: None,
            selected: Seq::empty(),
            cached: None,
            ..v
        }
    } else {
        framing_from(v, p)
    }
}

/// The place at an offset from another.
pub open spec fn offset_by(p: Point, off: Point) -> Point {
    (p.0.spec_plus(off.0), p.1.spec_plus(off.1))
}

/// The framing drag has moved to an offset from its beginning.
pub open spec fn framing_to(v: Scene, off: Point) -> Scene {
    match v.framing {
        Some(d) => Scene {
            framing: Some(Drag { start: d.start, current: offset_by(d.start, off) }),
            ..v
        },
        None => v,
    }
}

/// The drag has moved to an offset from its beginning.
pub open spec fn dragging_to(v: Scene, off: Point) -> Scene {
    match v.text_drag {
        Some(d) => {
            let current = offset_by(d.start, off);
            Scene {
                text_drag: Some(Drag { start: d.start, current }),
                selected: flow_of(v.words, d.start, current, v.locked),
                ..v
            }
        },
        None => framing_to(v, off),
    }
}

/// The rectangle that a drag spans.
pub open spec fn spanned(start: Point, current: Point) -> Frame {
    Frame {
        x: start.0.spec_min(current.0),
        y: start.1.spec_min(current.1),
        w: start.0.spec_minus(current.0).spec_abs(),
        h: start.1.spec_minus(current.1).spec_abs(),
    }
}

/// The region that a drag frames, if it is large enough.
pub open spec fn framed_region(start: Point, current: Point) -> Option<Frame> {
    let f = spanned(start, current);
    let least = F64 { bits: LEAST_REGION_SIDE };
    if least.spec_at_most(f.w) && least.spec_at_most(f.h) {
        Some(f)
    } else {
        None
    }
}

/// The framing drag has ended at an offset from its beginning.
pub open spec fn framing_ended(v: Scene, off: Point) -> Scene {
    match v.framing {
        Some(d) => Scene {
            framing: None,
            locked: framed_region(d.start, offset_by(d.start, off)),
            selected: Seq::empty(),
            cached: None,
            ..v
        },
        None => v,
    }
}

/// The words at positions, those beyond the last left out.
pub open spec fn picked(words: Seq<Word>, selected: Seq<usize>) -> Seq<Word>
    decreases selected.len(),
{
    if selected.len() == 0 {
        Seq::empty()
    } else {
        let before = picked(words, selected.drop_last());
        if selected.last() < words.len() {
            before.push(words[selected.last() as int])
        } else {
            before
        }
    }
}

/// The words that a drag that selects text has selected when it ends: a click selects the word
/// that it points at.
pub open spec fn selected_by(v: Scene, start: Point, current: Point) -> Seq<usize> {
    let f = spanned(start, current);
    let click = F64 { bits: CLICK_SIDE };
    if f.w.spec_less(click) && f.h.spec_less(click) {
        let i = first_pointed(v.words, start, 0);
        if i < v.words.len() {
            seq![i as usize]
        } else {
            Seq::empty()
        }
    } else {
        flow_of(v.words, start, current, v.locked)
    }
}

/// The drag that selects text has ended at an offset from its beginning.
pub open spec fn text_drag_ended(v: Scene, off: Point) -> Scene {
    match v.text_drag {
        Some(d) => {
            let selected = selected_by(v, d.start, offset_by(d.start, off));
            let words = picked(v.words, selected);
            Scene {
                text_drag: None,
                selected,
                cached: if words.len() > 0 {
                    Some(joined_text(words))
                } else {
                    None
                },
                ..v
            }
        },
        None => v,
    }
}

/// The drag has ended at an offset from its beginning.
pub open spec fn drag_ended(v: Scene, off: Point) -> Scene {
    if v.framing is Some {
        framing_ended(v, off)
    } else {
        text_drag_ended(v, off)
    }
}

/// The whole pixels of a picture that a region covers. There is one pixel at least.
pub open spec fn crop_of(region: Frame, size: (u32, u32)) -> CropRect {
    let x = least_of(region.x.spec_round_u32() as int, less_one(size.0));
    let y = least_of(region.y.spec_round_u32() as int, less_one(size.1));
    let w = least_of(region.w.spec_round_u32() as int, size.0 - x);
    let h = least_of(region.h.spec_round_u32() as int, size.1 - y);
    CropRect {
        x: x as u32,
        y: y as u32,
        width: (if w > 1 {
            w
        } else {
            1
        }) as u32,
        height: (if h > 1 {
            h
        } else {
            1
        }) as u32,
    }
}

pub open spec fn least_of(a: int, b: int) -> int {
    if a < b {
        a
    } else {
        b
    }
}

pub open spec fn less_one(n: u32) -> int {
    if n > 0 {
        n - 1
    } else {
        0
    }
}

/// Words found in a part of the picture, as words of the picture.
pub open spec fn shifted(words: Seq<Word>, crop: CropRect) -> Seq<Word> {
    Seq::new(
        words.len(),
        |i: int|
            Word {
                frame: Frame {
                    x: words[i].frame.x.spec_plus(F64::of_nat(crop.x as nat)),
                    y: words[i].frame.y.spec_plus(F64::of_nat(crop.y as nat)),
                    ..words[i].frame
                },
                ..words[i]
            },
    )
}

/// The words outside a region.
pub open spec fn words_outside(words: Seq<Word>, region: Frame) -> Seq<Word> {
    words.filter(|w: Word| is_outside(w.frame, region))
}

/// What words are put in order by: paragraph, line and left side.
pub open spec fn reading_keys(words: Seq<Word>) -> Seq<Key> {
    Seq::new(
        words.len(),
        |i: int|
            (words[i].par_num as u64, words[i].line_num as u64, words[i].frame.x.order() as u64),
    )
}

/// Words by paragraph and line, each line from left to right.
pub open spec fn in_reading_order(words: Seq<Word>) -> Seq<Word> {
    arranged(words, stable_order(reading_keys(words)))
}

/// The words after those of a region have been found anew.
pub open spec fn merged(
    words: Seq<Word>,
    region: Frame,
    crop: CropRect,
    found: Seq<Word>,
) -> Seq<Word> {
    in_reading_order(words_outside(words, region) + shifted(found, crop))
}

/// All words that can be selected are selected.
pub open spec fn all_selected(v: Scene) -> Scene {
    let selected = selectable(v.words, v.locked);
    let words = picked(v.words, selected);
    Scene {
        selected,
        cached: if words.len() > 0 {
            Some(joined_text(words))
        } else {
            v.cached
        },
        ..v
    }
}

/// Nothing is framed or selected.
pub open spec fn all_reset(v: Scene) -> Scene {
    Scene { locked: None, selected: Seq::empty(), cached: None, ..v }
}

/// The escape key takes back one thing: the selection, or else the framed region.
pub open spec fn escaped(v: Scene) -> Scene {
    if v.selected.len() > 0 {
        Scene { selected: Seq::empty(), cached: None, ..v }
    } else if v.locked is Some {
        Scene { locked: None, cached: None, ..v }
    } else {
        v
    }
}

/// The pointer that is shown at a place.
pub open spec fn cursor_at(v: Scene, p: Point) -> Cursor {
    if over_a_word(v.words, p, v.locked) || v.text_drag is Some {
        Cursor::Text
    } else {
        Cursor::Crosshair
    }
}

/// What is done when a drag has ended.
#[derive(Clone, Copy, Debug)]
pub enum DragEnd {
    /// Nothing.
    Nothing,
    /// The region that was framed is gone.
    Cleared,
    /// A region has been framed. Where there is a picture, its words in the crop are to be read.
    Framed { region: Frame, crop: Option<CropRect> },
    /// Text has been selected. Where some has, copying it is to be offered at the place.
    Selected { offer: Option<Point> },
}

/// What is done when the drag has ended at an offset from its beginning.
pub open spec fn drag_end_of(v: Scene, area: (i32, i32), off: Point) -> DragEnd {
    if let Some(d) = v.framing {
        match framed_region(d.start, offset_by(d.start, off)) {
            Some(region) => DragEnd::Framed {
                region,
                crop: if v.pictured {
                    Some(crop_of(region, v.size))
                } else {
                    None
                },
            },
            None => DragEnd::Cleared,
        }
    } else if let Some(d) = v.text_drag {
        let current = offset_by(d.start, off);
        DragEnd::Selected {
            offer: if picked(v.words, selected_by(v, d.start, current)).len() > 0 {
                Some(in_area(v.size, area, current))
            } else {
                None
            },
        }
    } else {
        DragEnd::Nothing
    }
}

/// Computes [`image_ratio`].
pub fn find_ratio(side: u32, shown: i32) -> (r: F64)
    ensures
        r == image_ratio(side, shown),
{
    F64::of_count(side as u64).over(
        F64::of_i32(
            if shown > 1 {
                shown
            } else {
                1
            },
        ),
    )
}

fn lies_inside(p: Point, region: Frame) -> (r: bool)
    ensures
        r == is_inside(p, region),
{
    region.x.at_most(p.0) && p.0.at_most(region.right()) && region.y.at_most(p.1) && p.1.at_most(
        region.bottom(),
    )
}

fn moved_by(p: Point, off: Point) -> (r: Point)
    ensures
        r == offset_by(p, off),
{
    (p.0.plus(off.0), p.1.plus(off.1))
}

/// The rectangle that a drag spans.
pub fn find_span(start: Point, current: Point) -> (r: Frame)
    ensures
        r == spanned(start, current),
{
    Frame {
        x: start.0.min(current.0),
        y: start.1.min(current.1),
        w: start.0.minus(current.0).abs(),
        h: start.1.minus(current.1).abs(),
    }
}

fn find_region(start: Point, current: Point) -> (r: Option<Frame>)
    ensures
        r == framed_region(start, current),
{
    let f: Frame = find_span(start, current);
    let least: F64 = F64 { bits: LEAST_REGION_SIDE };
    if least.at_most(f.w) && least.at_most(f.h) {
        Some(f)
    } else {
        None
    }
}

/// The whole pixels of a picture that a region covers.
pub fn find_crop(region: Frame, size: (u32, u32)) -> (r: CropRect)
    ensures
        r == crop_of(region, size),
{
    let x: u32 = lesser(
        region.x.round_u32(),
        if size.0 > 0 {
            size.0 - 1
        } else {
            0
        },
    );
    let y: u32 = lesser(
        region.y.round_u32(),
        if size.1 > 0 {
            size.1 - 1
        } else {
            0
        },
    );
    let w: u32 = lesser(region.w.round_u32(), size.0 - x);
    let h: u32 = lesser(region.h.round_u32(), size.1 - y);
    CropRect {
        x,
        y,
        width: if w > 1 {
            w
        } else {
            1
        },
        height: if h > 1 {
            h
        } else {
            1
        },
    }
}

fn lesser(a: u32, b: u32) -> (r: u32)
    ensures
        r == least_of(a as int, b as int),
{
    if a < b {
        a
    } else {
        b
    }
}

/// Joins the words at positions, if there are any.
pub fn join_picked(words: &Vec<DetectedWord>, selected: &Vec<usize>) -> (r: Option<String>)
    ensures
        text_view(r) == (if picked(views(words@), selected@).len() > 0 {
            Some(joined_text(picked(views(words@), selected@)))
        } else {
            None
        }),
{
    let mut refs: Vec<&DetectedWord> = Vec::new();
    let ghost v = views(words@);
    let mut i: usize = 0;
    proof {
        assert(selected@.take(0) =~= Seq::<usize>::empty());
        assert(ref_views(refs@) =~= picked(v, selected@.take(0)));
    }
    while i < selected.len()
        invariant
            i <= selected@.len(),
            v == views(words@),
            ref_views(refs@) == picked(v, selected@.take(i as int)),
        decreases selected@.len() - i,
    {
        let at: usize = selected[i];
        let ghost before = refs@;
        proof {
            assert(selected@.take(i + 1).drop_last() =~= selected@.take(i as int));
            assert(selected@.take(i + 1).last() == at);
        }
        if at < words.len() {
            refs.push(&words[at]);
            proof {
                assert(ref_views(refs@) =~= ref_views(before).push(v[at as int]));
            }
        }
        i = i + 1;
    }
    proof {
        assert(selected@.take(i as int) =~= selected@);
        assert(refs@.len() == ref_views(refs@).len());
    }
    if refs.len() > 0 {
        Some(join_words(refs.as_slice()))
    } else {
        None
    }
}

/// Copies of the words at positions.
pub fn picked_words(words: &Vec<DetectedWord>, selected: &Vec<usize>) -> (r: Vec<DetectedWord>)
    ensures
        views(r@) == picked(views(words@), selected@),
{
    let mut r: Vec<DetectedWord> = Vec::new();
    let ghost v = views(words@);
    let mut i: usize = 0;
    proof {
        assert(selected@.take(0) =~= Seq::<usize>::empty());
        assert(views(r@) =~= picked(v, selected@.take(0)));
    }
    while i < selected.len()
        invariant
            i <= selected@.len(),
            v == views(words@),
            views(r@) == picked(v, selected@.take(i as int)),
        decreases selected@.len() - i,
    {
        let at: usize = selected[i];
        let ghost before = r@;
        proof {
            assert(selected@.take(i + 1).drop_last() =~= selected@.take(i as int));
            assert(selected@.take(i + 1).last() == at);
        }
        if at < words.len() {
            let word: DetectedWord = words[at].clone();
            r.push(word);
            proof {
                assert(views(r@) =~= views(before).push(v[at as int]));
            }
        }
        i = i + 1;
    }
    proof {
        assert(selected@.take(i as int) =~= selected@);
    }
    r
}

/// Puts words by paragraph and line, each line from left to right.
pub fn put_in_order(words: &Vec<DetectedWord>) -> (r: Vec<DetectedWord>)
    ensures
        views(r@) == in_reading_order(views(words@)),
{
    let ghost all = views(words@);
    let ghost wanted = reading_keys(all);
    let mut keys: Vec<Key> = Vec::new();
    let mut j: usize = 0;
    while j < words.len()
        invariant
            j <= words@.len(),
            all == views(words@),
            wanted == reading_keys(all),
            keys@ == wanted.take(j as int),
        decreases words@.len() - j,
    {
        keys.push((words[j].par_num as u64, words[j].line_num as u64, words[j].x.order_key()));
        j = j + 1;
        proof {
            assert(keys@ =~= wanted.take(j as int));
        }
    }
    proof {
        assert(keys@ =~= wanted);
    }
    let order: Vec<usize> = sort_positions(&keys);
    let mut r: Vec<DetectedWord> = Vec::new();
    let mut k: usize = 0;
    let ghost target = in_reading_order(all);
    while k < order.len()
        invariant
            k <= order@.len(),
            order@ == stable_order(wanted),
            covers(order@, words@.len()),
            all == views(words@),
            target == arranged(all, order@),
            views(r@) == target.take(k as int),
        decreases order@.len() - k,
    {
        let ghost before = r@;
        let word: DetectedWord = words[order[k]].clone();
        let ghost v = word@;
        r.push(word);
        k = k + 1;
        proof {
            assert(views(r@) =~= views(before).push(v));
            assert(views(r@) =~= target.take(k as int));
        }
    }
    proof {
        assert(target.take(k as int) =~= target);
    }
    r
}

/// The words after those of a region have been found anew in a crop of the picture: the words
/// outside the region are kept, those in it are replaced.
pub fn merge_words(
    words: &Vec<DetectedWord>,
    region: Frame,
    crop: CropRect,
    found: &Vec<DetectedWord>,
) -> (r: Vec<DetectedWord>)
    ensures
        views(r@) == merged(views(words@), region, crop, views(found@)),
{
    let mut all: Vec<DetectedWord> = Vec::new();
    let ghost v = views(words@);
    let ghost keep = |w: Word| is_outside(w.frame, region);
    let mut i: usize = 0;
    proof {
        reveal(Seq::filter);
        assert(v.take(0) =~= Seq::<Word>::empty());
        assert(views(all@) =~= v.take(0).filter(keep));
    }
    while i < words.len()
        invariant
            i <= words@.len(),
            v == views(words@),
            keep == (|w: Word| is_outside(w.frame, region)),
            views(all@) == v.take(i as int).filter(keep),
        decreases words@.len() - i,
    {
        proof {
            reveal(Seq::filter);
            assert(v.take(i + 1).drop_last() =~= v.take(i as int));
            assert(v.take(i + 1).last() == words@[i as int]@);
        }
        if lies_outside(words[i].frame(), region) {
            let ghost before = all@;
            let word: DetectedWord = words[i].clone();
            all.push(word);
            proof {
                assert(views(all@) =~= views(before).push(words@[i as int]@));
            }
        }
        i = i + 1;
    }
    let ghost head = views(all@);
    let ghost moved = shifted(views(found@), crop);
    proof {
        assert(v.take(i as int) =~= v);
        assert(views(all@) =~= head + moved.take(0));
    }
    let dx: F64 = F64::of_count(crop.x as u64);
    let dy: F64 = F64::of_count(crop.y as u64);
    let mut k: usize = 0;
    while k < found.len()
        invariant
            k <= found@.len(),
            dx == F64::of_nat(crop.x as nat),
            dy == F64::of_nat(crop.y as nat),
            moved == shifted(views(found@), crop),
            views(all@) == head + moved.take(k as int),
        decreases found@.len() - k,
    {
        let ghost before = all@;
        let mut word: DetectedWord = found[k].clone();
        word.x = word.x.plus(dx);
        word.y = word.y.plus(dy);
        let ghost w = word@;
        all.push(word);
        proof {
            assert(w == moved[k as int]);
            assert(views(all@) =~= views(before).push(w));
            assert(views(all@) =~= head + moved.take(k + 1));
        }
        k = k + 1;
    }
    proof {
        assert(moved.take(k as int) =~= moved);
    }
    put_in_order(&all)
}

impl Overlay {
    /// The overlay over a picture of the screen, if there is one.
    pub fn new(picture: Option<(u32, u32)>) -> (r: Overlay)
        ensures
            r@ == first_scene(picture),
    {
        let words: Vec<DetectedWord> = Vec::new();
        let selected: Vec<usize> = Vec::new();
        proof {
            assert(views(words@) =~= Seq::<Word>::empty());
        }
        Overlay {
            size: match picture {
                Some(size) => size,
                None => (DEFAULT_WIDTH, DEFAULT_HEIGHT),
            },
            pictured: picture.is_some(),
            locked: None,
            framing: None,
            text_drag: None,
            language: Language::Turkish,
            cached: None,
            words,
            selected,
            cursor: Cursor::Crosshair,
        }
    }

    fn to_picture(&self, area: (i32, i32), p: Point) -> (r: Point)
        ensures
            r == in_picture(self.size, area, p),
    {
        (
            p.0.times(find_ratio(self.size.0, area.0)),
            p.1.times(find_ratio(self.size.1, area.1)),
        )
    }

    fn to_area(&self, area: (i32, i32), p: Point) -> (r: Point)
        ensures
            r == in_area(self.size, area, p),
    {
        (p.0.over(find_ratio(self.size.0, area.0)), p.1.over(find_ratio(self.size.1, area.1)))
    }

    /// The words have been found.
    pub fn set_words(&mut self, words: Vec<DetectedWord>)
        ensures
            final(self)@ == (Scene { words: views(words@), ..old(self)@ }),
    {
        self.words = words;
    }

    /// Another language has been chosen.
    pub fn set_language(&mut self, language: Language)
        ensures
            final(self)@ == (Scene { language, ..old(self)@ }),
    {
        self.language = language;
    }

    /// A drag begins at a place in the area that the picture is shown in.
    pub fn drag_begin(&mut self, area: (i32, i32), start: Point)
        ensures
            final(self)@ == dragging_from(
                old(self)@,
                in_picture(old(self).size, area, start),
            ),
    {
        let p: Point = self.to_picture(area, start);
        let inside: bool = match self.locked {
            Some(region) => lies_inside(p, region),
            None => false,
        };
        if inside {
            self.text_drag = Some(Drag { start: p, current: p });
            self.framing = None;
            self.selected = Vec::new();
            self.cached = None;
        } else {
            self.frame_at(p);
        }
    }

    fn frame_at(&mut self, p: Point)
        ensures
            final(self)@ == framing_from(old(self)@, p),
    {
        self.locked = None;
        self.text_drag = None;
        self.framing = Some(Drag { start: p, current: p });
        self.selected = Vec::new();
        self.cached = None;
    }

    /// A drag with the other button begins at a place in the area: it always frames a new region.
    pub fn frame_begin(&mut self, area: (i32, i32), start: Point)
        ensures
            final(self)@ == framing_from(old(self)@, in_picture(old(self).size, area, start)),
    {
        let p: Point = self.to_picture(area, start);
        self.frame_at(p);
    }

    /// The drag has moved to an offset from its beginning. What is shown changes where a region
    /// is being framed, or where the selection is another than before.
    pub fn drag_update(&mut self, area: (i32, i32), offset: Point) -> (redraw: bool)
        ensures
            final(self)@ == dragging_to(old(self)@, in_picture(old(self).size, area, offset)),
            redraw == (if old(self).text_drag is Some {
                final(self)@.selected != old(self)@.selected
            } else {
                old(self).framing is Some
            }),
    {
        let off: Point = self.to_picture(area, offset);
        match self.text_drag {
            Some(d) => {
                let current: Point = moved_by(d.start, off);
                self.text_drag = Some(Drag { start: d.start, current });
                let selected: Vec<usize> = select_words_in_flow(
                    self.words.as_slice(),
                    d.start,
                    current,
                    self.locked,
                );
                let same: bool = same_positions(&selected, &self.selected);
                self.selected = selected;
                !same
            },
            None => self.frame_to(off),
        }
    }

    fn frame_to(&mut self, off: Point) -> (redraw: bool)
        ensures
            final(self)@ == framing_to(old(self)@, off),
            redraw == (old(self).framing is Some),
    {
        match self.framing {
            Some(d) => {
                self.framing = Some(Drag { start: d.start, current: moved_by(d.start, off) });
                true
            },
            None => false,
        }
    }

    /// The drag with the other button has moved to an offset from its beginning.
    pub fn frame_update(&mut self, area: (i32, i32), offset: Point) -> (redraw: bool)
        ensures
            final(self)@ == framing_to(old(self)@, in_picture(old(self).size, area, offset)),
            redraw == (old(self).framing is Some),
    {
        let off: Point = self.to_picture(area, offset);
        self.frame_to(off)
    }

    fn finish_framing(&mut self, d: Drag, off: Point) -> (r: DragEnd)
        requires
            old(self).framing == Some(d),
        ensures
            final(self)@ == framing_ended(old(self)@, off),
            forall|area: (i32, i32)| r == #[trigger] drag_end_of(old(self)@, area, off),
    {
        let region: Option<Frame> = find_region(d.start, moved_by(d.start, off));
        self.framing = None;
        self.locked = region;
        self.selected = Vec::new();
        self.cached = None;
        match region {
            Some(f) => DragEnd::Framed {
                region: f,
                crop: if self.pictured {
                    Some(find_crop(f, self.size))
                } else {
                    None
                },
            },
            None => DragEnd::Cleared,
        }
    }

    /// The drag has ended at an offset from its beginning. A drag that framed a large enough
    /// region leaves it framed; one that selected text keeps the text.
    pub fn drag_end(&mut self, area: (i32, i32), offset: Point) -> (r: DragEnd)
        ensures
            final(self)@ == drag_ended(old(self)@, in_picture(old(self).size, area, offset)),
            r == drag_end_of(old(self)@, area, in_picture(old(self).size, area, offset)),
    {
        let off: Point = self.to_picture(area, offset);
        if let Some(d) = self.framing {
            return self.finish_framing(d, off);
        }
        match self.text_drag {
            Some(d) => {
                let current: Point = moved_by(d.start, off);
                let f: Frame = find_span(d.start, current);
                let click: F64 = F64 { bits: CLICK_SIDE };
                self.text_drag = None;
                self.selected = if f.w.less(click) && f.h.less(click) {
                    match find_pointed(&self.words, d.start) {
                        Some(i) => vec![i],
                        None => Vec::new(),
                    }
                } else {
                    select_words_in_flow(self.words.as_slice(), d.start, current, self.locked)
                };
                proof {
                    assert(self.selected@ =~= selected_by(old(self)@, d.start, current));
                }
                self.cached = join_picked(&self.words, &self.selected);
                let offer: Option<Point> = if self.cached.is_some() {
                    Some(self.to_area(area, current))
                } else {
                    None
                };
                DragEnd::Selected { offer }
            },
            None => DragEnd::Nothing,
        }
    }

    /// The drag with the other button has ended at an offset from its beginning.
    pub fn frame_end(&mut self, area: (i32, i32), offset: Point) -> (r: DragEnd)
        ensures
            final(self)@ == framing_ended(old(self)@, in_picture(old(self).size, area, offset)),
            r == (if old(self).framing is Some {
                drag_end_of(old(self)@, area, in_picture(old(self).size, area, offset))
            } else {
                DragEnd::Nothing
            }),
    {
        let off: Point = self.to_picture(area, offset);
        match self.framing {
            Some(d) => self.finish_framing(d, off),
            None => DragEnd::Nothing,
        }
    }

    /// The words of a framed region have been found in a crop of the picture. Gives the text of
    /// the region, which is copied at once, where there is any.
    pub fn words_found(
        &mut self,
        region: Frame,
        crop: CropRect,
        found: &Vec<DetectedWord>,
    ) -> (copied: Option<String>)
        ensures
            final(self)@ == (Scene {
                words: merged(old(self)@.words, region, crop, views(found@)),
                ..old(self)@
            }),
            text_view(copied) == text_touching(final(self)@.words, region),
    {
        self.words = merge_words(&self.words, region, crop, found);
        join_touching(&self.words, region)
    }

    /// Selects all words that can be selected.
    pub fn select_all(&mut self)
        ensures
            final(self)@ == all_selected(old(self)@),
    {
        self.selected = find_selectable(&self.words, self.locked);
        match join_picked(&self.words, &self.selected) {
            Some(text) => {
                self.cached = Some(text);
            },
            None => {},
        }
    }

    /// Takes back what is framed and selected.
    pub fn reset(&mut self)
        ensures
            final(self)@ == all_reset(old(self)@),
    {
        self.locked = None;
        self.selected = Vec::new();
        self.cached = None;
    }

    /// Takes back one thing. Where there is nothing to take back, the overlay is to be closed.
    pub fn escape(&mut self) -> (close: bool)
        ensures
            final(self)@ == escaped(old(self)@),
            close == (old(self)@.selected.len() == 0 && old(self)@.locked is None),
    {
        if self.selected.len() > 0 {
            self.selected = Vec::new();
            self.cached = None;
            false
        } else if self.locked.is_some() {
            self.locked = None;
            self.cached = None;
            false
        } else {
            true
        }
    }

    /// The pointer is at a place. Where another pointer is to be shown, says which.
    pub fn point(&mut self, p: Point) -> (changed: Option<Cursor>)
        ensures
            final(self)@ == (Scene { cursor: cursor_at(old(self)@, p), ..old(self)@ }),
            changed == (if cursor_at(old(self)@, p) == old(self).cursor {
                None
            } else {
                Some(cursor_at(old(self)@, p))
            }),
    {
        let wanted: Cursor = if is_over_a_word(&self.words, p, self.locked)
            || self.text_drag.is_some() {
            Cursor::Text
        } else {
            Cursor::Crosshair
        };
        if wanted == self.cursor {
            None
        } else {
            self.cursor = wanted;
            Some(wanted)
        }
    }
}

/// Whether two lists of positions are the same.
fn same_positions(a: &Vec<usize>, b: &Vec<usize>) -> (r: bool)
    ensures
        r == (a@ == b@),
{
    if a.len() != b.len() {
        return false;
    }
    let mut i: usize = 0;
    while i < a.len()
        invariant
            i <= a@.len() == b@.len(),
            forall|k: int| 0 <= k < i ==> a@[k] == b@[k],
        decreases a@.len() - i,
    {
        if a[i] != b[i] {
            return false;
        }
        i = i + 1;
    }
    proof {
        assert(a@ =~= b@);
    }
    true
}

} // verus!
