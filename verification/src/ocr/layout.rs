//! The reading order of words: lines from top to bottom, words from left to right.

use vstd::prelude::*;
use crate::float::F64;
use crate::sorting::{Key, sort_positions};
use crate::sorting::{covers, key_le, lemma_stable_order, stable_order};
use crate::ocr::detection::arrange;
use crate::ocr::detection::arranged;
use crate::ocr::words::Frame;

verus! {

/// Two, as bits of a 64-bit number.
pub const TWO: u64 = 0x4000_0000_0000_0000;

/// One, as bits of a 64-bit number.
pub const ONE: u64 = 0x3ff0_0000_0000_0000;

/// Negative zero, as bits of a 64-bit number.
pub const NEGATIVE_ZERO: u64 = 0x8000_0000_0000_0000;

/// Infinity, as bits of a 64-bit number.
pub const INFINITE: u64 = 0x7ff0_0000_0000_0000;

/// Negative infinity, as bits of a 64-bit number.
pub const NEGATIVE_INFINITE: u64 = 0xfff0_0000_0000_0000;

/// The part of a line's height that a gap above the next line may take before the
/// next line begins a paragraph, as bits of a 64-bit number: 0.65.
pub const PARAGRAPH_GAP: u64 = 0x3fe4_cccc_cccc_cccd;

/// The height at which the middle of a frame lies.
pub open spec fn center(f: Frame) -> F64 {
    f.y.spec_plus(f.h.spec_over(F64 { bits: TWO }))
}

/// The sum of the centers of the frames of a line, added up in their order.
pub open spec fn sum_of_centers(frames: Seq<Frame>, line: Seq<usize>) -> F64
    decreases line.len(),
{
    if line.len() == 0 {
        F64 { bits: NEGATIVE_ZERO }
    } else {
        sum_of_centers(frames, line.drop_last()).spec_plus(center(frames[line.last() as int]))
    }
}

/// The sum of the heights of the frames of a line, added up in their order.
pub open spec fn sum_of_heights(frames: Seq<Frame>, line: Seq<usize>) -> F64
    decreases line.len(),
{
    if line.len() == 0 {
        F64 { bits: NEGATIVE_ZERO }
    } else {
        sum_of_heights(frames, line.drop_last()).spec_plus(frames[line.last() as int].h)
    }
}

/// The mean of the centers of the frames of a line.
pub open spec fn mean_center(frames: Seq<Frame>, line: Seq<usize>) -> F64 {
    sum_of_centers(frames, line).spec_over(F64::of_nat(line.len()))
}

/// The mean of the heights of the frames of a line.
pub open spec fn mean_height(frames: Seq<Frame>, line: Seq<usize>) -> F64 {
    sum_of_heights(frames, line).spec_over(F64::of_nat(line.len()))
}

/// A frame belongs to a line when its center is off the mean center of the line by
/// less than the given part of the mean height.
pub open spec fn belongs(frames: Seq<Frame>, line: Seq<usize>, word: usize, part: F64) -> bool {
    center(frames[word as int]).spec_minus(mean_center(frames, line)).spec_abs().spec_less(
        mean_height(frames, line).spec_times(part),
    )
}

/// The first of the lines, from `from` on, that a frame belongs to; their number
/// where there is none.
pub open spec fn first_line(
    frames: Seq<Frame>,
    lines: Seq<Seq<usize>>,
    word: usize,
    part: F64,
    from: nat,
) -> nat
    decreases lines.len() - from,
{
    if from >= lines.len() {
        lines.len()
    } else if belongs(frames, lines[from as int], word, part) {
        from
    } else {
        first_line(frames, lines, word, part, from + 1)
    }
}

/// A frame put at the end of the first line it belongs to, or on a new line.
pub open spec fn placed(
    frames: Seq<Frame>,
    lines: Seq<Seq<usize>>,
    word: usize,
    part: F64,
) -> Seq<Seq<usize>> {
    let at = first_line(frames, lines, word, part, 0);
    if at < lines.len() {
        lines.update(at as int, lines[at as int].push(word))
    } else {
        lines.push(seq![word])
    }
}

/// The lines that the first `n` frames of an order form when they are placed one
/// after the other.
pub open spec fn clustered(frames: Seq<Frame>, order: Seq<usize>, part: F64, n: nat) -> Seq<
    Seq<usize>,
>
    decreases n,
{
    if n == 0 {
        Seq::empty()
    } else {
        placed(frames, clustered(frames, order, part, (n - 1) as nat), order[n - 1], part)
    }
}

/// Frames from top to bottom by their centers, then from left to right.
pub open spec fn center_keys(frames: Seq<Frame>) -> Seq<Key> {
    Seq::new(
        frames.len(),
        |i: int| (center(frames[i]).order() as u64, frames[i].x.order() as u64, 0u64),
    )
}

/// Lines from top to bottom by their mean centers.
pub open spec fn line_keys(frames: Seq<Frame>, lines: Seq<Seq<usize>>) -> Seq<Key> {
    Seq::new(lines.len(), |i: int| (mean_center(frames, lines[i]).order() as u64, 0u64, 0u64))
}

/// The frames of a line from left to right.
pub open spec fn left_keys(frames: Seq<Frame>, line: Seq<usize>) -> Seq<Key> {
    Seq::new(line.len(), |i: int| (frames[line[i] as int].x.order() as u64, 0u64, 0u64))
}

/// A line from left to right.
pub open spec fn left_to_right(frames: Seq<Frame>, line: Seq<usize>) -> Seq<usize> {
    arranged(line, stable_order(left_keys(frames, line)))
}

/// The lines that frames form when they are placed from top to bottom.
pub open spec fn all_clustered(frames: Seq<Frame>, part: F64) -> Seq<Seq<usize>> {
    clustered(frames, stable_order(center_keys(frames)), part, frames.len())
}

/// The lines that frames form, from top to bottom.
pub open spec fn top_to_bottom(frames: Seq<Frame>, part: F64) -> Seq<Seq<usize>> {
    let lines = all_clustered(frames, part);
    arranged(lines, stable_order(line_keys(frames, lines)))
}

/// The lines that frames form, from top to bottom, each from left to right. A line
/// is a list of positions among the frames.
pub open spec fn reading_lines(frames: Seq<Frame>, part: F64) -> Seq<Seq<usize>> {
    let lines = top_to_bottom(frames, part);
    Seq::new(lines.len(), |i: int| left_to_right(frames, lines[i]))
}

/// Lines as sequences.
pub open spec fn lines_view(lines: Seq<Vec<usize>>) -> Seq<Seq<usize>> {
    Seq::new(lines.len(), |i: int| lines[i]@)
}

/// Positions of lines lie among the frames, and no line is empty.
pub open spec fn lines_in(lines: Seq<Seq<usize>>, n: nat) -> bool {
    forall|i: int|
        0 <= i < lines.len() ==> (#[trigger] lines[i]).len() > 0 && forall|k: int|
            0 <= k < lines[i].len() ==> #[trigger] lines[i][k] < n
}

proof fn lemma_first_line(
    frames: Seq<Frame>,
    lines: Seq<Seq<usize>>,
    word: usize,
    part: F64,
    from: nat,
)
    requires
        from <= lines.len(),
    ensures
        from <= first_line(frames, lines, word, part, from) <= lines.len(),
    decreases lines.len() - from,
{
    if from < lines.len() && !belongs(frames, lines[from as int], word, part) {
        lemma_first_line(frames, lines, word, part, from + 1);
    }
}

proof fn lemma_clustered_in(frames: Seq<Frame>, order: Seq<usize>, part: F64, n: nat)
    requires
        n <= order.len(),
        forall|i: int| 0 <= i < order.len() ==> #[trigger] order[i] < frames.len(),
    ensures
        lines_in(clustered(frames, order, part, n), frames.len()),
    decreases n,
{
    if n > 0 {
        lemma_clustered_in(frames, order, part, (n - 1) as nat);
        let lines = clustered(frames, order, part, (n - 1) as nat);
        let word = order[n - 1];
        lemma_first_line(frames, lines, word, part, 0);
        let at = first_line(frames, lines, word, part, 0);
        let next = placed(frames, lines, word, part);
        assert forall|i: int| 0 <= i < next.len() implies (#[trigger] next[i]).len() > 0
            && forall|k: int| 0 <= k < next[i].len() ==> #[trigger] next[i][k] < frames.len() by {
            if i < lines.len() {
                assert(lines[i].len() > 0);
            }
        }
    }
}

fn frame_center(f: Frame) -> (c: F64)
    ensures
        c == center(f),
{
    f.y.plus(f.h.over(F64 { bits: TWO }))
}

/// A line under construction: its frames and the sums over them.
struct OpenLine {
    words: Vec<usize>,
    centers: F64,
    heights: F64,
}

spec fn open_lines(lines: Seq<OpenLine>) -> Seq<Seq<usize>> {
    Seq::new(lines.len(), |i: int| lines[i].words@)
}

spec fn sums_hold(frames: Seq<Frame>, lines: Seq<OpenLine>) -> bool {
    forall|i: int|
        0 <= i < lines.len() ==> (#[trigger] lines[i]).centers == sum_of_centers(
            frames,
            lines[i].words@,
        ) && lines[i].heights == sum_of_heights(frames, lines[i].words@)
}

fn find_line(frames: &Vec<Frame>, lines: &Vec<OpenLine>, word: usize, part: F64) -> (at: usize)
    requires
        word < frames@.len(),
        sums_hold(frames@, lines@),
    ensures
        at == first_line(frames@, open_lines(lines@), word, part, 0),
        at <= lines@.len(),
{
    let c: F64 = frame_center(frames[word]);
    let mut i: usize = 0;
    let ghost view = open_lines(lines@);
    while i < lines.len()
        invariant
            i <= lines@.len(),
            word < frames@.len(),
            c == center(frames@[word as int]),
            view == open_lines(lines@),
            sums_hold(frames@, lines@),
            first_line(frames@, view, word, part, 0) == first_line(
                frames@,
                view,
                word,
                part,
                i as nat,
            ),
        decreases lines@.len() - i,
    {
        let line: &OpenLine = &lines[i];
        let n: F64 = F64::of_count(line.words.len() as u64);
        let off: F64 = c.minus(line.centers.over(n)).abs();
        if off.less(line.heights.over(n).times(part)) {
            return i;
        }
        i = i + 1;
    }
    i
}

/// Places frames on lines one after the other.
fn cluster(frames: &Vec<Frame>, order: &Vec<usize>, part: F64) -> (lines: Vec<OpenLine>)
    requires
        forall|i: int| 0 <= i < order@.len() ==> #[trigger] order@[i] < frames@.len(),
    ensures
        open_lines(lines@) == clustered(frames@, order@, part, order@.len()),
        sums_hold(frames@, lines@),
{
    let mut lines: Vec<OpenLine> = Vec::new();
    let mut i: usize = 0;
    proof {
        assert(open_lines(lines@) =~= Seq::<Seq<usize>>::empty());
    }
    while i < order.len()
        invariant
            i <= order@.len(),
            forall|k: int| 0 <= k < order@.len() ==> #[trigger] order@[k] < frames@.len(),
            open_lines(lines@) == clustered(frames@, order@, part, i as nat),
            sums_hold(frames@, lines@),
        decreases order@.len() - i,
    {
        let word: usize = order[i];
        let at: usize = find_line(frames, &lines, word, part);
        let f: Frame = frames[word];
        let ghost before = lines@;
        let ghost view = open_lines(before);
        if at < lines.len() {
            let mut line: OpenLine = OpenLine {
                words: Vec::new(),
                centers: f.x,
                heights: f.x,
            };
            std::mem::swap(&mut line, &mut lines[at]);
            let ghost was = line;
            line.words.push(word);
            line.centers = line.centers.plus(frame_center(f));
            line.heights = line.heights.plus(f.h);
            proof {
                assert(was == before[at as int]);
                assert(line.words@.drop_last() =~= was.words@);
            }
            lines.set(at, line);
            proof {
                assert(open_lines(lines@) =~= view.update(at as int, view[at as int].push(word)));
                assert forall|k: int| 0 <= k < lines@.len() implies (#[trigger] lines@[k]).centers
                    == sum_of_centers(frames@, lines@[k].words@) && lines@[k].heights
                    == sum_of_heights(frames@, lines@[k].words@) by {
                    if k != at {
                        assert(lines@[k] == before[k]);
                    }
                }
            }
        } else {
            let mut words: Vec<usize> = Vec::new();
            words.push(word);
            let zero: F64 = F64 { bits: NEGATIVE_ZERO };
            let ghost one = words@;
            proof {
                assert(one =~= seq![word]);
                assert(one.drop_last() =~= Seq::<usize>::empty());
            }
            lines.push(
                OpenLine { words, centers: zero.plus(frame_center(f)), heights: zero.plus(f.h) },
            );
            proof {
                reveal_with_fuel(sum_of_centers, 2);
                reveal_with_fuel(sum_of_heights, 2);
                assert(open_lines(lines@) =~= view.push(one));
                assert forall|k: int| 0 <= k < lines@.len() implies (#[trigger] lines@[k]).centers
                    == sum_of_centers(frames@, lines@[k].words@) && lines@[k].heights
                    == sum_of_heights(frames@, lines@[k].words@) by {
                    if k < before.len() {
                        assert(lines@[k] == before[k]);
                    }
                }
            }
        }
        i = i + 1;
    }
    lines
}

/// Puts a line from left to right.
fn sort_line(frames: &Vec<Frame>, line: &Vec<usize>) -> (r: Vec<usize>)
    requires
        forall|k: int| 0 <= k < line@.len() ==> #[trigger] line@[k] < frames@.len(),
    ensures
        r@ == left_to_right(frames@, line@),
        r@.len() == line@.len(),
        forall|k: int| 0 <= k < r@.len() ==> #[trigger] r@[k] < frames@.len(),
{
    let mut keys: Vec<Key> = Vec::new();
    let mut k: usize = 0;
    while k < line.len()
        invariant
            k <= line@.len(),
            forall|i: int| 0 <= i < line@.len() ==> #[trigger] line@[i] < frames@.len(),
            keys@ == left_keys(frames@, line@).take(k as int),
        decreases line@.len() - k,
    {
        keys.push((frames[line[k]].x.order_key(), 0, 0));
        k = k + 1;
        proof {
            assert(keys@ =~= left_keys(frames@, line@).take(k as int));
        }
    }
    proof {
        assert(keys@ =~= left_keys(frames@, line@));
    }
    let order: Vec<usize> = sort_positions(&keys);
    let r: Vec<usize> = arrange(line, &order);
    proof {
        assert forall|k: int| 0 <= k < r@.len() implies #[trigger] r@[k] < frames@.len() by {
            assert(r@[k] == line@[order@[k] as int]);
        }
    }
    r
}

/// The lines that frames form, from top to bottom, each from left to right.
pub fn read_lines(frames: &Vec<Frame>, part: F64) -> (lines: Vec<Vec<usize>>)
    ensures
        lines_view(lines@) == reading_lines(frames@, part),
        lines_in(lines_view(lines@), frames@.len()),
{
    let mut keys: Vec<Key> = Vec::new();
    let n: usize = frames.len();
    let mut i: usize = 0;
    while i < n
        invariant
            i <= n == frames@.len(),
            keys@ == center_keys(frames@).take(i as int),
        decreases n - i,
    {
        keys.push((frame_center(frames[i]).order_key(), frames[i].x.order_key(), 0));
        i = i + 1;
        proof {
            assert(keys@ =~= center_keys(frames@).take(i as int));
        }
    }
    proof {
        assert(keys@ =~= center_keys(frames@));
    }
    let order: Vec<usize> = sort_positions(&keys);
    let open: Vec<OpenLine> = cluster(frames, &order, part);
    let ghost lines_ = open_lines(open@);
    proof {
        lemma_clustered_in(frames@, order@, part, order@.len());
    }
    let mut means: Vec<Key> = Vec::new();
    let mut j: usize = 0;
    while j < open.len()
        invariant
            j <= open@.len(),
            lines_ == open_lines(open@),
            sums_hold(frames@, open@),
            means@ == line_keys(frames@, lines_).take(j as int),
        decreases open@.len() - j,
    {
        let count: F64 = F64::of_count(open[j].words.len() as u64);
        means.push((open[j].centers.over(count).order_key(), 0, 0));
        j = j + 1;
        proof {
            assert(means@ =~= line_keys(frames@, lines_).take(j as int));
        }
    }
    proof {
        assert(means@ =~= line_keys(frames@, lines_));
    }
    let down: Vec<usize> = sort_positions(&means);
    let mut lines: Vec<Vec<usize>> = Vec::new();
    let mut k: usize = 0;
    let ghost target = reading_lines(frames@, part);
    while k < down.len()
        invariant
            k <= down@.len() == open@.len() == target.len(),
            covers(down@, open@.len()),
            lines_ == open_lines(open@),
            lines_in(lines_, frames@.len()),
            forall|i: int|
                0 <= i < target.len() ==> #[trigger] target[i] == left_to_right(
                    frames@,
                    lines_[down@[i] as int],
                ),
            lines_view(lines@) == target.take(k as int),
            lines_in(lines_view(lines@), frames@.len()),
        decreases down@.len() - k,
    {
        let at: usize = down[k];
        proof {
            assert(lines_[at as int] == open@[at as int].words@);
            assert(lines_[at as int].len() > 0);
        }
        let line: Vec<usize> = sort_line(frames, &open[at].words);
        let ghost before = lines@;
        let ghost l = line@;
        lines.push(line);
        k = k + 1;
        proof {
            assert(lines_view(lines@) =~= lines_view(before).push(l));
            assert(lines_view(lines@) =~= target.take(k as int));
            let v = lines_view(lines@);
            assert forall|i: int| 0 <= i < v.len() implies (#[trigger] v[i]).len() > 0
                && forall|k: int| 0 <= k < v[i].len() ==> #[trigger] v[i][k] < frames@.len() by {
                if i < before.len() {
                    assert(lines_view(before)[i] == v[i]);
                }
            }
        }
    }
    proof {
        assert(target.take(k as int) =~= target);
    }
    lines
}

/// The top of the highest frame of a line.
pub open spec fn line_top(frames: Seq<Frame>, line: Seq<usize>) -> F64
    decreases line.len(),
{
    if line.len() == 0 {
        F64 { bits: INFINITE }
    } else {
        line_top(frames, line.drop_last()).spec_min(frames[line.last() as int].y)
    }
}

/// The bottom of the lowest frame of a line.
pub open spec fn line_bottom(frames: Seq<Frame>, line: Seq<usize>) -> F64
    decreases line.len(),
{
    if line.len() == 0 {
        F64 { bits: NEGATIVE_INFINITE }
    } else {
        line_bottom(frames, line.drop_last()).spec_max(frames[line.last() as int].spec_bottom())
    }
}

/// The height of a line, one at least.
pub open spec fn line_height(frames: Seq<Frame>, line: Seq<usize>) -> F64 {
    line_bottom(frames, line).spec_minus(line_top(frames, line)).spec_max(F64 { bits: ONE })
}

/// The gap between two lines is wide enough for a new paragraph.
pub open spec fn parted(frames: Seq<Frame>, above: Seq<usize>, line: Seq<usize>) -> bool {
    let gap = line_top(frames, line).spec_minus(line_bottom(frames, above));
    line_height(frames, above).spec_times(F64 { bits: PARAGRAPH_GAP }).spec_less(gap)
}

/// The top, bottom and height of a line.
pub struct Band {
    pub top: F64,
    pub bottom: F64,
    pub height: F64,
}

/// `b` measures the line.
pub open spec fn measures(b: Band, frames: Seq<Frame>, line: Seq<usize>) -> bool {
    &&& b.top == line_top(frames, line)
    &&& b.bottom == line_bottom(frames, line)
    &&& b.height == line_height(frames, line)
}

/// Measures a line.
pub fn measure(frames: &Vec<Frame>, line: &Vec<usize>) -> (b: Band)
    requires
        forall|k: int| 0 <= k < line@.len() ==> #[trigger] line@[k] < frames@.len(),
    ensures
        measures(b, frames@, line@),
{
    let mut top: F64 = F64 { bits: INFINITE };
    let mut bottom: F64 = F64 { bits: NEGATIVE_INFINITE };
    let mut k: usize = 0;
    proof {
        assert(line@.take(0) =~= Seq::<usize>::empty());
    }
    while k < line.len()
        invariant
            k <= line@.len(),
            forall|i: int| 0 <= i < line@.len() ==> #[trigger] line@[i] < frames@.len(),
            top == line_top(frames@, line@.take(k as int)),
            bottom == line_bottom(frames@, line@.take(k as int)),
        decreases line@.len() - k,
    {
        proof {
            assert(line@.take(k + 1).drop_last() =~= line@.take(k as int));
            assert(line@.take(k + 1).last() == line@[k as int]);
        }
        let f: Frame = frames[line[k]];
        top = top.min(f.y);
        bottom = bottom.max(f.bottom());
        k = k + 1;
    }
    proof {
        assert(line@.take(k as int) =~= line@);
    }
    Band { top, bottom, height: bottom.minus(top).max(F64 { bits: ONE }) }
}

/// Whether the gap between two lines is wide enough for a new paragraph.
pub(crate) fn is_parted(
    above: &Band,
    band: &Band,
    Ghost(frames): Ghost<Seq<Frame>>,
    Ghost(upper): Ghost<Seq<usize>>,
    Ghost(line): Ghost<Seq<usize>>,
) -> (r: bool)
    requires
        measures(*above, frames, upper),
        measures(*band, frames, line),
    ensures
        r == parted(frames, upper, line),
{
    let gap: F64 = band.top.minus(above.bottom);
    above.height.times(F64 { bits: PARAGRAPH_GAP }).less(gap)
}

/// Every one of the first `n` positions stands on a line, and stands there once.
pub open spec fn each_once(lines: Seq<Seq<usize>>, n: nat) -> bool {
    &&& forall|i: int, k: int|
        0 <= i < lines.len() && 0 <= k < lines[i].len() ==> #[trigger] lines[i][k] < n
    &&& forall|i: int, k: int, j: int, l: int|
        0 <= i < lines.len() && 0 <= k < lines[i].len() && 0 <= j < lines.len() && 0 <= l
            < lines[j].len() && #[trigger] lines[i][k] == #[trigger] lines[j][l] ==> i == j && k
            == l
    &&& forall|p: usize| p < n ==> #[trigger] on_a_line(lines, p)
}

/// The position stands on one of the lines.
pub open spec fn on_a_line(lines: Seq<Seq<usize>>, p: usize) -> bool {
    exists|i: int| 0 <= i < lines.len() && #[trigger] lines[i].contains(p)
}

/// The positions that the first `n` places of an order hold, each once.
spec fn hold_order(lines: Seq<Seq<usize>>, order: Seq<usize>, n: nat) -> bool {
    &&& forall|i: int, k: int|
        0 <= i < lines.len() && 0 <= k < lines[i].len() ==> order.take(n as int).contains(
            #[trigger] lines[i][k],
        )
    &&& forall|i: int, k: int, j: int, l: int|
        0 <= i < lines.len() && 0 <= k < lines[i].len() && 0 <= j < lines.len() && 0 <= l
            < lines[j].len() && #[trigger] lines[i][k] == #[trigger] lines[j][l] ==> i == j && k
            == l
    &&& forall|m: int| 0 <= m < n ==> on_a_line(lines, #[trigger] order[m])
}

proof fn lemma_clustered_once(frames: Seq<Frame>, order: Seq<usize>, part: F64, n: nat)
    requires
        n <= order.len(),
        forall|i: int, j: int| 0 <= i < j < order.len() ==> order[i] != order[j],
    ensures
        hold_order(clustered(frames, order, part, n), order, n),
    decreases n,
{
    if n > 0 {
        let m = (n - 1) as nat;
        lemma_clustered_once(frames, order, part, m);
        let lines = clustered(frames, order, part, m);
        let word = order[n - 1];
        lemma_first_line(frames, lines, word, part, 0);
        let at = first_line(frames, lines, word, part, 0) as int;
        let next = placed(frames, lines, word, part);
        let was = order.take(m as int);
        let now = order.take(n as int);
        assert(now[n - 1] == word);
        assert forall|p: usize| #[trigger] was.contains(p) implies now.contains(p) && p != word by {
            let q = choose|q: int| 0 <= q < was.len() && was[q] == p;
            assert(now[q] == p);
            assert(order[q] == p);
        }
        assert forall|i: int, k: int|
            0 <= i < next.len() && 0 <= k < next[i].len() implies now.contains(
            #[trigger] next[i][k],
        ) by {
            if i < lines.len() && k < lines[i].len() {
                assert(next[i][k] == lines[i][k]);
                assert(was.contains(lines[i][k]));
            } else {
                assert(next[i][k] == word);
            }
        }
        assert forall|i: int, k: int, j: int, l: int|
            0 <= i < next.len() && 0 <= k < next[i].len() && 0 <= j < next.len() && 0 <= l
                < next[j].len() && #[trigger] next[i][k] == #[trigger] next[j][l] implies i == j
            && k == l by {
            let old_i = i < lines.len() && k < lines[i].len();
            let old_j = j < lines.len() && l < lines[j].len();
            if old_i {
                assert(next[i][k] == lines[i][k]);
                assert(was.contains(lines[i][k]));
            }
            if old_j {
                assert(next[j][l] == lines[j][l]);
                assert(was.contains(lines[j][l]));
            }
            if old_i && old_j {
                assert(lines[i][k] == lines[j][l]);
            }
        }
        assert forall|q: int| 0 <= q < n implies on_a_line(next, #[trigger] order[q]) by {
            if q < m {
                assert(on_a_line(lines, order[q]));
                let i = choose|i: int| 0 <= i < lines.len() && #[trigger] lines[i].contains(order[q]);
                let k = choose|k: int| 0 <= k < lines[i].len() && lines[i][k] == order[q];
                assert(next[i][k] == order[q]);
                assert(next[i].contains(order[q]));
            } else {
                if at < lines.len() {
                    let k = lines[at].len() as int;
                    assert(next[at][k] == word);
                    assert(next[at].contains(word));
                } else {
                    assert(next[lines.len() as int][0] == word);
                    assert(next[lines.len() as int].contains(word));
                }
            }
        }
    }
}

/// Putting lines, and the positions of each, in another order keeps every position.
proof fn lemma_rearranged_once(
    lines: Seq<Seq<usize>>,
    down: Seq<usize>,
    across: spec_fn(int) -> Seq<usize>,
    result: Seq<Seq<usize>>,
    n: nat,
)
    requires
        lines.len() <= n <= usize::MAX,
        each_once(lines, n),
        covers(down, lines.len()),
        result.len() == lines.len(),
        forall|i: int|
            0 <= i < result.len() ==> covers(#[trigger] across(i), lines[down[i] as int].len()),
        forall|i: int|
            0 <= i < result.len() ==> #[trigger] result[i] == arranged(
                lines[down[i] as int],
                across(i),
            ),
    ensures
        each_once(result, n),
{
    assert forall|i: int, k: int| 0 <= i < result.len() && 0 <= k < result[i].len() implies (
    #[trigger] result[i][k]) < n && result[i][k] == lines[down[i] as int][across(i)[k] as int] by {
        assert(covers(across(i), lines[down[i] as int].len()));
        assert(result[i] == arranged(lines[down[i] as int], across(i)));
        let a = across(i)[k];
        assert(lines[down[i] as int][a as int] < n);
    }
    assert forall|i: int, k: int, j: int, l: int|
        0 <= i < result.len() && 0 <= k < result[i].len() && 0 <= j < result.len() && 0 <= l
            < result[j].len() && #[trigger] result[i][k] == #[trigger] result[j][l] implies i == j
        && k == l by {
        assert(covers(across(i), lines[down[i] as int].len()));
        assert(covers(across(j), lines[down[j] as int].len()));
        assert(result[i] == arranged(lines[down[i] as int], across(i)));
        assert(result[j] == arranged(lines[down[j] as int], across(j)));
        let a = across(i)[k];
        let b = across(j)[l];
        assert(lines[down[i] as int][a as int] == lines[down[j] as int][b as int]);
        assert(down[i] == down[j]);
        assert(i == j);
        assert(a == b);
        if k < l {
            assert(across(i)[k] != across(i)[l]);
        } else if l < k {
            assert(across(i)[l] != across(i)[k]);
        }
    }
    assert forall|p: usize| p < n implies #[trigger] on_a_line(result, p) by {
        assert(on_a_line(lines, p));
        let i = choose|i: int| 0 <= i < lines.len() && #[trigger] lines[i].contains(p);
        let k = choose|k: int| 0 <= k < lines[i].len() && lines[i][k] == p;
        lemma_line_length(lines, n, i);
        assert(down.contains(i as usize));
        let j = choose|j: int| 0 <= j < down.len() && down[j] == i as usize;
        assert(covers(across(j), lines[down[j] as int].len()));
        let order = across(j);
        assert(order.contains(k as usize));
        let l = choose|l: int| 0 <= l < order.len() && order[l] == k as usize;
        assert(result[j] == arranged(lines[down[j] as int], across(j)));
        assert(result[j][l] == p);
        assert(result[j].contains(p));
    }
}

proof fn lemma_all_clustered(frames: Seq<Frame>, part: F64)
    requires
        frames.len() <= usize::MAX,
    ensures
        each_once(all_clustered(frames, part), frames.len()),
        all_clustered(frames, part).len() <= frames.len(),
{
    let n = frames.len();
    let keys = center_keys(frames);
    let order = stable_order(keys);
    lemma_stable_order(keys);
    let lines = all_clustered(frames, part);
    lemma_clustered_once(frames, order, part, n);
    assert(order.take(n as int) =~= order);
    assert forall|p: usize| p < n implies #[trigger] on_a_line(lines, p) by {
        assert(order.contains(p));
        let m = choose|m: int| 0 <= m < order.len() && order[m] == p;
        assert(on_a_line(lines, order[m]));
    }
    assert forall|i: int, k: int| 0 <= i < lines.len() && 0 <= k < lines[i].len() implies (
    #[trigger] lines[i][k]) < n by {
        assert(order.take(n as int).contains(lines[i][k]));
    }
    lemma_line_count(frames, order, part, n);
}

/// No word is lost and none is read twice: the lines hold every position once.
pub proof fn law_lines_hold_every_word_once(frames: Seq<Frame>, part: F64)
    requires
        frames.len() <= usize::MAX,
    ensures
        each_once(reading_lines(frames, part), frames.len()),
{
    let n = frames.len();
    let lines = all_clustered(frames, part);
    lemma_all_clustered(frames, part);
    let down_keys = line_keys(frames, lines);
    let down = stable_order(down_keys);
    lemma_stable_order(down_keys);
    let sorted = arranged(lines, down);
    let across = |i: int| stable_order(left_keys(frames, sorted[i]));
    assert forall|i: int| 0 <= i < lines.len() implies covers(
        #[trigger] across(i),
        lines[down[i] as int].len(),
    ) by {
        lemma_line_length(lines, n, down[i] as int);
        lemma_stable_order(left_keys(frames, sorted[i]));
    }
    let result = reading_lines(frames, part);
    assert forall|i: int| 0 <= i < result.len() implies #[trigger] result[i] == arranged(
        lines[down[i] as int],
        across(i),
    ) by {}
    lemma_rearranged_once(lines, down, across, result, n);
}

/// Each word that is placed adds one line at most.
proof fn lemma_line_count(frames: Seq<Frame>, order: Seq<usize>, part: F64, n: nat)
    ensures
        clustered(frames, order, part, n).len() <= n,
    decreases n,
{
    if n > 0 {
        lemma_line_count(frames, order, part, (n - 1) as nat);
    }
}

/// A line that holds positions below `n` once each is no longer than `n`.
proof fn lemma_line_length(lines: Seq<Seq<usize>>, n: nat, i: int)
    requires
        each_once(lines, n),
        0 <= i < lines.len(),
    ensures
        lines[i].len() <= n,
{
    let line = lines[i];
    assert forall|k: int, l: int| 0 <= k < line.len() && 0 <= l < line.len() && k != l implies line[k]
        != line[l] by {
        if line[k] == line[l] {
            assert(lines[i][k] == lines[i][l]);
        }
    }
    assert(line.no_duplicates());
    let whole = line.map_values(|p: usize| p as int);
    assert(whole.no_duplicates());
    whole.unique_seq_to_set();
    vstd::set_lib::lemma_int_range(0, n as int);
    let range = vstd::set_lib::set_int_range(0, n as int);
    assert(whole.to_set().subset_of(range)) by {
        assert forall|v: int| whole.to_set().contains(v) implies range.contains(v) by {
            let k = choose|k: int| 0 <= k < whole.len() && whole[k] == v;
            assert(lines[i][k] < n);
        }
    }
    vstd::set_lib::lemma_len_subset(whole.to_set(), range);
}

/// No line is empty, and there are no more of them than words.
pub proof fn lemma_reading_lines_in(frames: Seq<Frame>, part: F64)
    requires
        frames.len() <= usize::MAX,
    ensures
        lines_in(reading_lines(frames, part), frames.len()),
        reading_lines(frames, part).len() <= frames.len(),
{
    let n = frames.len();
    let order = stable_order(center_keys(frames));
    lemma_stable_order(center_keys(frames));
    lemma_clustered_in(frames, order, part, n);
    lemma_line_count(frames, order, part, n);
    let lines = all_clustered(frames, part);
    lemma_all_clustered(frames, part);
    let down = stable_order(line_keys(frames, lines));
    lemma_stable_order(line_keys(frames, lines));
    let r = reading_lines(frames, part);
    assert forall|i: int| 0 <= i < r.len() implies (#[trigger] r[i]).len() > 0 && forall|k: int|
        0 <= k < r[i].len() ==> #[trigger] r[i][k] < n by {
        let line = lines[down[i] as int];
        lemma_line_length(lines, n, down[i] as int);
        lemma_stable_order(left_keys(frames, line));
        let across = stable_order(left_keys(frames, line));
        assert(r[i] == arranged(line, across));
        assert(line.len() > 0);
        assert forall|k: int| 0 <= k < r[i].len() implies #[trigger] r[i][k] < n by {
            assert(lines[down[i] as int][across[k] as int] < n);
        }
    }
}

/// Lines are read from left to right: no word stands left of the one before it.
pub proof fn law_words_are_read_from_left_to_right(frames: Seq<Frame>, part: F64, i: int)
    requires
        frames.len() <= usize::MAX,
        0 <= i < reading_lines(frames, part).len(),
    ensures
        forall|k: int, l: int|
            0 <= k < l < reading_lines(frames, part)[i].len() ==> frames[(#[trigger] reading_lines(
                frames,
                part,
            )[i][k]) as int].x.order() <= frames[(#[trigger] reading_lines(frames, part)[i][l]) as int].x.order(),
{
    let n = frames.len();
    let lines = all_clustered(frames, part);
    lemma_all_clustered(frames, part);
    let down_keys = line_keys(frames, lines);
    let down = stable_order(down_keys);
    lemma_stable_order(down_keys);
    let line = arranged(lines, down)[i];
    lemma_line_length(lines, n, down[i] as int);
    let left = left_keys(frames, line);
    lemma_stable_order(left);
    let across = stable_order(left);
    let result = reading_lines(frames, part)[i];
    assert(result == arranged(line, across));
    assert forall|k: int, l: int| 0 <= k < l < result.len() implies frames[(
    #[trigger] result[k]) as int].x.order() <= frames[(#[trigger] result[l]) as int].x.order() by {
        assert(key_le(left[across[k] as int], left[across[l] as int]));
    }
}

/// Lines are read from top to bottom: the mean centers of their words do not rise from
/// a line to a later one.
pub proof fn law_lines_are_read_from_top_to_bottom(frames: Seq<Frame>, part: F64, i: int, j: int)
    requires
        frames.len() <= usize::MAX,
        0 <= i < j < reading_lines(frames, part).len(),
    ensures
        mean_center(frames, top_to_bottom(frames, part)[i]).order() <= mean_center(
            frames,
            top_to_bottom(frames, part)[j],
        ).order(),
        forall|p: usize| #[trigger]
            reading_lines(frames, part)[i].contains(p) <==> top_to_bottom(frames, part)[i].contains(
                p,
            ),
{
    let lines = all_clustered(frames, part);
    lemma_all_clustered(frames, part);
    let keys = line_keys(frames, lines);
    let down = stable_order(keys);
    lemma_stable_order(keys);
    assert(key_le(keys[down[i] as int], keys[down[j] as int]));
    let line = top_to_bottom(frames, part)[i];
    lemma_line_length(lines, frames.len(), down[i] as int);
    let left = left_keys(frames, line);
    lemma_stable_order(left);
    let across = stable_order(left);
    let result = reading_lines(frames, part)[i];
    assert forall|p: usize| #[trigger] result.contains(p) <==> line.contains(p) by {
        if result.contains(p) {
            let k = choose|k: int| 0 <= k < result.len() && result[k] == p;
            assert(line[across[k] as int] == p);
        }
        if line.contains(p) {
            let k = choose|k: int| 0 <= k < line.len() && line[k] == p;
            assert(across.contains(k as usize));
            let l = choose|l: int| 0 <= l < across.len() && across[l] == k as usize;
            assert(result[l] == p);
        }
    }
}

/// The positions on the first `n` lines, one line after the other.
pub open spec fn read_through(lines: Seq<Seq<usize>>, n: nat) -> Seq<usize>
    decreases n,
{
    if n == 0 {
        Seq::empty()
    } else {
        read_through(lines, (n - 1) as nat) + lines[n - 1]
    }
}

proof fn lemma_read_through(lines: Seq<Seq<usize>>, n: nat, total: nat)
    requires
        n <= lines.len(),
        each_once(lines, total),
    ensures
        read_through(lines, n).no_duplicates(),
        forall|p: usize| #[trigger]
            read_through(lines, n).contains(p) <==> exists|i: int|
                0 <= i < n && #[trigger] lines[i].contains(p),
    decreases n,
{
    if n > 0 {
        let m = (n - 1) as nat;
        lemma_read_through(lines, m, total);
        let head = read_through(lines, m);
        let line = lines[n - 1];
        let all = read_through(lines, n);
        assert(line == lines[m as int]);
        assert forall|p: usize| head.contains(p) && line.contains(p) implies false by {
            let i = choose|i: int| 0 <= i < m && #[trigger] lines[i].contains(p);
            let k = choose|k: int| 0 <= k < lines[i].len() && lines[i][k] == p;
            let l = choose|l: int| 0 <= l < line.len() && line[l] == p;
            assert(lines[i][k] == lines[m as int][l]);
        }
        assert forall|a: int, b: int| 0 <= a < b < all.len() implies all[a] != all[b] by {
            if b < head.len() {
                assert(head[a] != head[b]);
            } else if a < head.len() {
                assert(head.contains(head[a]));
                assert(line.contains(line[b - head.len()]));
            } else {
                assert(lines[m as int][a - head.len()] != lines[m as int][b - head.len()]);
            }
        }
        assert forall|p: usize| #[trigger] all.contains(p) <==> exists|i: int|
            0 <= i < n && #[trigger] lines[i].contains(p) by {
            if all.contains(p) {
                let a = choose|a: int| 0 <= a < all.len() && all[a] == p;
                if a < head.len() {
                    assert(head[a] == p);
                    assert(head.contains(p));
                } else {
                    assert(line[a - head.len()] == p);
                    assert(lines[m as int].contains(p));
                }
            }
            if exists|i: int| 0 <= i < n && #[trigger] lines[i].contains(p) {
                let i = choose|i: int| 0 <= i < n && #[trigger] lines[i].contains(p);
                if i < m {
                    assert(head.contains(p));
                    let a = choose|a: int| 0 <= a < head.len() && head[a] == p;
                    assert(all[a] == p);
                } else {
                    let l = choose|l: int| 0 <= l < line.len() && line[l] == p;
                    assert(all[head.len() + l] == p);
                }
            }
        }
    }
}

/// Lines that hold every position once make, read through, an order of the positions.
pub proof fn lemma_reading_covers(lines: Seq<Seq<usize>>, n: nat)
    requires
        each_once(lines, n),
        n <= usize::MAX,
    ensures
        covers(read_through(lines, lines.len()), n),
{
    lemma_read_through(lines, lines.len(), n);
    let all = read_through(lines, lines.len());
    assert forall|a: int| 0 <= a < all.len() implies 0 <= #[trigger] all[a] < n by {
        assert(all.contains(all[a]));
        let i = choose|i: int| 0 <= i < lines.len() && #[trigger] lines[i].contains(all[a]);
        let k = choose|k: int| 0 <= k < lines[i].len() && lines[i][k] == all[a];
        assert(lines[i][k] < n);
    }
    assert forall|p: usize| p < n implies #[trigger] all.contains(p) by {
        assert(on_a_line(lines, p));
    }
    let whole = all.map_values(|p: usize| p as int);
    whole.unique_seq_to_set();
    vstd::set_lib::lemma_int_range(0, n as int);
    let range = vstd::set_lib::set_int_range(0, n as int);
    assert(whole.to_set() =~= range) by {
        assert forall|v: int| range.contains(v) implies whole.to_set().contains(v) by {
            assert(all.contains(v as usize));
            let a = choose|a: int| 0 <= a < all.len() && all[a] == v as usize;
            assert(whole[a] == v);
        }
    }
}

} // verus!
