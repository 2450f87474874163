//! From boxes of text to lines, and from what was read in them to words.

use vstd::prelude::*;
use vstd::arithmetic::power2::{lemma2_to64, lemma2_to64_rest, lemma_pow2_adds, pow2};
use crate::exact::{
    is_ordinary, lemma_bits_single, lemma_bounded, lemma_compare, lemma_compare_nearly,
    lemma_compare_single, lemma_count_is_ordinary, lemma_exact, lemma_exact_whole,
    lemma_fraction_bits, lemma_min_max, lemma_of_nat, lemma_one_is_large, lemma_over, lemma_plus,
    lemma_plus_error, lemma_plus_grows, lemma_ratio, lemma_scale, lemma_shifted_is_number,
    lemma_times, lemma_times_error, lemma_whole_bits, one, one_single,
};
use crate::float::{F32, F64};
use crate::ocr::detection::PixelBox;
use crate::ocr::detection::arrange;
use crate::ocr::detection::arranged;
use crate::ocr::words::{DetectedWord, Frame};
use crate::ocr::words::{Word, views};
use crate::sorting::{Key, sort_positions};
use crate::sorting::{covers, key_le, lemma_stable_order, stable_order};
use crate::text::{chars_of, split_words, trim};
use crate::text::{blank_parts, is_blank, texts, trimmed, words_of};

verus! {

/// Pictures and boxes with a shorter side than this hold no text.
pub const LEAST_SIDE: u32 = 4;

/// Pictures no higher than this may be single lines.
pub const SINGLE_LINE_HEIGHT: u32 = 48;

/// Pictures no wider than this may be single lines.
pub const SINGLE_LINE_WIDTH: u32 = 800;

/// Boxes this near in height are on one line, however low they are.
pub const LEAST_TOLERANCE: u32 = 8;

/// The score below which what was read is dropped, as bits of a 32-bit number: 0.25.
pub const LEAST_SCORE: u32 = 0x3e80_0000;

/// The part of a character's width that a space takes, as bits of a 64-bit number: 0.5.
pub const SPACE_PART: u64 = 0x3fe0_0000_0000_0000;

/// The least width of a word, as bits of a 64-bit number: 4.
pub const LEAST_WORD_WIDTH: u64 = 0x4010_0000_0000_0000;

/// A box and the number of the line it is on.
pub type LineBox = (usize, PixelBox);

/// Whether boxes have to be detected in a picture before it is read: it is not too small to
/// hold text, and too large to be a single line.
pub open spec fn wants_detection(width: u32, height: u32) -> bool {
    &&& width >= LEAST_SIDE
    &&& height >= LEAST_SIDE
    &&& !(height <= SINGLE_LINE_HEIGHT && width <= SINGLE_LINE_WIDTH)
}

/// Boxes from top to bottom, then from left to right.
pub open spec fn by_top(boxes: Seq<PixelBox>) -> Seq<PixelBox> {
    arranged(
        boxes,
        stable_order(Seq::new(boxes.len(), |i: int| (boxes[i].1 as u64, boxes[i].0 as u64, 0u64))),
    )
}

/// A box is on another line than the box that began the line: it is off by more than half of
/// the lower of the two heights, and by more than eight.
pub open spec fn is_off(first: PixelBox, b: PixelBox) -> bool {
    let off = if b.1 >= first.1 {
        b.1 - first.1
    } else {
        first.1 - b.1
    };
    let lower = if first.3 < b.3 {
        first.3
    } else {
        b.3
    };
    off > lower / 2 && off > LEAST_TOLERANCE
}

/// The box that begins the line that box `i` is on.
pub open spec fn line_first(boxes: Seq<PixelBox>, i: nat) -> nat
    decreases i,
{
    if i == 0 {
        0
    } else {
        let before = line_first(boxes, (i - 1) as nat);
        if is_off(boxes[before as int], boxes[i as int]) {
            i
        } else {
            before
        }
    }
}

/// The number of the line that box `i` is on.
pub open spec fn line_number(boxes: Seq<PixelBox>, i: nat) -> nat
    decreases i,
{
    if i == 0 {
        0
    } else if line_first(boxes, i) == i {
        line_number(boxes, (i - 1) as nat) + 1
    } else {
        line_number(boxes, (i - 1) as nat)
    }
}

/// Boxes with the numbers of their lines.
pub open spec fn numbered(boxes: Seq<PixelBox>) -> Seq<LineBox> {
    Seq::new(boxes.len(), |i: int| (line_number(boxes, i as nat) as usize, boxes[i]))
}

/// Boxes by line, each line from left to right.
pub open spec fn by_line(boxes: Seq<LineBox>) -> Seq<LineBox> {
    arranged(
        boxes,
        stable_order(
            Seq::new(boxes.len(), |i: int| (boxes[i].0 as u64, boxes[i].1.0 as u64, 0u64)),
        ),
    )
}

/// The box lies in the picture and is not too small to hold text.
pub open spec fn is_usable(width: u32, height: u32, b: PixelBox) -> bool {
    &&& b.0 + b.2 <= width
    &&& b.1 + b.3 <= height
    &&& b.2 >= LEAST_SIDE
    &&& b.3 >= LEAST_SIDE
}

/// The boxes of a picture that are read, line by line. A picture that may be a single line,
/// or in which nothing was detected, is one box.
pub open spec fn line_boxes(width: u32, height: u32, detected: Seq<PixelBox>) -> Seq<LineBox> {
    if width < LEAST_SIDE || height < LEAST_SIDE {
        Seq::empty()
    } else if !wants_detection(width, height) || detected.len() == 0 {
        seq![(0usize, (0u32, 0u32, width, height))]
    } else {
        by_line(numbered(by_top(detected))).filter(|b: LineBox| is_usable(width, height, b.1))
    }
}

/// Puts boxes from top to bottom, then from left to right.
fn sort_by_top(boxes: &Vec<PixelBox>) -> (r: Vec<PixelBox>)
    ensures
        r@ == by_top(boxes@),
        r@.len() == boxes@.len(),
        forall|i: int| 0 <= i < r@.len() ==> boxes@.contains(#[trigger] r@[i]),
{
    let mut keys: Vec<Key> = Vec::new();
    let ghost all = Seq::new(
        boxes@.len(),
        |i: int| (boxes@[i].1 as u64, boxes@[i].0 as u64, 0u64),
    );
    let mut i: usize = 0;
    while i < boxes.len()
        invariant
            i <= boxes@.len(),
            all == Seq::new(
                boxes@.len(),
                |i: int| (boxes@[i].1 as u64, boxes@[i].0 as u64, 0u64),
            ),
            keys@ == all.take(i as int),
        decreases boxes@.len() - i,
    {
        let b: PixelBox = boxes[i];
        keys.push((b.1 as u64, b.0 as u64, 0));
        i = i + 1;
        proof {
            assert(keys@ =~= all.take(i as int));
        }
    }
    proof {
        assert(keys@ =~= all);
    }
    let order: Vec<usize> = sort_positions(&keys);
    let r: Vec<PixelBox> = arrange(boxes, &order);
    proof {
        assert forall|i: int| 0 <= i < r@.len() implies boxes@.contains(#[trigger] r@[i]) by {
            assert(r@[i] == boxes@[order@[i] as int]);
        }
    }
    r
}

fn find_off(first: PixelBox, b: PixelBox) -> (r: bool)
    ensures
        r == is_off(first, b),
{
    let off: u32 = if b.1 >= first.1 {
        b.1 - first.1
    } else {
        first.1 - b.1
    };
    let lower: u32 = if first.3 < b.3 {
        first.3
    } else {
        b.3
    };
    off > lower / 2 && off > LEAST_TOLERANCE
}

proof fn lemma_line_first(boxes: Seq<PixelBox>, i: nat)
    ensures
        line_first(boxes, i) <= i,
        line_number(boxes, i) <= i,
    decreases i,
{
    if i > 0 {
        lemma_line_first(boxes, (i - 1) as nat);
    }
}

/// Numbers boxes by line.
fn number_lines(boxes: &Vec<PixelBox>) -> (r: Vec<LineBox>)
    ensures
        r@ == numbered(boxes@),
{
    let mut r: Vec<LineBox> = Vec::new();
    let mut first: usize = 0;
    let mut line: usize = 0;
    let mut i: usize = 0;
    while i < boxes.len()
        invariant
            i <= boxes@.len(),
            r@ == numbered(boxes@).take(i as int),
            i > 0 ==> first == line_first(boxes@, (i - 1) as nat) && line == line_number(
                boxes@,
                (i - 1) as nat,
            ),
            i == 0 ==> first == 0 && line == 0,
            line <= i,
            first <= i,
        decreases boxes@.len() - i,
    {
        proof {
            if i > 0 {
                lemma_line_first(boxes@, (i - 1) as nat);
            }
        }
        if i > 0 && find_off(boxes[first], boxes[i]) {
            line = line + 1;
            first = i;
        }
        proof {
            assert(first == line_first(boxes@, i as nat));
            assert(line == line_number(boxes@, i as nat));
        }
        r.push((line, boxes[i]));
        i = i + 1;
        proof {
            assert(r@ =~= numbered(boxes@).take(i as int));
        }
    }
    proof {
        assert(r@ =~= numbered(boxes@));
    }
    r
}

/// Puts boxes by line, each line from left to right.
fn sort_by_line(boxes: &Vec<LineBox>) -> (r: Vec<LineBox>)
    ensures
        r@ == by_line(boxes@),
{
    let mut keys: Vec<Key> = Vec::new();
    let ghost all = Seq::new(
        boxes@.len(),
        |i: int| (boxes@[i].0 as u64, boxes@[i].1.0 as u64, 0u64),
    );
    let mut i: usize = 0;
    while i < boxes.len()
        invariant
            i <= boxes@.len(),
            all == Seq::new(
                boxes@.len(),
                |i: int| (boxes@[i].0 as u64, boxes@[i].1.0 as u64, 0u64),
            ),
            keys@ == all.take(i as int),
        decreases boxes@.len() - i,
    {
        let b: LineBox = boxes[i];
        keys.push((b.0 as u64, b.1.0 as u64, 0));
        i = i + 1;
        proof {
            assert(keys@ =~= all.take(i as int));
        }
    }
    proof {
        assert(keys@ =~= all);
    }
    let order: Vec<usize> = sort_positions(&keys);
    arrange(boxes, &order)
}

/// Whether boxes have to be detected in a picture before it is read.
pub fn needs_detection(width: u32, height: u32) -> (r: bool)
    ensures
        r == wants_detection(width, height),
{
    width >= LEAST_SIDE && height >= LEAST_SIDE && !(height <= SINGLE_LINE_HEIGHT && width
        <= SINGLE_LINE_WIDTH)
}

/// The boxes of a picture that are read, line by line.
pub fn find_line_boxes(width: u32, height: u32, detected: &Vec<PixelBox>) -> (r: Vec<LineBox>)
    ensures
        r@ == line_boxes(width, height, detected@),
{
    if width < LEAST_SIDE || height < LEAST_SIDE {
        return Vec::new();
    }
    if !needs_detection(width, height) || detected.len() == 0 {
        let whole: LineBox = (0, (0, 0, width, height));
        let r: Vec<LineBox> = vec![whole];
        proof {
            assert(r@ =~= seq![(0usize, (0u32, 0u32, width, height))]);
        }
        return r;
    }
    let all: Vec<LineBox> = sort_by_line(&number_lines(&sort_by_top(detected)));
    let mut r: Vec<LineBox> = Vec::new();
    let mut i: usize = 0;
    let ghost usable = |b: LineBox| is_usable(width, height, b.1);
    proof {
        reveal(Seq::filter);
        assert(all@.take(0) =~= Seq::<LineBox>::empty());
        assert(r@ =~= all@.take(0).filter(usable));
    }
    while i < all.len()
        invariant
            i <= all@.len(),
            usable == (|b: LineBox| is_usable(width, height, b.1)),
            r@ == all@.take(i as int).filter(usable),
        decreases all@.len() - i,
    {
        let b: LineBox = all[i];
        proof {
            reveal(Seq::filter);
            assert(all@.take(i + 1).drop_last() =~= all@.take(i as int));
            assert(all@.take(i + 1).last() == b);
        }
        let x: PixelBox = b.1;
        if x.0 as u64 + x.2 as u64 <= width as u64 && x.1 as u64 + x.3 as u64 <= height as u64
            && x.2 >= LEAST_SIDE && x.3 >= LEAST_SIDE {
            r.push(b);
        }
        i = i + 1;
    }
    proof {
        assert(all@.take(i as int) =~= all@);
    }
    r
}

/// Every box that is read lies in the picture and is not too small to hold text.
pub proof fn law_read_boxes_lie_in_the_picture(
    width: u32,
    height: u32,
    detected: Seq<PixelBox>,
    i: int,
)
    requires
        0 <= i < line_boxes(width, height, detected).len(),
    ensures
        is_usable(width, height, line_boxes(width, height, detected)[i].1),
{
    broadcast use Seq::lemma_filter_pred;

    if wants_detection(width, height) && detected.len() > 0 {
        let all = by_line(numbered(by_top(detected)));
        let usable = |b: LineBox| is_usable(width, height, b.1);
        assert(usable(all.filter(usable)[i]));
    }
}

/// How many characters texts have together.
pub open spec fn char_count(tokens: Seq<Seq<char>>) -> nat
    decreases tokens.len(),
{
    if tokens.len() == 0 {
        0
    } else {
        char_count(tokens.drop_last()) + tokens.last().len()
    }
}

/// The width of a character of a line: the width of its box over the characters, each space
/// between words counting for half of one.
pub open spec fn char_width(b: PixelBox, tokens: Seq<Seq<char>>) -> F64 {
    let count = char_count(tokens);
    let chars = F64::of_nat(if count > 1 {
        count
    } else {
        1
    });
    let spaces = F64::of_nat((tokens.len() - 1) as nat);
    F64::of_nat(b.2 as nat).spec_over(
        chars.spec_plus(spaces.spec_times(F64 { bits: SPACE_PART })),
    )
}

/// The width of a word of a line, four at least.
pub open spec fn token_width(b: PixelBox, tokens: Seq<Seq<char>>, k: int) -> F64 {
    F64::of_nat(tokens[k].len()).spec_times(char_width(b, tokens)).spec_max(
        F64 { bits: LEAST_WORD_WIDTH },
    )
}

/// The left side of a word of a line.
pub open spec fn token_left(b: PixelBox, tokens: Seq<Seq<char>>, k: nat) -> F64
    decreases k,
{
    if k == 0 {
        F64::of_nat(b.0 as nat)
    } else {
        token_left(b, tokens, (k - 1) as nat).spec_plus(
            token_width(b, tokens, k - 1).spec_plus(
                char_width(b, tokens).spec_times(F64 { bits: SPACE_PART }),
            ),
        )
    }
}

/// The words of a line, spread over its box.
pub open spec fn spread(line: LineBox, tokens: Seq<Seq<char>>) -> Seq<Word> {
    let b = line.1;
    Seq::new(
        tokens.len(),
        |k: int|
            Word {
                frame: Frame {
                    x: token_left(b, tokens, k as nat),
                    y: F64::of_nat(b.1 as nat),
                    w: token_width(b, tokens, k),
                    h: F64::of_nat(b.3 as nat),
                },
                text: tokens[k],
                line_num: line.0,
                par_num: 0,
                block_num: 0,
            },
    )
}

/// The words of a line that was read with a score. What was read with too low a score is
/// dropped.
pub open spec fn line_words(line: LineBox, text: Seq<char>, score: F32) -> Seq<Word> {
    if trimmed(text).len() == 0 || score.spec_less(F32 { bits: LEAST_SCORE }) {
        Seq::empty()
    } else {
        spread(line, words_of(trimmed(text)))
    }
}

/// What was read in a line: its text and its score.
pub open spec fn readings(lines: Seq<(String, F32)>) -> Seq<(Seq<char>, F32)> {
    Seq::new(lines.len(), |i: int| (lines[i].0@, lines[i].1))
}

/// The words of the first `n` lines.
pub open spec fn all_line_words(
    boxes: Seq<LineBox>,
    read: Seq<(Seq<char>, F32)>,
    n: nat,
) -> Seq<Word>
    decreases n,
{
    if n == 0 {
        Seq::empty()
    } else {
        all_line_words(boxes, read, (n - 1) as nat) + line_words(
            boxes[n - 1],
            read[n - 1].0,
            read[n - 1].1,
        )
    }
}

/// Words by line, each line from left to right.
pub open spec fn by_line_and_left(words: Seq<Word>) -> Seq<Word> {
    arranged(
        words,
        stable_order(
            Seq::new(
                words.len(),
                |i: int| (words[i].line_num as u64, words[i].frame.x.order() as u64, 0u64),
            ),
        ),
    )
}

fn count_chars(tokens: &Vec<String>) -> (r: Vec<usize>)
    ensures
        r@.len() == tokens@.len(),
        forall|k: int| 0 <= k < r@.len() ==> #[trigger] r@[k] == texts(tokens@)[k].len(),
{
    let mut r: Vec<usize> = Vec::new();
    let mut k: usize = 0;
    while k < tokens.len()
        invariant
            k <= tokens@.len(),
            r@.len() == k,
            forall|i: int| 0 <= i < k ==> #[trigger] r@[i] == texts(tokens@)[i].len(),
        decreases tokens@.len() - k,
    {
        r.push(chars_of(tokens[k].as_str()).len());
        k = k + 1;
    }
    r
}

proof fn lemma_char_count_grows(tokens: Seq<Seq<char>>, k: nat)
    requires
        k <= tokens.len(),
    ensures
        char_count(tokens.take(k as int)) <= char_count(tokens),
    decreases tokens.len() - k,
{
    if k < tokens.len() {
        lemma_char_count_grows(tokens, k + 1);
        assert(tokens.take(k as int + 1).drop_last() =~= tokens.take(k as int));
    } else {
        assert(tokens.take(k as int) =~= tokens);
    }
}

/// The words of a text have no more characters than the text.
proof fn lemma_parts_no_longer(s: Seq<char>)
    ensures
        blank_parts(s).len() > 0,
        char_count(blank_parts(s)) <= s.len(),
    decreases s.len(),
{
    let p = blank_parts(s);
    if s.len() == 0 {
        assert(p.drop_last() =~= Seq::<Seq<char>>::empty());
        assert(char_count(p.drop_last()) == 0);
    } else {
        lemma_parts_no_longer(s.drop_last());
        let before = blank_parts(s.drop_last());
        if is_blank(s.last()) {
            assert(p.drop_last() =~= before);
        } else {
            assert(p.drop_last() =~= before.drop_last());
        }
    }
}

proof fn lemma_filtered_no_longer(p: Seq<Seq<char>>)
    ensures
        char_count(p.filter(|w: Seq<char>| w.len() > 0)) <= char_count(p),
    decreases p.len(),
{
    reveal(Seq::filter);
    let full = |w: Seq<char>| w.len() > 0;
    if p.len() > 0 {
        lemma_filtered_no_longer(p.drop_last());
        let f = p.drop_last().filter(full);
        if full(p.last()) {
            assert(f.push(p.last()).drop_last() =~= f);
        }
    }
}

/// Appends the words of a line.
fn push_line_words(words: &mut Vec<DetectedWord>, line: LineBox, text: &str, score: F32)
    ensures
        views(final(words)@) == views(old(words)@) + line_words(line, text@, score),
{
    let ghost start = views(words@);
    let said: String = trim(text);
    if said.as_str().is_empty() || score.less(F32 { bits: LEAST_SCORE }) {
        proof {
            assert(start + Seq::<Word>::empty() =~= start);
        }
        return ;
    }
    let length: usize = chars_of(said.as_str()).len();
    let tokens: Vec<String> = split_words(said.as_str());
    let ghost t = texts(tokens@);
    let counts: Vec<usize> = count_chars(&tokens);
    let n: usize = tokens.len();
    proof {
        lemma_parts_no_longer(said@);
        lemma_filtered_no_longer(blank_parts(said@));
        assert(char_count(t) <= length);
        assert(t.take(0) =~= Seq::<Seq<char>>::empty());
    }
    let mut total: usize = 0;
    let mut i: usize = 0;
    while i < n
        invariant
            i <= n == t.len() == counts@.len(),
            forall|k: int| 0 <= k < counts@.len() ==> #[trigger] counts@[k] == t[k].len(),
            total == char_count(t.take(i as int)),
            char_count(t) <= length,
        decreases n - i,
    {
        proof {
            assert(t.take(i + 1).drop_last() =~= t.take(i as int));
            lemma_char_count_grows(t, (i + 1) as nat);
        }
        total = total + counts[i];
        i = i + 1;
    }
    proof {
        assert(t.take(n as int) =~= t);
    }
    if n == 0 {
        proof {
            assert(spread(line, t) =~= Seq::<Word>::empty());
            assert(start + Seq::<Word>::empty() =~= start);
        }
        return ;
    }
    let b: PixelBox = line.1;
    let half: F64 = F64 { bits: SPACE_PART };
    let chars: F64 = F64::of_count(
        if total > 1 {
            total as u64
        } else {
            1
        },
    );
    let spaces: F64 = F64::of_count((n - 1) as u64);
    let wide: F64 = F64::of_count(b.2 as u64).over(chars.plus(spaces.times(half)));
    let space: F64 = wide.times(half);
    let y: F64 = F64::of_count(b.1 as u64);
    let h: F64 = F64::of_count(b.3 as u64);
    let mut x: F64 = F64::of_count(b.0 as u64);
    let mut k: usize = 0;
    let ghost target = spread(line, t);
    proof {
        assert(wide == char_width(b, t));
        assert(views(words@) =~= start + target.take(0));
    }
    while k < n
        invariant
            k <= n == t.len() == counts@.len() == tokens@.len() == target.len(),
            t == texts(tokens@),
            target == spread(line, t),
            b == line.1,
            forall|i: int| 0 <= i < counts@.len() ==> #[trigger] counts@[i] == t[i].len(),
            wide == char_width(b, t),
            space == wide.spec_times(F64 { bits: SPACE_PART }),
            y == F64::of_nat(b.1 as nat),
            h == F64::of_nat(b.3 as nat),
            x == token_left(b, t, k as nat),
            views(words@) == start + target.take(k as int),
        decreases n - k,
    {
        let w: F64 = F64::of_count(counts[k] as u64).times(wide).max(
            F64 { bits: LEAST_WORD_WIDTH },
        );
        let ghost before = words@;
        let word: DetectedWord = DetectedWord {
            x,
            y,
            w,
            h,
            text: tokens[k].clone(),
            line_num: line.0,
            par_num: 0,
            block_num: 0,
        };
        let ghost v = word@;
        words.push(word);
        proof {
            assert(t[k as int] == tokens@[k as int]@);
            assert(w == token_width(b, t, k as int));
            assert(views(words@) =~= views(before).push(v));
            assert(v == target[k as int]);
            assert(views(words@) =~= start + target.take(k + 1));
        }
        x = x.plus(w.plus(space));
        k = k + 1;
    }
    proof {
        assert(target.take(k as int) =~= target);
    }
}

/// The words that were read in the boxes of a picture, by line and from left to right.
pub fn words_in_boxes(boxes: &Vec<LineBox>, read: &Vec<(String, F32)>) -> (r: Vec<DetectedWord>)
    requires
        read@.len() == boxes@.len(),
    ensures
        views(r@) == by_line_and_left(
            all_line_words(boxes@, readings(read@), boxes@.len()),
        ),
{
    let mut words: Vec<DetectedWord> = Vec::new();
    let mut i: usize = 0;
    proof {
        assert(views(words@) =~= all_line_words(boxes@, readings(read@), 0));
    }
    while i < boxes.len()
        invariant
            i <= boxes@.len() == read@.len(),
            views(words@) == all_line_words(boxes@, readings(read@), i as nat),
        decreases boxes@.len() - i,
    {
        let line: &(String, F32) = &read[i];
        push_line_words(&mut words, boxes[i], line.0.as_str(), line.1);
        i = i + 1;
    }
    let ghost all = views(words@);
    let mut keys: Vec<Key> = Vec::new();
    let ghost wanted = Seq::new(
        all.len(),
        |i: int| (all[i].line_num as u64, all[i].frame.x.order() as u64, 0u64),
    );
    let mut j: usize = 0;
    while j < words.len()
        invariant
            j <= words@.len(),
            all == views(words@),
            wanted == Seq::new(
                all.len(),
                |i: int| (all[i].line_num as u64, all[i].frame.x.order() as u64, 0u64),
            ),
            keys@ == wanted.take(j as int),
        decreases words@.len() - j,
    {
        keys.push((words[j].line_num as u64, words[j].x.order_key(), 0));
        j = j + 1;
        proof {
            assert(keys@ =~= wanted.take(j as int));
        }
    }
    proof {
        assert(keys@ =~= wanted);
    }
    let order: Vec<usize> = sort_positions(&keys);
    let mut r: Vec<DetectedWord> = Vec::new();
    let mut k: usize = 0;
    let ghost target = by_line_and_left(all);
    while k < order.len()
        invariant
            k <= order@.len(),
            order@ == stable_order(wanted),
            covers(order@, words@.len()),
            all == views(words@),
            target == arranged(all, order@),
            views(r@) == target.take(k as int),
        decreases order@.len() - k,
    {
        let ghost before = r@;
        let word: DetectedWord = words[order[k]].clone();
        let ghost v = word@;
        r.push(word);
        k = k + 1;
        proof {
            assert(views(r@) =~= views(before).push(v));
            assert(views(r@) =~= target.take(k as int));
        }
    }
    proof {
        assert(target.take(k as int) =~= target);
    }
    r
}

/// The words that were read are kept, each once, and stand by line and from left to right.
pub proof fn law_read_words_are_kept_in_order(words: Seq<Word>)
    requires
        words.len() <= usize::MAX,
    ensures
        exists|order: Seq<usize>| #[trigger]
            covers(order, words.len()) && by_line_and_left(words) == arranged(words, order),
        forall|i: int, j: int|
            0 <= i < j < words.len() ==> {
                let a = #[trigger] by_line_and_left(words)[i];
                let b = #[trigger] by_line_and_left(words)[j];
                a.line_num < b.line_num || (a.line_num == b.line_num && a.frame.x.order()
                    <= b.frame.x.order())
            },
{
    let keys = Seq::new(
        words.len(),
        |i: int| (words[i].line_num as u64, words[i].frame.x.order() as u64, 0u64),
    );
    lemma_stable_order(keys);
    let order = stable_order(keys);
    assert(covers(order, words.len()));
    assert forall|i: int, j: int| 0 <= i < j < words.len() implies {
        let a = #[trigger] by_line_and_left(words)[i];
        let b = #[trigger] by_line_and_left(words)[j];
        a.line_num < b.line_num || (a.line_num == b.line_num && a.frame.x.order()
            <= b.frame.x.order())
    } by {
        assert(key_le(keys[order[i] as int], keys[order[j] as int]));
    }
}

/// Two boxes are on one line where their tops are no further from each other than eight, or than
/// half of the lower of their heights, and on two lines otherwise, whichever of them is the first.
pub proof fn law_boxes_of_one_line_have_near_tops(a: PixelBox, b: PixelBox)
    ensures
        is_off(a, b) == is_off(b, a),
        !is_off(a, b) <==> {
            ||| -8 <= a.1 - b.1 <= 8
            ||| -(a.3 as int) <= 2 * (a.1 - b.1) <= a.3 && -(b.3 as int) <= 2 * (a.1 - b.1)
                <= b.3
        },
{
}

/// A line begins with its first box, and a box begins a line where it is off the first box of the
/// line before; boxes have the number of one line where they have one first box, and the numbers
/// of lines go up by one.
pub proof fn law_lines_of_boxes_begin_where_a_box_is_off(boxes: Seq<PixelBox>, i: nat)
    requires
        0 < i < boxes.len(),
    ensures
        line_first(boxes, 0) == 0 && line_number(boxes, 0) == 0,
        ({
            let first = line_first(boxes, (i - 1) as nat);
            &&& first < i
            &&& is_off(boxes[first as int], boxes[i as int]) ==> line_first(boxes, i) == i
                && line_number(boxes, i) == line_number(boxes, (i - 1) as nat) + 1
            &&& !is_off(boxes[first as int], boxes[i as int]) ==> line_first(boxes, i) == first
                && line_number(boxes, i) == line_number(boxes, (i - 1) as nat)
        }),
{
    lemma_line_first(boxes, (i - 1) as nat);
}

/// Every box that was detected, lies in the picture and is at least four wide and high is read.
pub proof fn law_every_usable_box_is_read(
    width: u32,
    height: u32,
    detected: Seq<PixelBox>,
    i: int,
)
    requires
        detected.len() <= usize::MAX,
        0 <= i < detected.len(),
        width >= 4,
        height >= 4,
        height > 48 || width > 800,
        detected[i].0 + detected[i].2 <= width,
        detected[i].1 + detected[i].3 <= height,
        detected[i].2 >= 4,
        detected[i].3 >= 4,
    ensures
        exists|k: int|
            0 <= k < line_boxes(width, height, detected).len() && (#[trigger] line_boxes(
                width,
                height,
                detected,
            )[k]).1 == detected[i],
{
    let keys = Seq::new(
        detected.len(),
        |i: int| (detected[i].1 as u64, detected[i].0 as u64, 0u64),
    );
    lemma_stable_order(keys);
    let order = stable_order(keys);
    let top = by_top(detected);
    assert(order.contains(i as usize));
    let a = choose|a: int| 0 <= a < order.len() && order[a] == i as usize;
    assert(top[a] == detected[i]);
    let boxes = numbered(top);
    let more = Seq::new(boxes.len(), |i: int| (boxes[i].0 as u64, boxes[i].1.0 as u64, 0u64));
    lemma_stable_order(more);
    let sorted = stable_order(more);
    assert(sorted.contains(a as usize));
    let b = choose|b: int| 0 <= b < sorted.len() && sorted[b] == a as usize;
    let all = by_line(boxes);
    assert(all[b].1 == detected[i]);
    let usable = |b: LineBox| is_usable(width, height, b.1);
    assert(usable(all[b]));
    all.lemma_filter_contains(usable, b);
    let read = line_boxes(width, height, detected);
    assert(read == all.filter(usable));
    let k = choose|k: int| 0 <= k < read.len() && read[k] == all[b];
    assert(read[k].1 == detected[i]);
}

/// A picture that may be one line, at most 48 high and 800 wide, is read as a whole, and so is one
/// in which nothing was detected; one that is less than four wide or high is not read.
pub proof fn law_small_pictures_are_read_as_a_whole(
    width: u32,
    height: u32,
    detected: Seq<PixelBox>,
)
    ensures
        width < 4 || height < 4 ==> line_boxes(width, height, detected).len() == 0,
        width >= 4 && height >= 4 && ((height <= 48 && width <= 800) || detected.len() == 0) ==> {
            &&& line_boxes(width, height, detected).len() == 1
            &&& line_boxes(width, height, detected)[0] == (0usize, (0u32, 0u32, width, height))
        },
{
}

/// What was read with a score below a quarter, or is blank, gives no words; other text gives its
/// words, each with the number of its line, the top and the height of its box.
pub proof fn law_words_are_read_in_their_box(line: LineBox, text: Seq<char>, score: F32)
    requires
        score.finite(),
    ensures
        4 * score.value() < one_single() ==> line_words(line, text, score).len() == 0,
        4 * score.value() >= one_single() && trimmed(text).len() > 0 ==> line_words(
            line,
            text,
            score,
        ).len() == words_of(trimmed(text)).len(),
        forall|k: int|
            0 <= k < line_words(line, text, score).len() ==> {
                let w = #[trigger] line_words(line, text, score)[k];
                &&& w.text == words_of(trimmed(text))[k]
                &&& w.line_num == line.0
                &&& w.frame.y.finite() && w.frame.h.finite()
                &&& w.frame.y.value() == line.1.1 * one()
                &&& w.frame.h.value() == line.1.3 * one()
            },
        line_words(line, text, score).len() > 0 ==> {
            let x = line_words(line, text, score)[0].frame.x;
            x.finite() && x.value() == line.1.0 * one()
        },
{
    let least = F32 { bits: LEAST_SCORE };
    lemma_bits_single(LEAST_SCORE, 124, 0x80_0000);
    lemma_pow2_adds(23, 124);
    lemma_pow2_adds(2, 147);
    lemma2_to64();
    lemma_compare_single(score, least);
    lemma_of_nat(line.1.0 as nat);
    lemma_of_nat(line.1.1 as nat);
    lemma_of_nat(line.1.3 as nat);
}

/// Twice the characters of a line, at least one, and the spaces between its words: what the width
/// of the box is shared by, a space taking half of what a character takes.
pub open spec fn shares_of(tokens: Seq<Seq<char>>) -> int {
    2 * (if char_count(tokens) > 1 {
        char_count(tokens) as int
    } else {
        1
    }) + tokens.len() - 1
}

/// The number of shares is exact.
proof fn lemma_shares_of(tokens: Seq<Seq<char>>)
    requires
        tokens.len() > 0,
        char_count(tokens) + tokens.len() <= 0x4000_0000,
    ensures
        ({
            let count = char_count(tokens);
            let chars = F64::of_nat(if count > 1 {
                count
            } else {
                1
            });
            let spaces = F64::of_nat((tokens.len() - 1) as nat);
            let d = chars.spec_plus(spaces.spec_times(F64 { bits: SPACE_PART }));
            &&& is_ordinary(d)
            &&& 2 * d.value() == shares_of(tokens) * one()
            &&& shares_of(tokens) >= 2
        }),
{
    let count = char_count(tokens);
    let c = if count > 1 {
        count
    } else {
        1
    };
    let s = (tokens.len() - 1) as nat;
    let chars = F64::of_nat(c);
    let spaces = F64::of_nat(s);
    let part = F64 { bits: SPACE_PART };
    lemma2_to64_rest();
    lemma_fraction_bits(SPACE_PART, 0x10_0000_0000_0000, 53);
    lemma_of_nat(c);
    lemma_of_nat(s);
    lemma_one_is_large();
    vstd::arithmetic::power2::lemma_pow2_unfold(1074);
    let o = one();
    let e = pow2(1073) as int;
    assert(o == 2 * e);
    assert(part.value() == e);
    let t = spaces.spec_times(part);
    lemma_times(spaces, part);
    lemma_shifted_is_number(s as int, 1073);
    let z = choose|z: F64| z.finite() && #[trigger] z.value() == s * pow2(1073);
    assert(z.value() * o == spaces.value() * part.value()) by (nonlinear_arith)
        requires
            z.value() == s * e,
            spaces.value() == s * o,
            part.value() == e,
    ;
    lemma_exact(t, spaces.value() * part.value(), o, z);
    let n = 2 * c + s;
    assert(c * o + s * e == n * e) by (nonlinear_arith)
        requires
            o == 2 * e,
            n == 2 * c + s,
    ;
    lemma_shifted_is_number(n as int, 1073);
    lemma_plus(chars, t);
    lemma_exact_whole(chars.spec_plus(t), n * e);
    assert(2 * (n * e) == n * o) by (nonlinear_arith)
        requires
            o == 2 * e,
    ;
    let v = n * e;
    assert(o <= 0x1_0000_0000_0000_0000 * v && v <= 0x1_0000_0000_0000_0000 * o) by (nonlinear_arith)
        requires
            v == n * e,
            o == 2 * e,
            2 <= n <= 0x8000_0000,
            e > 0,
    ;
}

/// Each word takes the part of the width of its box that its characters have among the shares of
/// the line, up to one part in `2^51`, and four at least.
pub proof fn law_words_share_the_width_of_their_box(line: LineBox, tokens: Seq<Seq<char>>, k: int)
    requires
        0 <= k < tokens.len(),
        tokens[k].len() <= 0x4000_0000,
        char_count(tokens) + tokens.len() <= 0x4000_0000,
    ensures
        ({
            let w = spread(line, tokens)[k].frame.w;
            let n = shares_of(tokens);
            let e = 2 * tokens[k].len() * line.1.2 * one();
            &&& w.finite()
            &&& w.value() >= 4 * one()
            &&& 0x8_0000_0000_0000 * (e - w.value() * n) <= e
            &&& w.value() == 4 * one() || 0x8_0000_0000_0000 * (w.value() * n - e) <= e
        }),
{
    let b = line.1;
    let count = char_count(tokens);
    let chars = F64::of_nat(if count > 1 {
        count
    } else {
        1
    });
    let spaces = F64::of_nat((tokens.len() - 1) as nat);
    let d = chars.spec_plus(spaces.spec_times(F64 { bits: SPACE_PART }));
    let l = tokens[k].len();
    lemma_shares_of(tokens);
    lemma_count_is_ordinary(l);
    lemma_count_is_ordinary(b.2 as nat);
    lemma_one_is_large();
    let n = shares_of(tokens);
    let o = one();
    assert(n * o > 0) by (nonlinear_arith)
        requires
            n >= 2,
            o > 0,
    ;
    lemma_ratio(F64::of_nat(l), F64::of_nat(b.2 as nat), d);
    let r = F64::of_nat(l).spec_times(char_width(b, tokens));
    let u = r.value();
    let e = 2 * l * b.2 * o;
    assert(0x8_0000_0000_0000 * (u * n - e) <= e && 0x8_0000_0000_0000 * (e - u * n) <= e)
        by (nonlinear_arith)
        requires
            0x8_0000_0000_0000 * (u * d.value() - (l * o) * (b.2 * o)) <= (l * o) * (b.2 * o),
            0x8_0000_0000_0000 * ((l * o) * (b.2 * o) - u * d.value()) <= (l * o) * (b.2 * o),
            2 * d.value() == n * o,
            e == 2 * l * b.2 * o,
            o > 0,
    ;
    let four = F64 { bits: LEAST_WORD_WIDTH };
    lemma2_to64_rest();
    lemma_whole_bits(LEAST_WORD_WIDTH, 4, 50);
    lemma_min_max(r, four);
    let w = spread(line, tokens)[k].frame.w;
    assert(w == r.spec_max(four));
    assert(u * n <= w.value() * n) by (nonlinear_arith)
        requires
            u <= w.value(),
            n >= 2,
    ;
}

/// Words of a line follow each other from left to right: none begins before the one before it
/// ends.
pub proof fn law_words_of_a_line_do_not_overlap(line: LineBox, tokens: Seq<Seq<char>>, k: int)
    requires
        0 <= k < tokens.len() - 1,
        tokens[k].len() <= 0x4000_0000,
        char_count(tokens) + tokens.len() <= 0x4000_0000,
        spread(line, tokens)[k].frame.x.finite(),
    ensures
        spread(line, tokens)[k].frame.spec_right().spec_at_most(spread(line, tokens)[k + 1].frame.x),
{
    let b = line.1;
    law_words_share_the_width_of_their_box(line, tokens, k);
    let w = token_width(b, tokens, k);
    let c = char_width(b, tokens);
    let half = F64 { bits: SPACE_PART };
    lemma_gap(b, tokens);
    let gap = c.spec_times(half);
    lemma_gap_is_small(b, tokens);
    lemma_plus(w, gap);
    lemma_compare_nearly(w.spec_plus(gap), w.value() + gap.value(), 1, w);
    let x = token_left(b, tokens, k as nat);
    assert(spread(line, tokens)[k].frame.x == x);
    assert(spread(line, tokens)[k + 1].frame.x == x.spec_plus(w.spec_plus(gap)));
    if w.spec_plus(gap).finite() {
        lemma_compare(w, w.spec_plus(gap));
        lemma_plus_grows(x, w, w.spec_plus(gap));
    } else {
        lemma_plus(x, w);
        lemma_infinite_sum(x, w.spec_plus(gap), x.spec_plus(w));
    }
}

proof fn lemma_infinite_sum(x: F64, b: F64, r: F64)
    requires
        x.finite(),
        !b.is_nan(),
        !b.finite(),
        !b.datum().neg,
        !r.is_nan(),
    ensures
        r.spec_at_most(x.spec_plus(b)),
{
    reveal(crate::datum::sum_of);
}

/// The gap between words is half of a character wide.
proof fn lemma_gap(b: PixelBox, tokens: Seq<Seq<char>>)
    requires
        tokens.len() > 0,
        char_count(tokens) + tokens.len() <= 0x4000_0000,
    ensures
        char_width(b, tokens).finite(),
        0 <= char_width(b, tokens).value() <= 0x2_0000_0000 * one(),
{
    let count = char_count(tokens);
    let chars = F64::of_nat(if count > 1 {
        count
    } else {
        1
    });
    let spaces = F64::of_nat((tokens.len() - 1) as nat);
    let d = chars.spec_plus(spaces.spec_times(F64 { bits: SPACE_PART }));
    lemma_shares_of(tokens);
    lemma_one_is_large();
    lemma_of_nat(b.2 as nat);
    lemma_of_nat(0);
    lemma_of_nat(0x2_0000_0000);
    let o = one();
    let n = shares_of(tokens);
    let v = d.value();
    assert(v >= o) by (nonlinear_arith)
        requires
            2 * v == n * o,
            n >= 2,
            o > 0,
    ;
    lemma_over(F64::of_nat(b.2 as nat), d);
    let w = b.2 * o;
    assert(0 * v == 0);
    assert(0 <= w * o <= (0x2_0000_0000 * o) * v) by (nonlinear_arith)
        requires
            w == b.2 * o,
            b.2 <= 0xffff_ffff,
            v >= o,
            o > 0,
    ;
    lemma_bounded(char_width(b, tokens), w * o, v, F64::of_nat(0), F64::of_nat(0x2_0000_0000));
}

/// The gap between words is a number and not negative.
proof fn lemma_gap_is_small(b: PixelBox, tokens: Seq<Seq<char>>)
    requires
        tokens.len() > 0,
        char_count(tokens) + tokens.len() <= 0x4000_0000,
    ensures
        char_width(b, tokens).spec_times(F64 { bits: SPACE_PART }).finite(),
        char_width(b, tokens).spec_times(F64 { bits: SPACE_PART }).value() >= 0,
{
    lemma_gap(b, tokens);
    let c = char_width(b, tokens);
    let half = F64 { bits: SPACE_PART };
    lemma2_to64_rest();
    lemma_fraction_bits(SPACE_PART, 0x10_0000_0000_0000, 53);
    lemma_one_is_large();
    lemma_of_nat(0);
    lemma_times(c, half);
    let o = one();
    assert(0 * o == 0);
    assert(0 <= c.value() * half.value() <= c.value() * o) by (nonlinear_arith)
        requires
            c.value() >= 0,
            0 <= half.value() <= o,
    ;
    lemma_bounded(c.spec_times(half), c.value() * half.value(), o, F64::of_nat(0), c);
}

/// Words of a line are one share of the line apart, half of what a character takes, up to a part of
/// a pixel in a thousand.
pub proof fn law_words_of_a_line_are_half_a_character_apart(
    line: LineBox,
    tokens: Seq<Seq<char>>,
    k: int,
)
    requires
        0 <= k < tokens.len() - 1,
        tokens[k].len() <= 0x4000_0000,
        char_count(tokens) + tokens.len() <= 0x4000_0000,
        spread(line, tokens)[k].frame.x.finite(),
        0 <= spread(line, tokens)[k].frame.x.value() <= 0x4_0000_0000 * one(),
        spread(line, tokens)[k].frame.w.value() <= 0x4_0000_0000 * one(),
    ensures
        ({
            let f = spread(line, tokens)[k].frame;
            let next = spread(line, tokens)[k + 1].frame.x;
            let gap = next.value() - f.x.value() - f.w.value();
            let n = shares_of(tokens);
            &&& next.finite()
            &&& 1024 * (gap * n - line.1.2 * one()) <= n * one()
            &&& 1024 * (line.1.2 * one() - gap * n) <= n * one()
        }),
{
    let b = line.1;
    let o = one();
    let n = shares_of(tokens);
    let half = 0x20_0000_0000_0000int;
    law_words_share_the_width_of_their_box(line, tokens, k);
    lemma_gap(b, tokens);
    lemma_gap_is_small(b, tokens);
    lemma_shares_of(tokens);
    lemma_one_is_large();
    lemma_count_is_ordinary(b.2 as nat);
    let count = char_count(tokens);
    let chars = F64::of_nat(if count > 1 {
        count
    } else {
        1
    });
    let spaces = F64::of_nat((tokens.len() - 1) as nat);
    let d = chars.spec_plus(spaces.spec_times(F64 { bits: SPACE_PART }));
    assert(n * o > 0) by (nonlinear_arith)
        requires
            n >= 2,
            o > 0,
    ;
    lemma_scale(F64::of_nat(b.2 as nat), d);
    let cw = char_width(b, tokens);
    let c = cw.value();
    let v = b.2 * o;
    assert(half * (c * n) <= half * (2 * v) + 2 * v && half * (2 * v) <= half * (c * n) + 2 * v)
        by (nonlinear_arith)
        requires
            half * (c * d.value()) <= half * (v * o) + v * o,
            half * (v * o) <= half * (c * d.value()) + v * o,
            2 * d.value() == n * o,
            o > 0,
    ;
    // The gap is half of that.
    let part = F64 { bits: SPACE_PART };
    lemma2_to64_rest();
    lemma_fraction_bits(SPACE_PART, 0x10_0000_0000_0000, 53);
    assert(2 * part.value() == o);
    let gap = cw.spec_times(part);
    let g = gap.value();
    if b.2 > 0 {
        assert(v >= o) by (nonlinear_arith)
            requires
                v == b.2 * o,
                b.2 >= 1,
                o > 0,
        ;
        assert(c >= 0x40_0000_0000_0000) by (nonlinear_arith)
            requires
                half * (2 * v) <= half * (c * n) + 2 * v,
                half == 0x20_0000_0000_0000,
                v >= 0x1_0000_0000_0000_0000 * 0x1_0000_0000_0000_0000,
                2 <= n <= 0x8000_0000,
                c >= 0,
        ;
        assert(c * part.value() >= 0x10_0000_0000_0000 * o) by (nonlinear_arith)
            requires
                c >= 0x40_0000_0000_0000,
                2 * part.value() == o,
                o > 0,
        ;
    } else {
        assert(c == 0) by (nonlinear_arith)
            requires
                half * (c * n) <= half * (2 * v) + 2 * v,
                half == 0x20_0000_0000_0000,
                v == b.2 * o,
                b.2 == 0,
                n >= 2,
                c >= 0,
        ;
        assert(0 * part.value() == 0);
    }
    lemma_times_error(cw, part);
    assert(half * (2 * g) <= half * c + c && half * c <= half * (2 * g) + c) by (nonlinear_arith)
        requires
            half * (g * o) <= half * (c * part.value()) + c * part.value(),
            half * (c * part.value()) <= half * (g * o) + c * part.value(),
            2 * part.value() == o,
            o > 0,
    ;
    let cn = c * n;
    let gn = g * n;
    assert(half * (2 * gn) <= half * cn + cn && half * cn <= half * (2 * gn) + cn)
        by (nonlinear_arith)
        requires
            half * (2 * g) <= half * c + c,
            half * c <= half * (2 * g) + c,
            cn == c * n,
            gn == g * n,
            n >= 2,
    ;
    assert(0 <= v <= 0xffff_ffff * o) by (nonlinear_arith)
        requires
            v == b.2 * o,
            b.2 <= 0xffff_ffff,
            o > 0,
    ;
    assert(0x8_0000 * (gn - v) <= o && 0x8_0000 * (v - gn) <= o);
    // The sums.
    let w = token_width(b, tokens, k);
    let x = token_left(b, tokens, k as nat);
    let s = w.spec_plus(gap);
    lemma_of_nat(0);
    lemma_of_nat(0x10_0000_0000);
    lemma_plus(w, gap);
    assert(g <= 0x4_0000_0000 * o) by (nonlinear_arith)
        requires
            0x8_0000 * (gn - v) <= o,
            v <= 0xffff_ffff * o,
            gn == g * n,
            n >= 2,
            o > 0,
            g >= 0,
    ;
    lemma_bounded(s, w.value() + g, 1, F64::of_nat(0), F64::of_nat(0x10_0000_0000));
    lemma_plus_error(w, gap);
    let next = x.spec_plus(s);
    lemma_plus(x, s);
    lemma_bounded(next, x.value() + s.value(), 1, F64::of_nat(0), F64::of_nat(0x10_0000_0000));
    lemma_plus_error(x, s);
    let e = next.value() - x.value() - w.value() - g;
    assert(0x1000 * e <= o && -(0x1000 * e) <= o);
    let all = next.value() - x.value() - w.value();
    assert(all * n == gn + e * n) by (nonlinear_arith)
        requires
            all == g + e,
            gn == g * n,
    ;
    assert(0x1000 * (e * n) <= n * o && -(0x1000 * (e * n)) <= n * o) by (nonlinear_arith)
        requires
            0x1000 * e <= o,
            -(0x1000 * e) <= o,
            n >= 2,
    ;
    assert(o <= n * o) by (nonlinear_arith)
        requires
            n >= 2,
            o > 0,
    ;
    assert(spread(line, tokens)[k + 1].frame.x == next);
}

/// Boxes are put on lines from top to bottom, those of one top from left to right.
pub proof fn law_boxes_are_taken_from_top_to_bottom(boxes: Seq<PixelBox>)
    requires
        boxes.len() <= usize::MAX,
    ensures
        exists|order: Seq<usize>| #[trigger]
            covers(order, boxes.len()) && by_top(boxes) == arranged(boxes, order),
        forall|i: int, j: int|
            0 <= i < j < boxes.len() ==> {
                let a = #[trigger] by_top(boxes)[i];
                let b = #[trigger] by_top(boxes)[j];
                a.1 < b.1 || (a.1 == b.1 && a.0 <= b.0)
            },
{
    let keys = Seq::new(boxes.len(), |i: int| (boxes[i].1 as u64, boxes[i].0 as u64, 0u64));
    lemma_stable_order(keys);
    let order = stable_order(keys);
    assert(covers(order, boxes.len()));
    assert forall|i: int, j: int| 0 <= i < j < boxes.len() implies {
        let a = #[trigger] by_top(boxes)[i];
        let b = #[trigger] by_top(boxes)[j];
        a.1 < b.1 || (a.1 == b.1 && a.0 <= b.0)
    } by {
        assert(key_le(keys[order[i] as int], keys[order[j] as int]));
    }
}

/// Boxes with the numbers of their lines are put in order by these, and those of one line from left
/// to right.
pub proof fn law_boxes_stand_line_by_line(boxes: Seq<LineBox>)
    requires
        boxes.len() <= usize::MAX,
    ensures
        exists|order: Seq<usize>| #[trigger]
            covers(order, boxes.len()) && by_line(boxes) == arranged(boxes, order),
        forall|i: int, j: int|
            0 <= i < j < boxes.len() ==> {
                let a = #[trigger] by_line(boxes)[i];
                let b = #[trigger] by_line(boxes)[j];
                a.0 < b.0 || (a.0 == b.0 && a.1.0 <= b.1.0)
            },
{
    let keys = Seq::new(boxes.len(), |i: int| (boxes[i].0 as u64, boxes[i].1.0 as u64, 0u64));
    lemma_stable_order(keys);
    let order = stable_order(keys);
    assert(covers(order, boxes.len()));
    assert forall|i: int, j: int| 0 <= i < j < boxes.len() implies {
        let a = #[trigger] by_line(boxes)[i];
        let b = #[trigger] by_line(boxes)[j];
        a.0 < b.0 || (a.0 == b.0 && a.1.0 <= b.1.0)
    } by {
        assert(key_le(keys[order[i] as int], keys[order[j] as int]));
    }
}

/// The characters of a line are those of its words together.
pub proof fn law_characters_are_counted_word_by_word(
    a: Seq<Seq<char>>,
    b: Seq<Seq<char>>,
    t: Seq<char>,
)
    ensures
        char_count(a + b) == char_count(a) + char_count(b),
        char_count(seq![t]) == t.len(),
        char_count(Seq::<Seq<char>>::empty()) == 0,
    decreases b.len(),
{
    reveal_with_fuel(char_count, 2);
    assert(seq![t].drop_last() =~= Seq::<Seq<char>>::empty());
    if b.len() == 0 {
        assert(a + b =~= a);
    } else {
        law_characters_are_counted_word_by_word(a, b.drop_last(), t);
        assert((a + b).drop_last() =~= a + b.drop_last());
        assert((a + b).last() == b.last());
    }
}

} // verus!
