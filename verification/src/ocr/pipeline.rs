//! From what the engines report to words in reading order and to text.

use vstd::prelude::*;
use vstd::string::StringExecFns;
use crate::float::F64;
use crate::ocr::layout::{Band, is_parted, measure, read_lines};
use crate::ocr::layout::{lines_in, lines_view, measures, parted, read_through, reading_lines};
use crate::text::{lemma_no_words, lemma_words_joined, words_of};
use crate::ocr::words::Frame;
use crate::ocr::words::{Word, frames_of, views};

pub use crate::ocr::engine::{OcrEngine, extract_words_onnx_or_fallback, init_global_ocr};
pub use crate::ocr::preparation::preprocess_for_ocr;
pub use crate::ocr::tesseract::{run_tesseract, run_tesseract_tsv};
pub use crate::ocr::words::DetectedWord;

verus! {

/// The part of a line's height that a word may be off its middle when words are
/// joined, as bits of a 64-bit number: 0.45.
pub const JOIN_PART: u64 = 0x3fdc_cccc_cccc_cccd;

/// Words behind references, as their views.
pub open spec fn ref_views(words: Seq<&DetectedWord>) -> Seq<Word> {
    Seq::new(words.len(), |i: int| words[i]@)
}

/// The texts of words.
pub open spec fn texts_of(words: Seq<Word>) -> Seq<Seq<char>> {
    Seq::new(words.len(), |i: int| words[i].text)
}

/// The words of a line with a space between them.
pub open spec fn line_text(texts: Seq<Seq<char>>, line: Seq<usize>) -> Seq<char>
    decreases line.len(),
{
    if line.len() == 0 {
        Seq::empty()
    } else if line.len() == 1 {
        texts[line[0] as int]
    } else {
        line_text(texts, line.drop_last()).push(' ') + texts[line.last() as int]
    }
}

/// The first `n` lines, each on its own, with an empty line before a paragraph.
pub open spec fn lines_text(
    frames: Seq<Frame>,
    texts: Seq<Seq<char>>,
    lines: Seq<Seq<usize>>,
    n: nat,
) -> Seq<char>
    decreases n,
{
    if n == 0 {
        Seq::empty()
    } else if n == 1 {
        line_text(texts, lines[0])
    } else {
        let before = lines_text(frames, texts, lines, (n - 1) as nat);
        let line = line_text(texts, lines[n - 1]);
        if parted(frames, lines[n - 2], lines[n - 1]) {
            before.push('\n').push('\n') + line
        } else {
            before.push('\n') + line
        }
    }
}

/// The text that words form when they are read line by line.
pub open spec fn joined_text(words: Seq<Word>) -> Seq<char> {
    let frames = frames_of(words);
    let lines = reading_lines(frames, F64 { bits: JOIN_PART });
    lines_text(frames, texts_of(words), lines, lines.len())
}

/// Appends the words of a line, with a space between them.
fn push_line(text: &mut String, words: &[&DetectedWord], line: &Vec<usize>)
    requires
        forall|k: int| 0 <= k < line@.len() ==> #[trigger] line@[k] < words@.len(),
    ensures
        final(text)@ == old(text)@ + line_text(texts_of(ref_views(words@)), line@),
{
    let ghost texts = texts_of(ref_views(words@));
    let ghost start = text@;
    let mut k: usize = 0;
    proof {
        assert(line@.take(0) =~= Seq::<usize>::empty());
        assert(text@ =~= start + line_text(texts, line@.take(0)));
    }
    while k < line.len()
        invariant
            k <= line@.len(),
            forall|i: int| 0 <= i < line@.len() ==> #[trigger] line@[i] < words@.len(),
            texts == texts_of(ref_views(words@)),
            text@ == start + line_text(texts, line@.take(k as int)),
        decreases line@.len() - k,
    {
        let ghost shown = line_text(texts, line@.take(k as int));
        proof {
            assert(line@.take(k + 1).drop_last() =~= line@.take(k as int));
            assert(line@.take(k + 1).last() == line@[k as int]);
        }
        if k > 0 {
            text.push(' ');
        }
        let word: &DetectedWord = words[line[k]];
        text.append(word.text.as_str());
        proof {
            let t = texts[line@[k as int] as int];
            assert(t == word.text@);
            if k > 0 {
                assert(text@ =~= start + (shown.push(' ') + t));
            } else {
                assert(line@.take(1)[0] == line@[0]);
                assert(text@ =~= start + t);
            }
        }
        k = k + 1;
    }
    proof {
        assert(line@.take(k as int) =~= line@);
    }
}

/// Joins words into text: lines from top to bottom, words from left to right, and an
/// empty line between paragraphs.
pub fn join_words(words: &[&DetectedWord]) -> (text: String)
    ensures
        text@ == joined_text(ref_views(words@)),
{
    let ghost view = ref_views(words@);
    let ghost texts = texts_of(view);
    let mut frames: Vec<Frame> = Vec::new();
    let mut i: usize = 0;
    while i < words.len()
        invariant
            i <= words@.len(),
            view == ref_views(words@),
            frames@ == frames_of(view).take(i as int),
        decreases words@.len() - i,
    {
        frames.push(words[i].frame());
        i = i + 1;
        proof {
            assert(frames@ =~= frames_of(view).take(i as int));
        }
    }
    proof {
        assert(frames@ =~= frames_of(view));
    }
    let lines: Vec<Vec<usize>> = read_lines(&frames, F64 { bits: JOIN_PART });
    let ghost lv = lines_view(lines@);
    let mut text: String = String::new();
    let mut above: Option<Band> = None;
    let mut n: usize = 0;
    while n < lines.len()
        invariant
            n <= lines@.len(),
            lv == lines_view(lines@),
            lines_in(lv, words@.len()),
            frames@ == frames_of(view),
            view == ref_views(words@),
            texts == texts_of(view),
            text@ == lines_text(frames@, texts, lv, n as nat),
            n == 0 <==> above is None,
            above matches Some(b) ==> measures(b, frames@, lv[n - 1]),
        decreases lines@.len() - n,
    {
        proof {
            assert(lv[n as int] == lines@[n as int]@);
            assert(lv[n as int].len() > 0);
        }
        let line: &Vec<usize> = &lines[n];
        let band: Band = measure(&frames, line);
        let ghost before = text@;
        if let Some(b) = &above {
            if is_parted(
                b,
                &band,
                Ghost(frames@),
                Ghost(lv[n - 1]),
                Ghost(lv[n as int]),
            ) {
                text.push('\n');
                text.push('\n');
            } else {
                text.push('\n');
            }
        }
        push_line(&mut text, words, line);
        proof {
            assert(text@ =~= lines_text(frames@, texts, lv, (n + 1) as nat));
        }
        above = Some(band);
        n = n + 1;
    }
    text
}

/// Joins all words into text.
pub fn join_all(words: &Vec<DetectedWord>) -> (text: String)
    ensures
        text@ == joined_text(views(words@)),
{
    let mut refs: Vec<&DetectedWord> = Vec::new();
    let mut i: usize = 0;
    while i < words.len()
        invariant
            i <= words@.len(),
            ref_views(refs@) == views(words@).take(i as int),
        decreases words@.len() - i,
    {
        let ghost before = refs@;
        refs.push(&words[i]);
        i = i + 1;
        proof {
            assert(ref_views(refs@) =~= ref_views(before).push(words@[i - 1]@));
            assert(ref_views(refs@) =~= views(words@).take(i as int));
        }
    }
    proof {
        assert(views(words@).take(i as int) =~= views(words@));
    }
    join_words(refs.as_slice())
}

/// The words of texts, taken in an order.
pub open spec fn read_out(texts: Seq<Seq<char>>, order: Seq<usize>) -> Seq<Seq<char>>
    decreases order.len(),
{
    if order.len() == 0 {
        Seq::empty()
    } else {
        read_out(texts, order.drop_last()) + words_of(texts[order.last() as int])
    }
}

proof fn lemma_read_out_joined(texts: Seq<Seq<char>>, a: Seq<usize>, b: Seq<usize>)
    ensures
        read_out(texts, a + b) == read_out(texts, a) + read_out(texts, b),
    decreases b.len(),
{
    if b.len() == 0 {
        assert(a + b =~= a);
        assert(read_out(texts, a) + read_out(texts, b) =~= read_out(texts, a));
    } else {
        lemma_read_out_joined(texts, a, b.drop_last());
        assert((a + b).drop_last() =~= a + b.drop_last());
        assert(read_out(texts, a + b) =~= read_out(texts, a) + read_out(texts, b));
    }
}

proof fn lemma_line_read_out(texts: Seq<Seq<char>>, line: Seq<usize>)
    ensures
        words_of(line_text(texts, line)) == read_out(texts, line),
    decreases line.len(),
{
    if line.len() == 0 {
        lemma_no_words();
    } else if line.len() == 1 {
        assert(line.drop_last() =~= Seq::<usize>::empty());
        assert(read_out(texts, line.drop_last()) =~= Seq::<Seq<char>>::empty());
        assert(read_out(texts, line) =~= words_of(texts[line[0] as int]));
    } else {
        lemma_line_read_out(texts, line.drop_last());
        lemma_words_joined(
            line_text(texts, line.drop_last()),
            ' ',
            texts[line.last() as int],
        );
    }
}

proof fn lemma_lines_read_out(
    frames: Seq<Frame>,
    texts: Seq<Seq<char>>,
    lines: Seq<Seq<usize>>,
    n: nat,
)
    requires
        n <= lines.len(),
    ensures
        words_of(lines_text(frames, texts, lines, n)) == read_out(texts, read_through(lines, n)),
    decreases n,
{
    if n == 0 {
        lemma_no_words();
    } else {
        let m = (n - 1) as nat;
        lemma_line_read_out(texts, lines[n - 1]);
        lemma_read_out_joined(texts, read_through(lines, m), lines[n - 1]);
        if n == 1 {
            assert(read_through(lines, 0) + lines[0] =~= lines[0]);
        } else {
            lemma_lines_read_out(frames, texts, lines, m);
            let before = lines_text(frames, texts, lines, m);
            let line = line_text(texts, lines[n - 1]);
            lemma_words_joined(before, '\n', line);
            lemma_words_joined(before.push('\n'), '\n', line);
            lemma_words_joined(before, '\n', Seq::empty());
            lemma_no_words();
            assert(before.push('\n') + Seq::<char>::empty() =~= before.push('\n'));
            assert(words_of(before) + Seq::<Seq<char>>::empty() =~= words_of(before));
        }
    }
}

/// Joining loses no word and invents none: the words of the joined text are the words
/// of the texts in reading order.
pub proof fn law_joined_text_reads_out_every_word(words: Seq<Word>)
    ensures
        ({
            let lines = reading_lines(frames_of(words), F64 { bits: JOIN_PART });
            words_of(joined_text(words)) == read_out(
                texts_of(words),
                read_through(lines, lines.len()),
            )
        }),
{
    let lines = reading_lines(frames_of(words), F64 { bits: JOIN_PART });
    lemma_lines_read_out(frames_of(words), texts_of(words), lines, lines.len());
}

} // verus!
