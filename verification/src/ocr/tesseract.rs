//! What Tesseract is asked and what it answers.

use vstd::prelude::*;
use crate::decimal::parse_decimal;
use crate::decimal::decimal_of;
use crate::float::F64;
use crate::ocr::layout::{Band, is_parted, measure, read_lines};
use crate::ocr::layout::{
    each_once, law_lines_hold_every_word_once, lemma_reading_covers, lines_in, lines_view, measures, parted,
    read_through, reading_lines, ONE,
};
use crate::sorting::covers;
use crate::ocr::preparation::{find_table_scale, prepare_for_table};
use crate::ocr::preparation::{prepared_for_table, table_scale, table_size, LOW_HEIGHT};
use crate::ocr::words::{DetectedWord, Frame};
use crate::ocr::words::{Word, frames_of, views};
use crate::picture::Picture;
use crate::picture::{Raster, can_scale, png_of};
use crate::text::{chars_of, parse_count, split_at_each, split_lines, trim};
use crate::text::{count_of, lines_of, parts, texts, trimmed};
use vstd::utf8::{decode_utf8, valid_utf8};

verus! {

/// The part of a line's height that a word may be off its middle when recognized
/// words are laid out, as bits of a 64-bit number: 0.5.
pub const LAYOUT_PART: u64 = 0x3fe0_0000_0000_0000;

/// The number that a field of a table writes, zero where it writes none, over the scale
/// of the picture that was read.
pub open spec fn scaled_field(field: Seq<char>, scale: F64) -> F64 {
    match decimal_of(field) {
        Some(n) => n.spec_over(scale),
        None => (F64 { bits: 0 }).spec_over(scale),
    }
}

/// The count that a field of a table writes, zero where it writes none.
pub open spec fn counted_field(field: Seq<char>) -> usize {
    match count_of(field) {
        Some(n) => n as usize,
        None => 0,
    }
}

/// The word that a row of a table describes. A row has twelve fields: its level, of which
/// the fifth is that of words, the page, block, paragraph, line and word numbers, the
/// left side, top, width and height, the confidence and the text.
pub open spec fn row_word(row: Seq<char>, scale: F64) -> Option<Word> {
    let f = parts(row, '\t');
    if f.len() >= 12 && f[0] =~= seq!['5'] && trimmed(f[11]).len() > 0 {
        Some(
            Word {
                frame: Frame {
                    x: scaled_field(f[6], scale),
                    y: scaled_field(f[7], scale),
                    w: scaled_field(f[8], scale),
                    h: scaled_field(f[9], scale),
                },
                text: trimmed(f[11]),
                line_num: counted_field(f[4]),
                par_num: counted_field(f[3]),
                block_num: counted_field(f[2]),
            },
        )
    } else {
        None
    }
}

/// The words that the first `n` rows of a table describe. The first row is the heading.
pub open spec fn table_words(rows: Seq<Seq<char>>, scale: F64, n: nat) -> Seq<Word>
    decreases n,
{
    if n <= 1 {
        Seq::empty()
    } else {
        let before = table_words(rows, scale, (n - 1) as nat);
        match row_word(rows[n - 1], scale) {
            Some(word) => before.push(word),
            None => before,
        }
    }
}

/// The number of the paragraph that a line belongs to: how many lines up to it are
/// parted from the line above.
pub open spec fn paragraph(frames: Seq<Frame>, lines: Seq<Seq<usize>>, line: nat) -> nat
    decreases line,
{
    if line == 0 {
        0
    } else if parted(frames, lines[line - 1], lines[line as int]) {
        paragraph(frames, lines, (line - 1) as nat) + 1
    } else {
        paragraph(frames, lines, (line - 1) as nat)
    }
}

/// A frame of a line, made narrower where it would reach the next one: it then ends one
/// short of it, but is one wide at least.
pub open spec fn fitted(frames: Seq<Frame>, line: Seq<usize>, k: int) -> Frame {
    let f = frames[line[k] as int];
    if k + 1 < line.len() {
        let next = frames[line[k + 1] as int].x;
        if next.spec_at_most(f.spec_right()) {
            Frame {
                w: next.spec_minus(F64 { bits: ONE }).spec_minus(f.x).spec_max(F64 { bits: ONE }),
                ..f
            }
        } else {
            f
        }
    } else {
        f
    }
}

/// The words of a line, numbered by line and paragraph.
pub open spec fn laid_line(words: Seq<Word>, lines: Seq<Seq<usize>>, i: int) -> Seq<Word> {
    let frames = frames_of(words);
    Seq::new(
        lines[i].len(),
        |k: int|
            Word {
                frame: fitted(frames, lines[i], k),
                text: words[lines[i][k] as int].text,
                line_num: i as usize,
                par_num: paragraph(frames, lines, i as nat) as usize,
                block_num: 0,
            },
    )
}

/// The words of the first `n` lines.
pub open spec fn laid_lines(words: Seq<Word>, lines: Seq<Seq<usize>>, n: nat) -> Seq<Word>
    decreases n,
{
    if n == 0 {
        Seq::empty()
    } else {
        laid_lines(words, lines, (n - 1) as nat) + laid_line(words, lines, n - 1)
    }
}

/// Words in reading order, numbered by line and paragraph.
pub open spec fn laid_out(words: Seq<Word>) -> Seq<Word> {
    let lines = reading_lines(frames_of(words), F64 { bits: LAYOUT_PART });
    laid_lines(words, lines, lines.len())
}

fn read_scaled(field: &str, scale: F64) -> (r: F64)
    ensures
        r == scaled_field(field@, scale),
{
    match parse_decimal(field) {
        Some(n) => n.over(scale),
        None => (F64 { bits: 0 }).over(scale),
    }
}

fn read_count(field: &str) -> (r: usize)
    ensures
        r == counted_field(field@),
{
    match parse_count(field) {
        Some(n) => n,
        None => 0,
    }
}

/// Reads a row of a table.
pub fn read_row(row: &str, scale: F64) -> (word: Option<DetectedWord>)
    ensures
        row_word(row@, scale) == (match word {
            Some(w) => Some(w@),
            None => None,
        }),
{
    let f: Vec<String> = split_at_each(row, '\t');
    let ghost p = parts(row@, '\t');
    proof {
        assert(texts(f@) == p);
        assert forall|i: int| 0 <= i < f@.len() implies (#[trigger] f@[i])@ == p[i] by {
            assert(texts(f@)[i] == f@[i]@);
        }
    }
    if f.len() < 12 {
        return None;
    }
    let level: Vec<char> = chars_of(f[0].as_str());
    proof {
        assert(f@[0]@ == p[0]);
        assert(f@[2]@ == p[2]);
        assert(f@[3]@ == p[3]);
        assert(f@[4]@ == p[4]);
        assert(f@[6]@ == p[6]);
        assert(f@[7]@ == p[7]);
        assert(f@[8]@ == p[8]);
        assert(f@[9]@ == p[9]);
        assert(f@[11]@ == p[11]);
    }
    if level.len() != 1 || level[0] != '5' {
        return None;
    }
    proof {
        assert(p[0] =~= seq!['5']);
    }
    let text: String = trim(f[11].as_str());
    if text.as_str().is_empty() {
        return None;
    }
    Some(
        DetectedWord {
            x: read_scaled(f[6].as_str(), scale),
            y: read_scaled(f[7].as_str(), scale),
            w: read_scaled(f[8].as_str(), scale),
            h: read_scaled(f[9].as_str(), scale),
            text,
            line_num: read_count(f[4].as_str()),
            par_num: read_count(f[3].as_str()),
            block_num: read_count(f[2].as_str()),
        },
    )
}

/// Reads the words of a table.
pub fn read_table(table: &str, scale: F64) -> (words: Vec<DetectedWord>)
    ensures
        views(words@) == table_words(lines_of(table@), scale, lines_of(table@).len()),
{
    let rows: Vec<String> = split_lines(table);
    let ghost lines = lines_of(table@);
    let mut words: Vec<DetectedWord> = Vec::new();
    let mut i: usize = 1;
    proof {
        assert(texts(rows@) == lines);
        assert(views(words@) =~= table_words(lines, scale, 1));
        assert(views(words@) =~= table_words(lines, scale, 0));
    }
    while i < rows.len()
        invariant
            1 <= i,
            i <= rows@.len() || (i == 1 && rows@.len() == 0),
            texts(rows@) == lines,
            views(words@) == table_words(lines, scale, i as nat),
        decreases rows@.len() - i,
    {
        let ghost before = words@;
        proof {
            assert(texts(rows@)[i as int] == rows@[i as int]@);
        }
        match read_row(rows[i].as_str(), scale) {
            Some(w) => {
                let ghost v = w@;
                words.push(w);
                proof {
                    assert(views(words@) =~= views(before).push(v));
                }
            },
            None => {},
        }
        i = i + 1;
    }
    words
}

/// Puts words in reading order and numbers them by line and paragraph. Where a word would
/// reach the next one of its line, it is made narrower.
pub fn lay_out(words: &Vec<DetectedWord>) -> (laid: Vec<DetectedWord>)
    ensures
        views(laid@) == laid_out(views(words@)),
{
    let ghost view = views(words@);
    let mut frames: Vec<Frame> = Vec::new();
    let mut i: usize = 0;
    while i < words.len()
        invariant
            i <= words@.len(),
            view == views(words@),
            frames@ == frames_of(view).take(i as int),
        decreases words@.len() - i,
    {
        frames.push(words[i].frame());
        i = i + 1;
        proof {
            assert(frames@ =~= frames_of(view).take(i as int));
        }
    }
    proof {
        assert(frames@ =~= frames_of(view));
    }
    let lines: Vec<Vec<usize>> = read_lines(&frames, F64 { bits: LAYOUT_PART });
    let ghost lv = lines_view(lines@);
    let mut laid: Vec<DetectedWord> = Vec::new();
    let mut above: Option<Band> = None;
    let mut par: usize = 0;
    let mut n: usize = 0;
    proof {
        assert(views(laid@) =~= laid_lines(view, lv, 0));
    }
    while n < lines.len()
        invariant
            n <= lines@.len(),
            lv == lines_view(lines@),
            lines_in(lv, words@.len()),
            frames@ == frames_of(view),
            view == views(words@),
            views(laid@) == laid_lines(view, lv, n as nat),
            n == 0 <==> above is None,
            par <= n,
            n == 0 ==> par == 0,
            n > 0 ==> par == paragraph(frames@, lv, (n - 1) as nat),
            above matches Some(b) ==> measures(b, frames@, lv[n - 1]),
        decreases lines@.len() - n,
    {
        proof {
            assert(lv[n as int] == lines@[n as int]@);
            assert(lv[n as int].len() > 0);
        }
        let line: &Vec<usize> = &lines[n];
        let band: Band = measure(&frames, line);
        if let Some(b) = &above {
            if is_parted(b, &band, Ghost(frames@), Ghost(lv[n - 1]), Ghost(lv[n as int])) {
                par = par + 1;
            }
        }
        proof {
            assert(par == paragraph(frames@, lv, n as nat));
        }
        lay_line(words, &frames, line, n, par, &mut laid, Ghost(lv));
        above = Some(band);
        n = n + 1;
    }
    laid
}

/// Appends the words of a line.
fn lay_line(
    words: &Vec<DetectedWord>,
    frames: &Vec<Frame>,
    line: &Vec<usize>,
    n: usize,
    par: usize,
    laid: &mut Vec<DetectedWord>,
    Ghost(lv): Ghost<Seq<Seq<usize>>>,
)
    requires
        n < lv.len(),
        lv[n as int] == line@,
        lines_in(lv, words@.len()),
        frames@ == frames_of(views(words@)),
        par == paragraph(frames@, lv, n as nat),
    ensures
        views(final(laid)@) == views(old(laid)@) + laid_line(views(words@), lv, n as int),
{
    let ghost start = views(laid@);
    let ghost target = laid_line(views(words@), lv, n as int);
    let mut k: usize = 0;
    proof {
        assert(views(laid@) =~= start + target.take(0));
    }
    while k < line.len()
        invariant
            k <= line@.len() == target.len(),
            n < lv.len(),
            lv[n as int] == line@,
            lines_in(lv, words@.len()),
            frames@ == frames_of(views(words@)),
            par == paragraph(frames@, lv, n as nat),
            target == laid_line(views(words@), lv, n as int),
            views(laid@) == start + target.take(k as int),
        decreases line@.len() - k,
    {
        proof {
            assert(lv[n as int][k as int] < words@.len());
        }
        let word: &DetectedWord = &words[line[k]];
        let f: Frame = frames[line[k]];
        let mut w: F64 = f.w;
        if k + 1 < line.len() {
            proof {
                assert(lv[n as int][k + 1] < words@.len());
            }
            let next: F64 = frames[line[k + 1]].x;
            if next.at_most(f.right()) {
                w = next.minus(F64 { bits: ONE }).minus(f.x).max(F64 { bits: ONE });
            }
        }
        let ghost before = laid@;
        let placed: DetectedWord = DetectedWord {
            x: f.x,
            y: f.y,
            w,
            h: f.h,
            text: word.text.clone(),
            line_num: n,
            par_num: par,
            block_num: 0,
        };
        let ghost p = placed@;
        laid.push(placed);
        proof {
            assert(views(laid@) =~= views(before).push(p));
            assert(p == target[k as int]);
            assert(views(laid@) =~= start + target.take(k + 1));
        }
        k = k + 1;
    }
    proof {
        assert(target.take(k as int) =~= target);
    }
}

/// The words of a table in reading order.
pub fn words_from_tsv(table: &str, scale: F64) -> (words: Vec<DetectedWord>)
    ensures
        views(words@) == laid_out(
            table_words(lines_of(table@), scale, lines_of(table@).len()),
        ),
{
    lay_out(&read_table(table, scale))
}

/// The laid out words are the words in the order of the lines.
proof fn lemma_laid_lines(words: Seq<Word>, lines: Seq<Seq<usize>>, n: nat)
    requires
        n <= lines.len(),
        each_once(lines, words.len()),
    ensures
        laid_lines(words, lines, n).len() == read_through(lines, n).len(),
        forall|m: int|
            0 <= m < laid_lines(words, lines, n).len() ==> keeps(
                words[read_through(lines, n)[m] as int],
                #[trigger] laid_lines(words, lines, n)[m],
            ),
    decreases n,
{
    if n > 0 {
        lemma_laid_lines(words, lines, (n - 1) as nat);
        let head = laid_lines(words, lines, (n - 1) as nat);
        let all = laid_lines(words, lines, n);
        let line = laid_line(words, lines, n - 1);
        assert forall|m: int| 0 <= m < all.len() implies keeps(
            words[read_through(lines, n)[m] as int],
            #[trigger] all[m],
        ) by {
            if m < head.len() {
                assert(all[m] == head[m]);
            } else {
                let k = m - head.len();
                assert(lines[n - 1][k] < words.len());
                assert(all[m] == line[k]);
            }
        }
    }
}

/// A laid out word has the text, the left side, the top and the height of the word.
pub open spec fn keeps(word: Word, laid: Word) -> bool {
    &&& laid.text == word.text
    &&& laid.frame.x == word.frame.x
    &&& laid.frame.y == word.frame.y
    &&& laid.frame.h == word.frame.h
    &&& laid.block_num == 0
}

/// Laying words out loses none and invents none: it puts them in another order, and
/// changes only widths and numbers.
pub proof fn law_layout_keeps_every_word(words: Seq<Word>)
    requires
        words.len() <= usize::MAX,
    ensures
        laid_out(words).len() == words.len(),
        exists|order: Seq<usize>| #[trigger]
            covers(order, words.len()) && forall|m: int|
                0 <= m < words.len() ==> keeps(
                    words[order[m] as int],
                    #[trigger] laid_out(words)[m],
                ),
{
    let frames = frames_of(words);
    let part = F64 { bits: LAYOUT_PART };
    let lines = reading_lines(frames, part);
    law_lines_hold_every_word_once(frames, part);
    lemma_reading_covers(lines, words.len());
    lemma_laid_lines(words, lines, lines.len());
    assert(covers(read_through(lines, lines.len()), words.len()));
}

/// An argument for the program.
#[derive(Clone, Copy, Debug)]
pub enum Argument {
    /// The word itself.
    Word(&'static str),
    /// The directory with the trained data.
    TessdataDir,
}

/// The languages that text is read in: English alone when English is asked for, else Turkish
/// and English.
pub open spec fn languages(lang: Seq<char>) -> &'static str {
    if lang =~= seq!['E', 'N'] {
        "eng"
    } else {
        "tur+eng"
    }
}

/// The arguments of the program. It reads a picture from its input and writes to its output;
/// trained data is taken from its own directory where there is some; the picture is read as
/// one block of text; a table is written where one is asked for.
pub open spec fn arguments_of(lang: Seq<char>, trained: bool, table: bool) -> Seq<Argument> {
    let names = seq![Argument::Word("stdin"), Argument::Word("stdout")];
    let data = if trained {
        seq![Argument::Word("--tessdata-dir"), Argument::TessdataDir]
    } else {
        Seq::empty()
    };
    let reading = seq![
        Argument::Word("-l"),
        Argument::Word(languages(lang)),
        Argument::Word("--psm"),
        Argument::Word("6"),
    ];
    let form = if table {
        seq![Argument::Word("tsv")]
    } else {
        Seq::empty()
    };
    names + data + reading + form
}

/// Computes [`languages`].
pub fn find_languages(lang: &str) -> (r: &'static str)
    ensures
        r == languages(lang@),
{
    let v: Vec<char> = chars_of(lang);
    if v.len() == 2 && v[0] == 'E' && v[1] == 'N' {
        proof {
            assert(lang@ =~= seq!['E', 'N']);
        }
        "eng"
    } else {
        "tur+eng"
    }
}

/// The arguments of the program.
pub fn tesseract_arguments(lang: &str, trained: bool, table: bool) -> (r: Vec<Argument>)
    ensures
        r@ == arguments_of(lang@, trained, table),
{
    let mut r: Vec<Argument> = vec![Argument::Word("stdin"), Argument::Word("stdout")];
    if trained {
        r.push(Argument::Word("--tessdata-dir"));
        r.push(Argument::TessdataDir);
    }
    r.push(Argument::Word("-l"));
    r.push(Argument::Word(find_languages(lang)));
    r.push(Argument::Word("--psm"));
    r.push(Argument::Word("6"));
    if table {
        r.push(Argument::Word("tsv"));
    }
    proof {
        assert(r@ =~= arguments_of(lang@, trained, table));
    }
    r
}

/// The text that bytes hold, with what is not text replaced.
pub uninterp spec fn lossy_text(bytes: Seq<u8>) -> Seq<char>;

/// `String::from_utf8_lossy`, made an owned text. Bytes that are text are taken as they are;
/// what replaces other bytes is named, not stated.
#[verifier::external_body]
fn text_from(bytes: &[u8]) -> (r: String)
    ensures
        r@ == lossy_text(bytes@),
        valid_utf8(bytes@) ==> r@ == decode_utf8(bytes@),
{
    String::from_utf8_lossy(bytes).into_owned()
}

/// What the program is given to make a table of words, and the scale its numbers are in.
pub struct TableRequest {
    pub png: Vec<u8>,
    pub scale: F64,
}

/// The PNG file of the picture that a table of words is made from.
pub open spec fn table_file(p: Raster) -> Option<Seq<u8>> {
    png_of(prepared_for_table(p))
}

/// Prepares a picture for a table of its words. There is no request where the picture cannot
/// be written as a PNG file.
pub fn table_request(img: &Picture) -> (r: Option<TableRequest>)
    requires
        img@.handy(),
        0 < img.height < LOW_HEIGHT ==> can_scale(
            img.width,
            img.height,
            table_size(img.width, img.height).0,
            table_size(img.width, img.height).1,
        ),
    ensures
        match r {
            Some(t) => table_file(img@) == Some(t.png@) && t.scale == table_scale(img.height),
            None => table_file(img@) is None,
        },
        img.height == 0 ==> r is None,
{
    let ready: Picture = prepare_for_table(img);
    match ready.to_png() {
        Some(png) => Some(TableRequest { png, scale: find_table_scale(img.height) }),
        None => None,
    }
}

/// The words in the output of the program, in reading order. There are none where the program
/// failed.
pub fn run_tesseract_tsv(succeeded: bool, output: &[u8], scale: F64) -> (words: Option<
    Vec<DetectedWord>,
>)
    ensures
        match words {
            Some(w) => succeeded && views(w@) == laid_out(
                table_words(
                    lines_of(lossy_text(output@)),
                    scale,
                    lines_of(lossy_text(output@)).len(),
                ),
            ),
            None => !succeeded,
        },
        succeeded && valid_utf8(output@) ==> lossy_text(output@) == decode_utf8(output@),
{
    if !succeeded {
        return None;
    }
    let table: String = text_from(output);
    Some(words_from_tsv(table.as_str(), scale))
}

/// The text in the output of the program. There is none where the program failed.
pub fn run_tesseract(succeeded: bool, output: &[u8]) -> (text: Option<String>)
    ensures
        match text {
            Some(t) => succeeded && t@ == lossy_text(output@),
            None => !succeeded,
        },
        succeeded && valid_utf8(output@) ==> lossy_text(output@) == decode_utf8(output@),
{
    if succeeded {
        Some(text_from(output))
    } else {
        None
    }
}

} // verus!
