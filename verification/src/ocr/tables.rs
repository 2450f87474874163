//! What holds of the words of a table and of their layout.

use vstd::prelude::*;
use vstd::arithmetic::power2::{lemma2_to64_rest, lemma_pow2_pos};
use crate::decimal::decimal_of;
use crate::exact::{
    grain, lemma_compare, lemma_exact, lemma_grain_difference, lemma_min_max, lemma_on_grid,
    lemma_over, lemma_pixel, lemma_whole_bits, one,
};
use crate::float::F64;
use crate::ocr::layout::ONE;
use crate::ocr::layout::{lemma_reading_lines_in, lines_in, parted, reading_lines};
use crate::ocr::tesseract::Argument;
use crate::ocr::tesseract::LAYOUT_PART;
use crate::ocr::tesseract::{
    arguments_of, fitted, laid_line, laid_lines, laid_out, languages, paragraph, row_word,
    scaled_field, table_words,
};
use crate::ocr::words::Frame;
use crate::ocr::words::{Word, frame_on_grid, frames_of, lemma_frame_sides};
use crate::text::{decimal_digits, is_blank, is_digit, lemma_decimal_digits};
use crate::writing::{
    joined, law_counts_are_read_as_written, law_fields_are_found_again,
    law_trimming_takes_the_blanks_off_both_ends, law_whole_numbers_are_read_as_written,
};

verus! {

/// The fields of a row that describes a word: the level of words, the page, block, paragraph,
/// line and word numbers, the left side, top, width and height, the confidence and the text.
pub open spec fn fields_of(numbers: Seq<nat>, confidence: Seq<char>, text: Seq<char>) -> Seq<
    Seq<char>,
> {
    seq![
        seq!['5'],
        decimal_digits(numbers[0]),
        decimal_digits(numbers[1]),
        decimal_digits(numbers[2]),
        decimal_digits(numbers[3]),
        decimal_digits(numbers[4]),
        decimal_digits(numbers[5]),
        decimal_digits(numbers[6]),
        decimal_digits(numbers[7]),
        decimal_digits(numbers[8]),
        confidence,
        text,
    ]
}

proof fn lemma_digits_have_no_tab(n: nat)
    ensures
        !decimal_digits(n).contains('\t'),
{
    lemma_decimal_digits(n);
    let s = decimal_digits(n);
    if s.contains('\t') {
        let k = choose|k: int| 0 <= k < s.len() && s[k] == '\t';
        assert(is_digit(s[k]));
    }
}

proof fn lemma_number_over_one(n: nat)
    requires
        n < 0x20_0000_0000_0000,
    ensures
        scaled_field(decimal_digits(n), F64 { bits: ONE }).finite(),
        scaled_field(decimal_digits(n), F64 { bits: ONE }).value() == n * one(),
{
    let o = one();
    lemma2_to64_rest();
    lemma_pow2_pos(1074);
    lemma_decimal_digits(n);
    law_whole_numbers_are_read_as_written(decimal_digits(n));
    lemma_whole_bits(ONE, 1, 52);
    let a = decimal_of(decimal_digits(n))->0;
    lemma_over(a, F64 { bits: ONE });
    lemma_exact(a.spec_over(F64 { bits: ONE }), a.value() * o, o, a);
}

/// A row that is written in the order of its fields describes the word that it was written for:
/// its block, paragraph and line numbers are those of the third, fourth and fifth fields, its
/// place and size, where the picture was read in its own size, those of the seventh to tenth, and
/// its text that of the twelfth.
pub proof fn law_a_row_describes_its_word(
    numbers: Seq<nat>,
    confidence: Seq<char>,
    text: Seq<char>,
)
    requires
        numbers.len() == 9,
        forall|i: int| 0 <= i < 9 ==> #[trigger] numbers[i] <= 0xffff_ffff,
        !confidence.contains('\t'),
        !text.contains('\t'),
        text.len() > 0,
        !is_blank(text[0]),
        !is_blank(text.last()),
    ensures
        ({
            let row = joined(fields_of(numbers, confidence, text), '\t');
            let r = row_word(row, F64 { bits: ONE });
            let w = r->0;
            let f = w.frame;
            &&& r is Some
            &&& f.x.finite() && f.x.value() == numbers[5] * one()
            &&& f.y.finite() && f.y.value() == numbers[6] * one()
            &&& f.w.finite() && f.w.value() == numbers[7] * one()
            &&& f.h.finite() && f.h.value() == numbers[8] * one()
            &&& w.text == text
            &&& w.block_num == numbers[1]
            &&& w.par_num == numbers[2]
            &&& w.line_num == numbers[3]
        }),
{
    let fields = fields_of(numbers, confidence, text);
    assert(numbers[0] <= 0xffff_ffff && numbers[1] <= 0xffff_ffff && numbers[2] <= 0xffff_ffff
        && numbers[3] <= 0xffff_ffff && numbers[4] <= 0xffff_ffff && numbers[5] <= 0xffff_ffff
        && numbers[6] <= 0xffff_ffff && numbers[7] <= 0xffff_ffff && numbers[8] <= 0xffff_ffff);
    lemma_digits_have_no_tab(numbers[0]);
    lemma_digits_have_no_tab(numbers[1]);
    lemma_digits_have_no_tab(numbers[2]);
    lemma_digits_have_no_tab(numbers[3]);
    lemma_digits_have_no_tab(numbers[4]);
    lemma_digits_have_no_tab(numbers[5]);
    lemma_digits_have_no_tab(numbers[6]);
    lemma_digits_have_no_tab(numbers[7]);
    lemma_digits_have_no_tab(numbers[8]);
    assert(!seq!['5'].contains('\t'));
    law_fields_are_found_again(fields, '\t');
    let ends = law_trimming_takes_the_blanks_off_both_ends(text);
    assert(!is_blank(text[0]));
    assert(ends.0 == 0 && ends.1 == text.len());
    assert(text.subrange(0, text.len() as int) =~= text);
    law_counts_are_read_as_written(numbers[1], text);
    law_counts_are_read_as_written(numbers[2], text);
    law_counts_are_read_as_written(numbers[3], text);
    lemma_number_over_one(numbers[5]);
    lemma_number_over_one(numbers[6]);
    lemma_number_over_one(numbers[7]);
    lemma_number_over_one(numbers[8]);
}

/// A row of another level, with fewer fields or without a text describes no word.
pub proof fn law_other_rows_describe_no_word(fields: Seq<Seq<char>>, scale: F64)
    requires
        fields.len() > 0,
        forall|i: int| 0 <= i < fields.len() ==> !(#[trigger] fields[i]).contains('\t'),
        fields.len() < 12 || !(fields[0] =~= seq!['5']) || (forall|i: int|
            0 <= i < fields[11].len() ==> is_blank(#[trigger] fields[11][i])),
    ensures
        row_word(joined(fields, '\t'), scale) is None,
{
    law_fields_are_found_again(fields, '\t');
    if fields.len() >= 12 {
        let ends = law_trimming_takes_the_blanks_off_both_ends(fields[11]);
        if ends.0 < ends.1 && (forall|i: int|
            0 <= i < fields[11].len() ==> is_blank(#[trigger] fields[11][i])) {
            assert(is_blank(fields[11][ends.0]));
        }
    }
}

/// The heading of a table describes no word, and each row after it adds the word that it
/// describes, if it describes one, after those of the rows before.
pub proof fn law_rows_add_their_words(rows: Seq<Seq<char>>, row: Seq<char>, scale: F64)
    ensures
        table_words(Seq::empty(), scale, 0) == Seq::<Word>::empty(),
        table_words(seq![row], scale, 1) == Seq::<Word>::empty(),
        rows.len() > 0 ==> table_words(rows.push(row), scale, rows.len() + 1) == table_words(
            rows,
            scale,
            rows.len(),
        ) + (match row_word(row, scale) {
            Some(w) => seq![w],
            None => Seq::empty(),
        }),
{
    if rows.len() > 0 {
        lemma_same_rows(rows.push(row), rows, scale, rows.len());
        let before = table_words(rows, scale, rows.len());
        assert(rows.push(row)[rows.len() as int] == row);
        match row_word(row, scale) {
            Some(w) => assert(before.push(w) =~= before + seq![w]),
            None => assert(before =~= before + Seq::<Word>::empty()),
        }
    }
}

proof fn lemma_same_rows(a: Seq<Seq<char>>, b: Seq<Seq<char>>, scale: F64, n: nat)
    requires
        n <= a.len(),
        n <= b.len(),
        forall|i: int| 0 <= i < n ==> #[trigger] a[i] == b[i],
    ensures
        table_words(a, scale, n) == table_words(b, scale, n),
    decreases n,
{
    if n > 1 {
        lemma_same_rows(a, b, scale, (n - 1) as nat);
        assert(a[n - 1] == b[n - 1]);
    }
}

/// A word keeps its frame where it ends before the next one of its line, and where it is the
/// last. Else it ends one short of the next one, or is one wide where that would leave it less.
pub proof fn law_words_end_before_the_next(frames: Seq<Frame>, line: Seq<usize>, k: int)
    requires
        0 <= k < line.len(),
        frame_on_grid(frames[line[k] as int]),
        k + 1 < line.len() ==> frame_on_grid(frames[line[k + 1] as int]),
    ensures
        ({
            let f = frames[line[k] as int];
            let r = fitted(frames, line, k);
            let next = frames[line[k + 1] as int].x.value();
            &&& r.x == f.x && r.y == f.y && r.h == f.h
            &&& k + 1 == line.len() ==> r == f
            &&& k + 1 < line.len() && f.x.value() + f.w.value() < next ==> r == f
            &&& k + 1 < line.len() && next <= f.x.value() + f.w.value() ==> {
                &&& r.w.finite()
                &&& next - f.x.value() >= 2 * one() ==> r.x.value() + r.w.value() == next - one()
                &&& next - f.x.value() <= 2 * one() ==> r.w.value() == one()
            }
        }),
{
    let f = frames[line[k] as int];
    if k + 1 < line.len() {
        let g = frames[line[k + 1] as int];
        let unit = F64 { bits: ONE };
        lemma_frame_sides(f);
        lemma_compare(g.x, f.spec_right());
        lemma2_to64_rest();
        lemma_pow2_pos(1074);
        lemma_whole_bits(ONE, 1, 52);
        lemma_pixel();
        let m = lemma_on_grid(f.x);
        let n = lemma_on_grid(g.x);
        lemma_grain_difference(g.x, unit, n, 0x1_0000);
        let short = g.x.spec_minus(unit);
        lemma_grain_difference(short, f.x, n - 0x1_0000, m);
        let e = grain();
        assert((n - 0x1_0000 - m) * e == n * e - 0x1_0000 * e - m * e) by (nonlinear_arith);
        lemma_min_max(short.spec_minus(f.x), unit);
    }
}

/// Lines are numbered from zero on, one after the other, and so are paragraphs: the number of a
/// line's paragraph is that of the line above, or one more where the line is parted from it. The
/// words of a line have the numbers of the line and of its paragraph, and all are of one block.
pub proof fn law_words_are_numbered_by_line_and_paragraph(words: Seq<Word>)
    requires
        words.len() <= usize::MAX,
    ensures
        ({
            let laid = laid_out(words);
            let lines = reading_lines(frames_of(words), F64 { bits: LAYOUT_PART });
            &&& laid.len() > 0 ==> laid[0].line_num == 0 && laid[0].par_num == 0
            &&& forall|j: int|
                0 <= j < laid.len() ==> (#[trigger] laid[j]).block_num == 0 && laid[j].line_num
                    < lines.len()
            &&& forall|j: int|
                #![trigger laid[j]]
                0 < j < laid.len() ==> {
                    let a = laid[j - 1];
                    let b = laid[j];
                    ||| b.line_num == a.line_num && b.par_num == a.par_num
                    ||| {
                        &&& b.line_num == a.line_num + 1
                        &&& b.par_num == a.par_num + (if parted(
                            frames_of(words),
                            lines[a.line_num as int],
                            lines[b.line_num as int],
                        ) {
                            1int
                        } else {
                            0int
                        })
                    }
                }
        }),
{
    let frames = frames_of(words);
    let part = F64 { bits: LAYOUT_PART };
    let lines = reading_lines(frames, part);
    lemma_reading_lines_in(frames, part);
    lemma_numbers(words, lines, lines.len());
}

/// The numbers of the words of the first lines.
spec fn has_numbers(words: Seq<Word>, lines: Seq<Seq<usize>>, laid: Seq<Word>, n: nat) -> bool {
    &&& n > 0 ==> laid.len() > 0 && laid.last().line_num == n - 1 && laid.last().par_num
        == paragraph(frames_of(words), lines, (n - 1) as nat)
    &&& n == 0 ==> laid.len() == 0
    &&& laid.len() > 0 ==> laid[0].line_num == 0 && laid[0].par_num == 0
    &&& forall|j: int|
        0 <= j < laid.len() ==> (#[trigger] laid[j]).block_num == 0 && laid[j].line_num < n
    &&& forall|j: int|
        #![trigger laid[j]]
        0 < j < laid.len() ==> {
            let a = laid[j - 1];
            let b = laid[j];
            ||| b.line_num == a.line_num && b.par_num == a.par_num
            ||| {
                &&& b.line_num == a.line_num + 1
                &&& b.par_num == a.par_num + (if parted(
                    frames_of(words),
                    lines[a.line_num as int],
                    lines[b.line_num as int],
                ) {
                    1int
                } else {
                    0int
                })
            }
        }
}

proof fn lemma_paragraph_bound(frames: Seq<Frame>, lines: Seq<Seq<usize>>, n: nat)
    ensures
        paragraph(frames, lines, n) <= n,
    decreases n,
{
    if n > 0 {
        lemma_paragraph_bound(frames, lines, (n - 1) as nat);
    }
}

proof fn lemma_numbers(words: Seq<Word>, lines: Seq<Seq<usize>>, n: nat)
    requires
        n <= lines.len() <= usize::MAX,
        lines_in(lines, words.len()),
    ensures
        has_numbers(words, lines, laid_lines(words, lines, n), n),
    decreases n,
{
    if n > 0 {
        let m = (n - 1) as nat;
        lemma_numbers(words, lines, m);
        let frames = frames_of(words);
        let before = laid_lines(words, lines, m);
        let line = laid_line(words, lines, m as int);
        let laid = laid_lines(words, lines, n);
        assert(laid == before + line);
        assert(lines[m as int].len() > 0);
        lemma_paragraph_bound(frames, lines, m);
        if m > 0 {
            lemma_paragraph_bound(frames, lines, (m - 1) as nat);
        }
        assert forall|k: int| 0 <= k < line.len() implies (#[trigger] line[k]).line_num == m
            && line[k].par_num == paragraph(frames, lines, m) && line[k].block_num == 0 by {}
        assert forall|j: int| 0 <= j < laid.len() implies (#[trigger] laid[j]).block_num == 0
            && laid[j].line_num < n by {
            if j < before.len() {
                assert(laid[j] == before[j]);
            } else {
                assert(laid[j] == line[j - before.len()]);
            }
        }
        assert forall|j: int|
            #![trigger laid[j]]
            0 < j < laid.len() implies {
            let a = laid[j - 1];
            let b = laid[j];
            ||| b.line_num == a.line_num && b.par_num == a.par_num
            ||| {
                &&& b.line_num == a.line_num + 1
                &&& b.par_num == a.par_num + (if parted(
                    frames,
                    lines[a.line_num as int],
                    lines[b.line_num as int],
                ) {
                    1int
                } else {
                    0int
                })
            }
        } by {
            if j < before.len() {
                assert(laid[j] == before[j] && laid[j - 1] == before[j - 1]);
            } else if j == before.len() {
                assert(laid[j] == line[0]);
                assert(laid[j - 1] == before.last());
            } else {
                assert(laid[j] == line[j - before.len()]);
                assert(laid[j - 1] == line[j - 1 - before.len()]);
            }
        }
        assert(laid.last() == line.last());
        if before.len() == 0 {
            assert(laid[0] == line[0]);
        } else {
            assert(laid[0] == before[0]);
        }
    }
}

/// The program is asked for a table by one more argument at the end, and for trained data by two
/// after the names of its input and output; the language changes nothing but the name of the
/// languages, and only English stands alone.
pub proof fn law_arguments_differ_by_what_is_asked(
    lang: Seq<char>,
    other: Seq<char>,
    trained: bool,
    table: bool,
)
    ensures
        arguments_of(lang, trained, true) == arguments_of(lang, trained, false).push(
            Argument::Word("tsv"),
        ),
        arguments_of(lang, true, table) == arguments_of(lang, false, table).insert(
            2,
            Argument::TessdataDir,
        ).insert(2, Argument::Word("--tessdata-dir")),
        arguments_of(lang, false, table)[0] == Argument::Word("stdin"),
        arguments_of(lang, false, table)[1] == Argument::Word("stdout"),
        arguments_of(lang, false, table)[2] == Argument::Word("-l"),
        arguments_of(lang, false, table)[4] == Argument::Word("--psm"),
        arguments_of(lang, false, table)[5] == Argument::Word("6"),
        arguments_of(lang, false, table) == arguments_of(other, false, table).update(
            3,
            Argument::Word(languages(lang)),
        ),
        languages(lang)@ == (if lang == seq!['E', 'N'] {
            "eng"@
        } else {
            "tur+eng"@
        }),
{
    assert(arguments_of(lang, trained, true) =~= arguments_of(lang, trained, false).push(
        Argument::Word("tsv"),
    ));
    assert(arguments_of(lang, true, table) =~= arguments_of(lang, false, table).insert(
        2,
        Argument::TessdataDir,
    ).insert(2, Argument::Word("--tessdata-dir")));
    assert(arguments_of(lang, false, table) =~= arguments_of(other, false, table).update(
        3,
        Argument::Word(languages(lang)),
    ));
}

} // verus!
