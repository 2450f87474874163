//! The engine: what is read with the models, in which order the ways of reading are tried, and
//! what is made of their answers.
//!
//! The models run outside. For each picture the engine says what they are given; from their
//! answers it makes text and words.

use vstd::prelude::*;
use vstd::string::StringExecFns;
use crate::float::F32;
use crate::ocr::boxes::{LineBox, find_line_boxes, words_in_boxes};
use crate::ocr::boxes::{
    all_line_words, by_line_and_left, line_boxes, readings, LEAST_SIDE,
};
use crate::ocr::detection::{PixelBox, boxes_from_scores};
use crate::ocr::detection::{detected_boxes, detection_size_of, SMALLEST_SIDE};
use crate::ocr::model_manager::ModelPaths;
use crate::ocr::pipeline::join_all;
use crate::ocr::pipeline::joined_text;
use crate::ocr::preparation::preprocess_for_ocr;
use crate::ocr::preparation::{can_prepare, preprocessed};
use crate::ocr::recognition::{LineScores, decode_line};
use crate::ocr::recognition::read_line;
use crate::ocr::rows::find_text_rows;
use crate::ocr::rows::{
    law_an_even_picture_has_no_rows, law_text_rows_lie_in_the_picture, row_fits, text_rows,
};
use crate::ocr::words::DetectedWord;
use crate::ocr::words::{Word, views};
use crate::picture::Picture;
use crate::picture::{Raster, cropped, luma_at};
use crate::text::trim;
use crate::text::{texts, trimmed};

verus! {

/// Pictures no higher than this are read as one line.
pub const ONE_LINE_HEIGHT: u32 = 64;

/// The score that a row of text exceeds to be kept, as bits of a 32-bit number: -5.
pub const LEAST_ROW_SCORE: u32 = 0xc0a0_0000;

/// The part of the engine that is not a model: the dictionary of the recognition model.
#[derive(Debug)]
pub struct OcrEngine {
    char_dict: Vec<String>,
}

/// An answer of the recognition model, as a mathematical value.
pub struct Answer {
    pub steps: nat,
    pub classes: nat,
    pub scores: Seq<F32>,
}

impl View for LineScores {
    type V = Answer;

    open spec fn view(&self) -> Answer {
        Answer {
            steps: self.steps as nat,
            classes: self.classes as nat,
            scores: self.scores@,
        }
    }
}

pub open spec fn answers_view(answers: Seq<LineScores>) -> Seq<Answer> {
    Seq::new(answers.len(), |i: int| answers[i]@)
}

/// Every answer is complete.
pub open spec fn answers_wf(answers: Seq<LineScores>) -> bool {
    forall|i: int| 0 <= i < answers.len() ==> (#[trigger] answers[i]).wf()
}

/// What an answer says.
pub open spec fn said(dict: Seq<Seq<char>>, a: Answer) -> (Seq<char>, F32) {
    read_line(dict, a.scores, a.classes, a.steps)
}

/// What answers say.
pub open spec fn all_said(dict: Seq<Seq<char>>, answers: Seq<Answer>) -> Seq<(Seq<char>, F32)> {
    Seq::new(answers.len(), |i: int| said(dict, answers[i]))
}

/// The picture is not too small to hold text.
pub open spec fn is_readable(p: Raster) -> bool {
    p.width >= LEAST_SIDE && p.height >= LEAST_SIDE
}

/// The picture is read row by row: it is higher than a line, and rows of text were found.
pub open spec fn by_rows(p: Raster) -> bool {
    is_readable(p) && p.height > ONE_LINE_HEIGHT && text_rows(p).len() > 0
}

/// The pictures that a picture is read from: none where it is too small, its rows of text where
/// it has some, else the picture itself.
pub open spec fn row_pictures(p: Raster) -> Seq<Raster> {
    if !is_readable(p) {
        Seq::empty()
    } else if by_rows(p) {
        Seq::new(
            text_rows(p).len(),
            |i: int|
                cropped(
                    p,
                    0,
                    text_rows(p)[i].0 as u32,
                    p.width,
                    (text_rows(p)[i].1 - text_rows(p)[i].0) as u32,
                ),
        )
    } else {
        seq![p]
    }
}

/// What was read in a row is kept.
pub open spec fn is_kept(read: (Seq<char>, F32)) -> bool {
    trimmed(read.0).len() > 0 && (F32 { bits: LEAST_ROW_SCORE }).spec_less(read.1)
}

/// How many of the first `n` rows are kept.
pub open spec fn kept_count(read: Seq<(Seq<char>, F32)>, n: nat) -> nat
    decreases n,
{
    if n == 0 {
        0
    } else if is_kept(read[n - 1]) {
        kept_count(read, (n - 1) as nat) + 1
    } else {
        kept_count(read, (n - 1) as nat)
    }
}

/// The first `n` rows that are kept, each on its own line.
pub open spec fn rows_text(read: Seq<(Seq<char>, F32)>, n: nat) -> Seq<char>
    decreases n,
{
    if n == 0 {
        Seq::empty()
    } else {
        let before = rows_text(read, (n - 1) as nat);
        if !is_kept(read[n - 1]) {
            before
        } else if kept_count(read, (n - 1) as nat) == 0 {
            trimmed(read[n - 1].0)
        } else {
            before.push('\n') + trimmed(read[n - 1].0)
        }
    }
}

/// The text of a picture, from what was read in the pictures it is read from.
pub open spec fn picture_text(p: Raster, read: Seq<(Seq<char>, F32)>) -> Seq<char> {
    if !is_readable(p) {
        Seq::empty()
    } else if by_rows(p) {
        rows_text(read, read.len())
    } else {
        trimmed(read[0].0)
    }
}

/// The words of a picture, from what was read in its boxes.
pub open spec fn picture_words(
    p: Raster,
    detected: Seq<PixelBox>,
    read: Seq<(Seq<char>, F32)>,
) -> Seq<Word> {
    let boxes = line_boxes(p.width, p.height, detected);
    by_line_and_left(all_line_words(boxes, read, boxes.len()))
}

impl OcrEngine {
    /// The entries of the dictionary.
    pub closed spec fn dict(self) -> Seq<Seq<char>> {
        texts(self.char_dict@)
    }

    /// An engine with a dictionary of the given lines, and a space after them.
    pub fn new(lines: Vec<String>) -> (engine: OcrEngine)
        ensures
            engine.dict() == texts(lines@).push(seq![' ']),
    {
        let mut char_dict: Vec<String> = lines;
        let ghost before = char_dict@;
        let mut space: String = String::new();
        space.push(' ');
        let ghost s = space@;
        char_dict.push(space);
        proof {
            assert(s =~= seq![' ']);
            assert(texts(char_dict@) =~= texts(before).push(s));
        }
        OcrEngine { char_dict }
    }

    /// The boxes of text in a picture, from the scores that the detection model gave.
    pub fn detect_text_boxes(&self, img: &Picture, scores: &Vec<F32>) -> (boxes: Vec<PixelBox>)
        requires
            img.width >= SMALLEST_SIDE && img.height >= SMALLEST_SIDE ==> scores@.len()
                >= detection_size_of(img.width, img.height).0 * detection_size_of(
                img.width,
                img.height,
            ).1,
        ensures
            boxes@ == detected_boxes(img.width, img.height, scores@),
    {
        boxes_from_scores(img.width, img.height, scores)
    }

    /// The text of a line and its score, from the answer of the recognition model. A picture
    /// without pixels holds none.
    pub fn recognize_line(&self, img: &Picture, answer: &LineScores) -> (r: (String, F32))
        requires
            answer.wf(),
        ensures
            img.width == 0 || img.height == 0 ==> r.0@ == Seq::<char>::empty() && r.1 == (F32 {
                bits: 0,
            }),
            img.width > 0 && img.height > 0 ==> (r.0@, r.1) == said(self.dict(), answer@),
    {
        if img.width == 0 || img.height == 0 {
            (String::new(), F32 { bits: 0 })
        } else {
            decode_line(&self.char_dict, answer)
        }
    }

    fn read_all(&self, answers: &Vec<LineScores>) -> (r: Vec<(String, F32)>)
        requires
            answers_wf(answers@),
        ensures
            readings(r@) == all_said(self.dict(), answers_view(answers@)),
            r@.len() == answers@.len(),
    {
        let mut r: Vec<(String, F32)> = Vec::new();
        let mut i: usize = 0;
        let ghost target = all_said(self.dict(), answers_view(answers@));
        proof {
            assert(readings(r@) =~= target.take(0));
        }
        while i < answers.len()
            invariant
                r@.len() == i <= answers@.len(),
                answers_wf(answers@),
                target == all_said(self.dict(), answers_view(answers@)),
                readings(r@) == target.take(i as int),
            decreases answers@.len() - i,
        {
            let ghost before = r@;
            let one: (String, F32) = decode_line(&self.char_dict, &answers[i]);
            let ghost v = (one.0@, one.1);
            r.push(one);
            i = i + 1;
            proof {
                assert(readings(r@) =~= readings(
                    before,
                ).push(v));
                assert(readings(r@) =~= target.take(i as int));
            }
        }
        proof {
            assert(target.take(i as int) =~= target);
        }
        r
    }

    /// The text of a picture, from the answers of the recognition model for the pictures that
    /// it is read from, in their order.
    pub fn recognize_image(&self, img: &Picture, answers: &Vec<LineScores>) -> (text: String)
        requires
            img@.countable(),
            answers_wf(answers@),
            answers@.len() == row_pictures(img@).len(),
        ensures
            text@ == picture_text(img@, all_said(self.dict(), answers_view(answers@))),
    {
        let ghost read = all_said(self.dict(), answers_view(answers@));
        let mut text: String = String::new();
        if img.width < LEAST_SIDE || img.height < LEAST_SIDE {
            proof {
                assert(text@ =~= Seq::<char>::empty());
            }
            return text;
        }
        let lines: Vec<(String, F32)> = self.read_all(answers);
        let ghost rv = readings(lines@);
        if img.height <= ONE_LINE_HEIGHT || find_text_rows(img).len() == 0 {
            proof {
                assert(rv[0] == (lines@[0].0@, lines@[0].1));
            }
            return trim(lines[0].0.as_str());
        }
        let mut kept: usize = 0;
        let mut i: usize = 0;
        proof {
            assert(text@ =~= rows_text(read, 0));
        }
        while i < lines.len()
            invariant
                i <= lines@.len(),
                rv == readings(lines@),
                rv == read,
                kept <= i,
                kept == kept_count(read, i as nat),
                text@ == rows_text(read, i as nat),
            decreases lines@.len() - i,
        {
            proof {
                assert(rv[i as int] == (lines@[i as int].0@, lines@[i as int].1));
            }
            let line: &(String, F32) = &lines[i];
            let shown: String = trim(line.0.as_str());
            if !shown.as_str().is_empty() && (F32 { bits: LEAST_ROW_SCORE }).less(line.1) {
                if kept > 0 {
                    text.push('\n');
                    text.append(shown.as_str());
                } else {
                    text = shown;
                }
                kept = kept + 1;
            }
            i = i + 1;
        }
        text
    }

    /// The words of a picture, from the boxes that were detected in it and the answers of the
    /// recognition model for the boxes that are read, in their order.
    pub fn detect_and_recognize(
        &self,
        img: &Picture,
        detected: &Vec<PixelBox>,
        answers: &Vec<LineScores>,
    ) -> (words: Vec<DetectedWord>)
        requires
            answers_wf(answers@),
            answers@.len() == line_boxes(img.width, img.height, detected@).len(),
        ensures
            views(words@) == picture_words(
                img@,
                detected@,
                all_said(self.dict(), answers_view(answers@)),
            ),
    {
        let boxes: Vec<LineBox> = find_line_boxes(img.width, img.height, detected);
        words_in_boxes(&boxes, &self.read_all(answers))
    }
}

/// The pictures that a picture is read from.
pub fn find_row_pictures(img: &Picture) -> (r: Vec<Picture>)
    requires
        img@.handy(),
    ensures
        pictures_view(r@) == row_pictures(img@),
        forall|i: int| 0 <= i < r@.len() ==> (#[trigger] r@[i])@.wf(),
{
    let mut r: Vec<Picture> = Vec::new();
    if img.width < LEAST_SIDE || img.height < LEAST_SIDE {
        proof {
            assert(pictures_view(r@) =~= row_pictures(img@));
        }
        return r;
    }
    let rows: Vec<(usize, usize)> = find_text_rows(img);
    if img.height <= ONE_LINE_HEIGHT || rows.len() == 0 {
        r.push(img.clone());
        proof {
            assert(pictures_view(r@) =~= row_pictures(img@));
        }
        return r;
    }
    let mut i: usize = 0;
    proof {
        law_text_rows_lie_in_the_picture(img@);
        assert(pictures_view(r@) =~= row_pictures(img@).take(0));
    }
    while i < rows.len()
        invariant
            i <= rows@.len(),
            img@.handy(),
            by_rows(img@),
            rows@ == text_rows(img@),
            forall|k: int|
                0 <= k < rows@.len() ==> row_fits(#[trigger] rows@[k], img.height as nat),
            pictures_view(r@) == row_pictures(img@).take(i as int),
            forall|k: int| 0 <= k < r@.len() ==> (#[trigger] r@[k])@.wf(),
        decreases rows@.len() - i,
    {
        let row: (usize, usize) = rows[i];
        proof {
            assert(row_fits(rows@[i as int], img.height as nat));
        }
        let ghost before = r@;
        let part: Picture = img.crop(0, row.0 as u32, img.width, (row.1 - row.0) as u32);
        let ghost v = part@;
        r.push(part);
        i = i + 1;
        proof {
            assert(pictures_view(r@) =~= pictures_view(before).push(v));
            assert(pictures_view(r@) =~= row_pictures(img@).take(i as int));
        }
    }
    proof {
        assert(row_pictures(img@).take(i as int) =~= row_pictures(img@));
    }
    r
}

pub open spec fn pictures_view(p: Seq<Picture>) -> Seq<Raster> {
    Seq::new(p.len(), |i: int| p[i]@)
}

/// The pictures of the boxes that are read.
pub open spec fn box_pictures(p: Raster, boxes: Seq<LineBox>) -> Seq<Raster> {
    Seq::new(
        boxes.len(),
        |i: int| cropped(p, boxes[i].1.0, boxes[i].1.1, boxes[i].1.2, boxes[i].1.3),
    )
}

/// The pictures of the boxes that are read in a picture, in their order.
pub fn find_box_pictures(img: &Picture, detected: &Vec<PixelBox>) -> (r: Vec<Picture>)
    requires
        img@.handy(),
    ensures
        pictures_view(r@) == box_pictures(
            img@,
            line_boxes(img.width, img.height, detected@),
        ),
        forall|i: int| 0 <= i < r@.len() ==> (#[trigger] r@[i])@.wf(),
{
    let boxes: Vec<LineBox> = find_line_boxes(img.width, img.height, detected);
    let mut r: Vec<Picture> = Vec::new();
    let mut i: usize = 0;
    let ghost target = box_pictures(img@, boxes@);
    proof {
        assert(pictures_view(r@) =~= target.take(0));
    }
    while i < boxes.len()
        invariant
            i <= boxes@.len(),
            img@.handy(),
            target == box_pictures(img@, boxes@),
            pictures_view(r@) == target.take(i as int),
            forall|k: int| 0 <= k < r@.len() ==> (#[trigger] r@[k])@.wf(),
        decreases boxes@.len() - i,
    {
        let b: PixelBox = boxes[i].1;
        let ghost before = r@;
        let part: Picture = img.crop(b.0, b.1, b.2, b.3);
        let ghost v = part@;
        r.push(part);
        i = i + 1;
        proof {
            assert(pictures_view(r@) =~= pictures_view(before).push(v));
            assert(pictures_view(r@) =~= target.take(i as int));
        }
    }
    proof {
        assert(target.take(i as int) =~= target);
    }
    r
}

/// What came of something that is tried outside.
#[derive(Debug)]
pub enum Outcome<T> {
    /// It has not been tried yet.
    Untried,
    /// It was tried and failed.
    Failed,
    /// It was tried and gave this.
    Made(T),
}

/// What is done next to read the text of a picture.
#[derive(Debug)]
pub enum Reading {
    /// The text has been read.
    Text(String),
    /// Have the models detect boxes and read them.
    Detect,
    /// Have Tesseract read this picture.
    Tesseract(Picture),
    /// Have the recognition model read this picture row by row: what it reads is the text.
    Rows(Picture),
}

/// The models found words that are not all blank.
pub open spec fn found_words(detected: Outcome<Vec<DetectedWord>>) -> bool {
    detected matches Outcome::Made(words) && words@.len() > 0 && trimmed(
        joined_text(views(words@)),
    ).len() > 0
}

/// Tesseract read text that is not all blank.
pub open spec fn found_text(text: Outcome<String>) -> bool {
    text matches Outcome::Made(t) && trimmed(t@).len() > 0
}

/// `r` is what is done next to read the text of a picture. The models come first; where they
/// find no words, Tesseract is asked; where it finds no text either, the picture is read row by
/// row. The last two are given the picture made ready for reading. A picture that is too small
/// has no text.
pub open spec fn is_next_reading(
    p: Raster,
    detected: Outcome<Vec<DetectedWord>>,
    tesseract: Outcome<String>,
    r: Reading,
) -> bool {
    if !is_readable(p) {
        r matches Reading::Text(t) && t@ == Seq::<char>::empty()
    } else if detected is Untried {
        r is Detect
    } else if found_words(detected) {
        r matches Reading::Text(t) && t@ == joined_text(views(detected->Made_0@))
    } else if tesseract is Untried {
        r matches Reading::Tesseract(ready) && ready@ == preprocessed(p)
    } else if found_text(tesseract) {
        r matches Reading::Text(t) && t@ == trimmed(tesseract->Made_0@)
    } else {
        r matches Reading::Rows(ready) && ready@ == preprocessed(p)
    }
}

/// The picture is made ready for reading: it can be read, and neither have the models found
/// words nor has Tesseract found text.
pub open spec fn is_prepared(
    p: Raster,
    detected: Outcome<Vec<DetectedWord>>,
    tesseract: Outcome<String>,
) -> bool {
    is_readable(p) && !(detected is Untried) && !found_words(detected) && !found_text(tesseract)
}

/// Whether a picture is made ready for reading when it comes to what is done next.
pub fn needs_preparation(
    img: &Picture,
    detected: &Outcome<Vec<DetectedWord>>,
    tesseract: &Outcome<String>,
) -> (r: bool)
    ensures
        r == is_prepared(img@, *detected, *tesseract),
{
    if img.width < LEAST_SIDE || img.height < LEAST_SIDE {
        return false;
    }
    let found: bool = match detected {
        Outcome::Untried => true,
        Outcome::Made(words) => words.len() > 0 && !trim(
            join_all(words).as_str(),
        ).as_str().is_empty(),
        Outcome::Failed => false,
    };
    let said: bool = match tesseract {
        Outcome::Made(text) => !trim(text.as_str()).as_str().is_empty(),
        _ => false,
    };
    !found && !said
}

impl OcrEngine {
    /// What is done next to read the text of a picture.
    pub fn recognize(
        &self,
        img: &Picture,
        detected: &Outcome<Vec<DetectedWord>>,
        tesseract: &Outcome<String>,
    ) -> (r: Reading)
        requires
            is_prepared(img@, *detected, *tesseract) ==> can_prepare(img@),
        ensures
            is_next_reading(img@, *detected, *tesseract, r),
    {
        if img.width < LEAST_SIDE || img.height < LEAST_SIDE {
            let text: String = String::new();
            proof {
                assert(text@ =~= Seq::<char>::empty());
            }
            return Reading::Text(text);
        }
        match detected {
            Outcome::Untried => {
                return Reading::Detect;
            },
            Outcome::Made(words) => {
                if words.len() > 0 {
                    let text: String = join_all(words);
                    if !trim(text.as_str()).as_str().is_empty() {
                        return Reading::Text(text);
                    }
                }
            },
            Outcome::Failed => {},
        }
        match tesseract {
            Outcome::Untried => {
                return Reading::Tesseract(preprocess_for_ocr(img));
            },
            Outcome::Made(text) => {
                let shown: String = trim(text.as_str());
                if !shown.as_str().is_empty() {
                    return Reading::Text(shown);
                }
            },
            Outcome::Failed => {},
        }
        Reading::Rows(preprocess_for_ocr(img))
    }
}

/// How far the making of the shared engine has come.
#[derive(Debug)]
pub struct EngineSetup {
    /// The shared place could be entered.
    pub entered: bool,
    /// There is an engine in it.
    pub present: bool,
    /// The models.
    pub models: Outcome<ModelPaths>,
    /// The engine made from them.
    pub engine: Outcome<()>,
}

/// What is done next to make the shared engine.
#[derive(Debug)]
pub enum EngineStep {
    /// Nothing: there is an engine, or none can be made.
    Nothing,
    /// Make the models ready.
    EnsureModels,
    /// Make an engine from the models.
    Load(ModelPaths),
    /// Put the engine that was made in the shared place.
    Keep,
}

/// The step is what is done next to make the shared engine: where there is none, the models
/// are made ready, an engine is made from them, and it is kept. Whatever fails ends the attempt.
pub open spec fn is_next_step(setup: EngineSetup, step: EngineStep) -> bool {
    if !setup.entered || setup.present {
        step is Nothing
    } else {
        match setup.models {
            Outcome::Untried => step is EnsureModels,
            Outcome::Failed => step is Nothing,
            Outcome::Made(paths) => match setup.engine {
                Outcome::Untried => step matches EngineStep::Load(p) && p.det_model@
                    == paths.det_model@ && p.rec_model@ == paths.rec_model@ && p.dict_file@
                    == paths.dict_file@,
                Outcome::Failed => step is Nothing,
                Outcome::Made(_) => step is Keep,
            },
        }
    }
}

/// What is done next to make the shared engine.
pub fn init_global_ocr(setup: &EngineSetup) -> (step: EngineStep)
    ensures
        is_next_step(*setup, step),
{
    if !setup.entered || setup.present {
        return EngineStep::Nothing;
    }
    match &setup.models {
        Outcome::Untried => EngineStep::EnsureModels,
        Outcome::Failed => EngineStep::Nothing,
        Outcome::Made(paths) => match &setup.engine {
            Outcome::Untried => EngineStep::Load(paths.clone()),
            Outcome::Failed => EngineStep::Nothing,
            Outcome::Made(_) => EngineStep::Keep,
        },
    }
}

/// What is done next to find the words of a picture.
#[derive(Debug)]
pub enum Extraction {
    /// The words have been found.
    Words(Vec<DetectedWord>),
    /// Have Tesseract make a table of the words.
    Table,
    /// Take a step in making the shared engine.
    Engine(EngineStep),
    /// Have the shared engine detect and recognize words.
    Detect,
}

/// Words were found, and not none.
pub open spec fn some_words(o: Outcome<Vec<DetectedWord>>) -> bool {
    o matches Outcome::Made(words) && words@.len() > 0
}

/// The words of one outcome have been found.
pub open spec fn gives(r: Extraction, o: Outcome<Vec<DetectedWord>>) -> bool {
    r matches Extraction::Words(w) && o matches Outcome::Made(words) && views(w@) == views(words@)
}

/// It was found that there are no words.
pub open spec fn gives_none(r: Extraction) -> bool {
    r matches Extraction::Words(w) && w@.len() == 0
}

/// `r` is what is done next to find the words of a picture. Tesseract comes first; where it
/// finds none, the shared engine is asked, and made before that where there is none. Where
/// neither finds any, there are no words.
pub open spec fn is_next_extraction(
    table: Outcome<Vec<DetectedWord>>,
    setup: EngineSetup,
    detected: Outcome<Vec<DetectedWord>>,
    r: Extraction,
) -> bool {
    if table is Untried {
        r is Table
    } else if some_words(table) {
        gives(r, table)
    } else if !setup.entered {
        gives_none(r)
    } else if !setup.present {
        if is_next_step(setup, EngineStep::Nothing) {
            gives_none(r)
        } else {
            r matches Extraction::Engine(step) && is_next_step(setup, step)
        }
    } else if detected is Untried {
        r is Detect
    } else if some_words(detected) {
        gives(r, detected)
    } else {
        gives_none(r)
    }
}

/// What is done next to find the words of a picture.
pub fn extract_words_onnx_or_fallback(
    table: &Outcome<Vec<DetectedWord>>,
    setup: &EngineSetup,
    detected: &Outcome<Vec<DetectedWord>>,
) -> (r: Extraction)
    ensures
        is_next_extraction(*table, *setup, *detected, r),
{
    match table {
        Outcome::Untried => {
            return Extraction::Table;
        },
        Outcome::Made(words) => {
            if words.len() > 0 {
                return Extraction::Words(copy_words(words));
            }
        },
        Outcome::Failed => {},
    }
    if !setup.entered {
        return Extraction::Words(Vec::new());
    }
    if !setup.present {
        return match init_global_ocr(setup) {
            EngineStep::Nothing => Extraction::Words(Vec::new()),
            step => Extraction::Engine(step),
        };
    }
    match detected {
        Outcome::Untried => Extraction::Detect,
        Outcome::Made(words) => if words.len() > 0 {
            Extraction::Words(copy_words(words))
        } else {
            Extraction::Words(Vec::new())
        },
        Outcome::Failed => Extraction::Words(Vec::new()),
    }
}

/// A copy of words.
pub fn copy_words(words: &Vec<DetectedWord>) -> (r: Vec<DetectedWord>)
    ensures
        views(r@) == views(words@),
{
    let mut r: Vec<DetectedWord> = Vec::new();
    let mut i: usize = 0;
    while i < words.len()
        invariant
            i <= words@.len(),
            views(r@) == views(words@).take(i as int),
        decreases words@.len() - i,
    {
        let ghost before = r@;
        let word: DetectedWord = words[i].clone();
        r.push(word);
        i = i + 1;
        proof {
            assert(views(r@) =~= views(before).push(words@[i - 1]@));
            assert(views(r@) =~= views(words@).take(i as int));
        }
    }
    proof {
        assert(views(words@).take(i as int) =~= views(words@));
    }
    r
}

/// A picture with a side shorter than four pixels is not read: it has no text, no words, and
/// nothing is handed to the models for it.
pub proof fn law_tiny_pictures_hold_nothing(
    p: Raster,
    detected: Seq<PixelBox>,
    read: Seq<(Seq<char>, F32)>,
)
    requires
        !is_readable(p),
    ensures
        picture_text(p, read) == Seq::<char>::empty(),
        picture_words(p, detected, read) == Seq::<Word>::empty(),
        row_pictures(p).len() == 0,
        line_boxes(p.width, p.height, detected).len() == 0,
{
    let boxes = line_boxes(p.width, p.height, detected);
    let all = all_line_words(boxes, read, boxes.len());
    assert(all.len() == 0);
    assert(picture_words(p, detected, read) =~= Seq::<Word>::empty());
}

/// A picture of one luminance is read as a whole, once.
pub proof fn law_an_even_picture_is_read_once(p: Raster)
    requires
        is_readable(p),
        forall|i: int, j: int|
            0 <= i < p.pixels() && 0 <= j < p.pixels() ==> luma_at(p, i) == luma_at(p, j),
    ensures
        row_pictures(p) == seq![p],
{
    law_an_even_picture_has_no_rows(p);
}

/// Once the models and Tesseract have both been tried, the text has been read, or is what is read
/// row by row.
pub proof fn law_the_reading_of_text_ends(
    p: Raster,
    detected: Outcome<Vec<DetectedWord>>,
    tesseract: Outcome<String>,
    r: Reading,
)
    requires
        is_next_reading(p, detected, tesseract, r),
        !(detected is Untried),
        !(tesseract is Untried),
    ensures
        r is Text || r is Rows,
{
}

/// Where the models find words, Tesseract's answer does not change the text.
pub proof fn law_the_models_come_first(
    p: Raster,
    detected: Outcome<Vec<DetectedWord>>,
    one: Outcome<String>,
    other: Outcome<String>,
    r: Reading,
)
    requires
        found_words(detected),
        is_next_reading(p, detected, one, r),
    ensures
        is_next_reading(p, detected, other, r),
        r is Text,
{
}

/// Once Tesseract has answered and either the shared engine has answered or none can be had, the
/// search for words is over.
pub proof fn law_the_search_for_words_ends(
    table: Outcome<Vec<DetectedWord>>,
    setup: EngineSetup,
    detected: Outcome<Vec<DetectedWord>>,
    r: Extraction,
)
    requires
        is_next_extraction(table, setup, detected, r),
        !(table is Untried),
        some_words(table) || !setup.entered || (setup.present && !(detected is Untried)) || (
        !setup.present && (setup.models is Failed || setup.models is Made
            && setup.engine is Failed)),
    ensures
        r is Words,
{
}

} // verus!
