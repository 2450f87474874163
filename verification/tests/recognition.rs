use wayfrost::float::{F32, F64};
use wayfrost::ocr::boxes::{find_line_boxes, needs_detection, words_in_boxes};
use wayfrost::ocr::detection::{boxes_from_scores, detection_size};
use wayfrost::ocr::engine::{find_box_pictures, find_row_pictures, extract_words_onnx_or_fallback, init_global_ocr, needs_preparation, EngineSetup, EngineStep, Extraction, OcrEngine, Outcome, Reading};
use wayfrost::ocr::model_manager::ModelPaths;
use wayfrost::ocr::preparation::preprocess_for_ocr;
use wayfrost::ocr::recognition::{decode_line, detection_input, find_line_width, line_input, LineScores};
use wayfrost::ocr::rows::{find_active, find_rows, find_text_rows};
use wayfrost::ocr::words::DetectedWord;
use wayfrost::picture::{Picture, PixelFormat};

fn s(v: f32) -> F32 {
    F32 { bits: v.to_bits() }
}

fn d(n: F64) -> f64 {
    f64::from_bits(n.bits)
}

fn gray(width: u32, height: u32, samples: Vec<u8>) -> Picture {
    Picture { format: PixelFormat::Luma8, width, height, samples }
}

/// An answer whose best class at each step is the given one, with the given score.
fn answer(classes: usize, path: &[(usize, f32)]) -> LineScores {
    let mut scores = Vec::new();
    for &(best, score) in path {
        for c in 0..classes {
            scores.push(s(if c == best { score } else { -9.0 }));
        }
    }
    LineScores { steps: path.len(), classes, scores }
}

fn dict() -> Vec<String> {
    ["a", "b", "ç"].iter().map(|t| t.to_string()).collect()
}

#[test]
fn decodes_paths_without_blanks_and_repetitions() {
    let path = [(1, 0.5), (1, 0.9), (0, 0.1), (1, 0.5), (2, 1.0), (3, 0.5), (3, 0.5), (0, 0.2)];
    let (text, score) = decode_line(&dict(), &answer(4, &path));
    assert_eq!(text, "aabç");
    let mean = (0.0f32 + 0.5 + 0.5 + 1.0 + 0.5) / 4.0;
    assert_eq!(score, s(mean));
}

#[test]
fn passes_over_classes_that_the_dictionary_lacks() {
    let (text, score) = decode_line(&dict(), &answer(6, &[(5, 0.7), (1, 0.25), (5, 0.7)]));
    assert_eq!(text, "a");
    assert_eq!(score, s(0.25));
}

#[test]
fn gives_blank_lines_no_text_and_no_score() {
    let (text, score) = decode_line(&dict(), &answer(4, &[(0, 0.9), (0, 0.9)]));
    assert_eq!((text.as_str(), score), ("", s(0.0)));
    let none = LineScores { steps: 3, classes: 0, scores: Vec::new() };
    assert_eq!(decode_line(&dict(), &none).0, "");
}

#[test]
fn takes_the_first_of_equal_scores_and_no_score_that_is_none() {
    let scores = vec![s(f32::NAN), s(0.5), s(0.5), s(f32::NAN)];
    let (text, _) = decode_line(&dict(), &LineScores { steps: 1, classes: 4, scores });
    assert_eq!(text, "a");
    let scores = vec![s(f32::NAN); 4];
    let (text, _) = decode_line(&dict(), &LineScores { steps: 1, classes: 4, scores });
    assert_eq!(text, "");
}

#[test]
fn repeating_steps_changes_nothing() {
    let path = [(1, 0.5), (0, 0.5), (1, 0.5), (2, 0.5)];
    let (text, _) = decode_line(&dict(), &answer(4, &path));
    for t in 0..path.len() {
        let mut longer = path.to_vec();
        longer.insert(t, path[t]);
        assert_eq!(decode_line(&dict(), &answer(4, &longer)).0, text);
    }
}

#[test]
fn adds_a_space_to_the_dictionary() {
    let engine = OcrEngine::new(dict());
    let picture = gray(10, 10, vec![0; 100]);
    let (text, _) = engine.recognize_line(&picture, &answer(5, &[(1, 0.5), (4, 0.5), (2, 0.5)]));
    assert_eq!(text, "a b");
}

#[test]
fn normalizes_lines() {
    assert_eq!(find_line_width(96, 48), 96);
    assert_eq!(find_line_width(10, 48), 48);
    assert_eq!(find_line_width(100, 30), 160);
    for (w, h) in [(7u32, 3u32), (1234, 17), (5, 500), (999, 13)] {
        let width = (48f32 * (w as f32 / h as f32)).max(48.0).round() as u32;
        assert_eq!(find_line_width(w, h), width);
    }
    let t = line_input(&gray(2, 2, vec![0, 255, 0, 255]));
    assert_eq!((t.width, t.height, t.values.len()), (48, 48, 3 * 48 * 48));
    assert_eq!(t.values[0], s(-1.0));
    assert_eq!(t.values[47], s(1.0));
}

#[test]
fn normalizes_colours_for_detection() {
    let red = Picture { format: PixelFormat::Rgb8, width: 32, height: 32, samples: [200u8, 100, 0].repeat(1024) };
    let t = detection_input(&red);
    assert_eq!((t.width, t.height, t.values.len()), (32, 32, 3072));
    let mean = [0.485f32, 0.456, 0.406];
    let std = [0.229f32, 0.224, 0.225];
    for (c, v) in [200u8, 100, 0].iter().enumerate() {
        let expected = (*v as f32 / 255.0 - mean[c]) / std[c];
        assert_eq!(t.values[c * 1024], s(expected));
        assert_eq!(t.values[c * 1024 + 1023], s(expected));
    }
}

#[test]
fn sizes_pictures_for_detection() {
    assert_eq!(detection_size(1920, 1080), (960, 512));
    assert_eq!(detection_size(100, 20), (96, 32));
    assert_eq!(detection_size(16, 16), (32, 32));
    assert_eq!(detection_size(5000, 100), (960, 32));
    for w in (16..4000u32).step_by(97) {
        let (a, b) = detection_size(w, 700);
        let scale = (960.0f32 / w.max(700) as f32).min(1.0);
        assert_eq!(a, (((w as f32 * scale).round() as u32 / 32) * 32).max(32));
        assert_eq!(b, (((700f32 * scale).round() as u32 / 32) * 32).max(32));
    }
}

fn with_patch(width: usize, height: usize, patches: &[(usize, usize, usize, usize)]) -> Vec<F32> {
    let mut scores = vec![s(0.1); width * height];
    for &(x, y, w, h) in patches {
        for j in y..y + h {
            for i in x..x + w {
                scores[j * width + i] = s(0.3);
            }
        }
    }
    scores
}

#[test]
fn boxes_regions_of_text() {
    // The picture is as large as the scaled one: 64 by 64.
    let scores = with_patch(64, 64, &[(40, 10, 10, 8), (5, 11, 12, 7), (20, 40, 7, 7)]);
    let boxes = boxes_from_scores(64, 64, &scores);
    assert_eq!(boxes, vec![(3, 9, 16, 11), (38, 8, 14, 12), (18, 38, 11, 11)]);
    // Too few pixels, or too short a side.
    let small = with_patch(64, 64, &[(0, 0, 6, 20), (20, 20, 20, 6)]);
    assert!(boxes_from_scores(64, 64, &small).is_empty());
    // Margins stay in the picture, and scores beyond it are not looked at.
    let mut corner = with_patch(64, 64, &[(0, 0, 7, 7), (57, 57, 7, 7)]);
    corner.push(s(1.0));
    assert_eq!(boxes_from_scores(64, 64, &corner), vec![(0, 0, 11, 11), (55, 55, 9, 9)]);
    // A small picture is one box.
    assert_eq!(boxes_from_scores(15, 400, &Vec::new()), vec![(0, 0, 15, 400)]);
}

#[test]
fn joins_pixels_that_touch_side_by_side() {
    // Two squares that touch at a corner only are two regions.
    let scores = with_patch(64, 64, &[(0, 0, 8, 8), (8, 8, 8, 8)]);
    assert_eq!(boxes_from_scores(64, 64, &scores).len(), 2);
    let scores = with_patch(64, 64, &[(0, 0, 8, 8), (8, 7, 8, 8)]);
    assert_eq!(boxes_from_scores(64, 64, &scores), vec![(0, 0, 20, 19)]);
}

#[test]
fn finds_rows_of_text() {
    let mut samples = vec![128u8; 20 * 40];
    for y in 10..22usize {
        for x in 0..20usize {
            samples[y * 20 + x] = if x % 2 == 0 { 0 } else { 255 };
        }
    }
    assert_eq!(find_text_rows(&gray(20, 40, samples)), vec![(6, 26)]);
    assert!(find_text_rows(&gray(20, 40, vec![9; 800])).is_empty());
}

#[test]
fn gives_rows_room_and_passes_over_low_ones() {
    let row = |runs: &[(usize, usize)], n: usize| -> Vec<bool> {
        (0..n).map(|y| runs.iter().any(|r| r.0 <= y && y < r.1)).collect()
    };
    assert_eq!(find_rows(&row(&[(10, 14)], 40)), vec![(6, 18)]);
    assert!(find_rows(&row(&[(10, 13)], 40)).is_empty());
    assert_eq!(find_rows(&row(&[(0, 9)], 40)), vec![(0, 13)]);
    assert!(find_rows(&row(&[(0, 7)], 40)).is_empty());
    assert_eq!(find_rows(&row(&[(30, 40)], 40)), vec![(26, 40)]);
    assert_eq!(find_rows(&row(&[(30, 38)], 40)), vec![(26, 40)]);
    assert_eq!(find_rows(&row(&[(2, 9), (20, 26)], 40)), vec![(0, 13), (16, 30)]);
    assert!(find_rows(&Vec::new()).is_empty());
}

#[test]
fn calls_rows_active_above_a_part_of_the_mean() {
    // The mean of 10, 4 and 1 is 5; 0.35 of it is 1.75.
    assert_eq!(find_active(&vec![s(10.0), s(4.0), s(1.0)]), vec![true, true, false]);
    // One is the least threshold.
    assert_eq!(find_active(&vec![s(1.0), s(1.5), s(0.0)]), vec![false, true, false]);
}

#[test]
fn reads_pictures_row_by_row() {
    let mut samples = vec![128u8; 20 * 80];
    for y in (10..22usize).chain(50..62) {
        for x in 0..20usize {
            samples[y * 20 + x] = if x % 2 == 0 { 0 } else { 255 };
        }
    }
    let picture = gray(20, 80, samples);
    let parts = find_row_pictures(&picture);
    assert_eq!(parts.len(), 2);
    assert_eq!((parts[0].width, parts[0].height), (20, 20));
    let engine = OcrEngine::new(dict());
    let answers = vec![answer(5, &[(4, 0.9), (1, 0.9)]), answer(5, &[(2, 0.9)])];
    assert_eq!(engine.recognize_image(&picture, &answers), "a\nb");
    // Rows without text, or with too low a score, are passed over.
    let answers = vec![answer(5, &[(4, 0.9)]), answer(5, &[(2, 0.9)])];
    assert_eq!(engine.recognize_image(&picture, &answers), "b");
    let answers = vec![answer(5, &[(1, -5.0)]), answer(5, &[(2, -4.5)])];
    assert_eq!(engine.recognize_image(&picture, &answers), "b");
    // A picture that is no higher than a line, or has no rows, is read whole.
    let line = gray(30, 64, vec![0; 1920]);
    assert_eq!(find_row_pictures(&line).len(), 1);
    assert_eq!(engine.recognize_image(&line, &vec![answer(5, &[(4, 0.1), (3, -8.0)])]), "ç");
    assert_eq!(find_row_pictures(&gray(30, 65, vec![0; 1950])).len(), 1);
    assert!(find_row_pictures(&gray(3, 100, vec![0; 300])).is_empty());
}

#[test]
fn orders_boxes_by_line() {
    assert!(!needs_detection(800, 48));
    assert!(needs_detection(801, 48));
    assert!(needs_detection(800, 49));
    assert!(!needs_detection(3, 900));
    // The second box is off the first by no more than eight; the third begins a line.
    let found = vec![(300, 10, 50, 20), (10, 18, 50, 20), (10, 40, 50, 20), (200, 35, 50, 20)];
    assert_eq!(
        find_line_boxes(400, 100, &found),
        vec![
            (0, (10, 18, 50, 20)),
            (0, (300, 10, 50, 20)),
            (1, (10, 40, 50, 20)),
            (1, (200, 35, 50, 20)),
        ]
    );
    // Boxes that leave the picture or are too small are passed over.
    let found = vec![(0, 0, 3, 20), (360, 0, 50, 20), (0, 90, 20, 20), (5, 5, 20, 20)];
    assert_eq!(find_line_boxes(400, 100, &found), vec![(0, (5, 5, 20, 20))]);
    assert_eq!(find_line_boxes(400, 100, &Vec::new()), vec![(0, (0, 0, 400, 100))]);
    assert_eq!(find_line_boxes(30, 20, &vec![(1, 1, 9, 9)]), vec![(0, (0, 0, 30, 20))]);
    assert!(find_line_boxes(3, 20, &Vec::new()).is_empty());
}

#[test]
fn spreads_words_over_their_box() {
    let boxes = vec![(2, (100, 50, 110, 20)), (1, (0, 10, 40, 20))];
    let read = vec![(" ab çde ".to_string(), s(0.9)), ("x".to_string(), s(0.25))];
    let words = words_in_boxes(&boxes, &read);
    assert_eq!(words.len(), 3);
    assert_eq!((words[0].text.as_str(), words[0].line_num), ("x", 1));
    // Five characters and half a space: 110 / 5.5 is 20.
    assert_eq!((words[1].text.as_str(), d(words[1].x), d(words[1].w)), ("ab", 100.0, 40.0));
    assert_eq!((words[2].text.as_str(), d(words[2].x), d(words[2].w)), ("çde", 150.0, 60.0));
    assert_eq!((d(words[2].y), d(words[2].h), words[2].line_num), (50.0, 20.0, 2));
    // Too low a score, or no text.
    let read = vec![("ab".to_string(), s(0.24)), ("  ".to_string(), s(0.9))];
    assert!(words_in_boxes(&boxes, &read).is_empty());
    // Words are four wide at least.
    let words = words_in_boxes(&vec![(0, (0, 0, 4, 9))], &vec![("abcdefgh".to_string(), s(1.0))]);
    assert_eq!(d(words[0].w), 4.0);
    let narrow = words_in_boxes(&vec![(0, (0, 0, 4, 9))], &vec![("a b".to_string(), s(1.0))]);
    assert_eq!(d(narrow[0].w), 4.0);
}

#[test]
fn detects_and_recognizes_words() {
    let engine = OcrEngine::new(dict());
    let picture = gray(400, 100, vec![0; 40000]);
    let found = vec![(10, 10, 60, 20), (200, 12, 60, 20)];
    let parts = find_box_pictures(&picture, &found);
    assert_eq!(parts.iter().map(|p| (p.width, p.height)).collect::<Vec<_>>(), vec![(60, 20), (60, 20)]);
    let answers = vec![answer(5, &[(1, 0.9)]), answer(5, &[(2, 0.9)])];
    let words = engine.detect_and_recognize(&picture, &found, &answers);
    assert_eq!(words.iter().map(|w| w.text.as_str()).collect::<Vec<_>>(), vec!["a", "b"]);
    assert_eq!(engine.detect_text_boxes(&gray(10, 10, vec![0; 100]), &Vec::new()), vec![(0, 0, 10, 10)]);
    let tiny = gray(3, 3, vec![0; 9]);
    assert!(engine.detect_and_recognize(&tiny, &Vec::new(), &Vec::new()).is_empty());
}

fn some(text: &str) -> Vec<DetectedWord> {
    vec![DetectedWord { text: text.to_string(), ..DetectedWord::default() }]
}

#[test]
fn tries_the_models_before_tesseract() {
    let engine = OcrEngine::new(dict());
    let p = gray(10, 90, vec![0; 900]);
    let step = |w: &Outcome<Vec<DetectedWord>>, t: &Outcome<String>| match engine.recognize(&p, w, t) {
        Reading::Tesseract(q) | Reading::Rows(q) if q.samples != preprocess_for_ocr(&p).samples => "another picture".to_string(),
        Reading::Tesseract(_) => "Tesseract".to_string(),
        Reading::Rows(_) => "Rows".to_string(),
        other => format!("{:?}", other),
    };
    assert_eq!(step(&Outcome::Untried, &Outcome::Untried), "Detect");
    assert_eq!(step(&Outcome::Made(some("söz")), &Outcome::Untried), "Text(\"söz\")");
    assert_eq!(step(&Outcome::Failed, &Outcome::Untried), "Tesseract");
    assert_eq!(step(&Outcome::Made(Vec::new()), &Outcome::Untried), "Tesseract");
    assert_eq!(step(&Outcome::Made(some("  ")), &Outcome::Untried), "Tesseract");
    assert_eq!(step(&Outcome::Failed, &Outcome::Made(" text\n".to_string())), "Text(\"text\")");
    assert_eq!(step(&Outcome::Failed, &Outcome::Made(" \n".to_string())), "Rows");
    assert_eq!(step(&Outcome::Failed, &Outcome::Failed), "Rows");
    // Where the models have answered, nothing is scaled, so that the size does not matter.
    let wide = gray(2_000_000, 4, vec![0; 8_000_000]);
    assert!(!needs_preparation(&wide, &Outcome::Made(some("x")), &Outcome::Untried));
    assert!(needs_preparation(&wide, &Outcome::Failed, &Outcome::Untried));
    assert!(matches!(engine.recognize(&wide, &Outcome::Made(some("x")), &Outcome::Untried), Reading::Text(t) if t == "x"));
    let tiny = gray(3, 10, vec![0; 30]);
    assert!(matches!(engine.recognize(&tiny, &Outcome::Untried, &Outcome::Untried), Reading::Text(t) if t.is_empty()));
}

fn paths() -> ModelPaths {
    ModelPaths { det_model: b"d".to_vec(), rec_model: b"r".to_vec(), dict_file: b"k".to_vec() }
}

#[test]
fn makes_the_shared_engine_once() {
    let mut setup = EngineSetup { entered: true, present: false, models: Outcome::Untried, engine: Outcome::Untried };
    assert!(matches!(init_global_ocr(&setup), EngineStep::EnsureModels));
    setup.models = Outcome::Made(paths());
    assert!(matches!(init_global_ocr(&setup), EngineStep::Load(p) if p.rec_model == b"r"));
    setup.engine = Outcome::Made(());
    assert!(matches!(init_global_ocr(&setup), EngineStep::Keep));
    setup.engine = Outcome::Failed;
    assert!(matches!(init_global_ocr(&setup), EngineStep::Nothing));
    setup.models = Outcome::Failed;
    assert!(matches!(init_global_ocr(&setup), EngineStep::Nothing));
    setup.models = Outcome::Untried;
    setup.present = true;
    assert!(matches!(init_global_ocr(&setup), EngineStep::Nothing));
    setup.present = false;
    setup.entered = false;
    assert!(matches!(init_global_ocr(&setup), EngineStep::Nothing));
}

#[test]
fn falls_back_to_the_engine_for_words() {
    let ready = EngineSetup { entered: true, present: true, models: Outcome::Untried, engine: Outcome::Untried };
    let absent = EngineSetup { entered: true, present: false, models: Outcome::Untried, engine: Outcome::Untried };
    let broken = EngineSetup { entered: false, present: false, models: Outcome::Untried, engine: Outcome::Untried };
    let next = extract_words_onnx_or_fallback;
    assert!(matches!(next(&Outcome::Untried, &ready, &Outcome::Untried), Extraction::Table));
    assert!(matches!(next(&Outcome::Made(some("t")), &broken, &Outcome::Untried), Extraction::Words(w) if w[0].text == "t"));
    assert!(matches!(next(&Outcome::Failed, &broken, &Outcome::Untried), Extraction::Words(w) if w.is_empty()));
    assert!(matches!(next(&Outcome::Failed, &absent, &Outcome::Untried), Extraction::Engine(EngineStep::EnsureModels)));
    assert!(matches!(next(&Outcome::Made(Vec::new()), &ready, &Outcome::Untried), Extraction::Detect));
    assert!(matches!(next(&Outcome::Failed, &ready, &Outcome::Made(some("e"))), Extraction::Words(w) if w[0].text == "e"));
    assert!(matches!(next(&Outcome::Failed, &ready, &Outcome::Failed), Extraction::Words(w) if w.is_empty()));
}

#[test]
fn detection_pictures_are_small() {
    for w in [1, 16, 31, 33, 700, 959, 960, 961, 4000, 65_535, u32::MAX] {
        for h in [1, 17, 480, 960, 1079, 1_000_003, u32::MAX] {
            let (a, b) = detection_size(w, h);
            for side in [a, b] {
                assert!((32..=960).contains(&side));
                assert_eq!(side % 32, 0);
            }
        }
    }
}

#[test]
fn read_words_stand_in_order() {
    let boxes = find_line_boxes(600, 300, &vec![(300, 100, 80, 30), (20, 104, 90, 30), (5, 5, 70, 30)]);
    let read = vec![("a".to_string(), s(0.9)), ("b c".to_string(), s(0.9)), ("d".to_string(), s(0.9))];
    let words = words_in_boxes(&boxes, &read);
    assert_eq!(words.iter().map(|w| w.text.as_str()).collect::<Vec<_>>(), vec!["a", "b", "c", "d"]);
    for pair in words.windows(2) {
        assert!(pair[0].line_num < pair[1].line_num || d(pair[0].x) <= d(pair[1].x));
    }
}

#[test]
fn even_pictures_are_read_once() {
    for v in [0, 1, 128, 255] {
        let p = gray(30, 100, vec![v; 3000]);
        assert!(find_text_rows(&p).is_empty());
        assert_eq!(find_row_pictures(&p).len(), 1);
    }
}
