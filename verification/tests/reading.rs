use wayfrost::float::F64;
use wayfrost::ocr::pipeline::{join_all, join_words, run_tesseract, run_tesseract_tsv, DetectedWord};
use wayfrost::ocr::tesseract::{find_languages, lay_out, read_row, tesseract_arguments, words_from_tsv, Argument};

fn f(v: f64) -> F64 {
    F64 { bits: v.to_bits() }
}

fn v(n: F64) -> f64 {
    f64::from_bits(n.bits)
}

fn word(x: f64, y: f64, w: f64, h: f64, text: &str) -> DetectedWord {
    DetectedWord { x: f(x), y: f(y), w: f(w), h: f(h), text: text.to_string(), line_num: 0, par_num: 0, block_num: 0 }
}

fn joined(words: &[DetectedWord]) -> String {
    let refs: Vec<&DetectedWord> = words.iter().collect();
    join_words(&refs)
}

#[test]
fn joins_words_in_reading_order() {
    let words = vec![
        word(120.0, 12.0, 50.0, 20.0, "world"),
        word(10.0, 40.0, 60.0, 20.0, "second"),
        word(10.0, 10.0, 80.0, 20.0, "Hello,"),
        word(90.0, 41.0, 40.0, 20.0, "line"),
    ];
    assert_eq!(joined(&words), "Hello, world\nsecond line");
    assert_eq!(join_all(&words), "Hello, world\nsecond line");
    assert_eq!(joined(&[]), "");
    assert_eq!(joined(&[word(0.0, 0.0, 1.0, 1.0, "ğ")]), "ğ");
}

#[test]
fn parts_paragraphs_by_an_empty_line() {
    // The gap must exceed 0.65 of the height of the line above: 13 of 20.
    let tight = vec![word(0.0, 0.0, 10.0, 20.0, "a"), word(0.0, 33.0, 10.0, 20.0, "b")];
    assert_eq!(joined(&tight), "a\nb");
    let wide = vec![word(0.0, 0.0, 10.0, 20.0, "a"), word(0.0, 33.5, 10.0, 20.0, "b")];
    assert_eq!(joined(&wide), "a\n\nb");
}

#[test]
fn tells_lines_apart_by_their_centers() {
    // 0.45 of a height of 20 is 9.
    let near = vec![word(0.0, 0.0, 10.0, 20.0, "a"), word(20.0, 8.5, 10.0, 20.0, "b")];
    assert_eq!(joined(&near), "a b");
    let far = vec![word(0.0, 0.0, 10.0, 20.0, "a"), word(20.0, 9.5, 10.0, 20.0, "b")];
    assert_eq!(joined(&far), "a\nb");
}

#[test]
fn keeps_every_word_when_joining() {
    let mut words = Vec::new();
    for i in 0..30u32 {
        words.push(word(
            ((i * 37) % 200) as f64,
            ((i * 53) % 120) as f64,
            15.0,
            12.0,
            &format!("w{}", i),
        ));
    }
    let text = joined(&words);
    let mut said: Vec<String> = text.split_whitespace().map(str::to_string).collect();
    said.sort();
    let mut all: Vec<String> = words.iter().map(|w| w.text.clone()).collect();
    all.sort();
    assert_eq!(said, all);
}

const HEAD: &str = "level\tpage_num\tblock_num\tpar_num\tline_num\tword_num\tleft\ttop\twidth\theight\tconf\ttext";

fn row(left: &str, top: &str, width: &str, height: &str, text: &str) -> String {
    format!("5\t1\t2\t3\t4\t1\t{}\t{}\t{}\t{}\t96.1\t{}", left, top, width, height, text)
}

#[test]
fn reads_rows_of_a_table() {
    let w = read_row(&row("10", "20", "30", "8", " metin "), f(2.0)).unwrap();
    assert_eq!((v(w.x), v(w.y), v(w.w), v(w.h)), (5.0, 10.0, 15.0, 4.0));
    assert_eq!(w.text, "metin");
    assert_eq!((w.block_num, w.par_num, w.line_num), (2, 3, 4));
    // Fields that write no number count as zero.
    let w = read_row("5\t1\tx\t-1\t\t1\tabc\t2.5\t1e1\t\t0\tt", f(1.0)).unwrap();
    assert_eq!((v(w.x), v(w.y), v(w.w), v(w.h)), (0.0, 2.5, 10.0, 0.0));
    assert_eq!((w.block_num, w.par_num, w.line_num), (0, 0, 0));
    // Rows of other levels, without text, or with too few fields describe no word.
    assert!(read_row(&row("1", "1", "1", "1", "  "), f(1.0)).is_none());
    assert!(read_row("4\t1\t2\t3\t4\t1\t1\t1\t1\t1\t1\ta", f(1.0)).is_none());
    assert!(read_row("5\t1\t2\t3\t4\t1\t1\t1\t1\t1\t1", f(1.0)).is_none());
    assert!(read_row(" 5\t1\t2\t3\t4\t1\t1\t1\t1\t1\t1\ta", f(1.0)).is_none());
}

#[test]
fn lays_words_out_by_line_and_paragraph() {
    let table = format!(
        "{}\n{}\n{}\n{}\r\n{}\n",
        HEAD,
        row("50", "0", "30", "10", "right"),
        row("0", "1", "60", "10", "left"),
        row("0", "14", "20", "10", "next"),
        row("0", "60", "20", "10", "far"),
    );
    let words = words_from_tsv(&table, f(1.0));
    let said: Vec<&str> = words.iter().map(|w| w.text.as_str()).collect();
    assert_eq!(said, vec!["left", "right", "next", "far"]);
    let lines: Vec<usize> = words.iter().map(|w| w.line_num).collect();
    assert_eq!(lines, vec![0, 0, 1, 2]);
    let pars: Vec<usize> = words.iter().map(|w| w.par_num).collect();
    assert_eq!(pars, vec![0, 0, 0, 1]);
    assert!(words.iter().all(|w| w.block_num == 0));
    // The first word would reach the second: it ends one short of it.
    assert_eq!(v(words[0].w), 49.0);
    assert_eq!(v(words[1].w), 30.0);
    // The heading alone describes nothing, and the first row is always the heading.
    assert!(words_from_tsv(HEAD, f(1.0)).is_empty());
    assert!(words_from_tsv(&row("0", "0", "1", "1", "a"), f(1.0)).is_empty());
    assert!(words_from_tsv("", f(1.0)).is_empty());
}

#[test]
fn keeps_a_word_one_wide_at_least() {
    let words = vec![word(10.0, 0.0, 30.0, 10.0, "a"), word(10.5, 0.0, 30.0, 10.0, "b")];
    let laid = lay_out(&words);
    assert_eq!(v(laid[0].w), 1.0);
    assert_eq!(laid.len(), 2);
}

#[test]
fn asks_for_the_right_languages() {
    assert_eq!(find_languages("EN"), "eng");
    for lang in ["TR", "", "en", "ENG", "E"] {
        assert_eq!(find_languages(lang), "tur+eng");
    }
}

fn shown(args: Vec<Argument>) -> Vec<String> {
    args.iter()
        .map(|a| match a {
            Argument::Word(w) => w.to_string(),
            Argument::TessdataDir => "<dir>".to_string(),
        })
        .collect()
}

#[test]
fn writes_the_arguments_of_the_program() {
    assert_eq!(
        shown(tesseract_arguments("TR", true, true)),
        vec!["stdin", "stdout", "--tessdata-dir", "<dir>", "-l", "tur+eng", "--psm", "6", "tsv"]
    );
    assert_eq!(
        shown(tesseract_arguments("EN", false, false)),
        vec!["stdin", "stdout", "-l", "eng", "--psm", "6"]
    );
}

#[test]
fn takes_the_output_of_the_program_as_text() {
    assert_eq!(run_tesseract(true, "Merhaba dünya\n".as_bytes()), Some("Merhaba dünya\n".to_string()));
    assert_eq!(run_tesseract(true, &[b'a', 0xff, b'b']), Some("a\u{fffd}b".to_string()));
    assert_eq!(run_tesseract(false, b"text"), None);
    let table = format!("{}\n{}\n", HEAD, row("4", "8", "2", "6", "söz"));
    let words = run_tesseract_tsv(true, table.as_bytes(), f(2.0)).unwrap();
    assert_eq!(words.len(), 1);
    assert_eq!(words[0].text, "söz");
    assert_eq!(v(words[0].x), 2.0);
    assert!(run_tesseract_tsv(false, table.as_bytes(), f(2.0)).is_none());
}

#[test]
fn joined_text_rests_on_texts_and_places() {
    let words = vec![
        word(0.0, 0.0, 30.0, 10.0, "bir"),
        word(40.0, 1.0, 30.0, 10.0, "iki"),
        word(0.0, 20.0, 30.0, 10.0, "üç"),
        word(40.0, 60.0, 30.0, 12.0, "dört"),
    ];
    let text = joined(&words);
    for order in [[3, 2, 1, 0], [1, 3, 0, 2], [2, 0, 3, 1]] {
        let others: Vec<DetectedWord> = order
            .iter()
            .map(|&i| DetectedWord { w: f(7.0 + i as f64), line_num: 9 - i, par_num: i, ..words[i].clone() })
            .collect();
        assert_eq!(joined(&others), text);
    }
}
