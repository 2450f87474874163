use wayfrost::float::F64;
use wayfrost::ocr::words::{DetectedWord, Frame};
use wayfrost::overlay::controls::{accent_colour, key_action, place_button, KeyAction, PressedKey};
use wayfrost::overlay::copying::{finish_copy, CopyEnd, CopyPlan};
use wayfrost::overlay::drawing::{find_outline, find_shown_ratio, Outline, Rounded};
use wayfrost::overlay::selection::select_words_in_flow;
use wayfrost::overlay::state::{find_crop, merge_words, CropRect, Cursor, DragEnd, Language, Overlay};

fn f(v: f64) -> F64 {
    F64 { bits: v.to_bits() }
}

fn v(n: F64) -> f64 {
    f64::from_bits(n.bits)
}

fn at(x: f64, y: f64) -> (F64, F64) {
    (f(x), f(y))
}

fn frame(x: f64, y: f64, w: f64, h: f64) -> Frame {
    Frame { x: f(x), y: f(y), w: f(w), h: f(h) }
}

fn plain(r: Frame) -> (f64, f64, f64, f64) {
    (v(r.x), v(r.y), v(r.w), v(r.h))
}

fn word(x: f64, y: f64, text: &str, par: usize, line: usize) -> DetectedWord {
    DetectedWord {
        x: f(x),
        y: f(y),
        w: f(40.0),
        h: f(20.0),
        text: text.to_string(),
        line_num: line,
        par_num: par,
        block_num: 0,
    }
}

/// Two lines of three words.
fn page() -> Vec<DetectedWord> {
    vec![
        word(0.0, 0.0, "one", 0, 0),
        word(50.0, 0.0, "two", 0, 0),
        word(100.0, 0.0, "three", 0, 0),
        word(0.0, 30.0, "four", 0, 1),
        word(50.0, 30.0, "five", 0, 1),
        word(100.0, 30.0, "six", 0, 1),
    ]
}

/// An overlay of 200 by 100 pixels, shown as large as it is.
const AREA: (i32, i32) = (200, 100);

fn overlay() -> Overlay {
    let mut o = Overlay::new(Some((200, 100)));
    o.set_words(page());
    o
}

fn framed() -> Overlay {
    let mut o = overlay();
    o.drag_begin(AREA, at(0.0, 0.0));
    o.drag_end(AREA, at(199.0, 99.0));
    o
}

#[test]
fn begins_with_nothing_framed_or_selected() {
    let o = Overlay::new(None);
    assert_eq!(o.size, (1920, 1080));
    assert!(!o.pictured && o.locked.is_none() && o.framing.is_none() && o.text_drag.is_none());
    assert!(o.words.is_empty() && o.selected.is_empty() && o.cached.is_none());
    assert_eq!((o.language, o.cursor), (Language::Turkish, Cursor::Crosshair));
    assert_eq!((Language::Turkish.code(), Language::English.code()), ("TR", "EN"));
}

#[test]
fn selects_in_reading_order_between_the_ends_of_a_drag() {
    let words = page();
    // From the middle of "two" to the middle of "five".
    assert_eq!(select_words_in_flow(&words, at(70.0, 10.0), at(70.0, 40.0), None), vec![1, 2, 3, 4]);
    // Along one line.
    assert_eq!(select_words_in_flow(&words, at(60.0, 8.0), at(120.0, 12.0), None), vec![1, 2]);
    assert!(select_words_in_flow(&[], at(0.0, 0.0), at(9.0, 99.0), None).is_empty());
}

#[test]
fn selects_the_same_from_either_end() {
    let words = page();
    for (a, b) in [
        (at(70.0, 10.0), at(70.0, 40.0)),
        (at(120.0, 12.0), at(60.0, 8.0)),
        (at(0.0, 0.0), at(199.0, 99.0)),
        (at(140.0, 5.0), at(10.0, 36.0)),
    ] {
        assert_eq!(
            select_words_in_flow(&words, a, b, None),
            select_words_in_flow(&words, b, a, None)
        );
    }
}

#[test]
fn selects_nothing_outside_the_framed_region() {
    let words = page();
    let region = frame(45.0, 0.0, 50.0, 25.0);
    assert_eq!(select_words_in_flow(&words, at(0.0, 0.0), at(199.0, 99.0), Some(region)), vec![1]);
}

#[test]
fn frames_a_region_by_dragging() {
    let mut o = overlay();
    o.drag_begin(AREA, at(60.0, 40.0));
    assert!(o.framing.is_some() && o.text_drag.is_none());
    assert!(o.drag_update(AREA, at(-5.0, -5.0)));
    let end = o.drag_end(AREA, at(-20.4, -10.6));
    let region = match end {
        DragEnd::Framed { region, crop } => {
            assert_eq!(crop, Some(CropRect { x: 40, y: 29, width: 20, height: 11 }));
            region
        }
        _ => panic!("{:?}", end),
    };
    assert_eq!(o.locked, Some(region));
    assert_eq!(plain(region), (60.0 - 20.4, 40.0 - 10.6, (60.0f64 - (60.0 - 20.4)).abs(), (40.0f64 - (40.0 - 10.6)).abs()));
    assert!(o.framing.is_none() && o.selected.is_empty());
}

#[test]
fn frames_nothing_by_a_short_drag() {
    let mut o = framed();
    assert!(o.locked.is_some());
    // A drag that begins in the region selects; the other button frames anyway.
    o.frame_begin(AREA, at(50.0, 50.0));
    assert!(o.locked.is_none() && o.framing.is_some());
    assert!(o.frame_update(AREA, at(2.0, 2.0)));
    assert!(matches!(o.frame_end(AREA, at(7.9, 30.0)), DragEnd::Cleared));
    assert!(o.locked.is_none() && o.framing.is_none());
    assert!(matches!(o.frame_end(AREA, at(50.0, 50.0)), DragEnd::Nothing));
    assert!(!o.frame_update(AREA, at(1.0, 1.0)));
    assert!(!o.drag_update(AREA, at(1.0, 1.0)));
    assert!(matches!(o.drag_end(AREA, at(1.0, 1.0)), DragEnd::Nothing));
}

#[test]
fn frames_without_reading_where_there_is_no_picture() {
    let mut o = Overlay::new(None);
    o.drag_begin((960, 540), at(10.0, 10.0));
    match o.drag_end((960, 540), at(100.0, 50.0)) {
        DragEnd::Framed { region, crop } => {
            // The area is half as large as the picture.
            assert_eq!(plain(region), (20.0, 20.0, 200.0, 100.0));
            assert_eq!(crop, None);
        }
        end => panic!("{:?}", end),
    }
}

#[test]
fn selects_text_by_dragging_in_the_region() {
    let mut o = framed();
    o.drag_begin(AREA, at(60.0, 10.0));
    assert!(o.text_drag.is_some() && o.locked.is_some() && o.framing.is_none());
    assert!(o.drag_update(AREA, at(60.0, 0.0)));
    assert_eq!(o.selected, vec![1, 2]);
    assert!(!o.drag_update(AREA, at(61.0, 0.0)));
    assert_eq!(o.point(at(190.0, 90.0)), Some(Cursor::Text));
    match o.drag_end(AREA, at(60.0, 0.0)) {
        DragEnd::Selected { offer: Some(p) } => assert_eq!((v(p.0), v(p.1)), (120.0, 10.0)),
        end => panic!("{:?}", end),
    }
    assert_eq!(o.cached.as_deref(), Some("two three"));
    assert!(matches!(o.copy_plan(), CopyPlan::Text(t) if t == "two three"));
}

#[test]
fn selects_a_word_by_a_click() {
    let mut o = framed();
    o.drag_begin(AREA, at(48.5, 51.5));
    assert!(matches!(o.drag_end(AREA, at(1.0, 3.9)), DragEnd::Selected { offer: Some(_) }));
    assert_eq!(o.selected, vec![4]);
    assert_eq!(o.cached.as_deref(), Some("five"));
    o.drag_begin(AREA, at(150.0, 90.0));
    assert!(matches!(o.drag_end(AREA, at(0.0, 0.0)), DragEnd::Selected { offer: None }));
    assert!(o.selected.is_empty() && o.cached.is_none());
}

#[test]
fn selects_all_words_of_the_region() {
    let mut o = overlay();
    o.select_all();
    assert_eq!(o.selected, vec![0, 1, 2, 3, 4, 5]);
    assert_eq!(o.cached.as_deref(), Some("one two three\nfour five six"));
    o.drag_begin(AREA, at(0.0, 25.0));
    o.drag_end(AREA, at(80.0, 30.0));
    o.select_all();
    assert_eq!(o.selected, vec![3, 4]);
    assert_eq!(o.cached.as_deref(), Some("four five"));
}

#[test]
fn takes_back_one_thing_at_a_time() {
    let mut o = framed();
    o.select_all();
    assert!(!o.escape());
    assert!(o.selected.is_empty() && o.cached.is_none() && o.locked.is_some());
    assert!(!o.escape());
    assert!(o.locked.is_none());
    assert!(o.escape());
    assert_eq!(o.words.len(), 6);
}

#[test]
fn resets_everything_but_the_words() {
    let mut o = framed();
    o.select_all();
    o.reset();
    assert!(o.locked.is_none() && o.selected.is_empty() && o.cached.is_none());
    assert_eq!(o.words.len(), 6);
}

#[test]
fn copies_what_is_selected_then_framed_then_all() {
    let mut o = overlay();
    assert!(matches!(o.copy_plan(), CopyPlan::Text(t) if t == "one two three\nfour five six"));
    o.drag_begin(AREA, at(0.0, 25.0));
    o.drag_end(AREA, at(80.0, 30.0));
    assert!(matches!(o.copy_plan(), CopyPlan::Text(t) if t == "four five"));
    o.drag_begin(AREA, at(160.0, 70.0));
    o.drag_end(AREA, at(30.0, 20.0));
    assert!(matches!(o.copy_plan(), CopyPlan::Read(c) if c == CropRect { x: 160, y: 70, width: 30, height: 20 }));
    o.selected = vec![2, 99];
    assert!(matches!(o.copy_plan(), CopyPlan::Text(t) if t == "three"));
    let empty = Overlay::new(None);
    assert!(matches!(empty.copy_plan(), CopyPlan::Text(t) if t.is_empty()));
}

#[test]
fn shows_the_beginning_of_long_texts() {
    match finish_copy("  short text \n") {
        CopyEnd::Copied { text, preview } => assert_eq!((text.as_str(), preview.as_str()), ("short text", "short text")),
        CopyEnd::Nothing => panic!(),
    }
    let long = "x".repeat(61);
    match finish_copy(&long) {
        CopyEnd::Copied { text, preview } => {
            assert_eq!(text, long);
            assert_eq!(preview, format!("{}...", "x".repeat(60)));
        }
        CopyEnd::Nothing => panic!(),
    }
    assert!(matches!(finish_copy(&"ç".repeat(30)), CopyEnd::Copied { preview, .. } if preview == "ç".repeat(30)));
    assert!(matches!(finish_copy(&"ç".repeat(31)), CopyEnd::Copied { preview, .. } if preview == format!("{}...", "ç".repeat(30))));
    assert!(matches!(finish_copy(" \t\n"), CopyEnd::Nothing));
    // A character that begins before the sixtieth byte and ends after it is not cut.
    let split = format!("a{}", "ş".repeat(30));
    match finish_copy(&split) {
        CopyEnd::Copied { text, preview } => {
            assert_eq!(text, split);
            assert_eq!(preview, format!("a{}...", "ş".repeat(29)));
        }
        CopyEnd::Nothing => panic!(),
    }
    let wide = format!("abc{}", "\u{1f600}".repeat(15));
    assert!(matches!(finish_copy(&wide), CopyEnd::Copied { text, preview }
        if text == wide && preview == format!("abc{}...", "\u{1f600}".repeat(14))));
}

#[test]
fn copies_the_text_of_a_framed_region() {
    let mut o = overlay();
    o.drag_begin(AREA, at(45.0, 0.0));
    let end = o.drag_end(AREA, at(50.0, 25.0));
    let (region, crop) = match end {
        DragEnd::Framed { region, crop: Some(crop) } => (region, crop),
        _ => panic!(),
    };
    let found = vec![word(30.0, 1.0, "dünya", 0, 0), word(6.0, 1.0, "merhaba", 0, 0)];
    let copied = o.words_found(region, crop, &found).unwrap();
    assert!(copied.contains("merhaba dünya"));
    assert!(matches!(finish_copy(&copied), CopyEnd::Copied { text, .. } if text == copied));
    assert!(matches!(o.copy_plan(), CopyPlan::Text(t) if t == copied));

    let mut o = overlay();
    o.frame_begin(AREA, at(160.0, 70.0));
    if let DragEnd::Framed { region, crop: Some(crop) } = o.frame_end(AREA, at(30.0, 20.0)) {
        assert_eq!(o.words_found(region, crop, &Vec::new()), None);
    } else {
        panic!();
    }
}

#[test]
fn merges_the_words_of_a_region() {
    let mut o = overlay();
    let region = frame(45.0, 0.0, 50.0, 25.0);
    let crop = CropRect { x: 45, y: 0, width: 50, height: 25 };
    let found = vec![word(6.0, 1.0, "new", 0, 0)];
    assert_eq!(o.words_found(region, crop, &found), Some("new".to_string()));
    let said: Vec<(String, f64)> = o.words.iter().map(|w| (w.text.clone(), v(w.x))).collect();
    assert_eq!(
        said,
        vec![
            ("one".to_string(), 0.0),
            ("new".to_string(), 51.0),
            ("three".to_string(), 100.0),
            ("four".to_string(), 0.0),
            ("five".to_string(), 50.0),
            ("six".to_string(), 100.0),
        ]
    );
    let none = merge_words(&page(), frame(0.0, 0.0, 500.0, 500.0), crop, &Vec::new());
    assert!(none.is_empty());
}

#[test]
fn crops_inside_the_picture() {
    let c = find_crop(frame(-5.0, 190.6, 500.0, 500.0), (200, 100));
    assert_eq!(c, CropRect { x: 0, y: 99, width: 200, height: 1 });
    let c = find_crop(frame(10.5, 10.4, 0.2, 3.5), (200, 100));
    assert_eq!(c, CropRect { x: 11, y: 10, width: 1, height: 4 });
    let c = find_crop(frame(0.0, 0.0, 9.0, 9.0), (0, 0));
    assert_eq!(c, CropRect { x: 0, y: 0, width: 1, height: 1 });
}

#[test]
fn shows_the_text_pointer_over_words() {
    let mut o = overlay();
    assert_eq!(o.point(at(20.0, 10.0)), Some(Cursor::Text));
    assert_eq!(o.point(at(42.0, 10.0)), None);
    assert_eq!(o.point(at(44.0, 10.0)), Some(Cursor::Crosshair));
    assert_eq!(o.point(at(180.0, 90.0)), None);
    // Words outside the framed region are not pointed at.
    o.drag_begin(AREA, at(0.0, 25.0));
    o.drag_end(AREA, at(80.0, 30.0));
    assert_eq!(o.point(at(20.0, 10.0)), None);
}

#[test]
fn knows_what_keys_do() {
    assert_eq!(key_action(PressedKey::Escape, true), KeyAction::Escape);
    assert_eq!(key_action(PressedKey::Escape, false), KeyAction::Escape);
    assert_eq!(key_action(PressedKey::LetterA, true), KeyAction::SelectAll);
    assert_eq!(key_action(PressedKey::LetterA, false), KeyAction::Pass);
    assert_eq!(key_action(PressedKey::LetterC, true), KeyAction::Copy);
    assert_eq!(key_action(PressedKey::LetterC, false), KeyAction::Pass);
    assert_eq!(key_action(PressedKey::Enter, false), KeyAction::Copy);
    assert_eq!(key_action(PressedKey::Other, true), KeyAction::Pass);
}

#[test]
fn places_the_button_beside_the_pointer() {
    assert_eq!(place_button((800, 600), at(100.0, 100.0)), (108, 64));
    // No room on the right, or above.
    assert_eq!(place_button((800, 600), at(790.0, 100.0)), (742, 64));
    assert_eq!(place_button((800, 600), at(100.0, 20.0)), (108, 36));
    // The button keeps its distance from the borders.
    assert_eq!(place_button((800, 600), at(-50.0, 900.0)), (12, 548));
    assert_eq!(place_button((30, 30), at(10.0, 10.0)), (12, 12));
    assert_eq!(place_button((800, 600), at(100.7, 100.9)), (108, 64));
}

#[test]
fn knows_the_accents_of_the_desktop() {
    let parts = |name: &str| {
        let c = accent_colour(name);
        (v(c.red), v(c.green), v(c.blue), v(c.opacity))
    };
    assert_eq!(parts("teal"), (0.13, 0.56, 0.64, 1.0));
    assert_eq!(parts("green"), (0.23, 0.58, 0.29, 1.0));
    assert_eq!(parts("yellow"), (0.78, 0.53, 0.0, 1.0));
    assert_eq!(parts("orange"), (0.93, 0.36, 0.0, 1.0));
    assert_eq!(parts("red"), (0.90, 0.18, 0.26, 1.0));
    assert_eq!(parts("pink"), (0.84, 0.38, 0.60, 1.0));
    assert_eq!(parts("purple"), (0.57, 0.25, 0.67, 1.0));
    assert_eq!(parts("slate"), (0.44, 0.51, 0.59, 1.0));
    assert_eq!(parts("blue"), (0.208, 0.518, 0.894, 1.0));
    assert_eq!(parts(""), (0.208, 0.518, 0.894, 1.0));
}

#[test]
fn darkens_what_is_not_framed() {
    let o = overlay();
    let s = o.shading();
    assert_eq!(s.shaded.iter().map(|r| plain(*r)).collect::<Vec<_>>(), vec![(0.0, 0.0, 200.0, 100.0)]);
    assert_eq!(v(s.shade), 0.22);
    assert!(s.outlined.is_none() && s.corners.is_empty());
    let mut o = overlay();
    o.drag_begin(AREA, at(20.0, 10.0));
    o.drag_update(AREA, at(100.0, 60.0));
    let around = vec![
        (0.0, 0.0, 200.0, 10.0),
        (0.0, 70.0, 200.0, 30.0),
        (0.0, 10.0, 20.0, 60.0),
        (120.0, 10.0, 80.0, 60.0),
    ];
    let s = o.shading();
    assert_eq!(s.shaded.iter().map(|r| plain(*r)).collect::<Vec<_>>(), around);
    assert_eq!(v(s.shade), 0.35);
    assert_eq!(s.outlined.map(plain), Some((20.0, 10.0, 100.0, 60.0)));
    assert!(s.corners.is_empty());
    o.drag_end(AREA, at(100.0, 60.0));
    let s = o.shading();
    assert_eq!(s.shaded.iter().map(|r| plain(*r)).collect::<Vec<_>>(), around);
    assert_eq!(v(s.shade), 0.38);
    assert_eq!(s.corners.len(), 4);
    let (a, b, c) = s.corners[3];
    assert_eq!((v(a.0), v(a.1), v(b.0), v(b.1), v(c.0), v(c.1)), (106.0, 70.0, 120.0, 70.0, 120.0, 56.0));
}

#[test]
fn highlights_lines_of_selected_words() {
    let mut o = overlay();
    o.selected = vec![4, 1, 2, 77];
    let h = o.highlights();
    assert_eq!(h.len(), 2);
    assert_eq!(plain(h[0].frame), (47.5, -1.5, 95.0, 23.0));
    assert_eq!(v(h[0].radius), 3.0);
    assert_eq!(plain(h[1].frame), (47.5, 28.5, 45.0, 23.0));
    o.selected = Vec::new();
    assert!(o.highlights().is_empty());
    // Words of other lines are highlighted together where their heights nearly agree.
    o.words = vec![word(0.0, 0.0, "a", 0, 0), word(50.0, 11.9, "b", 0, 1), word(100.0, 24.0, "c", 0, 2)];
    o.selected = vec![0, 1, 2];
    assert_eq!(o.highlights().len(), 2);
}

#[test]
fn rounds_corners_where_there_is_room() {
    let round = Rounded { frame: frame(10.0, 20.0, 30.0, 8.0), radius: f(9.0) };
    match find_outline(round) {
        Outline::Arcs { radius, left, right, upper, lower } => {
            assert_eq!((v(radius), v(left), v(right), v(upper), v(lower)), (4.0, 14.0, 36.0, 24.0, 24.0));
        }
        o => panic!("{:?}", o),
    }
    let sharp = Rounded { frame: frame(1.0, 2.0, 3.0, 4.0), radius: f(0.0) };
    assert_eq!(find_outline(sharp), Outline::Sharp(sharp.frame));
    assert_eq!(v(find_shown_ratio(960, 1920)), 0.5);
    assert_eq!(v(find_shown_ratio(960, 0)), 960.0);
}

#[test]
fn changes_the_language() {
    let mut o = overlay();
    o.set_language(Language::English);
    assert_eq!(o.language.code(), "EN");
    assert_eq!(o.words.len(), 6);
}

#[test]
fn framed_regions_cover_the_least_area() {
    for (dx, dy) in [(8.0, 8.0), (-8.0, 9.5), (300.0, -8.0), (7.9, 400.0)] {
        let mut o = overlay();
        let area = (o.size.0 as i32, o.size.1 as i32);
        o.frame_begin(area, at(400.0, 400.0));
        let _ = o.frame_end(area, at(dx, dy));
        match o.locked {
            Some(r) => assert!(v(r.w) * v(r.h) >= 64.0),
            None => assert_eq!(dx, 7.9),
        }
    }
}

#[test]
fn dragging_further_keeps_what_is_selected() {
    let words = page();
    for (dx, dy) in [(20.0, 0.0), (70.0, 4.0), (90.0, 32.0)] {
        let start = at(2.0, 5.0);
        let current = at(2.0 + dx, 5.0 + dy);
        let further = at(2.0 + dx + 45.0, 5.0 + dy + 6.0);
        let before = select_words_in_flow(&words, start, current, None);
        let after = select_words_in_flow(&words, start, further, None);
        assert!(before.iter().all(|i| after.contains(i)));
        let before = select_words_in_flow(&words, further, current, None);
        let after = select_words_in_flow(&words, further, start, None);
        assert!(before.iter().all(|i| after.contains(i)));
    }
}
