use wayfrost::text::{count_text, parse_count, split_at_each, split_lines, split_words, trim};

#[test]
fn trims_every_kind_of_blank() {
    assert_eq!(trim("  \t\u{a0}\u{2003}a b\u{3000}\n\r"), "a b");
    assert_eq!(trim("\u{85}\u{2028}"), "");
    assert_eq!(trim(""), "");
    for c in (0..0x3100u32).filter_map(char::from_u32) {
        let s = format!("{}x{}", c, c);
        assert_eq!(trim(&s), s.trim(), "{:?}", c);
    }
}

#[test]
fn splits_fields_words_and_lines() {
    let s = "a\t\tb\tc d\t";
    assert_eq!(split_at_each(s, '\t'), s.split('\t').map(str::to_string).collect::<Vec<_>>());
    assert_eq!(split_at_each("", '\t'), vec![String::new()]);
    for s in ["", "a", "a\n", "a\nb", "a\r\nb\r\n", "\n\n", "a\rb\n", "x\r", "\r\n", "p\n\r\nq"] {
        assert_eq!(split_lines(s), s.lines().map(str::to_string).collect::<Vec<_>>(), "{:?}", s);
    }
    for s in ["", " ", "one", " one  two\tthree\u{2009}four ", "\nçğı İöş\n"] {
        assert_eq!(
            split_words(s),
            s.split_whitespace().map(str::to_string).collect::<Vec<_>>(),
            "{:?}",
            s
        );
    }
}

#[test]
fn reads_and_writes_counts() {
    for s in ["0", "7", "+12", "0042", "18446744073709551615", "18446744073709551616", "", "+", "-1", "1a", " 1"] {
        assert_eq!(parse_count(s), s.parse::<usize>().ok(), "{:?}", s);
    }
    for n in [0u32, 9, 10, 4294967295, 1048576] {
        assert_eq!(count_text(n), format!("{}", n));
    }
}
