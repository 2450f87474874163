use wayfrost::decimal::parse_decimal;

fn parsed(s: &str) -> Option<u64> {
    parse_decimal(s).map(|n| n.bits)
}

fn expected(s: &str) -> Option<u64> {
    s.parse::<f64>().ok().map(f64::to_bits)
}

#[test]
fn reads_decimal_numbers_like_the_standard_library() {
    let texts = [
        "0", "-0", "+0", "1", "42", "1920", "0.1", "0.2", "0.3", "3.14159", "-2.5", "+7.25", "5.",
        ".5", "-.5", "1e3", "1E3", "1e+3", "1e-3", "12.5e-2", "1e308", "1.7976931348623157e308",
        "1.7976931348623159e308", "1e309", "1e400", "-1e400", "4.9e-324", "2.4e-324", "2.5e-324",
        "1e-400", "2.2250738585072014e-308", "2.2250738585072011e-308", "9007199254740993",
        "9007199254740992.5", "123456789012345678901234567890", "0.000000000000000000001",
        "1e99999999999999999999999999999999999999", "1e-99999999999999999999999999999999999999",
        "0e99999999999999999999999999999999999999", "00012.500", "inf", "-inf", "+Infinity",
        "INFINITY", "iNf", "179769313486231580793728971405301e276",
    ];
    for s in texts {
        assert_eq!(parsed(s), expected(s), "{}", s);
    }
}

#[test]
fn reads_what_is_not_a_number() {
    for s in ["nan", "NaN", "NAN", "+nan"] {
        assert_eq!(parsed(s), Some(f64::NAN.to_bits() & !(1 << 63)), "{}", s);
    }
    assert_eq!(parsed("-nan"), Some(f64::NAN.to_bits() | (1 << 63)));
}

#[test]
fn refuses_text_that_writes_no_number() {
    let texts = [
        "", "+", "-", ".", "e", "e5", ".e5", "1e", "1e+", "1e-", "1.2.3", "1 ", " 1", "1,5", "abc",
        "infin", "in", "nano", "--1", "+-1", "0x10", "1e5.0", "1_000", "\u{661}",
    ];
    for s in texts {
        assert_eq!(parsed(s), None, "{}", s);
        assert_eq!(expected(s), None, "{}", s);
    }
}

#[test]
fn reads_many_written_numbers_back() {
    let mut x: u64 = 3;
    for _ in 0..300 {
        x = x.wrapping_mul(6364136223846793005).wrapping_add(1442695040888963407);
        let v = f64::from_bits(x);
        if v.is_finite() {
            for s in [format!("{}", v), format!("{:e}", v), format!("{:.3}", v % 10000.0)] {
                assert_eq!(parsed(&s), expected(&s), "{}", s);
            }
        }
    }
}

#[test]
fn rounds_halves_to_the_even_neighbour() {
    // Half way between two neighbours, then a little above and below.
    assert_eq!(parsed("9007199254740993"), Some(9007199254740992f64.to_bits()));
    assert_eq!(parsed("9007199254740993.0000000000000000000001"), Some(9007199254740994f64.to_bits()));
    assert_eq!(parsed("9007199254740995"), Some(9007199254740996f64.to_bits()));
}
