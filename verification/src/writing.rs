//! What holds of texts that are taken apart and of numbers that are read.

use vstd::prelude::*;
use vstd::arithmetic::power2::pow2;
use crate::datum::rounded_datum;
use crate::decimal::{
    decimal_datum, decimal_of, exponent_of, lemma_ten_to_pos, mark_place, number_of, spells, ten_to,
    with_minus, without_sign,
};
use crate::exact::{
    is_nearly, lemma_exact_whole, lemma_of_datum, lemma_of_nat, lemma_rounding_keeps_sides, one,
};
use crate::float::F64;
use crate::rounding::Format;
use crate::text::{
    all_digits, blank_parts, count_of, decimal_digits, digits_value, is_blank, is_digit,
    lemma_decimal_digits, lines_of, parts, trimmed, trimmed_end, trimmed_start, words_of,
};

verus! {

/// Texts with a character between them.
pub open spec fn joined(fields: Seq<Seq<char>>, sep: char) -> Seq<char>
    decreases fields.len(),
{
    if fields.len() == 0 {
        Seq::empty()
    } else if fields.len() == 1 {
        fields[0]
    } else {
        joined(fields.drop_last(), sep).push(sep) + fields.last()
    }
}

/// The parts of a text, with the character that parts them between them, make up the text, and
/// none of them holds that character.
pub proof fn law_parts_make_up_the_text(s: Seq<char>, sep: char)
    ensures
        parts(s, sep).len() > 0,
        joined(parts(s, sep), sep) == s,
        forall|i: int| 0 <= i < parts(s, sep).len() ==> !(#[trigger] parts(s, sep)[i]).contains(sep),
    decreases s.len(),
{
    if s.len() > 0 {
        let before = parts(s.drop_last(), sep);
        let all = parts(s, sep);
        let c = s.last();
        law_parts_make_up_the_text(s.drop_last(), sep);
        if c == sep {
            assert(all.drop_last() =~= before);
            assert(joined(all, sep) =~= joined(before, sep).push(c));
            assert(!Seq::<char>::empty().contains(sep));
        } else {
            let last = before.last();
            assert(all.drop_last() =~= before.drop_last());
            if before.len() == 1 {
                assert(joined(all, sep) =~= before[0].push(c));
            } else {
                assert(joined(all, sep) =~= joined(before, sep).push(c));
            }
            assert forall|i: int| 0 <= i < all.len() implies !(#[trigger] all[i]).contains(sep) by {
                if i == all.len() - 1 {
                    assert(!before[i].contains(sep));
                    if all[i].contains(sep) {
                        let k = choose|k: int| 0 <= k < all[i].len() && all[i][k] == sep;
                        assert(last[k] == sep);
                    }
                } else {
                    assert(all[i] == before[i]);
                }
            }
        }
        assert(s =~= s.drop_last().push(c));
    }
}

/// A text without the character is one part.
proof fn lemma_one_part(a: Seq<char>, sep: char)
    requires
        !a.contains(sep),
    ensures
        parts(a, sep) == seq![a],
    decreases a.len(),
{
    if a.len() > 0 {
        let init = a.drop_last();
        if init.contains(sep) {
            let k = choose|k: int| 0 <= k < init.len() && init[k] == sep;
            assert(a[k] == sep);
        }
        lemma_one_part(init, sep);
        assert(a[a.len() - 1] == a.last());
        assert(init.push(a.last()) =~= a);
        assert(parts(a, sep) =~= seq![a]);
    } else {
        assert(a =~= Seq::<char>::empty());
    }
}

/// The parts on both sides of the character.
proof fn lemma_parts_joined(a: Seq<char>, sep: char, b: Seq<char>)
    ensures
        parts(a.push(sep) + b, sep) == parts(a, sep) + parts(b, sep),
    decreases b.len(),
{
    let all = a.push(sep) + b;
    if b.len() == 0 {
        assert(all =~= a.push(sep));
        assert(all.drop_last() =~= a);
        assert(parts(all, sep) =~= parts(a, sep) + parts(b, sep));
    } else {
        lemma_parts_joined(a, sep, b.drop_last());
        law_parts_make_up_the_text(b.drop_last(), sep);
        assert(all.drop_last() =~= a.push(sep) + b.drop_last());
        assert(all.last() == b.last());
        assert(parts(all, sep) =~= parts(a, sep) + parts(b, sep));
    }
}

/// Fields that are written with a character between them that none of them holds are found again.
pub proof fn law_fields_are_found_again(fields: Seq<Seq<char>>, sep: char)
    requires
        fields.len() > 0,
        forall|i: int| 0 <= i < fields.len() ==> !(#[trigger] fields[i]).contains(sep),
    ensures
        parts(joined(fields, sep), sep) == fields,
    decreases fields.len(),
{
    if fields.len() == 1 {
        lemma_one_part(fields[0], sep);
        assert(seq![fields[0]] =~= fields);
    } else {
        let init = fields.drop_last();
        assert forall|i: int| 0 <= i < init.len() implies !(#[trigger] init[i]).contains(sep) by {
            assert(init[i] == fields[i]);
        }
        law_fields_are_found_again(init, sep);
        assert(fields[fields.len() - 1] == fields.last());
        lemma_one_part(fields.last(), sep);
        lemma_parts_joined(joined(init, sep), sep, fields.last());
        assert(init + seq![fields.last()] =~= fields);
    }
}

/// What is left of a text without the blanks it begins with.
proof fn lemma_trimmed_start(s: Seq<char>) -> (a: int)
    ensures
        0 <= a <= s.len(),
        trimmed_start(s) == s.subrange(a, s.len() as int),
        forall|i: int| 0 <= i < a ==> is_blank(#[trigger] s[i]),
        a < s.len() ==> !is_blank(s[a]),
    decreases s.len(),
{
    if s.len() == 0 || !is_blank(s[0]) {
        assert(s.subrange(0, s.len() as int) =~= s);
        0
    } else {
        let t = s.drop_first();
        let b = lemma_trimmed_start(t);
        assert(t.subrange(b, t.len() as int) =~= s.subrange(b + 1, s.len() as int));
        assert forall|i: int| 0 <= i < b + 1 implies is_blank(#[trigger] s[i]) by {
            if i > 0 {
                assert(t[i - 1] == s[i]);
            }
        }
        b + 1
    }
}

/// What is left of a text without the blanks it ends with.
proof fn lemma_trimmed_end(s: Seq<char>) -> (b: int)
    ensures
        0 <= b <= s.len(),
        trimmed_end(s) == s.subrange(0, b),
        forall|i: int| b <= i < s.len() ==> is_blank(#[trigger] s[i]),
        b > 0 ==> !is_blank(s[b - 1]),
    decreases s.len(),
{
    if s.len() == 0 || !is_blank(s.last()) {
        assert(s.subrange(0, s.len() as int) =~= s);
        s.len() as int
    } else {
        let t = s.drop_last();
        let b = lemma_trimmed_end(t);
        assert(t.subrange(0, b) =~= s.subrange(0, b));
        assert forall|i: int| b <= i < s.len() implies is_blank(#[trigger] s[i]) by {
            if i < t.len() {
                assert(t[i] == s[i]);
            }
        }
        b
    }
}

/// Trimming a text takes blanks off both of its ends, and takes all of them: what is left is a
/// piece of the text around which all is blank, and neither begins nor ends with a blank.
pub proof fn law_trimming_takes_the_blanks_off_both_ends(s: Seq<char>) -> (r: (int, int))
    ensures
        0 <= r.0 <= r.1 <= s.len(),
        trimmed(s) == s.subrange(r.0, r.1),
        forall|i: int| 0 <= i < r.0 ==> is_blank(#[trigger] s[i]),
        forall|i: int| r.1 <= i < s.len() ==> is_blank(#[trigger] s[i]),
        r.0 < r.1 ==> !is_blank(s[r.0]) && !is_blank(s[r.1 - 1]),
        (exists|i: int| 0 <= i < s.len() && !is_blank(#[trigger] s[i])) ==> r.0 < r.1,
{
    let a = lemma_trimmed_start(s);
    let t = trimmed_start(s);
    let n = lemma_trimmed_end(t);
    assert(t.subrange(0, n) =~= s.subrange(a, a + n));
    assert forall|i: int| a + n <= i < s.len() implies is_blank(#[trigger] s[i]) by {
        assert(t[i - a] == s[i]);
    }
    if n > 0 {
        assert(t[n - 1] == s[a + n - 1]);
        assert(!is_blank(s[a + n - 1]));
        assert(!is_blank(s[a]));
    }
    (a, a + n)
}

/// A text is read line by line. A line ends at a line feed, before which there may be a carriage
/// return that is not part of it; what follows the last line feed is a line if there is anything.
pub proof fn law_texts_are_read_line_by_line(line: Seq<char>, rest: Seq<char>)
    requires
        !line.contains('\n'),
    ensures
        line.len() == 0 || line.last() != '\r' ==> lines_of(line.push('\n') + rest) == seq![line]
            + lines_of(rest),
        lines_of(line.push('\r').push('\n') + rest) == seq![line] + lines_of(rest),
        line.len() > 0 ==> lines_of(line) == seq![line],
        lines_of(Seq::<char>::empty()) == Seq::<Seq<char>>::empty(),
{
    let ended = line.push('\r');
    assert(!ended.contains('\n')) by {
        if ended.contains('\n') {
            let k = choose|k: int| 0 <= k < ended.len() && ended[k] == '\n';
            assert(line[k] == '\n');
        }
    }
    lemma_one_part(line, '\n');
    lemma_one_part(ended, '\n');
    lemma_parts_joined(line, '\n', rest);
    lemma_parts_joined(ended, '\n', rest);
    law_parts_make_up_the_text(rest, '\n');
    let p = parts(rest, '\n');
    assert((seq![line] + p).drop_last() =~= seq![line] + p.drop_last());
    assert((seq![ended] + p).drop_last() =~= seq![ended] + p.drop_last());
    assert((seq![line] + p).last() == p.last());
    assert((seq![ended] + p).last() == p.last());
    assert(ended.drop_last() =~= line);
    if line.len() == 0 || line.last() != '\r' {
        assert(lines_of(line.push('\n') + rest) =~= seq![line] + lines_of(rest));
    }
    assert(lines_of(ended.push('\n') + rest) =~= seq![line] + lines_of(rest));
    assert(seq![line].drop_last() =~= Seq::<Seq<char>>::empty());
    if line.len() > 0 {
        assert(lines_of(line) =~= seq![line]);
    }
    let none = Seq::<char>::empty();
    assert(seq![none].drop_last() =~= Seq::<Seq<char>>::empty());
    assert(lines_of(none) =~= Seq::<Seq<char>>::empty());
}

/// A text without blanks is one word.
pub proof fn law_a_text_without_blanks_is_one_word(a: Seq<char>)
    requires
        a.len() > 0,
        forall|i: int| 0 <= i < a.len() ==> !is_blank(#[trigger] a[i]),
    ensures
        words_of(a) == seq![a],
{
    lemma_one_blank_part(a);
    let full = |w: Seq<char>| w.len() > 0;
    let p = seq![a];
    reveal(Seq::filter);
    assert(p.drop_last() =~= Seq::<Seq<char>>::empty());
    assert(p.drop_last().filter(full) =~= Seq::<Seq<char>>::empty());
    assert(p.filter(full) =~= p);
}

proof fn lemma_one_blank_part(a: Seq<char>)
    requires
        forall|i: int| 0 <= i < a.len() ==> !is_blank(#[trigger] a[i]),
    ensures
        blank_parts(a) == seq![a],
    decreases a.len(),
{
    if a.len() > 0 {
        let init = a.drop_last();
        assert forall|i: int| 0 <= i < init.len() implies !is_blank(#[trigger] init[i]) by {
            assert(init[i] == a[i]);
        }
        lemma_one_blank_part(init);
        assert(a[a.len() - 1] == a.last());
        assert(init.push(a.last()) =~= a);
        assert(blank_parts(a) =~= seq![a]);
    } else {
        assert(a =~= Seq::<char>::empty());
    }
}

/// Counts are read as they are written, with or without a plus sign before them. What holds
/// another character, or no digit, is no count.
pub proof fn law_counts_are_read_as_written(n: nat, s: Seq<char>)
    ensures
        n <= usize::MAX ==> count_of(decimal_digits(n)) == Some(n),
        n <= usize::MAX ==> count_of(seq!['+'] + decimal_digits(n)) == Some(n),
        n > usize::MAX ==> count_of(decimal_digits(n)) is None,
        (exists|i: int|
            0 <= i < s.len() && !is_digit(#[trigger] s[i]) && !(i == 0 && s[i] == '+'))
            ==> count_of(s) is None,
        s.len() == 0 || s =~= seq!['+'] ==> count_of(s) is None,
{
    lemma_decimal_digits(n);
    let d = decimal_digits(n);
    assert(is_digit(d[0]));
    let t = seq!['+'] + d;
    assert(t.drop_first() =~= d);
    if exists|i: int|
        0 <= i < s.len() && !is_digit(#[trigger] s[i]) && !(i == 0 && s[i] == '+') {
        let i = choose|i: int|
            0 <= i < s.len() && !is_digit(#[trigger] s[i]) && !(i == 0 && s[i] == '+');
        if s[0] == '+' {
            assert(s.drop_first()[i - 1] == s[i]);
        }
    }
}

/// Where neither of two characters occurs.
proof fn lemma_no_mark(s: Seq<char>, a: char, b: char)
    requires
        forall|i: int| 0 <= i < s.len() ==> #[trigger] s[i] != a && s[i] != b,
    ensures
        mark_place(s, a, b) == s.len(),
    decreases s.len(),
{
    if s.len() > 0 {
        assert(s[0] != a && s[0] != b);
        let t = s.drop_first();
        assert forall|i: int| 0 <= i < t.len() implies #[trigger] t[i] != a && t[i] != b by {
            assert(t[i] == s[i + 1]);
        }
        lemma_no_mark(t, a, b);
    }
}

/// Where one of two characters first occurs.
proof fn lemma_mark(s: Seq<char>, a: char, b: char, n: int)
    requires
        0 <= n < s.len(),
        forall|i: int| 0 <= i < n ==> #[trigger] s[i] != a && s[i] != b,
        s[n] == a || s[n] == b,
    ensures
        mark_place(s, a, b) == n,
    decreases n,
{
    if n > 0 {
        assert(s[0] != a && s[0] != b);
        let t = s.drop_first();
        assert forall|i: int| 0 <= i < n - 1 implies #[trigger] t[i] != a && t[i] != b by {
            assert(t[i] == s[i + 1]);
        }
        assert(t[n - 1] == s[n]);
        lemma_mark(t, a, b, n - 1);
    }
}

/// The number nearest to digits over a power of ten.
proof fn lemma_nearest(neg: bool, digits: nat, places: nat)
    ensures
        is_nearly(
            F64::of(decimal_datum(neg, digits, -(places as int))),
            if neg {
                -(digits * one())
            } else {
                digits * one()
            },
            ten_to(places) as int,
        ),
{
    let f = Format::Double;
    lemma_ten_to_pos(places);
    lemma_ten_to_pos(0);
    let num = digits * ten_to(0) * pow2(f.unit());
    assert(digits * ten_to(0) == digits) by (nonlinear_arith)
        requires
            ten_to(0) == 1,
    ;
    lemma_rounding_keeps_sides(f, neg, num, ten_to(places));
    let d = rounded_datum(f, neg, num, ten_to(places));
    assert(ten_to(0) == 1);
    assert(decimal_datum(neg, digits, -(places as int)) == d);
    lemma_of_datum(d);
}

/// A text of digits with a point among, before or after them is the number nearest to the one
/// that it writes: its digits over as many tens as there are digits after the point. A minus sign
/// before it makes the number negative.
pub proof fn law_decimals_are_read_as_written(neg: bool, whole: Seq<char>, part: Seq<char>)
    requires
        all_digits(whole),
        all_digits(part),
        whole.len() + part.len() > 0,
    ensures
        ({
            let s = whole.push('.') + part;
            let t = if neg {
                seq!['-'] + s
            } else {
                s
            };
            let v = digits_value(whole + part) * one();
            &&& decimal_of(t) is Some
            &&& is_nearly(
                decimal_of(t)->0,
                if neg {
                    -v
                } else {
                    v
                },
                ten_to(part.len()) as int,
            )
        }),
{
    let s = whole.push('.') + part;
    let t = if neg {
        seq!['-'] + s
    } else {
        s
    };
    if neg {
        assert(t.drop_first() =~= s);
    } else if whole.len() > 0 {
        assert(s[0] == whole[0]);
        assert(is_digit(whole[0]));
    } else {
        assert(s[0] == '.');
    }
    assert(without_sign(t) == s);
    assert(with_minus(t) == neg);
    assert forall|i: int| 0 <= i < s.len() implies is_digit(#[trigger] s[i]) || s[i] == '.' by {
        if i < whole.len() {
            assert(s[i] == whole[i]);
        } else if i > whole.len() {
            assert(s[i] == part[i - whole.len() - 1]);
        }
    }
    lemma_spells_nothing(s);
    lemma_no_mark(s, 'e', 'E');
    assert(s.take(s.len() as int) =~= s);
    assert forall|i: int| 0 <= i < whole.len() implies #[trigger] s[i] != '.' by {
        assert(s[i] == whole[i]);
        assert(is_digit(whole[i]));
    }
    lemma_mark(s, '.', '.', whole.len() as int);
    assert(s.take(whole.len() as int) =~= whole);
    assert(s.skip(whole.len() as int + 1) =~= part);
    lemma_nearest(neg, digits_value(whole + part), part.len());
    assert(decimal_of(t) == number_of(neg, s));
}

/// Digits and points spell no word.
proof fn lemma_spells_nothing(s: Seq<char>)
    requires
        s.len() > 0,
        is_digit(s[0]) || s[0] == '.',
    ensures
        !spells(s, seq!['i', 'n', 'f'], seq!['I', 'N', 'F']),
        !spells(
            s,
            seq!['i', 'n', 'f', 'i', 'n', 'i', 't', 'y'],
            seq!['I', 'N', 'F', 'I', 'N', 'I', 'T', 'Y'],
        ),
        !spells(s, seq!['n', 'a', 'n'], seq!['N', 'A', 'N']),
{
}

/// A text of digits alone is the whole number that it writes, exactly where it is below `2^53`.
pub proof fn law_whole_numbers_are_read_as_written(s: Seq<char>)
    requires
        s.len() > 0,
        all_digits(s),
    ensures
        decimal_of(s) is Some,
        is_nearly(decimal_of(s)->0, digits_value(s) * one(), 1),
        digits_value(s) < 0x20_0000_0000_0000 ==> decimal_of(s)->0.finite()
            && decimal_of(s)->0.value() == digits_value(s) * one(),
{
    assert(is_digit(s[0]));
    lemma_spells_nothing(s);
    assert forall|i: int| 0 <= i < s.len() implies #[trigger] s[i] != 'e' && s[i] != 'E' && s[i]
        != '.' by {
        assert(is_digit(s[i]));
    }
    lemma_no_mark(s, 'e', 'E');
    lemma_no_mark(s, '.', '.');
    assert(s.take(s.len() as int) =~= s);
    assert(s + Seq::<char>::empty() =~= s);
    lemma_nearest(false, digits_value(s), 0);
    assert(decimal_of(s) == number_of(false, s));
    if digits_value(s) < 0x20_0000_0000_0000 {
        lemma_of_nat(digits_value(s));
        lemma_exact_whole(decimal_of(s)->0, digits_value(s) * one());
    }
}

/// The blanks are the 25 characters that Unicode has for white space, by their numbers.
pub proof fn law_the_blanks_are_the_white_space_of_unicode(c: char)
    ensures
        is_blank(c) <==> seq![
            9int, 10, 11, 12, 13, 32, 133, 160, 5760, 8192, 8193, 8194, 8195, 8196, 8197, 8198,
            8199, 8200, 8201, 8202, 8232, 8233, 8239, 8287, 12288,
        ].contains(c as int),
{
    let all = seq![
        9int, 10, 11, 12, 13, 32, 133, 160, 5760, 8192, 8193, 8194, 8195, 8196, 8197, 8198, 8199,
        8200, 8201, 8202, 8232, 8233, 8239, 8287, 12288,
    ];
    let n = c as int;
    if 9 <= n <= 13 {
        assert(all[n - 9] == n);
    } else if 8192 <= n <= 8202 {
        assert(all[n - 8183] == n);
    } else if n == 32 {
        assert(all[5] == n);
    } else if n == 133 {
        assert(all[6] == n);
    } else if n == 160 {
        assert(all[7] == n);
    } else if n == 5760 {
        assert(all[8] == n);
    } else if n == 8232 {
        assert(all[20] == n);
    } else if n == 8233 {
        assert(all[21] == n);
    } else if n == 8239 {
        assert(all[22] == n);
    } else if n == 8287 {
        assert(all[23] == n);
    } else if n == 12288 {
        assert(all[24] == n);
    }
}

/// The number nearest to digits times a power of ten.
proof fn lemma_nearest_large(digits: nat, places: nat)
    ensures
        is_nearly(
            F64::of(decimal_datum(false, digits, places as int)),
            (digits * ten_to(places)) * one(),
            1,
        ),
{
    let f = Format::Double;
    let num = digits * ten_to(places) * pow2(f.unit());
    assert(ten_to(0) == 1);
    lemma_rounding_keeps_sides(f, false, num, 1);
    let d = rounded_datum(f, false, num, 1);
    assert(decimal_datum(false, digits, places as int) == d);
    lemma_of_datum(d);
}

/// An exponent behind digits and an `e`, small or capital, multiplies by that power of ten, or
/// divides by it where a minus sign stands before it.
pub proof fn law_exponents_are_powers_of_ten(
    whole: Seq<char>,
    mark: char,
    sign: Seq<char>,
    digits: Seq<char>,
)
    requires
        whole.len() > 0,
        all_digits(whole),
        mark == 'e' || mark == 'E',
        sign =~= Seq::<char>::empty() || sign =~= seq!['+'] || sign =~= seq!['-'],
        digits.len() > 0,
        all_digits(digits),
    ensures
        ({
            let s = whole.push(mark) + (sign + digits);
            let e = digits_value(digits);
            let v = digits_value(whole);
            &&& decimal_of(s) is Some
            &&& sign =~= seq!['-'] ==> is_nearly(decimal_of(s)->0, v * one(), ten_to(e) as int)
            &&& !(sign =~= seq!['-']) ==> is_nearly(
                decimal_of(s)->0,
                (v * ten_to(e)) * one(),
                1,
            )
        }),
{
    let tail = sign + digits;
    let s = whole.push(mark) + tail;
    let e = digits_value(digits);
    let v = digits_value(whole);
    assert(s[0] == whole[0] && is_digit(whole[0]));
    lemma_spells_nothing(s);
    assert forall|i: int| 0 <= i < whole.len() implies #[trigger] s[i] != 'e' && s[i] != 'E' by {
        assert(s[i] == whole[i]);
        assert(is_digit(whole[i]));
    }
    assert(s[whole.len() as int] == mark);
    lemma_mark(s, 'e', 'E', whole.len() as int);
    assert(s.take(whole.len() as int) =~= whole);
    assert(s.skip(whole.len() as int + 1) =~= tail);
    assert forall|i: int| 0 <= i < whole.len() implies #[trigger] whole[i] != '.' && whole[i]
        != '.' by {
        assert(is_digit(whole[i]));
    }
    lemma_no_mark(whole, '.', '.');
    assert(whole.take(whole.len() as int) =~= whole);
    assert(whole + Seq::<char>::empty() =~= whole);
    assert(is_digit(digits[0]));
    if sign.len() == 0 {
        assert(tail =~= digits);
        assert(without_sign(tail) == digits);
        assert(!with_minus(tail));
    } else {
        assert(tail[0] == sign[0]);
        assert(tail.drop_first() =~= digits);
        assert(without_sign(tail) == digits);
        assert(with_minus(tail) == (sign =~= seq!['-'])) by {
            if sign =~= seq!['-'] {
                assert(sign[0] == '-');
            } else {
                assert(sign[0] == '+');
            }
        }
    }
    let minus = with_minus(tail);
    assert(minus == (sign =~= seq!['-'])) by {
        if sign.len() == 0 {
            assert(!(sign =~= seq!['-']));
        }
    }
    assert(exponent_of(tail) == Some(if minus {
        -(e as int)
    } else {
        e as int
    }));
    if minus {
        lemma_nearest(false, v, e);
    } else {
        lemma_nearest_large(v, e);
    }
    assert(decimal_of(s) == number_of(false, s));
}

} // verus!
