//! Text as sequences of characters: blanks, lines, fields, words and numbers.

use vstd::prelude::*;

verus! {

/// `String::push` appends one character.
pub assume_specification[ String::push ](s: &mut String, c: char)
    ensures
        final(s)@ == old(s)@.push(c),
;

/// The characters with the Unicode property `White_Space`.
pub open spec fn is_blank(c: char) -> bool {
    ||| '\u{9}' <= c <= '\u{d}'
    ||| c == ' '
    ||| c == '\u{85}'
    ||| c == '\u{a0}'
    ||| c == '\u{1680}'
    ||| '\u{2000}' <= c <= '\u{200a}'
    ||| c == '\u{2028}'
    ||| c == '\u{2029}'
    ||| c == '\u{202f}'
    ||| c == '\u{205f}'
    ||| c == '\u{3000}'
}

/// A text without the blanks it ends with.
pub open spec fn trimmed_end(s: Seq<char>) -> Seq<char>
    decreases s.len(),
{
    if s.len() == 0 || !is_blank(s.last()) {
        s
    } else {
        trimmed_end(s.drop_last())
    }
}

/// A text without the blanks it begins with.
pub open spec fn trimmed_start(s: Seq<char>) -> Seq<char>
    decreases s.len(),
{
    if s.len() == 0 || !is_blank(s[0]) {
        s
    } else {
        trimmed_start(s.drop_first())
    }
}

/// A text without the blanks around it.
pub open spec fn trimmed(s: Seq<char>) -> Seq<char> {
    trimmed_end(trimmed_start(s))
}

/// The parts of a text between the occurrences of a character. There is one more of
/// them than there are occurrences.
pub open spec fn parts(s: Seq<char>, sep: char) -> Seq<Seq<char>>
    decreases s.len(),
{
    if s.len() == 0 {
        seq![Seq::empty()]
    } else {
        let before = parts(s.drop_last(), sep);
        if s.last() == sep {
            before.push(Seq::empty())
        } else {
            before.update(before.len() - 1, before.last().push(s.last()))
        }
    }
}

/// The parts of a text between its blanks.
pub open spec fn blank_parts(s: Seq<char>) -> Seq<Seq<char>>
    decreases s.len(),
{
    if s.len() == 0 {
        seq![Seq::empty()]
    } else {
        let before = blank_parts(s.drop_last());
        if is_blank(s.last()) {
            before.push(Seq::empty())
        } else {
            before.update(before.len() - 1, before.last().push(s.last()))
        }
    }
}

/// The words of a text: the parts between its blanks that are not empty.
pub open spec fn words_of(s: Seq<char>) -> Seq<Seq<char>> {
    blank_parts(s).filter(|w: Seq<char>| w.len() > 0)
}

/// A line without the carriage return that belongs to its ending.
pub open spec fn chomped(line: Seq<char>) -> Seq<char> {
    if line.len() > 0 && line.last() == '\r' {
        line.drop_last()
    } else {
        line
    }
}

/// The lines of a text. Each ends at a line feed, a carriage return before it being
/// part of the ending; what follows the last line feed is a line unless it is empty.
pub open spec fn lines_of(s: Seq<char>) -> Seq<Seq<char>> {
    let p = parts(s, '\n');
    let ended = p.drop_last().map_values(|line: Seq<char>| chomped(line));
    if p.last().len() == 0 {
        ended
    } else {
        ended.push(p.last())
    }
}

pub open spec fn is_digit(c: char) -> bool {
    '0' <= c <= '9'
}

pub open spec fn all_digits(s: Seq<char>) -> bool {
    forall|i: int| 0 <= i < s.len() ==> is_digit(#[trigger] s[i])
}

/// The number that decimal digits write.
pub open spec fn digits_value(s: Seq<char>) -> nat
    decreases s.len(),
{
    if s.len() == 0 {
        0
    } else {
        digits_value(s.drop_last()) * 10 + (s.last() as nat - '0' as nat) as nat
    }
}

/// The number that a text writes: decimal digits, which a plus sign may precede.
/// There is none where the text is anything else or the number does not fit `usize`.
pub open spec fn count_of(s: Seq<char>) -> Option<nat> {
    let d = if s.len() > 0 && s[0] == '+' {
        s.drop_first()
    } else {
        s
    };
    if d.len() > 0 && all_digits(d) && digits_value(d) <= usize::MAX {
        Some(digits_value(d))
    } else {
        None
    }
}

/// Texts as sequences of characters.
pub open spec fn texts(v: Seq<String>) -> Seq<Seq<char>> {
    Seq::new(v.len(), |i: int| v[i]@)
}

/// Whether a character is blank.
pub fn blank(c: char) -> (r: bool)
    ensures
        r == is_blank(c),
{
    ('\u{9}' <= c && c <= '\u{d}') || c == ' ' || c == '\u{85}' || c == '\u{a0}' || c == '\u{1680}'
        || ('\u{2000}' <= c && c <= '\u{200a}') || c == '\u{2028}' || c == '\u{2029}' || c
        == '\u{202f}' || c == '\u{205f}' || c == '\u{3000}'
}

/// The characters of a text.
pub fn chars_of(s: &str) -> (v: Vec<char>)
    ensures
        v@ == s@,
{
    let mut v: Vec<char> = Vec::new();
    for c in it: s.chars()
        invariant
            v@ == it.seq().take(it.index() as int),
            it.seq() == s@,
    {
        proof {
            assert(it.seq().take(it.index() as int).push(c) =~= it.seq().take(it.index() + 1));
        }
        v.push(c);
    }
    proof {
        assert(v@ =~= s@);
    }
    v
}

/// The text that some of the characters form.
pub fn text_of(v: &Vec<char>, from: usize, to: usize) -> (s: String)
    requires
        from <= to <= v@.len(),
    ensures
        s@ == v@.subrange(from as int, to as int),
{
    let mut s: String = String::new();
    let mut i: usize = from;
    while i < to
        invariant
            from <= i <= to <= v@.len(),
            s@ == v@.subrange(from as int, i as int),
        decreases to - i,
    {
        proof {
            assert(v@.subrange(from as int, i as int).push(v@[i as int]) =~= v@.subrange(
                from as int,
                i + 1,
            ));
        }
        s.push(v[i]);
        i = i + 1;
    }
    proof {
        assert(from == to ==> s@ =~= v@.subrange(from as int, to as int));
    }
    s
}

proof fn lemma_trimmed_start_at(s: Seq<char>, n: int)
    requires
        0 <= n <= s.len(),
        forall|i: int| 0 <= i < n ==> is_blank(#[trigger] s[i]),
        n < s.len() ==> !is_blank(s[n]),
    ensures
        trimmed_start(s) == s.skip(n),
    decreases n,
{
    if n == 0 {
        assert(s.skip(0) =~= s);
    } else {
        let t = s.drop_first();
        assert forall|i: int| 0 <= i < n - 1 implies is_blank(#[trigger] t[i]) by {
            assert(t[i] == s[i + 1]);
        }
        lemma_trimmed_start_at(t, n - 1);
        assert(t.skip(n - 1) =~= s.skip(n));
    }
}

/// The text without the blanks around it.
pub fn trim(s: &str) -> (r: String)
    ensures
        r@ == trimmed(s@),
{
    let v: Vec<char> = chars_of(s);
    let n: usize = v.len();
    let mut from: usize = 0;
    while from < n && blank(v[from])
        invariant
            from <= n == v@.len(),
            forall|i: int| 0 <= i < from ==> is_blank(#[trigger] v@[i]),
        decreases n - from,
    {
        from = from + 1;
    }
    let mut to: usize = n;
    let ghost rest = v@.skip(from as int);
    proof {
        lemma_trimmed_start_at(v@, from as int);
        assert(v@.subrange(from as int, n as int) =~= rest);
    }
    while to > from && blank(v[to - 1])
        invariant
            from <= to <= n == v@.len(),
            trimmed_end(rest) == trimmed_end(v@.subrange(from as int, to as int)),
        decreases to,
    {
        proof {
            let t = v@.subrange(from as int, to as int);
            assert(t.last() == v@[to - 1]);
            assert(t.drop_last() =~= v@.subrange(from as int, to - 1));
        }
        to = to - 1;
    }
    proof {
        let t = v@.subrange(from as int, to as int);
        if to > from {
            assert(t.last() == v@[to - 1]);
        }
    }
    text_of(&v, from, to)
}

/// The parts of the text between the occurrences of `sep`.
pub fn split_at_each(s: &str, sep: char) -> (r: Vec<String>)
    ensures
        texts(r@) == parts(s@, sep),
        r@.len() > 0,
{
    let v: Vec<char> = chars_of(s);
    let n: usize = v.len();
    let mut out: Vec<String> = Vec::new();
    let mut current: String = String::new();
    let mut i: usize = 0;
    proof {
        assert(v@.take(0) =~= Seq::<char>::empty());
        assert(texts(out@).push(current@) =~= parts(v@.take(0), sep));
    }
    while i < n
        invariant
            i <= n == v@.len(),
            texts(out@).push(current@) == parts(v@.take(i as int), sep),
        decreases n - i,
    {
        let c: char = v[i];
        let ghost before = texts(out@).push(current@);
        proof {
            assert(v@.take(i + 1).drop_last() =~= v@.take(i as int));
            assert(v@.take(i + 1).last() == c);
            assert(before.last() == current@);
        }
        if c == sep {
            let ghost done = current@;
            let ghost head = out@;
            out.push(current);
            current = String::new();
            proof {
                assert(texts(out@) =~= texts(head).push(done));
                assert(texts(out@).push(current@) =~= before.push(Seq::empty()));
            }
        } else {
            let ghost was = current@;
            current.push(c);
            proof {
                assert(texts(out@).push(current@) =~= before.update(before.len() - 1, was.push(c)));
            }
        }
        i = i + 1;
    }
    let ghost head = out@;
    let ghost tail = current@;
    out.push(current);
    proof {
        assert(texts(out@) =~= texts(head).push(tail));
        assert(v@.take(n as int) =~= v@);
    }
    out
}

/// The words of the text: what stands between its blanks.
pub fn split_words(s: &str) -> (r: Vec<String>)
    ensures
        texts(r@) == words_of(s@),
{
    let v: Vec<char> = chars_of(s);
    let n: usize = v.len();
    let mut out: Vec<String> = Vec::new();
    let mut current: String = String::new();
    let mut filled: bool = false;
    let mut i: usize = 0;
    let ghost full = |w: Seq<char>| w.len() > 0;
    proof {
        assert(v@.take(0) =~= Seq::<char>::empty());
        reveal(Seq::filter);
        let p = blank_parts(v@.take(0));
        assert(p.drop_last() =~= Seq::<Seq<char>>::empty());
        assert(texts(out@) =~= p.drop_last().filter(full));
        assert(p.last() =~= current@);
    }
    while i < n
        invariant
            i <= n == v@.len(),
            blank_parts(v@.take(i as int)).len() > 0,
            current@ == blank_parts(v@.take(i as int)).last(),
            filled == (current@.len() > 0),
            full == (|w: Seq<char>| w.len() > 0),
            texts(out@) == blank_parts(v@.take(i as int)).drop_last().filter(full),
        decreases n - i,
    {
        let c: char = v[i];
        let ghost p = blank_parts(v@.take(i as int));
        let ghost q = blank_parts(v@.take(i + 1));
        proof {
            reveal(Seq::filter);
            assert(v@.take(i + 1).drop_last() =~= v@.take(i as int));
            assert(v@.take(i + 1).last() == c);
        }
        if blank(c) {
            proof {
                assert(q == p.push(Seq::empty()));
                assert(q.drop_last() =~= p);
                assert(p.filter(full) == (if full(p.last()) {
                    p.drop_last().filter(full).push(p.last())
                } else {
                    p.drop_last().filter(full)
                }));
            }
            if filled {
                let ghost head = out@;
                let ghost done = current@;
                out.push(current);
                proof {
                    assert(texts(out@) =~= texts(head).push(done));
                }
            }
            current = String::new();
            filled = false;
        } else {
            current.push(c);
            filled = true;
            proof {
                assert(q.drop_last() =~= p.drop_last());
            }
        }
        i = i + 1;
    }
    proof {
        reveal(Seq::filter);
        assert(v@.take(n as int) =~= v@);
    }
    if filled {
        let ghost head = out@;
        let ghost done = current@;
        out.push(current);
        proof {
            assert(texts(out@) =~= texts(head).push(done));
        }
    }
    out
}

/// The lines of the text.
pub fn split_lines(s: &str) -> (r: Vec<String>)
    ensures
        texts(r@) == lines_of(s@),
{
    let all: Vec<String> = split_at_each(s, '\n');
    let n: usize = all.len();
    let ghost p = parts(s@, '\n');
    let mut out: Vec<String> = Vec::new();
    let mut i: usize = 0;
    proof {
        assert(p.len() == n);
    }
    while i < n - 1
        invariant
            i <= n - 1,
            n == all@.len() == p.len(),
            texts(all@) == p,
            texts(out@) == p.take(i as int).map_values(|line: Seq<char>| chomped(line)),
        decreases n - i,
    {
        let v: Vec<char> = chars_of(all[i].as_str());
        let len: usize = v.len();
        let ghost head = out@;
        proof {
            assert(texts(all@)[i as int] == all@[i as int]@);
            assert(v@ == p[i as int]);
        }
        let end: usize = if len > 0 && v[len - 1] == '\r' {
            len - 1
        } else {
            len
        };
        let line: String = text_of(&v, 0, end);
        proof {
            assert(line@ =~= chomped(p[i as int]));
        }
        let ghost l = line@;
        out.push(line);
        proof {
            assert(texts(out@) =~= texts(head).push(l));
            assert(p.take(i + 1).map_values(|line: Seq<char>| chomped(line)) =~= p.take(
                i as int,
            ).map_values(|line: Seq<char>| chomped(line)).push(chomped(p[i as int])));
        }
        i = i + 1;
    }
    proof {
        assert(p.take(n - 1) =~= p.drop_last());
        assert(texts(all@)[n - 1] == all@[n - 1]@);
    }
    if all[n - 1].as_str().is_empty() {
        out
    } else {
        let ghost head = out@;
        let last: String = all[n - 1].clone();
        out.push(last);
        proof {
            assert(texts(out@) =~= texts(head).push(p.last()));
        }
        out
    }
}

/// The value of a digit.
pub fn digit_value(c: char) -> (d: u32)
    requires
        is_digit(c),
    ensures
        d == c as nat - '0' as nat,
        d < 10,
{
    c as u32 - '0' as u32
}

proof fn lemma_digits_grow(s: Seq<char>, n: int)
    requires
        all_digits(s),
        0 <= n <= s.len(),
    ensures
        digits_value(s.take(n)) <= digits_value(s),
    decreases s.len() - n,
{
    if n < s.len() {
        lemma_digits_grow(s, n + 1);
        assert(s.take(n + 1).drop_last() =~= s.take(n));
        assert(is_digit(s.take(n + 1).last()));
    } else {
        assert(s.take(n) =~= s);
    }
}

/// The number that the text writes.
pub fn parse_count(s: &str) -> (r: Option<usize>)
    ensures
        count_of(s@) == (match r {
            Some(n) => Some(n as nat),
            None => None,
        }),
{
    let v: Vec<char> = chars_of(s);
    let n: usize = v.len();
    let from: usize = if n > 0 && v[0] == '+' {
        1
    } else {
        0
    };
    let ghost d = if s@.len() > 0 && s@[0] == '+' {
        s@.drop_first()
    } else {
        s@
    };
    proof {
        assert(d =~= v@.skip(from as int));
    }
    if from == n {
        return None;
    }
    let mut value: usize = 0;
    let mut i: usize = from;
    proof {
        assert(d.take(0) =~= Seq::<char>::empty());
    }
    while i < n
        invariant
            from <= i <= n == v@.len(),
            d == v@.skip(from as int),
            d.len() > 0,
            all_digits(d.take(i - from)),
            value == digits_value(d.take(i - from)),
            count_of(s@) == (if d.len() > 0 && all_digits(d) && digits_value(d) <= usize::MAX {
                Some(digits_value(d))
            } else {
                None
            }),
        decreases n - i,
    {
        let c: char = v[i];
        let ghost k = i - from;
        proof {
            assert(d[k] == c);
            assert(d.take(k + 1).drop_last() =~= d.take(k));
            assert(d.take(k + 1).last() == c);
        }
        if !('0' <= c && c <= '9') {
            proof {
                assert(!all_digits(d));
            }
            return None;
        }
        let digit: usize = digit_value(c) as usize;
        proof {
            if all_digits(d) {
                lemma_digits_grow(d, k + 1);
            }
        }
        if value > usize::MAX / 10 {
            return None;
        }
        if value * 10 > usize::MAX - digit {
            return None;
        }
        value = value * 10 + digit;
        proof {
            assert forall|j: int| 0 <= j < k + 1 implies is_digit(#[trigger] d.take(k + 1)[j]) by {
                if j < k {
                    assert(d.take(k)[j] == d[j]);
                }
            }
        }
        i = i + 1;
    }
    proof {
        assert(d.take(n - from) =~= d);
    }
    Some(value)
}

/// The decimal digits of a number, the greatest first.
pub open spec fn decimal_digits(n: nat) -> Seq<char>
    decreases n,
{
    let last = digit_char(n % 10);
    if n < 10 {
        seq![last]
    } else {
        decimal_digits(n / 10).push(last)
    }
}

/// The character of a digit.
pub open spec fn digit_char(d: nat) -> char {
    ('0' as nat + d) as char
}

/// The digits of a number write it, without a zero before it.
pub proof fn lemma_decimal_digits(n: nat)
    ensures
        decimal_digits(n).len() > 0,
        all_digits(decimal_digits(n)),
        digits_value(decimal_digits(n)) == n,
        decimal_digits(n).len() > 1 ==> decimal_digits(n)[0] != '0',
        n > 0 ==> decimal_digits(n)[0] != '0',
    decreases n,
{
    let s = decimal_digits(n);
    if n < 10 {
        assert(s.drop_last() =~= Seq::<char>::empty());
        assert(digits_value(s.drop_last()) == 0);
    } else {
        lemma_decimal_digits(n / 10);
        let head = decimal_digits(n / 10);
        assert(s.drop_last() =~= head);
        assert forall|i: int| 0 <= i < s.len() implies is_digit(#[trigger] s[i]) by {
            if i < head.len() {
                assert(s[i] == head[i]);
            }
        }
        assert(s[0] == head[0]);
    }
}

/// The decimal digits of a number.
pub fn count_text(n: u32) -> (r: String)
    ensures
        r@ == decimal_digits(n as nat),
        count_of(r@) == Some(n as nat),
    decreases n,
{
    let mut r: String = if n < 10 {
        String::new()
    } else {
        count_text(n / 10)
    };
    let last: char = match n % 10 {
        0 => '0',
        1 => '1',
        2 => '2',
        3 => '3',
        4 => '4',
        5 => '5',
        6 => '6',
        7 => '7',
        8 => '8',
        _ => '9',
    };
    r.push(last);
    proof {
        assert(last == digit_char(n as nat % 10));
        lemma_decimal_digits(n as nat);
        assert(n < 10 ==> r@ =~= seq![last]);
        assert(is_digit(r@[0]));
    }
    r
}

proof fn lemma_blank_parts_nonempty(s: Seq<char>)
    ensures
        blank_parts(s).len() > 0,
    decreases s.len(),
{
    if s.len() > 0 {
        lemma_blank_parts_nonempty(s.drop_last());
    }
}

proof fn lemma_blank_parts_joined(a: Seq<char>, c: char, b: Seq<char>)
    requires
        is_blank(c),
    ensures
        blank_parts(a.push(c) + b) == blank_parts(a) + blank_parts(b),
    decreases b.len(),
{
    let all = a.push(c) + b;
    if b.len() == 0 {
        assert(all =~= a.push(c));
        assert(all.drop_last() =~= a);
        assert(blank_parts(all) =~= blank_parts(a) + blank_parts(b));
    } else {
        lemma_blank_parts_joined(a, c, b.drop_last());
        lemma_blank_parts_nonempty(b.drop_last());
        assert(all.drop_last() =~= a.push(c) + b.drop_last());
        assert(blank_parts(all) =~= blank_parts(a) + blank_parts(b));
    }
}

/// A blank between two texts keeps their words apart.
pub proof fn lemma_words_joined(a: Seq<char>, c: char, b: Seq<char>)
    requires
        is_blank(c),
    ensures
        words_of(a.push(c) + b) == words_of(a) + words_of(b),
{
    lemma_blank_parts_joined(a, c, b);
    let full = |w: Seq<char>| w.len() > 0;
    Seq::filter_distributes_over_add(blank_parts(a), blank_parts(b), full);
}

/// An empty text has no words.
pub proof fn lemma_no_words()
    ensures
        words_of(Seq::<char>::empty()) == Seq::<Seq<char>>::empty(),
{
    let p = blank_parts(Seq::<char>::empty());
    reveal(Seq::filter);
    assert(p.drop_last() =~= Seq::<Seq<char>>::empty());
    assert(p.last().len() == 0);
    let full = |w: Seq<char>| w.len() > 0;
    assert(p.drop_last().filter(full) =~= Seq::<Seq<char>>::empty());
}

} // verus!
