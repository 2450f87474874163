//! Decimal text read as 64-bit floating-point numbers.
//!
//! A text that writes a number gives the floating-point number nearest to it, ties
//! going to the even one, however many digits it has.

use vstd::prelude::*;
use vstd::arithmetic::power2::{
    pow2, lemma_pow2_adds, lemma_pow2_pos, lemma_pow2_strictly_increases, lemma_pow2_unfold,
    lemma2_to64, lemma2_to64_rest,
};
use crate::big::{at_least, halve, multiply_add, subtract};
use crate::big::value;
use crate::datum::Datum;
use crate::datum::rounded_datum;
use crate::float::F64;
use crate::text::{chars_of, digit_value};
use crate::text::{all_digits, digits_value, is_digit};
use crate::rounding::{Format, round_held};
use crate::rounding::{
    rounded_magnitude, lemma_large_rounds_to_infinity, lemma_rounded_scales,
    lemma_small_rounds_away,
};

verus! {

/// `10^n`.
pub open spec fn ten_to(n: nat) -> nat
    decreases n,
{
    if n == 0 {
        1
    } else {
        10 * ten_to((n - 1) as nat)
    }
}

/// The datum nearest to `digits * 10^exponent`.
pub open spec fn decimal_datum(neg: bool, digits: nat, exponent: int) -> Datum {
    rounded_datum(
        Format::Double,
        neg,
        digits * ten_to(if exponent >= 0 { exponent as nat } else { 0 }) * pow2(
            Format::Double.unit(),
        ),
        ten_to(if exponent < 0 { (-exponent) as nat } else { 0 }),
    )
}

/// Powers of ten are above zero, and no less than those of two.
pub proof fn lemma_ten_to_pos(n: nat)
    ensures
        ten_to(n) > 0,
        ten_to(n) >= pow2(n),
    decreases n,
{
    lemma2_to64();
    if n > 0 {
        lemma_ten_to_pos((n - 1) as nat);
        lemma_pow2_unfold(n);
    }
}

proof fn lemma_ten_to_adds(a: nat, b: nat)
    ensures
        ten_to(a + b) == ten_to(a) * ten_to(b),
    decreases a,
{
    if a == 0 {
        assert(1 * ten_to(b) == ten_to(b));
    } else {
        lemma_ten_to_adds((a - 1) as nat, b);
        assert(a + b - 1 == (a - 1) + b);
        let x = ten_to((a - 1) as nat);
        let y = ten_to(b);
        assert((10 * x) * y == 10 * (x * y)) by (nonlinear_arith);
    }
}

/// Multiplies a number by `2^k`.
fn shift_up(digits: &mut Vec<u32>, k: u32)
    ensures
        value(final(digits)@) == value(old(digits)@) * pow2(k as nat),
{
    let mut i: u32 = 0;
    let ghost start = value(digits@);
    proof {
        lemma2_to64();
        assert(start * 1 == start);
    }
    while i < k
        invariant
            i <= k,
            value(digits@) == start * pow2(i as nat),
        decreases k - i,
    {
        multiply_add(digits, 2, 0);
        proof {
            lemma_pow2_unfold((i + 1) as nat);
            let w = pow2(i as nat);
            assert(start * w * 2 == start * (2 * w)) by (nonlinear_arith);
        }
        i = i + 1;
    }
}

/// Multiplies a number by `10^k`.
fn scale_up(digits: &mut Vec<u32>, k: u128)
    ensures
        value(final(digits)@) == value(old(digits)@) * ten_to(k as nat),
{
    let mut i: u128 = 0;
    let ghost start = value(digits@);
    proof {
        assert(start * 1 == start);
    }
    while i < k
        invariant
            i <= k,
            value(digits@) == start * ten_to(i as nat),
        decreases k - i,
    {
        multiply_add(digits, 10, 0);
        proof {
            let w = ten_to(i as nat);
            assert(start * w * 10 == start * (10 * w)) by (nonlinear_arith);
        }
        i = i + 1;
    }
}

/// Whether a number is zero.
fn is_zero(digits: &Vec<u32>) -> (r: bool)
    ensures
        r == (value(digits@) == 0),
{
    let one: Vec<u32> = vec![1];
    proof {
        assert(one@.drop_first() =~= Seq::<u32>::empty());
        assert(value(one@.drop_first()) == 0);
        assert(value(one@) == 1);
    }
    !at_least(digits, &one)
}

/// A quotient and what the division leaves.
struct Quotient {
    whole: u128,
    left: bool,
    rest: Ghost<nat>,
}

/// Divides a number that lies between `2^64` and `2^65` times another by it.
fn divide(a: Vec<u32>, c: Vec<u32>, Ghost(b): Ghost<nat>) -> (q: Quotient)
    requires
        b > 0,
        value(c@) == b * pow2(64),
        value(c@) <= value(a@) < 2 * value(c@),
    ensures
        value(a@) == q.whole * b + q.rest@,
        q.rest@ < b,
        q.left == (q.rest@ > 0),
        0x1_0000_0000_0000_0000 <= q.whole < 0x2_0000_0000_0000_0000,
{
    let ghost dividend = value(a@);
    let mut a: Vec<u32> = a;
    let mut c: Vec<u32> = c;
    let mut q: u128 = 0;
    let mut i: u32 = 0;
    proof {
        lemma2_to64();
        lemma2_to64_rest();
        assert(0 * (2 * value(c@)) == 0);
        assert(b * pow2(64) >= 1) by (nonlinear_arith)
            requires
                b >= 1,
                pow2(64) >= 1,
        ;
    }
    while i < 64
        invariant
            i <= 64,
            b > 0,
            value(c@) == b * pow2((64 - i) as nat),
            dividend == q * (2 * value(c@)) + value(a@),
            value(a@) < 2 * value(c@),
            q < pow2(i as nat),
        decreases 64 - i,
    {
        let ghost cc = value(c@);
        let ghost r = value(a@);
        let ghost p = q as nat;
        proof {
            lemma2_to64();
            lemma2_to64_rest();
            lemma_pow2_unfold((i + 1) as nat);
            lemma_pow2_unfold((64 - i) as nat);
            if i < 63 {
                lemma_pow2_strictly_increases((i + 1) as nat, 64);
            }
            let w = pow2((63 - i) as nat);
            assert(b * (2 * w) == 2 * (b * w)) by (nonlinear_arith);
            assert(p * (2 * cc) == (2 * p) * cc) by (nonlinear_arith);
            assert((2 * p) * cc + cc == (2 * p + 1) * cc) by (nonlinear_arith);
        }
        if at_least(&a, &c) {
            subtract(&mut a, &c);
            q = 2 * q + 1;
        } else {
            q = 2 * q;
        }
        halve(&mut c);
        proof {
            let half = value(c@);
            assert(q * cc == q * (2 * half)) by (nonlinear_arith)
                requires
                    cc == 2 * half,
            ;
        }
        i = i + 1;
    }
    let ghost p = q as nat;
    proof {
        lemma2_to64();
        lemma2_to64_rest();
        assert(b * 1 == b);
        assert(p * (2 * b) == (2 * p) * b) by (nonlinear_arith);
        assert((2 * p) * b + b == (2 * p + 1) * b) by (nonlinear_arith);
    }
    if at_least(&a, &c) {
        subtract(&mut a, &c);
        q = 2 * q + 1;
    } else {
        q = 2 * q;
    }
    let ghost rest = value(a@);
    proof {
        assert(q >= 0x1_0000_0000_0000_0000) by (nonlinear_arith)
            requires
                dividend == q * b + rest,
                rest < b,
                dividend >= b * 0x1_0000_0000_0000_0000,
        ;
    }
    Quotient { whole: q, left: !is_zero(&a), rest: Ghost(rest) }
}

/// The bits of the magnitude nearest to the quotient of two numbers.
fn round_ratio(n: Vec<u32>, b: &Vec<u32>) -> (mag: u64)
    requires
        value(n@) > 0,
        value(b@) > 0,
    ensures
        mag == rounded_magnitude(
            Format::Double,
            value(n@) * pow2(Format::Double.unit()),
            value(b@),
        ),
{
    let ghost num = value(n@);
    let ghost den = value(b@);
    let ghost unit = pow2(1074);
    let mut a: Vec<u32> = n;
    let mut c: Vec<u32> = b.clone();
    let mut j: u32 = 0;
    let mut s: u32 = 0;
    proof {
        lemma2_to64();
        lemma2_to64_rest();
        assert(num * 1 == num);
        assert(c@ =~= b@);
    }
    shift_up(&mut c, 64);
    while !at_least(&a, &c)
        invariant
            num == value(n@) > 0,
            den == value(b@) > 0,
            unit == pow2(1074),
            j <= 4000,
            value(a@) == num * pow2(j as nat),
            value(c@) == den * pow2(64),
            j > 0 ==> value(a@) < 2 * value(c@),
        decreases 4000 - j,
    {
        if j == 4000 {
            proof {
                // num * 2^4000 < den * 2^64
                lemma_pow2_adds(1074, 1);
                lemma_pow2_adds(1075, 64);
                lemma_pow2_adds(1139, 2861);
                lemma_pow2_pos(2861);
                lemma_pow2_pos(64);
                lemma_pow2_pos(1074);
                lemma2_to64();
                let t = pow2(64);
                let u = pow2(2861);
                assert(2 * (num * unit) < den) by (nonlinear_arith)
                    requires
                        num * ((unit * 2) * t * u) < den * t,
                        u >= 1,
                        t >= 1,
                ;
                lemma_small_rounds_away(Format::Double, num * unit, den);
            }
            return 0;
        }
        shift_up(&mut a, 1);
        proof {
            lemma2_to64();
            lemma_pow2_unfold((j + 1) as nat);
            let w = pow2(j as nat);
            assert(num * w * 2 == num * (2 * w)) by (nonlinear_arith);
        }
        j = j + 1;
    }
    let mut d: Vec<u32> = c.clone();
    proof {
        assert(d@ =~= c@);
        lemma2_to64();
        assert(den * 1 == den);
        let t = pow2(64);
        assert(den * 1 * t == den * t);
    }
    shift_up(&mut d, 1);
    while at_least(&a, &d)
        invariant
            num == value(n@) > 0,
            den == value(b@) > 0,
            unit == pow2(1074),
            j <= 4000,
            s <= 4000,
            value(a@) == num * pow2(j as nat),
            value(a@) >= value(c@),
            j > 0 ==> value(a@) < value(d@),
            value(c@) == (den * pow2(s as nat)) * pow2(64),
            value(d@) == 2 * value(c@),
        decreases 4000 - s,
    {
        if s == 4000 {
            proof {
                // num >= den * 2^4064
                lemma2_to64();
                lemma_pow2_pos(64);
                assert(num * 1 == num);
                lemma_pow2_strictly_increases(2100, 4000);
                let t = pow2(64);
                let u = pow2(4000);
                lemma_pow2_pos(1074);
                assert(num * unit >= den * pow2(2100)) by (nonlinear_arith)
                    requires
                        num >= (den * u) * t,
                        t >= 1,
                        unit >= 1,
                        u >= pow2(2100),
                ;
                lemma_large_rounds_to_infinity(Format::Double, num * unit, den);
            }
            return Format::Double.infinity_bits();
        }
        shift_up(&mut c, 1);
        shift_up(&mut d, 1);
        proof {
            lemma2_to64();
            lemma_pow2_unfold((s + 1) as nat);
            let w = pow2(s as nat);
            let t = pow2(64);
            assert((den * w) * t * 2 == (den * (2 * w)) * t) by (nonlinear_arith);
        }
        s = s + 1;
    }
    let ghost base = den * pow2(s as nat);
    proof {
        lemma_pow2_pos(s as nat);
        lemma_pow2_pos(j as nat);
        lemma_pow2_pos(1074);
        assert(base > 0) by (nonlinear_arith)
            requires
                base == den * pow2(s as nat),
                den > 0,
                pow2(s as nat) > 0,
        ;
    }
    let ghost scaled = value(a@);
    let q: Quotient = divide(a, c, Ghost(base));
    let shift: i32 = 1074 + s as i32 - j as i32;
    let ghost w = pow2(j as nat);
    let ghost block = base * unit;
    let ghost rest = q.rest@ * unit;
    proof {
        let x = pow2(s as nat);
        lemma_rounded_scales(Format::Double, num * unit, den, w);
        assert(num * unit * w == q.whole * block + rest) by (nonlinear_arith)
            requires
                num * w == q.whole * base + q.rest@,
                block == base * unit,
                rest == q.rest@ * unit,
        ;
        assert(rest < block) by (nonlinear_arith)
            requires
                q.rest@ < base,
                unit > 0,
                block == base * unit,
                rest == q.rest@ * unit,
        ;
        assert((rest > 0) == (q.rest@ > 0)) by (nonlinear_arith)
            requires
                unit > 0,
                rest == q.rest@ * unit,
        ;
        assert(den * w > 0) by (nonlinear_arith)
            requires
                den > 0,
                w > 0,
        ;
        lemma_pow2_adds(s as nat, 1074);
        assert(block == den * (x * unit)) by (nonlinear_arith)
            requires
                block == base * unit,
                base == den * x,
        ;
        if shift >= 0 {
            lemma_pow2_adds(j as nat, shift as nat);
            assert(j as nat + shift as nat == s as nat + 1074);
            let y = pow2(shift as nat);
            assert(den * (w * y) == (den * w) * y) by (nonlinear_arith);
        } else {
            lemma_pow2_adds(s as nat + 1074, (-shift) as nat);
            assert(s as nat + 1074 + (-shift) as nat == j as nat);
            let y = pow2((-shift) as nat);
            let z = pow2(s as nat + 1074);
            assert(den * (z * y) == (den * z) * y) by (nonlinear_arith);
        }
    }
    round_held(
        Format::Double,
        q.whole,
        shift,
        q.left,
        Ghost(num * unit * w),
        Ghost(den * w),
        Ghost(block),
        Ghost(rest),
    )
}

/// The place of the first occurrence of either character, or the length where there
/// is none.
pub open spec fn mark_place(s: Seq<char>, a: char, b: char) -> nat
    decreases s.len(),
{
    if s.len() == 0 || s[0] == a || s[0] == b {
        0
    } else {
        1 + mark_place(s.drop_first(), a, b)
    }
}

/// A text without the sign it may begin with.
pub open spec fn without_sign(s: Seq<char>) -> Seq<char> {
    if s.len() > 0 && (s[0] == '+' || s[0] == '-') {
        s.drop_first()
    } else {
        s
    }
}

/// Whether a text begins with a minus sign.
pub open spec fn with_minus(s: Seq<char>) -> bool {
    s.len() > 0 && s[0] == '-'
}

/// Whether a text is a word, in capitals, small letters or both.
pub open spec fn spells(s: Seq<char>, small: Seq<char>, capital: Seq<char>) -> bool {
    &&& s.len() == small.len()
    &&& forall|i: int| 0 <= i < s.len() ==> #[trigger] s[i] == small[i] || s[i] == capital[i]
}

/// The exponent that a text writes: digits, which a sign may precede.
pub open spec fn exponent_of(s: Seq<char>) -> Option<int> {
    let d = without_sign(s);
    if d.len() == 0 || !all_digits(d) {
        None
    } else if with_minus(s) {
        Some(-(digits_value(d) as int))
    } else {
        Some(digits_value(d) as int)
    }
}

/// The number that a text without a sign writes: digits with a point among, before or
/// after them, or none, and an exponent behind an `e`, or none.
pub open spec fn number_of(neg: bool, s: Seq<char>) -> Option<F64> {
    let m = mark_place(s, 'e', 'E') as int;
    let exponent = if m < s.len() {
        exponent_of(s.skip(m + 1))
    } else {
        Some(0int)
    };
    let body = s.take(m);
    let p = mark_place(body, '.', '.') as int;
    let whole = body.take(p);
    let part = if p < body.len() {
        body.skip(p + 1)
    } else {
        Seq::empty()
    };
    if exponent is Some && whole.len() + part.len() > 0 && all_digits(whole) && all_digits(part) {
        Some(
            F64::of(
                decimal_datum(neg, digits_value(whole + part), exponent->0 - part.len()),
            ),
        )
    } else {
        None
    }
}

/// The floating-point number that a text writes, if it writes one: the number nearest
/// to the decimal number, an infinity, or what is not a number.
pub open spec fn decimal_of(s: Seq<char>) -> Option<F64> {
    let neg = with_minus(s);
    let body = without_sign(s);
    if spells(body, seq!['i', 'n', 'f'], seq!['I', 'N', 'F']) || spells(
        body,
        seq!['i', 'n', 'f', 'i', 'n', 'i', 't', 'y'],
        seq!['I', 'N', 'F', 'I', 'N', 'I', 'T', 'Y'],
    ) {
        Some(F64::of(Datum { neg, mag: 0x7ff0_0000_0000_0000 }))
    } else if spells(body, seq!['n', 'a', 'n'], seq!['N', 'A', 'N']) {
        Some(F64::of(Datum { neg, mag: 0x7ff8_0000_0000_0000 }))
    } else {
        number_of(neg, body)
    }
}

/// Computes [`mark_place`] on a part of the characters.
fn find_mark(v: &Vec<char>, from: usize, to: usize, a: char, b: char) -> (place: usize)
    requires
        from <= to <= v@.len(),
    ensures
        from <= place <= to,
        place - from == mark_place(v@.subrange(from as int, to as int), a, b),
{
    let mut i: usize = from;
    while i < to && v[i] != a && v[i] != b
        invariant
            from <= i <= to <= v@.len(),
            mark_place(v@.subrange(from as int, to as int), a, b) == i - from + mark_place(
                v@.subrange(i as int, to as int),
                a,
                b,
            ),
        decreases to - i,
    {
        proof {
            assert(v@.subrange(i as int, to as int).drop_first() =~= v@.subrange(
                i + 1,
                to as int,
            ));
        }
        i = i + 1;
    }
    i
}

/// Whether all of a part of the characters are digits.
fn are_digits(v: &Vec<char>, from: usize, to: usize) -> (r: bool)
    requires
        from <= to <= v@.len(),
    ensures
        r == all_digits(v@.subrange(from as int, to as int)),
{
    let ghost part = v@.subrange(from as int, to as int);
    let mut i: usize = from;
    while i < to
        invariant
            from <= i <= to <= v@.len(),
            part == v@.subrange(from as int, to as int),
            forall|k: int| 0 <= k < i - from ==> is_digit(#[trigger] part[k]),
        decreases to - i,
    {
        let c: char = v[i];
        proof {
            assert(part[i - from] == c);
        }
        if !('0' <= c && c <= '9') {
            return false;
        }
        i = i + 1;
    }
    true
}

/// Appends digits to a number.
fn read_digits(v: &Vec<char>, from: usize, to: usize, digits: &mut Vec<u32>)
    requires
        from <= to <= v@.len(),
        all_digits(v@.subrange(from as int, to as int)),
    ensures
        value(final(digits)@) == value(old(digits)@) * ten_to((to - from) as nat) + digits_value(
            v@.subrange(from as int, to as int),
        ),
{
    let ghost start = value(digits@);
    let ghost part = v@.subrange(from as int, to as int);
    let mut i: usize = from;
    proof {
        assert(part.take(0) =~= Seq::<char>::empty());
        assert(start * 1 == start);
    }
    while i < to
        invariant
            from <= i <= to <= v@.len(),
            part == v@.subrange(from as int, to as int),
            all_digits(part),
            value(digits@) == start * ten_to((i - from) as nat) + digits_value(
                part.take(i - from),
            ),
        decreases to - i,
    {
        let ghost k = i - from;
        proof {
            assert(part[k] == v@[i as int]);
            assert(part.take(k + 1).drop_last() =~= part.take(k));
            assert(part.take(k + 1).last() == v@[i as int]);
            let w = ten_to(k as nat);
            let n = digits_value(part.take(k));
            assert((start * w + n) * 10 == start * (10 * w) + n * 10) by (nonlinear_arith);
        }
        let d: u32 = digit_value(v[i]);
        multiply_add(digits, 10, d);
        i = i + 1;
    }
    proof {
        assert(part.take(to - from) =~= part);
    }
}

proof fn lemma_digits_below(s: Seq<char>)
    requires
        all_digits(s),
    ensures
        digits_value(s) < ten_to(s.len()),
    decreases s.len(),
{
    if s.len() > 0 {
        assert forall|i: int| 0 <= i < s.len() - 1 implies is_digit(#[trigger] s.drop_last()[i]) by {
            assert(s.drop_last()[i] == s[i]);
        }
        lemma_digits_below(s.drop_last());
        assert(is_digit(s.last()));
    }
}

proof fn lemma_digits_joined(a: Seq<char>, b: Seq<char>)
    ensures
        digits_value(a + b) == digits_value(a) * ten_to(b.len()) + digits_value(b),
    decreases b.len(),
{
    if b.len() == 0 {
        assert(a + b =~= a);
        assert(digits_value(a) * 1 == digits_value(a));
    } else {
        lemma_digits_joined(a, b.drop_last());
        assert((a + b).drop_last() =~= a + b.drop_last());
        let x = digits_value(a);
        let y = digits_value(b.drop_last());
        let w = ten_to((b.len() - 1) as nat);
        assert((x * w + y) * 10 == x * (10 * w) + y * 10) by (nonlinear_arith);
    }
}

/// Exponents beyond this size are all alike.
const VAST: i128 = 1_000_000_000_000_000_000_000_000_000_000;

/// An exponent brought into the range up to [`VAST`].
spec fn bounded(e: int) -> int {
    if e > VAST {
        VAST as int
    } else if e < -VAST {
        -(VAST as int)
    } else {
        e
    }
}

/// Computes [`exponent_of`] on the characters from a place on, bounded in size.
fn read_exponent(v: &Vec<char>, from: usize) -> (r: Option<i128>)
    requires
        from <= v@.len(),
    ensures
        r is Some == exponent_of(v@.skip(from as int)) is Some,
        r is Some ==> r->0 == bounded(exponent_of(v@.skip(from as int))->0),
{
    let n: usize = v.len();
    let ghost s = v@.skip(from as int);
    let neg: bool = from < n && v[from] == '-';
    let start: usize = if from < n && (v[from] == '+' || v[from] == '-') {
        from + 1
    } else {
        from
    };
    let ghost d = v@.subrange(start as int, n as int);
    proof {
        assert(d =~= without_sign(s));
    }
    if start == n || !are_digits(v, start, n) {
        return None;
    }
    let mut e: i128 = 0;
    let mut i: usize = start;
    proof {
        assert(d.take(0) =~= Seq::<char>::empty());
    }
    while i < n
        invariant
            start <= i <= n == v@.len(),
            d == v@.subrange(start as int, n as int),
            all_digits(d),
            0 <= e <= VAST,
            e == bounded(digits_value(d.take(i - start)) as int),
        decreases n - i,
    {
        let ghost k = i - start;
        proof {
            assert(d[k] == v@[i as int]);
            assert(d.take(k + 1).drop_last() =~= d.take(k));
            assert(d.take(k + 1).last() == d[k]);
        }
        let next: i128 = e * 10 + digit_value(v[i]) as i128;
        e = if next > VAST {
            VAST
        } else {
            next
        };
        i = i + 1;
    }
    proof {
        assert(d.take(n - start) =~= d);
    }
    if neg {
        Some(-e)
    } else {
        Some(e)
    }
}

/// The number nearest to `digits * 10^exponent`. The exponent is given up to its size.
fn decimal_number(
    neg: bool,
    digits: Vec<u32>,
    count: usize,
    exponent: i128,
    Ghost(exact): Ghost<int>,
) -> (r: F64)
    requires
        value(digits@) < ten_to(count as nat),
        -0x1_0000_0000_0000_0000 - VAST <= exponent <= VAST,
        exponent == exact || (exponent > 3000 && exact > 3000) || (exponent < -3000 - count
            && exact < -3000 - count),
    ensures
        r == F64::of(decimal_datum(neg, value(digits@), exact)),
{
    let ghost d = value(digits@);
    let ghost up = ten_to(if exact >= 0 { exact as nat } else { 0 });
    let ghost down = ten_to(if exact < 0 { (-exact) as nat } else { 0 });
    let ghost unit = pow2(1074);
    proof {
        lemma_ten_to_pos(if exact >= 0 { exact as nat } else { 0 });
        lemma_ten_to_pos(if exact < 0 { (-exact) as nat } else { 0 });
        lemma_pow2_pos(1074);
    }
    let mag: u64;
    if is_zero(&digits) {
        proof {
            assert(d * up * unit == 0) by (nonlinear_arith)
                requires
                    d == 0,
            ;
            lemma_small_rounds_away(Format::Double, 0, down);
        }
        mag = 0;
    } else if exponent > 3000 {
        proof {
            lemma_pow2_strictly_increases(2100, exact as nat);
            assert(d * up * unit >= 1 * pow2(2100)) by (nonlinear_arith)
                requires
                    d >= 1,
                    up >= pow2(2100),
                    unit >= 1,
            ;
            lemma_large_rounds_to_infinity(Format::Double, d * up * unit, 1);
        }
        mag = Format::Double.infinity_bits();
    } else if exponent < -3000 - count as i128 {
        proof {
            // d < 10^count, and 10^-exact exceeds 10^count by more than 2^3000.
            let more = (-exact - count) as nat;
            lemma_ten_to_adds(count as nat, more);
            assert(count as nat + more == (-exact) as nat);
            lemma_ten_to_pos(more);
            lemma_pow2_strictly_increases(1075, more);
            lemma_pow2_unfold(1075);
            let w = ten_to(more);
            let t = ten_to(count as nat);
            assert(2 * (d * 1 * unit) < down) by (nonlinear_arith)
                requires
                    d < t,
                    2 * unit <= w,
                    down == t * w,
                    unit > 0,
            ;
            lemma_small_rounds_away(Format::Double, d * up * unit, down);
        }
        mag = 0;
    } else {
        let mut a: Vec<u32> = digits;
        let mut b: Vec<u32> = vec![1];
        proof {
            assert(b@.drop_first() =~= Seq::<u32>::empty());
            assert(value(b@.drop_first()) == 0);
            assert(value(b@) == 1);
            assert(d * 1 == d);
            assert(1 * down == down);
            assert(d * up >= 1) by (nonlinear_arith)
                requires
                    d >= 1,
                    up >= 1,
            ;
        }
        if exponent >= 0 {
            scale_up(&mut a, exponent as u128);
        } else {
            scale_up(&mut b, (-exponent) as u128);
        }
        mag = round_ratio(a, &b);
    }
    if neg {
        F64 { bits: mag + 0x8000_0000_0000_0000 }
    } else {
        F64 { bits: mag }
    }
}

/// Computes [`spells`] on the characters from a place on.
fn is_word(v: &Vec<char>, from: usize, small: &Vec<char>, capital: &Vec<char>) -> (r: bool)
    requires
        from <= v@.len(),
        small@.len() == capital@.len(),
    ensures
        r == spells(v@.skip(from as int), small@, capital@),
{
    let ghost s = v@.skip(from as int);
    let n: usize = small.len();
    if v.len() - from != n {
        return false;
    }
    let mut i: usize = 0;
    while i < n
        invariant
            i <= n == small@.len() == capital@.len(),
            from + n == v.len(),
            s == v@.skip(from as int),
            forall|k: int| 0 <= k < i ==> #[trigger] s[k] == small@[k] || s[k] == capital@[k],
        decreases n - i,
    {
        let c: char = v[from + i];
        proof {
            assert(s[i as int] == c);
        }
        if c != small[i] && c != capital[i] {
            return false;
        }
        i = i + 1;
    }
    true
}

/// Computes [`number_of`] on the characters from a place on.
fn read_number(neg: bool, v: &Vec<char>, from: usize) -> (r: Option<F64>)
    requires
        from <= v@.len(),
    ensures
        r == number_of(neg, v@.skip(from as int)),
{
    let n: usize = v.len();
    let ghost s = v@.skip(from as int);
    let m: usize = find_mark(v, from, n, 'e', 'E');
    let ghost body = s.take(m - from);
    proof {
        assert(v@.subrange(from as int, n as int) =~= s);
        assert(v@.subrange(from as int, m as int) =~= body);
    }
    let e: i128;
    let ghost mut exact: int = 0;
    if m < n {
        proof {
            assert(v@.skip(m + 1) =~= s.skip(m - from + 1));
        }
        match read_exponent(v, m + 1) {
            None => {
                return None;
            },
            Some(x) => {
                e = x;
                proof {
                    exact = exponent_of(v@.skip(m + 1))->0;
                }
            },
        }
    } else {
        e = 0;
    }
    let p: usize = find_mark(v, from, m, '.', '.');
    let start: usize = if p < m {
        p + 1
    } else {
        m
    };
    let ghost whole = body.take(p - from);
    let ghost part = if p < m {
        body.skip(p - from + 1)
    } else {
        Seq::<char>::empty()
    };
    proof {
        assert(v@.subrange(from as int, p as int) =~= whole);
        assert(v@.subrange(start as int, m as int) =~= part);
    }
    if p == from && start == m {
        return None;
    }
    if !are_digits(v, from, p) || !are_digits(v, start, m) {
        return None;
    }
    let mut digits: Vec<u32> = Vec::new();
    read_digits(v, from, p, &mut digits);
    read_digits(v, start, m, &mut digits);
    proof {
        assert(0 * ten_to((p - from) as nat) == 0);
        lemma_digits_joined(whole, part);
        assert forall|i: int| 0 <= i < (whole + part).len() implies is_digit(
            #[trigger] (whole + part)[i],
        ) by {
            if i < whole.len() {
                assert((whole + part)[i] == whole[i]);
            } else {
                assert((whole + part)[i] == part[i - whole.len()]);
            }
        }
        lemma_digits_below(whole + part);
    }
    let count: usize = (p - from) + (m - start);
    Some(decimal_number(neg, digits, count, e - (m - start) as i128, Ghost(exact - (m - start))))
}

/// The floating-point number that the text writes, if it writes one.
pub fn parse_decimal(s: &str) -> (r: Option<F64>)
    ensures
        r == decimal_of(s@),
{
    let v: Vec<char> = chars_of(s);
    let n: usize = v.len();
    let neg: bool = n > 0 && v[0] == '-';
    let from: usize = if n > 0 && (v[0] == '+' || v[0] == '-') {
        1
    } else {
        0
    };
    proof {
        assert(v@.skip(from as int) =~= without_sign(s@));
    }
    let small: Vec<char> = vec!['i', 'n', 'f'];
    let capital: Vec<char> = vec!['I', 'N', 'F'];
    let long_small: Vec<char> = vec!['i', 'n', 'f', 'i', 'n', 'i', 't', 'y'];
    let long_capital: Vec<char> = vec!['I', 'N', 'F', 'I', 'N', 'I', 'T', 'Y'];
    let none_small: Vec<char> = vec!['n', 'a', 'n'];
    let none_capital: Vec<char> = vec!['N', 'A', 'N'];
    proof {
        assert(small@ =~= seq!['i', 'n', 'f']);
        assert(capital@ =~= seq!['I', 'N', 'F']);
        assert(long_small@ =~= seq!['i', 'n', 'f', 'i', 'n', 'i', 't', 'y']);
        assert(long_capital@ =~= seq!['I', 'N', 'F', 'I', 'N', 'I', 'T', 'Y']);
        assert(none_small@ =~= seq!['n', 'a', 'n']);
        assert(none_capital@ =~= seq!['N', 'A', 'N']);
    }
    let sign: u64 = if neg {
        0x8000_0000_0000_0000
    } else {
        0
    };
    if is_word(&v, from, &small, &capital) || is_word(&v, from, &long_small, &long_capital) {
        Some(F64 { bits: sign + 0x7ff0_0000_0000_0000 })
    } else if is_word(&v, from, &none_small, &none_capital) {
        Some(F64 { bits: sign + 0x7ff8_0000_0000_0000 })
    } else {
        read_number(neg, &v, from)
    }
}

} // verus!
