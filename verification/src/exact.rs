//! Numbers by the values that they stand for.
//!
//! A finite number is a whole multiple of the least positive one, so that exact values are
//! integers here: one is `2^1074`. A rounded result lies on the same side of every number as the
//! exact one does, and where the exact result is a number, it is that number.

use vstd::prelude::*;
use vstd::arithmetic::div_mod::{lemma_fundamental_div_mod, lemma_fundamental_div_mod_converse};
use vstd::arithmetic::power2::{
    pow2, lemma_pow2_adds, lemma_pow2_pos, lemma_pow2_strictly_increases, lemma2_to64,
    lemma2_to64_rest,
};
use crate::accuracy::{
    lemma_excess_range, lemma_rounding_error, lemma_rounding_grows, lemma_units_grow, lemma_units_of,
};
use crate::datum::{
    Datum, magnitude_of, nearest_whole, of_whole, product_of, quotient_of, rounded_datum, sum_of,
    whole_part,
};
use crate::float::{F32, F64};
use crate::rounding::{
    Format, excess, lemma_rounded_scales, nearest_even, places, rounded,
    rounded_magnitude, significand, units,
};

verus! {

impl F64 {
    /// Neither infinite nor no number.
    pub open spec fn finite(self) -> bool {
        self.datum().finite(Format::Double)
    }

    /// The value of a finite number, in units of the least positive one.
    pub open spec fn value(self) -> int {
        self.datum().value(Format::Double)
    }
}

/// The value of one.
pub open spec fn one() -> int {
    pow2(1074) as int
}

/// The value is that of a number.
pub open spec fn is_number(v: int) -> bool {
    exists|z: F64| z.finite() && #[trigger] z.value() == v
}

/// `d` is `num / den` up to rounding: no number lies between the two.
pub open spec fn stands_for(f: Format, d: Datum, num: int, den: int) -> bool {
    &&& !d.nan(f)
    &&& forall|z: Datum|
        z.finite(f) && #[trigger] z.value(f) * den <= num ==> z.rank() <= d.rank()
    &&& forall|z: Datum|
        z.finite(f) && num <= #[trigger] z.value(f) * den ==> d.rank() <= z.rank()
}

/// `r` is `num / den` up to rounding: no number lies between the two.
pub open spec fn is_nearly(r: F64, num: int, den: int) -> bool {
    stands_for(Format::Double, r.datum(), num, den)
}

/// The excess of a significand that is filled and shifted.
proof fn lemma_excess_of(f: Format, sig: nat, k: nat)
    requires
        f.lead() <= sig < 2 * f.lead(),
    ensures
        excess(f, sig * pow2(k)) == k,
    decreases k,
{
    lemma2_to64();
    if k == 0 {
        assert(sig * 1 == sig);
    } else {
        let j = (k - 1) as nat;
        lemma_excess_of(f, sig, j);
        vstd::arithmetic::power2::lemma_pow2_unfold(k);
        lemma_pow2_pos(j);
        let w = pow2(j);
        assert(sig * (2 * w) == 2 * (sig * w)) by (nonlinear_arith);
        assert(sig * w >= sig) by (nonlinear_arith)
            requires
                w >= 1,
        ;
    }
}

/// The magnitude of an ordinal is rounded to the ordinal.
pub proof fn lemma_ordinals_are_exact(f: Format, o: nat, den: nat)
    requires
        o < f.infinity(),
        den > 0,
    ensures
        rounded_magnitude(f, units(f, o) * den, den) == o,
{
    let lead = f.lead();
    let u = units(f, o);
    let sig = significand(f, o);
    let k = places(f, o);
    let w = pow2(k);
    lemma2_to64();
    lemma_pow2_pos(k);
    lemma_fundamental_div_mod(o as int, lead as int);
    assert(u / 1 == u);
    assert(1 * w == w);
    assert(u == sig * w + 0);
    lemma_fundamental_div_mod_converse(u as int, w as int, sig as int, 0);
    assert(nearest_even(u, w) == sig);
    if o < lead {
        assert(sig * 1 == sig);
        assert(0 * lead == 0);
    } else {
        lemma_excess_of(f, sig, k);
        let q = o / lead;
        assert(q >= 1) by (nonlinear_arith)
            requires
                o >= lead,
                o < lead * q + lead,
                lead > 0,
        ;
        assert((q - 1) * lead + lead == lead * q) by (nonlinear_arith);
    }
    assert(rounded(f, u, 1) == o);
    lemma_rounded_scales(f, u, 1, den);
    assert(1 * den == den);
}

/// Of two numbers the one that stands higher among the numbers has the greater value.
pub proof fn lemma_rank_is_value(f: Format, a: Datum, b: Datum)
    requires
        a.finite(f),
        b.finite(f),
    ensures
        a.rank() < b.rank() <==> a.value(f) < b.value(f),
        a.rank() == b.rank() <==> a.value(f) == b.value(f),
        a.mag == 0 <==> a.value(f) == 0,
        units(f, a.mag as nat) == 0 <==> a.mag == 0,
{
    lemma_units_order(f, a.mag as nat, b.mag as nat);
    lemma_units_order(f, b.mag as nat, a.mag as nat);
    lemma_units_order(f, 0, a.mag as nat);
    lemma_units_order(f, 0, b.mag as nat);
    lemma2_to64();
    assert(units(f, 0) == 0) by {
        let w = pow2(0);
        assert(0 * w == 0) by (nonlinear_arith);
        assert(significand(f, 0) * w == 0 * w);
    }
}

proof fn lemma_units_order(f: Format, a: nat, b: nat)
    requires
        a < f.infinity(),
        b < f.infinity(),
    ensures
        a < b ==> units(f, a) < units(f, b),
{
    if a < b {
        lemma_units_grow(f, a, b);
        lemma_ordinals_are_exact(f, a, 1);
        lemma_ordinals_are_exact(f, b, 1);
    }
}

/// Rounding keeps to the side of every number.
pub proof fn lemma_rounding_keeps_sides(f: Format, neg: bool, num: nat, den: nat)
    requires
        den > 0,
    ensures
        stands_for(
            f,
            rounded_datum(f, neg, num, den),
            if neg {
                -(num as int)
            } else {
                num as int
            },
            den as int,
        ),
{
    let d = rounded_datum(f, neg, num, den);
    let n = if neg {
        -(num as int)
    } else {
        num as int
    };
    assert(d.mag == rounded_magnitude(f, num, den));
    assert forall|z: Datum| z.finite(f) && #[trigger] z.value(f) * den <= n implies z.rank()
        <= d.rank() by {
        lemma_one_side(f, neg, num, den, z);
    }
    assert forall|z: Datum| z.finite(f) && n <= #[trigger] z.value(f) * den implies d.rank()
        <= z.rank() by {
        lemma_one_side(f, neg, num, den, z);
    }
}

proof fn lemma_one_side(f: Format, neg: bool, num: nat, den: nat, z: Datum)
    requires
        den > 0,
        z.finite(f),
    ensures
        ({
            let d = rounded_datum(f, neg, num, den);
            let n = if neg {
                -(num as int)
            } else {
                num as int
            };
            &&& z.value(f) * den <= n ==> z.rank() <= d.rank()
            &&& n <= z.value(f) * den ==> d.rank() <= z.rank()
        }),
{
    let d = rounded_datum(f, neg, num, den);
    let u = units(f, z.mag as nat);
    let v = u * den;
    assert(z.value(f) * den == (if z.neg {
        -(v as int)
    } else {
        v as int
    })) by (nonlinear_arith)
        requires
            v == u * den,
            z.value(f) == (if z.neg {
                -(u as int)
            } else {
                u as int
            }),
    ;
    lemma_ordinals_are_exact(f, z.mag as nat, den);
    if v <= num {
        lemma_rounding_grows(f, v, num, den);
    }
    if num <= v {
        lemma_rounding_grows(f, num, v, den);
    }
    if num == 0 {
        let zero = Datum { neg: false, mag: 0 };
        lemma_rank_is_value(f, zero, zero);
        lemma_ordinals_are_exact(f, 0, den);
        assert(0 * den == 0);
    }
    if v == 0 {
        lemma_rank_is_value(f, z, z);
        assert(u == 0) by (nonlinear_arith)
            requires
                u * den == 0,
                den > 0,
        ;
    }
}

/// A result that is a number is not rounded.
pub proof fn lemma_exact(r: F64, num: int, den: int, z: F64)
    requires
        is_nearly(r, num, den),
        z.finite(),
        z.value() * den == num,
    ensures
        r.finite(),
        r.value() == z.value(),
{
    let f = Format::Double;
    assert(z.datum().value(f) * den <= num);
    assert(r.datum().rank() == z.datum().rank());
    assert(r.datum().mag == z.datum().mag);
    lemma_rank_is_value(f, r.datum(), z.datum());
}

/// A result that is a number is not rounded.
pub proof fn lemma_exact_whole(r: F64, v: int)
    requires
        is_nearly(r, v, 1),
        is_number(v),
    ensures
        r.finite(),
        r.value() == v,
{
    let z = choose|z: F64| z.finite() && #[trigger] z.value() == v;
    assert(z.value() * 1 == v);
    lemma_exact(r, v, 1, z);
}

/// Numbers are compared by their values.
pub proof fn lemma_compare(a: F64, b: F64)
    requires
        a.finite(),
        b.finite(),
    ensures
        a.spec_less(b) <==> a.value() < b.value(),
        a.spec_at_most(b) <==> a.value() <= b.value(),
        a.value() < b.value() ==> a.order() < b.order(),
{
    lemma_rank_is_value(Format::Double, a.datum(), b.datum());
}

/// Results are compared with numbers as the exact ones are.
pub proof fn lemma_compare_nearly(r: F64, num: int, den: int, z: F64)
    requires
        is_nearly(r, num, den),
        z.finite(),
    ensures
        z.value() * den <= num ==> z.spec_at_most(r) && !r.spec_less(z),
        num <= z.value() * den ==> r.spec_at_most(z) && !z.spec_less(r),
{
    let d = z.datum();
    assert(d.value(Format::Double) == z.value());
}

/// A datum survives being made a number.
pub proof fn lemma_of_datum(d: Datum)
    requires
        d.mag < 0x8000_0000_0000_0000,
    ensures
        F64::of(d).datum() == d,
{
}

/// The exact sum, up to rounding.
proof fn lemma_sum_data(f: Format, a: Datum, b: Datum)
    requires
        a.finite(f),
        b.finite(f),
    ensures
        stands_for(f, sum_of(f, a, b), a.value(f) + b.value(f), 1),
        sum_of(f, a, b).mag <= f.infinity(),
{
    reveal(sum_of);
    let v = a.value(f) + b.value(f);
    let d = sum_of(f, a, b);
    if v == 0 {
        assert forall|z: Datum| z.finite(f) && #[trigger] z.value(f) * 1 <= 0 implies z.rank()
            <= d.rank() by {
            lemma_rank_is_value(f, z, Datum { neg: false, mag: 0 });
            lemma_rank_is_value(f, Datum { neg: false, mag: 0 }, z);
        }
        assert forall|z: Datum| z.finite(f) && 0 <= #[trigger] z.value(f) * 1 implies d.rank()
            <= z.rank() by {
            lemma_rank_is_value(f, z, Datum { neg: false, mag: 0 });
            lemma_rank_is_value(f, Datum { neg: false, mag: 0 }, z);
        }
    } else {
        lemma_rounding_keeps_sides(f, v < 0, magnitude_of(v), 1);
    }
}

/// The exact product, up to rounding.
proof fn lemma_product_data(f: Format, x: Datum, y: Datum)
    requires
        x.finite(f),
        y.finite(f),
    ensures
        stands_for(f, product_of(f, x, y), x.value(f) * y.value(f), pow2(f.unit()) as int),
        product_of(f, x, y).mag <= f.infinity(),
{
    reveal(product_of);
    let ua = units(f, x.mag as nat);
    let ub = units(f, y.mag as nat);
    let a = x.value(f);
    let b = y.value(f);
    lemma_pow2_pos(f.unit());
    lemma_rounding_keeps_sides(f, x.neg != y.neg, ua * ub, pow2(f.unit()));
    assert(a * b == (if x.neg != y.neg {
        -((ua * ub) as int)
    } else {
        (ua * ub) as int
    })) by (nonlinear_arith)
        requires
            a == (if x.neg {
                -(ua as int)
            } else {
                ua as int
            }),
            b == (if y.neg {
                -(ub as int)
            } else {
                ub as int
            }),
    ;
}

/// The exact quotient, up to rounding.
proof fn lemma_quotient_data(f: Format, x: Datum, y: Datum)
    requires
        x.finite(f),
        y.finite(f),
        y.value(f) > 0,
    ensures
        stands_for(f, quotient_of(f, x, y), x.value(f) * pow2(f.unit()), y.value(f)),
        quotient_of(f, x, y).mag <= f.infinity(),
{
    reveal(quotient_of);
    let ua = units(f, x.mag as nat);
    let p = pow2(f.unit());
    let a = x.value(f);
    lemma_rank_is_value(f, y, y);
    assert(!y.neg);
    lemma_rounding_keeps_sides(f, x.neg, ua * p, units(f, y.mag as nat));
    assert(a * p == (if x.neg {
        -((ua * p) as int)
    } else {
        (ua * p) as int
    })) by (nonlinear_arith)
        requires
            a == (if x.neg {
                -(ua as int)
            } else {
                ua as int
            }),
    ;
}

/// The exact sum, up to rounding.
pub proof fn lemma_plus(a: F64, b: F64)
    requires
        a.finite(),
        b.finite(),
    ensures
        is_nearly(a.spec_plus(b), a.value() + b.value(), 1),
{
    let f = Format::Double;
    lemma_sum_data(f, a.datum(), b.datum());
    lemma_of_datum(sum_of(f, a.datum(), b.datum()));
}

/// The exact difference, up to rounding.
pub proof fn lemma_minus(a: F64, b: F64)
    requires
        a.finite(),
        b.finite(),
    ensures
        is_nearly(a.spec_minus(b), a.value() - b.value(), 1),
{
    let d = Datum { neg: !b.datum().neg, mag: b.datum().mag };
    lemma_of_datum(d);
    lemma_plus(a, b.spec_negated());
}

/// The exact product, up to rounding.
pub proof fn lemma_times(a: F64, b: F64)
    requires
        a.finite(),
        b.finite(),
    ensures
        is_nearly(a.spec_times(b), a.value() * b.value(), one()),
{
    let f = Format::Double;
    lemma_product_data(f, a.datum(), b.datum());
    lemma_of_datum(product_of(f, a.datum(), b.datum()));
}

/// The exact quotient, up to rounding.
pub proof fn lemma_over(a: F64, b: F64)
    requires
        a.finite(),
        b.finite(),
        b.value() > 0,
    ensures
        is_nearly(a.spec_over(b), a.value() * one(), b.value()),
{
    let f = Format::Double;
    lemma_quotient_data(f, a.datum(), b.datum());
    lemma_of_datum(quotient_of(f, a.datum(), b.datum()));
}

/// Adding more gives no less.
pub proof fn lemma_plus_grows(a: F64, b: F64, c: F64)
    requires
        a.finite(),
        b.finite(),
        c.finite(),
        b.value() <= c.value(),
    ensures
        a.spec_plus(b).spec_at_most(a.spec_plus(c)),
{
    let f = Format::Double;
    reveal(sum_of);
    let x = sum_of(f, a.datum(), b.datum());
    let y = sum_of(f, a.datum(), c.datum());
    let v = a.value() + b.value();
    let w = a.value() + c.value();
    lemma_sum_data(f, a.datum(), b.datum());
    lemma_sum_data(f, a.datum(), c.datum());
    lemma_of_datum(x);
    lemma_of_datum(y);
    let zero = Datum { neg: false, mag: 0 };
    lemma_rank_is_value(f, zero, zero);
    assert(zero.value(f) * 1 == 0);
    if v > 0 {
        lemma_rounding_grows(f, magnitude_of(v), magnitude_of(w), 1);
    } else if w < 0 {
        lemma_rounding_grows(f, magnitude_of(w), magnitude_of(v), 1);
    } else {
        assert(x.rank() <= zero.rank());
        assert(zero.rank() <= y.rank());
    }
}

/// A significand of 53 digits, shifted, is the value of a number.
pub proof fn lemma_shifted_is_number(m: int, s: nat)
    requires
        -0x20_0000_0000_0000 < m < 0x20_0000_0000_0000,
        s <= 2045,
    ensures
        is_number(m * pow2(s)),
{
    let f = Format::Double;
    let n = magnitude_of(m);
    let u = n * pow2(s);
    let lead = f.lead();
    let k = excess(f, u);
    lemma_pow2_pos(s);
    lemma2_to64();
    lemma2_to64_rest();
    lemma_excess_range(f, u);
    let ws = pow2(s);
    assert(u < 2 * lead * ws) by (nonlinear_arith)
        requires
            u == n * ws,
            n < 2 * lead,
            ws > 0,
    ;
    if k > s {
        if k > s + 1 {
            lemma_pow2_strictly_increases(s + 1, k);
        }
        vstd::arithmetic::power2::lemma_pow2_unfold(s + 1);
        let wk = pow2(k);
        assert(false) by (nonlinear_arith)
            requires
                u < 2 * lead * ws,
                lead * wk <= u,
                wk >= 2 * ws,
                lead > 0,
        ;
    }
    let j = (s - k) as nat;
    lemma_pow2_adds(j, k);
    let w = pow2(k);
    lemma_pow2_pos(k);
    let r = n * pow2(j);
    assert(u == r * w + 0) by (nonlinear_arith)
        requires
            u == n * ws,
            ws == pow2(j) * w,
            r == n * pow2(j),
    ;
    assert(r < 2 * lead) by (nonlinear_arith)
        requires
            r * w < 2 * lead * w,
            w > 0,
    ;
    if k > 0 {
        assert(r >= lead) by (nonlinear_arith)
            requires
                r * w >= lead * w,
                w > 0,
        ;
    }
    lemma_units_of(f, k, r);
    let o = k * lead + r;
    assert(o < 2047 * lead) by (nonlinear_arith)
        requires
            o == k * lead + r,
            k <= 2045,
            r < 2 * lead,
            lead > 0,
    ;
    let z = F64::of(Datum { neg: m < 0, mag: o as u64 });
    lemma_of_datum(Datum { neg: m < 0, mag: o as u64 });
    assert(z.finite());
    assert(m * ws == (if m < 0 {
        -((n * ws) as int)
    } else {
        (n * ws) as int
    })) by (nonlinear_arith)
        requires
            n as int == (if m < 0 {
                -m
            } else {
                m
            }),
    ;
    assert(z.value() == m * pow2(s));
}

/// A number that is written by its bits: a significand that is a multiple of a power of two.
pub proof fn lemma_bits(bits: u64, k: nat, r: nat)
    requires
        bits == k * 0x10_0000_0000_0000 + r,
        0x10_0000_0000_0000 <= r < 0x20_0000_0000_0000,
        k < 2046,
    ensures
        (F64 { bits }).finite(),
        (F64 { bits }).value() == r * pow2(k),
{
    lemma_units_of(Format::Double, k, r);
}

/// A whole number that is written by its bits.
pub proof fn lemma_whole_bits(bits: u64, n: nat, j: nat)
    requires
        j <= 52,
        0x10_0000_0000_0000 <= n * pow2(j) < 0x20_0000_0000_0000,
        bits == (1074 - j) * 0x10_0000_0000_0000 + n * pow2(j),
    ensures
        (F64 { bits }).finite(),
        (F64 { bits }).value() == n * one(),
{
    let k = (1074 - j) as nat;
    lemma_bits(bits, k, n * pow2(j));
    lemma_pow2_adds(j, k);
    let a = pow2(j);
    let b = pow2(k);
    assert((n * a) * b == n * (a * b)) by (nonlinear_arith);
}

/// Whole numbers of 53 digits are numbers.
pub proof fn lemma_of_nat(n: nat)
    requires
        n < 0x20_0000_0000_0000,
    ensures
        F64::of_nat(n).finite(),
        F64::of_nat(n).value() == n * one(),
        !F64::of_nat(n).datum().neg,
{
    reveal(of_whole);
    let f = Format::Double;
    let p = pow2(f.unit());
    lemma_rounding_keeps_sides(f, false, n * p, 1);
    lemma_of_datum(of_whole(f, n));
    lemma_shifted_is_number(n as int, 1074);
    lemma_exact_whole(F64::of_nat(n), n * one());
}

/// Rounding to a whole number is off by one half at most.
pub proof fn lemma_round(r: F64)
    requires
        r.finite(),
        0 <= r.value(),
        2 * r.value() + one() < 0x2_0000_0000 * one(),
    ensures
        2 * (r.spec_round_u32() * one()) <= 2 * r.value() + one(),
        2 * r.value() + one() < 2 * (r.spec_round_u32() * one()) + 2 * one(),
{
    reveal(nearest_whole);
    let f = Format::Double;
    let d = r.datum();
    let p = one();
    lemma_pow2_pos(1074);
    lemma_rank_is_value(f, d, d);
    if d.neg {
        assert(d.mag == 0);
        assert(0 * p == 0);
    } else {
        let u = r.value();
        let n = nearest_whole(f, d.mag as nat) as int;
        lemma_fundamental_div_mod(2 * u + p, 2 * p);
        let rest = (2 * u + p) % (2 * p);
        assert((2 * p) * n == 2 * (n * p)) by (nonlinear_arith);
        assert(n <= 0xffff_ffff) by (nonlinear_arith)
            requires
                2 * (n * p) <= 2 * u + p,
                2 * u + p < 0x2_0000_0000 * p,
                p > 0,
        ;
    }
}

/// The step of the grid that places and sizes lie on: a part in `2^16` of a pixel.
pub open spec fn grain() -> int {
    pow2(1058) as int
}

/// A place or size that is a multiple of the grain and below `2^31` pixels.
pub open spec fn on_grid(a: F64) -> bool {
    &&& a.finite()
    &&& exists|m: int| -0x8000_0000_0000 <= m <= 0x8000_0000_0000 && a.value() == #[trigger] (m
        * grain())
}

/// Values on the grid, up to sixty times as large, are numbers.
pub proof fn lemma_grid_number(m: int)
    requires
        -0x20_0000_0000_0000 < m < 0x20_0000_0000_0000,
    ensures
        is_number(m * grain()),
{
    lemma_shifted_is_number(m, 1058);
}

/// A pixel is `2^16` grains.
pub proof fn lemma_pixel()
    ensures
        one() == 0x1_0000 * grain(),
        grain() > 0,
{
    lemma_pow2_adds(16, 1058);
    lemma2_to64();
    lemma_pow2_pos(1058);
}

/// Sums of places and sizes on the grid are exact.
pub proof fn lemma_grid_sum(a: F64, b: F64)
    requires
        on_grid(a),
        on_grid(b),
    ensures
        a.spec_plus(b).finite(),
        a.spec_plus(b).value() == a.value() + b.value(),
{
    let m = choose|m: int| -0x8000_0000_0000 <= m <= 0x8000_0000_0000 && a.value()
        == #[trigger] (m * grain());
    let n = choose|m: int| -0x8000_0000_0000 <= m <= 0x8000_0000_0000 && b.value()
        == #[trigger] (m * grain());
    let g = grain();
    assert(m * g + n * g == (m + n) * g) by (nonlinear_arith);
    lemma_grid_number(m + n);
    lemma_plus(a, b);
    lemma_exact_whole(a.spec_plus(b), a.value() + b.value());
}

/// A product of numbers that are not negative is off by one part in `2^53` at most.
pub proof fn lemma_times_error(a: F64, b: F64)
    requires
        a.finite(),
        b.finite(),
        a.value() >= 0,
        b.value() >= 0,
        a.value() * b.value() >= 0x10_0000_0000_0000 * one() || a.value() * b.value() == 0,
        a.spec_times(b).finite(),
    ensures
        ({
            let r = a.spec_times(b).value();
            let v = a.value() * b.value();
            &&& r >= 0
            &&& 0x20_0000_0000_0000 * (r * one()) <= 0x20_0000_0000_0000 * v + v
            &&& 0x20_0000_0000_0000 * v <= 0x20_0000_0000_0000 * (r * one()) + v
        }),
{
    reveal(product_of);
    let f = Format::Double;
    let x = a.datum();
    let y = b.datum();
    let ua = units(f, x.mag as nat);
    let ub = units(f, y.mag as nat);
    let p = pow2(1074);
    lemma_pow2_pos(1074);
    lemma_rank_is_value(f, x, x);
    lemma_rank_is_value(f, y, y);
    assert(a.value() == ua && b.value() == ub);
    lemma_of_datum(product_of(f, x, y));
    let num = ua * ub;
    if num == 0 {
        lemma_times(a, b);
        lemma_compare_zero(a.spec_times(b), one());
    } else {
        assert(ua > 0 && ub > 0) by (nonlinear_arith)
            requires
                ua * ub > 0,
                ua >= 0,
                ub >= 0,
        ;
        assert(num >= p * f.lead()) by (nonlinear_arith)
            requires
                num >= 0x10_0000_0000_0000 * p,
                f.lead() == 0x10_0000_0000_0000,
        ;
        lemma_rounding_error(f, num, p);
    }
}

/// A quotient of numbers that are not negative is off by one part in `2^53` at most.
pub proof fn lemma_over_error(a: F64, b: F64)
    requires
        a.finite(),
        b.finite(),
        a.value() >= 0,
        b.value() > 0,
        a.value() * one() >= 0x10_0000_0000_0000 * b.value() || a.value() == 0,
        a.spec_over(b).finite(),
    ensures
        ({
            let r = a.spec_over(b).value();
            let v = a.value() * one();
            &&& r >= 0
            &&& 0x20_0000_0000_0000 * (r * b.value()) <= 0x20_0000_0000_0000 * v + v
            &&& 0x20_0000_0000_0000 * v <= 0x20_0000_0000_0000 * (r * b.value()) + v
        }),
{
    reveal(quotient_of);
    let f = Format::Double;
    let x = a.datum();
    let y = b.datum();
    let ua = units(f, x.mag as nat);
    let ub = units(f, y.mag as nat);
    let p = pow2(1074);
    lemma_pow2_pos(1074);
    lemma_rank_is_value(f, x, x);
    lemma_rank_is_value(f, y, y);
    assert(a.value() == ua && b.value() == ub);
    lemma_of_datum(quotient_of(f, x, y));
    let num = ua * p;
    if ua == 0 {
        assert(0 * p == 0);
        lemma_over(a, b);
        lemma_compare_zero(a.spec_over(b), b.value());
    } else {
        assert(num >= ub * f.lead()) by (nonlinear_arith)
            requires
                num >= 0x10_0000_0000_0000 * ub,
                f.lead() == 0x10_0000_0000_0000,
        ;
        lemma_rounding_error(f, num, ub);
    }
}

/// A result of zero is exact.
proof fn lemma_compare_zero(r: F64, den: int)
    requires
        is_nearly(r, 0, den),
    ensures
        r.finite(),
        r.value() == 0,
        r.value() * den == 0,
        r.value() * one() == 0,
{
    let z = F64 { bits: 0 };
    lemma_rank_is_value(Format::Double, z.datum(), z.datum());
    assert(z.value() == 0);
    assert(0 * den == 0);
    lemma_exact(r, 0, den, z);
    assert(0 * one() == 0);
}

/// A result is finite where it does not exceed a number.
pub proof fn lemma_bounded(r: F64, num: int, den: int, low: F64, high: F64)
    requires
        is_nearly(r, num, den),
        low.finite(),
        high.finite(),
        low.value() * den <= num <= high.value() * den,
    ensures
        r.finite(),
        low.value() <= r.value() <= high.value(),
{
    lemma_compare_nearly(r, num, den, low);
    lemma_compare_nearly(r, num, den, high);
    assert(r.finite());
    lemma_compare(r, high);
    lemma_compare(low, r);
}

/// One is large beside any count.
pub proof fn lemma_one_is_large()
    ensures
        one() >= 0x1_0000_0000_0000_0000 * 0x1_0000_0000_0000_0000,
{
    lemma2_to64();
    lemma_pow2_adds(64, 64);
    lemma_pow2_strictly_increases(128, 1074);
}

/// A length of a scaled side, multiplied by the ratio of the side to the scaled one, is the
/// length in proportion, up to a part of a pixel in `2^19`.
pub proof fn lemma_in_proportion(length: nat, scaled: nat, side: nat)
    requires
        0 < scaled <= u32::MAX,
        length <= scaled,
        side <= u32::MAX,
    ensures
        ({
            let r = F64::of_nat(length).spec_times(
                F64::of_nat(side).spec_over(F64::of_nat(scaled)),
            );
            &&& r.finite()
            &&& r.value() >= 0
            &&& 0x8_0000 * (r.value() * scaled - length * side * one()) <= scaled * one()
            &&& 0x8_0000 * (length * side * one() - r.value() * scaled) <= scaled * one()
        }),
{
    let o = one();
    let scale = F64::of_nat(side).spec_over(F64::of_nat(scaled));
    let r = F64::of_nat(length).spec_times(scale);
    lemma_of_nat(length);
    lemma_of_nat(scaled);
    lemma_of_nat(side);
    lemma_of_nat(0);
    lemma_of_nat(0x2_0000_0000);
    lemma_one_is_large();
    let t = scaled * o;
    let d = side * o;
    assert(0 * o == 0);
    assert(0 * t == 0);
    assert(t > 0) by (nonlinear_arith)
        requires
            t == scaled * o,
            scaled > 0,
            o > 0,
    ;
    assert(d * o <= d * t && 0 <= d * o) by (nonlinear_arith)
        requires
            t == scaled * o,
            d == side * o,
            scaled >= 1,
            side >= 0,
            o > 0,
    ;
    lemma_over(F64::of_nat(side), F64::of_nat(scaled));
    lemma_bounded(scale, d * o, t, F64::of_nat(0), F64::of_nat(side));
    if side > 0 {
        assert(d * o >= 0x10_0000_0000_0000 * t) by (nonlinear_arith)
            requires
                t == scaled * o,
                d == side * o,
                side >= 1,
                scaled <= 0xffff_ffff,
                o >= 0x1_0000_0000_0000_0000 * 0x1_0000_0000_0000_0000,
        ;
    } else {
        assert(d == 0) by (nonlinear_arith)
            requires
                d == side * o,
                side == 0,
        ;
    }
    lemma_over_error(F64::of_nat(side), F64::of_nat(scaled));
    let s = scale.value();
    let big = 0x20_0000_0000_0000int;
    assert(big * (s * scaled) <= big * d + d && big * d <= big * (s * scaled) + d)
        by (nonlinear_arith)
        requires
            big * (s * t) <= big * (d * o) + d * o,
            big * (d * o) <= big * (s * t) + d * o,
            t == scaled * o,
            o > 0,
    ;
    let x = length * s;
    assert(x <= s * scaled) by (nonlinear_arith)
        requires
            x == length * s,
            length <= scaled,
            s >= 0,
    ;
    assert(x >= 0) by (nonlinear_arith)
        requires
            x == length * s,
            length >= 0,
            s >= 0,
    ;
    assert(d <= 0xffff_ffff * o) by (nonlinear_arith)
        requires
            d == side * o,
            side <= 0xffff_ffff,
            o > 0,
    ;
    assert(x <= 0x2_0000_0000 * o);
    let v = (length * o) * s;
    assert(v == x * o) by (nonlinear_arith)
        requires
            v == (length * o) * s,
            x == length * s,
    ;
    assert(0 <= v <= (0x2_0000_0000 * o) * o) by (nonlinear_arith)
        requires
            v == x * o,
            0 <= x <= 0x2_0000_0000 * o,
            o > 0,
    ;
    lemma_times(F64::of_nat(length), scale);
    lemma_bounded(r, v, o, F64::of_nat(0), F64::of_nat(0x2_0000_0000));
    if length > 0 && side > 0 {
        assert(d >= o) by (nonlinear_arith)
            requires
                d == side * o,
                side >= 1,
                o > 0,
        ;
        assert(x >= 0x10_0000_0000_0000) by (nonlinear_arith)
            requires
                x == length * s,
                length >= 1,
                s >= 0,
                big * d <= big * (s * scaled) + d,
                big == 0x20_0000_0000_0000,
                d >= 0x1_0000_0000_0000_0000 * 0x1_0000_0000_0000_0000,
                scaled <= 0xffff_ffff,
                scaled >= 1,
        ;
        assert(v >= 0x10_0000_0000_0000 * o) by (nonlinear_arith)
            requires
                v == x * o,
                x >= 0x10_0000_0000_0000,
                o > 0,
        ;
    } else {
        if side == 0 {
            assert(s == 0) by (nonlinear_arith)
                requires
                    big * (s * scaled) <= 0,
                    big == 0x20_0000_0000_0000,
                    scaled >= 1,
                    s >= 0,
            ;
        }
        assert(v == 0) by (nonlinear_arith)
            requires
                v == (length * o) * s,
                length == 0 || s == 0,
        ;
    }
    lemma_times_error(F64::of_nat(length), scale);
    let y = r.value();
    assert(big * y <= big * x + x && big * x <= big * y + x) by (nonlinear_arith)
        requires
            big * (y * o) <= big * v + v,
            big * v <= big * (y * o) + v,
            v == x * o,
            o > 0,
    ;
    // In terms of the exact product.
    let e = length * d;
    let p = x * scaled;
    let q = y * scaled;
    assert(e == length * side * o) by (nonlinear_arith)
        requires
            e == length * d,
            d == side * o,
    ;
    assert(big * p <= big * e + e && big * e <= big * p + e) by (nonlinear_arith)
        requires
            big * (s * scaled) <= big * d + d,
            big * d <= big * (s * scaled) + d,
            p == x * scaled,
            x == length * s,
            e == length * d,
            length >= 0,
    ;
    assert(big * q <= big * p + p && big * p <= big * q + p) by (nonlinear_arith)
        requires
            big * y <= big * x + x,
            big * x <= big * y + x,
            p == x * scaled,
            q == y * scaled,
            scaled >= 0,
    ;
    assert(0 <= e <= 0x1_0000_0000 * t) by (nonlinear_arith)
        requires
            e == length * d,
            0 <= length <= scaled,
            0 <= d <= 0xffff_ffff * o,
            t == scaled * o,
            o > 0,
    ;
}

/// A place on the grid is moved by a whole number of pixels exactly.
pub proof fn lemma_grid_moved(a: F64, n: nat)
    requires
        on_grid(a),
        n <= u32::MAX,
    ensures
        a.spec_plus(F64::of_nat(n)).finite(),
        a.spec_plus(F64::of_nat(n)).value() == a.value() + n * one(),
{
    let m = choose|m: int| -0x8000_0000_0000 <= m <= 0x8000_0000_0000 && a.value()
        == #[trigger] (m * grain());
    lemma_pixel();
    let g = grain();
    let k = n * 0x1_0000;
    assert(n * (0x1_0000 * g) == k * g) by (nonlinear_arith)
        requires
            k == n * 0x1_0000,
    ;
    assert(m * g + k * g == (m + k) * g) by (nonlinear_arith);
    lemma_grid_number(m + k);
    lemma_of_nat(n);
    lemma_plus(a, F64::of_nat(n));
    lemma_exact_whole(a.spec_plus(F64::of_nat(n)), a.value() + n * one());
}

/// The sum of two places on the grid, moved by a whole number of pixels, is a number.
pub proof fn lemma_grid_end(a: F64, b: F64, n: nat)
    requires
        on_grid(a),
        on_grid(b),
        n <= u32::MAX,
    ensures
        is_number(a.value() + b.value() + n * one()),
{
    let m = choose|m: int| -0x8000_0000_0000 <= m <= 0x8000_0000_0000 && a.value()
        == #[trigger] (m * grain());
    let l = choose|m: int| -0x8000_0000_0000 <= m <= 0x8000_0000_0000 && b.value()
        == #[trigger] (m * grain());
    lemma_pixel();
    let g = grain();
    let k = n * 0x1_0000;
    assert(n * (0x1_0000 * g) == k * g) by (nonlinear_arith)
        requires
            k == n * 0x1_0000,
    ;
    assert(m * g + l * g + k * g == (m + l + k) * g) by (nonlinear_arith);
    lemma_grid_number(m + l + k);
}

/// Half of a number whose value is even is a number.
pub proof fn lemma_half(a: F64)
    requires
        a.finite(),
        a.value() % 2 == 0,
    ensures
        is_number(a.value() / 2),
{
    let f = Format::Double;
    let o = a.datum().mag as nat;
    let sig = significand(f, o);
    let k = places(f, o);
    let lead = f.lead();
    lemma2_to64();
    lemma_fundamental_div_mod(o as int, lead as int);
    let q = o / lead;
    assert(q <= 2046) by (nonlinear_arith)
        requires
            lead * q <= o,
            o < 2047 * lead,
            lead > 0,
    ;
    let m = if a.datum().neg {
        -(sig as int)
    } else {
        sig as int
    };
    if k == 0 {
        assert(sig * pow2(0) == sig) by (nonlinear_arith)
            requires
                pow2(0) == 1,
        ;
        lemma_shifted_is_number(a.value() / 2, 0);
        assert((a.value() / 2) * pow2(0) == a.value() / 2) by (nonlinear_arith)
            requires
                pow2(0) == 1,
        ;
    } else {
        let j = (k - 1) as nat;
        vstd::arithmetic::power2::lemma_pow2_unfold(k);
        let w = pow2(j);
        lemma_shifted_is_number(m, j);
        assert(a.value() == 2 * (m * w)) by (nonlinear_arith)
            requires
                a.value() == (if a.datum().neg {
                    -((sig * (2 * w)) as int)
                } else {
                    (sig * (2 * w)) as int
                }),
                m == (if a.datum().neg {
                    -(sig as int)
                } else {
                    sig as int
                }),
        ;
    }
}

/// A part of a number, given by a factor that is a fraction of a thousand up to one in a million.
pub proof fn lemma_part(h: F64, part: F64, share: int)
    requires
        h.finite(),
        part.finite(),
        h.value() >= grain(),
        0 < share,
        part.value() <= one(),
        (1000 * share - 1) * one() <= 1_000_000 * part.value() <= (1000 * share + 1) * one(),
    ensures
        h.spec_times(part).finite(),
        (share - 1) * h.value() < 1000 * h.spec_times(part).value(),
        1000 * h.spec_times(part).value() < (share + 1) * h.value(),
{
    let o = one();
    let x = h.value();
    let p = part.value();
    let t = h.spec_times(part);
    lemma_one_is_large();
    lemma_pixel();
    lemma_of_nat(0);
    assert(1_000_000 * p >= o * 999) by (nonlinear_arith)
        requires
            (1000 * share - 1) * o <= 1_000_000 * p,
            share >= 1,
            o > 0,
    ;
    assert(0 <= x * p <= x * o) by (nonlinear_arith)
        requires
            0 <= p <= o,
            x >= 0,
    ;
    assert(0 * o == 0);
    lemma_times(h, part);
    lemma_bounded(t, x * p, o, F64::of_nat(0), h);
    assert(x >= 0x1_0000_0000_0000_0000) by {
        lemma2_to64();
        lemma_pow2_strictly_increases(64, 1058);
    }
    assert(x * p >= 0x10_0000_0000_0000 * o) by (nonlinear_arith)
        requires
            x >= 0x1_0000_0000_0000_0000,
            1_000_000 * p >= o * 999,
            o > 0,
    ;
    lemma_times_error(h, part);
    let r = t.value();
    let big = 0x20_0000_0000_0000int;
    assert((share - 1) * x < 1000 * r) by (nonlinear_arith)
        requires
            big * (x * p) <= big * (r * o) + x * p,
            big == 0x20_0000_0000_0000,
            (1000 * share - 1) * o <= 1_000_000 * p,
            p <= o,
            x > 0,
            o > 0,
    ;
    assert(1000 * r < (share + 1) * x) by (nonlinear_arith)
        requires
            big * (r * o) <= big * (x * p) + x * p,
            big == 0x20_0000_0000_0000,
            1_000_000 * p <= (1000 * share + 1) * o,
            p <= o,
            x > 0,
            o > 0,
    ;
}

/// A fraction that is written by its bits.
pub proof fn lemma_fraction_bits(bits: u64, r: nat, j: nat)
    requires
        52 <= j <= 1074,
        0x10_0000_0000_0000 <= r < 0x20_0000_0000_0000,
        bits == (1074 - j) * 0x10_0000_0000_0000 + r,
    ensures
        (F64 { bits }).finite(),
        (F64 { bits }).value() * pow2(j) == r * one(),
{
    let k = (1074 - j) as nat;
    lemma_bits(bits, k, r);
    lemma_pow2_adds(j, k);
    let a = pow2(j);
    let b = pow2(k);
    assert((r * b) * a == r * (a * b)) by (nonlinear_arith);
}

/// A number that is not negative and neither tiny nor huge: zero, or between `2^-64` and `2^64`.
pub open spec fn is_ordinary(a: F64) -> bool {
    a.finite() && (a.value() == 0 || (one() <= 0x1_0000_0000_0000_0000 * a.value() && a.value()
        <= 0x1_0000_0000_0000_0000 * one()))
}

/// The ratio of two ordinary numbers, and its error.
pub proof fn lemma_scale(b: F64, c: F64)
    requires
        is_ordinary(b),
        is_ordinary(c),
        c.value() > 0,
    ensures
        ({
            let s = b.spec_over(c);
            let v = b.value() * one();
            let t = s.value() * c.value();
            &&& s.finite()
            &&& s.value() >= 0
            &&& 0x20_0000_0000_0000 * t <= 0x20_0000_0000_0000 * v + v
            &&& 0x20_0000_0000_0000 * v <= 0x20_0000_0000_0000 * t + v
        }),
{
    let o = one();
    let big = 0x1_0000_0000_0000_0000int;
    let wide = big * big;
    lemma_pow2_adds(64, 1010);
    lemma_pow2_adds(128, 1074);
    lemma_pow2_adds(64, 64);
    lemma_pow2_adds(118, 892);
    lemma2_to64();
    lemma_pow2_adds(64, 54);
    lemma2_to64_rest();
    lemma_pow2_pos(892);
    let least = pow2(1010) as int;
    assert(least >= 0x40_0000_0000_0000 * big) by (nonlinear_arith)
        requires
            least == pow2(118) * pow2(892),
            pow2(118) == big * 0x40_0000_0000_0000,
            pow2(892) >= 1,
    ;
    assert(o == big * least);
    lemma_of_nat(0);
    assert(0 * o == 0);
    lemma_shifted_is_number(1, 1202);
    let z = choose|z: F64| z.finite() && #[trigger] z.value() == 1 * pow2(1202);
    assert(z.value() == wide * o);
    let x = b.value();
    let y = c.value();
    assert(y >= least) by (nonlinear_arith)
        requires
            o <= big * y,
            o == big * least,
            big > 0,
    ;
    assert(x * o <= (wide * o) * y && x * o >= 0) by (nonlinear_arith)
        requires
            0 <= x <= big * o,
            o <= big * y,
            wide == big * big,
            o > 0,
            big > 0,
            y > 0,
    ;
    assert(0 * y == 0);
    lemma_over(b, c);
    lemma_bounded(b.spec_over(c), x * o, y, F64::of_nat(0), z);
    if x > 0 {
        assert(x >= least) by (nonlinear_arith)
            requires
                o <= big * x,
                o == big * least,
                big > 0,
        ;
        assert(x * o >= 0x10_0000_0000_0000 * y) by (nonlinear_arith)
            requires
                x >= 0x40_0000_0000_0000 * big,
                y <= big * o,
                big == 0x1_0000_0000_0000_0000,
                o > 0,
        ;
    }
    lemma_over_error(b, c);
}

/// A number, multiplied by the ratio of two others, is the number in proportion, up to one part in
/// `2^51`.
pub proof fn lemma_ratio(a: F64, b: F64, c: F64)
    requires
        is_ordinary(a),
        is_ordinary(b),
        is_ordinary(c),
        c.value() > 0,
    ensures
        ({
            let r = a.spec_times(b.spec_over(c));
            let v = a.value() * b.value();
            &&& r.finite()
            &&& r.value() >= 0
            &&& 0x8_0000_0000_0000 * (r.value() * c.value() - v) <= v
            &&& 0x8_0000_0000_0000 * (v - r.value() * c.value()) <= v
        }),
{
    let o = one();
    let big = 0x1_0000_0000_0000_0000int;
    let wide = big * big;
    let half = 0x20_0000_0000_0000int;
    let s = b.spec_over(c);
    let r = a.spec_times(s);
    lemma_scale(b, c);
    lemma_one_is_large();
    lemma_of_nat(0);
    assert(0 * o == 0);
    let x = a.value();
    let t = s.value();
    let y = c.value();
    let w = b.value();
    let v = x * t;
    lemma_pow2_adds(64, 1010);
    lemma_pow2_adds(300, 710);
    lemma_pow2_pos(710);
    lemma2_to64();
    lemma2_to64_rest();
    lemma_pow2_adds(64, 64);
    lemma_pow2_adds(128, 128);
    lemma_pow2_adds(256, 44);
    let least = pow2(1010) as int;
    let deep = wide * wide;
    assert(least >= deep) by (nonlinear_arith)
        requires
            least == pow2(300) * pow2(710),
            pow2(300) == deep * pow2(44),
            pow2(44) >= 1,
            pow2(710) >= 1,
            deep > 0,
    ;
    assert(o == big * least);
    // The product is not too large.
    assert(t <= 2 * (wide * o)) by (nonlinear_arith)
        requires
            half * (t * y) <= half * (w * o) + w * o,
            half == 0x20_0000_0000_0000,
            w <= big * o,
            o <= big * y,
            wide == big * big,
            w >= 0,
            y > 0,
            o > 0,
            big > 0,
    ;
    lemma_pow2_adds(200, 1074);
    lemma_pow2_adds(128, 72);
    lemma_pow2_adds(64, 8);
    lemma_shifted_is_number(1, 1274);
    let z = choose|z: F64| z.finite() && #[trigger] z.value() == 1 * pow2(1274);
    assert(z.value() == (wide * big * 256) * o);
    assert(0 <= v <= z.value() * o) by (nonlinear_arith)
        requires
            v == x * t,
            0 <= x <= big * o,
            0 <= t <= 2 * (wide * o),
            z.value() == (wide * big * 256) * o,
            o > 0,
            big > 0,
            wide > 0,
    ;
    lemma_times(a, s);
    lemma_bounded(r, v, o, F64::of_nat(0), z);
    if x > 0 && w > 0 {
        assert(x >= least && w >= least) by (nonlinear_arith)
            requires
                o <= big * x,
                o <= big * w,
                o == big * least,
                big > 0,
        ;
        assert(t >= 1 && 4 * big * big * t >= least) by (nonlinear_arith)
            requires
                half * (w * o) <= half * (t * y) + w * o,
                half == 0x20_0000_0000_0000,
                w >= least,
                y <= big * o,
                o == big * least,
                least >= big,
                big == 0x1_0000_0000_0000_0000,
                t >= 0,
                y > 0,
        ;
        assert(v >= 0x10_0000_0000_0000 * o) by (nonlinear_arith)
            requires
                v == x * t,
                x >= least,
                4 * big * big * t >= least,
                o == big * least,
                least >= deep,
                deep == wide * wide,
                wide == big * big,
                big == 0x1_0000_0000_0000_0000,
        ;
    } else {
        if w == 0 {
            assert(t == 0) by (nonlinear_arith)
                requires
                    half * (t * y) <= half * (w * o) + w * o,
                    half == 0x20_0000_0000_0000,
                    w == 0,
                    y > 0,
                    t >= 0,
            ;
        }
        assert(v == 0) by (nonlinear_arith)
            requires
                v == x * t,
                x == 0 || t == 0,
        ;
    }
    lemma_times_error(a, s);
    let u = r.value();
    // In terms of the exact product.
    let e = x * w;
    let p = v * y;
    let q = u * y;
    let ty = t * y;
    let wo = w * o;
    assert(p == x * ty && e * o == x * wo) by (nonlinear_arith)
        requires
            p == v * y,
            v == x * t,
            e == x * w,
            ty == t * y,
            wo == w * o,
    ;
    assert(x * (half * ty) <= x * (half * wo + wo) && x * (half * wo) <= x * (half * ty + wo))
        by (nonlinear_arith)
        requires
            half * ty <= half * wo + wo,
            half * wo <= half * ty + wo,
            x >= 0,
    ;
    assert(half * p <= half * (e * o) + e * o && half * (e * o) <= half * p + e * o)
        by (nonlinear_arith)
        requires
            x * (half * ty) <= x * (half * wo + wo),
            x * (half * wo) <= x * (half * ty + wo),
            p == x * ty,
            e * o == x * wo,
    ;
    assert(half * (q * o) <= half * p + p && half * p <= half * (q * o) + p) by (nonlinear_arith)
        requires
            half * (u * o) <= half * v + v,
            half * v <= half * (u * o) + v,
            p == v * y,
            q == u * y,
            y >= 0,
    ;
    assert(e >= 0) by (nonlinear_arith)
        requires
            e == x * w,
            x >= 0,
            w >= 0,
    ;
    let eo = e * o;
    let qo = q * o;
    assert(eo >= 0) by (nonlinear_arith)
        requires
            eo == e * o,
            e >= 0,
            o > 0,
    ;
    assert(0x8_0000_0000_0000 * (qo - eo) <= eo);
    assert(0x8_0000_0000_0000 * (eo - qo) <= eo);
    assert(0x8_0000_0000_0000 * (q - e) <= e && 0x8_0000_0000_0000 * (e - q) <= e)
        by (nonlinear_arith)
        requires
            0x8_0000_0000_0000 * (qo - eo) <= eo,
            0x8_0000_0000_0000 * (eo - qo) <= eo,
            qo == q * o,
            eo == e * o,
            o > 0,
    ;
}

/// The magnitude of a result is the magnitude of the exact one, up to rounding.
pub proof fn lemma_abs(r: F64, num: int)
    requires
        is_nearly(r, num, 1),
    ensures
        is_nearly(
            r.spec_abs(),
            if num < 0 {
                -num
            } else {
                num
            },
            1,
        ),
{
    let f = Format::Double;
    let d = r.datum();
    let a = Datum { neg: false, mag: d.mag };
    lemma_of_datum(a);
    let n = if num < 0 {
        -num
    } else {
        num
    };
    let zero = Datum { neg: false, mag: 0 };
    lemma_rank_is_value(f, zero, zero);
    assert(zero.value(f) * 1 == 0);
    assert forall|z: Datum| z.finite(f) && #[trigger] z.value(f) * 1 <= n implies z.rank()
        <= a.rank() by {
        if num < 0 {
            let y = Datum { neg: !z.neg, mag: z.mag };
            assert(y.value(f) * 1 >= num);
        } else {
            assert(z.value(f) * 1 <= num);
        }
    }
    assert forall|z: Datum| z.finite(f) && n <= #[trigger] z.value(f) * 1 implies a.rank()
        <= z.rank() by {
        if num < 0 {
            let y = Datum { neg: !z.neg, mag: z.mag };
            assert(y.value(f) * 1 <= num);
        } else {
            assert(num <= z.value(f) * 1);
        }
    }
}

/// The lesser and the greater of two numbers by their values.
pub proof fn lemma_min_max(a: F64, b: F64)
    requires
        a.finite(),
        b.finite(),
    ensures
        a.spec_min(b).finite(),
        a.spec_min(b).value() == (if a.value() < b.value() {
            a.value()
        } else {
            b.value()
        }),
        a.spec_max(b).finite(),
        a.spec_max(b).value() == (if a.value() < b.value() {
            b.value()
        } else {
            a.value()
        }),
{
    lemma_compare(a, b);
    lemma_compare(b, a);
}

/// Counts are ordinary numbers.
pub proof fn lemma_count_is_ordinary(n: nat)
    requires
        n <= u32::MAX,
    ensures
        is_ordinary(F64::of_nat(n)),
        F64::of_nat(n).value() == n * one(),
{
    lemma_of_nat(n);
    lemma_pow2_pos(1074);
    let o = one();
    let v = n * o;
    if n == 0 {
        assert(0 * o == 0);
    } else {
        assert(o <= 0x1_0000_0000_0000_0000 * v && v <= 0x1_0000_0000_0000_0000 * o)
            by (nonlinear_arith)
            requires
                v == n * o,
                1 <= n <= 0xffff_ffff,
                o > 0,
        ;
    }
}

/// A number, divided by the ratio of two others, is the number in the opposite proportion, up to
/// one part in `2^50`.
pub proof fn lemma_inverse_ratio(a: F64, b: nat, c: nat)
    requires
        is_ordinary(a),
        0 < b <= u32::MAX,
        0 < c <= u32::MAX,
    ensures
        ({
            let r = a.spec_over(F64::of_nat(b).spec_over(F64::of_nat(c)));
            let v = a.value() * c;
            &&& r.finite()
            &&& r.value() >= 0
            &&& 0x4_0000_0000_0000 * (r.value() * b - v) <= v
            &&& 0x4_0000_0000_0000 * (v - r.value() * b) <= v
        }),
{
    let o = one();
    let half = 0x20_0000_0000_0000int;
    let s = F64::of_nat(b).spec_over(F64::of_nat(c));
    lemma_count_is_ordinary(b);
    lemma_count_is_ordinary(c);
    lemma_pow2_pos(1074);
    assert(c * o > 0) by (nonlinear_arith)
        requires
            c >= 1,
            o > 0,
    ;
    lemma_scale(F64::of_nat(b), F64::of_nat(c));
    let t = s.value();
    let w = b * o;
    assert(half * (t * c) <= half * w + w && half * w <= half * (t * c) + w) by (nonlinear_arith)
        requires
            half * (t * (c * o)) <= half * (w * o) + w * o,
            half * (w * o) <= half * (t * (c * o)) + w * o,
            o > 0,
    ;
    assert(o <= 0x1_0000_0000_0000_0000 * t && t <= 0x1_0000_0000_0000_0000 * o && t > 0)
        by (nonlinear_arith)
        requires
            half * (t * c) <= half * w + w,
            half * w <= half * (t * c) + w,
            half == 0x20_0000_0000_0000,
            w == b * o,
            1 <= b <= 0xffff_ffff,
            1 <= c <= 0xffff_ffff,
            o > 0,
            t >= 0,
    ;
    assert(is_ordinary(s));
    lemma_scale(a, s);
    let r = a.spec_over(s);
    let u = r.value();
    let x = a.value();
    let p = (u * t) * c;
    let e = (x * c) * o;
    let q = (u * b) * o;
    assert(half * p <= half * e + e && half * e <= half * p + e) by (nonlinear_arith)
        requires
            half * (u * t) <= half * (x * o) + x * o,
            half * (x * o) <= half * (u * t) + x * o,
            p == (u * t) * c,
            e == (x * c) * o,
            c >= 0,
    ;
    assert(half * p <= half * q + q && half * q <= half * p + q) by (nonlinear_arith)
        requires
            half * (t * c) <= half * w + w,
            half * w <= half * (t * c) + w,
            p == (u * t) * c,
            q == (u * b) * o,
            w == b * o,
            u >= 0,
    ;
    assert(q >= 0) by (nonlinear_arith)
        requires
            q == (u * b) * o,
            u >= 0,
            b >= 0,
            o > 0,
    ;
    assert(e >= 0) by (nonlinear_arith)
        requires
            e == (x * c) * o,
            x >= 0,
            c >= 0,
            o > 0,
    ;
    assert(0x4_0000_0000_0000 * (q - e) <= e);
    assert(0x4_0000_0000_0000 * (e - q) <= e);
    let v = x * c;
    let k = u * b;
    assert(0x4_0000_0000_0000 * (k - v) <= v && 0x4_0000_0000_0000 * (v - k) <= v)
        by (nonlinear_arith)
        requires
            0x4_0000_0000_0000 * (q - e) <= e,
            0x4_0000_0000_0000 * (e - q) <= e,
            q == k * o,
            e == v * o,
            o > 0,
    ;
}

/// A place on the grid as a multiple of the grain.
pub proof fn lemma_on_grid(a: F64) -> (m: int)
    requires
        on_grid(a),
    ensures
        -0x8000_0000_0000 <= m <= 0x8000_0000_0000,
        a.value() == m * grain(),
{
    choose|m: int| -0x8000_0000_0000 <= m <= 0x8000_0000_0000 && a.value() == #[trigger] (m
        * grain())
}

/// Counts up to `2^31` lie on the grid.
pub proof fn lemma_count_on_grid(n: nat)
    requires
        n <= 0x8000_0000,
    ensures
        on_grid(F64::of_nat(n)),
        F64::of_nat(n).value() == n * one(),
{
    lemma_of_nat(n);
    lemma_pixel();
    let g = grain();
    let m = n * 0x1_0000;
    assert(n * (0x1_0000 * g) == m * g) by (nonlinear_arith)
        requires
            m == n * 0x1_0000,
    ;
    assert(F64::of_nat(n).value() == m * grain());
}

/// A difference of multiples of the grain is exact.
pub proof fn lemma_grain_difference(a: F64, b: F64, m: int, n: int)
    requires
        a.finite(),
        b.finite(),
        a.value() == m * grain(),
        b.value() == n * grain(),
        -0x20_0000_0000_0000 < m - n < 0x20_0000_0000_0000,
    ensures
        a.spec_minus(b).finite(),
        a.spec_minus(b).value() == (m - n) * grain(),
{
    let g = grain();
    assert(m * g - n * g == (m - n) * g) by (nonlinear_arith);
    lemma_grid_number(m - n);
    lemma_minus(a, b);
    lemma_exact_whole(a.spec_minus(b), a.value() - b.value());
}

/// A sum of multiples of the grain is exact.
pub proof fn lemma_grain_sum(a: F64, b: F64, m: int, n: int)
    requires
        a.finite(),
        b.finite(),
        a.value() == m * grain(),
        b.value() == n * grain(),
        -0x20_0000_0000_0000 < m + n < 0x20_0000_0000_0000,
    ensures
        a.spec_plus(b).finite(),
        a.spec_plus(b).value() == (m + n) * grain(),
{
    let g = grain();
    assert(m * g + n * g == (m + n) * g) by (nonlinear_arith);
    lemma_grid_number(m + n);
    lemma_plus(a, b);
    lemma_exact_whole(a.spec_plus(b), a.value() + b.value());
}

/// Cutting a number that is not negative gives its whole part.
pub proof fn lemma_trunc(r: F64)
    requires
        r.finite(),
        0 <= r.value() < 0x8000_0000 * one(),
    ensures
        r.spec_trunc_i32() >= 0,
        r.spec_trunc_i32() * one() <= r.value(),
        r.value() < r.spec_trunc_i32() * one() + one(),
{
    reveal(whole_part);
    let f = Format::Double;
    let d = r.datum();
    let p = one();
    lemma_pow2_pos(1074);
    lemma_rank_is_value(f, d, d);
    let u = r.value();
    let n = whole_part(f, d.mag as nat) as int;
    lemma_fundamental_div_mod(units(f, d.mag as nat) as int, p);
    if d.neg {
        assert(u == 0);
        assert(n == 0) by (nonlinear_arith)
            requires
                p * n <= 0,
                p > 0,
                n >= 0,
        ;
        assert(0 * p == 0);
    } else {
        let rest = u % p;
        assert(p * n == n * p) by (nonlinear_arith);
        assert(n < 0x8000_0000) by (nonlinear_arith)
            requires
                p * n <= u,
                u < 0x8000_0000 * p,
                p > 0,
        ;
    }
}

/// A sum of numbers that are not negative is off by one part in `2^53` at most.
pub proof fn lemma_plus_error(a: F64, b: F64)
    requires
        a.finite(),
        b.finite(),
        a.value() >= 0,
        b.value() >= 0,
        a.spec_plus(b).finite(),
    ensures
        ({
            let r = a.spec_plus(b).value();
            let v = a.value() + b.value();
            &&& r >= 0
            &&& 0x20_0000_0000_0000 * r <= 0x20_0000_0000_0000 * v + v
            &&& 0x20_0000_0000_0000 * v <= 0x20_0000_0000_0000 * r + v
        }),
{
    reveal(sum_of);
    let f = Format::Double;
    let v = a.value() + b.value();
    lemma_sum_data(f, a.datum(), b.datum());
    lemma_of_datum(sum_of(f, a.datum(), b.datum()));
    lemma_plus(a, b);
    if v < 0x10_0000_0000_0000 {
        lemma_shifted_is_number(v, 0);
        lemma2_to64();
        assert(v * pow2(0) == v) by (nonlinear_arith)
            requires
                pow2(0) == 1,
        ;
        lemma_exact_whole(a.spec_plus(b), v);
    } else {
        assert(v as nat >= 1 * f.lead());
        lemma_rounding_error(f, v as nat, 1);
    }
}

impl F32 {
    /// Neither infinite nor no number.
    pub open spec fn finite(self) -> bool {
        self.datum().finite(Format::Single)
    }

    /// The value of a finite number, in units of the least positive one.
    pub open spec fn value(self) -> int {
        self.datum().value(Format::Single)
    }
}

/// The value of one among the 32-bit numbers.
pub open spec fn one_single() -> int {
    pow2(149) as int
}

/// `r` is `num / den` up to rounding to a 32-bit number: no such number lies between the two.
pub open spec fn is_nearly_single(r: F32, num: int, den: int) -> bool {
    stands_for(Format::Single, r.datum(), num, den)
}

/// Numbers are compared by their values.
pub proof fn lemma_compare_single(a: F32, b: F32)
    requires
        a.finite(),
        b.finite(),
    ensures
        a.spec_less(b) <==> a.value() < b.value(),
        a.spec_at_most(b) <==> a.value() <= b.value(),
{
    lemma_rank_is_value(Format::Single, a.datum(), b.datum());
}

/// A number that is written by its bits.
pub proof fn lemma_bits_single(bits: u32, k: nat, r: nat)
    requires
        bits == k * 0x80_0000 + r,
        0x80_0000 <= r < 0x100_0000,
        k < 254,
    ensures
        (F32 { bits }).finite(),
        (F32 { bits }).value() == r * pow2(k),
{
    lemma_units_of(Format::Single, k, r);
}

proof fn lemma_of_datum_single(d: Datum)
    requires
        d.mag < 0x8000_0000,
    ensures
        F32::of(d).datum() == d,
{
}

/// The exact sum, up to rounding.
pub proof fn lemma_plus_single(a: F32, b: F32)
    requires
        a.finite(),
        b.finite(),
    ensures
        is_nearly_single(a.spec_plus(b), a.value() + b.value(), 1),
{
    let f = Format::Single;
    lemma_sum_data(f, a.datum(), b.datum());
    lemma_of_datum_single(sum_of(f, a.datum(), b.datum()));
}

/// The exact difference, up to rounding.
pub proof fn lemma_minus_single(a: F32, b: F32)
    requires
        a.finite(),
        b.finite(),
    ensures
        is_nearly_single(a.spec_minus(b), a.value() - b.value(), 1),
{
    lemma_of_datum_single(Datum { neg: !b.datum().neg, mag: b.datum().mag });
    lemma_plus_single(a, b.spec_negated());
}

/// The exact product, up to rounding.
pub proof fn lemma_times_single(a: F32, b: F32)
    requires
        a.finite(),
        b.finite(),
    ensures
        is_nearly_single(a.spec_times(b), a.value() * b.value(), one_single()),
{
    let f = Format::Single;
    lemma_product_data(f, a.datum(), b.datum());
    lemma_of_datum_single(product_of(f, a.datum(), b.datum()));
}

/// The exact quotient, up to rounding.
pub proof fn lemma_over_single(a: F32, b: F32)
    requires
        a.finite(),
        b.finite(),
        b.value() > 0,
    ensures
        is_nearly_single(a.spec_over(b), a.value() * one_single(), b.value()),
{
    let f = Format::Single;
    lemma_quotient_data(f, a.datum(), b.datum());
    lemma_of_datum_single(quotient_of(f, a.datum(), b.datum()));
}

/// A result that is a number is not rounded.
pub proof fn lemma_exact_single(r: F32, num: int, den: int, z: F32)
    requires
        is_nearly_single(r, num, den),
        z.finite(),
        z.value() * den == num,
    ensures
        r.finite(),
        r.value() == z.value(),
{
    let f = Format::Single;
    assert(z.datum().value(f) * den <= num);
    assert(r.datum().rank() == z.datum().rank());
    assert(r.datum().mag == z.datum().mag);
    lemma_rank_is_value(f, r.datum(), z.datum());
}

/// Results are compared with numbers as the exact ones are.
pub proof fn lemma_compare_nearly_single(r: F32, num: int, den: int, z: F32)
    requires
        is_nearly_single(r, num, den),
        z.finite(),
    ensures
        z.value() * den <= num ==> z.spec_at_most(r) && !r.spec_less(z),
        num <= z.value() * den ==> r.spec_at_most(z) && !z.spec_less(r),
{
    let d = z.datum();
    assert(d.value(Format::Single) == z.value());
}

/// A significand of 24 digits, shifted, is the value of a number.
pub proof fn lemma_shifted_single(m: int, s: nat) -> (z: F32)
    requires
        -0x100_0000 < m < 0x100_0000,
        s <= 252,
    ensures
        z.finite(),
        z.value() == m * pow2(s),
{
    let f = Format::Single;
    let n = magnitude_of(m);
    let u = n * pow2(s);
    let lead = f.lead();
    let k = excess(f, u);
    lemma_pow2_pos(s);
    lemma_excess_range(f, u);
    let ws = pow2(s);
    assert(u < 2 * lead * ws) by (nonlinear_arith)
        requires
            u == n * ws,
            n < 2 * lead,
            ws > 0,
    ;
    if k > s {
        if k > s + 1 {
            lemma_pow2_strictly_increases(s + 1, k);
        }
        vstd::arithmetic::power2::lemma_pow2_unfold(s + 1);
        let wk = pow2(k);
        assert(false) by (nonlinear_arith)
            requires
                u < 2 * lead * ws,
                lead * wk <= u,
                wk >= 2 * ws,
                lead > 0,
        ;
    }
    let j = (s - k) as nat;
    lemma_pow2_adds(j, k);
    let w = pow2(k);
    lemma_pow2_pos(k);
    let r = n * pow2(j);
    assert(u == r * w + 0) by (nonlinear_arith)
        requires
            u == n * ws,
            ws == pow2(j) * w,
            r == n * pow2(j),
    ;
    assert(r < 2 * lead) by (nonlinear_arith)
        requires
            r * w < 2 * lead * w,
            w > 0,
    ;
    if k > 0 {
        assert(r >= lead) by (nonlinear_arith)
            requires
                r * w >= lead * w,
                w > 0,
        ;
    }
    lemma_units_of(f, k, r);
    let o = k * lead + r;
    assert(o < 254 * lead) by (nonlinear_arith)
        requires
            o == k * lead + r,
            k <= 252,
            r < 2 * lead,
            lead > 0,
    ;
    let d = Datum { neg: m < 0, mag: o as u64 };
    let z = F32::of(d);
    lemma_of_datum_single(d);
    assert(m * ws == (if m < 0 {
        -((n * ws) as int)
    } else {
        (n * ws) as int
    })) by (nonlinear_arith)
        requires
            n as int == (if m < 0 {
                -m
            } else {
                m
            }),
    ;
    z
}

/// Whole numbers of 24 digits are numbers.
pub proof fn lemma_of_nat_single(n: nat)
    requires
        n < 0x100_0000,
    ensures
        F32::of_nat(n).finite(),
        F32::of_nat(n).value() == n * one_single(),
        !F32::of_nat(n).datum().neg,
{
    reveal(of_whole);
    let f = Format::Single;
    let p = pow2(f.unit());
    lemma_rounding_keeps_sides(f, false, n * p, 1);
    lemma_of_datum_single(of_whole(f, n));
    let z = lemma_shifted_single(n as int, 149);
    assert(z.value() * 1 == n * one_single());
    lemma_exact_single(F32::of_nat(n), n * one_single(), 1, z);
}

/// A result is finite where it does not exceed a number.
pub proof fn lemma_bounded_single(r: F32, num: int, den: int, low: F32, high: F32)
    requires
        is_nearly_single(r, num, den),
        low.finite(),
        high.finite(),
        low.value() * den <= num <= high.value() * den,
    ensures
        r.finite(),
        low.value() <= r.value() <= high.value(),
{
    lemma_compare_nearly_single(r, num, den, low);
    lemma_compare_nearly_single(r, num, den, high);
    assert(r.finite());
    lemma_compare_single(r, high);
    lemma_compare_single(low, r);
}

/// A product of numbers that are not negative is off by one part in `2^24` at most.
pub proof fn lemma_times_error_single(a: F32, b: F32)
    requires
        a.finite(),
        b.finite(),
        a.value() >= 0,
        b.value() >= 0,
        a.value() * b.value() >= 0x80_0000 * one_single() || a.value() * b.value() == 0,
        a.spec_times(b).finite(),
    ensures
        ({
            let r = a.spec_times(b).value();
            let v = a.value() * b.value();
            &&& r >= 0
            &&& 0x100_0000 * (r * one_single()) <= 0x100_0000 * v + v
            &&& 0x100_0000 * v <= 0x100_0000 * (r * one_single()) + v
        }),
{
    reveal(product_of);
    let f = Format::Single;
    let x = a.datum();
    let y = b.datum();
    let ua = units(f, x.mag as nat);
    let ub = units(f, y.mag as nat);
    let p = pow2(149);
    lemma_pow2_pos(149);
    lemma_rank_is_value(f, x, x);
    lemma_rank_is_value(f, y, y);
    assert(a.value() == ua && b.value() == ub);
    lemma_of_datum_single(product_of(f, x, y));
    let num = ua * ub;
    if num == 0 {
        lemma_times_single(a, b);
        lemma_zero_single(a.spec_times(b), one_single());
    } else {
        assert(ua > 0 && ub > 0) by (nonlinear_arith)
            requires
                ua * ub > 0,
                ua >= 0,
                ub >= 0,
        ;
        assert(num >= p * f.lead()) by (nonlinear_arith)
            requires
                num >= 0x80_0000 * p,
                f.lead() == 0x80_0000,
        ;
        lemma_rounding_error(f, num, p);
    }
}

/// A quotient of numbers that are not negative is off by one part in `2^24` at most.
pub proof fn lemma_over_error_single(a: F32, b: F32)
    requires
        a.finite(),
        b.finite(),
        a.value() >= 0,
        b.value() > 0,
        a.value() * one_single() >= 0x80_0000 * b.value() || a.value() == 0,
        a.spec_over(b).finite(),
    ensures
        ({
            let r = a.spec_over(b).value();
            let v = a.value() * one_single();
            &&& r >= 0
            &&& 0x100_0000 * (r * b.value()) <= 0x100_0000 * v + v
            &&& 0x100_0000 * v <= 0x100_0000 * (r * b.value()) + v
        }),
{
    reveal(quotient_of);
    let f = Format::Single;
    let x = a.datum();
    let y = b.datum();
    let ua = units(f, x.mag as nat);
    let ub = units(f, y.mag as nat);
    let p = pow2(149);
    lemma_pow2_pos(149);
    lemma_rank_is_value(f, x, x);
    lemma_rank_is_value(f, y, y);
    assert(a.value() == ua && b.value() == ub);
    lemma_of_datum_single(quotient_of(f, x, y));
    let num = ua * p;
    if ua == 0 {
        assert(0 * p == 0);
        lemma_over_single(a, b);
        lemma_zero_single(a.spec_over(b), b.value());
    } else {
        assert(num >= ub * f.lead()) by (nonlinear_arith)
            requires
                num >= 0x80_0000 * ub,
                f.lead() == 0x80_0000,
        ;
        lemma_rounding_error(f, num, ub);
    }
}

/// A result of zero is exact.
proof fn lemma_zero_single(r: F32, den: int)
    requires
        is_nearly_single(r, 0, den),
    ensures
        r.finite(),
        r.value() == 0,
        r.value() * den == 0,
        r.value() * one_single() == 0,
{
    let z = F32 { bits: 0 };
    lemma_rank_is_value(Format::Single, z.datum(), z.datum());
    assert(z.value() == 0);
    assert(0 * den == 0);
    lemma_exact_single(r, 0, den, z);
    assert(0 * one_single() == 0);
}

/// A number that is not negative and neither tiny nor huge: zero, or between `2^-32` and `2^32`.
pub open spec fn is_ordinary_single(a: F32) -> bool {
    a.finite() && (a.value() == 0 || (one_single() <= 0x1_0000_0000 * a.value() && a.value()
        <= 0x1_0000_0000 * one_single()))
}

/// Counts of 24 digits are ordinary numbers.
pub proof fn lemma_count_is_ordinary_single(n: nat)
    requires
        n < 0x100_0000,
    ensures
        is_ordinary_single(F32::of_nat(n)),
        F32::of_nat(n).value() == n * one_single(),
{
    lemma_of_nat_single(n);
    lemma_pow2_pos(149);
    let o = one_single();
    let v = n * o;
    if n == 0 {
        assert(0 * o == 0);
    } else {
        assert(o <= 0x1_0000_0000 * v && v <= 0x1_0000_0000 * o) by (nonlinear_arith)
            requires
                v == n * o,
                1 <= n <= 0x100_0000,
                o > 0,
        ;
    }
}

/// The ratio of two ordinary numbers, and its error.
pub proof fn lemma_scale_single(b: F32, c: F32)
    requires
        is_ordinary_single(b),
        is_ordinary_single(c),
        c.value() > 0,
    ensures
        ({
            let s = b.spec_over(c);
            let v = b.value() * one_single();
            let t = s.value() * c.value();
            &&& s.finite()
            &&& s.value() >= 0
            &&& 0x100_0000 * t <= 0x100_0000 * v + v
            &&& 0x100_0000 * v <= 0x100_0000 * t + v
        }),
{
    let o = one_single();
    let big = 0x1_0000_0000int;
    let wide = 0x1_0000_0000_0000_0000int;
    lemma_pow2_adds(32, 117);
    lemma_pow2_adds(64, 149);
    lemma_pow2_adds(64, 53);
    lemma2_to64();
    lemma2_to64_rest();
    let least = pow2(117) as int;
    assert(o == big * least);
    lemma_of_nat_single(0);
    assert(0 * o == 0);
    let z = lemma_shifted_single(1, 213);
    assert(z.value() == wide * o);
    let x = b.value();
    let y = c.value();
    assert(y >= least) by (nonlinear_arith)
        requires
            o <= big * y,
            o == big * least,
            big > 0,
    ;
    assert(x * o <= (wide * o) * y && x * o >= 0) by (nonlinear_arith)
        requires
            0 <= x <= big * o,
            o <= big * y,
            wide == big * big,
            big == 0x1_0000_0000,
            o > 0,
            y > 0,
    ;
    assert(0 * y == 0);
    lemma_over_single(b, c);
    lemma_bounded_single(b.spec_over(c), x * o, y, F32::of_nat(0), z);
    if x > 0 {
        assert(x >= least) by (nonlinear_arith)
            requires
                o <= big * x,
                o == big * least,
                big > 0,
        ;
        assert(x * o >= 0x80_0000 * y) by (nonlinear_arith)
            requires
                x >= least,
                least == wide * 0x20_0000_0000_0000,
                wide == 0x1_0000_0000_0000_0000,
                y <= big * o,
                big == 0x1_0000_0000,
                o > 0,
        ;
    }
    lemma_over_error_single(b, c);
}

/// A number, multiplied by the ratio of two others, is the number in proportion, up to one part in
/// `2^22`.
pub proof fn lemma_ratio_single(a: F32, b: F32, c: F32)
    requires
        is_ordinary_single(a),
        is_ordinary_single(b),
        is_ordinary_single(c),
        c.value() > 0,
    ensures
        ({
            let r = a.spec_times(b.spec_over(c));
            let v = a.value() * b.value();
            &&& r.finite()
            &&& r.value() >= 0
            &&& 0x40_0000 * (r.value() * c.value() - v) <= v
            &&& 0x40_0000 * (v - r.value() * c.value()) <= v
        }),
{
    let o = one_single();
    let big = 0x1_0000_0000int;
    let wide = 0x1_0000_0000_0000_0000int;
    let half = 0x100_0000int;
    let s = b.spec_over(c);
    let r = a.spec_times(s);
    lemma_scale_single(b, c);
    lemma_of_nat_single(0);
    assert(0 * o == 0);
    let x = a.value();
    let t = s.value();
    let y = c.value();
    let w = b.value();
    let v = x * t;
    lemma_pow2_adds(32, 117);
    lemma_pow2_adds(64, 53);
    lemma2_to64();
    lemma2_to64_rest();
    let least = pow2(117) as int;
    assert(o == big * least);
    assert(t <= 2 * (wide * o)) by (nonlinear_arith)
        requires
            half * (t * y) <= half * (w * o) + w * o,
            half == 0x100_0000,
            w <= big * o,
            o <= big * y,
            wide == big * big,
            big == 0x1_0000_0000,
            w >= 0,
            y > 0,
            o > 0,
    ;
    lemma_pow2_adds(100, 149);
    lemma_pow2_adds(64, 36);
    let z = lemma_shifted_single(1, 249);
    assert(z.value() == (wide * 0x10_0000_0000) * o);
    assert(0 <= v <= z.value() * o) by (nonlinear_arith)
        requires
            v == x * t,
            0 <= x <= big * o,
            0 <= t <= 2 * (wide * o),
            z.value() == (wide * 0x10_0000_0000) * o,
            big == 0x1_0000_0000,
            wide > 0,
            o > 0,
    ;
    lemma_times_single(a, s);
    lemma_bounded_single(r, v, o, F32::of_nat(0), z);
    if x > 0 && w > 0 {
        assert(x >= least && w >= least) by (nonlinear_arith)
            requires
                o <= big * x,
                o <= big * w,
                o == big * least,
                big > 0,
        ;
        assert(4 * big * t >= least) by (nonlinear_arith)
            requires
                half * (w * o) <= half * (t * y) + w * o,
                half == 0x100_0000,
                w >= least,
                y <= big * o,
                o > 0,
                big == 0x1_0000_0000,
                t >= 0,
                least > 0,
                y > 0,
        ;
        assert(v >= 0x80_0000 * o) by (nonlinear_arith)
            requires
                v == x * t,
                x >= least,
                4 * big * t >= least,
                o == big * least,
                least == wide * 0x20_0000_0000_0000,
                wide == 0x1_0000_0000_0000_0000,
                big == 0x1_0000_0000,
        ;
    } else {
        if w == 0 {
            assert(t == 0) by (nonlinear_arith)
                requires
                    half * (t * y) <= half * (w * o) + w * o,
                    half == 0x100_0000,
                    w == 0,
                    y > 0,
                    t >= 0,
            ;
        }
        assert(v == 0) by (nonlinear_arith)
            requires
                v == x * t,
                x == 0 || t == 0,
        ;
    }
    lemma_times_error_single(a, s);
    let u = r.value();
    let e = x * w;
    let p = v * y;
    let q = u * y;
    let ty = t * y;
    let wo = w * o;
    assert(p == x * ty && e * o == x * wo) by (nonlinear_arith)
        requires
            p == v * y,
            v == x * t,
            e == x * w,
            ty == t * y,
            wo == w * o,
    ;
    assert(x * (half * ty) <= x * (half * wo + wo) && x * (half * wo) <= x * (half * ty + wo))
        by (nonlinear_arith)
        requires
            half * ty <= half * wo + wo,
            half * wo <= half * ty + wo,
            x >= 0,
    ;
    assert(half * p <= half * (e * o) + e * o && half * (e * o) <= half * p + e * o)
        by (nonlinear_arith)
        requires
            x * (half * ty) <= x * (half * wo + wo),
            x * (half * wo) <= x * (half * ty + wo),
            p == x * ty,
            e * o == x * wo,
    ;
    assert(half * (q * o) <= half * p + p && half * p <= half * (q * o) + p) by (nonlinear_arith)
        requires
            half * (u * o) <= half * v + v,
            half * v <= half * (u * o) + v,
            p == v * y,
            q == u * y,
            y >= 0,
    ;
    assert(e >= 0) by (nonlinear_arith)
        requires
            e == x * w,
            x >= 0,
            w >= 0,
    ;
    let eo = e * o;
    let qo = q * o;
    assert(eo >= 0) by (nonlinear_arith)
        requires
            eo == e * o,
            e >= 0,
            o > 0,
    ;
    assert(0x40_0000 * (qo - eo) <= eo);
    assert(0x40_0000 * (eo - qo) <= eo);
    assert(0x40_0000 * (q - e) <= e && 0x40_0000 * (e - q) <= e) by (nonlinear_arith)
        requires
            0x40_0000 * (qo - eo) <= eo,
            0x40_0000 * (eo - qo) <= eo,
            qo == q * o,
            eo == e * o,
            o > 0,
    ;
}

/// Rounding to a whole number is off by one half at most.
pub proof fn lemma_round_single(r: F32)
    requires
        r.finite(),
        0 <= r.value(),
        2 * r.value() + one_single() < 0x2_0000_0000 * one_single(),
    ensures
        2 * (r.spec_round_u32() * one_single()) <= 2 * r.value() + one_single(),
        2 * r.value() + one_single() < 2 * (r.spec_round_u32() * one_single()) + 2 * one_single(),
{
    reveal(nearest_whole);
    let f = Format::Single;
    let d = r.datum();
    let p = one_single();
    lemma_pow2_pos(149);
    lemma_rank_is_value(f, d, d);
    if d.neg {
        assert(d.mag == 0);
        assert(0 * p == 0);
    } else {
        let u = r.value();
        let n = nearest_whole(f, d.mag as nat) as int;
        lemma_fundamental_div_mod(2 * u + p, 2 * p);
        let rest = (2 * u + p) % (2 * p);
        assert((2 * p) * n == 2 * (n * p)) by (nonlinear_arith);
        assert(n <= 0xffff_ffff) by (nonlinear_arith)
            requires
                2 * (n * p) <= 2 * u + p,
                2 * u + p < 0x2_0000_0000 * p,
                p > 0,
        ;
    }
}

/// A whole number that is written by its bits.
pub proof fn lemma_whole_bits_single(bits: u32, n: nat, j: nat)
    requires
        j <= 23,
        0x80_0000 <= n * pow2(j) < 0x100_0000,
        bits == (149 - j) * 0x80_0000 + n * pow2(j),
    ensures
        (F32 { bits }).finite(),
        (F32 { bits }).value() == n * one_single(),
{
    let k = (149 - j) as nat;
    lemma_bits_single(bits, k, n * pow2(j));
    lemma_pow2_adds(j, k);
    let a = pow2(j);
    let b = pow2(k);
    assert((n * a) * b == n * (a * b)) by (nonlinear_arith);
}

/// The lesser and the greater of two numbers by their values.
pub proof fn lemma_min_max_single(a: F32, b: F32)
    requires
        a.finite(),
        b.finite(),
    ensures
        a.spec_min(b).finite(),
        a.spec_min(b).value() == (if a.value() < b.value() {
            a.value()
        } else {
            b.value()
        }),
        a.spec_max(b).finite(),
        a.spec_max(b).value() == (if a.value() < b.value() {
            b.value()
        } else {
            a.value()
        }),
        a.spec_min(b) == a || a.spec_min(b) == b,
        a.spec_max(b) == a || a.spec_max(b) == b,
{
    lemma_compare_single(a, b);
    lemma_compare_single(b, a);
}

/// Numbers of one value above zero are the same.
pub proof fn lemma_same(a: F64, b: F64)
    requires
        a.finite(),
        b.finite(),
        a.value() == b.value(),
        a.value() > 0,
    ensures
        a == b,
{
    lemma_rank_is_value(Format::Double, a.datum(), b.datum());
}

/// Numbers of one value above zero are the same.
pub proof fn lemma_same_single(a: F32, b: F32)
    requires
        a.finite(),
        b.finite(),
        a.value() == b.value(),
        a.value() > 0,
    ensures
        a == b,
{
    lemma_rank_is_value(Format::Single, a.datum(), b.datum());
}

} // verus!
