//! Floating-point data and the operations on them, for either format.
//!
//! A datum is a sign and the ordinal of a magnitude. The operations are those of
//! the standard: the exact result, rounded once to the nearest value, ties to
//! even.

use vstd::prelude::*;
use vstd::arithmetic::div_mod::{lemma_fundamental_div_mod, lemma_fundamental_div_mod_converse};
use vstd::arithmetic::power2::{
    pow2, lemma_pow2_adds, lemma_pow2_pos, lemma_pow2_strictly_increases, lemma_pow2_unfold,
    lemma2_to64, lemma2_to64_rest,
};
use crate::rounding::{Format, power_of_two, round_held, bit_length};
use crate::rounding::{places, rounded_magnitude, significand, units};

verus! {

/// A floating-point datum: its sign, and its exponent and fraction fields read as
/// one integer.
#[derive(Clone, Copy, Debug, PartialEq, Eq, Structural)]
pub struct Datum {
    pub neg: bool,
    pub mag: u64,
}

impl Datum {
    pub open spec fn nan(self, f: Format) -> bool {
        self.mag > f.infinity()
    }

    pub open spec fn infinite(self, f: Format) -> bool {
        self.mag == f.infinity()
    }

    pub open spec fn finite(self, f: Format) -> bool {
        self.mag < f.infinity()
    }

    /// The value of a finite datum, in units of the least positive value.
    pub open spec fn value(self, f: Format) -> int {
        if self.neg {
            -(units(f, self.mag as nat) as int)
        } else {
            units(f, self.mag as nat) as int
        }
    }

    /// Where a datum that is a number stands among the numbers. The two zeros
    /// stand at one place.
    pub open spec fn rank(self) -> int {
        if self.neg {
            -(self.mag as int)
        } else {
            self.mag as int
        }
    }
}

/// The datum that stands for an operation without a result.
pub open spec fn not_a_number(f: Format) -> Datum {
    Datum { neg: false, mag: (f.infinity() + f.lead() / 2) as u64 }
}

/// The datum that a nonzero value or quotient is rounded to.
pub open spec fn rounded_datum(f: Format, neg: bool, num: nat, den: nat) -> Datum {
    Datum { neg, mag: rounded_magnitude(f, num, den) as u64 }
}

pub open spec fn magnitude_of(v: int) -> nat {
    if v < 0 {
        (-v) as nat
    } else {
        v as nat
    }
}

/// `a + b`.
#[verifier::opaque]
pub open spec fn sum_of(f: Format, a: Datum, b: Datum) -> Datum {
    if a.nan(f) || b.nan(f) || (a.infinite(f) && b.infinite(f) && a.neg != b.neg) {
        not_a_number(f)
    } else if a.infinite(f) {
        a
    } else if b.infinite(f) {
        b
    } else {
        let v = a.value(f) + b.value(f);
        if v == 0 {
            Datum { neg: a.neg && b.neg, mag: 0 }
        } else {
            rounded_datum(f, v < 0, magnitude_of(v), 1)
        }
    }
}

/// `a * b`.
#[verifier::opaque]
pub open spec fn product_of(f: Format, a: Datum, b: Datum) -> Datum {
    if a.nan(f) || b.nan(f) || (a.infinite(f) && b.mag == 0) || (b.infinite(f) && a.mag == 0) {
        not_a_number(f)
    } else if a.infinite(f) || b.infinite(f) {
        Datum { neg: a.neg != b.neg, mag: f.infinity() as u64 }
    } else {
        rounded_datum(
            f,
            a.neg != b.neg,
            units(f, a.mag as nat) * units(f, b.mag as nat),
            pow2(f.unit()),
        )
    }
}

/// `a / b`.
#[verifier::opaque]
pub open spec fn quotient_of(f: Format, a: Datum, b: Datum) -> Datum {
    if a.nan(f) || b.nan(f) || (a.infinite(f) && b.infinite(f)) || (a.mag == 0 && b.mag == 0) {
        not_a_number(f)
    } else if a.infinite(f) || b.mag == 0 {
        Datum { neg: a.neg != b.neg, mag: f.infinity() as u64 }
    } else if b.infinite(f) {
        Datum { neg: a.neg != b.neg, mag: 0 }
    } else {
        rounded_datum(
            f,
            a.neg != b.neg,
            units(f, a.mag as nat) * pow2(f.unit()),
            units(f, b.mag as nat),
        )
    }
}

/// The datum nearest to the whole number `n`.
#[verifier::opaque]
pub open spec fn of_whole(f: Format, n: nat) -> Datum {
    rounded_datum(f, false, n * pow2(f.unit()), 1)
}

/// `a < b`: false wherever one of them is not a number.
pub open spec fn below(f: Format, a: Datum, b: Datum) -> bool {
    !a.nan(f) && !b.nan(f) && a.rank() < b.rank()
}

/// The whole number nearest to a magnitude, halves going away from zero.
#[verifier::opaque]
pub open spec fn nearest_whole(f: Format, ordinal: nat) -> nat {
    (2 * units(f, ordinal) + pow2(f.unit())) / (2 * pow2(f.unit()))
}

/// The whole part of a magnitude.
#[verifier::opaque]
pub open spec fn whole_part(f: Format, ordinal: nat) -> nat {
    units(f, ordinal) / pow2(f.unit())
}

/// A finite magnitude as a significand and the places it is shifted by.
struct Split {
    sig: u64,
    places: u32,
}

fn split(f: Format, ordinal: u64) -> (s: Split)
    requires
        ordinal < f.infinity(),
    ensures
        s.sig == significand(f, ordinal as nat),
        s.places == places(f, ordinal as nat),
        units(f, ordinal as nat) == s.sig * pow2(s.places as nat),
        s.sig < 2 * f.lead(),
        s.places <= 2045,
        s.places > 0 ==> s.sig >= f.lead(),
        s.sig == 0 <==> ordinal == 0,
{
    let lead: u64 = f.lead_bits();
    if ordinal < lead {
        Split { sig: ordinal, places: 0 }
    } else {
        proof {
            let q = ordinal as nat / f.lead();
            lemma_fundamental_div_mod(ordinal as int, f.lead() as int);
            assert(1 <= q <= 2046) by (nonlinear_arith)
                requires
                    f.lead() * q <= ordinal,
                    ordinal - f.lead() < f.lead() * q,
                    f.lead() <= ordinal,
                    (f.lead() == 0x10_0000_0000_0000 && ordinal < 0x7ff0_0000_0000_0000)
                        || (f.lead() == 0x80_0000 && ordinal < 0x7f80_0000),
            ;
        }
        Split { sig: lead + ordinal % lead, places: (ordinal / lead - 1) as u32 }
    }
}

fn make_nan(f: Format) -> (d: Datum)
    ensures
        d == not_a_number(f),
{
    Datum { neg: false, mag: f.infinity_bits() + f.lead_bits() / 2 }
}

/// Rounds a whole multiple of `2^shift` units.
fn round_scaled(f: Format, neg: bool, sig: u128, shift: u32, Ghost(num): Ghost<nat>) -> (d: Datum)
    requires
        num == sig * pow2(shift as nat),
        sig < 0x8000_0000_0000_0000_0000_0000_0000_0000u128,
        shift <= 4000,
    ensures
        d == rounded_datum(f, neg, num, 1),
{
    proof {
        lemma_pow2_pos(shift as nat);
    }
    let mag: u64 = round_held(
        f,
        sig,
        shift as i32,
        false,
        Ghost(num),
        Ghost(1nat),
        Ghost(pow2(shift as nat)),
        Ghost(0nat),
    );
    Datum { neg, mag }
}

/// The magnitude of the sum or difference of two finite magnitudes whose places
/// lie near each other.
fn combine_near(
    f: Format,
    hi: Split,
    lo: Split,
    hi_neg: bool,
    lo_neg: bool,
    Ghost(v): Ghost<int>,
) -> (d: Datum)
    requires
        lo.places <= hi.places <= lo.places + 64,
        hi.places <= 2045,
        hi.sig < 2 * f.lead(),
        lo.sig < 2 * f.lead(),
        ({
            let h = hi.sig * pow2(hi.places as nat);
            let l = lo.sig * pow2(lo.places as nat);
            v == (if hi_neg { -h } else { h }) + (if lo_neg { -l } else { l })
        }),
    ensures
        d == (if v == 0 {
            Datum { neg: hi_neg && lo_neg, mag: 0 }
        } else {
            rounded_datum(f, v < 0, magnitude_of(v), 1)
        }),
{
    let gap: u32 = hi.places - lo.places;
    let wide: u128 = power_of_two(gap);
    let ghost t = pow2(lo.places as nat);
    proof {
        lemma2_to64();
        lemma2_to64_rest();
        if gap < 64 {
            lemma_pow2_strictly_increases(gap as nat, 64);
        }
        assert(wide <= 0x1_0000_0000_0000_0000);
        assert(hi.sig * wide <= 0x20_0000_0000_0000 * 0x1_0000_0000_0000_0000) by (nonlinear_arith)
            requires
                hi.sig <= 0x20_0000_0000_0000,
                wide <= 0x1_0000_0000_0000_0000,
        ;
        lemma_pow2_adds(gap as nat, lo.places as nat);
        lemma_pow2_pos(lo.places as nat);
        lemma_pow2_pos(gap as nat);
    }
    let top: u128 = hi.sig as u128 * wide;
    let low: u128 = lo.sig as u128;
    proof {
        assert(hi.sig * (wide * t) == top * t) by (nonlinear_arith)
            requires
                top == hi.sig * wide,
        ;
        assert(top * t + low * t == (top + low) * t) by (nonlinear_arith);
        assert(top * t - low * t == (top - low) * t) by (nonlinear_arith);
        assert(low * t - top * t == (low - top) * t) by (nonlinear_arith);
    }
    if hi_neg == lo_neg {
        if top + low == 0 {
            return Datum { neg: hi_neg, mag: 0 };
        }
        proof {
            assert((top + low) * t > 0) by (nonlinear_arith)
                requires
                    top + low > 0,
                    t > 0,
            ;
        }
        round_scaled(f, hi_neg, top + low, lo.places, Ghost(magnitude_of(v)))
    } else if top == low {
        Datum { neg: false, mag: 0 }
    } else if top > low {
        proof {
            assert((top - low) * t > 0) by (nonlinear_arith)
                requires
                    top - low > 0,
                    t > 0,
            ;
        }
        round_scaled(f, hi_neg, top - low, lo.places, Ghost(magnitude_of(v)))
    } else {
        proof {
            assert((low - top) * t > 0) by (nonlinear_arith)
                requires
                    low - top > 0,
                    t > 0,
            ;
        }
        round_scaled(f, lo_neg, low - top, lo.places, Ghost(magnitude_of(v)))
    }
}

/// The sum or difference of two finite magnitudes of which one is too small to
/// reach the last digits of the other.
fn combine_far(
    f: Format,
    hi: Split,
    lo: Split,
    hi_neg: bool,
    lo_neg: bool,
    Ghost(v): Ghost<int>,
) -> (d: Datum)
    requires
        lo.places + 64 < hi.places <= 2045,
        f.lead() <= hi.sig < 2 * f.lead(),
        lo.sig < 2 * f.lead(),
        ({
            let h = hi.sig * pow2(hi.places as nat);
            let l = lo.sig * pow2(lo.places as nat);
            v == (if hi_neg { -h } else { h }) + (if lo_neg { -l } else { l })
        }),
    ensures
        v != 0,
        d == rounded_datum(f, v < 0, magnitude_of(v), 1),
{
    let shift: u32 = hi.places - 10;
    let ghost block = pow2(shift as nat);
    let ghost tail: nat = (lo.sig * pow2(lo.places as nat)) as nat;
    let sig: u128 = hi.sig as u128 * 1024;
    proof {
        lemma2_to64();
        lemma2_to64_rest();
        lemma_pow2_pos(lo.places as nat);
        lemma_pow2_pos(shift as nat);
        // The smaller one does not fill a block.
        lemma_pow2_adds(53, lo.places as nat);
        lemma_pow2_strictly_increases(53 + lo.places as nat, shift as nat);
        let t = pow2(lo.places as nat);
        assert(tail < pow2(53) * t) by (nonlinear_arith)
            requires
                tail == lo.sig * t,
                lo.sig < pow2(53),
                t > 0,
        ;
        assert(tail < block);
        lemma_pow2_adds(10, shift as nat);
        assert(10 + shift as nat == hi.places as nat);
        assert(hi.sig * (1024 * block) == sig * block) by (nonlinear_arith)
            requires
                sig == hi.sig * 1024,
        ;
        assert(sig * block > tail) by (nonlinear_arith)
            requires
                sig >= 1,
                block > tail,
        ;
        assert(tail == 0 <==> lo.sig == 0) by (nonlinear_arith)
            requires
                tail == lo.sig * t,
                t > 0,
        ;
        assert(sig * block - tail == (sig - 1) * block + (block - tail)) by (nonlinear_arith);
    }
    if lo.sig == 0 {
        return round_scaled(f, hi_neg, sig, shift, Ghost(magnitude_of(v)));
    }
    if hi_neg == lo_neg {
        let mag: u64 = round_held(
            f,
            sig,
            shift as i32,
            true,
            Ghost(magnitude_of(v)),
            Ghost(1nat),
            Ghost(block),
            Ghost(tail),
        );
        Datum { neg: hi_neg, mag }
    } else {
        let mag: u64 = round_held(
            f,
            sig - 1,
            shift as i32,
            true,
            Ghost(magnitude_of(v)),
            Ghost(1nat),
            Ghost(block),
            Ghost((block - tail) as nat),
        );
        Datum { neg: hi_neg, mag }
    }
}

/// Computes [`sum_of`].
pub fn add_data(f: Format, a: Datum, b: Datum) -> (d: Datum)
    ensures
        d == sum_of(f, a, b),
        d.mag <= f.infinity() + f.lead() / 2,
{
    proof {
        reveal(sum_of);
    }
    let infinity: u64 = f.infinity_bits();
    if a.mag > infinity || b.mag > infinity || (a.mag == infinity && b.mag == infinity && a.neg
        != b.neg) {
        return make_nan(f);
    }
    if a.mag == infinity {
        return a;
    }
    if b.mag == infinity {
        return b;
    }
    let s: Split = split(f, a.mag);
    let t: Split = split(f, b.mag);
    let ghost v = a.value(f) + b.value(f);
    if s.places >= t.places {
        if s.places - t.places <= 64 {
            combine_near(f, s, t, a.neg, b.neg, Ghost(v))
        } else {
            combine_far(f, s, t, a.neg, b.neg, Ghost(v))
        }
    } else if t.places - s.places <= 64 {
        combine_near(f, t, s, b.neg, a.neg, Ghost(v))
    } else {
        combine_far(f, t, s, b.neg, a.neg, Ghost(v))
    }
}

/// Computes [`product_of`].
pub fn multiply_data(f: Format, a: Datum, b: Datum) -> (d: Datum)
    ensures
        d == product_of(f, a, b),
        d.mag <= f.infinity() + f.lead() / 2,
{
    proof {
        reveal(product_of);
    }
    let infinity: u64 = f.infinity_bits();
    let neg: bool = a.neg != b.neg;
    if a.mag > infinity || b.mag > infinity || (a.mag == infinity && b.mag == 0) || (b.mag
        == infinity && a.mag == 0) {
        return make_nan(f);
    }
    if a.mag == infinity || b.mag == infinity {
        return Datum { neg, mag: infinity };
    }
    let s: Split = split(f, a.mag);
    let t: Split = split(f, b.mag);
    let ghost num = units(f, a.mag as nat) * units(f, b.mag as nat);
    let ghost block = pow2((s.places + t.places) as nat);
    proof {
        let x = pow2(s.places as nat);
        let y = pow2(t.places as nat);
        lemma_pow2_adds(s.places as nat, t.places as nat);
        assert((s.sig * x) * (t.sig * y) == (s.sig * t.sig) * (x * y)) by (nonlinear_arith);
        assert(s.sig * t.sig <= 0x20_0000_0000_0000 * 0x20_0000_0000_0000) by (nonlinear_arith)
            requires
                s.sig <= 0x20_0000_0000_0000,
                t.sig <= 0x20_0000_0000_0000,
        ;
        lemma_pow2_pos((s.places + t.places) as nat);
        lemma_pow2_pos(f.unit());
    }
    let shift: i32 = s.places as i32 + t.places as i32 - f.unit_bits();
    proof {
        if shift >= 0 {
            lemma_pow2_adds(f.unit(), shift as nat);
            assert(f.unit() + shift as nat == (s.places + t.places) as nat);
        } else {
            lemma_pow2_adds((s.places + t.places) as nat, (-shift) as nat);
            assert((s.places + t.places) as nat + (-shift) as nat == f.unit());
        }
    }
    let mag: u64 = round_held(
        f,
        s.sig as u128 * t.sig as u128,
        shift,
        false,
        Ghost(num),
        Ghost(pow2(f.unit())),
        Ghost(block),
        Ghost(0nat),
    );
    Datum { neg, mag }
}

/// Computes [`quotient_of`].
pub fn divide_data(f: Format, a: Datum, b: Datum) -> (d: Datum)
    ensures
        d == quotient_of(f, a, b),
        d.mag <= f.infinity() + f.lead() / 2,
{
    proof {
        reveal(quotient_of);
    }
    let infinity: u64 = f.infinity_bits();
    let neg: bool = a.neg != b.neg;
    if a.mag > infinity || b.mag > infinity || (a.mag == infinity && b.mag == infinity) || (a.mag
        == 0 && b.mag == 0) {
        return make_nan(f);
    }
    if a.mag == infinity || b.mag == 0 {
        return Datum { neg, mag: infinity };
    }
    if b.mag == infinity {
        return Datum { neg, mag: 0 };
    }
    let s: Split = split(f, a.mag);
    let t: Split = split(f, b.mag);
    let ghost num = units(f, a.mag as nat) * pow2(f.unit());
    let ghost den = units(f, b.mag as nat);
    proof {
        lemma_pow2_pos(t.places as nat);
        lemma_pow2_pos(f.unit());
        assert(den > 0) by (nonlinear_arith)
            requires
                den == t.sig * pow2(t.places as nat),
                t.sig > 0,
                pow2(t.places as nat) > 0,
        ;
    }
    if s.sig == 0 {
        proof {
            let x = pow2(s.places as nat);
            let y = pow2(f.unit());
            assert(num == 0) by (nonlinear_arith)
                requires
                    num == (s.sig * x) * y,
                    s.sig == 0,
            ;
            lemma_zero_rounds(f, den);
        }
        return Datum { neg, mag: 0 };
    }
    let len: u32 = bit_length(s.sig as u128);
    proof {
        lemma2_to64();
        lemma2_to64_rest();
        if len > 53 {
            if len > 54 {
                lemma_pow2_strictly_increases(53, (len - 1) as nat);
            }
        }
    }
    let by: u32 = 118 - len;
    let wide: u128 = power_of_two(by);
    let ghost e = (s.places + f.unit() - by) as nat;
    let shift: i32 = s.places as i32 + f.unit_bits() - t.places as i32 - by as i32;
    proof {
        // The dividend has 118 digits.
        lemma_pow2_adds(len as nat, by as nat);
        lemma_pow2_adds((len - 1) as nat, by as nat);
        lemma_pow2_adds(64, 54);
        lemma_pow2_adds(64, 53);
        assert(len as nat + by as nat == 118);
        assert((len - 1) as nat + by as nat == 117);
        lemma_pow2_pos(by as nat);
        let w = pow2(by as nat);
        assert(s.sig * w < pow2(118)) by (nonlinear_arith)
            requires
                s.sig < pow2(len as nat),
                pow2(118) == pow2(len as nat) * w,
                w > 0,
        ;
        assert(pow2(117) <= s.sig * w) by (nonlinear_arith)
            requires
                pow2((len - 1) as nat) <= s.sig,
                pow2(117) == pow2((len - 1) as nat) * w,
                w > 0,
        ;
    }
    let dividend: u128 = s.sig as u128 * wide;
    let sig: u128 = dividend / t.sig as u128;
    let rem: u128 = dividend % t.sig as u128;
    let ghost block = t.sig as nat * pow2(e);
    let ghost rest = rem as nat * pow2(e);
    proof {
        let p = pow2(e);
        lemma_pow2_pos(e);
        lemma_fundamental_div_mod(dividend as int, t.sig as int);
        assert(rest < block) by (nonlinear_arith)
            requires
                rem < t.sig,
                p > 0,
                rest == rem * p,
                block == t.sig * p,
        ;
        assert((rest > 0) == (rem > 0)) by (nonlinear_arith)
            requires
                p > 0,
                rest == rem * p,
        ;
        // The quotient keeps more digits than the precision.
        assert(sig >= 0x40_0000_0000_0000) by (nonlinear_arith)
            requires
                dividend == t.sig * sig + rem,
                rem < t.sig,
                t.sig <= 0x20_0000_0000_0000,
                dividend >= 0x1_0000_0000_0000_0000 * 0x20_0000_0000_0000,
        ;
        assert(sig <= dividend) by (nonlinear_arith)
            requires
                dividend == t.sig * sig + rem,
                t.sig >= 1,
                sig >= 0,
                rem >= 0,
        ;
        // num == sig * block + rest
        lemma_pow2_adds(by as nat, e);
        lemma_pow2_adds(s.places as nat, f.unit());
        assert(by as nat + e == s.places as nat + f.unit());
        let x = pow2(s.places as nat);
        let y = pow2(f.unit());
        let w = pow2(by as nat);
        assert((s.sig * x) * y == (s.sig * w) * p) by (nonlinear_arith)
            requires
                x * y == w * p,
        ;
        assert(dividend * p == sig * block + rest) by (nonlinear_arith)
            requires
                dividend == t.sig * sig + rem,
                rest == rem * p,
                block == t.sig * p,
        ;
        let z = pow2(t.places as nat);
        if shift >= 0 {
            lemma_pow2_adds(t.places as nat, shift as nat);
            assert(t.places as nat + shift as nat == e);
            let q = pow2(shift as nat);
            assert(t.sig * (z * q) == (t.sig * z) * q) by (nonlinear_arith);
        } else {
            lemma_pow2_adds(e, (-shift) as nat);
            assert(e + (-shift) as nat == t.places as nat);
            let q = pow2((-shift) as nat);
            assert(t.sig * (p * q) == (t.sig * p) * q) by (nonlinear_arith);
        }
        lemma_pow2_128_bound();
    }
    let mag: u64 = round_held(
        f,
        sig,
        shift,
        rem > 0,
        Ghost(num),
        Ghost(den),
        Ghost(block),
        Ghost(rest),
    );
    Datum { neg, mag }
}

proof fn lemma_pow2_128_bound()
    ensures
        pow2(118) < 0x8000_0000_0000_0000_0000_0000_0000_0000nat,
        pow2(117) == 0x1_0000_0000_0000_0000nat * 0x20_0000_0000_0000nat,
{
    lemma2_to64();
    lemma2_to64_rest();
    lemma_pow2_adds(64, 54);
    lemma_pow2_adds(64, 53);
}

/// Zero rounds to zero.
proof fn lemma_zero_rounds(f: Format, den: nat)
    requires
        den > 0,
    ensures
        rounded_magnitude(f, 0, den) == 0,
{
    lemma2_to64();
    lemma_fundamental_div_mod_converse(0, den as int, 0, 0);
    assert(den * pow2(0) == den) by (nonlinear_arith)
        requires
            pow2(0) == 1,
    ;
    assert(crate::rounding::excess(f, 0) == 0);
    assert(crate::rounding::nearest_even(0, den) == 0);
    assert(0 * f.lead() == 0);
}

/// Computes [`of_whole`].
pub fn whole_datum(f: Format, n: u64) -> (d: Datum)
    ensures
        d == of_whole(f, n as nat),
        d.mag <= f.infinity() + f.lead() / 2,
{
    proof {
        reveal(of_whole);
    }
    round_scaled(f, false, n as u128, f.unit_bits() as u32, Ghost(n as nat * pow2(f.unit())))
}

/// Computes [`below`].
pub fn is_below(f: Format, a: Datum, b: Datum) -> (r: bool)
    ensures
        r == below(f, a, b),
{
    let infinity: u64 = f.infinity_bits();
    if a.mag > infinity || b.mag > infinity {
        false
    } else if a.neg {
        if b.neg {
            b.mag < a.mag
        } else {
            a.mag > 0 || b.mag > 0
        }
    } else if b.neg {
        false
    } else {
        a.mag < b.mag
    }
}

/// A quotient of a multiple of a power of two by a higher power of two does not
/// need the common part.
proof fn lemma_shared_power(num: nat, low: nat, by: nat)
    ensures
        (num * pow2(low)) / (pow2(low + by)) == num / pow2(by),
{
    let p = pow2(low);
    let q = pow2(by);
    lemma_pow2_adds(low, by);
    lemma_pow2_pos(low);
    lemma_pow2_pos(by);
    crate::rounding::lemma_nearest_scales(num, q, p);
    assert(q * p == p * q) by (nonlinear_arith);
}

/// Computes [`nearest_whole`], up to the bound.
pub fn nearest_whole_within(f: Format, ordinal: u64, bound: u32) -> (n: u32)
    requires
        ordinal < f.infinity(),
    ensures
        n == (if nearest_whole(f, ordinal as nat) < bound {
            nearest_whole(f, ordinal as nat)
        } else {
            bound as nat
        }),
{
    proof {
        reveal(nearest_whole);
    }
    let s: Split = split(f, ordinal);
    let unit: u32 = f.unit_bits() as u32;
    let ghost u = units(f, ordinal as nat);
    proof {
        lemma_pow2_unfold(f.unit() + 1);
        lemma2_to64();
        lemma2_to64_rest();
    }
    if s.places >= unit {
        let up: u32 = s.places - unit;
        let ghost p = pow2(f.unit());
        let ghost w = pow2(up as nat);
        proof {
            lemma_pow2_adds(up as nat, f.unit());
            lemma_pow2_pos(f.unit());
            lemma_pow2_pos(up as nat);
            assert(up as nat + f.unit() == s.places as nat);
            let v = s.sig * w;
            assert(2 * (s.sig * (w * p)) + p == (2 * p) * v + p) by (nonlinear_arith)
                requires
                    v == s.sig * w,
            ;
            assert(v * (2 * p) + p == (2 * p) * v + p) by (nonlinear_arith);
            lemma_fundamental_div_mod_converse(
                (2 * u + p) as int,
                (2 * p) as int,
                v as int,
                p as int,
            );
            assert(w <= v) by (nonlinear_arith)
                requires
                    v == s.sig * w,
                    s.sig >= 1,
                    w > 0,
            ;
            if up >= 32 {
                if up > 32 {
                    lemma_pow2_strictly_increases(32, up as nat);
                }
            } else {
                lemma_pow2_strictly_increases(up as nat, 32);
                assert(s.sig * w <= 0x20_0000_0000_0000 * 0x1_0000_0000) by (nonlinear_arith)
                    requires
                        s.sig <= 0x20_0000_0000_0000,
                        w <= 0x1_0000_0000,
                        w >= 0,
                ;
            }
        }
        if up >= 32 {
            return bound;
        }
        let v: u128 = s.sig as u128 * power_of_two(up);
        if v < bound as u128 {
            v as u32
        } else {
            bound
        }
    } else {
        let down: u32 = unit - s.places;
        let ghost half = pow2((down - 1) as nat);
        proof {
            lemma_pow2_unfold(down as nat);
            lemma_pow2_adds(s.places as nat, down as nat);
            lemma_pow2_pos((down - 1) as nat);
            assert(s.places as nat + down as nat == f.unit());
            let p = pow2(s.places as nat);
            lemma_pow2_pos(s.places as nat);
            let d = pow2(down as nat);
            assert(2 * (s.sig * p) + p * d == 2 * ((s.sig + half) * p)) by (nonlinear_arith)
                requires
                    d == 2 * half,
            ;
            lemma_shared_power((s.sig + half) as nat, s.places as nat, down as nat);
            let x = ((s.sig + half) * p) as nat;
            lemma_pow2_pos(f.unit());
            crate::rounding::lemma_nearest_scales(x, pow2(f.unit()), 2);
            assert(nearest_whole(f, ordinal as nat) == (s.sig + half) as nat / d);
        }
        if down >= 64 {
            proof {
                if down > 64 {
                    lemma_pow2_strictly_increases(63, (down - 1) as nat);
                }
                assert(s.sig + half < pow2(down as nat));
                lemma_fundamental_div_mod_converse(
                    s.sig + half,
                    pow2(down as nat) as int,
                    0,
                    s.sig + half,
                );
            }
            return 0;
        }
        let w: u128 = power_of_two(down);
        let h: u128 = power_of_two(down - 1);
        proof {
            if down < 64 {
                lemma_pow2_strictly_increases((down - 1) as nat, 64);
            }
            lemma_pow2_pos(down as nat);
        }
        let v: u128 = (s.sig as u128 + h) / w;
        if v < bound as u128 {
            v as u32
        } else {
            bound
        }
    }
}

/// Computes [`whole_part`], up to the bound.
pub fn whole_part_within(f: Format, ordinal: u64, bound: u32) -> (n: u32)
    requires
        ordinal < f.infinity(),
    ensures
        n == (if whole_part(f, ordinal as nat) < bound {
            whole_part(f, ordinal as nat)
        } else {
            bound as nat
        }),
{
    proof {
        reveal(whole_part);
    }
    let s: Split = split(f, ordinal);
    let unit: u32 = f.unit_bits() as u32;
    let ghost u = units(f, ordinal as nat);
    proof {
        lemma2_to64();
        lemma2_to64_rest();
    }
    if s.places >= unit {
        let up: u32 = s.places - unit;
        let ghost p = pow2(f.unit());
        let ghost w = pow2(up as nat);
        proof {
            lemma_pow2_adds(up as nat, f.unit());
            lemma_pow2_pos(f.unit());
            lemma_pow2_pos(up as nat);
            assert(up as nat + f.unit() == s.places as nat);
            let v = s.sig * w;
            assert(s.sig * (w * p) == v * p + 0) by (nonlinear_arith)
                requires
                    v == s.sig * w,
            ;
            assert(v * p == p * v) by (nonlinear_arith);
            lemma_fundamental_div_mod_converse(u as int, p as int, v as int, 0);
            assert(w <= v) by (nonlinear_arith)
                requires
                    v == s.sig * w,
                    s.sig >= 1,
                    w > 0,
            ;
            if up >= 32 {
                if up > 32 {
                    lemma_pow2_strictly_increases(32, up as nat);
                }
            } else {
                lemma_pow2_strictly_increases(up as nat, 32);
                assert(s.sig * w <= 0x20_0000_0000_0000 * 0x1_0000_0000) by (nonlinear_arith)
                    requires
                        s.sig <= 0x20_0000_0000_0000,
                        w <= 0x1_0000_0000,
                        w >= 0,
                ;
            }
        }
        if up >= 32 {
            return bound;
        }
        let v: u128 = s.sig as u128 * power_of_two(up);
        if v < bound as u128 {
            v as u32
        } else {
            bound
        }
    } else {
        let down: u32 = unit - s.places;
        proof {
            lemma_shared_power(s.sig as nat, s.places as nat, down as nat);
            assert(s.places as nat + down as nat == f.unit());
        }
        if down >= 64 {
            proof {
                if down > 64 {
                    lemma_pow2_strictly_increases(64, down as nat);
                }
                lemma_fundamental_div_mod_converse(
                    s.sig as int,
                    pow2(down as nat) as int,
                    0,
                    s.sig as int,
                );
            }
            return 0;
        }
        let w: u128 = power_of_two(down);
        proof {
            lemma_pow2_pos(down as nat);
        }
        let v: u128 = s.sig as u128 / w;
        if v < bound as u128 {
            v as u32
        } else {
            bound
        }
    }
}

} // verus!
