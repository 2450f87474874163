//! Numbers in the two binary formats, carried by their bit patterns.
//!
//! Positions, sizes and scores are binary floating-point numbers. Here they are
//! held as the bits of the format, and every operation on them is an operation on
//! integers whose result is fixed by its contract: the exact result, rounded to
//! nearest, ties to even.

use vstd::prelude::*;
use crate::rounding::Format;
use crate::datum::{
    Datum, add_data, divide_data, is_below, multiply_data, nearest_whole_within, whole_datum,
    whole_part_within,
};
use crate::datum::{
    below, magnitude_of, nearest_whole, of_whole, product_of, quotient_of, sum_of, whole_part,
};

verus! {

/// A 64-bit floating-point number.
#[derive(Clone, Copy, Debug, Default, PartialEq, Eq, Structural)]
pub struct F64 {
    pub bits: u64,
}

impl F64 {
    /// The sign and the magnitude that the bits hold.
    pub open spec fn datum(self) -> Datum {
        if self.bits < 0x8000_0000_0000_0000 {
            Datum { neg: false, mag: self.bits as u64 }
        } else {
            Datum { neg: true, mag: (self.bits - 0x8000_0000_0000_0000) as u64 }
        }
    }

    /// The number whose bits hold a sign and a magnitude.
    pub open spec fn of(d: Datum) -> F64 {
        F64 { bits: (d.mag + if d.neg { 0x8000_0000_0000_0000int } else { 0int }) as u64 }
    }

    pub open spec fn is_nan(self) -> bool {
        self.datum().nan(Format::Double)
    }

    /// `self + other`.
    pub open spec fn spec_plus(self, other: F64) -> F64 {
        F64::of(sum_of(Format::Double, self.datum(), other.datum()))
    }

    /// `-self`.
    pub open spec fn spec_negated(self) -> F64 {
        F64::of(Datum { neg: !self.datum().neg, mag: self.datum().mag })
    }

    /// `self - other`.
    pub open spec fn spec_minus(self, other: F64) -> F64 {
        self.spec_plus(other.spec_negated())
    }

    /// `self * other`.
    pub open spec fn spec_times(self, other: F64) -> F64 {
        F64::of(product_of(Format::Double, self.datum(), other.datum()))
    }

    /// `self / other`.
    pub open spec fn spec_over(self, other: F64) -> F64 {
        F64::of(quotient_of(Format::Double, self.datum(), other.datum()))
    }

    /// The magnitude of `self`.
    pub open spec fn spec_abs(self) -> F64 {
        F64::of(Datum { neg: false, mag: self.datum().mag })
    }

    /// `self < other`.
    pub open spec fn spec_less(self, other: F64) -> bool {
        below(Format::Double, self.datum(), other.datum())
    }

    /// `self <= other`.
    pub open spec fn spec_at_most(self, other: F64) -> bool {
        !self.is_nan() && !other.is_nan() && self.datum().rank() <= other.datum().rank()
    }

    /// The lesser of two numbers, or the one that is a number.
    pub open spec fn spec_min(self, other: F64) -> F64 {
        if self.is_nan() || other.spec_less(self) {
            other
        } else {
            self
        }
    }

    /// The greater of two numbers, or the one that is a number.
    pub open spec fn spec_max(self, other: F64) -> F64 {
        if self.is_nan() || self.spec_less(other) {
            other
        } else {
            self
        }
    }

    /// The number nearest to the whole number `n`.
    pub open spec fn of_nat(n: nat) -> F64 {
        F64::of(of_whole(Format::Double, n))
    }

    /// `self` rounded to a whole number, halves away from zero, and brought into the
    /// range of `u32`. What is not a number counts as zero.
    pub open spec fn spec_round_u32(self) -> u32 {
        let d = self.datum();
        if d.neg || self.is_nan() {
            0
        } else if d.infinite(Format::Double) || nearest_whole(Format::Double, d.mag as nat)
            > u32::MAX {
            u32::MAX
        } else {
            nearest_whole(Format::Double, d.mag as nat) as u32
        }
    }

    fn open_up(self) -> (d: Datum)
        ensures
            d == self.datum(),
            d.mag < 0x8000_0000_0000_0000,
    {
        if self.bits < 0x8000_0000_0000_0000 {
            Datum { neg: false, mag: self.bits as u64 }
        } else {
            Datum { neg: true, mag: (self.bits - 0x8000_0000_0000_0000) as u64 }
        }
    }

    fn close_up(d: Datum) -> (r: F64)
        requires
            d.mag < 0x8000_0000_0000_0000,
        ensures
            r == F64::of(d),
    {
        if d.neg {
            F64 { bits: d.mag as u64 + 0x8000_0000_0000_0000 }
        } else {
            F64 { bits: d.mag as u64 }
        }
    }

    /// `self + other`, rounded to nearest.
    pub fn plus(self, other: F64) -> (r: F64)
        ensures
            r == self.spec_plus(other),
    {
        F64::close_up(add_data(Format::Double, self.open_up(), other.open_up()))
    }

    /// `-self`.
    pub fn negated(self) -> (r: F64)
        ensures
            r == self.spec_negated(),
    {
        let d: Datum = self.open_up();
        F64::close_up(Datum { neg: !d.neg, mag: d.mag })
    }

    /// `self - other`, rounded to nearest.
    pub fn minus(self, other: F64) -> (r: F64)
        ensures
            r == self.spec_minus(other),
    {
        self.plus(other.negated())
    }

    /// `self * other`, rounded to nearest.
    pub fn times(self, other: F64) -> (r: F64)
        ensures
            r == self.spec_times(other),
    {
        F64::close_up(multiply_data(Format::Double, self.open_up(), other.open_up()))
    }

    /// `self / other`, rounded to nearest.
    pub fn over(self, other: F64) -> (r: F64)
        ensures
            r == self.spec_over(other),
    {
        F64::close_up(divide_data(Format::Double, self.open_up(), other.open_up()))
    }

    /// The magnitude of `self`.
    pub fn abs(self) -> (r: F64)
        ensures
            r == self.spec_abs(),
    {
        let d: Datum = self.open_up();
        F64::close_up(Datum { neg: false, mag: d.mag })
    }

    /// `self < other`: false where one of them is not a number.
    pub fn less(self, other: F64) -> (r: bool)
        ensures
            r == self.spec_less(other),
    {
        is_below(Format::Double, self.open_up(), other.open_up())
    }

    /// `self <= other`: false where one of them is not a number.
    pub fn at_most(self, other: F64) -> (r: bool)
        ensures
            r == self.spec_at_most(other),
    {
        let infinity: u64 = Format::Double.infinity_bits();
        let a: Datum = self.open_up();
        let b: Datum = other.open_up();
        a.mag <= infinity && b.mag <= infinity && !is_below(Format::Double, b, a)
    }

    /// The lesser of two numbers, or the one that is a number.
    pub fn min(self, other: F64) -> (r: F64)
        ensures
            r == self.spec_min(other),
    {
        if self.open_up().mag > Format::Double.infinity_bits() || other.less(self) {
            other
        } else {
            self
        }
    }

    /// The greater of two numbers, or the one that is a number.
    pub fn max(self, other: F64) -> (r: F64)
        ensures
            r == self.spec_max(other),
    {
        if self.open_up().mag > Format::Double.infinity_bits() || self.less(other) {
            other
        } else {
            self
        }
    }

    /// The number nearest to a whole number.
    pub fn of_count(n: u64) -> (r: F64)
        ensures
            r == F64::of_nat(n as nat),
    {
        F64::close_up(whole_datum(Format::Double, n))
    }

    /// `self` rounded to a whole number, halves away from zero, and brought into the
    /// range of `u32`.
    pub fn round_u32(self) -> (r: u32)
        ensures
            r == self.spec_round_u32(),
    {
        let d: Datum = self.open_up();
        let infinity: u64 = Format::Double.infinity_bits();
        if d.neg || d.mag > infinity {
            0
        } else if d.mag == infinity {
            u32::MAX
        } else {
            nearest_whole_within(Format::Double, d.mag, u32::MAX)
        }
    }

    /// The number nearest to the whole number `n`.
    pub open spec fn of_int(n: int) -> F64 {
        if n < 0 {
            F64::of_nat((-n) as nat).spec_negated()
        } else {
            F64::of_nat(n as nat)
        }
    }

    /// The number nearest to a whole number.
    pub fn of_i32(n: i32) -> (r: F64)
        ensures
            r == F64::of_int(n as int),
    {
        if n < 0 {
            F64::of_count((-(n as i64)) as u64).negated()
        } else {
            F64::of_count(n as u64)
        }
    }

    /// `self` brought between two numbers. What is not a number is left as it is.
    pub open spec fn spec_clamp(self, least: F64, most: F64) -> F64 {
        if self.spec_less(least) {
            least
        } else if most.spec_less(self) {
            most
        } else {
            self
        }
    }

    /// `self` brought between two numbers.
    pub fn clamp(self, least: F64, most: F64) -> (r: F64)
        requires
            least.spec_at_most(most),
        ensures
            r == self.spec_clamp(least, most),
    {
        if self.less(least) {
            least
        } else if most.less(self) {
            most
        } else {
            self
        }
    }

    /// `self` cut to its whole part and brought into the range of `i32`. What is not a
    /// number counts as zero.
    pub open spec fn spec_trunc_i32(self) -> i32 {
        let d = self.datum();
        let n = whole_part(Format::Double, d.mag as nat);
        if self.is_nan() {
            0
        } else if d.neg {
            if d.infinite(Format::Double) || n > 0x8000_0000 {
                i32::MIN
            } else {
                (-n) as i32
            }
        } else if d.infinite(Format::Double) || n > i32::MAX {
            i32::MAX
        } else {
            n as i32
        }
    }

    /// `self` cut to its whole part and brought into the range of `i32`.
    pub fn trunc_i32(self) -> (r: i32)
        ensures
            r == self.spec_trunc_i32(),
    {
        let d: Datum = self.open_up();
        let infinity: u64 = Format::Double.infinity_bits();
        if d.mag > infinity {
            0
        } else if d.neg {
            if d.mag == infinity {
                i32::MIN
            } else {
                let n: u32 = whole_part_within(Format::Double, d.mag, 0x8000_0000);
                (-(n as i64)) as i32
            }
        } else if d.mag == infinity {
            i32::MAX
        } else {
            whole_part_within(Format::Double, d.mag, 0x7fff_ffff) as i32
        }
    }

    /// The place of a number in the order of all bit patterns: negative before
    /// positive, by magnitude, with the two zeros and all that is not a number told
    /// apart.
    pub open spec fn order(self) -> nat {
        if self.bits < 0x8000_0000_0000_0000 {
            (self.bits + 0x8000_0000_0000_0000) as nat
        } else {
            (0xffff_ffff_ffff_ffff - self.bits) as nat
        }
    }

    /// Computes [`F64::order`].
    pub fn order_key(self) -> (k: u64)
        ensures
            k == self.order(),
    {
        if self.bits < 0x8000_0000_0000_0000 {
            self.bits + 0x8000_0000_0000_0000
        } else {
            0xffff_ffff_ffff_ffff - self.bits
        }
    }
}

/// Taking numbers off each other the other way round turns the sign and keeps the magnitude.
pub proof fn lemma_difference_turns(a: F64, b: F64)
    ensures
        a.spec_minus(b).spec_abs() == b.spec_minus(a).spec_abs(),
        ({
            let d = a.spec_minus(b);
            let e = b.spec_minus(a);
            !d.is_nan() && d.datum().mag > 0 ==> !e.is_nan() && d.datum().neg != e.datum().neg
        }),
{
    reveal(sum_of);
    let f = Format::Double;
    let x = a.datum();
    let y = b.datum();
    let nx = Datum { neg: !x.neg, mag: x.mag };
    let ny = Datum { neg: !y.neg, mag: y.mag };
    assert(a.spec_negated().datum() == nx);
    assert(b.spec_negated().datum() == ny);
    let d = sum_of(f, x, ny);
    let e = sum_of(f, y, nx);
    assert(nx.value(f) == -x.value(f));
    assert(ny.value(f) == -y.value(f));
    let v = x.value(f) - y.value(f);
    assert(magnitude_of(v) == magnitude_of(-v));
    assert(d.mag <= f.infinity() + f.lead() / 2);
    assert(e.mag <= f.infinity() + f.lead() / 2);
    assert(d.mag == e.mag);
    assert(F64::of(d).datum() == d);
    assert(F64::of(e).datum() == e);
}

/// A 32-bit floating-point number.
#[derive(Clone, Copy, Debug, Default, PartialEq, Eq, Structural)]
pub struct F32 {
    pub bits: u32,
}

impl F32 {
    /// The sign and the magnitude that the bits hold.
    pub open spec fn datum(self) -> Datum {
        if self.bits < 0x8000_0000 {
            Datum { neg: false, mag: self.bits as u64 }
        } else {
            Datum { neg: true, mag: (self.bits - 0x8000_0000) as u64 }
        }
    }

    /// The number whose bits hold a sign and a magnitude.
    pub open spec fn of(d: Datum) -> F32 {
        F32 { bits: (d.mag + if d.neg { 0x8000_0000int } else { 0int }) as u32 }
    }

    pub open spec fn is_nan(self) -> bool {
        self.datum().nan(Format::Single)
    }

    /// `self + other`.
    pub open spec fn spec_plus(self, other: F32) -> F32 {
        F32::of(sum_of(Format::Single, self.datum(), other.datum()))
    }

    /// `-self`.
    pub open spec fn spec_negated(self) -> F32 {
        F32::of(Datum { neg: !self.datum().neg, mag: self.datum().mag })
    }

    /// `self - other`.
    pub open spec fn spec_minus(self, other: F32) -> F32 {
        self.spec_plus(other.spec_negated())
    }

    /// `self * other`.
    pub open spec fn spec_times(self, other: F32) -> F32 {
        F32::of(product_of(Format::Single, self.datum(), other.datum()))
    }

    /// `self / other`.
    pub open spec fn spec_over(self, other: F32) -> F32 {
        F32::of(quotient_of(Format::Single, self.datum(), other.datum()))
    }

    /// The magnitude of `self`.
    pub open spec fn spec_abs(self) -> F32 {
        F32::of(Datum { neg: false, mag: self.datum().mag })
    }

    /// `self < other`.
    pub open spec fn spec_less(self, other: F32) -> bool {
        below(Format::Single, self.datum(), other.datum())
    }

    /// `self <= other`.
    pub open spec fn spec_at_most(self, other: F32) -> bool {
        !self.is_nan() && !other.is_nan() && self.datum().rank() <= other.datum().rank()
    }

    /// The lesser of two numbers, or the one that is a number.
    pub open spec fn spec_min(self, other: F32) -> F32 {
        if self.is_nan() || other.spec_less(self) {
            other
        } else {
            self
        }
    }

    /// The greater of two numbers, or the one that is a number.
    pub open spec fn spec_max(self, other: F32) -> F32 {
        if self.is_nan() || self.spec_less(other) {
            other
        } else {
            self
        }
    }

    /// The number nearest to the whole number `n`.
    pub open spec fn of_nat(n: nat) -> F32 {
        F32::of(of_whole(Format::Single, n))
    }

    /// `self` rounded to a whole number, halves away from zero, and brought into the
    /// range of `u32`. What is not a number counts as zero.
    pub open spec fn spec_round_u32(self) -> u32 {
        let d = self.datum();
        if d.neg || self.is_nan() {
            0
        } else if d.infinite(Format::Single) || nearest_whole(Format::Single, d.mag as nat)
            > u32::MAX {
            u32::MAX
        } else {
            nearest_whole(Format::Single, d.mag as nat) as u32
        }
    }

    fn open_up(self) -> (d: Datum)
        ensures
            d == self.datum(),
            d.mag < 0x8000_0000,
    {
        if self.bits < 0x8000_0000 {
            Datum { neg: false, mag: self.bits as u64 }
        } else {
            Datum { neg: true, mag: (self.bits - 0x8000_0000) as u64 }
        }
    }

    fn close_up(d: Datum) -> (r: F32)
        requires
            d.mag < 0x8000_0000,
        ensures
            r == F32::of(d),
    {
        if d.neg {
            F32 { bits: d.mag as u32 + 0x8000_0000 }
        } else {
            F32 { bits: d.mag as u32 }
        }
    }

    /// `self + other`, rounded to nearest.
    pub fn plus(self, other: F32) -> (r: F32)
        ensures
            r == self.spec_plus(other),
    {
        F32::close_up(add_data(Format::Single, self.open_up(), other.open_up()))
    }

    /// `-self`.
    pub fn negated(self) -> (r: F32)
        ensures
            r == self.spec_negated(),
    {
        let d: Datum = self.open_up();
        F32::close_up(Datum { neg: !d.neg, mag: d.mag })
    }

    /// `self - other`, rounded to nearest.
    pub fn minus(self, other: F32) -> (r: F32)
        ensures
            r == self.spec_minus(other),
    {
        self.plus(other.negated())
    }

    /// `self * other`, rounded to nearest.
    pub fn times(self, other: F32) -> (r: F32)
        ensures
            r == self.spec_times(other),
    {
        F32::close_up(multiply_data(Format::Single, self.open_up(), other.open_up()))
    }

    /// `self / other`, rounded to nearest.
    pub fn over(self, other: F32) -> (r: F32)
        ensures
            r == self.spec_over(other),
    {
        F32::close_up(divide_data(Format::Single, self.open_up(), other.open_up()))
    }

    /// The magnitude of `self`.
    pub fn abs(self) -> (r: F32)
        ensures
            r == self.spec_abs(),
    {
        let d: Datum = self.open_up();
        F32::close_up(Datum { neg: false, mag: d.mag })
    }

    /// `self < other`: false where one of them is not a number.
    pub fn less(self, other: F32) -> (r: bool)
        ensures
            r == self.spec_less(other),
    {
        is_below(Format::Single, self.open_up(), other.open_up())
    }

    /// `self <= other`: false where one of them is not a number.
    pub fn at_most(self, other: F32) -> (r: bool)
        ensures
            r == self.spec_at_most(other),
    {
        let infinity: u64 = Format::Single.infinity_bits();
        let a: Datum = self.open_up();
        let b: Datum = other.open_up();
        a.mag <= infinity && b.mag <= infinity && !is_below(Format::Single, b, a)
    }

    /// The lesser of two numbers, or the one that is a number.
    pub fn min(self, other: F32) -> (r: F32)
        ensures
            r == self.spec_min(other),
    {
        if self.open_up().mag > Format::Single.infinity_bits() || other.less(self) {
            other
        } else {
            self
        }
    }

    /// The greater of two numbers, or the one that is a number.
    pub fn max(self, other: F32) -> (r: F32)
        ensures
            r == self.spec_max(other),
    {
        if self.open_up().mag > Format::Single.infinity_bits() || self.less(other) {
            other
        } else {
            self
        }
    }

    /// The number nearest to a whole number.
    pub fn of_count(n: u64) -> (r: F32)
        ensures
            r == F32::of_nat(n as nat),
    {
        F32::close_up(whole_datum(Format::Single, n))
    }

    /// `self` rounded to a whole number, halves away from zero, and brought into the
    /// range of `u32`.
    pub fn round_u32(self) -> (r: u32)
        ensures
            r == self.spec_round_u32(),
    {
        let d: Datum = self.open_up();
        let infinity: u64 = Format::Single.infinity_bits();
        if d.neg || d.mag > infinity {
            0
        } else if d.mag == infinity {
            u32::MAX
        } else {
            nearest_whole_within(Format::Single, d.mag, u32::MAX)
        }
    }
}

} // verus!
