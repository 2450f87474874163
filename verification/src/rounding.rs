//! Rounding of exact quotients to a binary floating-point format.
//!
//! A finite magnitude is written as an *ordinal*: the integer that its
//! exponent and fraction fields form together. Ordinals grow with the
//! magnitudes they stand for, so one step up in ordinal is one step up to the
//! next representable value.

use vstd::prelude::*;
use vstd::arithmetic::div_mod::{
    lemma_fundamental_div_mod, lemma_fundamental_div_mod_converse, lemma_div_denominator,
    lemma_small_div_converse,
};
use vstd::arithmetic::power2::{
    pow2, lemma_pow2_adds, lemma_pow2_pos, lemma_pow2_strictly_increases, lemma_pow2_unfold,
    lemma2_to64, lemma2_to64_rest,
};
use vstd::bits::lemma_u128_shr_is_div;

verus! {

/// The binary formats that the library computes in.
#[derive(Clone, Copy, Debug, PartialEq, Eq, Structural)]
pub enum Format {
    /// 32 bits: 24 bits of precision.
    Single,
    /// 64 bits: 53 bits of precision.
    Double,
}

impl Format {
    /// Bits of precision.
    pub open spec fn precision(self) -> nat {
        match self {
            Format::Single => 24,
            Format::Double => 53,
        }
    }

    /// The least positive value of the format is `2^-unit`.
    pub open spec fn unit(self) -> nat {
        match self {
            Format::Single => 149,
            Format::Double => 1074,
        }
    }

    /// The significand of a power of two: `2^(precision - 1)`.
    pub open spec fn lead(self) -> nat {
        match self {
            Format::Single => 0x80_0000,
            Format::Double => 0x10_0000_0000_0000,
        }
    }

    /// The ordinal of infinity. Greater ordinals are not numbers.
    pub open spec fn infinity(self) -> nat {
        match self {
            Format::Single => 0x7f80_0000,
            Format::Double => 0x7ff0_0000_0000_0000,
        }
    }

    /// Computes [`Format::lead`].
    pub fn lead_bits(self) -> (lead: u64)
        ensures
            lead == self.lead(),
    {
        match self {
            Format::Single => 0x80_0000,
            Format::Double => 0x10_0000_0000_0000,
        }
    }

    /// Computes [`Format::infinity`].
    pub fn infinity_bits(self) -> (infinity: u64)
        ensures
            infinity == self.infinity(),
    {
        match self {
            Format::Single => 0x7f80_0000,
            Format::Double => 0x7ff0_0000_0000_0000,
        }
    }

    /// Computes [`Format::unit`].
    pub fn unit_bits(self) -> (unit: i32)
        ensures
            unit == self.unit(),
    {
        match self {
            Format::Single => 149,
            Format::Double => 1074,
        }
    }

    /// Computes [`Format::precision`].
    pub fn precision_bits(self) -> (precision: i32)
        ensures
            precision == self.precision(),
    {
        match self {
            Format::Single => 24,
            Format::Double => 53,
        }
    }
}

/// The integer nearest to `num / den`, the even one of two that are as near.
pub open spec fn nearest_even(num: nat, den: nat) -> nat {
    let q = num / den;
    let r = num % den;
    if 2 * r < den || (2 * r == den && q % 2 == 0) {
        q
    } else {
        q + 1
    }
}

/// By how many binary places `q` is too long for the precision of the format.
pub open spec fn excess(f: Format, q: nat) -> nat
    decreases q,
{
    if q < 2 * f.lead() {
        0
    } else {
        1 + excess(f, q / 2)
    }
}

/// The ordinal of the value of the format that is nearest to `num / den` units,
/// ties going to the even significand. At or above infinity, the quotient is
/// too large for the format.
pub open spec fn rounded(f: Format, num: nat, den: nat) -> nat {
    let k = excess(f, num / den);
    k * f.lead() + nearest_even(num, den * pow2(k))
}

/// The ordinal of the rounded quotient, infinity where it is too large.
pub open spec fn rounded_magnitude(f: Format, num: nat, den: nat) -> nat {
    let o = rounded(f, num, den);
    if o < f.infinity() {
        o
    } else {
        f.infinity()
    }
}

/// The significand of a finite ordinal.
pub open spec fn significand(f: Format, ordinal: nat) -> nat {
    if ordinal < f.lead() {
        ordinal
    } else {
        f.lead() + ordinal % f.lead()
    }
}

/// The binary places by which the significand of a finite ordinal is shifted.
pub open spec fn places(f: Format, ordinal: nat) -> nat {
    if ordinal < f.lead() {
        0
    } else {
        (ordinal / f.lead() - 1) as nat
    }
}

/// The magnitude of a finite ordinal, as a multiple of the least positive value.
pub open spec fn units(f: Format, ordinal: nat) -> nat {
    significand(f, ordinal) * pow2(places(f, ordinal))
}

pub proof fn lemma_lead_is_power(f: Format)
    ensures
        f.lead() == pow2((f.precision() - 1) as nat),
        2 * f.lead() == pow2(f.precision()),
{
    lemma2_to64();
    lemma2_to64_rest();
}

/// Where the excess of `q` lies tells between which powers of two `q` lies, and
/// the other way round.
proof fn lemma_excess_between(f: Format, q: nat, k: nat)
    requires
        k == 0 ==> q < pow2(f.precision()),
        k > 0 ==> pow2((f.precision() + k - 1) as nat) <= q < pow2(f.precision() + k),
    ensures
        excess(f, q) == k,
    decreases k,
{
    lemma_lead_is_power(f);
    if k > 0 {
        let p = f.precision();
        lemma_pow2_unfold(p + k);
        if k == 1 {
            assert(pow2((p + k - 1) as nat) == 2 * f.lead());
            assert(q / 2 < pow2(p));
        } else {
            lemma_pow2_strictly_increases(p, (p + k - 1) as nat);
            lemma_pow2_unfold((p + k - 1) as nat);
            assert(p + (k - 1) == p + k - 1);
        }
        lemma_excess_between(f, q / 2, (k - 1) as nat);
    }
}

/// Scaling both sides of a quotient leaves its nearest integer alone.
pub proof fn lemma_nearest_scales(num: nat, den: nat, c: nat)
    requires
        den > 0,
        c > 0,
    ensures
        nearest_even(num * c, den * c) == nearest_even(num, den),
        (num * c) / (den * c) == num / den,
        den * c > 0,
{
    let q = num / den;
    let r = num % den;
    lemma_fundamental_div_mod(num as int, den as int);
    assert(num * c == q * (den * c) + r * c) by (nonlinear_arith)
        requires
            num == den * q + r,
    ;
    assert(0 <= r * c < den * c) by (nonlinear_arith)
        requires
            0 <= r < den,
            c > 0,
    ;
    assert(den * c > 0) by (nonlinear_arith)
        requires
            den > 0,
            c > 0,
    ;
    lemma_fundamental_div_mod_converse(
        (num * c) as int,
        (den * c) as int,
        q as int,
        (r * c) as int,
    );
    assert((2 * (r * c) < den * c) == (2 * r < den)) by (nonlinear_arith)
        requires
            c > 0,
    ;
    assert((2 * (r * c) == den * c) == (2 * r == den)) by (nonlinear_arith)
        requires
            c > 0,
    ;
}

/// Scaling both sides of a quotient leaves its rounding alone.
pub proof fn lemma_rounded_scales(f: Format, num: nat, den: nat, c: nat)
    requires
        den > 0,
        c > 0,
    ensures
        rounded(f, num * c, den * c) == rounded(f, num, den),
        rounded_magnitude(f, num * c, den * c) == rounded_magnitude(f, num, den),
{
    lemma_nearest_scales(num, den, c);
    let k = excess(f, num / den);
    lemma_pow2_pos(k);
    let p = pow2(k);
    assert(den * c * p == den * p * c) by (nonlinear_arith);
    assert(den * p > 0) by (nonlinear_arith)
        requires
            den > 0,
            p > 0,
    ;
    lemma_nearest_scales(num, den * p, c);
}

proof fn lemma_excess_at_least(f: Format, q: nat, k: nat)
    requires
        k > 0,
        q >= pow2((f.precision() + k - 1) as nat),
    ensures
        excess(f, q) >= k,
    decreases k,
{
    let p = f.precision();
    lemma_lead_is_power(f);
    if k > 1 {
        lemma_pow2_unfold((p + k - 1) as nat);
        lemma_pow2_strictly_increases(p, (p + k - 1) as nat);
        lemma_excess_at_least(f, q / 2, (k - 1) as nat);
    }
}

/// A quotient below one half of a unit rounds to zero.
pub proof fn lemma_small_rounds_away(f: Format, num: nat, den: nat)
    requires
        2 * num < den,
    ensures
        rounded_magnitude(f, num, den) == 0,
{
    lemma2_to64();
    lemma_fundamental_div_mod_converse(num as int, den as int, 0, num as int);
    assert(den * pow2(0) == den) by (nonlinear_arith)
        requires
            pow2(0) == 1,
    ;
    assert(excess(f, 0) == 0);
    assert(nearest_even(num, den) == 0);
    assert(0 * f.lead() == 0);
}

/// A quotient of `2^2100` units is too large for either format.
pub proof fn lemma_large_rounds_to_infinity(f: Format, num: nat, den: nat)
    requires
        den > 0,
        num >= den * pow2(2100),
    ensures
        rounded_magnitude(f, num, den) == f.infinity(),
{
    lemma_quotient_at_least(num, den, pow2(2100));
    let q = num / den;
    lemma_pow2_strictly_increases((f.precision() + 2046) as nat, 2100);
    lemma_excess_at_least(f, q, 2047);
    let k = excess(f, q);
    let lead = f.lead();
    assert(k * lead >= 2047 * lead) by (nonlinear_arith)
        requires
            k >= 2047,
            lead > 0,
    ;
}

/// How a quotient is held while it is rounded: `num == sig * block + rest`, where
/// a block is `2^shift` times the denominator.
pub open spec fn held(num: nat, den: nat, sig: nat, shift: int, block: nat, rest: nat) -> bool {
    &&& num == sig * block + rest
    &&& rest < block
    &&& den > 0
    &&& shift >= 0 ==> block == den * pow2(shift as nat)
    &&& shift < 0 ==> den == block * pow2((-shift) as nat)
}

/// The excess of a held quotient follows from the length of its significand.
proof fn lemma_held_excess(
    f: Format,
    num: nat,
    den: nat,
    sig: nat,
    shift: int,
    block: nat,
    rest: nat,
    len: nat,
)
    requires
        held(num, den, sig, shift, block, rest),
        len > 0,
        pow2((len - 1) as nat) <= sig < pow2(len),
    ensures
        excess(f, num / den) == (if len + shift > f.precision() {
            (len + shift - f.precision()) as nat
        } else {
            0
        }),
{
    let p = f.precision();
    let q = num / den;
    let top = pow2(len);
    let low = pow2((len - 1) as nat);
    assert(num < top * block) by (nonlinear_arith)
        requires
            num == sig * block + rest,
            rest < block,
            sig + 1 <= top,
    ;
    assert(low * block <= num) by (nonlinear_arith)
        requires
            num == sig * block + rest,
            low <= sig,
    ;
    lemma_fundamental_div_mod(num as int, den as int);
    if len + shift > p {
        let hi = (len + shift) as nat;
        let lo = (len + shift - 1) as nat;
        lemma_held_block(den, shift, block, len);
        lemma_held_block(den, shift, block, (len - 1) as nat);
        lemma_quotient_below(num, den, pow2(hi));
        lemma_quotient_at_least(num, den, pow2(lo));
        lemma_excess_between(f, q, (len + shift - p) as nat);
    } else {
        if len + shift >= 0 {
            let hi = (len + shift) as nat;
            lemma_held_block(den, shift, block, len);
            lemma_quotient_below(num, den, pow2(hi));
            if hi < p {
                lemma_pow2_strictly_increases(hi, p);
            }
        } else {
            lemma_pow2_strictly_increases(len, (-shift) as nat);
            let w = pow2((-shift) as nat);
            assert(num < den * 1) by (nonlinear_arith)
                requires
                    num < top * block,
                    top < w,
                    den == block * w,
            ;
            lemma_quotient_below(num, den, 1);
            lemma_pow2_pos(p);
        }
        lemma_excess_between(f, q, 0);
    }
}

/// A power of two times a block is a power of two times the denominator.
proof fn lemma_held_block(den: nat, shift: int, block: nat, n: nat)
    requires
        n + shift >= 0,
        shift >= 0 ==> block == den * pow2(shift as nat),
        shift < 0 ==> den == block * pow2((-shift) as nat),
    ensures
        pow2(n) * block == den * pow2((n + shift) as nat),
{
    if shift >= 0 {
        lemma_pow2_adds(n, shift as nat);
        let a = pow2(n);
        let b = pow2(shift as nat);
        assert(a * (den * b) == den * (a * b)) by (nonlinear_arith);
        assert((n + shift) as nat == n + shift as nat);
    } else {
        let m = (n + shift) as nat;
        lemma_pow2_adds(m, (-shift) as nat);
        assert(m + (-shift) as nat == n);
        let a = pow2(m);
        let b = pow2((-shift) as nat);
        assert((a * b) * block == (block * b) * a) by (nonlinear_arith);
    }
}

proof fn lemma_quotient_below(num: nat, den: nat, bound: nat)
    requires
        den > 0,
        num < den * bound || num < bound * den,
    ensures
        num / den < bound,
{
    let q = num / den;
    lemma_fundamental_div_mod(num as int, den as int);
    assert(q < bound) by (nonlinear_arith)
        requires
            den * q <= num,
            num < den * bound || num < bound * den,
            den > 0,
    ;
}

proof fn lemma_quotient_at_least(num: nat, den: nat, bound: nat)
    requires
        den > 0,
        den * bound <= num,
    ensures
        bound <= num / den,
{
    let q = num / den;
    let r = num % den;
    lemma_fundamental_div_mod(num as int, den as int);
    assert(bound <= q) by (nonlinear_arith)
        requires
            den * bound <= num,
            num == den * q + r,
            r < den,
            den > 0,
    ;
}

/// Cutting `cut` binary places off the significand of a held quotient rounds it
/// to the nearest integer, once the part cut off is compared with one half.
proof fn lemma_held_nearest(num: nat, den: nat, sig: nat, block: nat, rest: nat, cut: nat)
    requires
        num == sig * block + rest,
        rest < block,
        cut > 0,
        den == block * pow2(cut),
    ensures
        ({
            let q = sig / pow2(cut);
            let r = sig % pow2(cut);
            let half = pow2((cut - 1) as nat);
            nearest_even(num, den) == (if r < half || (r == half && rest == 0 && q % 2 == 0) {
                q
            } else {
                q + 1
            })
        }),
{
    let w = pow2(cut);
    let half = pow2((cut - 1) as nat);
    lemma_pow2_pos(cut);
    lemma_pow2_unfold(cut);
    let q = sig / w;
    let r = sig % w;
    lemma_fundamental_div_mod(sig as int, w as int);
    let part = r * block + rest;
    assert(num == q * den + part) by (nonlinear_arith)
        requires
            num == sig * block + rest,
            sig == w * q + r,
            den == block * w,
            part == r * block + rest,
    ;
    assert(part < den) by (nonlinear_arith)
        requires
            r + 1 <= w,
            rest < block,
            den == block * w,
            part == r * block + rest,
    ;
    lemma_fundamental_div_mod_converse(num as int, den as int, q as int, part as int);
    assert(den == 2 * (half * block)) by (nonlinear_arith)
        requires
            den == block * w,
            w == 2 * half,
    ;
    if r < half {
        assert(part < half * block) by (nonlinear_arith)
            requires
                r + 1 <= half,
                rest < block,
                part == r * block + rest,
        ;
    } else if r > half {
        assert(part > half * block) by (nonlinear_arith)
            requires
                r >= half + 1,
                rest < block,
                part == r * block + rest,
        ;
    }
}

/// The number of binary digits of `n`.
pub fn bit_length(n: u128) -> (len: u32)
    requires
        n > 0,
    ensures
        0 < len <= 128,
        pow2((len - 1) as nat) <= n < pow2(len as nat),
{
    let mut len: u32 = 1;
    let mut left: u128 = n / 2;
    proof {
        lemma2_to64();
    }
    while left > 0
        invariant
            0 < len <= 128,
            n > 0,
            left == n as nat / pow2(len as nat),
            pow2((len - 1) as nat) <= n,
        decreases left,
    {
        proof {
            let w = pow2(len as nat);
            lemma_pow2_pos(len as nat);
            lemma_pow2_unfold((len + 1) as nat);
            lemma_fundamental_div_mod(n as int, w as int);
            assert(w <= n) by (nonlinear_arith)
                requires
                    n == w * left + n as nat % w,
                    left > 0,
                    w > 0,
            ;
            if len == 128 {
                lemma_pow2_128();
            }
            lemma_div_denominator(n as int, w as int, 2);
            assert(pow2((len + 1) as nat) == w * 2);
        }
        left = left / 2;
        len = len + 1;
    }
    proof {
        let w = pow2(len as nat);
        lemma_pow2_pos(len as nat);
        lemma_small_div_converse(n as int, w as int);
    }
    len
}

proof fn lemma_pow2_128()
    ensures
        pow2(127) == 0x8000_0000_0000_0000_0000_0000_0000_0000nat,
        pow2(128) == 0x1_0000_0000_0000_0000_0000_0000_0000_0000nat,
{
    lemma2_to64();
    lemma2_to64_rest();
    lemma_pow2_adds(63, 64);
    lemma_pow2_adds(64, 64);
}

/// `2^k`.
pub fn power_of_two(k: u32) -> (w: u128)
    requires
        k < 128,
    ensures
        w == pow2(k as nat),
{
    let top: u128 = 0x8000_0000_0000_0000_0000_0000_0000_0000;
    proof {
        lemma_pow2_128();
        lemma_u128_shr_is_div(top, (127 - k) as u128);
        lemma_pow2_adds(k as nat, (127 - k) as nat);
        lemma_pow2_pos((127 - k) as nat);
        let a = pow2(k as nat);
        let b = pow2((127 - k) as nat);
        lemma_fundamental_div_mod_converse((a * b) as int, b as int, a as int, 0);
    }
    top >> ((127 - k) as u128)
}

/// The places that a held significand is too long by once it is cut at `cut`, where
/// that is the place of the last digit kept, are no more than the precision.
proof fn lemma_cut_fits(f: Format, sig: nat, len: nat, cut: nat)
    requires
        sig < pow2(len),
        len <= cut + f.precision(),
    ensures
        sig / pow2(cut) < pow2(f.precision()),
{
    let p = f.precision();
    lemma_pow2_adds(cut, p);
    lemma_pow2_pos(cut);
    if len < cut + p {
        lemma_pow2_strictly_increases(len, cut + p);
    }
    lemma_quotient_below(sig, pow2(cut), pow2(p));
}

/// Lengthening a significand keeps it in the precision.
proof fn lemma_lengthened_fits(f: Format, sig: nat, len: nat, by: nat)
    requires
        sig < pow2(len),
        len + by <= f.precision(),
    ensures
        sig * pow2(by) < pow2(f.precision()),
{
    let p = f.precision();
    lemma_pow2_adds(len, by);
    lemma_pow2_pos(by);
    if len + by < p {
        lemma_pow2_strictly_increases(len + by, p);
    }
    let w = pow2(by);
    let t = pow2(len);
    assert(sig * w < t * w) by (nonlinear_arith)
        requires
            sig < t,
            w > 0,
    ;
}

/// Rounds a held quotient to the format. The significand holds the leading digits
/// of the quotient; `sticky` tells whether anything follows them.
pub fn round_held(
    f: Format,
    sig: u128,
    shift: i32,
    sticky: bool,
    Ghost(num): Ghost<nat>,
    Ghost(den): Ghost<nat>,
    Ghost(block): Ghost<nat>,
    Ghost(rest): Ghost<nat>,
) -> (ordinal: u64)
    requires
        held(num, den, sig as nat, shift as int, block, rest),
        sticky == (rest > 0),
        sticky ==> sig >= 2 * f.lead(),
        sig < 0x8000_0000_0000_0000_0000_0000_0000_0000u128,
        -8000 <= shift <= 8000,
    ensures
        ordinal == rounded_magnitude(f, num, den),
{
    proof {
        lemma_lead_is_power(f);
        lemma_pow2_128();
        lemma2_to64();
        lemma2_to64_rest();
    }
    if sig == 0 {
        proof {
            assert(num == 0) by (nonlinear_arith)
                requires
                    num == sig * block + rest,
                    sig == 0,
                    rest == 0,
            ;
            assert(den * pow2(0) == den);
            lemma_fundamental_div_mod_converse(0, den as int, 0, 0);
        }
        return 0;
    }
    let len: u32 = bit_length(sig);
    let precision: i32 = f.precision_bits();
    let k: i32 = if len as i32 + shift > precision {
        len as i32 + shift - precision
    } else {
        0
    };
    proof {
        lemma_held_excess(f, num, den, sig as nat, shift as int, block, rest, len as nat);
        if len == 128 {
            assert(false);
        }
        if sticky && len <= precision {
            if len < precision {
                lemma_pow2_strictly_increases(len as nat, precision as nat);
            }
            assert(false);
        }
    }
    let lead: u64 = f.lead_bits();
    let infinity: u64 = f.infinity_bits();
    let ghost nearest = nearest_even(num, den * pow2(k as nat));
    if k >= 2047 || (k >= 255 && precision == 24) {
        proof {
            let lead_ = f.lead();
            assert(k * lead_ >= f.infinity()) by (nonlinear_arith)
                requires
                    (k >= 2047 && lead_ == 0x10_0000_0000_0000 && f.infinity()
                        == 0x7ff0_0000_0000_0000) || (k >= 255 && lead_ == 0x80_0000
                        && f.infinity() == 0x7f80_0000),
            ;
        }
        return infinity;
    }
    let cut: i32 = k - shift;
    let r: u64;
    if cut > 0 {
        proof {
            if shift <= k {
                lemma_held_block_cut(den, shift as int, block, k as nat);
            }
            lemma_held_nearest(
                num,
                den * pow2(k as nat),
                sig as nat,
                block,
                rest,
                cut as nat,
            );
            lemma_cut_fits(f, sig as nat, len as nat, cut as nat);
            lemma_pow2_pos(cut as nat);
            lemma_pow2_unfold(cut as nat);
        }
        if cut >= 128 {
            proof {
                if cut > 128 {
                    lemma_pow2_strictly_increases(127, (cut - 1) as nat);
                }
                lemma_pow2_pos((cut - 1) as nat);
                lemma_fundamental_div_mod_converse(
                    sig as int,
                    pow2(cut as nat) as int,
                    0,
                    sig as int,
                );
            }
            r = 0;
        } else {
            let w: u128 = power_of_two(cut as u32);
            let half: u128 = power_of_two((cut - 1) as u32);
            let q: u128 = sig / w;
            let part: u128 = sig % w;
            if part < half || (part == half && !sticky && q % 2 == 0) {
                r = q as u64;
            } else {
                r = q as u64 + 1;
            }
        }
    } else {
        let by: u32 = (-cut) as u32;
        proof {
            assert(!sticky);
            lemma_lengthened_fits(f, sig as nat, len as nat, by as nat);
            lemma_pow2_pos(by as nat);
            lemma_pow2_adds(k as nat, by as nat);
            let w = pow2(by as nat);
            let d = den * pow2(k as nat);
            assert(block == d * w) by (nonlinear_arith)
                requires
                    block == den * (pow2(k as nat) * w),
                    d == den * pow2(k as nat),
            ;
            assert(num == d * (sig * w)) by (nonlinear_arith)
                requires
                    num == sig * block + rest,
                    rest == 0,
                    block == d * w,
            ;
            lemma_pow2_pos(k as nat);
            assert(d > 0) by (nonlinear_arith)
                requires
                    d == den * pow2(k as nat),
                    den > 0,
                    pow2(k as nat) > 0,
            ;
            assert((sig * w) * d + 0 == d * (sig * w)) by (nonlinear_arith);
            lemma_fundamental_div_mod_converse(num as int, d as int, (sig * w) as int, 0);
            assert(w <= sig * w) by (nonlinear_arith)
                requires
                    sig >= 1,
                    w > 0,
            ;
            assert(sig <= sig * w) by (nonlinear_arith)
                requires
                    sig >= 1,
                    w > 0,
            ;
        }
        r = sig as u64 * power_of_two(by) as u64;
    }
    proof {
        assert(r == nearest);
        assert(k as nat * f.lead() <= 0x7ff0_0000_0000_0000) by (nonlinear_arith)
            requires
                (k <= 2047 && f.lead() == 0x10_0000_0000_0000) || (k <= 255 && f.lead()
                    == 0x80_0000),
                k >= 0,
        ;
    }
    let ordinal: u64 = k as u64 * lead + r;
    if ordinal < infinity {
        ordinal
    } else {
        infinity
    }
}

/// A block is the denominator at `k` cut down by the places in between.
proof fn lemma_held_block_cut(den: nat, shift: int, block: nat, k: nat)
    requires
        shift <= k,
        shift >= 0 ==> block == den * pow2(shift as nat),
        shift < 0 ==> den == block * pow2((-shift) as nat),
    ensures
        den * pow2(k) == block * pow2((k - shift) as nat),
{
    let cut = (k - shift) as nat;
    if shift >= 0 {
        lemma_pow2_adds(shift as nat, cut);
        assert(shift as nat + cut == k);
        let a = pow2(shift as nat);
        let b = pow2(cut);
        assert(den * (a * b) == (den * a) * b) by (nonlinear_arith);
    } else {
        let n = (-shift) as nat;
        lemma_pow2_adds(n, k);
        assert(n + k == cut);
        let a = pow2(n);
        let b = pow2(k);
        assert((block * a) * b == block * (a * b)) by (nonlinear_arith);
    }
}

} // verus!
