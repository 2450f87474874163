//! How near rounded quotients are to the exact ones.

use vstd::prelude::*;
use vstd::arithmetic::div_mod::{lemma_fundamental_div_mod, lemma_fundamental_div_mod_converse};
use vstd::arithmetic::power2::{
    pow2, lemma_pow2_adds, lemma_pow2_pos, lemma_pow2_strictly_increases, lemma_pow2_unfold,
    lemma2_to64,
};
use crate::rounding::{
    Format, excess, lemma_lead_is_power, nearest_even, places, rounded, rounded_magnitude,
    significand, units,
};

verus! {

/// Between which powers of two a quotient lies whose excess is known.
pub proof fn lemma_excess_range(f: Format, q: nat)
    ensures
        q < 2 * f.lead() * pow2(excess(f, q)),
        excess(f, q) > 0 ==> f.lead() * pow2(excess(f, q)) <= q,
    decreases q,
{
    lemma2_to64();
    let lead = f.lead();
    if q >= 2 * lead {
        lemma_excess_range(f, q / 2);
        let k = excess(f, q / 2);
        lemma_pow2_unfold(k + 1);
        let w = pow2(k);
        assert(2 * lead * (2 * w) == 2 * (2 * lead * w)) by (nonlinear_arith);
        if k == 0 {
            assert(lead * (2 * 1) == 2 * lead) by (nonlinear_arith);
        } else {
            assert(lead * (2 * w) == 2 * (lead * w)) by (nonlinear_arith);
        }
    } else {
        assert(2 * lead * 1 == 2 * lead);
    }
}

/// The nearest whole number is off by one half at most.
proof fn lemma_nearest_is_near(num: nat, den: nat)
    requires
        den > 0,
    ensures
        2 * (nearest_even(num, den) * den) <= 2 * num + den,
        2 * num <= 2 * (nearest_even(num, den) * den) + den,
{
    let q = num / den;
    let r = num % den;
    lemma_fundamental_div_mod(num as int, den as int);
    assert(den * q == q * den) by (nonlinear_arith);
    assert((q + 1) * den == q * den + den) by (nonlinear_arith);
}

/// The magnitude of an ordinal that is put together from places and a significand.
pub proof fn lemma_units_of(f: Format, k: nat, r: nat)
    requires
        r <= 2 * f.lead(),
        k > 0 ==> r >= f.lead(),
    ensures
        units(f, k * f.lead() + r) == r * pow2(k),
{
    let lead = f.lead();
    let o = k * lead + r;
    lemma2_to64();
    if r < lead {
        assert(k == 0);
        assert(0 * lead == 0);
        assert(r * 1 == r);
    } else if r < 2 * lead {
        assert(o == (k + 1) * lead + (r - lead)) by (nonlinear_arith)
            requires
                o == k * lead + r,
        ;
        lemma_fundamental_div_mod_converse(o as int, lead as int, (k + 1) as int, r - lead);
        assert(o >= lead) by (nonlinear_arith)
            requires
                o == k * lead + r,
                r >= lead,
        ;
    } else {
        assert(o == (k + 2) * lead + 0) by (nonlinear_arith)
            requires
                o == k * lead + r,
                r == 2 * lead,
        ;
        lemma_fundamental_div_mod_converse(o as int, lead as int, (k + 2) as int, 0);
        assert(o >= lead) by (nonlinear_arith)
            requires
                o == k * lead + r,
                r >= lead,
        ;
        lemma_pow2_unfold(k + 1);
        let w = pow2(k);
        assert(lead * (2 * w) == (2 * lead) * w) by (nonlinear_arith);
    }
}

/// A quotient that is not too small for the format is rounded to a value that differs from it by
/// at most one part in twice the leading significand.
pub proof fn lemma_rounding_error(f: Format, num: nat, den: nat)
    requires
        den > 0,
        num >= den * f.lead(),
        rounded_magnitude(f, num, den) < f.infinity(),
    ensures
        ({
            let u = units(f, rounded_magnitude(f, num, den));
            &&& 2 * f.lead() * (u * den) <= 2 * f.lead() * num + num
            &&& 2 * f.lead() * num <= 2 * f.lead() * (u * den) + num
        }),
{
    let lead = f.lead();
    let q = num / den;
    let k = excess(f, q);
    let w = pow2(k);
    lemma_pow2_pos(k);
    lemma2_to64();
    lemma_fundamental_div_mod(num as int, den as int);
    lemma_excess_range(f, q);
    let d = den * w;
    // The blocks that are counted are no larger than the part that a leading significand takes.
    assert(lead * d <= num) by (nonlinear_arith)
        requires
            d == den * w,
            k > 0 ==> lead * w <= q,
            k == 0 ==> w == 1,
            den * q <= num,
            num >= den * lead,
            k >= 0,
    ;
    assert(num < 2 * lead * d) by (nonlinear_arith)
        requires
            d == den * w,
            q + 1 <= 2 * lead * w,
            num < den * q + den,
    ;
    assert(d > 0) by (nonlinear_arith)
        requires
            d == den * w,
            den > 0,
            w > 0,
    ;
    let r = nearest_even(num, d);
    lemma_nearest_is_near(num, d);
    lemma_fundamental_div_mod(num as int, d as int);
    let c = num / d;
    assert(c >= lead) by (nonlinear_arith)
        requires
            lead * d <= num,
            num < d * c + d,
            d > 0,
    ;
    assert(c < 2 * lead) by (nonlinear_arith)
        requires
            num < 2 * lead * d,
            d * c <= num,
            d > 0,
    ;
    let o = k * lead + r;
    assert(o == rounded(f, num, den));
    lemma_units_of(f, k, r);
    let u = units(f, o);
    assert(u * den == r * d) by (nonlinear_arith)
        requires
            u == r * w,
            d == den * w,
    ;
    assert(2 * lead * (r * d) <= 2 * lead * num + lead * d) by (nonlinear_arith)
        requires
            2 * (r * d) <= 2 * num + d,
    ;
    assert(2 * lead * num <= 2 * lead * (r * d) + lead * d) by (nonlinear_arith)
        requires
            2 * num <= 2 * (r * d) + d,
    ;
}

/// A quotient that is neither too small nor too large for the format is rounded to a finite
/// value, and the part by which it changes is at most one in twice the leading significand.
pub proof fn lemma_rounding_is_near(f: Format, num: nat, den: nat, top: nat)
    requires
        den > 0,
        num >= den * f.lead(),
        num < den * pow2(top),
        top <= f.precision() + 250,
    ensures
        rounded_magnitude(f, num, den) < f.infinity(),
        ({
            let u = units(f, rounded_magnitude(f, num, den));
            &&& 2 * f.lead() * (u * den) <= 2 * f.lead() * num + num
            &&& 2 * f.lead() * num <= 2 * f.lead() * (u * den) + num
        }),
{
    let lead = f.lead();
    let p = f.precision();
    let q = num / den;
    let k = excess(f, q);
    lemma_lead_is_power(f);
    lemma_fundamental_div_mod(num as int, den as int);
    lemma_excess_range(f, q);
    // The quotient lies below a power of two, so the excess is small.
    assert(q < pow2(top)) by (nonlinear_arith)
        requires
            den * q <= num,
            num < den * pow2(top),
            den > 0,
    ;
    if k > 0 {
        lemma_pow2_adds((p - 1) as nat, k);
        if p - 1 + k >= top {
            if p - 1 + k > top {
                lemma_pow2_strictly_increases(top, (p - 1 + k) as nat);
            }
            assert(false);
        }
    }
    assert(k <= 251);
    lemma_filled(f, num, den);
    let o = rounded(f, num, den);
    let r = nearest_even(num, den * pow2(k));
    assert(o <= 253 * lead) by (nonlinear_arith)
        requires
            o == k * lead + r,
            k <= 251,
            r <= 2 * lead,
    ;
    lemma_rounding_error(f, num, den);
}

/// Greater ordinals stand for greater magnitudes.
pub proof fn lemma_units_grow(f: Format, a: nat, b: nat)
    requires
        a <= b,
    ensures
        units(f, a) <= units(f, b),
{
    let lead = f.lead();
    lemma2_to64();
    let sa = significand(f, a);
    let sb = significand(f, b);
    let pa = places(f, a);
    let pb = places(f, b);
    lemma_pow2_pos(pa);
    lemma_pow2_pos(pb);
    let wa = pow2(pa);
    let wb = pow2(pb);
    if a < lead {
        assert(sa * 1 == sa);
        assert(sa * wa <= sb * wb) by (nonlinear_arith)
            requires
                wa == 1,
                sa <= sb,
                wb >= 1,
        ;
    } else {
        lemma_fundamental_div_mod(a as int, lead as int);
        lemma_fundamental_div_mod(b as int, lead as int);
        let qa = a / lead;
        let qb = b / lead;
        assert(1 <= qa <= qb) by (nonlinear_arith)
            requires
                lead * qa <= a,
                a < lead * qa + lead,
                lead * qb <= b,
                b < lead * qb + lead,
                lead <= a <= b,
                lead > 0,
        ;
        if qa == qb {
            assert(sa * wa <= sb * wb) by (nonlinear_arith)
                requires
                    wa == wb,
                    sa <= sb,
            ;
        } else {
            lemma_pow2_unfold(pa + 1);
            if pa + 1 < pb {
                lemma_pow2_strictly_increases(pa + 1, pb);
            }
            assert(sa * wa <= sb * wb) by (nonlinear_arith)
                requires
                    sa <= 2 * lead,
                    sb >= lead,
                    2 * wa <= wb,
            ;
        }
    }
}

proof fn lemma_excess_grows(f: Format, a: nat, b: nat)
    requires
        a <= b,
    ensures
        excess(f, a) <= excess(f, b),
    decreases b,
{
    if a >= 2 * f.lead() {
        lemma_excess_grows(f, a / 2, b / 2);
    }
}

proof fn lemma_quotient_grows(a: nat, b: nat, den: nat)
    requires
        a <= b,
        den > 0,
    ensures
        a / den <= b / den,
        nearest_even(a, den) <= nearest_even(b, den),
{
    let qa = a / den;
    let qb = b / den;
    let ra = a % den;
    let rb = b % den;
    lemma_fundamental_div_mod(a as int, den as int);
    lemma_fundamental_div_mod(b as int, den as int);
    assert(qa <= qb) by (nonlinear_arith)
        requires
            den * qa <= a,
            b < den * qb + den,
            a <= b,
            den > 0,
    ;
    if qa == qb {
        assert(ra <= rb) by (nonlinear_arith)
            requires
                a == den * qa + ra,
                b == den * qb + rb,
                qa == qb,
                a <= b,
        ;
    }
}

/// A quotient with an excess fills the significand.
proof fn lemma_filled(f: Format, num: nat, den: nat)
    requires
        den > 0,
    ensures
        nearest_even(num, den * pow2(excess(f, num / den))) <= 2 * f.lead(),
        excess(f, num / den) > 0 ==> nearest_even(num, den * pow2(excess(f, num / den)))
            >= f.lead(),
{
    let lead = f.lead();
    let q = num / den;
    let k = excess(f, q);
    let w = pow2(k);
    lemma_pow2_pos(k);
    lemma_excess_range(f, q);
    lemma_fundamental_div_mod(num as int, den as int);
    let d = den * w;
    assert(d > 0) by (nonlinear_arith)
        requires
            d == den * w,
            den > 0,
            w > 0,
    ;
    assert(num < 2 * lead * d) by (nonlinear_arith)
        requires
            d == den * w,
            q + 1 <= 2 * lead * w,
            num < den * q + den,
    ;
    lemma_fundamental_div_mod(num as int, d as int);
    let c = num / d;
    assert(c < 2 * lead) by (nonlinear_arith)
        requires
            num < 2 * lead * d,
            d * c <= num,
            d > 0,
    ;
    if k > 0 {
        assert(lead * d <= num) by (nonlinear_arith)
            requires
                d == den * w,
                lead * w <= q,
                den * q <= num,
        ;
        assert(c >= lead) by (nonlinear_arith)
            requires
                lead * d <= num,
                num < d * c + d,
                d > 0,
        ;
    }
}

/// Greater quotients are rounded to greater ordinals.
pub proof fn lemma_rounding_grows(f: Format, a: nat, b: nat, den: nat)
    requires
        a <= b,
        den > 0,
    ensures
        rounded_magnitude(f, a, den) <= rounded_magnitude(f, b, den),
{
    let lead = f.lead();
    lemma_quotient_grows(a, b, den);
    lemma_excess_grows(f, a / den, b / den);
    lemma_filled(f, a, den);
    lemma_filled(f, b, den);
    let ka = excess(f, a / den);
    let kb = excess(f, b / den);
    lemma_pow2_pos(ka);
    if ka == kb {
        let d = den * pow2(ka);
        assert(d > 0) by (nonlinear_arith)
            requires
                d == den * pow2(ka),
                den > 0,
                pow2(ka) > 0,
        ;
        lemma_quotient_grows(a, b, d);
    } else {
        assert(ka * lead + 2 * lead <= kb * lead + lead) by (nonlinear_arith)
            requires
                ka + 1 <= kb,
        ;
    }
}

} // verus!
