//! How large pictures are made before text is detected or read in them.

use vstd::prelude::*;
use vstd::arithmetic::div_mod::lemma_fundamental_div_mod;
use vstd::arithmetic::power2::{
    pow2, lemma_pow2_adds, lemma_pow2_pos, lemma_pow2_strictly_increases, lemma_pow2_unfold,
    lemma2_to64, lemma2_to64_rest,
};
use crate::accuracy::{lemma_rounding_is_near, lemma_units_grow};
use crate::datum::{Datum, nearest_whole, of_whole, product_of, quotient_of};
use crate::float::F32;
use crate::ocr::detection::{detection_size_of, LONGEST_SIDE, ONE_SINGLE, SMALLEST_SIDE};
use crate::ocr::preparation::{enlarged_size, LEAST_SINGLE, LOW_HEIGHT, READABLE_SINGLE};
use crate::picture::LONGEST_SCALED_SIDE;
use crate::rounding::{Format, rounded_magnitude, units};

verus! {

/// The magnitude of a whole number of 32 bits, rounded: off by one part in `2^24` at most.
pub proof fn lemma_count_is_near(n: nat)
    requires
        1 <= n < 0x1_0000_0000,
    ensures
        ({
            let d = F32::of_nat(n).datum();
            let a = units(Format::Single, d.mag as nat);
            let exact = n * pow2(149);
            &&& !d.neg
            &&& 0 < d.mag < Format::Single.infinity()
            &&& 0x100_0000 * a <= 0x100_0001 * exact
            &&& 0xff_ffff * exact <= 0x100_0000 * a
            &&& d == of_whole(Format::Single, n)
        }),
{
    reveal(of_whole);
    let f = Format::Single;
    let u = pow2(149);
    let exact = n * u;
    lemma2_to64();
    lemma2_to64_rest();
    lemma_pow2_adds(32, 149);
    lemma_pow2_strictly_increases(23, 149);
    assert(exact * 1 == exact);
    assert(exact >= 1 * f.lead()) by (nonlinear_arith)
        requires
            exact == n * u,
            n >= 1,
            u >= f.lead(),
    ;
    assert(exact < 1 * pow2(181)) by (nonlinear_arith)
        requires
            exact == n * u,
            n < 0x1_0000_0000,
            pow2(181) == 0x1_0000_0000 * u,
            u > 0,
    ;
    lemma_rounding_is_near(f, exact, 1, 181);
    let m = rounded_magnitude(f, exact, 1);
    let a = units(f, m);
    assert(a * 1 == a);
    assert(F32::of_nat(n).datum() == of_whole(f, n));
    if m == 0 {
        assert(a == 0 * pow2(0));
    }
}

/// The magnitude of 960.
proof fn lemma_longest_side()
    ensures
        units(Format::Single, LONGEST_SIDE as nat) == 960 * pow2(149),
        units(Format::Single, ONE_SINGLE as nat) == pow2(149),
{
    lemma2_to64();
    lemma_pow2_adds(14, 135);
    lemma_pow2_adds(23, 126);
    let w = pow2(135);
    assert(0xf0_0000 * w == 960 * (0x4000 * w)) by (nonlinear_arith);
}

/// How much a picture is scaled by before detection: never by more than brings its longest side
/// to 960, but for rounding.
proof fn lemma_scale_is_small(longest: u32)
    requires
        longest >= 1,
    ensures
        ({
            let one = F32 { bits: ONE_SINGLE };
            let scale = (F32 { bits: LONGEST_SIDE }).spec_over(
                F32::of_nat(longest as nat),
            ).spec_min(one);
            let d = scale.datum();
            let v = units(Format::Single, d.mag as nat);
            let a = units(Format::Single, F32::of_nat(longest as nat).datum().mag as nat);
            let u = pow2(149);
            &&& !d.neg
            &&& d.mag < Format::Single.infinity()
            &&& 0x100_0000 * (v * a) <= 0x100_0001 * (960 * u * u)
            &&& v >= pow2(100)
        }),
{
    reveal(quotient_of);
    let f = Format::Single;
    let u = pow2(149);
    let n = longest as nat;
    let lead = f.lead();
    lemma_count_is_near(n);
    lemma_longest_side();
    lemma2_to64();
    lemma2_to64_rest();
    let a = units(f, F32::of_nat(n).datum().mag as nat);
    let num = 960 * u * u;
    lemma_pow2_pos(149);
    lemma_pow2_pos(148);
    lemma_pow2_unfold(149);
    let half = pow2(148);
    // a lies between u / 2 and 2^33 u
    assert(a >= half) by (nonlinear_arith)
        requires
            0xff_ffff * (n * u) <= 0x100_0000 * a,
            n >= 1,
            u == 2 * half,
            half > 0,
    ;
    assert(a <= 0x2_0000_0000 * u) by (nonlinear_arith)
        requires
            0x100_0000 * a <= 0x100_0001 * (n * u),
            n < 0x1_0000_0000,
            u > 0,
    ;
    lemma_pow2_adds(149, 149);
    lemma_pow2_adds(10, 298);
    lemma_pow2_adds(148, 161);
    lemma_pow2_strictly_increases(308, 309);
    lemma_pow2_pos(161);
    let top = pow2(161);
    assert(num < a * top) by (nonlinear_arith)
        requires
            num == 960 * u * u,
            1024 * (u * u) <= half * top,
            a >= half,
            top > 0,
            u > 0,
    ;
    // Both sides of the other bound, by powers of two.
    lemma_pow2_adds(33, 23);
    lemma_pow2_strictly_increases(56, 149);
    assert(num >= a * lead) by (nonlinear_arith)
        requires
            num == 960 * u * u,
            a <= 0x2_0000_0000 * u,
            lead == 0x80_0000,
            u >= 0x2_0000_0000 * 0x80_0000,
    ;
    lemma_rounding_is_near(f, num, a, 161);
    let m = rounded_magnitude(f, num, a);
    let r = units(f, m);
    assert(960 * u * u == (960 * u) * u) by (nonlinear_arith);
    let k = F32 { bits: LONGEST_SIDE };
    let raw = k.spec_over(F32::of_nat(n));
    assert(raw.datum() == (Datum { neg: false, mag: m as u64 }));
    // The scale is not too small.
    lemma_pow2_adds(33, 100);
    lemma_pow2_strictly_increases(133, 149);
    lemma_pow2_pos(100);
    let low = pow2(100);
    assert(r >= low) by (nonlinear_arith)
        requires
            2 * lead * num <= 2 * lead * (r * a) + num,
            num == 960 * u * u,
            a <= 0x2_0000_0000 * u,
            u >= 0x2_0000_0000 * low,
            lead == 0x80_0000,
            u > 0,
            low > 0,
    ;
    let one = F32 { bits: ONE_SINGLE };
    let scale = raw.spec_min(one);
    let v = units(f, scale.datum().mag as nat);
    if one.spec_less(raw) {
        lemma_units_grow(f, ONE_SINGLE as nat, m);
        lemma_pow2_strictly_increases(100, 149);
    }
    assert(v <= r);
    assert(0x100_0000 * (v * a) <= 0x100_0001 * num) by (nonlinear_arith)
        requires
            v <= r,
            2 * lead * (r * a) <= 2 * lead * num + num,
            lead == 0x80_0000,
            a >= 0,
    ;
}

/// A side no longer than the longest one is brought to 960 at most.
proof fn lemma_side_is_small(side: u32, longest: u32)
    requires
        1 <= side <= longest,
    ensures
        ({
            let scale = (F32 { bits: LONGEST_SIDE }).spec_over(
                F32::of_nat(longest as nat),
            ).spec_min(F32 { bits: ONE_SINGLE });
            F32::of_nat(side as nat).spec_times(scale).spec_round_u32() <= 960
        }),
{
    reveal(product_of);
    reveal(nearest_whole);
    let f = Format::Single;
    let lead = f.lead();
    let u = pow2(149);
    let scale = (F32 { bits: LONGEST_SIDE }).spec_over(F32::of_nat(longest as nat)).spec_min(
        F32 { bits: ONE_SINGLE },
    );
    lemma_count_is_near(side as nat);
    lemma_count_is_near(longest as nat);
    lemma_scale_is_small(longest);
    lemma2_to64();
    lemma2_to64_rest();
    lemma_pow2_pos(149);
    lemma_pow2_pos(100);
    let s = units(f, F32::of_nat(side as nat).datum().mag as nat);
    let a = units(f, F32::of_nat(longest as nat).datum().mag as nat);
    let v = units(f, scale.datum().mag as nat);
    let exact_s = side as nat * u;
    let exact_a = longest as nat * u;
    assert(exact_s <= exact_a) by (nonlinear_arith)
        requires
            exact_s == side * u,
            exact_a == longest * u,
            side <= longest,
            u >= 0,
    ;
    // The two rounded sides stand to each other nearly as the sides do.
    assert(0xff_ffff * s <= 0x100_0001 * a);
    let p = s * v;
    let b = v * a;
    assert(0xff_ffff * p <= 0x100_0001 * b) by (nonlinear_arith)
        requires
            0xff_ffff * s <= 0x100_0001 * a,
            p == s * v,
            b == v * a,
            v >= 0,
    ;
    let square = u * u;
    assert(960 * u * u == 960 * square) by (nonlinear_arith)
        requires
            square == u * u,
    ;
    assert(100 * p <= 96001 * square);
    // The product is neither too small nor too large to be rounded finely.
    assert(s >= u / 2) by (nonlinear_arith)
        requires
            0xff_ffff * exact_s <= 0x100_0000 * s,
            exact_s == side * u,
            side >= 1,
            u >= 0,
    ;
    lemma_pow2_unfold(149);
    lemma_pow2_adds(24, 76);
    lemma_pow2_pos(76);
    let low = pow2(100);
    assert(p >= u * lead) by (nonlinear_arith)
        requires
            p == s * v,
            2 * s >= u,
            v >= low,
            low >= 0x100_0000,
            lead == 0x80_0000,
            u >= 0,
    ;
    lemma_pow2_adds(10, 149);
    assert(p < u * pow2(159)) by (nonlinear_arith)
        requires
            100 * p <= 96001 * square,
            square == u * u,
            pow2(159) == 1024 * u,
            u > 0,
    ;
    lemma_rounding_is_near(f, p, u, 159);
    let m = rounded_magnitude(f, p, u);
    let w = units(f, m);
    let wu = w * u;
    assert(4 * w <= 3841 * u) by (nonlinear_arith)
        requires
            2 * lead * wu <= 2 * lead * p + p,
            wu == w * u,
            100 * p <= 96001 * square,
            square == u * u,
            lead == 0x80_0000,
            u > 0,
    ;
    let product = F32::of_nat(side as nat).spec_times(scale);
    assert(product.datum() == (Datum { neg: false, mag: m as u64 }));
    let n = nearest_whole(f, m);
    lemma_fundamental_div_mod((2 * w + u) as int, (2 * u) as int);
    assert(n <= 960) by (nonlinear_arith)
        requires
            (2 * u) * n <= 2 * w + u,
            4 * w <= 3841 * u,
            u > 0,
    ;
}

/// The picture that text is detected in has sides that are multiples of 32, 32 at least and 960
/// at most.
pub proof fn law_detection_pictures_are_small(width: u32, height: u32)
    requires
        width >= SMALLEST_SIDE,
        height >= SMALLEST_SIDE,
    ensures
        32 <= detection_size_of(width, height).0 <= 960,
        32 <= detection_size_of(width, height).1 <= 960,
        detection_size_of(width, height).0 % 32 == 0,
        detection_size_of(width, height).1 % 32 == 0,
{
    let longest = if width > height {
        width
    } else {
        height
    };
    lemma_side_is_small(width, longest);
    lemma_side_is_small(height, longest);
}

/// The magnitudes of 110 and of 2.
proof fn lemma_readable_height()
    ensures
        units(Format::Single, READABLE_SINGLE as nat) == 110 * pow2(149),
        units(Format::Single, LEAST_SINGLE as nat) == 2 * pow2(149),
{
    lemma2_to64();
    lemma_pow2_adds(17, 132);
    lemma_pow2_adds(23, 127);
    lemma_pow2_adds(1, 149);
    let w = pow2(132);
    assert(0xdc_0000 * w == 110 * (0x2_0000 * w)) by (nonlinear_arith);
}

/// The factor by which a low picture is enlarged.
spec fn enlarging_scale(height: u32) -> F32 {
    (F32 { bits: READABLE_SINGLE }).spec_over(F32::of_nat(height as nat)).spec_max(
        F32 { bits: LEAST_SINGLE },
    )
}

/// How high a low picture becomes.
pub open spec fn readable_height(height: u32) -> nat {
    if height > 55 {
        (2 * height) as nat
    } else {
        110
    }
}

/// The factor by which a low picture is enlarged doubles it at least, and brings it to a readable
/// height, but for rounding.
proof fn lemma_enlarging_scale(height: u32)
    requires
        1 <= height < LOW_HEIGHT,
    ensures
        ({
            let d = enlarging_scale(height).datum();
            let v = units(Format::Single, d.mag as nat);
            let a = units(Format::Single, F32::of_nat(height as nat).datum().mag as nat);
            let u = pow2(149);
            let goal = readable_height(height) * (u * u);
            &&& !d.neg
            &&& d.mag < Format::Single.infinity()
            &&& 2 * u <= v <= 256 * u
            &&& 0x100_0000 * (v * a) <= 0x100_0001 * goal
            &&& 0xff_ffff * goal <= 0x100_0000 * (v * a)
        }),
{
    reveal(quotient_of);
    let f = Format::Single;
    let u = pow2(149);
    let n = height as nat;
    let lead = f.lead();
    lemma_count_is_near(n);
    lemma_readable_height();
    lemma2_to64();
    lemma_pow2_pos(149);
    lemma_pow2_pos(148);
    lemma_pow2_unfold(149);
    let a = units(f, F32::of_nat(n).datum().mag as nat);
    let square = u * u;
    let num = 110 * u * u;
    assert(num == 110 * square) by (nonlinear_arith)
        requires
            num == 110 * u * u,
            square == u * u,
    ;
    let exact = n * u;
    assert(exact >= u && exact <= 79 * u) by (nonlinear_arith)
        requires
            exact == n * u,
            1 <= n <= 79,
            u > 0,
    ;
    assert(2 * a >= u && a <= 80 * u);
    lemma_pow2_adds(8, 149);
    lemma_pow2_strictly_increases(56, 149);
    lemma2_to64_rest();
    let top = pow2(157);
    assert(num < a * top) by (nonlinear_arith)
        requires
            num == 110 * square,
            square == u * u,
            2 * a >= u,
            top == 256 * u,
            u > 0,
    ;
    assert(num >= a * lead) by (nonlinear_arith)
        requires
            num == 110 * square,
            square == u * u,
            a <= 80 * u,
            lead == 0x80_0000,
            u >= 0x100_0000,
    ;
    lemma_rounding_is_near(f, num, a, 157);
    let m = rounded_magnitude(f, num, a);
    let r = units(f, m);
    assert(110 * u * u == (110 * u) * u) by (nonlinear_arith);
    let raw = (F32 { bits: READABLE_SINGLE }).spec_over(F32::of_nat(n));
    assert(raw.datum() == (Datum { neg: false, mag: m as u64 }));
    let two = F32 { bits: LEAST_SINGLE };
    let ra = r * a;
    assert(r <= 256 * u) by (nonlinear_arith)
        requires
            2 * lead * ra <= 2 * lead * num + num,
            ra == r * a,
            num == 110 * square,
            square == u * u,
            2 * a >= u,
            lead == 0x80_0000,
            u > 0,
    ;
    let scale = enlarging_scale(height);
    let v = units(f, scale.datum().mag as nat);
    // Where the quotient is below two, it is replaced.
    let twice = 2 * u * a;
    let exact_twice = 2 * n * square;
    assert(0x100_0000 * twice <= 0x100_0001 * exact_twice && 0xff_ffff * exact_twice
        <= 0x100_0000 * twice) by (nonlinear_arith)
        requires
            0x100_0000 * a <= 0x100_0001 * exact,
            0xff_ffff * exact <= 0x100_0000 * a,
            exact == n * u,
            twice == 2 * u * a,
            exact_twice == 2 * n * square,
            square == u * u,
            u > 0,
    ;
    if raw.spec_less(two) {
        lemma_units_grow(f, m, LEAST_SINGLE as nat);
        assert(r <= 2 * u);
        assert(ra <= twice) by (nonlinear_arith)
            requires
                ra == r * a,
                twice == 2 * u * a,
                r <= 2 * u,
                a >= 0,
        ;
        assert(n >= 55) by (nonlinear_arith)
            requires
                2 * lead * num <= 2 * lead * ra + num,
                ra <= twice,
                0x100_0000 * twice <= 0x100_0001 * exact_twice,
                exact_twice == 2 * n * square,
                num == 110 * square,
                lead == 0x80_0000,
                square > 0,
        ;
        assert(v * a == twice) by (nonlinear_arith)
            requires
                v == 2 * u,
                twice == 2 * u * a,
        ;
    } else {
        lemma_units_grow(f, LEAST_SINGLE as nat, m);
        assert(r >= 2 * u);
        assert(ra >= twice) by (nonlinear_arith)
            requires
                ra == r * a,
                twice == 2 * u * a,
                r >= 2 * u,
                a >= 0,
        ;
        assert(square > 0) by (nonlinear_arith)
            requires
                square == u * u,
                u > 0,
        ;
        assert(n <= 55) by (nonlinear_arith)
            requires
                2 * lead * ra <= 2 * lead * num + num,
                ra >= twice,
                0xff_ffff * exact_twice <= 0x100_0000 * twice,
                exact_twice == 2 * n * square,
                num == 110 * square,
                lead == 0x80_0000,
                square > 0,
        ;
        assert(v == r);
    }
    let goal = readable_height(height) * square;
    assert(height > 55 ==> goal == exact_twice);
    assert(height == 55 ==> goal == exact_twice);
}

/// A product that is near a whole number is rounded to it.
proof fn lemma_product_is_whole(x: F32, y: F32, goal: nat)
    requires
        !x.datum().neg && !y.datum().neg,
        x.datum().mag < Format::Single.infinity(),
        y.datum().mag < Format::Single.infinity(),
        1 <= goal <= 0x20_0000,
        ({
            let u = pow2(149);
            let p = units(Format::Single, x.datum().mag as nat) * units(
                Format::Single,
                y.datum().mag as nat,
            );
            0xff_ffff * (goal * (u * u)) <= 0x100_0000 * p && p <= 0x4000_0000 * (u * u)
        }),
    ensures
        x.spec_times(y).spec_round_u32() >= goal,
        ({
            let u = pow2(149);
            let p = units(Format::Single, x.datum().mag as nat) * units(
                Format::Single,
                y.datum().mag as nat,
            );
            0x100_0000 * p <= 0x100_0001 * (goal * (u * u)) ==> x.spec_times(y).spec_round_u32()
                == goal
        }),
{
    reveal(product_of);
    reveal(nearest_whole);
    let f = Format::Single;
    let lead = f.lead();
    let u = pow2(149);
    let square = u * u;
    let p = units(f, x.datum().mag as nat) * units(f, y.datum().mag as nat);
    lemma2_to64();
    lemma2_to64_rest();
    lemma_pow2_pos(149);
    lemma_pow2_strictly_increases(56, 149);
    lemma_pow2_adds(31, 149);
    let target = goal * square;
    assert(square >= u * 0x100_0000) by (nonlinear_arith)
        requires
            square == u * u,
            u >= 0x100_0000,
    ;
    assert(target >= square) by (nonlinear_arith)
        requires
            target == goal * square,
            goal >= 1,
            square >= 0,
    ;
    assert(p >= u * lead) by (nonlinear_arith)
        requires
            0xff_ffff * target <= 0x100_0000 * p,
            target >= square,
            square >= u * 0x100_0000,
            lead == 0x80_0000,
            u > 0,
    ;
    assert(p < u * pow2(180)) by (nonlinear_arith)
        requires
            p <= 0x4000_0000 * square,
            square == u * u,
            pow2(180) == 0x8000_0000 * u,
            u > 0,
    ;
    lemma_rounding_is_near(f, p, u, 180);
    let m = rounded_magnitude(f, p, u);
    let w = units(f, m);
    let wu = w * u;
    let product = x.spec_times(y);
    assert(product.datum() == (Datum { neg: false, mag: m as u64 }));
    let n = nearest_whole(f, m);
    lemma_fundamental_div_mod((2 * w + u) as int, (2 * u) as int);
    assert(2 * w + u >= 2 * u * goal) by (nonlinear_arith)
        requires
            2 * lead * p <= 2 * lead * wu + p,
            0xff_ffff * target <= 0x100_0000 * p,
            wu == w * u,
            target == goal * square,
            square == u * u,
            goal <= 0x20_0000,
            lead == 0x80_0000,
            u > 0,
    ;
    assert(n >= goal) by (nonlinear_arith)
        requires
            2 * w + u < (2 * u) * n + 2 * u,
            2 * w + u >= 2 * u * goal,
            u > 0,
    ;
    if 0x100_0000 * p <= 0x100_0001 * target {
        assert(2 * w + u < 2 * u * goal + 2 * u) by (nonlinear_arith)
            requires
                2 * lead * wu <= 2 * lead * p + p,
                0x100_0000 * p <= 0x100_0001 * target,
                wu == w * u,
                target == goal * square,
                square == u * u,
                goal <= 0x20_0000,
                lead == 0x80_0000,
                u > 0,
        ;
        assert(n <= goal) by (nonlinear_arith)
            requires
                (2 * u) * n <= 2 * w + u,
                2 * w + u < 2 * u * goal + 2 * u,
                u > 0,
        ;
    }
}

/// A low picture becomes 110 pixels high, or twice as high where that is more, and twice as wide
/// at least: small text is enlarged, and nothing is made smaller.
pub proof fn law_low_pictures_become_readable(width: u32, height: u32)
    requires
        1 <= width <= LONGEST_SCALED_SIDE,
        1 <= height < LOW_HEIGHT,
    ensures
        enlarged_size(width, height).1 == readable_height(height),
        enlarged_size(width, height).0 >= 2 * width,
{
    let f = Format::Single;
    let u = pow2(149);
    let scale = enlarging_scale(height);
    let h = F32::of_nat(height as nat);
    let w = F32::of_nat(width as nat);
    lemma_enlarging_scale(height);
    lemma_count_is_near(height as nat);
    lemma_count_is_near(width as nat);
    lemma_pow2_pos(149);
    let v = units(f, scale.datum().mag as nat);
    let a = units(f, h.datum().mag as nat);
    let b = units(f, w.datum().mag as nat);
    let square = u * u;
    assert(a * v == v * a) by (nonlinear_arith);
    assert(square > 0) by (nonlinear_arith)
        requires
            square == u * u,
            u > 0,
    ;
    let goal = readable_height(height);
    assert(goal * square <= 158 * square) by (nonlinear_arith)
        requires
            goal <= 158,
            square > 0,
    ;
    lemma_product_is_whole(h, scale, goal);
    let twice = (2 * width) as nat;
    let exact = width as nat * u;
    assert(0xff_ffff * (twice * square) <= 0x100_0000 * (b * v)) by (nonlinear_arith)
        requires
            0xff_ffff * exact <= 0x100_0000 * b,
            exact == width * u,
            twice == 2 * width,
            v >= 2 * u,
            square == u * u,
            b >= 0,
            u > 0,
    ;
    assert(b * v <= 0x4000_0000 * square) by (nonlinear_arith)
        requires
            0x100_0000 * b <= 0x100_0001 * exact,
            exact == width * u,
            width <= 0x10_0000,
            v <= 256 * u,
            square == u * u,
            u > 0,
    ;
    lemma_product_is_whole(w, scale, twice);
}

} // verus!
