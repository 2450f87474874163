//! What holds of the sizes that pictures are brought to, and of the places that come back.

use vstd::prelude::*;
use vstd::arithmetic::power2::{lemma2_to64, lemma2_to64_rest, lemma_pow2_pos};
use crate::exact::{
    is_nearly, is_ordinary, lemma_compare, lemma_compare_nearly, lemma_compare_nearly_single,
    lemma_compare_single, lemma_count_is_ordinary, lemma_count_is_ordinary_single, lemma_exact,
    lemma_exact_single, lemma_inverse_ratio, lemma_min_max_single, lemma_of_nat,
    lemma_of_nat_single, lemma_one_is_large, lemma_over, lemma_over_single, lemma_ratio,
    lemma_ratio_single, lemma_round, lemma_round_single, lemma_same, lemma_same_single,
    lemma_scale_single, lemma_times, lemma_times_single, lemma_whole_bits, lemma_whole_bits_single,
    one, one_single,
};
use crate::float::{F32, F64};
use crate::ocr::detection::{LONGEST_SIDE, ONE_SINGLE};
use crate::ocr::detection::{detection_size_of, scaled_side};
use crate::ocr::layout::{ONE, TWO};
use crate::ocr::preparation::{LEAST_SINGLE, READABLE, READABLE_SINGLE};
use crate::ocr::preparation::{enlarged_size, table_scale, table_size};
use crate::ocr::recognition::LINE_HEIGHT_SINGLE;
use crate::ocr::recognition::line_width;
use crate::ocr::tesseract::scaled_field;
use crate::decimal::decimal_of;

verus! {

/// A count, brought to the ratio of two others, rounded to a whole number.
proof fn lemma_whole_ratio(r: F32, n: nat, b: nat, c: nat)
    requires
        r.finite(),
        r.value() >= 0,
        0 < c < 0x100_0000,
        b * n <= c * 0x8_0000,
        ({
            let v = (n * one_single()) * (b * one_single());
            &&& 0x40_0000 * (r.value() * (c * one_single()) - v) <= v
            &&& 0x40_0000 * (v - r.value() * (c * one_single())) <= v
        }),
    ensures
        ({
            let k = r.spec_round_u32();
            &&& 16 * (k * c - b * n) <= 11 * c
            &&& 16 * (b * n - k * c) <= 11 * c
            &&& b * n <= c * 1024 ==> 1024 * (k * c - b * n) <= 513 * c && 1024 * (b * n - k * c)
                <= 513 * c
        }),
{
    let o = one_single();
    let u = r.value();
    let e = b * n;
    lemma_pow2_pos(149);
    assert(0x40_0000 * (u * c - e * o) <= e * o && 0x40_0000 * (e * o - u * c) <= e * o)
        by (nonlinear_arith)
        requires
            0x40_0000 * (u * (c * o) - (n * o) * (b * o)) <= (n * o) * (b * o),
            0x40_0000 * ((n * o) * (b * o) - u * (c * o)) <= (n * o) * (b * o),
            e == b * n,
            o > 0,
    ;
    let x = u * c;
    let y = e * o;
    let w = c * o;
    assert(0 <= y <= 0x8_0000 * w) by (nonlinear_arith)
        requires
            y == e * o,
            w == c * o,
            0 <= e <= c * 0x8_0000,
            o > 0,
    ;
    assert(2 * u + o < 0x2_0000_0000 * o) by (nonlinear_arith)
        requires
            0x40_0000 * (x - y) <= y,
            y <= 0x8_0000 * w,
            x == u * c,
            w == c * o,
            c > 0,
            o > 0,
    ;
    lemma_round_single(r);
    let k = r.spec_round_u32() as int;
    let z = k * c;
    assert(2 * (z * o) <= 2 * x + w && 2 * x <= 2 * (z * o) + w) by (nonlinear_arith)
        requires
            2 * (k * o) <= 2 * u + o,
            2 * u + o < 2 * (k * o) + 2 * o,
            x == u * c,
            w == c * o,
            z == k * c,
            c > 0,
    ;
    assert(8 * (x - y) <= w && 8 * (y - x) <= w);
    assert(16 * (z * o - y) <= 11 * w && 16 * (y - z * o) <= 11 * w);
    assert(16 * (z - e) <= 11 * c && 16 * (e - z) <= 11 * c) by (nonlinear_arith)
        requires
            16 * (z * o - y) <= 11 * w,
            16 * (y - z * o) <= 11 * w,
            y == e * o,
            w == c * o,
            o > 0,
    ;
    if e <= c * 1024 {
        assert(y <= 1024 * w) by (nonlinear_arith)
            requires
                y == e * o,
                w == c * o,
                e <= c * 1024,
                o > 0,
        ;
        assert(1024 * (z * o - y) <= 513 * w && 1024 * (y - z * o) <= 513 * w);
        assert(1024 * (z - e) <= 513 * c && 1024 * (e - z) <= 513 * c) by (nonlinear_arith)
            requires
                1024 * (z * o - y) <= 513 * w,
                1024 * (y - z * o) <= 513 * w,
                y == e * o,
                w == c * o,
                o > 0,
        ;
    }
}

/// The sizes that pictures are brought to, as numbers.
proof fn lemma_single_sizes()
    ensures
        (F32 { bits: LONGEST_SIDE }) == F32::of_nat(960),
        (F32 { bits: ONE_SINGLE }) == F32::of_nat(1),
        (F32 { bits: READABLE_SINGLE }) == F32::of_nat(110),
        (F32 { bits: LEAST_SINGLE }) == F32::of_nat(2),
        (F32 { bits: LINE_HEIGHT_SINGLE }) == F32::of_nat(48),
{
    lemma2_to64();
    lemma_pow2_pos(149);
    lemma_whole_bits_single(LONGEST_SIDE, 960, 14);
    lemma_whole_bits_single(ONE_SINGLE, 1, 23);
    lemma_whole_bits_single(READABLE_SINGLE, 110, 17);
    lemma_whole_bits_single(LEAST_SINGLE, 2, 22);
    lemma_whole_bits_single(LINE_HEIGHT_SINGLE, 48, 18);
    lemma_of_nat_single(960);
    lemma_of_nat_single(1);
    lemma_of_nat_single(110);
    lemma_of_nat_single(2);
    lemma_of_nat_single(48);
    lemma_same_single(F32 { bits: LONGEST_SIDE }, F32::of_nat(960));
    lemma_same_single(F32 { bits: ONE_SINGLE }, F32::of_nat(1));
    lemma_same_single(F32 { bits: READABLE_SINGLE }, F32::of_nat(110));
    lemma_same_single(F32 { bits: LEAST_SINGLE }, F32::of_nat(2));
    lemma_same_single(F32 { bits: LINE_HEIGHT_SINGLE }, F32::of_nat(48));
}

/// A ratio of counts against a count.
proof fn lemma_ratio_against(b: nat, c: nat, k: nat)
    requires
        b < 0x100_0000,
        0 < c < 0x100_0000,
        k < 0x100_0000,
    ensures
        ({
            let s = F32::of_nat(b).spec_over(F32::of_nat(c));
            &&& s.finite()
            &&& b >= k * c ==> s.value() >= k * one_single()
            &&& b <= k * c ==> s.value() <= k * one_single()
        }),
{
    let o = one_single();
    let s = F32::of_nat(b).spec_over(F32::of_nat(c));
    let z = F32::of_nat(k);
    lemma_pow2_pos(149);
    lemma_count_is_ordinary_single(b);
    lemma_count_is_ordinary_single(c);
    lemma_of_nat_single(k);
    assert(c * o > 0) by (nonlinear_arith)
        requires
            c >= 1,
            o > 0,
    ;
    lemma_scale_single(F32::of_nat(b), F32::of_nat(c));
    lemma_over_single(F32::of_nat(b), F32::of_nat(c));
    lemma_compare_nearly_single(s, (b * o) * o, c * o, z);
    lemma_compare_single(s, z);
    lemma_compare_single(z, s);
    if b >= k * c {
        assert((k * o) * (c * o) <= (b * o) * o) by (nonlinear_arith)
            requires
                b >= k * c,
                o > 0,
        ;
    }
    if b <= k * c {
        assert((b * o) * o <= (k * o) * (c * o)) by (nonlinear_arith)
            requires
                b <= k * c,
                o > 0,
        ;
    }
}

/// A count times a count that is not large.
proof fn lemma_count_product(n: nat, k: nat)
    requires
        n * k < 0x100_0000,
        n < 0x100_0000,
        k < 0x100_0000,
    ensures
        F32::of_nat(n).spec_times(F32::of_nat(k)).spec_round_u32() == n * k,
{
    let o = one_single();
    let r = F32::of_nat(n).spec_times(F32::of_nat(k));
    let m = n * k;
    lemma_pow2_pos(149);
    lemma_of_nat_single(n);
    lemma_of_nat_single(k);
    lemma_of_nat_single(m);
    lemma_times_single(F32::of_nat(n), F32::of_nat(k));
    assert((m * o) * o == (n * o) * (k * o)) by (nonlinear_arith)
        requires
            m == n * k,
    ;
    lemma_exact_single(r, (n * o) * (k * o), o, F32::of_nat(m));
    assert(2 * (m * o) + o < 0x2_0000_0000 * o && m * o >= 0) by (nonlinear_arith)
        requires
            0 <= m < 0x100_0000,
            o > 0,
    ;
    lemma_round_single(r);
    let j = r.spec_round_u32() as int;
    assert(j == m) by (nonlinear_arith)
        requires
            2 * (j * o) <= 2 * (m * o) + o,
            2 * (m * o) + o < 2 * (j * o) + 2 * o,
            o > 0,
    ;
}

/// Text is detected in a picture of the same proportions. One whose longer side is no more than
/// 960 keeps its size; a larger one is brought to a longer side of 960. Both sides are then cut to
/// multiples of 32, and are 32 at least.
pub proof fn law_detection_keeps_the_proportions(width: u32, height: u32)
    requires
        0 < width < 0x100_0000,
        0 < height < 0x100_0000,
    ensures
        ({
            let size = detection_size_of(width, height);
            let longest = if width > height {
                width
            } else {
                height
            };
            &&& longest <= 960 ==> {
                &&& size.0 == (if width < 64 {
                    32
                } else {
                    width - width % 32
                })
                &&& size.1 == (if height < 64 {
                    32
                } else {
                    height - height % 32
                })
            }
            &&& longest > 960 ==> {
                &&& size.0 == 32 || 1024 * (size.0 * longest - 960 * width) <= 513 * longest
                &&& size.1 == 32 || 1024 * (size.1 * longest - 960 * height) <= 513 * longest
                &&& 1024 * (960 * width - (size.0 + 31) * longest) <= 513 * longest
                &&& 1024 * (960 * height - (size.1 + 31) * longest) <= 513 * longest
            }
        }),
{
    let longest = if width > height {
        width
    } else {
        height
    };
    lemma_detection_side(width, longest);
    lemma_detection_side(height, longest);
}

proof fn lemma_detection_side(side: u32, longest: u32)
    requires
        0 < side <= longest < 0x100_0000,
    ensures
        ({
            let scale = (F32 { bits: LONGEST_SIDE }).spec_over(
                F32::of_nat(longest as nat),
            ).spec_min(F32 { bits: ONE_SINGLE });
            let t = scaled_side(side, scale);
            &&& longest <= 960 ==> t == (if side < 64 {
                32
            } else {
                side - side % 32
            })
            &&& longest > 960 ==> {
                &&& t == 32 || 1024 * (t * longest - 960 * side) <= 513 * longest
                &&& 1024 * (960 * side - (t + 31) * longest) <= 513 * longest
            }
        }),
{
    lemma_single_sizes();
    let o = one_single();
    lemma_pow2_pos(149);
    let b = F32::of_nat(960);
    let c = F32::of_nat(longest as nat);
    let one_ = F32::of_nat(1);
    lemma_of_nat_single(1);
    let s = b.spec_over(c);
    let scale = s.spec_min(one_);
    lemma_ratio_against(960, longest as nat, 1);
    lemma_min_max_single(s, one_);
    if longest <= 960 {
        if scale == s {
            lemma_same_single(s, one_);
        }
        assert(scale == one_);
        assert(side as nat * 1nat == side as nat);
        lemma_count_product(side as nat, 1);
    } else {
        if scale == one_ {
            lemma_same_single(s, one_);
        }
        assert(scale == s);
        lemma_count_is_ordinary_single(side as nat);
        lemma_count_is_ordinary_single(960);
        lemma_count_is_ordinary_single(longest as nat);
        assert(longest * o > 0) by (nonlinear_arith)
            requires
                longest >= 1,
                o > 0,
        ;
        let r = F32::of_nat(side as nat).spec_times(s);
        lemma_ratio_single(F32::of_nat(side as nat), b, c);
        lemma_whole_ratio(r, side as nat, 960, longest as nat);
        let n = r.spec_round_u32();
        let t = scaled_side(side, scale);
        if t != 32 {
            assert(t * longest <= n * longest) by (nonlinear_arith)
                requires
                    t <= n,
                    longest >= 0,
            ;
        }
        assert((t + 31) * longest >= n * longest) by (nonlinear_arith)
            requires
                t + 31 >= n,
                longest >= 0,
        ;
    }
}

/// A line is brought to a height of 48 and a width in proportion, but to a width of 48 at least.
pub proof fn law_lines_keep_their_proportions(width: u32, height: u32)
    requires
        0 < width < 0x100_0000,
        0 < height < 0x100_0000,
        48 * width <= height * 0x8_0000,
    ensures
        width <= height ==> line_width(width, height) == 48,
        width >= height ==> line_width(width, height) >= 48,
        width >= height ==> 16 * (line_width(width, height) * height - 48 * width) <= 11 * height,
        width >= height ==> 16 * (48 * width - line_width(width, height) * height) <= 11 * height,
{
    lemma_single_sizes();
    let o = one_single();
    lemma_pow2_pos(149);
    let a = F32::of_nat(48);
    let b = F32::of_nat(width as nat);
    let c = F32::of_nat(height as nat);
    lemma_count_is_ordinary_single(48);
    lemma_count_is_ordinary_single(width as nat);
    lemma_count_is_ordinary_single(height as nat);
    assert(height * o > 0) by (nonlinear_arith)
        requires
            height >= 1,
            o > 0,
    ;
    let s = b.spec_over(c);
    let r = a.spec_times(s);
    lemma_ratio_single(a, b, c);
    lemma_ratio_against(width as nat, height as nat, 1);
    lemma_times_single(a, s);
    lemma_compare_nearly_single(r, (48 * o) * s.value(), o, a);
    lemma_compare_single(r, a);
    lemma_compare_single(a, r);
    lemma_min_max_single(r, a);
    let m = r.spec_max(a);
    assert(48nat * 1nat == 48nat);
    lemma_count_product(48, 1);
    lemma_of_nat_single(1);
    lemma_whole_of_count(48);
    if width <= height {
        assert((48 * o) * s.value() <= (48 * o) * o) by (nonlinear_arith)
            requires
                s.value() <= o,
                o > 0,
        ;
        if m == r {
            lemma_same_single(m, a);
        }
    }
    if width >= height {
        assert((48 * o) * o <= (48 * o) * s.value()) by (nonlinear_arith)
            requires
                s.value() >= o,
                o > 0,
        ;
        if m == a {
            lemma_same_single(r, a);
        }
        assert(m == r);
        let v = (width * o) * (48 * o);
        assert((48 * o) * (width * o) == v) by (nonlinear_arith)
            requires
                v == (width * o) * (48 * o),
        ;
        lemma_whole_ratio(r, width as nat, 48, height as nat);
        let k = r.spec_round_u32() as int;
        assert(2 * r.value() + o < 0x2_0000_0000 * o) by (nonlinear_arith)
            requires
                0x40_0000 * (r.value() * (height * o) - v) <= v,
                v == (width * o) * (48 * o),
                48 * width <= height * 0x8_0000,
                height >= 1,
                o > 0,
        ;
        lemma_round_single(r);
        assert(k >= 48) by (nonlinear_arith)
            requires
                2 * r.value() + o < 2 * (k * o) + 2 * o,
                r.value() >= 48 * o,
                o > 0,
        ;
    }
}

proof fn lemma_whole_of_count(n: nat)
    requires
        n < 0x100_0000,
    ensures
        F32::of_nat(n).spec_round_u32() == n,
{
    let o = one_single();
    lemma_pow2_pos(149);
    lemma_of_nat_single(n);
    assert(2 * (n * o) + o < 0x2_0000_0000 * o && n * o >= 0) by (nonlinear_arith)
        requires
            0 <= n < 0x100_0000,
            o > 0,
    ;
    lemma_round_single(F32::of_nat(n));
    let j = F32::of_nat(n).spec_round_u32() as int;
    assert(j == n) by (nonlinear_arith)
        requires
            2 * (j * o) <= 2 * (n * o) + o,
            2 * (n * o) + o < 2 * (j * o) + 2 * o,
            o > 0,
    ;
}

/// A low picture is enlarged in proportion: a picture up to 55 high by 110 over its height, a
/// higher one to twice its size.
pub proof fn law_low_pictures_keep_their_proportions(width: u32, height: u32)
    requires
        0 < width < 0x80_0000,
        0 < height < 80,
        110 * width <= height * 0x8_0000,
    ensures
        ({
            let w = enlarged_size(width, height).0;
            &&& height <= 55 ==> 16 * (w * height - 110 * width) <= 11 * height && 16 * (110 * width
                - w * height) <= 11 * height
            &&& height >= 55 ==> w == 2 * width
            &&& height >= 55 ==> enlarged_size(width, height).1 == 2 * height
        }),
{
    lemma_single_sizes();
    let o = one_single();
    lemma_pow2_pos(149);
    let a = F32::of_nat(width as nat);
    let b = F32::of_nat(110);
    let c = F32::of_nat(height as nat);
    let two = F32::of_nat(2);
    lemma_of_nat_single(2);
    lemma_count_is_ordinary_single(width as nat);
    lemma_count_is_ordinary_single(110);
    lemma_count_is_ordinary_single(height as nat);
    assert(height * o > 0) by (nonlinear_arith)
        requires
            height >= 1,
            o > 0,
    ;
    let s = b.spec_over(c);
    lemma_ratio_against(110, height as nat, 2);
    lemma_min_max_single(s, two);
    let scale = s.spec_max(two);
    if height <= 55 {
        if scale == two {
            lemma_same_single(s, two);
        }
        assert(scale == s);
        lemma_ratio_single(a, b, c);
        lemma_whole_ratio(a.spec_times(s), width as nat, 110, height as nat);
    }
    if height >= 55 {
        if scale == s {
            lemma_same_single(s, two);
        }
        assert(scale == two);
        lemma_count_product(width as nat, 2);
        lemma_count_product(height as nat, 2);
    }
}

/// The sizes that tables are made from, as numbers.
proof fn lemma_double_sizes()
    ensures
        (F64 { bits: READABLE }) == F64::of_nat(110),
        (F64 { bits: TWO }) == F64::of_nat(2),
        (F64 { bits: ONE }) == F64::of_nat(1),
{
    lemma2_to64_rest();
    lemma_one_is_large();
    lemma_whole_bits(READABLE, 110, 46);
    lemma_whole_bits(TWO, 2, 51);
    lemma_whole_bits(ONE, 1, 52);
    lemma_of_nat(110);
    lemma_of_nat(2);
    lemma_of_nat(1);
    lemma_same(F64 { bits: READABLE }, F64::of_nat(110));
    lemma_same(F64 { bits: TWO }, F64::of_nat(2));
    lemma_same(F64 { bits: ONE }, F64::of_nat(1));
}

/// The factor that a low picture is enlarged by before a table is made.
proof fn lemma_table_scale(height: u32)
    requires
        0 < height < 80,
    ensures
        height <= 55 ==> table_scale(height) == F64::of_nat(110).spec_over(
            F64::of_nat(height as nat),
        ),
        height >= 55 ==> table_scale(height) == F64::of_nat(2),
{
    lemma_double_sizes();
    lemma_one_is_large();
    let o = one();
    let s = F64::of_nat(110).spec_over(F64::of_nat(height as nat));
    let two = F64::of_nat(2);
    lemma_of_nat(110);
    lemma_of_nat(height as nat);
    lemma_of_nat(2);
    lemma_of_nat(0);
    let t = height * o;
    assert(t > 0) by (nonlinear_arith)
        requires
            t == height * o,
            height >= 1,
            o > 0,
    ;
    lemma_over(F64::of_nat(110), F64::of_nat(height as nat));
    assert(0 <= (110 * o) * o <= (110 * o) * t) by (nonlinear_arith)
        requires
            t == height * o,
            height >= 1,
            o > 0,
    ;
    assert(0 * t == 0);
    assert(0 * o == 0);
    crate::exact::lemma_bounded(s, (110 * o) * o, t, F64::of_nat(0), F64::of_nat(110));
    lemma_compare_nearly(s, (110 * o) * o, t, two);
    lemma_compare(s, two);
    lemma_compare(two, s);
    if height <= 55 {
        assert((2 * o) * t <= (110 * o) * o) by (nonlinear_arith)
            requires
                t == height * o,
                height <= 55,
                o > 0,
        ;
        if s.spec_max(two) == two {
            lemma_same(s, two);
        }
    }
    if height >= 55 {
        assert((110 * o) * o <= (2 * o) * t) by (nonlinear_arith)
            requires
                t == height * o,
                height >= 55,
                o > 0,
        ;
        if s.spec_max(two) == s {
            lemma_same(s, two);
        }
    }
}

/// A picture from which a table is made is enlarged in proportion: one up to 55 high by 110 over
/// its height, a higher one, up to 79, to twice its size; a higher one keeps its size.
pub proof fn law_pictures_for_tables_keep_their_proportions(width: u32, height: u32)
    requires
        width < 0x200_0000,
        height > 0,
    ensures
        ({
            let w = table_size(width, height).0;
            &&& height <= 55 ==> 1024 * (w * height - 110 * width) <= 513 * height && 1024 * (110
                * width - w * height) <= 513 * height
            &&& 55 <= height < 80 ==> w == 2 * width
            &&& height >= 80 ==> w == width
        }),
{
    lemma_one_is_large();
    lemma_double_sizes();
    let o = one();
    if height <= 55 {
        lemma_table_scale(height);
        lemma_count_is_ordinary(width as nat);
        lemma_count_is_ordinary(110);
        lemma_count_is_ordinary(height as nat);
        assert(height * o > 0) by (nonlinear_arith)
            requires
                height >= 1,
                o > 0,
        ;
        let r = F64::of_nat(width as nat).spec_times(table_scale(height));
        lemma_ratio(F64::of_nat(width as nat), F64::of_nat(110), F64::of_nat(height as nat));
        let u = r.value();
        let e = 110 * width;
        let v = (width * o) * (110 * o);
        let x = u * height;
        let y = e * o;
        assert(0x8_0000_0000_0000 * (x - y) <= y && 0x8_0000_0000_0000 * (y - x) <= y)
            by (nonlinear_arith)
            requires
                0x8_0000_0000_0000 * (u * (height * o) - v) <= v,
                0x8_0000_0000_0000 * (v - u * (height * o)) <= v,
                v == (width * o) * (110 * o),
                x == u * height,
                y == e * o,
                e == 110 * width,
                o > 0,
        ;
        assert(0 <= y <= 0x1_0000_0000 * o) by (nonlinear_arith)
            requires
                y == e * o,
                e == 110 * width,
                width < 0x200_0000,
                o > 0,
        ;
        let w = height * o;
        assert(w >= o) by (nonlinear_arith)
            requires
                w == height * o,
                height >= 1,
                o > 0,
        ;
        assert(2 * u + o < 0x2_0000_0000 * o) by (nonlinear_arith)
            requires
                0x8_0000_0000_0000 * (x - y) <= y,
                y == (110 * width) * o,
                width < 0x200_0000,
                x == u * height,
                height >= 1,
                u >= 0,
                o > 0,
        ;
        lemma_round(r);
        let k = r.spec_round_u32() as int;
        let z = k * height;
        assert(2 * (z * o) <= 2 * x + w && 2 * x <= 2 * (z * o) + w) by (nonlinear_arith)
            requires
                2 * (k * o) <= 2 * u + o,
                2 * u + o < 2 * (k * o) + 2 * o,
                x == u * height,
                w == height * o,
                z == k * height,
                height > 0,
        ;
        assert(1024 * (z * o - y) <= 513 * w && 1024 * (y - z * o) <= 513 * w);
        assert(1024 * (z - e) <= 513 * height && 1024 * (e - z) <= 513 * height)
            by (nonlinear_arith)
            requires
                1024 * (z * o - y) <= 513 * w,
                1024 * (y - z * o) <= 513 * w,
                y == e * o,
                w == height * o,
                o > 0,
        ;
    }
    if 55 <= height < 80 {
        lemma_table_scale(height);
        lemma_whole_product(width as nat, 2);
    }
    if height >= 80 {
        assert(width as nat * 1nat == width as nat);
        lemma_whole_product(width as nat, 1);
    }
}

proof fn lemma_whole_product(n: nat, k: nat)
    requires
        n < 0x200_0000,
        1 <= k <= 2,
    ensures
        F64::of_nat(n).spec_times(F64::of_nat(k)).spec_round_u32() == n * k,
{
    let o = one();
    let r = F64::of_nat(n).spec_times(F64::of_nat(k));
    let m = n * k;
    lemma_one_is_large();
    lemma_of_nat(n);
    lemma_of_nat(k);
    assert(m < 0x400_0000) by (nonlinear_arith)
        requires
            m == n * k,
            n < 0x200_0000,
            1 <= k <= 2,
    ;
    lemma_of_nat(m);
    lemma_times(F64::of_nat(n), F64::of_nat(k));
    assert((m * o) * o == (n * o) * (k * o)) by (nonlinear_arith)
        requires
            m == n * k,
    ;
    lemma_exact(r, (n * o) * (k * o), o, F64::of_nat(m));
    assert(2 * (m * o) + o < 0x2_0000_0000 * o && m * o >= 0) by (nonlinear_arith)
        requires
            0 <= m < 0x400_0000,
            o > 0,
    ;
    lemma_round(r);
    let j = r.spec_round_u32() as int;
    assert(j == m) by (nonlinear_arith)
        requires
            2 * (j * o) <= 2 * (m * o) + o,
            2 * (m * o) + o < 2 * (j * o) + 2 * o,
            o > 0,
    ;
}

/// Places and sizes in a table, which are those of the enlarged picture, go back to the picture in
/// proportion, up to one part in `2^50`.
pub proof fn law_places_of_a_table_go_back_in_proportion(field: Seq<char>, height: u32)
    requires
        height > 0,
        decimal_of(field) matches Some(n) && is_ordinary(n),
    ensures
        ({
            let n = decimal_of(field)->0.value();
            let r = scaled_field(field, table_scale(height));
            &&& r.finite()
            &&& height <= 55 ==> 0x4_0000_0000_0000 * (r.value() * 110 - n * height) <= n * height
                && 0x4_0000_0000_0000 * (n * height - r.value() * 110) <= n * height
            &&& 55 <= height < 80 ==> is_nearly(r, n, 2)
            &&& height >= 80 ==> r.value() == n
        }),
{
    let a = decimal_of(field)->0;
    let n = a.value();
    let o = one();
    lemma_one_is_large();
    lemma_double_sizes();
    if height <= 55 {
        lemma_table_scale(height);
        lemma_inverse_ratio(a, 110, height as nat);
    }
    if 55 <= height < 80 {
        lemma_table_scale(height);
        lemma_of_nat(2);
        lemma_of_nat(0);
        let r = scaled_field(field, table_scale(height));
        lemma_over(a, F64::of_nat(2));
        lemma_halved(r, n);
        assert(0 * 2 <= n <= n * 2);
        crate::exact::lemma_bounded(r, n, 2, F64::of_nat(0), a);
    }
    if height >= 80 {
        lemma_of_nat(1);
        lemma_over(a, F64::of_nat(1));
        assert(1 * o == o);
        lemma_exact(a.spec_over(F64::of_nat(1)), n * o, o, a);
    }
}

proof fn lemma_halved(r: F64, n: int)
    requires
        is_nearly(r, n * one(), 2 * one()),
        one() > 0,
    ensures
        is_nearly(r, n, 2),
{
    let o = one();
    let f = crate::rounding::Format::Double;
    assert forall|z: crate::datum::Datum|
        z.finite(f) && #[trigger] z.value(f) * 2 <= n implies z.rank() <= r.datum().rank() by {
        let v = z.value(f);
        assert(v * (2 * o) <= n * o) by (nonlinear_arith)
            requires
                v * 2 <= n,
                o > 0,
        ;
    }
    assert forall|z: crate::datum::Datum|
        z.finite(f) && n <= #[trigger] z.value(f) * 2 implies r.datum().rank() <= z.rank() by {
        let v = z.value(f);
        assert(n * o <= v * (2 * o)) by (nonlinear_arith)
            requires
                n <= v * 2,
                o > 0,
        ;
    }
}

} // verus!
