//! Keys, the button that offers copying, and the colours of the desktop.

use vstd::prelude::*;
use vstd::arithmetic::power2::{lemma2_to64, lemma2_to64_rest, lemma_pow2_pos, pow2};
use crate::exact::{
    grain, lemma_compare, lemma_count_on_grid, lemma_fraction_bits, lemma_grain_difference,
    lemma_grain_sum, lemma_min_max, lemma_on_grid, lemma_pixel, lemma_rank_is_value, lemma_trunc,
    lemma_whole_bits, on_grid, one,
};
use crate::float::F64;
use crate::overlay::selection::Point;
use crate::overlay::state::Language;
use crate::rounding::Format;
use crate::text::chars_of;

verus! {

/// The keys that the overlay tells apart.
#[derive(Clone, Copy, Debug, PartialEq, Eq, Structural)]
pub enum PressedKey {
    Escape,
    /// The letter A, small or capital.
    LetterA,
    /// The letter C, small or capital.
    LetterC,
    /// Either enter key.
    Enter,
    Other,
}

/// What a key does.
#[derive(Clone, Copy, Debug, PartialEq, Eq, Structural)]
pub enum KeyAction {
    /// Takes back one thing or closes the overlay.
    Escape,
    SelectAll,
    Copy,
    /// Nothing: the key is left to others.
    Pass,
}

/// What a key does, with or without the control key.
pub open spec fn key_action_of(key: PressedKey, control: bool) -> KeyAction {
    match key {
        PressedKey::Escape => KeyAction::Escape,
        PressedKey::LetterA => if control {
            KeyAction::SelectAll
        } else {
            KeyAction::Pass
        },
        PressedKey::LetterC => if control {
            KeyAction::Copy
        } else {
            KeyAction::Pass
        },
        PressedKey::Enter => KeyAction::Copy,
        PressedKey::Other => KeyAction::Pass,
    }
}

/// What a key does, with or without the control key.
pub fn key_action(key: PressedKey, control: bool) -> (action: KeyAction)
    ensures
        action == key_action_of(key, control),
{
    match key {
        PressedKey::Escape => KeyAction::Escape,
        PressedKey::LetterA => if control {
            KeyAction::SelectAll
        } else {
            KeyAction::Pass
        },
        PressedKey::LetterC => if control {
            KeyAction::Copy
        } else {
            KeyAction::Pass
        },
        PressedKey::Enter => KeyAction::Copy,
        PressedKey::Other => KeyAction::Pass,
    }
}

/// The side of the button, as bits of a 64-bit number: 40.
pub const BUTTON_SIDE: u64 = 0x4044_0000_0000_0000;

/// The room between the button and the border of the area, as bits of a 64-bit number: 12.
pub const BORDER: u64 = 0x4028_0000_0000_0000;

/// How far beside the pointer the button stands, as bits of a 64-bit number: 8.
pub const BESIDE: u64 = 0x4020_0000_0000_0000;

/// How far above the pointer the button stands, as bits of a 64-bit number: 36.
pub const ABOVE: u64 = 0x4042_0000_0000_0000;

/// How far below the pointer the button stands, as bits of a 64-bit number: 16.
pub const BELOW: u64 = 0x4030_0000_0000_0000;

/// The greatest distance of the button from the left or the top of an area.
pub open spec fn furthest(shown: i32) -> F64 {
    F64::of_int(shown as int).spec_minus(F64 { bits: BUTTON_SIDE }).spec_minus(
        F64 { bits: BORDER },
    )
}

/// The greatest distance of the button from the left or the top of an area, the border at least.
pub open spec fn furthest_kept(shown: i32) -> F64 {
    furthest(shown).spec_max(F64 { bits: BORDER })
}

/// Where the button would stand: to the right of the pointer, or to the left where there is no
/// room; above it, or below where there is no room.
pub open spec fn wished_place(area: (i32, i32), mouse: Point) -> Point {
    let side = F64 { bits: BUTTON_SIDE };
    let border = F64 { bits: BORDER };
    let beside = mouse.0.spec_plus(F64 { bits: BESIDE });
    let above = mouse.1.spec_minus(F64 { bits: ABOVE });
    let x = if F64::of_int(area.0 as int).spec_minus(border).spec_less(beside.spec_plus(side)) {
        mouse.0.spec_minus(side).spec_minus(F64 { bits: BESIDE }).spec_max(border)
    } else {
        beside
    };
    let y = if above.spec_less(border) {
        mouse.1.spec_plus(F64 { bits: BELOW }).spec_min(furthest(area.1))
    } else {
        above
    };
    (x, y)
}

/// Where the button stands: where it would, brought into the area.
pub open spec fn button_place(area: (i32, i32), mouse: Point) -> Point {
    let border = F64 { bits: BORDER };
    let p = wished_place(area, mouse);
    (
        p.0.spec_clamp(border, furthest_kept(area.0)),
        p.1.spec_clamp(border, furthest_kept(area.1)),
    )
}

fn find_furthest(shown: i32) -> (r: F64)
    ensures
        r == furthest(shown),
{
    F64::of_i32(shown).minus(F64 { bits: BUTTON_SIDE }).minus(F64 { bits: BORDER })
}

/// The border is no further than the furthest place that is kept.
proof fn lemma_border_first(shown: i32)
    ensures
        (F64 { bits: BORDER }).spec_at_most(furthest_kept(shown)),
{
}

/// Where the button that offers copying stands when the pointer was let go at a place: its
/// distances from the left and from the top of the area, in whole pixels.
pub fn place_button(area: (i32, i32), mouse: Point) -> (r: (i32, i32))
    ensures
        r == (
            button_place(area, mouse).0.spec_trunc_i32(),
            button_place(area, mouse).1.spec_trunc_i32(),
        ),
{
    let side: F64 = F64 { bits: BUTTON_SIDE };
    let border: F64 = F64 { bits: BORDER };
    let mut x: F64 = mouse.0.plus(F64 { bits: BESIDE });
    let mut y: F64 = mouse.1.minus(F64 { bits: ABOVE });
    if F64::of_i32(area.0).minus(border).less(x.plus(side)) {
        x = mouse.0.minus(side).minus(F64 { bits: BESIDE }).max(border);
    }
    if y.less(border) {
        y = mouse.1.plus(F64 { bits: BELOW }).min(find_furthest(area.1));
    }
    proof {
        lemma_border_first(area.0);
        lemma_border_first(area.1);
    }
    let kept: Point = (
        x.clamp(border, find_furthest(area.0).max(border)),
        y.clamp(border, find_furthest(area.1).max(border)),
    );
    (kept.0.trunc_i32(), kept.1.trunc_i32())
}

/// The button keeps its distance from the left and the top of the area, and from the right and
/// the bottom where the area is large enough.
pub proof fn law_the_button_stays_in_the_area(area: (i32, i32), mouse: Point)
    requires
        !wished_place(area, mouse).0.is_nan(),
        !wished_place(area, mouse).1.is_nan(),
    ensures
        (F64 { bits: BORDER }).spec_at_most(button_place(area, mouse).0),
        button_place(area, mouse).0.spec_at_most(furthest_kept(area.0)),
        (F64 { bits: BORDER }).spec_at_most(button_place(area, mouse).1),
        button_place(area, mouse).1.spec_at_most(furthest_kept(area.1)),
{
    lemma_border_first(area.0);
    lemma_border_first(area.1);
}

/// A colour: red, green, blue and opacity.
#[derive(Clone, Copy, Debug, PartialEq, Eq, Structural)]
pub struct Colour {
    pub red: F64,
    pub green: F64,
    pub blue: F64,
    pub opacity: F64,
}

/// An opaque colour from the bits of its parts.
pub open spec fn opaque(red: u64, green: u64, blue: u64) -> Colour {
    Colour {
        red: F64 { bits: red },
        green: F64 { bits: green },
        blue: F64 { bits: blue },
        opacity: F64 { bits: 0x3ff0_0000_0000_0000 },
    }
}

/// The colour that the desktop accents with, by its name. A name that is not known stands for
/// blue.
pub open spec fn accent_of(name: Seq<char>) -> Colour {
    if name =~= seq!['t', 'e', 'a', 'l'] {
        // 0.13, 0.56, 0.64
        opaque(0x3fc0_a3d7_0a3d_70a4, 0x3fe1_eb85_1eb8_51ec, 0x3fe4_7ae1_47ae_147b)
    } else if name =~= seq!['g', 'r', 'e', 'e', 'n'] {
        // 0.23, 0.58, 0.29
        opaque(0x3fcd_70a3_d70a_3d71, 0x3fe2_8f5c_28f5_c28f, 0x3fd2_8f5c_28f5_c28f)
    } else if name =~= seq!['y', 'e', 'l', 'l', 'o', 'w'] {
        // 0.78, 0.53, 0
        opaque(0x3fe8_f5c2_8f5c_28f6, 0x3fe0_f5c2_8f5c_28f6, 0)
    } else if name =~= seq!['o', 'r', 'a', 'n', 'g', 'e'] {
        // 0.93, 0.36, 0
        opaque(0x3fed_c28f_5c28_f5c3, 0x3fd7_0a3d_70a3_d70a, 0)
    } else if name =~= seq!['r', 'e', 'd'] {
        // 0.90, 0.18, 0.26
        opaque(0x3fec_cccc_cccc_cccd, 0x3fc7_0a3d_70a3_d70a, 0x3fd0_a3d7_0a3d_70a4)
    } else if name =~= seq!['p', 'i', 'n', 'k'] {
        // 0.84, 0.38, 0.60
        opaque(0x3fea_e147_ae14_7ae1, 0x3fd8_51eb_851e_b852, 0x3fe3_3333_3333_3333)
    } else if name =~= seq!['p', 'u', 'r', 'p', 'l', 'e'] {
        // 0.57, 0.25, 0.67
        opaque(0x3fe2_3d70_a3d7_0a3d, 0x3fd0_0000_0000_0000, 0x3fe5_70a3_d70a_3d71)
    } else if name =~= seq!['s', 'l', 'a', 't', 'e'] {
        // 0.44, 0.51, 0.59
        opaque(0x3fdc_28f5_c28f_5c29, 0x3fe0_51eb_851e_b852, 0x3fe2_e147_ae14_7ae1)
    } else {
        // 0.208, 0.518, 0.894
        opaque(0x3fca_9fbe_76c8_b439, 0x3fe0_9374_bc6a_7efa, 0x3fec_9ba5_e353_f7cf)
    }
}

fn make_opaque(red: u64, green: u64, blue: u64) -> (r: Colour)
    ensures
        r == opaque(red, green, blue),
{
    Colour {
        red: F64 { bits: red },
        green: F64 { bits: green },
        blue: F64 { bits: blue },
        opacity: F64 { bits: 0x3ff0_0000_0000_0000 },
    }
}

fn is_same(a: &Vec<char>, b: Vec<char>) -> (r: bool)
    ensures
        r == (a@ =~= b@),
{
    if a.len() != b.len() {
        return false;
    }
    let mut i: usize = 0;
    while i < a.len()
        invariant
            i <= a@.len() == b@.len(),
            forall|k: int| 0 <= k < i ==> a@[k] == b@[k],
        decreases a@.len() - i,
    {
        if a[i] != b[i] {
            return false;
        }
        i = i + 1;
    }
    true
}

/// The colour that the desktop accents with, by its name.
pub fn accent_colour(name: &str) -> (r: Colour)
    ensures
        r == accent_of(name@),
{
    let v: Vec<char> = chars_of(name);
    if is_same(&v, vec!['t', 'e', 'a', 'l']) {
        make_opaque(0x3fc0_a3d7_0a3d_70a4, 0x3fe1_eb85_1eb8_51ec, 0x3fe4_7ae1_47ae_147b)
    } else if is_same(&v, vec!['g', 'r', 'e', 'e', 'n']) {
        make_opaque(0x3fcd_70a3_d70a_3d71, 0x3fe2_8f5c_28f5_c28f, 0x3fd2_8f5c_28f5_c28f)
    } else if is_same(&v, vec!['y', 'e', 'l', 'l', 'o', 'w']) {
        make_opaque(0x3fe8_f5c2_8f5c_28f6, 0x3fe0_f5c2_8f5c_28f6, 0)
    } else if is_same(&v, vec!['o', 'r', 'a', 'n', 'g', 'e']) {
        make_opaque(0x3fed_c28f_5c28_f5c3, 0x3fd7_0a3d_70a3_d70a, 0)
    } else if is_same(&v, vec!['r', 'e', 'd']) {
        make_opaque(0x3fec_cccc_cccc_cccd, 0x3fc7_0a3d_70a3_d70a, 0x3fd0_a3d7_0a3d_70a4)
    } else if is_same(&v, vec!['p', 'i', 'n', 'k']) {
        make_opaque(0x3fea_e147_ae14_7ae1, 0x3fd8_51eb_851e_b852, 0x3fe3_3333_3333_3333)
    } else if is_same(&v, vec!['p', 'u', 'r', 'p', 'l', 'e']) {
        make_opaque(0x3fe2_3d70_a3d7_0a3d, 0x3fd0_0000_0000_0000, 0x3fe5_70a3_d70a_3d71)
    } else if is_same(&v, vec!['s', 'l', 'a', 't', 'e']) {
        make_opaque(0x3fdc_28f5_c28f_5c29, 0x3fe0_51eb_851e_b852, 0x3fe2_e147_ae14_7ae1)
    } else {
        make_opaque(0x3fca_9fbe_76c8_b439, 0x3fe0_9374_bc6a_7efa, 0x3fec_9ba5_e353_f7cf)
    }
}

impl Language {
    /// The code of the language.
    pub fn code(self) -> (r: &'static str)
        ensures
            r == (match self {
                Language::Turkish => "TR",
                Language::English => "EN",
            }),
    {
        match self {
            Language::Turkish => "TR",
            Language::English => "EN",
        }
    }
}

/// The values of the sizes that the button is placed by, in grains.
proof fn lemma_button_sizes()
    ensures
        (F64 { bits: BUTTON_SIDE }).finite(),
        (F64 { bits: BUTTON_SIDE }).value() == 0x28_0000 * grain(),
        (F64 { bits: BORDER }).finite(),
        (F64 { bits: BORDER }).value() == 0xc_0000 * grain(),
        (F64 { bits: BESIDE }).finite(),
        (F64 { bits: BESIDE }).value() == 0x8_0000 * grain(),
        (F64 { bits: ABOVE }).finite(),
        (F64 { bits: ABOVE }).value() == 0x24_0000 * grain(),
        (F64 { bits: BELOW }).finite(),
        (F64 { bits: BELOW }).value() == 0x10_0000 * grain(),
{
    lemma2_to64_rest();
    lemma_pixel();
    lemma_whole_bits(BUTTON_SIDE, 40, 47);
    lemma_whole_bits(BORDER, 12, 49);
    lemma_whole_bits(BESIDE, 8, 49);
    lemma_whole_bits(ABOVE, 36, 47);
    lemma_whole_bits(BELOW, 16, 48);
}

/// The greatest distance of the button in an area.
proof fn lemma_furthest(shown: i32)
    requires
        shown >= 0,
    ensures
        F64::of_int(shown as int).finite(),
        F64::of_int(shown as int).value() == (shown * 0x1_0000) * grain(),
        furthest(shown).finite(),
        furthest(shown).value() == (shown * 0x1_0000 - 0x34_0000) * grain(),
        furthest_kept(shown).finite(),
        furthest_kept(shown).value() == (if shown >= 64 {
            (shown * 0x1_0000 - 0x34_0000) * grain()
        } else {
            0xc_0000 * grain()
        }),
{
    lemma_button_sizes();
    lemma_count_on_grid(shown as nat);
    lemma_pixel();
    let g = grain();
    let m = shown * 0x1_0000;
    let all = F64::of_int(shown as int);
    let side = F64 { bits: BUTTON_SIDE };
    let border = F64 { bits: BORDER };
    assert(shown * (0x1_0000 * g) == m * g) by (nonlinear_arith)
        requires
            m == shown * 0x1_0000,
    ;
    lemma_grain_difference(all, side, m, 0x28_0000);
    lemma_grain_difference(all.spec_minus(side), border, m - 0x28_0000, 0xc_0000);
    lemma_min_max(furthest(shown), border);
    let k = m - 0x34_0000;
    if shown >= 64 {
        assert(k * g >= 0xc_0000 * g) by (nonlinear_arith)
            requires
                k >= 0xc_0000,
                g > 0,
        ;
    } else {
        assert(k * g < 0xc_0000 * g) by (nonlinear_arith)
            requires
                k < 0xc_0000,
                g > 0,
        ;
    }
}

/// The button stands in the area, at least 12 from each side where the area allows it. It stands
/// 8 right of the pointer where there is room for it, and 8 left of it otherwise, and 36 above the
/// pointer where there is room for it, and 16 below it otherwise. Its own side is 40.
pub proof fn law_the_button_stands_beside_the_pointer(area: (i32, i32), mouse: Point)
    requires
        area.0 >= 64,
        area.1 >= 64,
        on_grid(mouse.0),
        on_grid(mouse.1),
    ensures
        ({
            let p = button_place(area, mouse);
            let x = p.0.value();
            let y = p.1.value();
            let mx = mouse.0.value();
            let my = mouse.1.value();
            let o = one();
            &&& p.0.finite() && p.1.finite()
            &&& 12 * o <= x && x + 52 * o <= area.0 * o
            &&& 12 * o <= y && y + 52 * o <= area.1 * o
            &&& 12 * o <= mx + 8 * o && mx + 60 * o <= area.0 * o ==> x == mx + 8 * o
            &&& mx + 60 * o > area.0 * o && mx - 48 * o >= 12 * o && mx + 4 * o <= area.0 * o ==> x
                == mx - 48 * o
            &&& my - 36 * o >= 12 * o && my + 16 * o <= area.1 * o ==> y == my - 36 * o
            &&& my - 36 * o < 12 * o && my + 16 * o >= 12 * o && my + 68 * o <= area.1 * o ==> y
                == my + 16 * o
            &&& p.0.spec_trunc_i32() * o <= x < p.0.spec_trunc_i32() * o + o
            &&& p.1.spec_trunc_i32() * o <= y < p.1.spec_trunc_i32() * o + o
        }),
{
    lemma_button_sizes();
    lemma_furthest(area.0);
    lemma_furthest(area.1);
    lemma_pixel();
    let g = grain();
    let o = one();
    let side = F64 { bits: BUTTON_SIDE };
    let border = F64 { bits: BORDER };
    let near = F64 { bits: BESIDE };
    let m = lemma_on_grid(mouse.0);
    let n = lemma_on_grid(mouse.1);
    let a = area.0 * 0x1_0000;
    let b = area.1 * 0x1_0000;
    assert(area.0 * o == a * g) by (nonlinear_arith)
        requires
            a == area.0 * 0x1_0000,
            o == 0x1_0000 * g,
    ;
    assert(area.1 * o == b * g) by (nonlinear_arith)
        requires
            b == area.1 * 0x1_0000,
            o == 0x1_0000 * g,
    ;
    let wide = F64::of_int(area.0 as int);
    let beside = mouse.0.spec_plus(near);
    lemma_grain_sum(mouse.0, near, m, 0x8_0000);
    lemma_grain_sum(beside, side, m + 0x8_0000, 0x28_0000);
    lemma_grain_difference(wide, border, a, 0xc_0000);
    lemma_compare(wide.spec_minus(border), beside.spec_plus(side));
    lemma_grain_difference(mouse.0, side, m, 0x28_0000);
    lemma_grain_difference(mouse.0.spec_minus(side), near, m - 0x28_0000, 0x8_0000);
    lemma_min_max(mouse.0.spec_minus(side).spec_minus(near), border);
    let up = F64 { bits: ABOVE };
    let down = F64 { bits: BELOW };
    lemma_grain_difference(mouse.1, up, n, 0x24_0000);
    lemma_compare(mouse.1.spec_minus(up), border);
    lemma_grain_sum(mouse.1, down, n, 0x10_0000);
    lemma_min_max(mouse.1.spec_plus(down), furthest(area.1));
    let w = wished_place(area, mouse);
    lemma_compare(w.0, border);
    lemma_compare(furthest_kept(area.0), w.0);
    lemma_compare(w.1, border);
    lemma_compare(furthest_kept(area.1), w.1);
    // In grains, the comparisons are those of the factors.
    lemma_factors(a - 0xc_0000, m + 0x30_0000, g);
    lemma_factors(a - 0x34_0000, 0xc_0000, g);
    lemma_factors(b - 0x34_0000, 0xc_0000, g);
    lemma_distributes(m, 0x8_0000, g);
    lemma_distributes(m + 0x8_0000, 0x28_0000, g);
    lemma_distributes(m - 0x28_0000, 0x28_0000, g);
    lemma_distributes(m - 0x28_0000 - 0x8_0000, 0x30_0000, g);
    lemma_distributes(a - 0xc_0000, 0xc_0000, g);
    lemma_distributes(a - 0x34_0000, 0x34_0000, g);
    lemma_distributes(b - 0x34_0000, 0x34_0000, g);
    lemma_distributes(n - 0x24_0000, 0x24_0000, g);
    lemma_distributes(n, 0x10_0000, g);
    let p = button_place(area, mouse);
    assert(p.0.value() <= 0x7fff_ffff * o) by {
        assert(area.0 * o <= 0x7fff_ffff * o) by (nonlinear_arith)
            requires
                area.0 <= 0x7fff_ffff,
                o > 0,
        ;
    }
    assert(p.1.value() <= 0x7fff_ffff * o) by {
        assert(area.1 * o <= 0x7fff_ffff * o) by (nonlinear_arith)
            requires
                area.1 <= 0x7fff_ffff,
                o > 0,
        ;
    }
    lemma_trunc(p.0);
    lemma_trunc(p.1);
}

proof fn lemma_factors(a: int, b: int, g: int)
    requires
        g > 0,
    ensures
        a * g < b * g <==> a < b,
{
    assert(a * g < b * g <==> a < b) by (nonlinear_arith)
        requires
            g > 0,
    ;
}

proof fn lemma_distributes(a: int, b: int, g: int)
    ensures
        (a + b) * g == a * g + b * g,
{
    assert((a + b) * g == a * g + b * g) by (nonlinear_arith);
}

/// Enter copies, and so does C with the control key; A with the control key selects all words;
/// escape takes back; no other key does anything.
pub proof fn law_few_keys_do_anything(key: PressedKey, control: bool)
    ensures
        key_action_of(key, control) is Copy <==> key is Enter || (key is LetterC && control),
        key_action_of(key, control) is SelectAll <==> key is LetterA && control,
        key_action_of(key, control) is Escape <==> key is Escape,
{
}

/// A part of one in thousandths, up to a thousandth of one.
pub open spec fn is_part(a: F64, thousandths: int) -> bool {
    let v = thousandths * one();
    &&& a.finite()
    &&& 1000 * (1000 * a.value() - v) <= one()
    &&& 1000 * (v - 1000 * a.value()) <= one()
}

/// An opaque colour has so much of red, green and blue, in thousandths.
pub open spec fn colour_is(c: Colour, red: int, green: int, blue: int) -> bool {
    &&& is_part(c.red, red)
    &&& is_part(c.green, green)
    &&& is_part(c.blue, blue)
    &&& c.opacity.finite() && c.opacity.value() == one()
}

proof fn lemma_part_of_one(bits: u64, r: nat, j: nat, share: int)
    requires
        52 <= j <= 1074,
        0x10_0000_0000_0000 <= r < 0x20_0000_0000_0000,
        bits == (1074 - j) * 0x10_0000_0000_0000 + r,
        1000 * (1000 * r - share * pow2(j)) <= pow2(j),
        1000 * (share * pow2(j) - 1000 * r) <= pow2(j),
    ensures
        is_part(F64 { bits }, share),
{
    let o = one();
    let v = (F64 { bits }).value();
    let p = pow2(j) as int;
    lemma_fraction_bits(bits, r, j);
    lemma_pow2_pos(j);
    lemma_pow2_pos(1074);
    assert(1000 * (1000 * r - share * p) * o <= p * o && 1000 * (share * p - 1000 * r) * o <= p * o)
        by (nonlinear_arith)
        requires
            1000 * (1000 * r - share * p) <= p,
            1000 * (share * p - 1000 * r) <= p,
            o > 0,
    ;
    let so = share * o;
    assert(p * (1000 * (1000 * v - so)) == 1000 * (1000 * r - share * p) * o) by (nonlinear_arith)
        requires
            v * p == r * o,
            so == share * o,
    ;
    assert(p * (1000 * (so - 1000 * v)) == 1000 * (share * p - 1000 * r) * o) by (nonlinear_arith)
        requires
            v * p == r * o,
            so == share * o,
    ;
    assert(1000 * (1000 * v - so) <= o && 1000 * (so - 1000 * v) <= o) by (nonlinear_arith)
        requires
            p * (1000 * (1000 * v - so)) <= p * o,
            p * (1000 * (so - 1000 * v)) <= p * o,
            p > 0,
    ;
}

/// Each name of an accent stands for its colour, and any other name for blue.
pub proof fn law_accents_have_their_colours(name: Seq<char>)
    ensures
        name == seq!['t', 'e', 'a', 'l'] ==> colour_is(accent_of(name), 130, 560, 640),
        name == seq!['g', 'r', 'e', 'e', 'n'] ==> colour_is(accent_of(name), 230, 580, 290),
        name == seq!['y', 'e', 'l', 'l', 'o', 'w'] ==> colour_is(accent_of(name), 780, 530, 0),
        name == seq!['o', 'r', 'a', 'n', 'g', 'e'] ==> colour_is(accent_of(name), 930, 360, 0),
        name == seq!['r', 'e', 'd'] ==> colour_is(accent_of(name), 900, 180, 260),
        name == seq!['p', 'i', 'n', 'k'] ==> colour_is(accent_of(name), 840, 380, 600),
        name == seq!['p', 'u', 'r', 'p', 'l', 'e'] ==> colour_is(accent_of(name), 570, 250, 670),
        name == seq!['s', 'l', 'a', 't', 'e'] ==> colour_is(accent_of(name), 440, 510, 590),
        name != seq!['t', 'e', 'a', 'l']
            && name != seq!['g', 'r', 'e', 'e', 'n']
            && name != seq!['y', 'e', 'l', 'l', 'o', 'w']
            && name != seq!['o', 'r', 'a', 'n', 'g', 'e']
            && name != seq!['r', 'e', 'd']
            && name != seq!['p', 'i', 'n', 'k']
            && name != seq!['p', 'u', 'r', 'p', 'l', 'e']
            && name != seq!['s', 'l', 'a', 't', 'e'] ==> colour_is(
            accent_of(name),
            208,
            518,
            894,
        ),
{
    lemma2_to64();
    lemma2_to64_rest();
    lemma_pow2_pos(1074);
    lemma_whole_bits(0x3ff0_0000_0000_0000, 1, 52);
    let zero = F64 { bits: 0 };
    lemma_rank_is_value(Format::Double, zero.datum(), zero.datum());
    assert(is_part(zero, 0));
    lemma_part_of_one(0x3fc0_a3d7_0a3d_70a4, 0x10_a3d7_0a3d_70a4, 55, 130);
    lemma_part_of_one(0x3fc7_0a3d_70a3_d70a, 0x17_0a3d_70a3_d70a, 55, 180);
    lemma_part_of_one(0x3fca_9fbe_76c8_b439, 0x1a_9fbe_76c8_b439, 55, 208);
    lemma_part_of_one(0x3fcd_70a3_d70a_3d71, 0x1d_70a3_d70a_3d71, 55, 230);
    lemma_part_of_one(0x3fd0_0000_0000_0000, 0x10_0000_0000_0000, 54, 250);
    lemma_part_of_one(0x3fd0_a3d7_0a3d_70a4, 0x10_a3d7_0a3d_70a4, 54, 260);
    lemma_part_of_one(0x3fd2_8f5c_28f5_c28f, 0x12_8f5c_28f5_c28f, 54, 290);
    lemma_part_of_one(0x3fd7_0a3d_70a3_d70a, 0x17_0a3d_70a3_d70a, 54, 360);
    lemma_part_of_one(0x3fd8_51eb_851e_b852, 0x18_51eb_851e_b852, 54, 380);
    lemma_part_of_one(0x3fdc_28f5_c28f_5c29, 0x1c_28f5_c28f_5c29, 54, 440);
    lemma_part_of_one(0x3fe0_51eb_851e_b852, 0x10_51eb_851e_b852, 53, 510);
    lemma_part_of_one(0x3fe0_9374_bc6a_7efa, 0x10_9374_bc6a_7efa, 53, 518);
    lemma_part_of_one(0x3fe0_f5c2_8f5c_28f6, 0x10_f5c2_8f5c_28f6, 53, 530);
    lemma_part_of_one(0x3fe1_eb85_1eb8_51ec, 0x11_eb85_1eb8_51ec, 53, 560);
    lemma_part_of_one(0x3fe2_3d70_a3d7_0a3d, 0x12_3d70_a3d7_0a3d, 53, 570);
    lemma_part_of_one(0x3fe2_8f5c_28f5_c28f, 0x12_8f5c_28f5_c28f, 53, 580);
    lemma_part_of_one(0x3fe2_e147_ae14_7ae1, 0x12_e147_ae14_7ae1, 53, 590);
    lemma_part_of_one(0x3fe3_3333_3333_3333, 0x13_3333_3333_3333, 53, 600);
    lemma_part_of_one(0x3fe4_7ae1_47ae_147b, 0x14_7ae1_47ae_147b, 53, 640);
    lemma_part_of_one(0x3fe5_70a3_d70a_3d71, 0x15_70a3_d70a_3d71, 53, 670);
    lemma_part_of_one(0x3fe8_f5c2_8f5c_28f6, 0x18_f5c2_8f5c_28f6, 53, 780);
    lemma_part_of_one(0x3fea_e147_ae14_7ae1, 0x1a_e147_ae14_7ae1, 53, 840);
    lemma_part_of_one(0x3fec_9ba5_e353_f7cf, 0x1c_9ba5_e353_f7cf, 53, 894);
    lemma_part_of_one(0x3fec_cccc_cccc_cccd, 0x1c_cccc_cccc_cccd, 53, 900);
    lemma_part_of_one(0x3fed_c28f_5c28_f5c3, 0x1d_c28f_5c28_f5c3, 53, 930);
}

} // verus!
