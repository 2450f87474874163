//! Finding the rows of text in a picture by how much its luminance changes along each row.

use vstd::prelude::*;
use vstd::arithmetic::power2::{pow2, lemma_pow2_pos, lemma2_to64};
use crate::datum::{Datum, of_whole, quotient_of, sum_of};
use crate::exact::{
    is_nearly_single, lemma_bits_single, lemma_bounded_single, lemma_compare_nearly_single,
    lemma_compare_single, lemma_exact_single, lemma_min_max_single, lemma_minus_single,
    lemma_of_nat_single, lemma_over_error_single, lemma_over_single, lemma_plus_single,
    lemma_rank_is_value, lemma_same_single, lemma_shifted_single, lemma_times_error_single,
    lemma_times_single, lemma_whole_bits_single, one_single,
};
use crate::float::F32;
use crate::ocr::detection::ONE_SINGLE;
use crate::ocr::recognition::{NEGATIVE_ZERO_SINGLE, ROW_PART};
use crate::ocr::sizing::lemma_count_is_near;
use crate::picture::Picture;
use crate::picture::{Raster, luma_at, luma_of};
use crate::rounding::{Format, excess, rounded_magnitude, units};

verus! {

/// Rows of text are given this much room above and below.
pub const ROW_MARGIN: usize = 4;

/// Rows of text lower than this are passed over.
pub const LOWEST_ROW: usize = 12;

/// The sum of the steps between neighbours among the first `n` luminances from `start` on.
pub open spec fn step_sum(luma: Seq<u8>, start: int, n: nat) -> F32
    decreases n,
{
    if n <= 1 {
        F32 { bits: 0 }
    } else {
        step_sum(luma, start, (n - 1) as nat).spec_plus(
            F32::of_nat(luma[start + n - 1] as nat).spec_minus(
                F32::of_nat(luma[start + n - 2] as nat),
            ).spec_abs(),
        )
    }
}

/// How much the luminance changes along a row.
pub open spec fn row_activity(luma: Seq<u8>, width: nat, y: int) -> F32 {
    step_sum(luma, y * width, width).spec_over(F32::of_nat(width))
}

/// How much the luminance changes along each row.
pub open spec fn activities(p: Raster) -> Seq<F32> {
    Seq::new(p.height as nat, |y: int| row_activity(luma_of(p), p.width as nat, y))
}

/// The sum of numbers, added up in their order.
pub open spec fn sum_single(s: Seq<F32>) -> F32
    decreases s.len(),
{
    if s.len() == 0 {
        F32 { bits: NEGATIVE_ZERO_SINGLE }
    } else {
        sum_single(s.drop_last()).spec_plus(s.last())
    }
}

/// The activity that a row of text exceeds: a part of the mean, and one at least.
pub open spec fn row_threshold(scores: Seq<F32>) -> F32 {
    let one = F32 { bits: ONE_SINGLE };
    sum_single(scores).spec_over(F32::of_nat(scores.len()).spec_max(one)).spec_times(
        F32 { bits: ROW_PART },
    ).spec_max(one)
}

/// Which rows are active.
pub open spec fn active_rows(scores: Seq<F32>) -> Seq<bool> {
    Seq::new(scores.len(), |y: int| row_threshold(scores).spec_less(scores[y]))
}

/// Where the run of active rows that row `y` belongs to begins, with room above it.
pub open spec fn run_start(active: Seq<bool>, y: nat) -> nat
    decreases y,
{
    if y > 0 && active[y - 1] {
        run_start(active, (y - 1) as nat)
    } else if y >= ROW_MARGIN {
        (y - ROW_MARGIN) as nat
    } else {
        0
    }
}

/// The rows of text that end before row `n`, each with its first row and the row after its
/// last. A run of active rows with room around it is one, if it is high enough.
pub open spec fn ended_rows(active: Seq<bool>, n: nat) -> Seq<(usize, usize)>
    decreases n,
{
    if n == 0 {
        Seq::empty()
    } else {
        let y = (n - 1) as nat;
        let before = ended_rows(active, y);
        if !active[y as int] && y > 0 && active[y - 1] {
            let start = run_start(active, (y - 1) as nat);
            let end = if y + ROW_MARGIN < active.len() {
                (y + ROW_MARGIN) as nat
            } else {
                active.len()
            };
            if end - start >= LOWEST_ROW {
                before.push((start as usize, end as usize))
            } else {
                before
            }
        } else {
            before
        }
    }
}

/// The rows of text. A run of active rows that reaches the bottom ends there.
pub open spec fn rows_in(active: Seq<bool>) -> Seq<(usize, usize)> {
    let before = ended_rows(active, active.len());
    if active.len() > 0 && active.last() {
        let start = run_start(active, (active.len() - 1) as nat);
        if active.len() - start >= LOWEST_ROW {
            before.push((start as usize, active.len() as usize))
        } else {
            before
        }
    } else {
        before
    }
}

/// The rows of text in a picture.
pub open spec fn text_rows(p: Raster) -> Seq<(usize, usize)> {
    rows_in(active_rows(activities(p)))
}

fn find_row_activity(luma: &Vec<u8>, width: usize, y: usize, start: usize) -> (r: F32)
    requires
        start == y * width,
        start + width <= luma@.len(),
    ensures
        r == row_activity(luma@, width as nat, y as int),
{
    let have: usize = luma.len();
    let mut sum: F32 = F32 { bits: 0 };
    let mut x: usize = 1;
    while x < width
        invariant
            1 <= x,
            x <= width || width == 0,
            start + width <= have == luma@.len(),
            sum == step_sum(luma@, start as int, (if width == 0 {
                0
            } else {
                x
            }) as nat),
        decreases width - x,
    {
        let here: F32 = F32::of_count(luma[start + x] as u64);
        let left: F32 = F32::of_count(luma[start + x - 1] as u64);
        sum = sum.plus(here.minus(left).abs());
        x = x + 1;
    }
    sum.over(F32::of_count(width as u64))
}

/// How much the luminance changes along each row.
pub fn find_activities(p: &Picture) -> (r: Vec<F32>)
    requires
        p@.countable(),
    ensures
        r@ == activities(p@),
{
    let luma: Vec<u8> = p.to_luma8();
    let have: usize = luma.len();
    let mut r: Vec<F32> = Vec::new();
    let mut y: u32 = 0;
    while y < p.height
        invariant
            y <= p.height,
            luma@ == luma_of(p@),
            luma@.len() == have == p.width * p.height,
            r@ == activities(p@).take(y as int),
        decreases p.height - y,
    {
        proof {
            let w = p.width as int;
            let h = p.height as int;
            assert(y * w + w <= w * h) by (nonlinear_arith)
                requires
                    y + 1 <= h,
                    w >= 0,
            ;
            assert(y * w >= 0) by (nonlinear_arith)
                requires
                    y >= 0,
                    w >= 0,
            ;
            if w == 0 {
                assert(y * w == 0) by (nonlinear_arith)
                    requires
                        w == 0,
                ;
            } else {
                assert(y <= y * w) by (nonlinear_arith)
                    requires
                        w >= 1,
                        y >= 0,
                ;
            }
        }
        let start: usize = if p.width == 0 {
            0
        } else {
            y as usize * p.width as usize
        };
        r.push(find_row_activity(&luma, p.width as usize, y as usize, start));
        y = y + 1;
        proof {
            assert(r@ =~= activities(p@).take(y as int));
        }
    }
    proof {
        assert(activities(p@).take(y as int) =~= activities(p@));
    }
    r
}

/// Finds which rows are active.
pub fn find_active(scores: &Vec<F32>) -> (r: Vec<bool>)
    ensures
        r@ == active_rows(scores@),
{
    let n: usize = scores.len();
    let mut sum: F32 = F32 { bits: NEGATIVE_ZERO_SINGLE };
    let mut i: usize = 0;
    proof {
        assert(scores@.take(0) =~= Seq::<F32>::empty());
    }
    while i < n
        invariant
            i <= n == scores@.len(),
            sum == sum_single(scores@.take(i as int)),
        decreases n - i,
    {
        proof {
            assert(scores@.take(i + 1).drop_last() =~= scores@.take(i as int));
        }
        sum = sum.plus(scores[i]);
        i = i + 1;
    }
    proof {
        assert(scores@.take(n as int) =~= scores@);
    }
    let one: F32 = F32 { bits: ONE_SINGLE };
    let mean: F32 = sum.over(F32::of_count(n as u64).max(one));
    let threshold: F32 = mean.times(F32 { bits: ROW_PART }).max(one);
    let mut r: Vec<bool> = Vec::new();
    let mut y: usize = 0;
    while y < n
        invariant
            y <= n == scores@.len(),
            threshold == row_threshold(scores@),
            r@ == active_rows(scores@).take(y as int),
        decreases n - y,
    {
        r.push(threshold.less(scores[y]));
        y = y + 1;
        proof {
            assert(r@ =~= active_rows(scores@).take(y as int));
        }
    }
    proof {
        assert(r@ =~= active_rows(scores@));
    }
    r
}

proof fn lemma_run_start(active: Seq<bool>, y: nat)
    ensures
        run_start(active, y) <= y,
    decreases y,
{
    if y > 0 && active[y - 1] {
        lemma_run_start(active, (y - 1) as nat);
    }
}

/// Finds the rows of text among the active rows.
pub fn find_rows(active: &Vec<bool>) -> (rows: Vec<(usize, usize)>)
    ensures
        rows@ == rows_in(active@),
{
    let n: usize = active.len();
    let mut rows: Vec<(usize, usize)> = Vec::new();
    let mut in_row: bool = false;
    let mut start: usize = 0;
    let mut y: usize = 0;
    while y < n
        invariant
            y <= n == active@.len(),
            in_row == (y > 0 && active@[y - 1]),
            in_row ==> start == run_start(active@, (y - 1) as nat),
            rows@ == ended_rows(active@, y as nat),
        decreases n - y,
    {
        proof {
            lemma_run_start(active@, y as nat);
            if y > 0 {
                lemma_run_start(active@, (y - 1) as nat);
            }
        }
        if active[y] {
            if !in_row {
                in_row = true;
                start = if y >= ROW_MARGIN {
                    y - ROW_MARGIN
                } else {
                    0
                };
            }
        } else if in_row {
            let end: usize = if n - y > ROW_MARGIN {
                y + ROW_MARGIN
            } else {
                n
            };
            if end - start >= LOWEST_ROW {
                rows.push((start, end));
            }
            in_row = false;
        }
        y = y + 1;
    }
    if in_row {
        proof {
            lemma_run_start(active@, (n - 1) as nat);
        }
        if n - start >= LOWEST_ROW {
            rows.push((start, n));
        }
    }
    rows
}

/// The rows of text in a picture.
pub fn find_text_rows(p: &Picture) -> (rows: Vec<(usize, usize)>)
    requires
        p@.countable(),
    ensures
        rows@ == text_rows(p@),
{
    find_rows(&find_active(&find_activities(p)))
}

/// A row of text that was found lies in the picture and is high enough.
pub open spec fn row_fits(row: (usize, usize), height: nat) -> bool {
    row.0 + LOWEST_ROW <= row.1 <= height
}

proof fn lemma_ended_rows_fit(active: Seq<bool>, n: nat)
    requires
        n <= active.len() <= usize::MAX,
    ensures
        forall|i: int|
            0 <= i < ended_rows(active, n).len() ==> row_fits(
                #[trigger] ended_rows(active, n)[i],
                active.len(),
            ),
    decreases n,
{
    if n > 0 {
        lemma_ended_rows_fit(active, (n - 1) as nat);
        if n > 1 {
            lemma_run_start(active, (n - 2) as nat);
        }
        let before = ended_rows(active, (n - 1) as nat);
        let rows = ended_rows(active, n);
        assert forall|i: int| 0 <= i < rows.len() implies row_fits(
            #[trigger] rows[i],
            active.len(),
        ) by {
            if i < before.len() {
                assert(rows[i] == before[i]);
            }
        }
    }
}

/// Every row of text that is found lies in the picture and is at least twelve rows high.
pub proof fn law_text_rows_lie_in_the_picture(p: Raster)
    requires
        p.height <= usize::MAX,
    ensures
        forall|i: int|
            0 <= i < text_rows(p).len() ==> row_fits(
                #[trigger] text_rows(p)[i],
                p.height as nat,
            ),
{
    let active = active_rows(activities(p));
    lemma_ended_rows_fit(active, active.len());
    if active.len() > 0 {
        lemma_run_start(active, (active.len() - 1) as nat);
    }
}

/// A small whole number is finite.
proof fn lemma_sample_is_finite(v: u8)
    ensures
        F32::of_nat(v as nat).datum().mag < Format::Single.infinity(),
        !F32::of_nat(v as nat).datum().neg,
{
    if v == 0 {
        reveal(of_whole);
        lemma_no_magnitude(1);
        assert(0 * pow2(149) == 0);
    } else {
        lemma_count_is_near(v as nat);
    }
}

/// Nothing is rounded to nothing.
proof fn lemma_no_magnitude(den: nat)
    requires
        den > 0,
    ensures
        rounded_magnitude(Format::Single, 0, den) == 0,
{
    lemma2_to64();
    assert(0nat / den == 0) by (nonlinear_arith)
        requires
            den > 0,
    ;
    assert(0nat % den == 0) by (nonlinear_arith)
        requires
            den > 0,
    ;
    assert(den * 1 == den);
    assert(excess(Format::Single, 0) == 0);
    assert(0 * Format::Single.lead() == 0);
}

proof fn lemma_no_steps(luma: Seq<u8>, start: int, n: nat)
    requires
        0 <= start,
        start + n <= luma.len(),
        forall|i: int, j: int| 0 <= i < luma.len() && 0 <= j < luma.len() ==> luma[i] == luma[j],
    ensures
        step_sum(luma, start, n) == (F32 { bits: 0 }),
    decreases n,
{
    if n > 1 {
        lemma_no_steps(luma, start, (n - 1) as nat);
        let v = luma[start + n - 1];
        assert(luma[start + n - 2] == v);
        reveal(sum_of);
        lemma_sample_is_finite(v);
        let x = F32::of_nat(v as nat);
        let d = x.datum();
        assert(x.spec_negated().datum() == (Datum { neg: true, mag: d.mag }));
        assert(x.spec_minus(x) == (F32 { bits: 0 }));
        let zero = F32 { bits: 0 };
        assert(zero.spec_abs() == zero);
        assert(units(Format::Single, 0) == 0 * pow2(0));
        assert(zero.spec_plus(zero) == zero);
    }
}

proof fn lemma_nothing_active(active: Seq<bool>, n: nat)
    requires
        n <= active.len(),
        forall|y: int| 0 <= y < active.len() ==> !#[trigger] active[y],
    ensures
        ended_rows(active, n) == Seq::<(usize, usize)>::empty(),
    decreases n,
{
    if n > 0 {
        lemma_nothing_active(active, (n - 1) as nat);
        assert(n > 1 ==> !active[n - 2]);
    }
}

/// A picture of one luminance has no rows of text.
pub proof fn law_an_even_picture_has_no_rows(p: Raster)
    requires
        p.width > 0,
        forall|i: int, j: int|
            0 <= i < p.pixels() && 0 <= j < p.pixels() ==> luma_at(p, i) == luma_at(p, j),
    ensures
        text_rows(p).len() == 0,
{
    let luma = luma_of(p);
    let w = p.width as nat;
    let scores = activities(p);
    let active = active_rows(scores);
    assert forall|y: int| 0 <= y < active.len() implies !#[trigger] active[y] by {
        assert(0 <= y * w && y * w + w <= luma.len()) by (nonlinear_arith)
            requires
                0 <= y < p.height,
                luma.len() == w * p.height,
        ;
        lemma_no_steps(luma, y * w, w);
        reveal(quotient_of);
        lemma_count_is_near(w);
        let d = F32::of_nat(w).datum();
        let den = units(Format::Single, d.mag as nat);
        lemma_pow2_pos(149);
        assert(den > 0) by (nonlinear_arith)
            requires
                0xff_ffff * (w * pow2(149)) <= 0x100_0000 * den,
                w >= 1,
                pow2(149) > 0,
        ;
        lemma_no_magnitude(den);
        assert(units(Format::Single, 0) == 0 * pow2(0));
        assert(0 * pow2(149) == 0);
        assert(scores[y] == (F32 { bits: 0 }));
    }
    lemma_nothing_active(active, active.len());
    if active.len() > 0 {
        assert(!active[active.len() - 1]);
    }
}

/// Rows that are all active, with no active row just above or just below.
pub open spec fn is_run(active: Seq<bool>, a: int, b: int) -> bool {
    &&& 0 <= a < b <= active.len()
    &&& forall|y: int| a <= y < b ==> #[trigger] active[y]
    &&& a == 0 || !active[a - 1]
    &&& b == active.len() || !active[b]
}

/// Rows with room of four above and below, as far as there are rows.
pub open spec fn with_room(active: Seq<bool>, run: (int, int)) -> (int, int) {
    (
        if run.0 < 4 {
            0
        } else {
            run.0 - 4
        },
        if run.1 + 4 > active.len() {
            active.len() as int
        } else {
            run.1 + 4
        },
    )
}

/// A run that is twelve high at least with its room.
pub open spec fn is_high_run(active: Seq<bool>, run: (int, int)) -> bool {
    &&& is_run(active, run.0, run.1)
    &&& with_room(active, run).1 - with_room(active, run).0 >= 12
}

/// The runs that rows of text come from, up to a row.
spec fn from_runs(
    active: Seq<bool>,
    rows: Seq<(usize, usize)>,
    runs: Seq<(int, int)>,
    n: int,
) -> bool {
    &&& rows.len() == runs.len()
    &&& forall|i: int|
        0 <= i < runs.len() ==> is_high_run(active, #[trigger] runs[i]) && runs[i].1 < n
    &&& forall|i: int|
        0 <= i < runs.len() ==> rows[i].0 == with_room(active, #[trigger] runs[i]).0 && rows[i].1
            == with_room(active, runs[i]).1
    &&& forall|i: int, j: int|
        0 <= i < j < runs.len() ==> (#[trigger] runs[i]).1 < (#[trigger] runs[j]).0
    &&& forall|a: int, b: int|
        #[trigger] is_high_run(active, (a, b)) && b < n ==> runs.contains((a, b))
}

/// The first row of the run that a row belongs to.
proof fn lemma_run_of(active: Seq<bool>, y: nat) -> (a: int)
    requires
        y < active.len(),
        active[y as int],
    ensures
        0 <= a <= y,
        forall|k: int| a <= k <= y ==> #[trigger] active[k],
        a == 0 || !active[a - 1],
        run_start(active, y) == (if a < 4 {
            0
        } else {
            a - 4
        }),
    decreases y,
{
    if y > 0 && active[y - 1] {
        lemma_run_of(active, (y - 1) as nat)
    } else {
        y as int
    }
}

/// Runs that end at one row are the same.
proof fn lemma_same_run(active: Seq<bool>, a: int, c: int, b: int)
    requires
        is_run(active, a, b),
        is_run(active, c, b),
    ensures
        a == c,
{
    if a < c {
        assert(active[c - 1]);
    }
    if c < a {
        assert(active[a - 1]);
    }
}

/// A run that is taken up keeps the rows those of runs.
proof fn lemma_next_run(
    active: Seq<bool>,
    rows: Seq<(usize, usize)>,
    runs: Seq<(int, int)>,
    a: int,
    b: int,
) -> (more: Seq<(int, int)>)
    requires
        from_runs(active, rows, runs, b),
        is_run(active, a, b),
        active.len() <= usize::MAX,
    ensures
        ({
            let room = with_room(active, (a, b));
            from_runs(
                active,
                if room.1 - room.0 >= 12 {
                    rows.push((room.0 as usize, room.1 as usize))
                } else {
                    rows
                },
                more,
                b + 1,
            )
        }),
{
    let room = with_room(active, (a, b));
    let high = room.1 - room.0 >= 12;
    let next = if high {
        rows.push((room.0 as usize, room.1 as usize))
    } else {
        rows
    };
    let more = if high {
        runs.push((a, b))
    } else {
        runs
    };
    assert forall|c: int, d: int| #[trigger]
        is_high_run(active, (c, d)) && d < b + 1 implies more.contains((c, d)) by {
        if d == b {
            lemma_same_run(active, a, c, b);
            assert(high);
            assert(more[runs.len() as int] == (a, b));
        } else {
            assert(runs.contains((c, d)));
            let i = choose|i: int| 0 <= i < runs.len() && runs[i] == (c, d);
            assert(more[i] == (c, d));
        }
    }
    assert forall|i: int, j: int| 0 <= i < j < more.len() implies (#[trigger] more[i]).1 < (
    #[trigger] more[j]).0 by {
        if j == runs.len() {
            assert(is_high_run(active, runs[i]) && runs[i].1 < b);
            let d = runs[i].1;
            assert(!active[d]);
            if a <= d {
                assert(active[d]);
            }
        } else {
            assert(runs[i].1 < runs[j].0);
        }
    }
    assert forall|i: int| 0 <= i < more.len() implies is_high_run(active, #[trigger] more[i])
        && more[i].1 < b + 1 by {
        if i < runs.len() {
            assert(more[i] == runs[i]);
        }
    }
    assert forall|i: int| 0 <= i < more.len() implies next[i].0 == with_room(
        active,
        #[trigger] more[i],
    ).0 && next[i].1 == with_room(active, more[i]).1 by {
        if i < runs.len() {
            assert(more[i] == runs[i]);
        }
    }
    more
}

proof fn lemma_ended_runs(active: Seq<bool>, n: nat) -> (runs: Seq<(int, int)>)
    requires
        n <= active.len() <= usize::MAX,
    ensures
        from_runs(active, ended_rows(active, n), runs, n as int),
    decreases n,
{
    if n == 0 {
        let none = Seq::<(int, int)>::empty();
        assert forall|a: int, b: int| #[trigger]
            is_high_run(active, (a, b)) && b < 0 implies none.contains((a, b)) by {}
        none
    } else {
        let y = (n - 1) as nat;
        let runs = lemma_ended_runs(active, y);
        if !active[y as int] && y > 0 && active[y - 1] {
            let a = lemma_run_of(active, (y - 1) as nat);
            assert(is_run(active, a, y as int));
            lemma_next_run(active, ended_rows(active, y), runs, a, y as int)
        } else {
            assert forall|a: int, b: int| #[trigger]
                is_high_run(active, (a, b)) && b < n implies runs.contains((a, b)) by {
                if b == y {
                    assert(active[b - 1]);
                }
            }
            runs
        }
    }
}

/// The rows of text are the runs of active rows, from the upper one to the lower, each with room
/// of four above and below as far as the picture reaches. A run is left out if it is less than
/// twelve high with its room, and no other is.
pub proof fn law_rows_of_text_are_runs_of_active_rows(active: Seq<bool>) -> (runs: Seq<(int, int)>)
    requires
        active.len() <= usize::MAX,
    ensures
        rows_in(active).len() == runs.len(),
        forall|i: int| 0 <= i < runs.len() ==> is_high_run(active, #[trigger] runs[i]),
        forall|i: int|
            0 <= i < runs.len() ==> rows_in(active)[i].0 == with_room(active, #[trigger] runs[i]).0
                && rows_in(active)[i].1 == with_room(active, runs[i]).1,
        forall|i: int, j: int|
            0 <= i < j < runs.len() ==> (#[trigger] runs[i]).1 < (#[trigger] runs[j]).0,
        forall|a: int, b: int| #[trigger]
            is_high_run(active, (a, b)) ==> runs.contains((a, b)),
{
    let n = active.len();
    let runs = lemma_ended_runs(active, n);
    let rows = ended_rows(active, n);
    if n > 0 && active.last() {
        assert(active[n - 1]);
        let a = lemma_run_of(active, (n - 1) as nat);
        assert(is_run(active, a, n as int));
        let more = lemma_next_run(active, rows, runs, a, n as int);
        assert forall|c: int, d: int| #[trigger]
            is_high_run(active, (c, d)) implies more.contains((c, d)) by {
            assert(d < n + 1);
        }
        more
    } else {
        assert forall|c: int, d: int| #[trigger]
            is_high_run(active, (c, d)) implies runs.contains((c, d)) by {
            if d == n {
                assert(active[d - 1]);
                assert(active.last() == active[n - 1]);
            }
        }
        runs
    }
}

/// The sum of the steps between neighbours among the first `n` luminances from `start` on, as a
/// whole number.
pub open spec fn total_change(luma: Seq<u8>, start: int, n: nat) -> int
    decreases n,
{
    if n <= 1 {
        0
    } else {
        let here = luma[start + n - 1] as int;
        let left = luma[start + n - 2] as int;
        total_change(luma, start, (n - 1) as nat) + (if here < left {
            left - here
        } else {
            here - left
        })
    }
}

/// Steps between luminances add up exactly.
proof fn lemma_step_sum(luma: Seq<u8>, start: int, n: nat)
    requires
        n <= 0x1_0000,
    ensures
        step_sum(luma, start, n).finite(),
        step_sum(luma, start, n).value() == total_change(luma, start, n) * one_single(),
        0 <= total_change(luma, start, n) <= 255 * n,
    decreases n,
{
    let o = one_single();
    if n <= 1 {
        let zero = F32 { bits: 0 };
        lemma_of_nat_single(0);
        lemma_rank_is_value(Format::Single, zero.datum(), zero.datum());
        assert(0 * o == 0);
    } else {
        let m = (n - 1) as nat;
        lemma_step_sum(luma, start, m);
        let here = luma[start + n - 1] as int;
        let left = luma[start + n - 2] as int;
        let a = F32::of_nat(here as nat);
        let b = F32::of_nat(left as nat);
        lemma_of_nat_single(here as nat);
        lemma_of_nat_single(left as nat);
        let step = here - left;
        let d = a.spec_minus(b);
        assert(here * o - left * o == step * o) by (nonlinear_arith)
            requires
                step == here - left,
        ;
        let z = lemma_shifted_single(step, 149);
        lemma_minus_single(a, b);
        lemma_exact_single(d, a.value() - b.value(), 1, z);
        let away = d.spec_abs();
        lemma_rank_is_value(Format::Single, d.datum(), d.datum());
        assert(away.datum().mag == d.datum().mag && !away.datum().neg);
        let size = if step < 0 {
            -step
        } else {
            step
        };
        lemma_pow2_pos(149);
        assert(step < 0 ==> step * o < 0) by (nonlinear_arith)
            requires
                o > 0,
        ;
        assert(step >= 0 ==> step * o >= 0) by (nonlinear_arith)
            requires
                o > 0,
        ;
        assert((-step) * o == -(step * o)) by (nonlinear_arith);
        assert(away.finite());
        assert(away.value() == size * o);
        let before = step_sum(luma, start, m);
        let t = total_change(luma, start, m);
        let sum = t + size;
        assert(t * o + size * o == sum * o) by (nonlinear_arith)
            requires
                sum == t + size,
        ;
        let y = lemma_shifted_single(sum, 149);
        lemma_plus_single(before, away);
        lemma_exact_single(before.spec_plus(away), before.value() + away.value(), 1, y);
    }
}

/// The activity of a row is the mean of the steps between neighbours over its width, up to
/// rounding, and a row whose steps are no more than one on average is never one of text.
pub proof fn law_the_activity_of_a_row_is_its_mean_change(luma: Seq<u8>, width: nat, y: int)
    requires
        0 < width <= 0x1_0000,
    ensures
        is_nearly_single(
            row_activity(luma, width, y),
            total_change(luma, y * width, width) * one_single(),
            width as int,
        ),
        forall|scores: Seq<F32>, i: int|
            0 <= i < scores.len() && #[trigger] scores[i] == row_activity(luma, width, y)
                && total_change(luma, y * width, width) <= width ==> !active_rows(scores)[i],
{
    let o = one_single();
    let start = y * width;
    let t = total_change(luma, start, width);
    lemma_step_sum(luma, start, width);
    lemma_of_nat_single(width);
    lemma_pow2_pos(149);
    let s = step_sum(luma, start, width);
    let w = F32::of_nat(width);
    assert(width * o > 0) by (nonlinear_arith)
        requires
            width > 0,
            o > 0,
    ;
    lemma_over_single(s, w);
    let r = row_activity(luma, width, y);
    let f = Format::Single;
    assert forall|z: Datum| z.finite(f) && #[trigger] z.value(f) * (width as int) <= t
        * o implies z.rank() <= r.datum().rank() by {
        let v = z.value(f);
        assert(v * (width * o) <= (t * o) * o) by (nonlinear_arith)
            requires
                v * width <= t * o,
                o > 0,
        ;
    }
    assert forall|z: Datum| z.finite(f) && t * o <= #[trigger] z.value(f) * (
    width as int) implies r.datum().rank() <= z.rank() by {
        let v = z.value(f);
        assert((t * o) * o <= v * (width * o)) by (nonlinear_arith)
            requires
                t * o <= v * width,
                o > 0,
        ;
    }
    if t <= width {
        lemma2_to64();
        lemma_whole_bits_single(ONE_SINGLE, 1, 23);
        let unit = F32 { bits: ONE_SINGLE };
        assert(t * o <= unit.value() * width) by (nonlinear_arith)
            requires
                t <= width,
                unit.value() == o,
                o > 0,
        ;
        lemma_compare_nearly_single(r, t * o, width as int, unit);
        assert forall|scores: Seq<F32>, i: int|
            0 <= i < scores.len() && #[trigger] scores[i] == r implies !active_rows(scores)[i] by {
            let part = sum_single(scores).spec_over(F32::of_nat(scores.len()).spec_max(unit)).spec_times(
                F32 { bits: ROW_PART },
            );
            assert(row_threshold(scores) == part.spec_max(unit));
        }
    }
}

/// The sum of whole numbers.
pub open spec fn sum_of_parts(parts: Seq<int>) -> int
    decreases parts.len(),
{
    if parts.len() == 0 {
        0
    } else {
        sum_of_parts(parts.drop_last()) + parts.last()
    }
}

/// Activities in parts of 256.
pub open spec fn are_parts(scores: Seq<F32>, parts: Seq<int>) -> bool {
    &&& scores.len() == parts.len()
    &&& forall|i: int|
        0 <= i < parts.len() ==> #[trigger] parts[i] >= 0 && scores[i].finite()
            && scores[i].value() == parts[i] * pow2(141)
}

proof fn lemma_sum_of_parts(scores: Seq<F32>, parts: Seq<int>)
    requires
        are_parts(scores, parts),
        sum_of_parts(parts) < 0x100_0000,
    ensures
        sum_single(scores).finite(),
        sum_single(scores).value() == sum_of_parts(parts) * pow2(141),
        sum_of_parts(parts) >= 0,
    decreases parts.len(),
{
    let g = pow2(141) as int;
    if parts.len() == 0 {
        let zero = F32 { bits: NEGATIVE_ZERO_SINGLE };
        lemma_rank_is_value(Format::Single, zero.datum(), zero.datum());
        assert(0 * g == 0);
    } else {
        let a = scores.drop_last();
        let b = parts.drop_last();
        let n = parts.len() - 1;
        assert(parts[n] >= 0);
        assert forall|i: int| 0 <= i < b.len() implies #[trigger] b[i] >= 0 && a[i].finite()
            && a[i].value() == b[i] * pow2(141) by {
            assert(parts[i] >= 0);
        }
        lemma_sum_of_parts(a, b);
        let s = sum_of_parts(b);
        let k = s + parts[n];
        assert(s * g + parts[n] * g == k * g) by (nonlinear_arith)
            requires
                k == s + parts[n],
        ;
        let z = lemma_shifted_single(k, 141);
        lemma_plus_single(sum_single(a), scores[n]);
        lemma_exact_single(
            sum_single(a).spec_plus(scores[n]),
            sum_single(a).value() + scores[n].value(),
            1,
            z,
        );
    }
}

/// A row is active where its activity is above one and above 0.35 of the mean of all rows, and not
/// where it is below either, up to a thousandth of the mean.
pub proof fn law_active_rows_exceed_a_part_of_the_mean(
    scores: Seq<F32>,
    parts: Seq<int>,
    i: int,
)
    requires
        are_parts(scores, parts),
        0 < parts.len() < 0x100_0000,
        0 < sum_of_parts(parts) < 0x100_0000,
        0 <= i < parts.len(),
    ensures
        parts[i] > 256 && 1000 * (parts[i] * parts.len()) >= 351 * sum_of_parts(parts)
            ==> active_rows(scores)[i],
        parts[i] <= 256 || 1000 * (parts[i] * parts.len()) <= 349 * sum_of_parts(parts)
            ==> !active_rows(scores)[i],
{
    let n = parts.len();
    let o = one_single();
    let g = pow2(141) as int;
    let t = sum_of_parts(parts);
    assert(parts[i] >= 0);
    lemma_sum_of_parts(scores, parts);
    lemma2_to64();
    lemma_pow2_pos(149);
    lemma_pow2_pos(141);
    vstd::arithmetic::power2::lemma_pow2_adds(8, 141);
    assert(o == 256 * g);
    let sum = sum_single(scores);
    let c = F32::of_nat(n);
    let unit = F32 { bits: ONE_SINGLE };
    lemma_of_nat_single(n);
    lemma_of_nat_single(1);
    lemma_whole_bits_single(ONE_SINGLE, 1, 23);
    assert(n * o >= o) by (nonlinear_arith)
        requires
            n >= 1,
            o > 0,
    ;
    lemma_min_max_single(c, unit);
    let d = c.spec_max(unit);
    if d == unit {
        lemma_same_single(c, unit);
    }
    assert(d == c);
    let mean = sum.spec_over(c);
    // The mean, in proportion.
    let s = sum.value();
    assert(s >= g && s <= 0x1_0000 * o) by (nonlinear_arith)
        requires
            s == t * g,
            0 < t < 0x100_0000,
            o == 256 * g,
            g > 0,
    ;
    lemma_over_single(sum, c);
    let zero = F32::of_nat(0);
    lemma_of_nat_single(0);
    assert(0 * o == 0);
    assert(0 * (n * o) <= s * o <= s * (n * o)) by (nonlinear_arith)
        requires
            n >= 1,
            s >= 0,
            o > 0,
    ;
    lemma_bounded_single(mean, s * o, n * o, zero, sum);
    lemma_large_grain(g);
    assert(s * o >= 0x80_0000 * (n * o)) by (nonlinear_arith)
        requires
            s >= g,
            g >= 0x1_0000_0000_0000,
            n < 0x100_0000,
            o > 0,
    ;
    lemma_over_error_single(sum, c);
    let m = mean.value();
    let nm = m * n;
    assert(0x100_0000 * nm <= 0x100_0000 * s + s && 0x100_0000 * s <= 0x100_0000 * nm + s)
        by (nonlinear_arith)
        requires
            0x100_0000 * (m * (n * o)) <= 0x100_0000 * (s * o) + s * o,
            0x100_0000 * (s * o) <= 0x100_0000 * (m * (n * o)) + s * o,
            nm == m * n,
            o > 0,
    ;
    // The part of it.
    let part = F32 { bits: ROW_PART };
    lemma_bits_single(ROW_PART, 124, 0xb3_3333);
    vstd::arithmetic::power2::lemma_pow2_adds(25, 124);
    lemma_pow2_pos(124);
    assert(349_990 * o <= 1_000_000 * part.value() <= 350_010 * o);
    let least = mean.spec_times(part);
    lemma_times_single(mean, part);
    let pv = part.value();
    let v = m * pv;
    assert(0 * o <= v <= m * o) by (nonlinear_arith)
        requires
            v == m * pv,
            m >= 0,
            0 <= pv <= o,
    ;
    lemma_bounded_single(least, v, o, zero, mean);
    assert(2 * nm >= s);
    assert(m >= 0x4000_0000) by (nonlinear_arith)
        requires
            2 * (m * n) >= s,
            s >= g,
            g >= 0x100_0000_0000_0000,
            0 < n < 0x100_0000,
    ;
    assert(v >= 0x80_0000 * o) by (nonlinear_arith)
        requires
            v == m * pv,
            m >= 0x4000_0000,
            1_000_000 * pv >= 349_990 * o,
            o > 0,
    ;
    lemma_times_error_single(mean, part);
    let l = least.value();
    assert(0x100_0000 * (l * o) <= 0x100_0000 * v + v && 0x100_0000 * v <= 0x100_0000 * (l * o)
        + v);
    // 1000 l is between 349.5 and 350.5 of the mean.
    assert(699 * m <= 2000 * l <= 701 * m) by (nonlinear_arith)
        requires
            0x100_0000 * (l * o) <= 0x100_0000 * v + v,
            0x100_0000 * v <= 0x100_0000 * (l * o) + v,
            v == m * pv,
            349_990 * o <= 1_000_000 * pv <= 350_010 * o,
            m >= 0,
            o > 0,
    {
        let mo = m * o;
        assert(349_990 * mo <= 1_000_000 * v <= 350_010 * mo) by (nonlinear_arith)
            requires
                mo == m * o,
                v == m * pv,
                349_990 * o <= 1_000_000 * pv <= 350_010 * o,
                m >= 0,
        ;
        assert(699 * mo <= 2000 * (l * o) <= 701 * mo);
        assert(699 * m <= 2000 * l <= 701 * m) by (nonlinear_arith)
            requires
                699 * (m * o) <= 2000 * (l * o) <= 701 * (m * o),
                o > 0,
        ;
    }
    lemma_min_max_single(least, unit);
    let high = row_threshold(scores);
    assert(high == least.spec_max(unit));
    lemma_compare_single(high, scores[i]);
    let a = parts[i];
    let na = a * n;
    let nl = l * n;
    assert(699 * nm <= 2000 * nl <= 701 * nm) by (nonlinear_arith)
        requires
            699 * m <= 2000 * l <= 701 * m,
            nm == m * n,
            nl == l * n,
    ;
    let nv = scores[i].value() * n;
    assert(nv == na * g) by (nonlinear_arith)
        requires
            nv == (a * g) * n,
            na == a * n,
    ;
    if a > 256 && 1000 * na >= 351 * t {
        assert(1000 * nv >= 351 * s) by (nonlinear_arith)
            requires
                nv == na * g,
                s == t * g,
                1000 * na >= 351 * t,
                g > 0,
        ;
        assert(nl < nv);
        assert(l < scores[i].value()) by (nonlinear_arith)
            requires
                l * n < scores[i].value() * n,
                n > 0,
        ;
        assert(scores[i].value() > o) by (nonlinear_arith)
            requires
                scores[i].value() == a * g,
                a > 256,
                o == 256 * g,
                g > 0,
        ;
    }
    if a <= 256 {
        assert(scores[i].value() <= o) by (nonlinear_arith)
            requires
                scores[i].value() == a * g,
                a <= 256,
                o == 256 * g,
                g > 0,
        ;
    }
    if 1000 * na <= 349 * t {
        assert(1000 * nv <= 349 * s) by (nonlinear_arith)
            requires
                nv == na * g,
                s == t * g,
                1000 * na <= 349 * t,
                g > 0,
        ;
        assert(nv <= nl);
        assert(scores[i].value() <= l) by (nonlinear_arith)
            requires
                scores[i].value() * n <= l * n,
                n > 0,
        ;
    }
}

proof fn lemma_large_grain(g: int)
    requires
        g == pow2(141),
    ensures
        g >= 0x100_0000_0000_0000,
{
    vstd::arithmetic::power2::lemma2_to64_rest();
    vstd::arithmetic::power2::lemma_pow2_strictly_increases(56, 141);
}

} // verus!
