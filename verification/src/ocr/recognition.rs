//! Reading a line of text: what the recognition model is given, and what its answer says.

use vstd::prelude::*;
use vstd::string::StringExecFns;
use crate::float::F32;
use crate::ocr::detection::detection_size;
use crate::ocr::detection::detection_size_of;
use crate::picture::Picture;
use crate::picture::{Raster, can_scale, rgb_of, scaled};
use crate::text::texts;

verus! {

/// The height that lines are brought to before they are read.
pub const LINE_HEIGHT: u32 = 48;

/// The height that lines are brought to, as bits of a 32-bit number: 48.
pub const LINE_HEIGHT_SINGLE: u32 = 0x4240_0000;

/// The greatest sample, as bits of a 32-bit number: 255.
pub const FULL_SINGLE: u32 = 0x437f_0000;

/// Negative infinity, as bits of a 32-bit number.
pub const NEGATIVE_INFINITE_SINGLE: u32 = 0xff80_0000;

/// Negative zero, as bits of a 32-bit number.
pub const NEGATIVE_ZERO_SINGLE: u32 = 0x8000_0000;

/// The part of the mean activity that a row of text exceeds, as bits of a 32-bit number:
/// 0.35.
pub const ROW_PART: u32 = 0x3eb3_3333;

/// What samples are normalized by: a mean that is taken off and a deviation that is
/// divided by.
#[derive(Clone, Copy, Debug, PartialEq, Eq, Structural)]
pub struct Norm {
    pub mean: F32,
    pub deviation: F32,
}

/// The norms of red, green and blue.
pub type Norms = (Norm, Norm, Norm);

/// The norms for detection: means 0.485, 0.456 and 0.406, deviations 0.229, 0.224 and
/// 0.225.
pub open spec fn detection_norms() -> Norms {
    (
        Norm { mean: F32 { bits: 0x3ef8_51ec }, deviation: F32 { bits: 0x3e6a_7efa } },
        Norm { mean: F32 { bits: 0x3ee9_78d5 }, deviation: F32 { bits: 0x3e65_6042 } },
        Norm { mean: F32 { bits: 0x3ecf_df3b }, deviation: F32 { bits: 0x3e66_6666 } },
    )
}

/// The norms for recognition: mean and deviation one half.
pub open spec fn recognition_norms() -> Norms {
    let half = Norm { mean: F32 { bits: 0x3f00_0000 }, deviation: F32 { bits: 0x3f00_0000 } };
    (half, half, half)
}

/// A sample brought to the range from zero to one, and normalized.
pub open spec fn normalized(v: u8, norm: Norm) -> F32 {
    F32::of_nat(v as nat).spec_over(F32 { bits: FULL_SINGLE }).spec_minus(norm.mean).spec_over(
        norm.deviation,
    )
}

pub open spec fn norm_of(norms: Norms, c: int) -> Norm {
    if c == 0 {
        norms.0
    } else if c == 1 {
        norms.1
    } else {
        norms.2
    }
}

/// The normalized samples of a picture: all of red, row by row, then all of green, then all
/// of blue.
pub open spec fn tensor_of(p: Raster, norms: Norms) -> Seq<F32> {
    let n = p.pixels() as int;
    Seq::new(
        p.pixels() * 3,
        |k: int| normalized(rgb_of(p)[k % n * 3 + k / n], norm_of(norms, k / n)),
    )
}

/// The width that a line is brought to before it is read.
pub open spec fn line_width(width: u32, height: u32) -> u32 {
    let aspect = F32::of_nat(width as nat).spec_over(F32::of_nat(height as nat));
    (F32 { bits: LINE_HEIGHT_SINGLE }).spec_times(aspect).spec_max(
        F32 { bits: LINE_HEIGHT_SINGLE },
    ).spec_round_u32()
}

/// What the recognition model is given for a picture of a line.
pub open spec fn line_tensor(p: Raster) -> Seq<F32> {
    tensor_of(scaled(p, line_width(p.width, p.height), LINE_HEIGHT), recognition_norms())
}

/// What the detection model is given for a picture.
pub open spec fn detection_tensor(p: Raster) -> Seq<F32> {
    let size = detection_size_of(p.width, p.height);
    tensor_of(scaled(p, size.0, size.1), detection_norms())
}

/// What a model is given: three planes of `height` rows and `width` columns.
pub struct Tensor {
    pub width: u32,
    pub height: u32,
    pub values: Vec<F32>,
}

fn norm_table(norm: Norm) -> (t: Vec<F32>)
    ensures
        t@.len() == 256,
        forall|v: int| 0 <= v < 256 ==> #[trigger] t@[v] == normalized(v as u8, norm),
{
    let mut t: Vec<F32> = Vec::new();
    let mut v: u64 = 0;
    while v < 256
        invariant
            v <= 256,
            t@.len() == v,
            forall|i: int| 0 <= i < v ==> #[trigger] t@[i] == normalized(i as u8, norm),
        decreases 256 - v,
    {
        t.push(
            F32::of_count(v).over(F32 { bits: FULL_SINGLE }).minus(norm.mean).over(norm.deviation),
        );
        v = v + 1;
    }
    t
}

/// The normalized samples of a picture, colour by colour.
pub fn make_tensor(p: &Picture, norms: Norms) -> (t: Tensor)
    requires
        p@.countable(),
        p@.pixels() * 3 <= isize::MAX,
    ensures
        t.values@ == tensor_of(p@, norms),
        t.width == p.width && t.height == p.height,
{
    let rgb: Picture = p.to_rgb8();
    let total: usize = rgb.samples.len();
    let n: usize = total / 3;
    let mut values: Vec<F32> = Vec::new();
    let mut c: usize = 0;
    let ghost target = tensor_of(p@, norms);
    proof {
        assert(n == p@.pixels());
        assert(values@ =~= target.take(0));
        assert(n * 0 == 0);
    }
    while c < 3
        invariant
            c <= 3,
            total == n * 3,
            n == p@.pixels(),
            rgb@.samples == rgb_of(p@),
            rgb@.samples.len() == total,
            target == tensor_of(p@, norms),
            target.len() == total,
            values@ == target.take(n * c),
        decreases 3 - c,
    {
        let norm: Norm = if c == 0 {
            norms.0
        } else if c == 1 {
            norms.1
        } else {
            norms.2
        };
        let table: Vec<F32> = norm_table(norm);
        let mut i: usize = 0;
        while i < n
            invariant
                i <= n,
                c < 3,
                total == n * 3,
                n == p@.pixels(),
                rgb@.samples == rgb_of(p@),
                rgb@.samples.len() == total,
                target == tensor_of(p@, norms),
                target.len() == total,
                norm == norm_of(norms, c as int),
                table@.len() == 256,
                forall|v: int| 0 <= v < 256 ==> #[trigger] table@[v] == normalized(v as u8, norm),
                values@ == target.take(n * c + i),
            decreases n - i,
        {
            let v: u8 = rgb.samples[i * 3 + c];
            values.push(table[v as usize]);
            proof {
                let k = n * c + i;
                assert(n * c + i < n * 3) by (nonlinear_arith)
                    requires
                        c <= 2,
                        i < n,
                ;
                assert(n * c >= 0) by (nonlinear_arith);
                assert(k / n as int == c && k % n as int == i) by {
                    assert(c * n == n * c) by (nonlinear_arith);
                    vstd::arithmetic::div_mod::lemma_fundamental_div_mod_converse(
                        k,
                        n as int,
                        c as int,
                        i as int,
                    );
                }
                assert(target[k] == normalized(v, norm));
                assert(values@ =~= target.take(k + 1));
            }
            i = i + 1;
        }
        proof {
            assert(n * c + n == n * (c + 1)) by (nonlinear_arith);
        }
        c = c + 1;
    }
    proof {
        assert(target.take(n * 3) =~= target);
    }
    Tensor { width: p.width, height: p.height, values }
}

/// Computes [`line_width`].
pub fn find_line_width(width: u32, height: u32) -> (r: u32)
    ensures
        r == line_width(width, height),
{
    let aspect: F32 = F32::of_count(width as u64).over(F32::of_count(height as u64));
    let least: F32 = F32 { bits: LINE_HEIGHT_SINGLE };
    least.times(aspect).max(least).round_u32()
}

/// What the recognition model is given for a picture of a line.
pub fn line_input(img: &Picture) -> (t: Tensor)
    requires
        img@.wf(),
        can_scale(img.width, img.height, line_width(img.width, img.height), LINE_HEIGHT),
    ensures
        t.values@ == line_tensor(img@),
        t.width == line_width(img.width, img.height) && t.height == LINE_HEIGHT,
{
    let width: u32 = find_line_width(img.width, img.height);
    let norms: Norms = (
        Norm { mean: F32 { bits: 0x3f00_0000 }, deviation: F32 { bits: 0x3f00_0000 } },
        Norm { mean: F32 { bits: 0x3f00_0000 }, deviation: F32 { bits: 0x3f00_0000 } },
        Norm { mean: F32 { bits: 0x3f00_0000 }, deviation: F32 { bits: 0x3f00_0000 } },
    );
    make_tensor(&img.resize_exact(width, LINE_HEIGHT), norms)
}

/// What the detection model is given for a picture.
pub fn detection_input(img: &Picture) -> (t: Tensor)
    requires
        img@.wf(),
        can_scale(
            img.width,
            img.height,
            detection_size_of(img.width, img.height).0,
            detection_size_of(img.width, img.height).1,
        ),
    ensures
        t.values@ == detection_tensor(img@),
        t.width == detection_size_of(img.width, img.height).0,
        t.height == detection_size_of(img.width, img.height).1,
{
    let size: (u32, u32) = detection_size(img.width, img.height);
    let norms: Norms = (
        Norm { mean: F32 { bits: 0x3ef8_51ec }, deviation: F32 { bits: 0x3e6a_7efa } },
        Norm { mean: F32 { bits: 0x3ee9_78d5 }, deviation: F32 { bits: 0x3e65_6042 } },
        Norm { mean: F32 { bits: 0x3ecf_df3b }, deviation: F32 { bits: 0x3e66_6666 } },
    );
    make_tensor(&img.resize_exact(size.0, size.1), norms)
}

/// The answer of the recognition model: for each step along the line, the score of each
/// class. Class zero is a blank; class `k` is the entry before the `k`th of the dictionary.
pub struct LineScores {
    pub steps: usize,
    pub classes: usize,
    pub scores: Vec<F32>,
}

impl LineScores {
    /// There is a score for each class of each step.
    pub open spec fn wf(self) -> bool {
        self.steps * self.classes <= self.scores@.len()
    }
}

/// The first class with the greatest score among the first `n`, and that score. Scores
/// that are not numbers count for nothing.
pub open spec fn best(step: Seq<F32>, n: nat) -> (nat, F32)
    decreases n,
{
    if n == 0 {
        (0, F32 { bits: NEGATIVE_INFINITE_SINGLE })
    } else {
        let before = best(step, (n - 1) as nat);
        if before.1.spec_less(step[n - 1]) {
            ((n - 1) as nat, step[n - 1])
        } else {
            before
        }
    }
}

/// The scores of a step.
pub open spec fn step_scores(scores: Seq<F32>, classes: nat, t: int) -> Seq<F32> {
    scores.subrange(t * classes, t * classes + classes)
}

/// The best class of each step.
pub open spec fn best_path(scores: Seq<F32>, classes: nat, steps: nat) -> Seq<nat> {
    Seq::new(steps, |t: int| best(step_scores(scores, classes, t), classes).0)
}

/// The best score of each step.
pub open spec fn best_scores(scores: Seq<F32>, classes: nat, steps: nat) -> Seq<F32> {
    Seq::new(steps, |t: int| best(step_scores(scores, classes, t), classes).1)
}

/// The last step of a path writes an entry of the dictionary: it is no blank, differs from
/// the step before, and the dictionary has the entry.
pub open spec fn writes(path: Seq<nat>, entries: nat) -> bool {
    let class = path.last();
    let before = if path.len() > 1 {
        path[path.len() - 2]
    } else {
        0
    };
    class != 0 && class != before && class <= entries
}

/// The text that a path writes.
pub open spec fn path_text(dict: Seq<Seq<char>>, path: Seq<nat>) -> Seq<char>
    decreases path.len(),
{
    if path.len() == 0 {
        Seq::empty()
    } else if writes(path, dict.len()) {
        path_text(dict, path.drop_last()) + dict[path.last() - 1]
    } else {
        path_text(dict, path.drop_last())
    }
}

/// How many entries a path writes.
pub open spec fn path_count(entries: nat, path: Seq<nat>) -> nat
    decreases path.len(),
{
    if path.len() == 0 {
        0
    } else if writes(path, entries) {
        path_count(entries, path.drop_last()) + 1
    } else {
        path_count(entries, path.drop_last())
    }
}

/// The sum of the scores of the entries that a path writes.
pub open spec fn path_total(entries: nat, path: Seq<nat>, scores: Seq<F32>) -> F32
    decreases path.len(),
{
    if path.len() == 0 {
        F32 { bits: 0 }
    } else {
        let before = path_total(entries, path.drop_last(), scores);
        if writes(path, entries) {
            before.spec_plus(scores[path.len() - 1])
        } else {
            before
        }
    }
}

/// The mean score of the entries that a path writes, zero where it writes none.
pub open spec fn path_score(entries: nat, path: Seq<nat>, scores: Seq<F32>) -> F32 {
    let count = path_count(entries, path);
    if count > 0 {
        path_total(entries, path, scores).spec_over(F32::of_nat(count))
    } else {
        F32 { bits: 0 }
    }
}

/// The text that the answer of the recognition model says, and its mean score.
pub open spec fn read_line(dict: Seq<Seq<char>>, scores: Seq<F32>, classes: nat, steps: nat) -> (
    Seq<char>,
    F32,
) {
    let path = best_path(scores, classes, steps);
    (
        path_text(dict, path),
        path_score(dict.len(), path, best_scores(scores, classes, steps)),
    )
}

/// The first class with the greatest score of a step, and that score.
fn find_best(out: &LineScores, offset: usize, Ghost(t): Ghost<int>) -> (r: (usize, F32))
    requires
        offset == t * out.classes,
        offset + out.classes <= out.scores@.len(),
    ensures
        r.0 == best(step_scores(out.scores@, out.classes as nat, t), out.classes as nat).0,
        r.1 == best(step_scores(out.scores@, out.classes as nat, t), out.classes as nat).1,
{
    let ghost step = step_scores(out.scores@, out.classes as nat, t);
    let have: usize = out.scores.len();
    let mut class: usize = 0;
    let mut score: F32 = F32 { bits: NEGATIVE_INFINITE_SINGLE };
    let mut i: usize = 0;
    while i < out.classes
        invariant
            i <= out.classes,
            offset == t * out.classes,
            offset + out.classes <= have == out.scores@.len(),
            step == step_scores(out.scores@, out.classes as nat, t),
            class == best(step, i as nat).0,
            score == best(step, i as nat).1,
        decreases out.classes - i,
    {
        let v: F32 = out.scores[offset + i];
        proof {
            assert(step[i as int] == v);
        }
        if score.less(v) {
            score = v;
            class = i;
        }
        i = i + 1;
    }
    (class, score)
}

/// Reads the text of a line off the answer of the recognition model: the best class of
/// each step, without blanks, and without repetitions that no blank parts.
pub fn decode_line(dict: &Vec<String>, out: &LineScores) -> (r: (String, F32))
    requires
        out.wf(),
    ensures
        (r.0@, r.1) == read_line(
            texts(dict@),
            out.scores@,
            out.classes as nat,
            out.steps as nat,
        ),
{
    let ghost d = texts(dict@);
    let ghost path = best_path(out.scores@, out.classes as nat, out.steps as nat);
    let ghost peaks = best_scores(out.scores@, out.classes as nat, out.steps as nat);
    let mut text: String = String::new();
    let mut total: F32 = F32 { bits: 0 };
    let mut count: u64 = 0;
    let mut before: usize = 0;
    let mut t: usize = 0;
    let have: usize = out.scores.len();
    proof {
        assert(path.take(0) =~= Seq::<nat>::empty());
    }
    while t < out.steps
        invariant
            t <= out.steps,
            out.steps * out.classes <= have == out.scores@.len(),
            d == texts(dict@),
            path == best_path(out.scores@, out.classes as nat, out.steps as nat),
            peaks == best_scores(out.scores@, out.classes as nat, out.steps as nat),
            text@ == path_text(d, path.take(t as int)),
            count == path_count(d.len(), path.take(t as int)),
            count <= t,
            total == path_total(d.len(), path.take(t as int), peaks),
            t == 0 ==> before == 0,
            t > 0 ==> before == path[t - 1],
        decreases out.steps - t,
    {
        proof {
            let c = out.classes;
            assert(t * c + c <= out.steps * c) by (nonlinear_arith)
                requires
                    t + 1 <= out.steps,
            ;
            assert(t * c >= 0) by (nonlinear_arith);
        }
        let offset: usize = t * out.classes;
        let found: (usize, F32) = find_best(out, offset, Ghost(t as int));
        let class: usize = found.0;
        let ghost so_far = path.take(t + 1);
        proof {
            assert(so_far.drop_last() =~= path.take(t as int));
            assert(so_far.last() == class);
            if t > 0 {
                assert(so_far[so_far.len() - 2] == path[t - 1]);
            }
        }
        if class != 0 && class != before && class - 1 < dict.len() {
            proof {
                assert(writes(so_far, d.len()));
                assert(d[class - 1] == dict@[class - 1]@);
            }
            text.append(dict[class - 1].as_str());
            total = total.plus(found.1);
            count = count + 1;
        }
        before = class;
        t = t + 1;
    }
    proof {
        assert(path.take(t as int) =~= path);
    }
    let score: F32 = if count > 0 {
        total.over(F32::of_count(count))
    } else {
        F32 { bits: 0 }
    };
    (text, score)
}

/// A step that repeats the one before it writes nothing.
pub proof fn law_repeated_steps_write_once(dict: Seq<Seq<char>>, path: Seq<nat>, t: int)
    requires
        0 <= t < path.len(),
    ensures
        path_text(dict, path.insert(t, path[t])) == path_text(dict, path),
    decreases path.len(),
{
    let longer = path.insert(t, path[t]);
    let n = path.len() as int;
    if t == n - 1 {
        assert(longer.drop_last() =~= path);
    } else {
        law_repeated_steps_write_once(dict, path.drop_last(), t);
        assert(longer.drop_last() =~= path.drop_last().insert(t, path[t]));
        assert(longer.last() == path.last());
        assert(longer[n - 1] == path[n - 2]);
    }
}

/// After a blank, an entry is written again.
pub proof fn law_a_blank_parts_repetitions(dict: Seq<Seq<char>>, path: Seq<nat>, class: nat)
    requires
        0 < class <= dict.len(),
    ensures
        path_text(dict, path.push(0)) == path_text(dict, path),
        path_text(dict, path.push(0).push(class)) == path_text(dict, path) + dict[class - 1],
{
    assert(path.push(0).drop_last() =~= path);
    assert(path.push(0).push(class).drop_last() =~= path.push(0));
}

/// What is known of the best among the first `n` scores of a step.
proof fn lemma_best(step: Seq<F32>, n: nat)
    ensures
        !best(step, n).1.is_nan(),
        n > 0 ==> best(step, n).0 < n,
        forall|i: int| 0 <= i < n ==> !best(step, n).1.spec_less(#[trigger] step[i]),
        best(step, n).1 == (F32 { bits: 0xff80_0000 }) || (best(step, n).0 < n && best(step, n).1
            == step[best(step, n).0 as int]),
        forall|i: int|
            0 <= i < best(step, n).0 && !(#[trigger] step[i]).is_nan() ==> step[i].spec_less(
                best(step, n).1,
            ),
    decreases n,
{
    if n > 0 {
        lemma_best(step, (n - 1) as nat);
    }
}

/// The class that is taken at a step has the greatest score of the step, and is the first that
/// has it. Scores that are not numbers are left aside.
pub proof fn law_the_class_taken_has_the_greatest_score(step: Seq<F32>, n: nat)
    requires
        0 < n <= step.len(),
    ensures
        best(step, n).0 < n,
        forall|i: int| 0 <= i < n ==> !best(step, n).1.spec_less(#[trigger] step[i]),
        (exists|i: int| 0 <= i < n && (F32 { bits: 0xff80_0000 }).spec_less(#[trigger] step[i]))
            ==> best(step, n).1 == step[best(step, n).0 as int],
        forall|i: int|
            0 <= i < best(step, n).0 && !(#[trigger] step[i]).is_nan() ==> step[i].spec_less(
                step[best(step, n).0 as int],
            ),
{
    lemma_best(step, n);
    let b = best(step, n);
    if b.1 == (F32 { bits: 0xff80_0000 }) {
        assert forall|i: int| 0 <= i < b.0 && !(#[trigger] step[i]).is_nan() implies step[i].spec_less(
            step[b.0 as int],
        ) by {
            assert(step[i].spec_less(b.1));
        }
    }
}

/// Where one class has a greater score than all others at each step, these classes are what is
/// read.
pub proof fn law_the_greatest_scores_are_read(
    dict: Seq<Seq<char>>,
    scores: Seq<F32>,
    classes: nat,
    path: Seq<nat>,
)
    requires
        path.len() * classes <= scores.len(),
        forall|t: int| 0 <= t < path.len() ==> #[trigger] path[t] < classes,
        forall|t: int, c: int|
            0 <= t < path.len() && 0 <= c < classes && c != path[t] ==> (#[trigger] scores[t
                * classes + c]).spec_less(scores[t * classes + path[t]]),
    ensures
        read_line(dict, scores, classes, path.len()).0 == path_text(dict, path),
{
    let taken = best_path(scores, classes, path.len());
    assert forall|t: int| 0 <= t < path.len() implies taken[t] == path[t] by {
        let step = step_scores(scores, classes, t);
        assert(t * classes + classes <= path.len() * classes) by (nonlinear_arith)
            requires
                t + 1 <= path.len(),
        ;
        assert(t * classes >= 0) by (nonlinear_arith)
            requires
                t >= 0,
        ;
        lemma_best(step, classes);
        let c = best(step, classes).0;
        let p = path[t];
        assert(step[c as int] == scores[t * classes + c]);
        assert(step[p as int] == scores[t * classes + p]);
        if c != p {
            assert(scores[t * classes + c].spec_less(scores[t * classes + p]));
            assert(!best(step, classes).1.spec_less(step[p as int]));
        }
    }
    assert(taken =~= path);
}

/// A step with another class than the step before writes the entry of that class, where the
/// dictionary has one; class `k` is the `k`th entry.
pub proof fn law_another_class_is_written(dict: Seq<Seq<char>>, path: Seq<nat>, class: nat)
    requires
        class > 0,
        path.len() > 0 ==> class != path.last(),
    ensures
        class <= dict.len() ==> path_text(dict, path.push(class)) == path_text(dict, path)
            + dict[class - 1],
        class > dict.len() ==> path_text(dict, path.push(class)) == path_text(dict, path),
        path_text(dict, Seq::empty()) == Seq::<char>::empty(),
{
    assert(path.push(class).drop_last() =~= path);
    if path.len() > 0 {
        assert(path.push(class)[path.len() - 1] == path.last());
    }
}

} // verus!
