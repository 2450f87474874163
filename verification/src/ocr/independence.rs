//! What the joined text rests on, and what it does not.

use vstd::prelude::*;
use crate::float::F64;
use crate::ocr::layout::{
    all_clustered, belongs, center, center_keys, clustered, first_line, left_keys, left_to_right,
    line_bottom, line_keys, line_top, parted, placed, reading_lines, sum_of_centers,
    sum_of_heights, top_to_bottom,
};
use crate::ocr::pipeline::{joined_text, line_text, lines_text, texts_of, JOIN_PART};
use crate::ocr::words::{Frame, Word, frames_of};
use crate::sorting::{covers, in_order, key_le, law_stable_order_is_the_only_one};
use crate::sorting::{lemma_stable_order, stable_order};

verus! {

/// Two frames stand at one place and are equally high.
pub open spec fn stands_alike(a: Frame, b: Frame) -> bool {
    a.x == b.x && a.y == b.y && a.h == b.h
}

/// The frames of `b` stand as those of `a` do, with `to` telling which is which.
spec fn matched(a: Seq<Frame>, b: Seq<Frame>, to: Seq<usize>) -> bool {
    &&& to.len() == b.len()
    &&& forall|i: int|
        0 <= i < b.len() ==> (#[trigger] to[i]) < a.len() && stands_alike(b[i], a[to[i] as int])
}

/// The positions that others stand for.
spec fn renamed(line: Seq<usize>, to: Seq<usize>) -> Seq<usize> {
    Seq::new(line.len(), |k: int| to[line[k] as int])
}

spec fn all_renamed(lines: Seq<Seq<usize>>, to: Seq<usize>) -> Seq<Seq<usize>> {
    Seq::new(lines.len(), |i: int| renamed(lines[i], to))
}

spec fn in_range(line: Seq<usize>, n: nat) -> bool {
    forall|k: int| 0 <= k < line.len() ==> (#[trigger] line[k]) < n
}

spec fn all_in_range(lines: Seq<Seq<usize>>, n: nat) -> bool {
    forall|i: int| 0 <= i < lines.len() ==> in_range(#[trigger] lines[i], n)
}

proof fn lemma_measures(a: Seq<Frame>, b: Seq<Frame>, to: Seq<usize>, line: Seq<usize>)
    requires
        matched(a, b, to),
        in_range(line, b.len()),
    ensures
        sum_of_centers(b, line) == sum_of_centers(a, renamed(line, to)),
        sum_of_heights(b, line) == sum_of_heights(a, renamed(line, to)),
        line_top(b, line) == line_top(a, renamed(line, to)),
        line_bottom(b, line) == line_bottom(a, renamed(line, to)),
    decreases line.len(),
{
    if line.len() > 0 {
        let r = renamed(line, to);
        assert(r.drop_last() =~= renamed(line.drop_last(), to));
        lemma_measures(a, b, to, line.drop_last());
        let last = line.last();
        assert(line[line.len() - 1] < b.len());
        assert(to[last as int] < a.len());
        assert(r.last() == to[last as int]);
    }
}

proof fn lemma_first_line(
    a: Seq<Frame>,
    b: Seq<Frame>,
    to: Seq<usize>,
    lines: Seq<Seq<usize>>,
    word: usize,
    part: F64,
    from: nat,
)
    requires
        matched(a, b, to),
        all_in_range(lines, b.len()),
        word < b.len(),
        from <= lines.len(),
    ensures
        first_line(b, lines, word, part, from) == first_line(
            a,
            all_renamed(lines, to),
            to[word as int],
            part,
            from,
        ),
        from <= first_line(b, lines, word, part, from) <= lines.len(),
    decreases lines.len() - from,
{
    if from < lines.len() {
        lemma_measures(a, b, to, lines[from as int]);
        assert(to[word as int] < a.len());
        assert(belongs(b, lines[from as int], word, part) == belongs(
            a,
            all_renamed(lines, to)[from as int],
            to[word as int],
            part,
        ));
        if !belongs(b, lines[from as int], word, part) {
            lemma_first_line(a, b, to, lines, word, part, from + 1);
        }
    }
}

proof fn lemma_clustered(
    a: Seq<Frame>,
    b: Seq<Frame>,
    to: Seq<usize>,
    order: Seq<usize>,
    part: F64,
    n: nat,
)
    requires
        matched(a, b, to),
        in_range(order, b.len()),
        n <= order.len(),
    ensures
        all_renamed(clustered(b, order, part, n), to) == clustered(
            a,
            renamed(order, to),
            part,
            n,
        ),
        all_in_range(clustered(b, order, part, n), b.len()),
        clustered(b, order, part, n).len() <= n,
        forall|i: int|
            0 <= i < clustered(b, order, part, n).len() ==> (#[trigger] clustered(
                b,
                order,
                part,
                n,
            )[i]).len() <= n,
    decreases n,
{
    if n == 0 {
        assert(all_renamed(clustered(b, order, part, 0), to) =~= Seq::<Seq<usize>>::empty());
    } else {
        let m = (n - 1) as nat;
        lemma_clustered(a, b, to, order, part, m);
        let lines = clustered(b, order, part, m);
        let word = order[n - 1];
        assert(word < b.len());
        lemma_first_line(a, b, to, lines, word, part, 0);
        let at = first_line(b, lines, word, part, 0);
        let next = placed(b, lines, word, part);
        let other = placed(a, all_renamed(lines, to), to[word as int], part);
        assert(renamed(order, to)[n - 1] == to[word as int]);
        if at < lines.len() {
            let grown = lines[at as int].push(word);
            assert(in_range(lines[at as int], b.len()));
            assert(in_range(grown, b.len()));
            assert(renamed(grown, to) =~= renamed(lines[at as int], to).push(to[word as int]));
        } else {
            assert(renamed(seq![word], to) =~= seq![to[word as int]]);
        }
        assert forall|i: int| 0 <= i < next.len() implies in_range(#[trigger] next[i], b.len()) by {
            if i < lines.len() {
                assert(in_range(lines[i], b.len()));
            }
        }
        assert(all_renamed(next, to) =~= other);
    }
}

proof fn lemma_left_to_right(a: Seq<Frame>, b: Seq<Frame>, to: Seq<usize>, line: Seq<usize>)
    requires
        matched(a, b, to),
        in_range(line, b.len()),
        line.len() <= usize::MAX,
    ensures
        renamed(left_to_right(b, line), to) == left_to_right(a, renamed(line, to)),
        in_range(left_to_right(b, line), b.len()),
{
    let keys = left_keys(b, line);
    assert forall|k: int| 0 <= k < line.len() implies keys[k] == left_keys(
        a,
        renamed(line, to),
    )[k] by {
        assert(line[k] < b.len());
        assert(to[line[k] as int] < a.len());
    }
    assert(keys =~= left_keys(a, renamed(line, to)));
    lemma_stable_order(keys);
    let order = stable_order(keys);
    assert forall|k: int| 0 <= k < line.len() implies (#[trigger] left_to_right(b, line)[k])
        < b.len() by {
        assert(order[k] < line.len());
        assert(line[order[k] as int] < b.len());
    }
    assert(renamed(left_to_right(b, line), to) =~= left_to_right(a, renamed(line, to)));
}

proof fn lemma_lines_text(
    a: Seq<Frame>,
    b: Seq<Frame>,
    to: Seq<usize>,
    first: Seq<Seq<char>>,
    second: Seq<Seq<char>>,
    lines: Seq<Seq<usize>>,
    n: nat,
)
    requires
        matched(a, b, to),
        second.len() == b.len(),
        forall|i: int| 0 <= i < b.len() ==> second[i] == first[(#[trigger] to[i]) as int],
        all_in_range(lines, b.len()),
        n <= lines.len(),
    ensures
        lines_text(b, second, lines, n) == lines_text(a, first, all_renamed(lines, to), n),
    decreases n,
{
    if n > 0 {
        let r = all_renamed(lines, to);
        lemma_line_text(b.len(), to, first, second, lines[n - 1]);
        lemma_lines_text(a, b, to, first, second, lines, (n - 1) as nat);
        if n > 1 {
            lemma_measures(a, b, to, lines[n - 1]);
            lemma_measures(a, b, to, lines[n - 2]);
            assert(parted(b, lines[n - 2], lines[n - 1]) == parted(a, r[n - 2], r[n - 1]));
        }
    }
}

proof fn lemma_line_text(
    n: nat,
    to: Seq<usize>,
    first: Seq<Seq<char>>,
    second: Seq<Seq<char>>,
    line: Seq<usize>,
)
    requires
        to.len() == n,
        second.len() == n,
        forall|i: int| 0 <= i < n ==> second[i] == first[(#[trigger] to[i]) as int],
        in_range(line, n),
    ensures
        line_text(second, line) == line_text(first, renamed(line, to)),
    decreases line.len(),
{
    if line.len() > 0 {
        let r = renamed(line, to);
        assert(line[line.len() - 1] < n);
        assert(r.last() == to[line.last() as int]);
        assert(r.drop_last() =~= renamed(line.drop_last(), to));
        lemma_line_text(n, to, first, second, line.drop_last());
    }
}

proof fn lemma_reading_lines(
    a: Seq<Frame>,
    b: Seq<Frame>,
    to: Seq<usize>,
    part: F64,
)
    requires
        matched(a, b, to),
        a.len() == b.len() <= usize::MAX,
        renamed(stable_order(center_keys(b)), to) == stable_order(center_keys(a)),
    ensures
        all_renamed(reading_lines(b, part), to) == reading_lines(a, part),
        all_in_range(reading_lines(b, part), b.len()),
{
    let order = stable_order(center_keys(b));
    lemma_stable_order(center_keys(b));
    lemma_clustered(a, b, to, order, part, b.len());
    let lines = all_clustered(b, part);
    assert(all_renamed(lines, to) == all_clustered(a, part));
    let keys = line_keys(b, lines);
    assert forall|i: int| 0 <= i < lines.len() implies keys[i] == line_keys(
        a,
        all_renamed(lines, to),
    )[i] by {
        lemma_measures(a, b, to, lines[i]);
    }
    assert(keys =~= line_keys(a, all_renamed(lines, to)));
    lemma_stable_order(keys);
    let down = stable_order(keys);
    let sorted = top_to_bottom(b, part);
    assert forall|i: int| 0 <= i < sorted.len() implies in_range(#[trigger] sorted[i], b.len())
        && sorted[i].len() <= usize::MAX by {
        assert(down[i] < lines.len());
        assert(in_range(lines[down[i] as int], b.len()));
    }
    assert(all_renamed(sorted, to) =~= top_to_bottom(a, part));
    assert forall|i: int| 0 <= i < sorted.len() implies renamed(
        #[trigger] reading_lines(b, part)[i],
        to,
    ) == reading_lines(a, part)[i] && in_range(reading_lines(b, part)[i], b.len()) by {
        lemma_left_to_right(a, b, to, sorted[i]);
    }
    assert(all_renamed(reading_lines(b, part), to) =~= reading_lines(a, part));
}

/// The joined text rests on the texts of the words, on where they stand and on how high they are:
/// not on how wide they are, on the numbers of their lines, paragraphs and blocks, or on the
/// order in which they are given, as long as those at one place keep their order. `to` tells
/// which of the words each of the others is.
pub proof fn law_joined_text_rests_on_texts_and_places(
    words: Seq<Word>,
    others: Seq<Word>,
    to: Seq<usize>,
)
    requires
        words.len() == others.len() <= usize::MAX,
        covers(to, words.len()),
        forall|i: int|
            0 <= i < others.len() ==> others[i].text == words[(#[trigger] to[i]) as int].text
                && stands_alike(others[i].frame, words[to[i] as int].frame),
        forall|i: int, j: int|
            0 <= i < j < others.len() && center(others[i].frame) == center(others[j].frame)
                && others[i].frame.x == others[j].frame.x ==> (#[trigger] to[i]) < (#[trigger] to[j]),
    ensures
        joined_text(others) == joined_text(words),
{
    let a = frames_of(words);
    let b = frames_of(others);
    let n = words.len();
    let part = F64 { bits: JOIN_PART };
    assert(matched(a, b, to));
    let keys = center_keys(b);
    let order = stable_order(keys);
    lemma_stable_order(keys);
    let back = renamed(order, to);
    assert(covers(back, n)) by {
        assert forall|i: int| 0 <= i < back.len() implies 0 <= #[trigger] back[i] < n by {
            assert(order[i] < n);
        }
        assert forall|i: int, j: int| 0 <= i < j < back.len() implies back[i] != back[j] by {
            assert(order[i] < n && order[j] < n && order[i] != order[j]);
            assert(to[order[i] as int] != to[order[j] as int]) by {
                if order[i] < order[j] {
                    assert(to[order[i] as int] != to[order[j] as int]);
                } else {
                    assert(to[order[j] as int] != to[order[i] as int]);
                }
            }
        }
        assert forall|p: usize| p < n implies #[trigger] back.contains(p) by {
            assert(to.contains(p));
            let i = choose|i: int| 0 <= i < to.len() && to[i] == p;
            assert(order.contains(i as usize));
            let k = choose|k: int| 0 <= k < order.len() && order[k] == i as usize;
            assert(back[k] == p);
        }
    }
    assert(in_order(center_keys(a), back)) by {
        assert forall|i: int, j: int| 0 <= i < j < back.len() implies {
            let p = center_keys(a)[#[trigger] back[i] as int];
            let q = center_keys(a)[#[trigger] back[j] as int];
            key_le(p, q) && (p == q ==> back[i] < back[j])
        } by {
            let k = order[i] as int;
            let l = order[j] as int;
            assert(order[i] < n && order[j] < n);
            assert(to[k] < n && to[l] < n);
            assert(keys[k] == center_keys(a)[to[k] as int]);
            assert(keys[l] == center_keys(a)[to[l] as int]);
            assert(key_le(keys[k], keys[l]) && (keys[k] == keys[l] ==> order[i] < order[j]));
            if keys[k] == keys[l] {
                lemma_order_tells(center(b[k]), center(b[l]));
                lemma_order_tells(b[k].x, b[l].x);
                assert(to[k] < to[l]);
            }
        }
    }
    law_stable_order_is_the_only_one(center_keys(a), back);
    lemma_reading_lines(a, b, to, part);
    let lines = reading_lines(b, part);
    lemma_lines_text(a, b, to, texts_of(words), texts_of(others), lines, lines.len());
}

/// Numbers that stand at one place in the order of all numbers are the same.
proof fn lemma_order_tells(a: F64, b: F64)
    requires
        a.order() as u64 == b.order() as u64,
    ensures
        a == b,
{
}

} // verus!
