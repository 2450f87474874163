//! From a map of text scores to boxes around the text.

use vstd::prelude::*;
use vstd::arithmetic::power2::{lemma2_to64, lemma_pow2_adds, lemma_pow2_pos};
use vstd::set_lib::set_int_range;
use crate::exact::{
    lemma_bits_single, lemma_compare_single, lemma_in_proportion, lemma_one_is_large, lemma_round,
    one, one_single,
};
use crate::float::{F32, F64};
use crate::sorting::{Key, sort_positions};
use crate::sorting::{covers, key_le, lemma_stable_order, stable_order};

verus! {

/// A rectangle of pixels: left, top, width, height.
pub type PixelBox = (u32, u32, u32, u32);

/// Two cells of a grid `width` cells wide that share a side.
pub open spec fn adjacent(width: int, a: int, b: int) -> bool {
    ||| b == a - 1 && a % width != 0
    ||| b == a + 1 && b % width != 0
    ||| b == a - width
    ||| b == a + width
}

/// A way through the grid that begins at a cell and then steps on open cells only.
pub open spec fn is_way(width: int, open: Set<int>, way: Seq<int>) -> bool {
    &&& way.len() > 0
    &&& forall|i: int|
        0 < i < way.len() ==> open.contains(#[trigger] way[i]) && adjacent(
            width,
            way[i - 1],
            way[i],
        )
}

/// There is a way from one cell to another.
pub open spec fn leads(width: int, open: Set<int>, seed: int, cell: int) -> bool {
    exists|way: Seq<int>| #[trigger]
        is_way(width, open, way) && way[0] == seed && way.last() == cell
}

/// The cells that can be reached from `seed` over open cells.
pub open spec fn region(width: int, open: Set<int>, seed: int) -> Set<int> {
    Set::new(|c: int| leads(width, open, seed, c))
}

/// The smallest rectangle around some cells, and how many of them there are.
#[derive(Clone, Copy, Debug, PartialEq, Eq, Structural)]
pub struct Extent {
    pub min_x: usize,
    pub max_x: usize,
    pub min_y: usize,
    pub max_y: usize,
    pub count: usize,
}

/// `e` is the extent of the cells.
pub open spec fn bounds(width: int, cells: Set<int>, e: Extent) -> bool {
    &&& cells.finite()
    &&& cells.len() == e.count
    &&& forall|c: int| #[trigger]
        cells.contains(c) ==> e.min_x <= c % width <= e.max_x && e.min_y <= c / width <= e.max_y
    &&& exists|c: int| #[trigger] cells.contains(c) && c % width == e.min_x
    &&& exists|c: int| #[trigger] cells.contains(c) && c % width == e.max_x
    &&& exists|c: int| #[trigger] cells.contains(c) && c / width == e.min_y
    &&& exists|c: int| #[trigger] cells.contains(c) && c / width == e.max_y
}

/// The extent of some cells.
pub open spec fn extent(width: int, cells: Set<int>) -> Extent {
    choose|e: Extent| bounds(width, cells, e)
}

/// Cells have one extent.
proof fn lemma_extent(width: int, cells: Set<int>, e: Extent)
    requires
        bounds(width, cells, e),
    ensures
        extent(width, cells) == e,
{
    let o = extent(width, cells);
    assert(bounds(width, cells, o));
    let a = choose|c: int| #[trigger] cells.contains(c) && c % width == e.min_x;
    let b = choose|c: int| #[trigger] cells.contains(c) && c % width == o.min_x;
    assert(e.min_x == o.min_x);
    let a = choose|c: int| #[trigger] cells.contains(c) && c % width == e.max_x;
    let b = choose|c: int| #[trigger] cells.contains(c) && c % width == o.max_x;
    assert(e.max_x == o.max_x);
    let a = choose|c: int| #[trigger] cells.contains(c) && c / width == e.min_y;
    let b = choose|c: int| #[trigger] cells.contains(c) && c / width == o.min_y;
    assert(e.min_y == o.min_y);
    let a = choose|c: int| #[trigger] cells.contains(c) && c / width == e.max_y;
    let b = choose|c: int| #[trigger] cells.contains(c) && c / width == o.max_y;
    assert(e.max_y == o.max_y);
}

/// The cells that are marked.
pub open spec fn marked(marks: Seq<bool>) -> Set<int> {
    Set::new(|c: int| 0 <= c < marks.len() && marks[c])
}

/// The cells that text spreads to and that no earlier region took.
pub open spec fn free(text: Seq<bool>, taken: Set<int>) -> Set<int> {
    marked(text).difference(taken)
}

/// A way is followed by no cell that a closed set of cells lacks.
proof fn lemma_way_stays(width: int, open: Set<int>, way: Seq<int>, cells: Set<int>, n: int)
    requires
        is_way(width, open, way),
        cells.contains(way[0]),
        forall|a: int, b: int| #[trigger]
            cells.contains(a) && #[trigger] open.contains(b) && adjacent(width, a, b)
                ==> cells.contains(b),
        0 <= n < way.len(),
    ensures
        cells.contains(way[n]),
    decreases n,
{
    if n > 0 {
        lemma_way_stays(width, open, way, cells, n - 1);
        assert(open.contains(way[n]));
    }
}

/// The cells of a list.
pub open spec fn listed(queue: Seq<usize>) -> Set<int> {
    Set::new(|c: int| exists|i: int| 0 <= i < queue.len() && #[trigger] queue[i] == c)
}

/// What a flood has done so far: the queue holds cells that can be reached, each
/// once, and what is next to the first `head` of them is in the queue too.
spec fn flooding(
    width: int,
    text: Seq<bool>,
    taken: Seq<bool>,
    visited: Seq<bool>,
    seed: int,
    queue: Seq<usize>,
    head: int,
) -> bool {
    &&& width > 0
    &&& taken.len() == text.len() == visited.len()
    &&& queue.len() > 0
    &&& queue[0] == seed
    &&& 0 <= head <= queue.len()
    &&& forall|i: int| 0 <= i < queue.len() ==> #[trigger] queue[i] < text.len()
    &&& forall|i: int, j: int| 0 <= i < j < queue.len() ==> queue[i] != queue[j]
    &&& forall|i: int|
        0 <= i < queue.len() ==> leads(
            width,
            free(text, marked(taken)),
            seed,
            #[trigger] queue[i] as int,
        )
    &&& marked(visited) == marked(taken).union(listed(queue))
    &&& forall|i: int, b: int|
        0 <= i < head && #[trigger] free(text, marked(taken)).contains(b) && adjacent(
            width,
            #[trigger] queue[i] as int,
            b,
        ) ==> listed(queue).contains(b)
}

proof fn lemma_way_grows(width: int, open: Set<int>, seed: int, a: int, b: int)
    requires
        leads(width, open, seed, a),
        open.contains(b),
        adjacent(width, a, b),
    ensures
        leads(width, open, seed, b),
{
    let way = choose|way: Seq<int>| #[trigger]
        is_way(width, open, way) && way[0] == seed && way.last() == a;
    let longer = way.push(b);
    assert forall|i: int| 0 < i < longer.len() implies open.contains(#[trigger] longer[i])
        && adjacent(width, longer[i - 1], longer[i]) by {
        if i < way.len() {
            assert(longer[i] == way[i]);
            assert(longer[i - 1] == way[i - 1]);
        } else {
            assert(longer[i - 1] == way.last());
        }
    }
    assert(is_way(width, open, longer));
}

/// Takes a neighbour of the cell at the head of the queue into the flood, where text
/// spreads to it.
fn spread_to(
    text: &Vec<bool>,
    visited: &mut Vec<bool>,
    queue: &mut Vec<usize>,
    cell: usize,
    Ghost(width): Ghost<int>,
    Ghost(taken): Ghost<Seq<bool>>,
    Ghost(seed): Ghost<int>,
    Ghost(head): Ghost<int>,
)
    requires
        flooding(width, text@, taken, old(visited)@, seed, old(queue)@, head),
        head < old(queue)@.len(),
        cell < text@.len(),
        adjacent(width, old(queue)@[head] as int, cell as int),
    ensures
        flooding(width, text@, taken, final(visited)@, seed, final(queue)@, head),
        old(queue)@.len() <= final(queue)@.len(),
        forall|i: int| 0 <= i < old(queue)@.len() ==> final(queue)@[i] == old(queue)@[i],
        free(text@, marked(taken)).contains(cell as int) ==> listed(final(queue)@).contains(
            cell as int,
        ),
        forall|c: int| #[trigger]
            listed(old(queue)@).contains(c) ==> listed(final(queue)@).contains(c),
{
    let ghost before = queue@;
    let ghost marks = visited@;
    if !visited[cell] && text[cell] {
        proof {
            assert(!marked(marks).contains(cell as int));
            assert(free(text@, marked(taken)).contains(cell as int));
            lemma_way_grows(
                width,
                free(text@, marked(taken)),
                seed,
                before[head] as int,
                cell as int,
            );
        }
        visited.set(cell, true);
        queue.push(cell);
        proof {
            assert forall|c: int| #[trigger] listed(before).contains(c) implies listed(
                queue@,
            ).contains(c) by {
                let i = choose|i: int| 0 <= i < before.len() && #[trigger] before[i] == c;
                assert(queue@[i] == c);
            }
            assert(queue@[before.len() as int] == cell);
            assert(listed(queue@) =~= listed(before).insert(cell as int)) by {
                assert forall|c: int| listed(queue@).contains(c) implies listed(before).insert(
                    cell as int,
                ).contains(c) by {
                    let i = choose|i: int| 0 <= i < queue@.len() && #[trigger] queue@[i] == c;
                    if i < before.len() {
                        assert(before[i] == c);
                    }
                }
            }
            assert(marked(visited@) =~= marked(marks).insert(cell as int));
            assert(marked(visited@) =~= marked(taken).union(listed(queue@)));
            assert forall|i: int, j: int| 0 <= i < j < queue@.len() implies queue@[i]
                != queue@[j] by {
                if j == before.len() {
                    assert(before[i] == queue@[i]);
                    assert(listed(before).contains(before[i] as int));
                }
            }
        }
    } else {
        proof {
            if free(text@, marked(taken)).contains(cell as int) {
                assert(marked(marks).contains(cell as int));
                assert(listed(before).contains(cell as int));
            }
        }
    }
}

/// Takes what is next to the cell at the head of the queue into the flood.
fn spread_around(
    text: &Vec<bool>,
    visited: &mut Vec<bool>,
    queue: &mut Vec<usize>,
    head: usize,
    width: usize,
    Ghost(taken): Ghost<Seq<bool>>,
    Ghost(seed): Ghost<int>,
)
    requires
        text@.len() % width as nat == 0,
        flooding(width as int, text@, taken, old(visited)@, seed, old(queue)@, head as int),
        head < old(queue)@.len(),
    ensures
        flooding(width as int, text@, taken, final(visited)@, seed, final(queue)@, head + 1),
        old(queue)@.len() <= final(queue)@.len(),
        forall|i: int| 0 <= i < old(queue)@.len() ==> final(queue)@[i] == old(queue)@[i],
        forall|c: int| #[trigger]
            listed(old(queue)@).contains(c) ==> listed(final(queue)@).contains(c),
{
    let cell: usize = queue[head];
    let n: usize = text.len();
    let ghost w = width as int;
    let ghost h = head as int;
    let ghost open = free(text@, marked(taken));
    proof {
        lemma_row(cell as int, w, n as int);
    }
    let x: usize = cell % width;
    if x > 0 {
        spread_to(
            text,
            visited,
            queue,
            cell - 1,
            Ghost(w),
            Ghost(taken),
            Ghost(seed),
            Ghost(h),
        );
    }
    if x + 1 < width {
        spread_to(
            text,
            visited,
            queue,
            cell + 1,
            Ghost(w),
            Ghost(taken),
            Ghost(seed),
            Ghost(h),
        );
    }
    if cell >= width {
        spread_to(
            text,
            visited,
            queue,
            cell - width,
            Ghost(w),
            Ghost(taken),
            Ghost(seed),
            Ghost(h),
        );
    }
    if cell < n - width {
        spread_to(
            text,
            visited,
            queue,
            cell + width,
            Ghost(w),
            Ghost(taken),
            Ghost(seed),
            Ghost(h),
        );
    }
    proof {
        assert forall|i: int, b: int|
            0 <= i < h + 1 && #[trigger] open.contains(b) && adjacent(
                w,
                #[trigger] queue@[i] as int,
                b,
            ) implies listed(queue@).contains(b) by {
            if i == h {
                assert(queue@[i] == cell);
                assert(0 <= b < n);
            }
        }
    }
}

/// Floods the text around `seed` and measures it.
fn flood(text: &Vec<bool>, visited: &mut Vec<bool>, seed: usize, width: usize) -> (e: Extent)
    requires
        width > 0,
        text@.len() == old(visited)@.len(),
        text@.len() % width as nat == 0,
        seed < text@.len(),
        !old(visited)@[seed as int],
    ensures
        final(visited)@.len() == text@.len(),
        ({
            let r = region(width as int, free(text@, marked(old(visited)@)), seed as int);
            &&& marked(final(visited)@) == marked(old(visited)@).union(r)
            &&& bounds(width as int, r, e)
        }),
{
    let ghost taken = visited@;
    let ghost w = width as int;
    let ghost open = free(text@, marked(taken));
    let n: usize = text.len();
    let mut queue: Vec<usize> = Vec::new();
    queue.push(seed);
    visited.set(seed, true);
    let mut min_x: usize = seed % width;
    let mut max_x: usize = min_x;
    let mut min_y: usize = seed / width;
    let mut max_y: usize = min_y;
    let mut head: usize = 0;
    proof {
        assert(is_way(w, open, seq![seed as int]));
        assert(leads(w, open, seed as int, seed as int)) by {
            let way = seq![seed as int];
            assert(is_way(w, open, way) && way[0] == seed && way.last() == seed);
        }
        assert(queue@[0] == seed);
        assert(listed(queue@) =~= set![seed as int]);
        assert(marked(visited@) =~= marked(taken).union(listed(queue@)));
        assert(listed(queue@).contains(seed as int));
    }
    while head < queue.len()
        invariant
            w == width,
            width > 0,
            n == text@.len(),
            n % width == 0,
            seed < n,
            open == free(text@, marked(taken)),
            flooding(w, text@, taken, visited@, seed as int, queue@, head as int),
            min_x <= max_x,
            min_y <= max_y,
            forall|i: int|
                0 <= i < head ==> min_x <= (#[trigger] queue@[i]) as int % w <= max_x && min_y
                    <= queue@[i] as int / w <= max_y,
            exists|c: int| #[trigger] listed(queue@).contains(c) && c % w == min_x,
            exists|c: int| #[trigger] listed(queue@).contains(c) && c % w == max_x,
            exists|c: int| #[trigger] listed(queue@).contains(c) && c / w == min_y,
            exists|c: int| #[trigger] listed(queue@).contains(c) && c / w == max_y,
        decreases n - head,
    {
        proof {
            lemma_distinct_below(queue@, n as nat);
        }
        let cell: usize = queue[head];
        let x: usize = cell % width;
        let y: usize = cell / width;
        proof {
            assert(listed(queue@).contains(cell as int));
        }
        if x < min_x {
            min_x = x;
        }
        if x > max_x {
            max_x = x;
        }
        if y < min_y {
            min_y = y;
        }
        if y > max_y {
            max_y = y;
        }
        spread_around(
            text,
            visited,
            &mut queue,
            head,
            width,
            Ghost(taken),
            Ghost(seed as int),
        );
        head = head + 1;
    }
    let e: Extent = Extent { min_x, max_x, min_y, max_y, count: queue.len() };
    proof {
        let r = region(w, open, seed as int);
        assert forall|c: int| #[trigger] r.contains(c) implies listed(queue@).contains(c) by {
            let way = choose|way: Seq<int>| #[trigger]
                is_way(w, open, way) && way[0] == seed && way.last() == c;
            assert(listed(queue@).contains(queue@[0] as int));
            assert forall|a: int, b: int| #[trigger]
                listed(queue@).contains(a) && #[trigger] open.contains(b) && adjacent(
                    w,
                    a,
                    b,
                ) implies listed(queue@).contains(b) by {
                let i = choose|i: int| 0 <= i < queue@.len() && #[trigger] queue@[i] == a;
                assert(queue@[i] == a);
            }
            lemma_way_stays(w, open, way, listed(queue@), way.len() - 1);
        }
        assert forall|c: int| #[trigger] listed(queue@).contains(c) implies r.contains(c) by {
            let i = choose|i: int| 0 <= i < queue@.len() && #[trigger] queue@[i] == c;
            assert(leads(w, open, seed as int, queue@[i] as int));
        }
        assert(r =~= listed(queue@));
        lemma_listed_len(queue@);
        assert forall|c: int| #[trigger] r.contains(c) implies e.min_x <= c % w <= e.max_x
            && e.min_y <= c / w <= e.max_y by {
            assert(listed(queue@).contains(c));
            let i = choose|i: int| 0 <= i < queue@.len() && #[trigger] queue@[i] == c;
            assert(queue@[i] == c);
        }
    }
    e
}

/// A cell's row and column, and where its row lies in the grid.
proof fn lemma_row(cell: int, w: int, n: int)
    requires
        0 <= cell < n,
        w > 0,
        n % w == 0,
    ensures
        cell % w > 0 ==> adjacent(w, cell, cell - 1),
        cell % w + 1 < w ==> cell + 1 < n && adjacent(w, cell, cell + 1),
        cell % w + 1 == w ==> (cell + 1) % w == 0,
        cell % w > 0 ==> cell > 0,
        n >= w,
{
    let q = cell / w;
    let r = cell % w;
    let m = n / w;
    vstd::arithmetic::div_mod::lemma_fundamental_div_mod(cell, w);
    vstd::arithmetic::div_mod::lemma_fundamental_div_mod(n, w);
    assert(q < m) by (nonlinear_arith)
        requires
            w * q + r < w * m,
            r >= 0,
            w > 0,
    ;
    assert(w * (q + 1) <= w * m) by (nonlinear_arith)
        requires
            q + 1 <= m,
            w > 0,
    ;
    assert(w * (q + 1) == w * q + w) by (nonlinear_arith);
    assert(q * w == w * q) by (nonlinear_arith);
    if r + 1 < w {
        vstd::arithmetic::div_mod::lemma_fundamental_div_mod_converse(cell + 1, w, q, r + 1);
    } else {
        assert((q + 1) * w == w * (q + 1)) by (nonlinear_arith);
        vstd::arithmetic::div_mod::lemma_fundamental_div_mod_converse(cell + 1, w, q + 1, 0);
    }
    if cell == 0 {
        assert(cell % w == 0) by (nonlinear_arith)
            requires
                cell == 0,
                w > 0,
        ;
    }
    assert(m >= 1);
    assert(w * m >= w) by (nonlinear_arith)
        requires
            w > 0,
            m >= 1,
    ;
}

/// A list holds as many cells as it is long, where none occurs twice.
proof fn lemma_listed_len(queue: Seq<usize>)
    requires
        forall|i: int, j: int| 0 <= i < j < queue.len() ==> queue[i] != queue[j],
    ensures
        listed(queue).finite(),
        listed(queue).len() == queue.len(),
    decreases queue.len(),
{
    if queue.len() == 0 {
        assert(listed(queue) =~= Set::empty());
    } else {
        let rest = queue.drop_last();
        lemma_listed_len(rest);
        assert(listed(queue) =~= listed(rest).insert(queue.last() as int)) by {
            assert forall|c: int| listed(rest).insert(queue.last() as int).contains(c) implies listed(
                queue,
            ).contains(c) by {
                if c == queue.last() {
                    assert(queue[queue.len() - 1] == c);
                } else {
                    let i = choose|i: int| 0 <= i < rest.len() && #[trigger] rest[i] == c;
                    assert(queue[i] == c);
                }
            }
            assert forall|c: int| listed(queue).contains(c) implies listed(rest).insert(
                queue.last() as int,
            ).contains(c) by {
                let i = choose|i: int| 0 <= i < queue.len() && #[trigger] queue[i] == c;
                if i < rest.len() {
                    assert(rest[i] == c);
                }
            }
        }
        if listed(rest).contains(queue.last() as int) {
            let i = choose|i: int|
                0 <= i < rest.len() && #[trigger] rest[i] == queue.last() as int;
            assert(queue[i] == queue[queue.len() - 1]);
        }
    }
}

/// Different numbers below a bound are no more than the bound.
proof fn lemma_distinct_below(queue: Seq<usize>, n: nat)
    requires
        forall|i: int, j: int| 0 <= i < j < queue.len() ==> queue[i] != queue[j],
        forall|i: int| 0 <= i < queue.len() ==> #[trigger] queue[i] < n,
    ensures
        queue.len() <= n,
{
    lemma_listed_len(queue);
    vstd::set_lib::lemma_int_range(0, n as int);
    assert(listed(queue).subset_of(set_int_range(0, n as int)));
    vstd::set_lib::lemma_len_subset(listed(queue), set_int_range(0, n as int));
}

/// The regions found by going over the first `n` cells: what they cover, and the
/// extent of each in the order of the cells they were found at. A region is found at
/// a cell that begins one and that no earlier region covers.
pub open spec fn regions(width: int, begins: Seq<bool>, text: Seq<bool>, n: nat) -> (
    Set<int>,
    Seq<Extent>,
)
    decreases n,
{
    if n == 0 {
        (Set::empty(), Seq::empty())
    } else {
        let cell = n - 1;
        let (taken, found) = regions(width, begins, text, (n - 1) as nat);
        if taken.contains(cell) || !begins[cell] {
            (taken, found)
        } else {
            let r = region(width, free(text, taken), cell);
            (taken.union(r), found.push(extent(width, r)))
        }
    }
}

/// Finds the regions of text in a grid.
pub fn find_regions(begins: &Vec<bool>, text: &Vec<bool>, width: usize) -> (found: Vec<Extent>)
    requires
        width > 0,
        begins@.len() == text@.len(),
        text@.len() % width as nat == 0,
    ensures
        found@ == regions(width as int, begins@, text@, text@.len()).1,
        forall|i: int|
            0 <= i < found@.len() ==> (#[trigger] found@[i]).min_x <= found@[i].max_x < width
                && found@[i].min_y <= found@[i].max_y < text@.len() / width as nat,
{
    let n: usize = text.len();
    let mut visited: Vec<bool> = Vec::new();
    let mut k: usize = 0;
    while k < n
        invariant
            k <= n,
            visited@.len() == k,
            forall|i: int| 0 <= i < k ==> !#[trigger] visited@[i],
        decreases n - k,
    {
        visited.push(false);
        k = k + 1;
    }
    let mut found: Vec<Extent> = Vec::new();
    let mut cell: usize = 0;
    proof {
        assert(marked(visited@) =~= Set::<int>::empty());
    }
    while cell < n
        invariant
            cell <= n == text@.len() == begins@.len() == visited@.len(),
            width > 0,
            n % width == 0,
            found@ == regions(width as int, begins@, text@, cell as nat).1,
            marked(visited@) == regions(width as int, begins@, text@, cell as nat).0,
            forall|i: int|
                0 <= i < found@.len() ==> (#[trigger] found@[i]).min_x <= found@[i].max_x < width
                    && found@[i].min_y <= found@[i].max_y < n as nat / width as nat,
        decreases n - cell,
    {
        proof {
            assert(marked(visited@).contains(cell as int) <==> visited@[cell as int]);
        }
        if !visited[cell] && begins[cell] {
            let ghost taken = marked(visited@);
            let ghost r = region(width as int, free(text@, taken), cell as int);
            let e: Extent = flood(text, &mut visited, cell, width);
            proof {
                lemma_extent(width as int, r, e);
                lemma_extent_inside(width as int, r, e, n as int, marked(visited@));
            }
            found.push(e);
        }
        cell = cell + 1;
    }
    found
}

/// The extent of cells of a grid lies in the grid.
proof fn lemma_extent_inside(width: int, r: Set<int>, e: Extent, n: int, all: Set<int>)
    requires
        width > 0,
        n % width == 0,
        bounds(width, r, e),
        r.subset_of(all),
        forall|c: int| #[trigger] all.contains(c) ==> 0 <= c < n,
    ensures
        e.min_x <= e.max_x < width,
        e.min_y <= e.max_y < n / width,
{
    let a = choose|c: int| #[trigger] r.contains(c) && c % width == e.max_x;
    assert(all.contains(a));
    let b = choose|c: int| #[trigger] r.contains(c) && c / width == e.max_y;
    assert(all.contains(b));
    vstd::arithmetic::div_mod::lemma_fundamental_div_mod(b, width);
    vstd::arithmetic::div_mod::lemma_fundamental_div_mod(n, width);
    let q = b / width;
    let m = n / width;
    let t = b % width;
    assert(q < m) by (nonlinear_arith)
        requires
            width * q + t < width * m,
            t >= 0,
            width > 0,
    ;
}

/// The side length that a picture is brought to before detection, as bits of a
/// 32-bit number: 960.
pub const LONGEST_SIDE: u32 = 0x4470_0000;

/// The score from which on a pixel counts as text, as bits of a 32-bit number: 0.3.
pub const TEXT_SCORE: u32 = 0x3e99_999a;

/// One, as bits of a 32-bit number.
pub const ONE_SINGLE: u32 = 0x3f80_0000;

/// Pictures with a shorter side than this are taken as one box.
pub const SMALLEST_SIDE: u32 = 16;

/// How much a picture is scaled by before detection.
pub open spec fn detection_scale(width: u32, height: u32) -> F32 {
    let longest = if width > height {
        width
    } else {
        height
    };
    (F32 { bits: LONGEST_SIDE }).spec_over(F32::of_nat(longest as nat)).spec_min(
        F32 { bits: ONE_SINGLE },
    )
}

/// A side of the picture after scaling, cut to a multiple of 32, and 32 at least.
pub open spec fn scaled_side(side: u32, scale: F32) -> u32 {
    let cut = F32::of_nat(side as nat).spec_times(scale).spec_round_u32() / 32 * 32;
    if cut > 32 {
        cut as u32
    } else {
        32
    }
}

/// The size that a picture is brought to before detection.
pub open spec fn detection_size_of(width: u32, height: u32) -> (u32, u32) {
    let scale = detection_scale(width, height);
    (scaled_side(width, scale), scaled_side(height, scale))
}

fn scale_side(side: u32, scale: F32) -> (r: u32)
    ensures
        r == scaled_side(side, scale),
{
    let cut: u32 = F32::of_count(side as u64).times(scale).round_u32() / 32 * 32;
    if cut > 32 {
        cut
    } else {
        32
    }
}

/// The size that a picture is brought to before detection.
pub fn detection_size(width: u32, height: u32) -> (size: (u32, u32))
    ensures
        size == detection_size_of(width, height),
{
    let longest: u32 = if width > height {
        width
    } else {
        height
    };
    let one: F32 = F32 { bits: ONE_SINGLE };
    let scale: F32 = F32 { bits: LONGEST_SIDE }.over(F32::of_count(longest as u64)).min(one);
    (scale_side(width, scale), scale_side(height, scale))
}

/// The pixels at which a region can begin: those whose score is not below the
/// threshold.
pub open spec fn beginnings(scores: Seq<F32>) -> Seq<bool> {
    Seq::new(scores.len(), |i: int| !scores[i].spec_less(F32 { bits: TEXT_SCORE }))
}

/// The pixels that a region spreads to: those whose score reaches the threshold. A
/// score that is not a number begins a region and is spread to by none.
pub open spec fn text_pixels(scores: Seq<F32>) -> Seq<bool> {
    Seq::new(scores.len(), |i: int| (F32 { bits: TEXT_SCORE }).spec_at_most(scores[i]))
}

/// A length along one side of the scaled picture, in pixels of the picture itself.
pub open spec fn restored(length: nat, scaled: u32, side: u32) -> u32 {
    F64::of_nat(length).spec_times(
        F64::of_nat(side as nat).spec_over(F64::of_nat(scaled as nat)),
    ).spec_round_u32()
}

/// Where a box with a margin of two pixels begins.
pub open spec fn margin_start(least: nat) -> nat {
    if least >= 2 {
        (least - 2) as nat
    } else {
        0
    }
}

/// How far a box with a margin of two pixels goes, short of the end of the picture.
pub open spec fn margin_length(least: nat, greatest: nat, scaled: u32) -> nat {
    let wanted = greatest - least + 5;
    let room = scaled - margin_start(least);
    if wanted < room {
        wanted as nat
    } else {
        room as nat
    }
}

/// The box around a region of text, in pixels of the picture. A region that is too
/// small has none.
pub open spec fn text_box(e: Extent, scaled: (u32, u32), size: (u32, u32)) -> Option<PixelBox> {
    if e.count >= 16 && e.max_x - e.min_x >= 6 && e.max_y - e.min_y >= 6 {
        Some(
            (
                restored(margin_start(e.min_x as nat), scaled.0, size.0),
                restored(margin_start(e.min_y as nat), scaled.1, size.1),
                restored(margin_length(e.min_x as nat, e.max_x as nat, scaled.0), scaled.0, size.0),
                restored(margin_length(e.min_y as nat, e.max_y as nat, scaled.1), scaled.1, size.1),
            ),
        )
    } else {
        None
    }
}

/// The boxes around the regions that have one.
pub open spec fn text_boxes(found: Seq<Extent>, scaled: (u32, u32), size: (u32, u32)) -> Seq<
    PixelBox,
>
    decreases found.len(),
{
    if found.len() == 0 {
        Seq::empty()
    } else {
        let before = text_boxes(found.drop_last(), scaled, size);
        match text_box(found.last(), scaled, size) {
            Some(b) => before.push(b),
            None => before,
        }
    }
}

/// What a box is ordered by: the band of sixteen pixels that its top lies in, then
/// its left side.
pub open spec fn band_key(b: PixelBox) -> Key {
    ((b.1 / 16) as u64, b.0 as u64, 0)
}

/// The items of a sequence in a given order.
pub open spec fn arranged<T>(items: Seq<T>, order: Seq<usize>) -> Seq<T> {
    Seq::new(order.len(), |i: int| items[order[i] as int])
}

/// Boxes by band and left side.
pub open spec fn by_band(boxes: Seq<PixelBox>) -> Seq<PixelBox> {
    arranged(boxes, stable_order(Seq::new(boxes.len(), |i: int| band_key(boxes[i]))))
}

/// The boxes of text in a picture of the given size, from the scores that detection
/// gave the pixels of the scaled picture.
pub open spec fn detected_boxes(width: u32, height: u32, scores: Seq<F32>) -> Seq<PixelBox> {
    if width < SMALLEST_SIDE || height < SMALLEST_SIDE {
        seq![(0, 0, width, height)]
    } else {
        let scaled = detection_size_of(width, height);
        let given = scores.take(scaled.0 * scaled.1);
        let found = regions(
            scaled.0 as int,
            beginnings(given),
            text_pixels(given),
            given.len(),
        ).1;
        by_band(text_boxes(found, scaled, (width, height)))
    }
}

fn restore(length: usize, scaled: u32, side: u32) -> (r: u32)
    ensures
        r == restored(length as nat, scaled, side),
{
    let scale: F64 = F64::of_count(side as u64).over(F64::of_count(scaled as u64));
    F64::of_count(length as u64).times(scale).round_u32()
}

fn margin(least: usize, greatest: usize, scaled: u32) -> (r: (usize, usize))
    requires
        least <= greatest < scaled,
    ensures
        r.0 == margin_start(least as nat),
        r.1 == margin_length(least as nat, greatest as nat, scaled),
{
    let start: usize = if least >= 2 {
        least - 2
    } else {
        0
    };
    let room: usize = scaled as usize - start;
    if room >= 5 && greatest - least < room - 5 {
        (start, greatest - least + 5)
    } else {
        (start, room)
    }
}

fn make_box(e: Extent, scaled: (u32, u32), size: (u32, u32)) -> (b: Option<PixelBox>)
    requires
        e.min_x <= e.max_x < scaled.0,
        e.min_y <= e.max_y < scaled.1,
    ensures
        b == text_box(e, scaled, size),
{
    if e.count >= 16 && e.max_x - e.min_x >= 6 && e.max_y - e.min_y >= 6 {
        let h: (usize, usize) = margin(e.min_x, e.max_x, scaled.0);
        let v: (usize, usize) = margin(e.min_y, e.max_y, scaled.1);
        Some(
            (
                restore(h.0, scaled.0, size.0),
                restore(v.0, scaled.1, size.1),
                restore(h.1, scaled.0, size.0),
                restore(v.1, scaled.1, size.1),
            ),
        )
    } else {
        None
    }
}

/// Puts items in a given order.
pub fn arrange<T: Copy>(items: &Vec<T>, order: &Vec<usize>) -> (r: Vec<T>)
    requires
        forall|i: int| 0 <= i < order@.len() ==> #[trigger] order@[i] < items@.len(),
    ensures
        r@ == arranged(items@, order@),
{
    let mut r: Vec<T> = Vec::new();
    let mut i: usize = 0;
    while i < order.len()
        invariant
            i <= order@.len(),
            forall|k: int| 0 <= k < order@.len() ==> #[trigger] order@[k] < items@.len(),
            r@ == arranged(items@, order@).take(i as int),
        decreases order@.len() - i,
    {
        r.push(items[order[i]]);
        i = i + 1;
        proof {
            assert(r@ =~= arranged(items@, order@).take(i as int));
        }
    }
    proof {
        assert(r@ =~= arranged(items@, order@));
    }
    r
}

/// The boxes of text in a picture `width` by `height` pixels large, from the scores
/// that detection gave the pixels of the scaled picture, row by row. Scores beyond them
/// are not looked at.
pub fn boxes_from_scores(width: u32, height: u32, scores: &Vec<F32>) -> (boxes: Vec<PixelBox>)
    requires
        width >= SMALLEST_SIDE && height >= SMALLEST_SIDE ==> scores@.len() >= detection_size_of(
            width,
            height,
        ).0 * detection_size_of(width, height).1,
    ensures
        boxes@ == detected_boxes(width, height, scores@),
{
    if width < SMALLEST_SIDE || height < SMALLEST_SIDE {
        let whole: PixelBox = (0, 0, width, height);
        return vec![whole];
    }
    let scaled: (u32, u32) = detection_size(width, height);
    let threshold: F32 = F32 { bits: TEXT_SCORE };
    let have: usize = scores.len();
    proof {
        assert(scaled.0 * scaled.1 <= have);
    }
    let n: usize = scaled.0 as usize * scaled.1 as usize;
    let ghost given = scores@.take(n as int);
    let mut begins: Vec<bool> = Vec::new();
    let mut text: Vec<bool> = Vec::new();
    let mut i: usize = 0;
    while i < n
        invariant
            i <= n <= scores@.len(),
            given == scores@.take(n as int),
            threshold == (F32 { bits: TEXT_SCORE }),
            begins@ == beginnings(given).take(i as int),
            text@ == text_pixels(given).take(i as int),
        decreases n - i,
    {
        begins.push(!scores[i].less(threshold));
        text.push(threshold.at_most(scores[i]));
        i = i + 1;
        proof {
            assert(begins@ =~= beginnings(given).take(i as int));
            assert(text@ =~= text_pixels(given).take(i as int));
        }
    }
    proof {
        assert(begins@ =~= beginnings(given));
        assert(text@ =~= text_pixels(given));
        let w = scaled.0 as int;
        let h = scaled.1 as int;
        assert(h * w == w * h) by (nonlinear_arith);
        vstd::arithmetic::div_mod::lemma_fundamental_div_mod_converse(n as int, w, h, 0);
    }
    let found: Vec<Extent> = find_regions(&begins, &text, scaled.0 as usize);
    let mut boxes: Vec<PixelBox> = Vec::new();
    let mut keys: Vec<Key> = Vec::new();
    let mut j: usize = 0;
    proof {
        assert(found@.take(0) =~= Seq::<Extent>::empty());
    }
    while j < found.len()
        invariant
            j <= found@.len(),
            forall|i: int|
                0 <= i < found@.len() ==> (#[trigger] found@[i]).min_x <= found@[i].max_x < scaled.0
                    && found@[i].min_y <= found@[i].max_y < scaled.1,
            boxes@ == text_boxes(found@.take(j as int), scaled, (width, height)),
            keys@.len() == boxes@.len(),
            forall|i: int| 0 <= i < keys@.len() ==> #[trigger] keys@[i] == band_key(boxes@[i]),
        decreases found@.len() - j,
    {
        proof {
            assert(found@.take(j + 1).drop_last() =~= found@.take(j as int));
            assert(found@.take(j + 1).last() == found@[j as int]);
        }
        if let Some(b) = make_box(found[j], scaled, (width, height)) {
            boxes.push(b);
            keys.push(((b.1 / 16) as u64, b.0 as u64, 0));
        }
        j = j + 1;
    }
    proof {
        assert(found@.take(found@.len() as int) =~= found@);
        assert(keys@ =~= Seq::new(boxes@.len(), |i: int| band_key(boxes@[i])));
    }
    let order: Vec<usize> = sort_positions(&keys);
    arrange(&boxes, &order)
}

proof fn lemma_adjacent_symmetric(width: int, a: int, b: int)
    requires
        adjacent(width, a, b),
    ensures
        adjacent(width, b, a),
{
}

/// Ways can be joined.
proof fn lemma_leads_on(width: int, open: Set<int>, a: int, b: int, c: int)
    requires
        leads(width, open, a, b),
        leads(width, open, b, c),
    ensures
        leads(width, open, a, c),
{
    let p = choose|way: Seq<int>| #[trigger]
        is_way(width, open, way) && way[0] == a && way.last() == b;
    let q = choose|way: Seq<int>| #[trigger]
        is_way(width, open, way) && way[0] == b && way.last() == c;
    let joined = p + q.drop_first();
    assert forall|i: int| 0 < i < joined.len() implies open.contains(#[trigger] joined[i])
        && adjacent(width, joined[i - 1], joined[i]) by {
        if i < p.len() {
            assert(joined[i] == p[i] && joined[i - 1] == p[i - 1]);
        } else {
            let j = i - p.len() + 1;
            assert(joined[i] == q[j]);
            assert(joined[i - 1] == q[j - 1]);
        }
    }
    assert(is_way(width, open, joined));
    assert(joined.last() == c);
}

/// A way between open cells leads back.
proof fn lemma_leads_back(width: int, open: Set<int>, a: int, b: int)
    requires
        leads(width, open, a, b),
        open.contains(a),
    ensures
        leads(width, open, b, a),
{
    let p = choose|way: Seq<int>| #[trigger]
        is_way(width, open, way) && way[0] == a && way.last() == b;
    let n = p.len();
    let back = Seq::new(n, |i: int| p[n - 1 - i]);
    assert forall|i: int| 0 < i < back.len() implies open.contains(#[trigger] back[i]) && adjacent(
        width,
        back[i - 1],
        back[i],
    ) by {
        let j = n - 1 - i;
        assert(p[j + 1] == back[i - 1]);
        assert(adjacent(width, p[j], p[j + 1]));
        lemma_adjacent_symmetric(width, p[j], p[j + 1]);
        if j > 0 {
            assert(open.contains(p[j]));
        }
    }
    assert(is_way(width, open, back));
}

/// A cell of a way is led to.
proof fn lemma_leads_along(width: int, open: Set<int>, way: Seq<int>, n: int)
    requires
        is_way(width, open, way),
        0 <= n < way.len(),
    ensures
        leads(width, open, way[0], way[n]),
{
    let part = way.take(n + 1);
    assert forall|i: int| 0 < i < part.len() implies open.contains(#[trigger] part[i]) && adjacent(
        width,
        part[i - 1],
        part[i],
    ) by {
        assert(part[i] == way[i] && part[i - 1] == way[i - 1]);
    }
    assert(is_way(width, open, part));
}

/// The cell is the first, row by row, of a connected component of text.
pub open spec fn begins_component(width: int, text: Seq<bool>, cell: int) -> bool {
    &&& text[cell]
    &&& forall|s: int|
        0 <= s < cell && #[trigger] text[s] ==> !leads(width, marked(text), s, cell)
}

/// The extents of the connected components of text that begin among the first `n`
/// cells, in the order of the cells they begin at.
pub open spec fn components(width: int, text: Seq<bool>, n: nat) -> Seq<Extent>
    decreases n,
{
    if n == 0 {
        Seq::empty()
    } else {
        let before = components(width, text, (n - 1) as nat);
        if begins_component(width, text, n - 1) {
            before.push(extent(width, region(width, marked(text), n - 1)))
        } else {
            before
        }
    }
}

/// The cells that lie in a component with one of the first `n` cells.
spec fn joined_to(width: int, text: Seq<bool>, n: nat) -> Set<int> {
    Set::new(
        |c: int| exists|s: int|
            0 <= s < n && #[trigger] text[s] && leads(width, marked(text), s, c),
    )
}

proof fn lemma_regions_are_components(width: int, text: Seq<bool>, n: nat)
    requires
        width > 0,
        n <= text.len(),
    ensures
        regions(width, text, text, n).1 == components(width, text, n),
        regions(width, text, text, n).0 == joined_to(width, text, n),
    decreases n,
{
    if n == 0 {
        assert(joined_to(width, text, 0) =~= Set::empty());
    } else {
        let cell = n - 1;
        let m = (n - 1) as nat;
        lemma_regions_are_components(width, text, m);
        let all = marked(text);
        let taken = joined_to(width, text, m);
        if text[cell] {
            assert(all.contains(cell));
            let open = free(text, taken);
            if taken.contains(cell) {
                let s = choose|s: int|
                    0 <= s < m && #[trigger] text[s] && leads(width, all, s, cell);
                assert(!begins_component(width, text, cell));
                assert forall|c: int| joined_to(width, text, n).contains(c) implies taken.contains(
                    c,
                ) by {
                    let t = choose|t: int|
                        0 <= t < n && #[trigger] text[t] && leads(width, all, t, c);
                    if t == cell {
                        lemma_leads_on(width, all, s, cell, c);
                    }
                }
                assert(joined_to(width, text, n) =~= taken);
            } else {
                assert(begins_component(width, text, cell)) by {
                    assert forall|s: int| 0 <= s < cell && #[trigger] text[s] implies !leads(
                        width,
                        all,
                        s,
                        cell,
                    ) by {
                        if leads(width, all, s, cell) {
                            assert(taken.contains(cell));
                        }
                    }
                }
                assert(region(width, open, cell) =~= region(width, all, cell)) by {
                    assert forall|c: int| region(width, all, cell).contains(c) implies region(
                        width,
                        open,
                        cell,
                    ).contains(c) by {
                        let way = choose|way: Seq<int>| #[trigger]
                            is_way(width, all, way) && way[0] == cell && way.last() == c;
                        assert forall|i: int| 0 < i < way.len() implies open.contains(
                            #[trigger] way[i],
                        ) by {
                            if taken.contains(way[i]) {
                                let s = choose|s: int|
                                    0 <= s < m && #[trigger] text[s] && leads(
                                        width,
                                        all,
                                        s,
                                        way[i],
                                    );
                                lemma_leads_along(width, all, way, i);
                                lemma_leads_back(width, all, cell, way[i]);
                                lemma_leads_on(width, all, s, way[i], cell);
                                assert(taken.contains(cell));
                            }
                        }
                        assert(is_way(width, open, way));
                    }
                    assert forall|c: int| region(width, open, cell).contains(c) implies region(
                        width,
                        all,
                        cell,
                    ).contains(c) by {
                        let way = choose|way: Seq<int>| #[trigger]
                            is_way(width, open, way) && way[0] == cell && way.last() == c;
                        assert forall|i: int| 0 < i < way.len() implies all.contains(
                            #[trigger] way[i],
                        ) by {
                            assert(open.contains(way[i]));
                        }
                        assert(is_way(width, all, way));
                    }
                }
                assert(joined_to(width, text, n) =~= taken.union(region(width, all, cell)));
            }
        } else {
            assert forall|c: int| joined_to(width, text, n).contains(c) implies taken.contains(
                c,
            ) by {
                let t = choose|t: int| 0 <= t < n && #[trigger] text[t] && leads(width, all, t, c);
                assert(t < m);
            }
            assert(joined_to(width, text, n) =~= taken);
        }
    }
}

/// Where every score is a number, the regions that boxes are drawn around are the
/// connected components of the pixels whose score reaches the threshold, each found
/// once, at its first pixel.
pub proof fn law_regions_are_components(width: int, scores: Seq<F32>)
    requires
        width > 0,
        forall|i: int| 0 <= i < scores.len() ==> !(#[trigger] scores[i]).is_nan(),
    ensures
        regions(width, beginnings(scores), text_pixels(scores), scores.len()).1 == components(
            width,
            text_pixels(scores),
            scores.len(),
        ),
{
    let text = text_pixels(scores);
    assert forall|i: int| 0 <= i < scores.len() implies beginnings(scores)[i] == text[i] by {
        assert(!scores[i].is_nan());
        assert(!(F32 { bits: TEXT_SCORE }).is_nan());
    }
    assert(beginnings(scores) =~= text);
    lemma_regions_are_components(width, text, scores.len());
}

/// A length of the scaled picture goes back to the picture in proportion, to the nearest pixel, up
/// to a part of a pixel in five hundred; the whole scaled side goes back to the whole side.
pub proof fn law_lengths_go_back_in_proportion(length: nat, scaled: u32, side: u32)
    requires
        0 < scaled,
        length <= scaled,
    ensures
        1024 * (restored(length, scaled, side) * scaled - length * side) <= 513 * scaled,
        1024 * (length * side - restored(length, scaled, side) * scaled) <= 513 * scaled,
        restored(scaled as nat, scaled, side) == side,
        restored(0, scaled, side) == 0,
{
    lemma_restored(length, scaled, side);
    lemma_restored(scaled as nat, scaled, side);
    lemma_restored(0, scaled, side);
    let n = restored(scaled as nat, scaled, side);
    let m = restored(0, scaled, side);
    assert(n == side) by (nonlinear_arith)
        requires
            1024 * (n * scaled - scaled * side) <= 513 * scaled,
            1024 * (scaled * side - n * scaled) <= 513 * scaled,
            scaled > 0,
    ;
    assert(m == 0) by (nonlinear_arith)
        requires
            1024 * (m * scaled - 0 * side) <= 513 * scaled,
            scaled > 0,
            m >= 0,
    ;
}

proof fn lemma_restored(length: nat, scaled: u32, side: u32)
    requires
        0 < scaled,
        length <= scaled,
    ensures
        1024 * (restored(length, scaled, side) * scaled - length * side) <= 513 * scaled,
        1024 * (length * side - restored(length, scaled, side) * scaled) <= 513 * scaled,
{
    let r = F64::of_nat(length).spec_times(
        F64::of_nat(side as nat).spec_over(F64::of_nat(scaled as nat)),
    );
    let o = one();
    let v = r.value();
    lemma_one_is_large();
    lemma_in_proportion(length, scaled as nat, side as nat);
    let e = length * side;
    let n = r.spec_round_u32() as int;
    assert(e <= scaled * side) by (nonlinear_arith)
        requires
            e == length * side,
            length <= scaled,
    ;
    assert(2 * v + o < 0x2_0000_0000 * o) by (nonlinear_arith)
        requires
            0x8_0000 * (v * scaled - e * o) <= scaled * o,
            e <= scaled * side,
            side <= 0xffff_ffff,
            scaled > 0,
            o > 0,
    ;
    lemma_round(r);
    assert(1024 * (n * scaled - e) <= 513 * scaled) by (nonlinear_arith)
        requires
            0x8_0000 * (v * scaled - e * o) <= scaled * o,
            2 * (n * o) <= 2 * v + o,
            scaled > 0,
            o > 0,
    ;
    assert(1024 * (e - n * scaled) <= 513 * scaled) by (nonlinear_arith)
        requires
            0x8_0000 * (e * o - v * scaled) <= scaled * o,
            2 * v + o <= 2 * (n * o) + 2 * o,
            scaled > 0,
            o > 0,
    ;
}

/// The box of a region covers the region in the picture, but for one pixel at its right and its
/// lower end. It begins two pixels of the scaled picture before it at most, and is four wider and
/// higher at most, each but for one pixel of the picture. Regions of fewer than sixteen pixels, or
/// of fewer than seven columns or rows, have none.
pub proof fn law_boxes_cover_their_regions(e: Extent, scaled: (u32, u32), size: (u32, u32))
    requires
        e.min_x <= e.max_x < scaled.0,
        e.min_y <= e.max_y < scaled.1,
        scaled.0 <= 2 * size.0,
        scaled.1 <= 2 * size.1,
    ensures
        text_box(e, scaled, size) is Some <==> e.count >= 16 && e.max_x - e.min_x + 1 >= 7
            && e.max_y - e.min_y + 1 >= 7,
        text_box(e, scaled, size) matches Some(b) ==> {
            &&& b.0 * scaled.0 <= e.min_x * size.0
            &&& b.1 * scaled.1 <= e.min_y * size.1
            &&& (b.0 + 1) * scaled.0 >= (e.min_x - 2) * size.0
            &&& (b.1 + 1) * scaled.1 >= (e.min_y - 2) * size.1
            &&& (b.0 + b.2 + 1) * scaled.0 >= (e.max_x + 1) * size.0
            &&& (b.1 + b.3 + 1) * scaled.1 >= (e.max_y + 1) * size.1
            &&& (b.2 - 1) * scaled.0 <= (e.max_x - e.min_x + 5) * size.0
            &&& (b.3 - 1) * scaled.1 <= (e.max_y - e.min_y + 5) * size.1
        },
{
    if text_box(e, scaled, size) is Some {
        lemma_box_side(e.min_x as nat, e.max_x as nat, scaled.0, size.0);
        lemma_box_side(e.min_y as nat, e.max_y as nat, scaled.1, size.1);
    }
}

proof fn lemma_box_side(least: nat, greatest: nat, scaled: u32, side: u32)
    requires
        least <= greatest < scaled,
        scaled <= 2 * side,
    ensures
        ({
            let start = restored(margin_start(least), scaled, side) as int;
            let length = restored(margin_length(least, greatest, scaled), scaled, side) as int;
            &&& start * scaled <= least * side
            &&& (start + 1) * scaled >= (least - 2) * side
            &&& (start + length + 1) * scaled >= (greatest + 1) * side
            &&& (length - 1) * scaled <= (greatest - least + 5) * side
        }),
{
    let a = margin_start(least);
    let l = margin_length(least, greatest, scaled);
    let start = restored(a, scaled, side) as int;
    let length = restored(l, scaled, side) as int;
    lemma_restored(a, scaled, side);
    lemma_restored(l, scaled, side);
    law_lengths_go_back_in_proportion(0, scaled, side);
    assert(a + l >= greatest + 1);
    assert(a + l <= greatest + 5);
    if least >= 2 {
        assert(start * scaled <= least * side) by (nonlinear_arith)
            requires
                1024 * (start * scaled - a * side) <= 513 * scaled,
                a == least - 2,
                scaled <= 2 * side,
        ;
    } else {
        assert(start == 0);
        assert(0 * scaled <= least * side) by (nonlinear_arith)
            requires
                least >= 0,
                side >= 0,
        ;
    }
    assert((start + 1) * scaled >= (least - 2) * side) by (nonlinear_arith)
        requires
            1024 * (a * side - start * scaled) <= 513 * scaled,
            a >= least - 2,
            side >= 0,
            scaled >= 0,
    ;
    let total = a + l;
    assert((start + length) * scaled == start * scaled + length * scaled) by (nonlinear_arith);
    assert(total * side == a * side + l * side) by (nonlinear_arith)
        requires
            total == a + l,
    ;
    assert(1024 * (total * side - (start + length) * scaled) <= 1026 * scaled);
    if l == scaled - a {
        // The box ends where the picture does.
        assert(total == scaled);
        assert(start + length + 1 >= side) by (nonlinear_arith)
            requires
                1024 * (scaled * side - (start + length) * scaled) <= 1026 * scaled,
                scaled > 0,
        ;
        assert((start + length + 1) * scaled >= (greatest + 1) * side) by (nonlinear_arith)
            requires
                start + length + 1 >= side,
                scaled >= greatest + 1,
                side >= 0,
        ;
    } else {
        assert(total >= greatest + 3);
        assert((start + length + 1) * scaled >= (greatest + 1) * side) by (nonlinear_arith)
            requires
                1024 * (total * side - (start + length) * scaled) <= 1026 * scaled,
                total >= greatest + 3,
                scaled <= 2 * side,
                side >= 0,
        ;
    }
    assert((length - 1) * scaled <= (greatest - least + 5) * side) by (nonlinear_arith)
        requires
            1024 * (length * scaled - l * side) <= 513 * scaled,
            l <= greatest - least + 5,
            side >= 0,
            scaled >= 0,
    ;
}

/// A pixel is one of text where its score is 0.3 at least, and not where it is less, up to a
/// thousandth.
pub proof fn law_text_scores_three_tenths(scores: Seq<F32>, i: int)
    requires
        0 <= i < scores.len(),
        scores[i].finite(),
    ensures
        1000 * scores[i].value() >= 301 * one_single() ==> text_pixels(scores)[i] && beginnings(
            scores,
        )[i],
        1000 * scores[i].value() <= 299 * one_single() ==> !text_pixels(scores)[i] && !beginnings(
            scores,
        )[i],
{
    let least = F32 { bits: TEXT_SCORE };
    lemma2_to64();
    lemma_bits_single(TEXT_SCORE, 124, 0x99_999a);
    lemma_pow2_adds(25, 124);
    lemma_pow2_pos(124);
    assert(299 * one_single() < 1000 * least.value() < 301 * one_single());
    lemma_compare_single(least, scores[i]);
    lemma_compare_single(scores[i], least);
}

/// A picture with a side below sixteen is one box, whatever the scores.
pub proof fn law_a_small_picture_is_one_box(width: u32, height: u32, scores: Seq<F32>)
    ensures
        width < 16 || height < 16 ==> detected_boxes(width, height, scores) == seq![
            (0u32, 0u32, width, height),
        ],
{
}

/// Boxes are put in order by the bands of sixteen rows that they begin in, and within a band from
/// left to right; none is lost and none is added.
pub proof fn law_boxes_stand_by_bands(boxes: Seq<PixelBox>)
    requires
        boxes.len() <= usize::MAX,
    ensures
        exists|order: Seq<usize>| #[trigger]
            covers(order, boxes.len()) && by_band(boxes) == arranged(boxes, order),
        forall|i: int, j: int|
            0 <= i < j < boxes.len() ==> {
                let a = #[trigger] by_band(boxes)[i];
                let b = #[trigger] by_band(boxes)[j];
                a.1 / 16 < b.1 / 16 || (a.1 / 16 == b.1 / 16 && a.0 <= b.0)
            },
{
    let keys = Seq::new(boxes.len(), |i: int| band_key(boxes[i]));
    lemma_stable_order(keys);
    let order = stable_order(keys);
    assert(covers(order, boxes.len()));
    assert forall|i: int, j: int| 0 <= i < j < boxes.len() implies {
        let a = #[trigger] by_band(boxes)[i];
        let b = #[trigger] by_band(boxes)[j];
        a.1 / 16 < b.1 / 16 || (a.1 / 16 == b.1 / 16 && a.0 <= b.0)
    } by {
        assert(key_le(keys[order[i] as int], keys[order[j] as int]));
    }
}

/// Every region that is large enough has its box among the boxes, and every box is that of a
/// region.
pub proof fn law_every_large_region_has_its_box(
    found: Seq<Extent>,
    scaled: (u32, u32),
    size: (u32, u32),
)
    ensures
        forall|i: int|
            0 <= i < found.len() && text_box(#[trigger] found[i], scaled, size) is Some
                ==> text_boxes(found, scaled, size).contains(
                text_box(found[i], scaled, size)->0,
            ),
        forall|k: int|
            0 <= k < text_boxes(found, scaled, size).len() ==> exists|i: int|
                0 <= i < found.len() && text_box(#[trigger] found[i], scaled, size) == Some(
                    #[trigger] text_boxes(found, scaled, size)[k],
                ),
        text_boxes(found, scaled, size).len() <= found.len(),
    decreases found.len(),
{
    if found.len() > 0 {
        let init = found.drop_last();
        law_every_large_region_has_its_box(init, scaled, size);
        let before = text_boxes(init, scaled, size);
        let all = text_boxes(found, scaled, size);
        assert forall|i: int|
            0 <= i < found.len() && text_box(#[trigger] found[i], scaled, size) is Some implies
            all.contains(text_box(found[i], scaled, size)->0) by {
            let b = text_box(found[i], scaled, size)->0;
            if i < init.len() {
                assert(init[i] == found[i]);
                assert(before.contains(b));
                let k = choose|k: int| 0 <= k < before.len() && before[k] == b;
                assert(all[k] == b);
            } else {
                assert(all[before.len() as int] == b);
            }
        }
        assert forall|k: int| 0 <= k < all.len() implies exists|i: int|
            0 <= i < found.len() && text_box(#[trigger] found[i], scaled, size) == Some(
                #[trigger] all[k],
            ) by {
            if k < before.len() {
                assert(before[k] == all[k]);
                let i = choose|i: int|
                    0 <= i < init.len() && text_box(#[trigger] init[i], scaled, size) == Some(
                        before[k],
                    );
                assert(found[i] == init[i]);
            } else {
                assert(found[found.len() - 1] == found.last());
            }
        }
    }
}

/// Cells touch where they share a side: they stand in one row, in columns next to each other, or in
/// one column, in rows next to each other. Neither cells that share a corner alone nor the last
/// cell of a row and the first of the next touch.
pub proof fn law_cells_touch_at_their_sides(width: int, x: int, y: int, u: int, v: int)
    requires
        0 <= x < width,
        0 <= u < width,
    ensures
        adjacent(width, y * width + x, v * width + u) <==> {
            ||| y == v && (u == x + 1 || u == x - 1)
            ||| x == u && (v == y + 1 || v == y - 1)
        },
{
    let a = y * width + x;
    let b = v * width + u;
    vstd::arithmetic::div_mod::lemma_fundamental_div_mod_converse(a, width, y, x);
    vstd::arithmetic::div_mod::lemma_fundamental_div_mod_converse(b, width, v, u);
    let d = v - y;
    assert(b - a == d * width + (u - x)) by (nonlinear_arith)
        requires
            a == y * width + x,
            b == v * width + u,
            d == v - y,
    ;
    assert(d >= 2 ==> d * width >= 2 * width) by (nonlinear_arith)
        requires
            width > 0,
    ;
    assert(d <= -2 ==> d * width <= -2 * width) by (nonlinear_arith)
        requires
            width > 0,
    ;
    assert((d == 1 ==> d * width == width) && (d == -1 ==> d * width == -width) && (d == 0 ==> d
        * width == 0)) by (nonlinear_arith);
}

} // verus!
