//! Stable ordering of positions by integer keys.

use vstd::prelude::*;

verus! {

/// What a position is ordered by: the first part, then the second, then the third.
pub type Key = (u64, u64, u64);

/// `a` comes no later than `b`.
pub open spec fn key_le(a: Key, b: Key) -> bool {
    a.0 < b.0 || (a.0 == b.0 && (a.1 < b.1 || (a.1 == b.1 && a.2 <= b.2)))
}

/// The position `i` put into an order of positions, after all whose keys come no
/// later than its own.
pub open spec fn slotted(keys: Seq<Key>, order: Seq<usize>, i: usize) -> Seq<usize>
    decreases order.len(),
{
    if order.len() == 0 || key_le(keys[order.last() as int], keys[i as int]) {
        order.push(i)
    } else {
        slotted(keys, order.drop_last(), i).push(order.last())
    }
}

/// The first `n` positions in the order of their keys, those with equal keys in the
/// order they had.
pub open spec fn ordered(keys: Seq<Key>, n: nat) -> Seq<usize>
    decreases n,
{
    if n == 0 {
        Seq::empty()
    } else {
        slotted(keys, ordered(keys, (n - 1) as nat), (n - 1) as usize)
    }
}

/// All positions in the order of their keys, those with equal keys in the order
/// they had.
pub open spec fn stable_order(keys: Seq<Key>) -> Seq<usize> {
    ordered(keys, keys.len())
}

/// Every one of the first `n` positions occurs, and occurs once.
pub open spec fn covers(order: Seq<usize>, n: nat) -> bool {
    &&& order.len() == n
    &&& forall|i: int| 0 <= i < order.len() ==> 0 <= #[trigger] order[i] < n
    &&& forall|i: int, j: int| 0 <= i < j < order.len() ==> order[i] != order[j]
    &&& forall|p: usize| p < n ==> #[trigger] order.contains(p)
}

/// Positions stand by their keys, and those with equal keys in their own order.
pub open spec fn in_order(keys: Seq<Key>, order: Seq<usize>) -> bool {
    forall|i: int, j: int|
        0 <= i < j < order.len() ==> {
            let a = keys[#[trigger] order[i] as int];
            let b = keys[#[trigger] order[j] as int];
            key_le(a, b) && (a == b ==> order[i] < order[j])
        }
}

proof fn lemma_slotted(keys: Seq<Key>, order: Seq<usize>, i: usize)
    requires
        forall|k: int| 0 <= k < order.len() ==> #[trigger] order[k] < i,
        in_order(keys, order),
    ensures
        slotted(keys, order, i).len() == order.len() + 1,
        in_order(keys, slotted(keys, order, i)),
        forall|p: usize| #[trigger]
            slotted(keys, order, i).contains(p) <==> (p == i || order.contains(p)),
        forall|k: int|
            0 <= k < order.len() + 1 ==> (#[trigger] slotted(keys, order, i)[k] == i
                || order.contains(slotted(keys, order, i)[k])),
    decreases order.len(),
{
    let s = slotted(keys, order, i);
    if order.len() == 0 || key_le(keys[order.last() as int], keys[i as int]) {
        assert(s == order.push(i));
        assert forall|p: usize| #[trigger] s.contains(p) <==> (p == i || order.contains(p)) by {
            if order.contains(p) {
                let k = choose|k: int| 0 <= k < order.len() && order[k] == p;
                assert(s[k] == p);
            }
            if p == i {
                assert(s[order.len() as int] == p);
            }
        }
        assert forall|k: int| 0 <= k < s.len() implies (#[trigger] s[k] == i || order.contains(
            s[k],
        )) by {
            if k < order.len() {
                assert(order[k] == s[k]);
            }
        }
    } else {
        let rest = order.drop_last();
        lemma_slotted(keys, rest, i);
        let t = slotted(keys, rest, i);
        assert(s == t.push(order.last()));
        assert forall|p: usize| #[trigger] s.contains(p) <==> (p == i || order.contains(p)) by {
            if order.contains(p) {
                let k = choose|k: int| 0 <= k < order.len() && order[k] == p;
                if k < rest.len() {
                    assert(rest[k] == p);
                    assert(t.contains(p));
                }
            }
            if t.contains(p) {
                let k = choose|k: int| 0 <= k < t.len() && t[k] == p;
                assert(s[k] == p);
            }
            if p == order.last() {
                assert(s[t.len() as int] == p);
            }
            if s.contains(p) {
                let k = choose|k: int| 0 <= k < s.len() && s[k] == p;
                if k < t.len() {
                    assert(t[k] == p);
                    assert(t.contains(p));
                    if rest.contains(p) {
                        let m = choose|m: int| 0 <= m < rest.len() && rest[m] == p;
                        assert(order[m] == p);
                    }
                } else {
                    assert(order[order.len() - 1] == p);
                }
            }
        }
        assert forall|k: int| 0 <= k < s.len() implies (#[trigger] s[k] == i || order.contains(
            s[k],
        )) by {
            assert(s.contains(s[k]));
        }
        assert forall|x: int, y: int| 0 <= x < y < s.len() implies ({
            let a = keys[#[trigger] s[x] as int];
            let b = keys[#[trigger] s[y] as int];
            key_le(a, b) && (a == b ==> s[x] < s[y])
        }) by {
            if y == s.len() - 1 {
                assert(s[x] == t[x]);
                if t[x] != i {
                    assert(rest.contains(t[x]));
                    let m = choose|m: int| 0 <= m < rest.len() && rest[m] == t[x];
                    assert(order[m] == t[x]);
                    assert(order[order.len() - 1] == s[y]);
                }
            } else {
                assert(s[x] == t[x] && s[y] == t[y]);
            }
        }
    }
}

proof fn lemma_ordered(keys: Seq<Key>, n: nat)
    requires
        n <= keys.len() <= usize::MAX,
    ensures
        ordered(keys, n).len() == n,
        in_order(keys, ordered(keys, n)),
        forall|k: int| 0 <= k < n ==> #[trigger] ordered(keys, n)[k] < n,
        forall|p: usize| p < n ==> #[trigger] ordered(keys, n).contains(p),
    decreases n,
{
    if n > 0 {
        let m = (n - 1) as nat;
        lemma_ordered(keys, m);
        lemma_slotted(keys, ordered(keys, m), m as usize);
        let s = ordered(keys, n);
        assert forall|k: int| 0 <= k < n implies #[trigger] s[k] < n by {
            if s[k] != m as usize {
                assert(ordered(keys, m).contains(s[k]));
            }
        }
        assert forall|p: usize| p < n implies #[trigger] s.contains(p) by {
            if p < m {
                assert(ordered(keys, m).contains(p));
            }
        }
    }
}

/// The stable order holds every position once, by key, equal keys keeping their own
/// order.
pub proof fn lemma_stable_order(keys: Seq<Key>)
    requires
        keys.len() <= usize::MAX,
    ensures
        covers(stable_order(keys), keys.len()),
        in_order(keys, stable_order(keys)),
{
    lemma_ordered(keys, keys.len());
    let s = stable_order(keys);
    assert forall|i: int, j: int| 0 <= i < j < s.len() implies s[i] != s[j] by {
        let a = keys[s[i] as int];
        let b = keys[s[j] as int];
        if s[i] == s[j] {
            assert(a == b);
        }
    }
}

/// There is one order of all positions in which they stand by their keys, equal keys
/// keeping their own order.
pub proof fn law_stable_order_is_the_only_one(keys: Seq<Key>, order: Seq<usize>)
    requires
        keys.len() <= usize::MAX,
        covers(order, keys.len()),
        in_order(keys, order),
    ensures
        order == stable_order(keys),
{
    lemma_stable_order(keys);
    lemma_same_order(keys, order, stable_order(keys), keys.len());
    assert(order =~= stable_order(keys));
}

proof fn lemma_same_order(keys: Seq<Key>, a: Seq<usize>, b: Seq<usize>, n: nat)
    requires
        covers(a, keys.len()),
        covers(b, keys.len()),
        in_order(keys, a),
        in_order(keys, b),
        n <= keys.len(),
    ensures
        forall|i: int| 0 <= i < n ==> a[i] == b[i],
    decreases n,
{
    if n > 0 {
        let i = n - 1;
        lemma_same_order(keys, a, b, (n - 1) as nat);
        if a[i] != b[i] {
            assert(b.contains(a[i]));
            let j = choose|j: int| 0 <= j < b.len() && b[j] == a[i];
            if j < i {
                assert(a[j] == b[j]);
                assert(a[j] != a[i]);
            }
            assert(a.contains(b[i]));
            let k = choose|k: int| 0 <= k < a.len() && a[k] == b[i];
            if k < i {
                assert(a[k] == b[k]);
                assert(b[k] != b[i]);
            }
            // a[i] comes before b[i] in b's place j > i, and after it in a's place k > i.
            assert(i < j && i < k);
            let p = keys[b[i] as int];
            let q = keys[b[j] as int];
            assert(key_le(p, q) && (p == q ==> b[i] < b[j]));
            let r = keys[a[i] as int];
            let s = keys[a[k] as int];
            assert(key_le(r, s) && (r == s ==> a[i] < a[k]));
            assert(p == q);
        }
    }
}

fn key_no_later(a: Key, b: Key) -> (r: bool)
    ensures
        r == key_le(a, b),
{
    a.0 < b.0 || (a.0 == b.0 && (a.1 < b.1 || (a.1 == b.1 && a.2 <= b.2)))
}

/// How much of an order stays in front of a position that is put into it.
pub open spec fn slot(keys: Seq<Key>, order: Seq<usize>, i: usize) -> nat
    decreases order.len(),
{
    if order.len() == 0 || key_le(keys[order.last() as int], keys[i as int]) {
        order.len()
    } else {
        slot(keys, order.drop_last(), i)
    }
}

proof fn lemma_slot(keys: Seq<Key>, order: Seq<usize>, i: usize)
    ensures
        slot(keys, order, i) <= order.len(),
        slotted(keys, order, i) == order.insert(slot(keys, order, i) as int, i),
    decreases order.len(),
{
    if order.len() == 0 || key_le(keys[order.last() as int], keys[i as int]) {
        assert(order.push(i) =~= order.insert(order.len() as int, i));
    } else {
        lemma_slot(keys, order.drop_last(), i);
        let at = slot(keys, order, i) as int;
        assert(order.drop_last().insert(at, i).push(order.last()) =~= order.insert(at, i));
    }
}

/// Puts all positions in the order of their keys, equal keys keeping their own
/// order.
pub fn sort_positions(keys: &Vec<Key>) -> (order: Vec<usize>)
    ensures
        order@ == stable_order(keys@),
        covers(order@, keys@.len()),
        in_order(keys@, order@),
{
    let mut order: Vec<usize> = Vec::new();
    let n: usize = keys.len();
    let mut i: usize = 0;
    while i < n
        invariant
            i <= n,
            n == keys@.len(),
            order@ == ordered(keys@, i as nat),
        decreases n - i,
    {
        proof {
            lemma_ordered(keys@, i as nat);
        }
        let mut at: usize = order.len();
        assert(order@.take(at as int) =~= order@);
        while at > 0 && !key_no_later(keys[order[at - 1]], keys[i])
            invariant
                at <= order@.len(),
                i < n,
                n == keys@.len(),
                forall|k: int| 0 <= k < order@.len() ==> #[trigger] order@[k] < i,
                slot(keys@, order@, i) == slot(keys@, order@.take(at as int), i),
            decreases at,
        {
            proof {
                assert(order@.take(at as int).drop_last() =~= order@.take(at - 1));
                assert(order@.take(at as int).last() == order@[at - 1]);
            }
            at = at - 1;
        }
        proof {
            lemma_slot(keys@, order@, i);
            if at > 0 {
                assert(order@.take(at as int).last() == order@[at - 1]);
            }
            assert(slot(keys@, order@, i) == at);
        }
        order.insert(at, i);
        i = i + 1;
    }
    proof {
        lemma_stable_order(keys@);
    }
    order
}

} // verus!
