//! Natural numbers of any size, held as digits to the base `2^32`, the least first.

use vstd::prelude::*;

verus! {

/// The base of the digits.
pub open spec fn base() -> nat {
    0x1_0000_0000
}

/// The number that digits write.
pub open spec fn value(digits: Seq<u32>) -> nat
    decreases digits.len(),
{
    if digits.len() == 0 {
        0
    } else {
        digits[0] as nat + base() * value(digits.drop_first())
    }
}

/// `base^n`.
pub open spec fn weight(n: nat) -> nat
    decreases n,
{
    if n == 0 {
        1
    } else {
        base() * weight((n - 1) as nat)
    }
}

/// A last digit counts by the weight of its place.
proof fn lemma_value_push(digits: Seq<u32>, d: u32)
    ensures
        value(digits.push(d)) == value(digits) + weight(digits.len()) * d,
    decreases digits.len(),
{
    let all = digits.push(d);
    if digits.len() == 0 {
        assert(all.drop_first() =~= Seq::<u32>::empty());
        assert(value(all.drop_first()) == 0);
        assert(base() * 0 == 0);
        assert(weight(0) * d == d) by (nonlinear_arith)
            requires
                weight(0) == 1,
        ;
    } else {
        assert(all.drop_first() =~= digits.drop_first().push(d));
        lemma_value_push(digits.drop_first(), d);
        let b = base();
        let v = value(digits.drop_first());
        let w = weight((digits.len() - 1) as nat);
        assert(b * (v + w * d) == b * v + (b * w) * d) by (nonlinear_arith);
    }
}

/// Digits write less than the weight of the place after the last.
proof fn lemma_value_below(digits: Seq<u32>)
    ensures
        value(digits) < weight(digits.len()),
    decreases digits.len(),
{
    if digits.len() > 0 {
        lemma_value_below(digits.drop_first());
        let v = value(digits.drop_first());
        let w = weight((digits.len() - 1) as nat);
        assert(digits[0] + base() * v < base() * w) by (nonlinear_arith)
            requires
                v + 1 <= w,
                digits[0] < base(),
                base() == 0x1_0000_0000,
        ;
    }
}

/// Replaces the number by `factor` times itself plus `plus`.
pub fn multiply_add(digits: &mut Vec<u32>, factor: u32, plus: u32)
    ensures
        value(final(digits)@) == value(old(digits)@) * factor + plus,
{
    let n: usize = digits.len();
    let mut carry: u64 = plus as u64;
    let mut i: usize = 0;
    let ghost start = digits@;
    proof {
        assert(start.take(0) =~= Seq::<u32>::empty());
        assert(digits@.take(0) =~= Seq::<u32>::empty());
        assert(weight(0) * carry == carry) by (nonlinear_arith)
            requires
                weight(0) == 1,
        ;
        assert(0 * factor == 0);
    }
    while i < n
        invariant
            i <= n == digits@.len() == start.len(),
            carry <= 0xffff_ffff,
            forall|k: int| i <= k < n ==> digits@[k] == start[k],
            value(digits@.take(i as int)) + weight(i as nat) * carry == value(start.take(i as int))
                * factor + plus,
        decreases n - i,
    {
        let ghost low = digits@.take(i as int);
        let ghost was = start.take(i as int);
        let d: u32 = digits[i];
        let c: u64 = carry;
        proof {
            assert(d * factor + c <= 0xffff_ffff * 0xffff_ffff + 0xffff_ffff) by (nonlinear_arith)
                requires
                    d <= 0xffff_ffff,
                    factor <= 0xffff_ffff,
                    c <= 0xffff_ffff,
            ;
        }
        let t: u64 = d as u64 * factor as u64 + c;
        let r: u32 = (t % 0x1_0000_0000) as u32;
        digits.set(i, r);
        carry = t / 0x1_0000_0000;
        proof {
            assert(carry <= 0xffff_ffff) by (nonlinear_arith)
                requires
                    t <= 0xffff_ffff * 0xffff_ffff + 0xffff_ffff,
                    carry == t / 0x1_0000_0000,
            ;
            assert(digits@.take(i as int) =~= low);
            assert(digits@.take(i + 1) =~= low.push(r));
            assert(start.take(i + 1) =~= was.push(d));
            lemma_value_push(low, r);
            lemma_value_push(was, d);
            let w = weight(i as nat);
            assert(weight((i + 1) as nat) == base() * w);
            assert(t == base() * carry + r);
            assert(w * r + (base() * w) * carry == w * (d * factor + c)) by (nonlinear_arith)
                requires
                    d * factor + c == base() * carry + r,
            ;
            assert(w * (d * factor + c) == (w * d) * factor + w * c) by (nonlinear_arith);
            let v = value(was);
            assert((v + w * d) * factor == v * factor + (w * d) * factor) by (nonlinear_arith);
        }
        i = i + 1;
    }
    proof {
        assert(digits@.take(n as int) =~= digits@);
        assert(start.take(n as int) =~= start);
    }
    if carry > 0 {
        proof {
            lemma_value_push(digits@, carry as u32);
        }
        digits.push(carry as u32);
    }
}

/// A number whose digits are followed by zeros only is that of the digits.
proof fn lemma_value_padded(digits: Seq<u32>, n: nat)
    requires
        n <= digits.len(),
        forall|i: int| n <= i < digits.len() ==> #[trigger] digits[i] == 0,
    ensures
        value(digits) == value(digits.take(n as int)),
    decreases digits.len(),
{
    if digits.len() == n {
        assert(digits.take(n as int) =~= digits);
    } else {
        let rest = digits.drop_last();
        lemma_value_padded(rest, n);
        assert(rest.push(digits.last()) =~= digits);
        lemma_value_push(rest, digits.last());
        assert(rest.take(n as int) =~= digits.take(n as int));
        assert(digits.last() == 0);
    }
}

/// The digit at a place, zero past the last.
fn digit_at(digits: &Vec<u32>, i: usize) -> (d: u32)
    ensures
        d == (if i < digits@.len() {
            digits@[i as int]
        } else {
            0
        }),
{
    if i < digits.len() {
        digits[i]
    } else {
        0
    }
}

/// Digits, with zeros after them, up to a length.
spec fn padded(digits: Seq<u32>, n: nat) -> Seq<u32> {
    Seq::new(n, |i: int| if i < digits.len() { digits[i] } else { 0u32 })
}

proof fn lemma_padded(digits: Seq<u32>, n: nat)
    requires
        digits.len() <= n,
    ensures
        value(padded(digits, n)) == value(digits),
{
    lemma_value_padded(padded(digits, n), digits.len());
    assert(padded(digits, n).take(digits.len() as int) =~= digits);
}

/// Splitting digits at a place.
proof fn lemma_value_split(digits: Seq<u32>, n: nat)
    requires
        n <= digits.len(),
    ensures
        value(digits) == value(digits.take(n as int)) + weight(n) * value(digits.skip(n as int)),
    decreases n,
{
    if n == 0 {
        assert(digits.skip(0) =~= digits);
        assert(digits.take(0) =~= Seq::<u32>::empty());
        assert(weight(0) * value(digits) == value(digits)) by (nonlinear_arith)
            requires
                weight(0) == 1,
        ;
    } else {
        let rest = digits.drop_first();
        lemma_value_split(rest, (n - 1) as nat);
        assert(rest.skip(n - 1) =~= digits.skip(n as int));
        assert(digits.take(n as int).drop_first() =~= rest.take(n - 1));
        let v = value(rest.take(n - 1));
        let w = weight((n - 1) as nat);
        let h = value(digits.skip(n as int));
        assert(base() * (v + w * h) == base() * v + (base() * w) * h) by (nonlinear_arith);
    }
}

/// Whether the first number is at least the second.
pub fn at_least(a: &Vec<u32>, b: &Vec<u32>) -> (r: bool)
    ensures
        r == (value(a@) >= value(b@)),
{
    let n: usize = if a.len() > b.len() {
        a.len()
    } else {
        b.len()
    };
    let ghost p = padded(a@, n as nat);
    let ghost q = padded(b@, n as nat);
    proof {
        lemma_padded(a@, n as nat);
        lemma_padded(b@, n as nat);
    }
    let mut i: usize = n;
    while i > 0
        invariant
            i <= n,
            p == padded(a@, n as nat),
            q == padded(b@, n as nat),
            value(p) == value(a@),
            value(q) == value(b@),
            p.skip(i as int) == q.skip(i as int),
        decreases i,
    {
        let x: u32 = digit_at(a, i - 1);
        let y: u32 = digit_at(b, i - 1);
        if x != y {
            proof {
                let k = (i - 1) as nat;
                assert(p[k as int] == x && q[k as int] == y);
                lemma_value_split(p, k);
                lemma_value_split(q, k);
                lemma_value_below(p.take(k as int));
                lemma_value_below(q.take(k as int));
                assert(p.skip(k as int).drop_first() =~= p.skip(i as int));
                assert(q.skip(k as int).drop_first() =~= q.skip(i as int));
                let t = value(p.skip(i as int));
                let w = weight(k);
                let lp = value(p.take(k as int));
                let lq = value(q.take(k as int));
                if x < y {
                    assert(lp + w * (x + base() * t) < lq + w * (y + base() * t)) by (nonlinear_arith)
                        requires
                            lp < w,
                            x + 1 <= y,
                            lq >= 0,
                    ;
                } else {
                    assert(lq + w * (y + base() * t) < lp + w * (x + base() * t)) by (nonlinear_arith)
                        requires
                            lq < w,
                            y + 1 <= x,
                            lp >= 0,
                    ;
                }
            }
            return x > y;
        }
        proof {
            assert forall|k: int| 0 <= k < n - (i - 1) implies #[trigger] p.skip(
                i - 1,
            )[k] == q.skip(i - 1)[k] by {
                if k > 0 {
                    assert(p.skip(i as int)[k - 1] == q.skip(i as int)[k - 1]);
                }
            }
            assert(p.skip(i - 1) =~= q.skip(i - 1));
        }
        i = i - 1;
    }
    proof {
        assert(p.skip(0) =~= p);
        assert(q.skip(0) =~= q);
    }
    true
}

/// Takes the second number off the first.
pub fn subtract(a: &mut Vec<u32>, b: &Vec<u32>)
    requires
        value(old(a)@) >= value(b@),
    ensures
        value(final(a)@) == value(old(a)@) - value(b@),
{
    while a.len() < b.len()
        invariant
            value(a@) == value(old(a)@),
        decreases b@.len() - a@.len(),
    {
        proof {
            lemma_value_push(a@, 0);
        }
        a.push(0);
    }
    let n: usize = a.len();
    let ghost start = a@;
    let ghost q = padded(b@, n as nat);
    proof {
        lemma_padded(b@, n as nat);
        assert(start.take(0) =~= Seq::<u32>::empty());
        assert(a@.take(0) =~= Seq::<u32>::empty());
        assert(q.take(0) =~= Seq::<u32>::empty());
    }
    let mut borrow: u64 = 0;
    let mut i: usize = 0;
    while i < n
        invariant
            i <= n == a@.len() == start.len() == q.len(),
            b@.len() <= n,
            q == padded(b@, n as nat),
            borrow <= 1,
            forall|k: int| i <= k < n ==> a@[k] == start[k],
            value(a@.take(i as int)) + value(q.take(i as int)) == value(start.take(i as int))
                + weight(i as nat) * borrow,
        decreases n - i,
    {
        let ghost low = a@.take(i as int);
        let x: u32 = a[i];
        let y: u32 = digit_at(b, i);
        let c: u64 = borrow;
        let need: u64 = y as u64 + c;
        let r: u32;
        if x as u64 >= need {
            r = (x as u64 - need) as u32;
            borrow = 0;
        } else {
            r = (x as u64 + 0x1_0000_0000 - need) as u32;
            borrow = 1;
        }
        a.set(i, r);
        proof {
            assert(a@.take(i as int) =~= low);
            assert(a@.take(i + 1) =~= low.push(r));
            assert(q.take(i + 1) =~= q.take(i as int).push(y));
            assert(start.take(i + 1) =~= start.take(i as int).push(x));
            lemma_value_push(low, r);
            lemma_value_push(q.take(i as int), y);
            lemma_value_push(start.take(i as int), x);
            let w = weight(i as nat);
            assert(w * r + w * y + w * c == w * x + (base() * w) * borrow) by (nonlinear_arith)
                requires
                    r + y + c == x + base() * borrow,
            ;
        }
        i = i + 1;
    }
    proof {
        assert(a@.take(n as int) =~= a@);
        assert(q.take(n as int) =~= q);
        assert(start.take(n as int) =~= start);
        lemma_value_below(a@);
        let w = weight(n as nat);
        if borrow == 1 {
            assert(w * 1 == w);
        }
    }
}

/// Halves an even number.
pub fn halve(digits: &mut Vec<u32>)
    requires
        value(old(digits)@) % 2 == 0,
    ensures
        value(final(digits)@) * 2 == value(old(digits)@),
{
    let n: usize = digits.len();
    let ghost start = digits@;
    let mut carry: u64 = 0;
    let mut i: usize = n;
    proof {
        assert(start.skip(n as int) =~= Seq::<u32>::empty());
        assert(digits@.skip(n as int) =~= Seq::<u32>::empty());
    }
    while i > 0
        invariant
            i <= n == digits@.len() == start.len(),
            carry <= 1,
            forall|k: int| 0 <= k < i ==> digits@[k] == start[k],
            2 * value(digits@.skip(i as int)) + carry == value(start.skip(i as int)),
        decreases i,
    {
        let ghost high = digits@.skip(i as int);
        let d: u32 = digits[i - 1];
        let c: u64 = carry;
        let t: u64 = c * 0x1_0000_0000 + d as u64;
        let r: u32 = (t / 2) as u32;
        digits.set(i - 1, r);
        carry = t % 2;
        proof {
            assert(digits@.skip(i as int) =~= high);
            assert(digits@.skip(i - 1).drop_first() =~= high);
            assert(start.skip(i - 1).drop_first() =~= start.skip(i as int));
            let h = value(high);
            assert(2 * (r + base() * h) + carry == d + base() * (2 * h + c)) by (nonlinear_arith)
                requires
                    2 * r + carry == base() * c + d,
            ;
        }
        i = i - 1;
    }
    proof {
        assert(digits@.skip(0) =~= digits@);
        assert(start.skip(0) =~= start);
    }
}

} // verus!
