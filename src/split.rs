use vstd::prelude::*;
use vstd::arithmetic::div_mod::lemma_div_denominator;
use crate::factor::{lemma_product_push, product};

verus! {

/// Two to the power `k`.
pub open spec fn pow2(k: nat) -> nat
    decreases k,
{
    if k == 0 {
        1
    } else {
        2 * pow2((k - 1) as nat)
    }
}

/// Bit `i` of `mask`.
pub open spec fn bit(mask: nat, i: nat) -> nat {
    (mask / pow2(i)) % 2
}

/// The product of the elements of `e` whose bit in `mask` equals `side`.
pub open spec fn side_product(e: Seq<u64>, mask: nat, side: nat) -> int
    decreases e.len(),
{
    if e.len() == 0 {
        1
    } else {
        side_product(e.drop_last(), mask, side) * (if bit(mask, (e.len() - 1) as nat) == side {
            e.last() as int
        } else {
            1
        })
    }
}

/// `p` is the pair `(a, b)` or its swap.
pub open spec fn same_pair(p: (u64, u64), a: int, b: int) -> bool {
    (p.0 == a && p.1 == b) || (p.0 == b && p.1 == a)
}

/// Some pair of `pairs` is `(a, b)` up to order.
pub open spec fn has_pair(pairs: Seq<(u64, u64)>, a: int, b: int) -> bool {
    exists|i: int| 0 <= i < pairs.len() && same_pair(#[trigger] pairs[i], a, b)
}

/// The splits of `e` by the masks below `count` in which neither side is one,
/// each kept once up to order, in the order of the first mask giving it.
pub open spec fn pairs_below(e: Seq<u64>, count: nat) -> Seq<(u64, u64)>
    decreases count,
{
    if count == 0 {
        Seq::empty()
    } else {
        let prev = pairs_below(e, (count - 1) as nat);
        let a = side_product(e, (count - 1) as nat, 0);
        let b = side_product(e, (count - 1) as nat, 1);
        if a != 1 && b != 1 && !has_pair(prev, a, b) {
            prev.push((a as u64, b as u64))
        } else {
            prev
        }
    }
}

/// All non-trivial two-way splits of the multiset `e`, one per unordered pair.
pub open spec fn all_splits(e: Seq<u64>) -> Seq<(u64, u64)> {
    pairs_below(e, pow2(e.len()))
}

/// The two sides of a split multiply back to the whole product.
pub proof fn lemma_sides_product(e: Seq<u64>, mask: nat)
    ensures
        side_product(e, mask, 0) * side_product(e, mask, 1) == product(e),
    decreases e.len(),
{
    if e.len() > 0 {
        let d = e.drop_last();
        lemma_sides_product(d, mask);
        assert(d.push(e.last()) =~= e);
        lemma_product_push(d, e.last());
        let a = side_product(d, mask, 0);
        let b = side_product(d, mask, 1);
        let x = e.last() as int;
        if bit(mask, (e.len() - 1) as nat) == 0 {
            assert((a * x) * b == (a * b) * x) by (nonlinear_arith);
        } else {
            assert(a * (b * x) == (a * b) * x) by (nonlinear_arith);
        }
    }
}

/// Each side of a split of numbers of at least one is at least one.
proof fn lemma_side_positive(e: Seq<u64>, mask: nat, side: nat)
    requires
        forall|i: int| 0 <= i < e.len() ==> e[i] >= 1,
    ensures
        side_product(e, mask, side) >= 1,
    decreases e.len(),
{
    if e.len() > 0 {
        lemma_side_positive(e.drop_last(), mask, side);
        let a = side_product(e.drop_last(), mask, side);
        let x: int = if bit(mask, (e.len() - 1) as nat) == side { e.last() as int } else { 1 };
        assert(a * x >= 1) by (nonlinear_arith)
            requires
                a >= 1,
                x >= 1,
        ;
    }
}

/// A product of numbers of at least two is at least two to the number of them.
proof fn lemma_pow2_le_product(e: Seq<u64>)
    requires
        forall|i: int| 0 <= i < e.len() ==> e[i] >= 2,
    ensures
        pow2(e.len()) <= product(e),
    decreases e.len(),
{
    if e.len() > 0 {
        let t = e.subrange(1, e.len() as int);
        lemma_pow2_le_product(t);
        let p = product(t);
        let q = pow2(t.len()) as int;
        assert(2 * q <= e[0] * p) by (nonlinear_arith)
            requires
                q <= p,
                e[0] >= 2,
                q >= 0,
        ;
    }
}

proof fn lemma_pow2_monotone(i: nat, k: nat)
    requires
        i <= k,
    ensures
        1 <= pow2(i) <= pow2(k),
    decreases k,
{
    if i < k {
        lemma_pow2_monotone(i, (k - 1) as nat);
    } else if k > 0 {
        lemma_pow2_monotone((k - 1) as nat, (k - 1) as nat);
    }
}

/// Some pair of `pairs` is `(a, b)` up to order.
pub fn contains_pair(pairs: &Vec<(u64, u64)>, a: u64, b: u64) -> (r: bool)
    ensures
        r == has_pair(pairs@, a as int, b as int),
{
    let mut t: usize = 0;
    while t < pairs.len()
        invariant
            t <= pairs@.len(),
            forall|u: int| 0 <= u < t ==> !same_pair(#[trigger] pairs@[u], a as int, b as int),
        decreases pairs@.len() - t,
    {
        if (pairs[t].0 == a && pairs[t].1 == b) || (pairs[t].0 == b && pairs[t].1 == a) {
            assert(same_pair(pairs@[t as int], a as int, b as int));
            return true;
        }
        t = t + 1;
    }
    false
}

/// Every way of dealing the factors `elements` to two products `a` and `b`
/// in which neither product is one, each unordered pair once, in the order
/// of the dealing masks.
pub fn split_pairs(elements: &Vec<u64>) -> (r: Vec<(u64, u64)>)
    requires
        forall|i: int| 0 <= i < elements@.len() ==> elements@[i] >= 2,
        product(elements@) <= u64::MAX,
    ensures
        r@ == all_splits(elements@),
        forall|i: int|
            0 <= i < r@.len() ==> (#[trigger] r@[i]).0 * r@[i].1 == product(elements@) && r@[i].0
                != 1 && r@[i].1 != 1,
        forall|i: int, j: int|
            0 <= i < j < r@.len() ==> !same_pair(r@[i], r@[j].0 as int, r@[j].1 as int),
{
    let ghost e = elements@;
    let k = elements.len();
    proof {
        lemma_pow2_le_product(e);
    }
    let mut len: u64 = 1;
    let mut i: usize = 0;
    while i < k
        invariant
            i <= k,
            k == e.len(),
            len == pow2(i as nat),
            pow2(k as nat) <= u64::MAX,
        decreases k - i,
    {
        proof {
            lemma_pow2_monotone((i + 1) as nat, k as nat);
        }
        len = len * 2;
        i = i + 1;
    }
    let mut pairs: Vec<(u64, u64)> = Vec::new();
    let mut position: u64 = 0;
    while position < len
        invariant
            k == e.len(),
            e == elements@,
            forall|i: int| 0 <= i < e.len() ==> e[i] >= 2,
            product(e) <= u64::MAX,
            len == pow2(k as nat),
            position <= len,
            pairs@ == pairs_below(e, position as nat),
            forall|i: int|
                0 <= i < pairs@.len() ==> (#[trigger] pairs@[i]).0 * pairs@[i].1 == product(e)
                    && pairs@[i].0 != 1 && pairs@[i].1 != 1,
            forall|i: int, j: int|
                0 <= i < j < pairs@.len() ==> !same_pair(pairs@[i], pairs@[j].0 as int, pairs@[j].1 as int),
        decreases len - position,
    {
        let mut a: u64 = 1;
        let mut b: u64 = 1;
        let mut rest: u64 = position;
        let mut i: usize = 0;
        assert(pow2(0) == 1);
        assert(e.take(0) =~= Seq::<u64>::empty());
        while i < k
            invariant
                k == e.len(),
                e == elements@,
                forall|i: int| 0 <= i < e.len() ==> e[i] >= 2,
                product(e) <= u64::MAX,
                i <= k,
                a == side_product(e.take(i as int), position as nat, 0),
                b == side_product(e.take(i as int), position as nat, 1),
                rest == position as nat / pow2(i as nat),
            decreases k - i,
        {
            let ghost t = e.take(i + 1);
            proof {
                assert(t.drop_last() =~= e.take(i as int));
                assert(t.last() == e[i as int]);
                lemma_pow2_monotone(i as nat, i as nat);
                lemma_side_positive(t, position as nat, 0);
                lemma_side_positive(t, position as nat, 1);
                lemma_sides_product(t, position as nat);
                lemma_product_prefix(e, i + 1);
                let x = side_product(t, position as nat, 0);
                let y = side_product(t, position as nat, 1);
                assert(x <= x * y && y <= x * y) by (nonlinear_arith)
                    requires
                        x >= 1,
                        y >= 1,
                ;
                lemma_div_denominator(position as int, pow2(i as nat) as int, 2);
            }
            if rest % 2 == 0 {
                a = a * elements[i];
            } else {
                b = b * elements[i];
            }
            rest = rest / 2;
            i = i + 1;
        }
        proof {
            assert(e.take(k as int) =~= e);
            lemma_sides_product(e, position as nat);
        }
        if a != 1 && b != 1 && !contains_pair(&pairs, a, b) {
            pairs.push((a, b));
        }
        position = position + 1;
    }
    pairs
}

/// A prefix of numbers of at least one has a product no larger than the whole.
proof fn lemma_product_prefix(e: Seq<u64>, i: int)
    requires
        0 <= i <= e.len(),
        forall|j: int| 0 <= j < e.len() ==> e[j] >= 1,
    ensures
        product(e.take(i)) <= product(e),
        product(e.take(i)) >= 1,
    decreases e.len() - i,
{
    if i == e.len() {
        assert(e.take(i) =~= e);
        lemma_product_positive(e);
    } else {
        lemma_product_prefix(e, i + 1);
        assert(e.take(i + 1) =~= e.take(i).push(e[i]));
        lemma_product_push(e.take(i), e[i]);
        lemma_product_positive(e.take(i));
        let p = product(e.take(i));
        let x = e[i] as int;
        assert(p <= p * x) by (nonlinear_arith)
            requires
                p >= 1,
                x >= 1,
        ;
    }
}

proof fn lemma_product_positive(e: Seq<u64>)
    requires
        forall|j: int| 0 <= j < e.len() ==> e[j] >= 1,
    ensures
        product(e) >= 1,
    decreases e.len(),
{
    if e.len() > 0 {
        let t = e.subrange(1, e.len() as int);
        lemma_product_positive(t);
        let p = product(t);
        assert(e[0] * p >= 1) by (nonlinear_arith)
            requires
                p >= 1,
                e[0] >= 1,
        ;
    }
}

} // verus!
