use vstd::prelude::*;
use vstd::arithmetic::div_mod::{lemma_fundamental_div_mod, lemma_mod_multiples_basic};

verus! {

/// A natural number is prime when it is at least two and has no divisor
/// strictly between one and itself.
pub open spec fn is_prime(n: int) -> bool {
    n >= 2 && forall|d: int| 2 <= d < n ==> #[trigger] (n % d) != 0
}

/// No number in `[2, bound)` that is smaller than `t` divides `t`.
pub open spec fn no_divisor_below(t: int, bound: int) -> bool {
    forall|d: int| 2 <= d < bound && d < t ==> #[trigger] (t % d) != 0
}

/// Divisibility is transitive.
pub proof fn lemma_divides_trans(a: int, b: int, c: int)
    requires
        a >= 0,
        b > 0,
        c > 0,
        a % b == 0,
        b % c == 0,
    ensures
        a % c == 0,
{
    lemma_fundamental_div_mod(a, b);
    lemma_fundamental_div_mod(b, c);
    let k = a / b;
    let m = b / c;
    assert(a == c * (m * k)) by (nonlinear_arith)
        requires
            a == b * k,
            b == c * m,
    ;
    lemma_mod_multiples_basic(m * k, c);
}

/// The quotient of an exact division divides the dividend.
pub proof fn lemma_quotient_divides(t: int, d: int)
    requires
        t > 0,
        d > 0,
        t % d == 0,
    ensures
        t / d > 0,
        t % (t / d) == 0,
        t == d * (t / d),
{
    lemma_fundamental_div_mod(t, d);
    let e = t / d;
    assert(e > 0) by (nonlinear_arith)
        requires
            t == d * e,
            t > 0,
            d > 0,
    ;
    lemma_mod_multiples_basic(d, e);
}

/// Every number of at least two has a prime divisor no larger than itself.
pub proof fn lemma_prime_divisor(x: int) -> (q: int)
    requires
        x >= 2,
    ensures
        is_prime(q),
        2 <= q <= x,
        x % q == 0,
    decreases x,
{
    if is_prime(x) {
        lemma_mod_multiples_basic(1, x);
        x
    } else {
        let d = choose|d: int| 2 <= d < x && #[trigger] (x % d) == 0;
        let q = lemma_prime_divisor(d);
        lemma_divides_trans(x, d, q);
        q
    }
}

/// Below `i * i`, a number with no divisor under `i` is prime.
proof fn lemma_no_small_divisor_prime(t: int, i: int)
    requires
        2 <= i,
        2 <= t < i * i,
        no_divisor_below(t, i),
    ensures
        is_prime(t),
{
    assert forall|d: int| 2 <= d < t implies #[trigger] (t % d) != 0 by {
        if t % d == 0 && d >= i {
            lemma_quotient_divides(t, d);
            let e = t / d;
            assert(2 <= e < i && e < t) by (nonlinear_arith)
                requires
                    t == d * e,
                    d >= i,
                    d < t,
                    t < i * i,
                    i >= 2,
                    e > 0,
            ;
            assert(t % e != 0);
            lemma_mod_multiples_basic(d, e);
        }
    }
}

/// The primes below `max_number`, in increasing order, found by the sieve
/// of Eratosthenes.
pub fn sieve_of_eratosthenes(max_number: usize) -> (r: Vec<u64>)
    ensures
        forall|i: int| 0 <= i < r@.len() ==> is_prime(r@[i] as int) && r@[i] < max_number,
        forall|i: int, j: int| 0 <= i < j < r@.len() ==> r@[i] < r@[j],
        forall|p: int| is_prime(p) && p < max_number ==> r@.contains(p as u64),
{
    let mut nums: Vec<bool> = Vec::new();
    let mut k: usize = 0;
    while k < max_number
        invariant
            k <= max_number,
            nums@.len() == k,
            forall|t: int| 0 <= t < k ==> nums@[t] == (t >= 2),
        decreases max_number - k,
    {
        nums.push(k >= 2);
        k = k + 1;
    }
    let mut i: usize = 2;
    while i < max_number && i <= (max_number - 1) / i
        invariant
            2 <= i,
            max_number >= 2 ==> i <= max_number,
            nums@.len() == max_number,
            forall|t: int|
                0 <= t < max_number ==> #[trigger] nums@[t] == (t >= 2 && no_divisor_below(t, i as int)),
        decreases max_number - i,
    {
        proof {
            lemma_fundamental_div_mod((max_number - 1) as int, i as int);
            let q = (max_number - 1) as int / i as int;
            assert(i * i <= max_number - 1) by (nonlinear_arith)
                requires
                    max_number - 1 == i * q + (max_number - 1) % (i as int),
                    0 <= (max_number - 1) % (i as int),
                    i <= q,
                    i >= 2,
            ;
        }
        if nums[i] {
            let mut m: usize = i;
            assert forall|t: int|
                0 <= t < max_number implies #[trigger] nums@[t] == (t >= 2 && no_divisor_below(
                    t,
                    i as int,
                ) && !(t % (i as int) == 0 && i <= t / (i as int) < m)) by {
                assert(!(i <= t / (i as int) < m));
            }
            while m <= (max_number - 1) / i
                invariant
                    2 <= i < max_number,
                    i * i < max_number,
                    i <= m,
                    nums@.len() == max_number,
                    forall|t: int|
                        0 <= t < max_number ==> #[trigger] nums@[t] == (t >= 2 && no_divisor_below(
                            t,
                            i as int,
                        ) && !(t % (i as int) == 0 && i <= t / (i as int) < m)),
                decreases max_number - m,
            {
                proof {
                    lemma_fundamental_div_mod((max_number - 1) as int, i as int);
                    let q = (max_number - 1) as int / i as int;
                    assert(m * i <= max_number - 1 && m * i >= m) by (nonlinear_arith)
                        requires
                            max_number - 1 == i * q + (max_number - 1) % (i as int),
                            0 <= (max_number - 1) % (i as int),
                            m <= q,
                            i >= 2,
                    ;
                }
                let ghost before = nums@;
                nums.set(m * i, false);
                proof {
                    let mi: int = m * i;
                    lemma_mod_multiples_basic(m as int, i as int);
                    vstd::arithmetic::div_mod::lemma_div_multiples_vanish(m as int, i as int);
                    assert(mi % (i as int) == 0);
                    assert(mi / (i as int) == m);
                    assert forall|t: int| 0 <= t < max_number implies #[trigger] nums@[t] == (t >= 2
                        && no_divisor_below(t, i as int) && !(t % (i as int) == 0 && i <= t
                        / (i as int) < m + 1)) by {
                        if t == mi {
                            assert(nums@[t] == false);
                        } else {
                            assert(nums@[t] == before[t]);
                            if t % (i as int) == 0 && t / (i as int) == m {
                                lemma_fundamental_div_mod(t, i as int);
                                assert(t == mi);
                            }
                        }
                    }
                }
                m = m + 1;
            }
            proof {
                assert forall|t: int| 0 <= t < max_number implies #[trigger] nums@[t] == (t >= 2
                    && no_divisor_below(t, i + 1)) by {
                    if t >= 2 && no_divisor_below(t, i as int) && t % (i as int) == 0 && i < t {
                        lemma_quotient_divides(t, i as int);
                        let e = t / (i as int);
                        if e < i {
                            assert(2 <= e) by (nonlinear_arith)
                                requires
                                    t == i * e,
                                    i < t,
                                    e > 0,
                            ;
                            lemma_mod_multiples_basic(i as int, e);
                            assert(t % e == 0);
                            assert(e < t) by (nonlinear_arith)
                                requires
                                    t == i * e,
                                    i >= 2,
                                    e > 0,
                            ;
                        } else {
                            lemma_fundamental_div_mod((max_number - 1) as int, i as int);
                            assert(e <= (max_number - 1) / (i as int)) by {
                                vstd::arithmetic::div_mod::lemma_div_is_ordered(
                                    t,
                                    (max_number - 1) as int,
                                    i as int,
                                );
                            }
                        }
                    }
                }
            }
        } else {
            proof {
                assert(!no_divisor_below(i as int, i as int));
                let d = choose|d: int| 2 <= d < i && #[trigger] ((i as int) % d) == 0;
                assert forall|t: int| 0 <= t < max_number implies #[trigger] nums@[t] == (t >= 2
                    && no_divisor_below(t, i + 1)) by {
                    if t >= 2 && t % (i as int) == 0 && i < t {
                        lemma_divides_trans(t, i as int, d);
                        assert(t % d == 0);
                    }
                }
            }
        }
        i = i + 1;
    }
    proof {
        assert forall|t: int| 0 <= t < max_number implies #[trigger] nums@[t] == is_prime(t) by {
            if nums@[t] {
                if i >= max_number {
                    assert(no_divisor_below(t, i as int));
                    assert forall|d: int| 2 <= d < t implies #[trigger] (t % d) != 0 by {
                        assert(d < i);
                    }
                } else {
                    lemma_fundamental_div_mod((max_number - 1) as int, i as int);
                    let q = (max_number - 1) as int / i as int;
                    assert(q < i);
                    assert(i * q <= i * (i - 1)) by (nonlinear_arith)
                        requires
                            q <= i - 1,
                            i >= 2,
                    ;
                    assert(t < i * i) by (nonlinear_arith)
                        requires
                            max_number - 1 == i * q + (max_number - 1) % (i as int),
                            (max_number - 1) % (i as int) < i,
                            i * q <= i * (i - 1),
                            t < max_number,
                            i >= 2,
                    ;
                    lemma_no_small_divisor_prime(t, i as int);
                }
            }
        }
    }
    let mut r: Vec<u64> = Vec::new();
    let mut k: usize = 0;
    while k < max_number
        invariant
            k <= max_number,
            nums@.len() == max_number,
            forall|t: int| 0 <= t < max_number ==> #[trigger] nums@[t] == is_prime(t),
            forall|a: int| 0 <= a < r@.len() ==> is_prime(r@[a] as int) && r@[a] < k,
            forall|a: int, b: int| 0 <= a < b < r@.len() ==> r@[a] < r@[b],
            forall|p: int| is_prime(p) && p < k ==> r@.contains(p as u64),
        decreases max_number - k,
    {
        if nums[k] {
            let ghost before = r@;
            r.push(k as u64);
            proof {
                assert forall|p: int| is_prime(p) && p < k + 1 implies r@.contains(p as u64) by {
                    if p < k {
                        let a = choose|a: int| 0 <= a < before.len() && before[a] == p as u64;
                        assert(r@[a] == p as u64);
                    } else {
                        assert(r@[before.len() as int] == p as u64);
                    }
                }
            }
        }
        k = k + 1;
    }
    r
}

} // verus!
