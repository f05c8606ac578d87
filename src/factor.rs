use vstd::prelude::*;
use vstd::arithmetic::div_mod::lemma_mod_multiples_basic;
use vstd::arithmetic::mul::lemma_mul_is_associative;
use crate::primes::{is_prime, lemma_divides_trans, lemma_prime_divisor, lemma_quotient_divides, sieve_of_eratosthenes};

verus! {

/// The product of a sequence of numbers; the empty product is one.
pub open spec fn product(s: Seq<u64>) -> int
    decreases s.len(),
{
    if s.len() == 0 {
        1
    } else {
        s[0] * product(s.subrange(1, s.len() as int))
    }
}

/// The prime factors of `n` that are at least `d`, smallest first, found by
/// trial division from `d` upwards.
pub open spec fn factors_from(n: u64, d: u64) -> Seq<u64>
    decreases n, n - d,
{
    if n < 2 || d < 2 {
        Seq::empty()
    } else if d >= n {
        seq![n]
    } else if n % d == 0 {
        proof {
            lemma_quotient_divides(n as int, d as int);
            assert(n / d < n) by (nonlinear_arith)
                requires
                    n == d * (n / d),
                    d >= 2,
                    n >= 2,
            ;
        }
        seq![d] + factors_from(n / d, d)
    } else {
        factors_from(n, (d + 1) as u64)
    }
}

/// The prime factorization of `n`, smallest factor first, with multiplicity.
/// Zero and one have no prime factors.
pub open spec fn prime_factors(n: u64) -> Seq<u64> {
    factors_from(n, 2)
}

/// No number in `[lo, hi)` divides `n`.
pub open spec fn no_divisor_in(n: u64, lo: int, hi: int) -> bool {
    forall|x: int| lo <= x < hi ==> #[trigger] ((n as int) % x) != 0
}

/// Appending a factor multiplies the product by it.
pub proof fn lemma_product_push(s: Seq<u64>, x: u64)
    ensures
        product(s.push(x)) == product(s) * x,
    decreases s.len(),
{
    if s.len() == 0 {
        assert(s.push(x).subrange(1, 1) =~= Seq::<u64>::empty());
        assert(product(Seq::<u64>::empty()) == 1);
    } else {
        let t = s.subrange(1, s.len() as int);
        assert(s.push(x).subrange(1, s.len() as int + 1) =~= t.push(x));
        assert(s.push(x)[0] == s[0]);
        lemma_product_push(t, x);
        lemma_mul_is_associative(s[0] as int, product(t), x as int);
    }
}

/// Trial division may skip a range of numbers none of which divides `n`.
proof fn lemma_skip(n: u64, d: u64, e: u64)
    requires
        2 <= d <= e,
        no_divisor_in(n, d as int, e as int),
        n < 2 || e <= n,
    ensures
        factors_from(n, d) == factors_from(n, e),
    decreases e - d,
{
    if d < e && n >= 2 {
        assert((n as int) % (d as int) != 0);
        lemma_skip(n, (d + 1) as u64, e);
    }
}

/// What trial division from `d` yields, when nothing in `[2, d)` divides `n`:
/// primes of at least `d`, in increasing order, whose product is `n`.
pub proof fn lemma_factors_from(n: u64, d: u64)
    requires
        n >= 1,
        d >= 2,
        no_divisor_in(n, 2, d as int),
    ensures
        product(factors_from(n, d)) == n,
        forall|i: int|
            0 <= i < factors_from(n, d).len() ==> is_prime(#[trigger] factors_from(n, d)[i] as int)
                && factors_from(n, d)[i] >= d,
        forall|i: int, j: int|
            0 <= i < j < factors_from(n, d).len() ==> factors_from(n, d)[i] <= factors_from(n, d)[j],
    decreases n, n - d,
{
    let f = factors_from(n, d);
    if n < 2 {
    } else if d >= n {
        assert(f =~= seq![n]);
        assert(f.subrange(1, 1) =~= Seq::<u64>::empty());
        assert(product(Seq::<u64>::empty()) == 1);
        if d > n {
            lemma_mod_multiples_basic(1, n as int);
            assert((n as int) % (n as int) == 0);
        }
        assert forall|x: int| 2 <= x < n implies #[trigger] ((n as int) % x) != 0 by {
            assert(x < d);
        }
    } else if n % d == 0 {
        lemma_quotient_divides(n as int, d as int);
        let m = (n / d) as u64;
        assert forall|x: int| 2 <= x < d implies #[trigger] ((m as int) % x) != 0 by {
            if (m as int) % x == 0 {
                lemma_divides_trans(n as int, m as int, x);
            }
        }
        assert forall|x: int| 2 <= x < d implies #[trigger] ((d as int) % x) != 0 by {
            if (d as int) % x == 0 {
                lemma_divides_trans(n as int, d as int, x);
            }
        }
        assert(m >= 1) by (nonlinear_arith)
            requires
                n == d * m,
                n >= 2,
        ;
        lemma_factors_from(m, d);
        let g = factors_from(m, d);
        assert(f =~= seq![d] + g);
        assert(f.subrange(1, f.len() as int) =~= g);
        assert(f[0] == d);
        assert(product(f) == d * product(g));
        assert forall|i: int| 0 <= i < f.len() implies is_prime(#[trigger] f[i] as int) && f[i] >= d by {
            if i > 0 {
                assert(f[i] == g[i - 1]);
            }
        }
    } else {
        assert forall|x: int| 2 <= x < d + 1 implies #[trigger] ((n as int) % x) != 0 by {
            if x < d {
            } else {
                assert(x == d);
            }
        }
        lemma_factors_from(n, (d + 1) as u64);
    }
}

/// The prime factors of `value`, smallest first, with multiplicity: trial
/// division by each prime below `value`, keeping what is left when that is
/// more than one. Zero and one give no factors.
pub fn prime_factorization(value: u64) -> (r: Vec<u64>)
    requires
        value <= usize::MAX,
    ensures
        r@ == prime_factors(value),
        value >= 1 ==> product(r@) == value,
        forall|i: int| 0 <= i < r@.len() ==> is_prime(#[trigger] r@[i] as int),
        forall|i: int, j: int| 0 <= i < j < r@.len() ==> r@[i] <= r@[j],
{
    proof {
        if value >= 1 {
            lemma_factors_from(value, 2);
        }
    }
    let mut elements: Vec<u64> = Vec::new();
    if value == 0 {
        return elements;
    }
    let primes = sieve_of_eratosthenes(value as usize);
    let ghost n = primes@.len();
    let mut base: u64 = value;
    proof {
        if value >= 3 {
            assert(is_prime(2)) by {
                assert forall|d: int| 2 <= d < 2 implies #[trigger] (2int % d) != 0 by {}
            }
            assert(primes@.contains(2u64));
            let k = choose|k: int| 0 <= k < n && primes@[k] == 2u64;
            assert(primes@[0] >= 2);
            if k > 0 {
                assert(primes@[0] < primes@[k]);
            }
        } else {
            if n > 0 {
                assert(is_prime(primes@[0] as int));
            }
        }
    }
    let mut j: usize = 0;
    while j < primes.len()
        invariant
            forall|i: int| 0 <= i < n ==> is_prime(primes@[i] as int) && primes@[i] < value,
            forall|a: int, b: int| 0 <= a < b < n ==> primes@[a] < primes@[b],
            forall|p: int| is_prime(p) && p < value ==> primes@.contains(p as u64),
            n == primes@.len(),
            j <= n,
            1 <= base <= value,
            elements@ + factors_from(base, (if j < n { primes@[j as int] } else { value }))
                == prime_factors(value),
            no_divisor_in(base, 2, (if j < n { primes@[j as int] } else { value }) as int),
            base >= (if j < n { primes@[j as int] } else { value }) || base < 2,
        decreases n - j,
    {
        let p = primes[j];
        while base % p == 0
            invariant
                forall|i: int| 0 <= i < n ==> is_prime(primes@[i] as int) && primes@[i] < value,
                n == primes@.len(),
                j < n,
                p == primes@[j as int],
                1 <= base <= value,
                elements@ + factors_from(base, p) == prime_factors(value),
                no_divisor_in(base, 2, p as int),
                base >= p || base < 2,
            decreases base,
        {
            proof {
                assert(is_prime(p as int));
                lemma_quotient_divides(base as int, p as int);
                let m = (base / p) as u64;
                if base < 2 {
                    assert(base == 1);
                    vstd::arithmetic::div_mod::lemma_small_mod(1, p as nat);
                }
                assert(base >= p);
                if p < base {
                    assert(factors_from(base, p) == seq![p] + factors_from(m, p));
                } else {
                    assert(m == 1) by (nonlinear_arith)
                        requires
                            base == p * m,
                            base == p,
                            p >= 2,
                    ;
                    assert(factors_from(m, p) =~= Seq::<u64>::empty());
                    assert(factors_from(base, p) =~= seq![p] + factors_from(m, p));
                }
                assert(elements@.push(p) + factors_from(m, p) =~= elements@ + factors_from(base, p));
                assert forall|x: int| 2 <= x < p implies #[trigger] ((m as int) % x) != 0 by {
                    if (m as int) % x == 0 {
                        lemma_divides_trans(base as int, m as int, x);
                    }
                }
                assert(m < base && m >= 1) by (nonlinear_arith)
                    requires
                        base == p * m,
                        base >= 2,
                        p >= 2,
                ;
                if 2 <= m < p {
                    lemma_mod_multiples_basic(1, m as int);
                    assert((m as int) % (m as int) == 0);
                }
            }
            elements.push(p);
            base = base / p;
        }
        let ghost bound = if j + 1 < n { primes@[j + 1] } else { value };
        proof {
            assert(is_prime(p as int));
            assert(p < bound);
            assert forall|x: int| 2 <= x < bound implies #[trigger] ((base as int) % x) != 0 by {
                if x > p && (base as int) % x == 0 {
                    let q = lemma_prime_divisor(x);
                    lemma_divides_trans(base as int, x, q);
                    assert(primes@.contains(q as u64));
                    let k = choose|k: int| 0 <= k < n && primes@[k] == q as u64;
                    if k <= j {
                        if k < j {
                            assert(primes@[k] < primes@[j as int]);
                        }
                    } else if k > j + 1 {
                        assert(primes@[j + 1] < primes@[k]);
                    }
                }
            }
            if 2 <= base < bound {
                lemma_mod_multiples_basic(1, base as int);
                assert((base as int) % (base as int) == 0);
            }
            lemma_skip(base, p, bound as u64);
        }
        j = j + 1;
    }
    if base > 1 {
        elements.push(base);
        proof {
            assert(factors_from(base, value) =~= seq![base]);
        }
    }
    elements
}

} // verus!
