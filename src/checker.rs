use vstd::prelude::*;
use crate::combo::{
    all_carry, closure_holds, first_actions, get_base_damages, lists, Hosei, HoseiError, Waza,
};
use crate::factor::{
    lemma_factors_from, no_divisor_in, prime_factorization, prime_factors, product,
};
use crate::primes::is_prime;
use crate::split::{all_splits, same_pair, split_pairs};
use crate::vote::{is_most_frequent, lemma_most_frequent_unique, most_frequent};

verus! {

/// Ratios are kept as fixed-point integers with four decimal digits.
pub const SCALE: u128 = 10000;

/// The rise from `before` to `after` as a fraction of `before`, times
/// `SCALE`, truncated; a drop scales to zero.
pub open spec fn scaled(before: u64, after: u64) -> int {
    if after <= before {
        0
    } else {
        (after - before) * (SCALE as int) / (before as int)
    }
}

/// What a combo of at least two actions proposes: the scaled ratio of its
/// second damage to its first, or why there is none.
pub open spec fn combo_outcome(combo: Seq<Waza>) -> Result<u64, HoseiError> {
    if combo[0].dm == 0 {
        Err(HoseiError::DegenerateSequence)
    } else if scaled(combo[0].dm, combo[1].dm) > usize::MAX {
        Err(HoseiError::RatioOutOfRange)
    } else {
        Ok(scaled(combo[0].dm, combo[1].dm) as u64)
    }
}

/// Both members of every pair, pair after pair.
pub open spec fn pair_votes(pairs: Seq<(u64, u64)>) -> Seq<u64>
    decreases pairs.len(),
{
    if pairs.len() == 0 {
        Seq::empty()
    } else {
        pair_votes(pairs.drop_last()) + seq![pairs.last().0, pairs.last().1]
    }
}

/// The candidate factors that the combos of at least two actions propose,
/// combo after combo.
pub open spec fn votes_of(combos: Seq<Vec<Waza>>) -> Seq<u64>
    decreases combos.len(),
{
    if combos.len() == 0 {
        Seq::empty()
    } else {
        let c = combos.last()@;
        let prev = votes_of(combos.drop_last());
        if c.len() >= 2 {
            match combo_outcome(c) {
                Ok(v) => prev + pair_votes(all_splits(prime_factors(v))),
                Err(_) => prev,
            }
        } else {
            prev
        }
    }
}

/// The failure of the first combo of at least two actions that proposes
/// nothing, if any.
pub open spec fn first_error(combos: Seq<Vec<Waza>>) -> Option<HoseiError>
    decreases combos.len(),
{
    if combos.len() == 0 {
        None
    } else {
        match first_error(combos.drop_last()) {
            Some(e) => Some(e),
            None => {
                let c = combos.last()@;
                if c.len() >= 2 {
                    match combo_outcome(c) {
                        Ok(_) => None,
                        Err(e) => Some(e),
                    }
                } else {
                    None
                }
            },
        }
    }
}

/// Why the combos admit no inference, in the order the checks are made.
pub open spec fn failure(combos: Seq<Vec<Waza>>) -> Option<HoseiError> {
    if !closure_holds(combos) {
        Some(HoseiError::ClosureViolation)
    } else if first_error(combos).is_some() {
        first_error(combos)
    } else if votes_of(combos).len() == 0 {
        Some(HoseiError::NoInference)
    } else {
        None
    }
}

/// The checker `h` holds the combos and one entry per first action, each
/// carrying the most frequent candidate factor as its base multiplier.
pub open spec fn built_from(combos: Seq<Vec<Waza>>, h: HoseiChecker) -> bool {
    &&& h.target@ == combos
    &&& lists(h.result@, first_actions(combos))
    &&& exists|v: u64|
        is_most_frequent(votes_of(combos), v) && all_carry(h.result@, Hosei::with_base(v))
}

/// The entries as a map from identifier to damage and multipliers.
pub open spec fn result_view(entries: Seq<Waza>) -> Map<Seq<char>, (u64, Option<Hosei>)> {
    Map::new(
        |id: Seq<char>| exists|t: int| 0 <= t < entries.len() && (#[trigger] entries[t]).id@ == id,
        |id: Seq<char>|
            {
                let t = choose|t: int| 0 <= t < entries.len() && (#[trigger] entries[t]).id@ == id;
                (entries[t].dm, entries[t].hs)
            },
    )
}

/// The rise from `before` to `after` as a fraction of `before`, scaled to
/// four decimal digits and truncated.
pub fn scaled_ratio(before: u64, after: u64) -> (r: u128)
    requires
        before > 0,
    ensures
        r == scaled(before, after),
{
    if after <= before {
        0
    } else {
        ((after - before) as u128) * SCALE / (before as u128)
    }
}

/// The non-trivial ways of writing `value` as a product `a * b` that the
/// prime factors of `value` give, each unordered pair once.
pub fn candidate_pairs(value: u64) -> (r: Vec<(u64, u64)>)
    requires
        value <= usize::MAX,
    ensures
        r@ == all_splits(prime_factors(value)),
        forall|i: int|
            0 <= i < r@.len() ==> (#[trigger] r@[i]).0 * r@[i].1 == value && r@[i].0 != 1 && r@[i].1
                != 1,
        forall|i: int, j: int|
            0 <= i < j < r@.len() ==> !same_pair(r@[i], r@[j].0 as int, r@[j].1 as int),
{
    let elements = prime_factorization(value);
    proof {
        if value >= 1 {
            lemma_factors_from(value, 2);
        }
        assert forall|i: int| 0 <= i < elements@.len() implies elements@[i] >= 2 by {
            if value >= 1 {
                assert(is_prime(elements@[i] as int));
            }
        }
    }
    let r = split_pairs(&elements);
    proof {
        if value == 0 {
            assert(product(elements@) == 1);
            if r@.len() > 0 {
                let (a, b) = r@[0];
                assert(a * b == 1 && a != 1 && b != 1);
                assert(false) by (nonlinear_arith)
                    requires
                        a * b == 1,
                        a != 1,
                        b != 1,
                        a >= 0,
                        b >= 0,
                ;
            }
        }
    }
    r
}

/// The candidate pairs that a combo of at least two actions proposes, or
/// why it proposes none.
pub fn combo_candidates(combo: &Vec<Waza>) -> (r: Result<Vec<(u64, u64)>, HoseiError>)
    requires
        combo@.len() >= 2,
    ensures
        match combo_outcome(combo@) {
            Ok(v) => r matches Ok(p) && p@ == all_splits(prime_factors(v)),
            Err(e) => r == Err::<Vec<(u64, u64)>, HoseiError>(e),
        },
{
    let before_damage = combo[0].dm;
    if before_damage == 0 {
        return Err(HoseiError::DegenerateSequence);
    }
    let value = scaled_ratio(before_damage, combo[1].dm);
    if value > usize::MAX as u128 {
        return Err(HoseiError::RatioOutOfRange);
    }
    Ok(candidate_pairs(value as u64))
}

/// The combos and, for each identifier that starts a combo of at least two
/// actions, its entry with the inferred correction multipliers.
pub struct HoseiChecker {
    pub target: Vec<Vec<Waza>>,
    pub result: Vec<Waza>,
}

impl HoseiChecker {
    /// Builds the entries for `combos` and infers the base multiplier that
    /// they all share: the candidate factor proposed most often over all
    /// combos, the smallest on a tie.
    pub fn new(combos: Vec<Vec<Waza>>) -> (r: Result<HoseiChecker, HoseiError>)
        ensures
            match r {
                Ok(h) => failure(combos@).is_none() && built_from(combos@, h),
                Err(e) => failure(combos@) == Some(e),
            },
    {
        let ghost cs = combos@;
        let (combos, commands) = match get_base_damages(combos) {
            Ok(pair) => pair,
            Err(e) => return Err(e),
        };
        let mut hosei_checker = HoseiChecker { target: combos, result: commands };
        let ghost before = hosei_checker.result@;
        match hosei_checker.calculate() {
            Ok(()) => {
                proof {
                    lemma_lists_same_keys(before, hosei_checker.result@, first_actions(cs));
                }
                Ok(hosei_checker)
            },
            Err(e) => Err(e),
        }
    }

    /// Collects the candidate factors of every combo of at least two actions
    /// and writes the most frequent one into the base multiplier of every
    /// entry.
    fn calculate(&mut self) -> (r: Result<(), HoseiError>)
        requires
            all_carry(old(self).result@, Hosei::identity_spec()),
        ensures
            final(self).target@ == old(self).target@,
            match r {
                Ok(()) => first_error(old(self).target@).is_none() && votes_of(old(self).target@).len()
                    > 0 && final(self).result@.len() == old(self).result@.len() && (forall|t: int|
                    0 <= t < old(self).result@.len() ==> (#[trigger] final(self).result@[t]).id@
                        == old(self).result@[t].id@ && final(self).result@[t].dm
                        == old(self).result@[t].dm) && exists|v: u64|
                    is_most_frequent(votes_of(old(self).target@), v) && all_carry(
                        final(self).result@,
                        Hosei::with_base(v),
                    ),
                Err(e) => (first_error(old(self).target@) == Some(e) || (first_error(
                    old(self).target@,
                ).is_none() && votes_of(old(self).target@).len() == 0 && e
                    == HoseiError::NoInference)) && final(self).result@ == old(self).result@,
            },
    {
        let ghost cs = self.target@;
        let mut votes: Vec<u64> = Vec::new();
        let mut i: usize = 0;
        while i < self.target.len()
            invariant
                cs == self.target@,
                i <= cs.len(),
                votes@ == votes_of(cs.take(i as int)),
                first_error(cs.take(i as int)).is_none(),
            decreases cs.len() - i,
        {
            proof {
                assert(cs.take(i + 1).drop_last() =~= cs.take(i as int));
                assert(cs.take(i + 1).last() == cs[i as int]);
            }
            let combo = &self.target[i];
            if combo.len() >= 2 {
                let pairs = match combo_candidates(combo) {
                    Ok(p) => p,
                    Err(e) => {
                        proof {
                            lemma_first_error_prefix(cs, i + 1);
                        }
                        return Err(e);
                    },
                };
                let ghost start = votes@;
                let mut t: usize = 0;
                while t < pairs.len()
                    invariant
                        t <= pairs@.len(),
                        votes@ == start + pair_votes(pairs@.take(t as int)),
                    decreases pairs@.len() - t,
                {
                    proof {
                        assert(pairs@.take(t + 1).drop_last() =~= pairs@.take(t as int));
                        assert(pairs@.take(t + 1).last() == pairs@[t as int]);
                    }
                    votes.push(pairs[t].0);
                    votes.push(pairs[t].1);
                    proof {
                        assert(votes@ =~= start + pair_votes(pairs@.take(t + 1)));
                    }
                    t = t + 1;
                }
                proof {
                    assert(pairs@.take(pairs@.len() as int) =~= pairs@);
                }
            }
            i = i + 1;
        }
        proof {
            assert(cs.take(cs.len() as int) =~= cs);
        }
        let base_hosei = match most_frequent(&votes) {
            Some(v) => v,
            None => return Err(HoseiError::NoInference),
        };
        let ghost old_result = self.result@;
        let mut t: usize = 0;
        while t < self.result.len()
            invariant
                cs == self.target@,
                t <= self.result@.len(),
                self.result@.len() == old_result.len(),
                all_carry(old_result, Hosei::identity_spec()),
                forall|u: int|
                    0 <= u < old_result.len() ==> (#[trigger] self.result@[u]).id@ == old_result[u].id@
                        && self.result@[u].dm == old_result[u].dm,
                forall|u: int| t <= u < old_result.len() ==> (#[trigger] self.result@[u]) == old_result[u],
                forall|u: int|
                    0 <= u < t ==> (#[trigger] self.result@[u]).hs == Some(Hosei::with_base(base_hosei)),
            decreases old_result.len() - t,
        {
            let hs = match self.result[t].hs {
                Some(h) => Some(Hosei { base: base_hosei, ..h }),
                None => None,
            };
            let waza = Waza { id: self.result[t].id.clone(), dm: self.result[t].dm, hs };
            self.result.set(t, waza);
            t = t + 1;
        }
        Ok(())
    }
}

/// Entries with the same identifiers and damages, position by position,
/// list the same map.
proof fn lemma_lists_same_keys(e1: Seq<Waza>, e2: Seq<Waza>, m: Map<Seq<char>, u64>)
    requires
        lists(e1, m),
        e1.len() == e2.len(),
        forall|t: int|
            0 <= t < e1.len() ==> (#[trigger] e2[t]).id@ == e1[t].id@ && e2[t].dm == e1[t].dm,
    ensures
        lists(e2, m),
{
    assert forall|a: int, b: int| 0 <= a < b < e2.len() implies e2[a].id@ != e2[b].id@ by {
        assert(e1[a].id@ != e1[b].id@);
    }
    assert forall|t: int| 0 <= t < e2.len() implies m.contains_key((#[trigger] e2[t]).id@)
        && m[e2[t].id@] == e2[t].dm by {
        assert(m.contains_key(e1[t].id@));
    }
    assert forall|id: Seq<char>| #[trigger] m.contains_key(id) implies exists|t: int|
        0 <= t < e2.len() && (#[trigger] e2[t]).id@ == id by {
        let t = choose|t: int| 0 <= t < e1.len() && (#[trigger] e1[t]).id@ == id;
        assert(e2[t].id@ == id);
    }
}

/// Once a prefix of the combos fails, every longer prefix fails the same way.
proof fn lemma_first_error_prefix(cs: Seq<Vec<Waza>>, i: int)
    requires
        0 < i <= cs.len(),
        first_error(cs.take(i)).is_some(),
    ensures
        first_error(cs) == first_error(cs.take(i)),
    decreases cs.len() - i,
{
    if i == cs.len() {
        assert(cs.take(i) =~= cs);
    } else {
        assert(cs.take(i + 1).drop_last() =~= cs.take(i));
        lemma_first_error_prefix(cs, i + 1);
    }
}

/// The prime factors of a positive scaled ratio are primes whose product
/// gives the scaled ratio back.
pub proof fn lemma_scaled_factorization(before: u64, after: u64)
    requires
        before > 0,
        1 <= scaled(before, after) <= u64::MAX,
    ensures
        product(prime_factors(scaled(before, after) as u64)) == scaled(before, after),
        forall|i: int|
            0 <= i < prime_factors(scaled(before, after) as u64).len() ==> is_prime(
                #[trigger] prime_factors(scaled(before, after) as u64)[i] as int,
            ),
{
    let n = scaled(before, after) as u64;
    assert(no_divisor_in(n, 2, 2));
    lemma_factors_from(n, 2);
}

/// Combos in which an action that follows never starts a combo are refused
/// before any ratio is looked at.
pub proof fn lemma_closure_checked_first(combos: Seq<Vec<Waza>>)
    requires
        !closure_holds(combos),
    ensures
        failure(combos) == Some(HoseiError::ClosureViolation),
{
}

/// Two checkers built from the same combos hold the same combos and the
/// same entries.
pub proof fn lemma_pipeline_deterministic(combos: Seq<Vec<Waza>>, h1: HoseiChecker, h2: HoseiChecker)
    requires
        built_from(combos, h1),
        built_from(combos, h2),
    ensures
        h1.target@ == h2.target@,
        result_view(h1.result@) == result_view(h2.result@),
{
    let v1 = choose|v: u64| is_most_frequent(votes_of(combos), v) && all_carry(h1.result@, Hosei::with_base(v));
    let v2 = choose|v: u64| is_most_frequent(votes_of(combos), v) && all_carry(h2.result@, Hosei::with_base(v));
    lemma_most_frequent_unique(votes_of(combos), v1, v2);
    let m = first_actions(combos);
    let e1 = h1.result@;
    let e2 = h2.result@;
    assert forall|id: Seq<char>| result_view(e1).contains_key(id) <==> result_view(e2).contains_key(id) by {
        if result_view(e1).contains_key(id) {
            let t = choose|t: int| 0 <= t < e1.len() && (#[trigger] e1[t]).id@ == id;
            assert(m.contains_key(e1[t].id@));
        }
        if result_view(e2).contains_key(id) {
            let t = choose|t: int| 0 <= t < e2.len() && (#[trigger] e2[t]).id@ == id;
            assert(m.contains_key(e2[t].id@));
        }
    }
    assert forall|id: Seq<char>| result_view(e1).contains_key(id) implies result_view(e1)[id]
        == result_view(e2)[id] by {
        let t1 = choose|t: int| 0 <= t < e1.len() && (#[trigger] e1[t]).id@ == id;
        let t2 = choose|t: int| 0 <= t < e2.len() && (#[trigger] e2[t]).id@ == id;
        assert(e1[t1].dm == m[id]);
        assert(e2[t2].dm == m[id]);
    }
    assert(result_view(e1) =~= result_view(e2));
}

} // verus!
