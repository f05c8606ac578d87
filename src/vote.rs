use vstd::prelude::*;

verus! {

/// How many times `x` occurs in `s`.
pub open spec fn count(s: Seq<u64>, x: u64) -> nat
    decreases s.len(),
{
    if s.len() == 0 {
        0
    } else {
        count(s.drop_last(), x) + if s.last() == x {
            1nat
        } else {
            0nat
        }
    }
}

/// `v` occurs in `s`, no value occurs more often, and every value that occurs
/// as often is at least `v`: the most frequent value, ties going to the
/// smallest.
pub open spec fn is_most_frequent(s: Seq<u64>, v: u64) -> bool {
    count(s, v) > 0 && forall|x: u64|
        #![trigger count(s, x)]
        count(s, x) <= count(s, v) && (count(s, x) == count(s, v) ==> v <= x)
}

/// A value occurs no more often than the sequence is long.
pub proof fn lemma_count_le_len(s: Seq<u64>, x: u64)
    ensures
        count(s, x) <= s.len(),
    decreases s.len(),
{
    if s.len() > 0 {
        lemma_count_le_len(s.drop_last(), x);
    }
}

/// At most one value of a sequence is its most frequent one.
pub proof fn lemma_most_frequent_unique(s: Seq<u64>, v: u64, w: u64)
    requires
        is_most_frequent(s, v),
        is_most_frequent(s, w),
    ensures
        v == w,
{
    assert(count(s, w) <= count(s, v));
    assert(count(s, v) <= count(s, w));
}

/// The value that occurs most often in `votes`, the smallest such value on
/// a tie, or `None` when there are no votes.
pub fn most_frequent(votes: &Vec<u64>) -> (r: Option<u64>)
    ensures
        r.is_none() <==> votes@.len() == 0,
        r matches Some(v) ==> is_most_frequent(votes@, v),
{
    let ghost s = votes@;
    let mut tally: Vec<(u64, usize)> = Vec::new();
    let mut i: usize = 0;
    while i < votes.len()
        invariant
            s == votes@,
            i <= s.len(),
            tally@.len() <= i,
            forall|t: int|
                0 <= t < tally@.len() ==> (#[trigger] tally@[t]).1 == count(s.take(i as int), tally@[t].0)
                    && tally@[t].1 >= 1,
            forall|t1: int, t2: int|
                0 <= t1 < t2 < tally@.len() ==> tally@[t1].0 != tally@[t2].0,
            forall|x: u64|
                #![trigger count(s.take(i as int), x)]
                count(s.take(i as int), x) > 0 ==> exists|t: int|
                    0 <= t < tally@.len() && (#[trigger] tally@[t]).0 == x,
        decreases s.len() - i,
    {
        let x = votes[i];
        let ghost before = s.take(i as int);
        let ghost after = s.take(i + 1);
        proof {
            assert(after.drop_last() =~= before);
            assert(after.last() == x);
            lemma_count_le_len(before, x);
        }
        let mut t: usize = 0;
        let mut found: bool = false;
        while !found && t < tally.len()
            invariant
                t <= tally@.len(),
                found ==> t < tally@.len() && tally@[t as int].0 == x,
                forall|u: int| 0 <= u < t ==> (#[trigger] tally@[u]).0 != x,
            decreases tally@.len() - t + if found {
                0int
            } else {
                1int
            },
        {
            if tally[t].0 == x {
                found = true;
            } else {
                t = t + 1;
            }
        }
        let ghost old_tally = tally@;
        if found {
            let c = tally[t].1;
            tally.set(t, (x, c + 1));
        } else {
            tally.push((x, 1));
        }
        proof {
            assert forall|y: u64| #![trigger count(after, y)] count(after, y) > 0 implies exists|u: int|
                0 <= u < tally@.len() && (#[trigger] tally@[u]).0 == y by {
                if y == x {
                    if found {
                        assert(tally@[t as int].0 == y);
                    } else {
                        assert(tally@[tally@.len() - 1].0 == y);
                    }
                } else {
                    assert(count(after, y) == count(before, y));
                    assert(count(before, y) > 0);
                    let u = choose|u: int| 0 <= u < old_tally.len() && (#[trigger] old_tally[u]).0 == y;
                    assert(old_tally[u].0 == y);
                    assert(tally@[u] == old_tally[u]);
                }
            }
            if !found {
                if count(before, x) > 0 {
                    let u = choose|u: int| 0 <= u < tally@.len() - 1 && (#[trigger] tally@[u]).0 == x;
                    assert(tally@[u].0 == x);
                }
            }
        }
        i = i + 1;
    }
    proof {
        assert(s.take(s.len() as int) =~= s);
    }
    if tally.len() == 0 {
        proof {
            if s.len() > 0 {
                assert(count(s, s.last()) > 0);
            }
        }
        return None;
    }
    let mut best_v: u64 = tally[0].0;
    let mut best_c: usize = tally[0].1;
    let mut t: usize = 1;
    while t < tally.len()
        invariant
            1 <= t <= tally@.len(),
            exists|u: int| 0 <= u < t && (#[trigger] tally@[u]) == (best_v, best_c),
            forall|u: int|
                0 <= u < t ==> (#[trigger] tally@[u]).1 < best_c || (tally@[u].1 == best_c
                    && best_v <= tally@[u].0),
        decreases tally@.len() - t,
    {
        let (v, c) = tally[t];
        if c > best_c || (c == best_c && v < best_v) {
            best_v = v;
            best_c = c;
        }
        t = t + 1;
    }
    proof {
        let u0 = choose|u: int| 0 <= u < tally@.len() && (#[trigger] tally@[u]) == (best_v, best_c);
        assert(tally@[u0] == (best_v, best_c));
        assert forall|x: u64| #![trigger count(s, x)]
            count(s, x) <= count(s, best_v) && (count(s, x) == count(s, best_v) ==> best_v <= x) by {
            if count(s, x) > 0 {
                let u = choose|u: int| 0 <= u < tally@.len() && (#[trigger] tally@[u]).0 == x;
                assert(tally@[u].0 == x);
                if u != u0 {
                    assert(tally@[u].0 != best_v);
                }
            }
        }
    }
    Some(best_v)
}

} // verus!
