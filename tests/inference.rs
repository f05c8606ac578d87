use hosei_checker::checker::{candidate_pairs, combo_candidates, scaled_ratio, HoseiChecker};
use hosei_checker::combo::{get_base_damages, Hosei, HoseiError, Waza};
use hosei_checker::factor::prime_factorization;
use hosei_checker::primes::sieve_of_eratosthenes;
use hosei_checker::split::{contains_pair, split_pairs};
use hosei_checker::vote::most_frequent;

fn waza(id: &str, dm: u64) -> Waza {
    Waza { id: id.to_string(), dm, hs: None }
}

fn same_up_to_order(p: (u64, u64), a: u64, b: u64) -> bool {
    (p.0 == a && p.1 == b) || (p.0 == b && p.1 == a)
}

#[test]
fn sieve_of_four_finds_two_and_three() {
    assert_eq!(sieve_of_eratosthenes(4), vec![2, 3]);
}

#[test]
fn sieve_of_twenty() {
    assert_eq!(sieve_of_eratosthenes(20), vec![2, 3, 5, 7, 11, 13, 17, 19]);
}

#[test]
fn sieve_marks_squares_of_primes() {
    assert_eq!(sieve_of_eratosthenes(10), vec![2, 3, 5, 7]);
    assert_eq!(sieve_of_eratosthenes(26), vec![2, 3, 5, 7, 11, 13, 17, 19, 23]);
    assert_eq!(sieve_of_eratosthenes(50).len(), 15);
}

#[test]
fn sieve_at_prime_bound_excludes_the_bound() {
    assert_eq!(sieve_of_eratosthenes(13), vec![2, 3, 5, 7, 11]);
}

#[test]
fn sieve_below_two_is_empty() {
    assert!(sieve_of_eratosthenes(0).is_empty());
    assert!(sieve_of_eratosthenes(1).is_empty());
    assert!(sieve_of_eratosthenes(2).is_empty());
    assert_eq!(sieve_of_eratosthenes(3), vec![2]);
}

#[test]
fn factorization_of_fifteen_thousand() {
    assert_eq!(prime_factorization(15000), vec![2, 2, 2, 3, 5, 5, 5, 5]);
}

#[test]
fn factorization_of_a_prime_is_itself() {
    assert_eq!(prime_factorization(7), vec![7]);
    assert_eq!(prime_factorization(2), vec![2]);
}

#[test]
fn factorization_of_zero_and_one_is_empty() {
    assert!(prime_factorization(0).is_empty());
    assert!(prime_factorization(1).is_empty());
}

#[test]
fn factorization_multiplies_back() {
    for value in 1u64..300 {
        let f = prime_factorization(value);
        assert_eq!(f.iter().product::<u64>(), value);
        assert!(f.windows(2).all(|w| w[0] <= w[1]));
    }
}

#[test]
fn scaled_ratio_of_one_and_a_half() {
    assert_eq!(scaled_ratio(100, 250), 15000);
}

#[test]
fn scaled_ratio_truncates() {
    assert_eq!(scaled_ratio(3, 4), 3333);
    assert_eq!(scaled_ratio(100000, 100001), 0);
}

#[test]
fn scaled_ratio_of_a_drop_is_zero() {
    assert_eq!(scaled_ratio(100, 90), 0);
    assert_eq!(scaled_ratio(100, 100), 0);
}

#[test]
fn split_pairs_of_twelve() {
    assert_eq!(split_pairs(&vec![2, 2, 3]), vec![(6, 2), (3, 4)]);
}

#[test]
fn split_pairs_of_a_prime_is_empty() {
    assert!(split_pairs(&vec![7]).is_empty());
    assert!(split_pairs(&vec![]).is_empty());
}

#[test]
fn contains_pair_ignores_order() {
    let pairs = vec![(6, 2), (3, 4)];
    assert!(contains_pair(&pairs, 2, 6));
    assert!(contains_pair(&pairs, 3, 4));
    assert!(!contains_pair(&pairs, 12, 1));
}

#[test]
fn candidate_pairs_multiply_to_value_without_swapped_duplicates() {
    let value = 15000;
    let pairs = candidate_pairs(value);
    assert!(!pairs.is_empty());
    for (i, p) in pairs.iter().enumerate() {
        assert_eq!(p.0 * p.1, value);
        assert!(p.0 != 1 && p.1 != 1);
        for q in &pairs[i + 1..] {
            assert!(!same_up_to_order(*q, p.0, p.1));
        }
    }
    let divisors = (2..value).filter(|d| value % d == 0).count();
    assert_eq!(pairs.len(), divisors / 2);
}

#[test]
fn candidate_pairs_of_square_keeps_equal_sides() {
    assert_eq!(candidate_pairs(49), vec![(7, 7)]);
}

#[test]
fn one_and_a_half_proposes_one_hundred_and_fifty() {
    let combo = vec![waza("A", 100), waza("B", 250)];
    let pairs = combo_candidates(&combo).unwrap();
    assert!(pairs.iter().any(|p| same_up_to_order(*p, 100, 150)));
}

#[test]
fn scenario_with_unclosed_follower_is_refused() {
    let combos = vec![vec![waza("A", 100)], vec![waza("A", 100), waza("B", 250)]];
    assert!(matches!(HoseiChecker::new(combos), Err(HoseiError::ClosureViolation)));
}

#[test]
fn closure_violation_is_reported_before_degenerate_ratio() {
    let combos = vec![vec![waza("A", 0), waza("B", 250)]];
    assert!(matches!(get_base_damages(combos), Err(HoseiError::ClosureViolation)));
    let combos = vec![vec![waza("A", 0), waza("B", 250)]];
    assert!(matches!(HoseiChecker::new(combos), Err(HoseiError::ClosureViolation)));
}

#[test]
fn base_damages_keep_last_first_action() {
    let combos = vec![
        vec![waza("A", 100), waza("A", 150)],
        vec![waza("A", 120), waza("A", 180)],
        vec![waza("Z", 5)],
    ];
    let (target, commands) = get_base_damages(combos).ok().unwrap();
    assert_eq!(target.len(), 3);
    assert_eq!(commands.len(), 1);
    assert_eq!(commands[0].id, "A");
    assert_eq!(commands[0].dm, 120);
    assert_eq!(commands[0].hs, Some(Hosei::identity()));
}

#[test]
fn zero_first_damage_is_degenerate() {
    let combos = vec![vec![waza("A", 0), waza("A", 10)]];
    assert!(matches!(HoseiChecker::new(combos), Err(HoseiError::DegenerateSequence)));
}

#[test]
fn huge_ratio_is_out_of_range() {
    let combos = vec![vec![waza("A", 1), waza("A", u64::MAX)]];
    assert!(matches!(HoseiChecker::new(combos), Err(HoseiError::RatioOutOfRange)));
}

#[test]
fn no_candidates_is_no_inference() {
    let combos = vec![vec![waza("A", 100), waza("A", 100)]];
    assert!(matches!(HoseiChecker::new(combos), Err(HoseiError::NoInference)));
    let combos = vec![vec![waza("A", 100)]];
    assert!(matches!(HoseiChecker::new(combos), Err(HoseiError::NoInference)));
    assert!(matches!(HoseiChecker::new(vec![]), Err(HoseiError::NoInference)));
}

#[test]
fn most_frequent_breaks_ties_to_smallest() {
    assert_eq!(most_frequent(&vec![5, 3, 3, 5, 1]), Some(3));
    assert_eq!(most_frequent(&vec![9, 4, 9]), Some(9));
    assert_eq!(most_frequent(&vec![]), None);
}

#[test]
fn agreeing_combos_outvote_an_outlier() {
    // two combos rise by half, one by 0.77 percent (77 = 7 * 11)
    let combos = vec![
        vec![waza("A", 100), waza("B", 250)],
        vec![waza("B", 200), waza("A", 500)],
        vec![waza("C", 10000), waza("C", 10077)],
    ];
    let hc = HoseiChecker::new(combos).ok().unwrap();
    assert_eq!(hc.result.len(), 3);
    for entry in &hc.result {
        let hs = entry.hs.unwrap();
        assert_eq!(hs.base, 2);
        assert_eq!(15000 % hs.base, 0);
        assert_eq!(hs.first, 100);
        assert_eq!(hs.multi, 100);
        assert_eq!(hs.bonus, 100);
        assert_eq!(hs.repeat, 100);
    }
}

#[test]
fn shared_factor_wins_over_others() {
    // rises of a half, a quarter and seven percent
    let combos = vec![
        vec![waza("A", 100), waza("A", 250)],
        vec![waza("B", 100), waza("B", 225)],
        vec![waza("C", 100), waza("C", 107)],
    ];
    let hc = HoseiChecker::new(combos).ok().unwrap();
    let mut votes: Vec<u64> = Vec::new();
    for v in [15000u64, 12500, 700] {
        for (a, b) in candidate_pairs(v) {
            votes.push(a);
            votes.push(b);
        }
    }
    let expected = most_frequent(&votes).unwrap();
    for entry in &hc.result {
        assert_eq!(entry.hs.unwrap().base, expected);
    }
}

#[test]
fn entries_keep_first_actions_and_damages() {
    let combos = vec![
        vec![waza("A", 100), waza("B", 250)],
        vec![waza("B", 80), waza("A", 200)],
    ];
    let hc = HoseiChecker::new(combos).ok().unwrap();
    assert_eq!(hc.target.len(), 2);
    let mut ids: Vec<(String, u64)> = hc.result.iter().map(|w| (w.id.clone(), w.dm)).collect();
    ids.sort();
    assert_eq!(ids, vec![("A".to_string(), 100), ("B".to_string(), 80)]);
}

#[test]
fn running_twice_gives_the_same_result() {
    let make = || {
        vec![
            vec![waza("A", 100), waza("B", 250)],
            vec![waza("B", 200), waza("A", 500)],
            vec![waza("C", 300), waza("A", 333)],
            vec![waza("A", 100)],
        ]
    };
    let first = HoseiChecker::new(make()).ok().unwrap();
    let second = HoseiChecker::new(make()).ok().unwrap();
    assert_eq!(first.result.len(), second.result.len());
    for (x, y) in first.result.iter().zip(second.result.iter()) {
        assert_eq!(x.id, y.id);
        assert_eq!(x.dm, y.dm);
        assert_eq!(x.hs, y.hs);
    }
}

#[test]
fn new_action_carries_identity() {
    let w = Waza::new(&waza("X", 42));
    assert_eq!(w.id, "X");
    assert_eq!(w.dm, 42);
    assert_eq!(
        w.hs,
        Some(Hosei { base: 100, first: 100, multi: 100, bonus: 100, repeat: 100 })
    );
}
