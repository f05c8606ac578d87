// Infers the base correction factor shared by the combos of a combat
// dataset: each combo's damage ratio is scaled to an integer, factored into
// primes, split every way into two co-factors, and the co-factor proposed
// most often over all combos wins.
//
//   primes   prime numbers and the sieve
//   factor   prime factorization by trial division
//   split    the two-way splits of a multiset of factors
//   vote     frequency count and selection
//   combo    actions, combos and the closure check
//   checker  the inference over a whole dataset

pub mod checker;
pub mod combo;
pub mod factor;
pub mod primes;
pub mod split;
pub mod vote;
