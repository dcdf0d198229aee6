//! The sieve of Eratosthenes over a buffer of candidates.

use vstd::prelude::*;
use crate::numable::Numable;
use crate::primes::{
    is_prime, lemma_divides_trans, lemma_prime_without_small_divisor, lemma_primes_upto_unique,
    lists_primes_upto,
    no_divisor_below,
};

verus! {

/// What striking the multiples of `prime` leaves in a slot that holds `v`.
pub open spec fn strike(v: usize, prime: usize) -> usize {
    if v % prime == 0 {
        0
    } else {
        v
    }
}

/// The candidate buffer once every multiple of a number in `[2, k)` is struck: slot `j`
/// stands for `j + 2`, and holds that value while it has no divisor in `[2, k)`, 0 after.
pub open spec fn struck_below(c: Seq<usize>, k: int) -> bool {
    forall|j: int|
        0 <= j < c.len() ==> #[trigger] c[j] == (if no_divisor_below(j + 2, k) {
            (j + 2) as usize
        } else {
            0usize
        })
}

/// Strikes the multiples of `prime` out of `candidate`: each slot that `prime` divides is
/// set to 0 (a slot that is 0 already stays 0), and every other slot keeps its value.
pub fn sieve(prime: usize, candidate: &mut [usize])
    requires
        prime > 0,
    ensures
        final(candidate)@ == old(candidate)@.map_values(|v: usize| strike(v, prime)),
{
    let mut i: usize = 0;
    while i < candidate.len()
        invariant
            prime > 0,
            candidate@.len() == old(candidate)@.len(),
            0 <= i <= candidate@.len(),
            forall|j: int| 0 <= j < i ==> #[trigger] candidate@[j] == strike(old(candidate)@[j], prime),
            forall|j: int| i <= j < candidate@.len() ==> #[trigger] candidate@[j] == old(candidate)@[j],
        decreases candidate@.len() - i,
    {
        if candidate[i] % prime == 0 {
            candidate[i] = 0;
        }
        i += 1;
    }
    assert(candidate@ =~= old(candidate)@.map_values(|v: usize| strike(v, prime)));
}

/// The candidates `[2, 3, ..., n]`, slot `j` holding `j + 2`.
fn initial_candidates(n: usize) -> (c: Vec<usize>)
    requires
        n >= 2,
    ensures
        c@.len() == n - 1,
        struck_below(c@, 2),
{
    let mut c: Vec<usize> = Vec::new();
    let mut j: usize = 0;
    while j < n - 1
        invariant
            n >= 2,
            j <= n - 1,
            c@.len() == j,
            forall|i: int| 0 <= i < j ==> #[trigger] c@[i] == i + 2,
        decreases n - 1 - j,
    {
        c.push(j + 2);
        j += 1;
    }
    c
}

/// The index of the first slot at or after `from` that is not struck, if there is one.
fn next_live(candidate: &Vec<usize>, from: usize) -> (r: Option<usize>)
    ensures
        match r {
            Some(k) => {
                &&& from <= k < candidate@.len()
                &&& candidate@[k as int] != 0
                &&& forall|j: int| from <= j < k ==> #[trigger] candidate@[j] == 0
            },
            None => forall|j: int| from <= j < candidate@.len() ==> #[trigger] candidate@[j] == 0,
        },
{
    let mut k: usize = from;
    while k < candidate.len()
        invariant
            from <= k,
            forall|j: int| from <= j < k && j < candidate@.len() ==> #[trigger] candidate@[j] == 0,
        decreases candidate@.len() - k,
    {
        if candidate[k] != 0 {
            return Some(k);
        }
        k += 1;
    }
    None
}

/// Where no number in `(p, c)` escapes a divisor in `[2, p]`, a number without a divisor in
/// `[2, p]` has none in `[2, c)` either.
proof fn lemma_no_divisor_past_struck(m: int, p: int, c: int)
    requires
        no_divisor_below(m, p + 1),
        forall|v: int| p < v < c ==> !#[trigger] no_divisor_below(v, p + 1),
    ensures
        no_divisor_below(m, c),
{
    assert forall|d: int| 2 <= d < c implies #[trigger] (m % d) != 0 by {
        if d > p {
            assert(!no_divisor_below(d, p + 1));
            let e = choose|e: int| 2 <= e < p + 1 && #[trigger] (d % e) == 0;
            if m % d == 0 {
                lemma_divides_trans(m, d, e);
            }
        }
    }
}

/// All primes up to `n`, in ascending order.
pub fn find_primes(n: usize) -> (primes: Vec<usize>)
    ensures
        lists_primes_upto(primes@, n as int),
{
    let mut primes: Vec<usize> = Vec::new();
    if n < 2 {
        return primes;
    }
    let mut candidate = initial_candidates(n);
    let mut prime: usize = 2;
    loop
        invariant
            2 <= prime <= n,
            candidate@.len() == n - 1,
            struck_below(candidate@, prime as int),
            is_prime(prime as int),
            lists_primes_upto(primes@, prime - 1),
        ensures
            2 <= prime <= n,
            prime * prime > n,
            candidate@.len() == n - 1,
            struck_below(candidate@, prime as int),
            lists_primes_upto(primes@, prime - 1),
        decreases n - prime,
    {
        let ghost before = primes@;
        primes.push(prime);
        assert(lists_primes_upto(primes@, prime as int)) by {
            assert forall|q: int| 2 <= q <= prime && #[trigger] is_prime(q) implies exists|i: int|
                0 <= i < primes@.len() && primes@[i] == q by {
                if q == prime {
                    assert(primes@[before.len() as int] == q);
                } else {
                    let i = choose|i: int| 0 <= i < before.len() && before[i] == q;
                    assert(primes@[i] == q);
                }
            }
        }
        let ghost unstruck = candidate@;
        sieve(prime, candidate.as_mut_slice());
        assert(struck_below(candidate@, prime + 1)) by {
            assert forall|j: int| 0 <= j < candidate@.len() implies #[trigger] candidate@[j] == (
            if no_divisor_below(j + 2, prime + 1) {
                (j + 2) as usize
            } else {
                0usize
            }) by {
                assert(unstruck[j] == (if no_divisor_below(j + 2, prime as int) {
                    (j + 2) as usize
                } else {
                    0usize
                }));
            }
        }
        match next_live(&candidate, prime - 1) {
            None => {
                assert(lists_primes_upto(primes@, n as int)) by {
                    assert forall|q: int| 2 <= q <= n && #[trigger] is_prime(q) implies exists|i: int|
                        0 <= i < primes@.len() && primes@[i] == q by {
                        if q > prime {
                            assert(candidate@[q - 2] == 0);
                        }
                    }
                }
                return primes;
            },
            Some(k) => {
                let c = k + 2;
                proof {
                    assert forall|v: int| prime < v < c implies !#[trigger] no_divisor_below(v, prime + 1) by {
                        assert(candidate@[v - 2] == 0);
                    }
                    assert(candidate@[k as int] != 0);
                    lemma_no_divisor_past_struck(c as int, prime as int, c as int);
                    assert forall|j: int| 0 <= j < candidate@.len() implies #[trigger] candidate@[j] == (
                    if no_divisor_below(j + 2, c as int) {
                        (j + 2) as usize
                    } else {
                        0usize
                    }) by {
                        if no_divisor_below(j + 2, prime + 1) {
                            lemma_no_divisor_past_struck(j + 2, prime as int, c as int);
                        }
                    }
                    assert forall|q: int| 2 <= q <= c - 1 && #[trigger] is_prime(q) implies exists|i: int|
                        0 <= i < primes@.len() && primes@[i] == q by {
                        if q > prime {
                            assert(candidate@[q - 2] == 0);
                        }
                    }
                }
                prime = c;
                match c.checked_mul(c) {
                    None => break,
                    Some(square) => {
                        if square > n {
                            break;
                        }
                    },
                }
            },
        }
    }
    let mut idx: usize = prime - 2;
    while idx < candidate.len()
        invariant
            2 <= prime <= n,
            prime * prime > n,
            candidate@.len() == n - 1,
            struck_below(candidate@, prime as int),
            prime - 2 <= idx <= candidate@.len(),
            lists_primes_upto(primes@, idx + 1),
        decreases candidate@.len() - idx,
    {
        let value = candidate[idx];
        assert(candidate@[idx as int] == value);
        if value != 0 {
            let ghost before = primes@;
            proof {
                lemma_prime_without_small_divisor(idx + 2, prime as int);
            }
            primes.push(value);
            assert(lists_primes_upto(primes@, idx + 2)) by {
                assert forall|q: int| 2 <= q <= idx + 2 && #[trigger] is_prime(q) implies exists|i: int|
                    0 <= i < primes@.len() && primes@[i] == q by {
                    if q == idx + 2 {
                        assert(primes@[before.len() as int] == q);
                    } else {
                        let i = choose|i: int| 0 <= i < before.len() && before[i] == q;
                        assert(primes@[i] == q);
                    }
                }
            }
        }
        idx += 1;
    }
    primes
}

/// All primes up to `number`, a bound given in any primitive integer type: the same list
/// that `find_primes` gives for its value as a `usize`.
pub fn prime_serch<N: Numable>(number: N) -> (primes: Vec<usize>)
    requires
        0 <= number.num_value() <= usize::MAX,
    ensures
        lists_primes_upto(primes@, number.num_value()),
{
    find_primes(number.to_num())
}

/// A bound normalised from any supported integer type gives the same list of primes as the
/// same value given directly as a `usize`: what `prime_serch` returns for `x` is what
/// `find_primes` returns for `n`.
pub proof fn lemma_normalized_bound_same_primes<N: Numable>(
    x: N,
    n: usize,
    from_x: Seq<usize>,
    from_n: Seq<usize>,
)
    requires
        x.num_value() == n as int,
        lists_primes_upto(from_x, x.num_value()),
        lists_primes_upto(from_n, n as int),
    ensures
        from_x == from_n,
{
    lemma_primes_upto_unique(n as int, from_x, from_n);
}

} // verus!
