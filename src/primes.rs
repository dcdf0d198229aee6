//! The mathematical model of the sieve: primality, ascending lists of primes, and the facts
//! about divisors that the sieve relies on.

use vstd::prelude::*;
use vstd::arithmetic::div_mod::{lemma_fundamental_div_mod, lemma_mod_multiples_basic, lemma_mod_self_0};
use vstd::arithmetic::mul::{lemma_mul_inequality, lemma_mul_is_associative, lemma_mul_is_commutative};

verus! {

/// `m` has no divisor `d` with `2 <= d < k`.
pub open spec fn no_divisor_below(m: int, k: int) -> bool {
    forall|d: int| 2 <= d < k ==> #[trigger] (m % d) != 0
}

/// `m` is prime: at least 2, and divisible by no integer strictly between 1 and itself.
pub open spec fn is_prime(m: int) -> bool {
    m >= 2 && no_divisor_below(m, m)
}

/// Each element of `s` is smaller than every element after it.
pub open spec fn strictly_increasing(s: Seq<usize>) -> bool {
    forall|i: int, j: int| 0 <= i < j < s.len() ==> s[i] < s[j]
}

/// `s` lists, in ascending order, exactly the primes that are at most `n`.
pub open spec fn lists_primes_upto(s: Seq<usize>, n: int) -> bool {
    &&& strictly_increasing(s)
    &&& forall|i: int| 0 <= i < s.len() ==> is_prime(#[trigger] s[i] as int) && s[i] <= n
    &&& forall|q: int|
        2 <= q <= n && #[trigger] is_prime(q) ==> exists|i: int| 0 <= i < s.len() && s[i] == q
}

/// If `d` divides `m` and `e` divides `d`, then `e` divides `m`.
pub proof fn lemma_divides_trans(m: int, d: int, e: int)
    requires
        d > 0,
        e > 0,
        m % d == 0,
        d % e == 0,
    ensures
        m % e == 0,
{
    lemma_fundamental_div_mod(m, d);
    lemma_fundamental_div_mod(d, e);
    let a = m / d;
    let b = d / e;
    assert(m == (e * b) * a);
    lemma_mul_is_associative(e, b, a);
    lemma_mul_is_commutative(e, b * a);
    lemma_mod_multiples_basic(b * a, e);
}

/// Searching upward from `k`, the first divisor of `m` found is its least divisor above 1.
proof fn least_divisor_from(m: int, k: int) -> (d: int)
    requires
        2 <= k <= m,
        no_divisor_below(m, k),
    ensures
        k <= d <= m,
        m % d == 0,
        no_divisor_below(m, d),
    decreases m - k,
{
    lemma_mod_self_0(m);
    if m % k == 0 {
        k
    } else {
        least_divisor_from(m, k + 1)
    }
}

/// The least divisor `d >= 2` of `m >= 2` is prime, and either it is `m` itself or its
/// square is at most `m`.
pub proof fn lemma_least_divisor(m: int) -> (d: int)
    requires
        m >= 2,
    ensures
        2 <= d <= m,
        m % d == 0,
        no_divisor_below(m, d),
        is_prime(d),
        d == m || d * d <= m,
{
    let d = least_divisor_from(m, 2);
    assert forall|e: int| 2 <= e < d implies #[trigger] (d % e) != 0 by {
        if d % e == 0 {
            lemma_divides_trans(m, d, e);
        }
    }
    if d < m {
        let k = m / d;
        lemma_fundamental_div_mod(m, d);
        assert(m == d * k);
        lemma_mul_is_commutative(d, k);
        if k <= 1 {
            lemma_mul_inequality(k, 1, d);
            assert(false);
        }
        lemma_mod_multiples_basic(d, k);
        assert(m % k == 0);
        assert(k >= d);
        lemma_mul_inequality(d, k, d);
        lemma_mul_is_commutative(k, d);
    }
    d
}

/// A number of at least 2 with no divisor below `p`, where `p * p` exceeds it, is prime.
pub proof fn lemma_prime_without_small_divisor(m: int, p: int)
    requires
        2 <= m,
        2 <= p,
        m < p * p,
        no_divisor_below(m, p),
    ensures
        is_prime(m),
{
    let d = lemma_least_divisor(m);
    if d < m {
        if d >= p {
            lemma_mul_inequality(p, d, p);
            lemma_mul_inequality(p, d, d);
            lemma_mul_is_commutative(p, d);
        }
        assert(m % d != 0);
    }
}

/// Dropping the last element of a strictly increasing sequence removes exactly that value.
proof fn lemma_contains_drop_last(s: Seq<usize>, x: usize)
    requires
        strictly_increasing(s),
        s.len() > 0,
    ensures
        s.drop_last().contains(x) <==> (s.contains(x) && x != s.last()),
{
    if s.drop_last().contains(x) {
        let i = choose|i: int| 0 <= i < s.len() - 1 && s.drop_last()[i] == x;
        assert(s[i] == x);
        assert(s[i] < s[s.len() - 1]);
    }
    if s.contains(x) && x != s.last() {
        let i = choose|i: int| 0 <= i < s.len() && s[i] == x;
        assert(s.drop_last()[i] == x);
    }
}

/// Two strictly increasing sequences that hold the same values are equal.
pub proof fn lemma_sorted_same_values(a: Seq<usize>, b: Seq<usize>)
    requires
        strictly_increasing(a),
        strictly_increasing(b),
        forall|x: usize| a.contains(x) <==> b.contains(x),
    ensures
        a == b,
    decreases a.len(),
{
    if a.len() == 0 {
        if b.len() > 0 {
            assert(b.contains(b[0]));
        }
        assert(a =~= b);
    } else {
        if b.len() == 0 {
            assert(a.contains(a[0]));
        }
        let la = a.last();
        let lb = b.last();
        assert(a.contains(la));
        assert(b.contains(lb));
        let i = choose|i: int| 0 <= i < a.len() && a[i] == lb;
        let j = choose|j: int| 0 <= j < b.len() && b[j] == la;
        assert(lb <= la);
        assert(la <= lb);
        let a2 = a.drop_last();
        let b2 = b.drop_last();
        assert forall|x: usize| a2.contains(x) <==> b2.contains(x) by {
            lemma_contains_drop_last(a, x);
            lemma_contains_drop_last(b, x);
        }
        lemma_sorted_same_values(a2, b2);
        assert(a =~= a2.push(la));
        assert(b =~= b2.push(lb));
    }
}

/// There is only one list of the primes up to a bound: two sequences that both list them are
/// the same sequence. Sieving the same bound twice therefore gives the same result.
pub proof fn lemma_primes_upto_unique(n: int, a: Seq<usize>, b: Seq<usize>)
    requires
        lists_primes_upto(a, n),
        lists_primes_upto(b, n),
    ensures
        a == b,
{
    assert forall|x: usize| a.contains(x) <==> b.contains(x) by {
        if a.contains(x) {
            let i = choose|i: int| 0 <= i < a.len() && a[i] == x;
            assert(is_prime(a[i] as int));
        }
        if b.contains(x) {
            let i = choose|i: int| 0 <= i < b.len() && b[i] == x;
            assert(is_prime(b[i] as int));
        }
    }
    lemma_sorted_same_values(a, b);
}

/// Every integer `m` in `[2, n]` that a list of the primes up to `n` leaves out is divisible
/// by a prime of that list whose square is at most `n`.
pub proof fn lemma_unlisted_has_small_prime_factor(n: int, s: Seq<usize>, m: int)
    requires
        lists_primes_upto(s, n),
        2 <= m <= n,
        forall|i: int| 0 <= i < s.len() ==> s[i] != m,
    ensures
        exists|i: int| 0 <= i < s.len() && s[i] * s[i] <= n && m % (s[i] as int) == 0,
{
    let d = lemma_least_divisor(m);
    if d == m {
        assert(is_prime(m));
        assert(false);
    }
    assert(is_prime(d));
    let i = choose|i: int| 0 <= i < s.len() && s[i] == d;
    assert(s[i] * s[i] <= n);
}

} // verus!
