//! Primality by trial division, and the primes that carry Paley tournaments.
use crate::modular::{divides, lemma_multiple, prime};
use vstd::arithmetic::div_mod::*;
use vstd::prelude::*;

verus! {

/// A number that carries a Paley tournament: a prime of the form `4m + 3`.
pub open spec fn paley_prime(n: int) -> bool {
    prime(n) && n % 4 == 3
}

/// A divisor of a divisor is a divisor.
proof fn lemma_divides_transitive(a: int, b: int, n: int)
    requires
        0 < a,
        0 < b,
        divides(a, b),
        divides(b, n),
    ensures
        divides(a, n),
{
    lemma_fundamental_div_mod(n, b);
    lemma_multiple(a, b, n / b);
}

/// Trial division by all numbers below `i`, where `i * i` exceeds `n`, decides
/// that `n` is prime.
proof fn lemma_trial_division(n: int, i: int)
    requires
        n >= 2,
        i >= 1,
        i * i > n,
        forall|d: int| 2 <= d < i && d < n ==> !#[trigger] divides(d, n),
    ensures
        prime(n),
{
    assert forall|d: int| 2 <= d < n implies !#[trigger] divides(d, n) by {
        if divides(d, n) && d >= i {
            let e = n / d;
            lemma_fundamental_div_mod(n, d);
            assert(n == d * e);
            assert(e < i) by (nonlinear_arith)
                requires
                    n == d * e,
                    d >= i,
                    i * i > n,
                    i >= 1,
                    n >= 2,
            ;
            assert(2 <= e < n) by (nonlinear_arith)
                requires
                    n == d * e,
                    2 <= d < n,
            ;
            lemma_mod_multiples_basic(d, e);
            assert(divides(e, n));
        }
    }
}

/// Whether `n` is prime.
pub fn is_prime(n: usize) -> (r: bool)
    ensures
        r == prime(n as int),
{
    if n < 2 {
        return false;
    }
    if n < 4 {
        assert forall|d: int| 2 <= d < n implies !#[trigger] divides(d, n as int) by {}
        return true;
    }
    if n % 2 == 0 {
        assert(divides(2, n as int));
        return false;
    }
    let mut i: usize = 3;
    while i <= n / i
        invariant
            n >= 4,
            n % 2 == 1,
            3 <= i,
            i % 2 == 1,
            forall|d: int| 2 <= d < i && d < n ==> !#[trigger] divides(d, n as int),
        decreases n - i,
    {
        proof {
            lemma_fundamental_div_mod(n as int, i as int);
            lemma_mod_bound(n as int, i as int);
            assert(i < n && i + 2 <= n) by (nonlinear_arith)
                requires
                    3 <= i,
                    n == i * (n as int / i as int) + n as int % i as int,
                    n as int % i as int >= 0,
                    i <= n as int / i as int,
            ;
        }
        if n % i == 0 {
            assert(divides(i as int, n as int));
            return false;
        }
        proof {
            assert(!divides(i as int, n as int));
            assert(!divides(i + 1, n as int)) by {
                if divides(i + 1, n as int) {
                    assert(divides(2, i + 1));
                    lemma_divides_transitive(2, i + 1, n as int);
                }
            }
            assert forall|d: int| 2 <= d < i + 2 && d < n implies !#[trigger] divides(
                d,
                n as int,
            ) by {
                if d >= i {
                    assert(d == i || d == i + 1);
                }
            }
        }
        i = i + 2;
    }
    proof {
        assert(i * i > n) by {
            lemma_fundamental_div_mod(n as int, i as int);
            lemma_mod_bound(n as int, i as int);
            assert(i * i > n) by (nonlinear_arith)
                requires
                    3 <= i,
                    n == i * (n as int / i as int) + n as int % i as int,
                    n as int % (i as int) < i,
                    i > n as int / i as int,
            ;
        }
        lemma_trial_division(n as int, i as int);
    }
    true
}

/// The least prime of the form `4m + 3` from `n` on, where a machine word can
/// hold one.
pub fn checked_next_prime_3mod4(n: usize) -> (r: Option<usize>)
    ensures
        match r {
            Some(m) => n <= m && paley_prime(m as int) && forall|q: int|
                n <= q < m ==> !#[trigger] paley_prime(q),
            None => forall|q: int| n <= q <= usize::MAX ==> !#[trigger] paley_prime(q),
        },
{
    let mut m: usize = if n < 3 {
        3
    } else {
        n
    };
    proof {
        assert forall|q: int| n <= q < m implies !#[trigger] paley_prime(q) by {}
    }
    while m % 4 != 3
        invariant
            n <= m,
            3 <= m,
            forall|q: int| n <= q < m ==> !#[trigger] paley_prime(q),
        decreases usize::MAX - m,
    {
        if m == usize::MAX {
            return None;
        }
        m = m + 1;
    }
    while !is_prime(m)
        invariant
            n <= m,
            m % 4 == 3,
            forall|q: int| n <= q < m ==> !#[trigger] paley_prime(q),
        decreases usize::MAX - m,
    {
        if m > usize::MAX - 4 {
            return None;
        }
        proof {
            assert forall|q: int| n <= q < m + 4 implies !#[trigger] paley_prime(q) by {
                if q > m {
                    assert(q % 4 != 3);
                }
            }
        }
        m = m + 4;
    }
    Some(m)
}

/// The least prime of the form `4m + 3` from `n` on.  A machine word must be
/// able to hold one; `checked_next_prime_3mod4` tells when that is so.
pub fn next_prime_3mod4_at_least(n: usize) -> (m: usize)
    requires
        exists|q: int| n <= q <= usize::MAX && #[trigger] paley_prime(q),
    ensures
        n <= m,
        paley_prime(m as int),
        forall|q: int| n <= q < m ==> !#[trigger] paley_prime(q),
{
    match checked_next_prime_3mod4(n) {
        Some(m) => m,
        None => {
            assert(false);
            n
        },
    }
}

} // verus!
