//! The end of a search: from Weil's bound on character sums follows that every
//! tournament from the upper limit on has S_k.
use crate::bounds::upper_limit;
use crate::enumerate::lemma_single;
use crate::primes::paley_prime;
use crate::residues::residue;
use crate::tournament::{
    common_dominator, dominated, each_dominated, lemma_property_s, property_s, vertices,
};
use vstd::arithmetic::div_mod::*;
use vstd::arithmetic::power::*;
use vstd::arithmetic::power2::*;
use vstd::prelude::*;

verus! {

/// The quadratic character: 1 for residues, 0 for multiples of `n`, and -1 for
/// the other numbers.
pub open spec fn character(n: int, a: int) -> int {
    if a % n == 0 {
        0
    } else if residue(n, a) {
        1
    } else {
        -1
    }
}

/// The product of the characters of the differences `t[i] - x`.
pub open spec fn character_product(n: int, t: Seq<usize>, x: int) -> int
    decreases t.len(),
{
    if t.len() == 0 {
        1
    } else {
        character_product(n, t.drop_last(), x) * character(n, t.last() - x)
    }
}

/// The sum of the products over the numbers `x` from 0 to `m - 1`.
pub open spec fn partial_sum(n: int, t: Seq<usize>, m: int) -> int
    decreases m,
{
    if m <= 0 {
        0
    } else {
        partial_sum(n, t, m - 1) + character_product(n, t, m - 1)
    }
}

/// Weil's bound for the polynomials that are products of distinct linear
/// factors: the character sum of such a polynomial of degree `d` is at most
/// `d - 1` times the square root of `n`.
pub open spec fn character_sums_bounded(n: int) -> bool {
    forall|t: Seq<usize>| #[trigger]
        vertices(n, t) && t.len() > 0 ==> partial_sum(n, t, n) * partial_sum(n, t, n) <= (t.len()
            - 1) * (t.len() - 1) * n
}

/// The product of `1 + character` over the differences `s[i] - x`: a power of
/// two for a common dominator.
spec fn weight(n: int, s: Seq<usize>, x: int) -> int
    decreases s.len(),
{
    if s.len() == 0 {
        1
    } else {
        weight(n, s.drop_last(), x) * (1 + character(n, s.last() - x))
    }
}

/// The sum of the products for `t` and the weights for `s`.
spec fn mixed_sum(n: int, s: Seq<usize>, t: Seq<usize>, m: int) -> int
    decreases m,
{
    if m <= 0 {
        0
    } else {
        mixed_sum(n, s, t, m - 1) + character_product(n, t, m - 1) * weight(n, s, m - 1)
    }
}

/// The number of members of `s` from 0 to `m - 1`.
spec fn hits(s: Seq<usize>, m: int) -> int
    decreases m,
{
    if m <= 0 {
        0
    } else {
        hits(s, m - 1) + if s.contains((m - 1) as usize) {
            1int
        } else {
            0
        }
    }
}

/// Multiplying the last factor out.
proof fn lemma_mixed_push(n: int, s: Seq<usize>, t: Seq<usize>, v: usize, m: int)
    ensures
        mixed_sum(n, s.push(v), t, m) == mixed_sum(n, s, t, m) + mixed_sum(n, s, t.push(v), m),
    decreases m,
{
    if m > 0 {
        lemma_mixed_push(n, s, t, v, m - 1);
        let x = m - 1;
        assert(s.push(v).drop_last() =~= s);
        assert(t.push(v).drop_last() =~= t);
        let c = character(n, v - x);
        let w = weight(n, s, x);
        let p = character_product(n, t, x);
        assert(weight(n, s.push(v), x) == w * (1 + c));
        assert(character_product(n, t.push(v), x) == p * c);
        assert(p * (w * (1 + c)) == p * w + (p * c) * w) by (nonlinear_arith);
    }
}

/// Without weights the mixed sum is the character sum.
proof fn lemma_mixed_plain(n: int, t: Seq<usize>, m: int)
    ensures
        mixed_sum(n, Seq::empty(), t, m) == partial_sum(n, t, m),
        t.len() == 0 && m >= 0 ==> mixed_sum(n, Seq::empty(), t, m) == m,
    decreases m,
{
    if m > 0 {
        lemma_mixed_plain(n, t, m - 1);
        assert(weight(n, Seq::empty(), m - 1) == 1);
    }
}

/// Two lists of vertices without a common member.
spec fn apart(n: int, s: Seq<usize>, t: Seq<usize>) -> bool {
    &&& vertices(n, s)
    &&& vertices(n, t)
    &&& forall|i: int, j: int| 0 <= i < s.len() && 0 <= j < t.len() ==> s[i] != t[j]
}

/// The mixed sum is large: all character sums but the empty one are small.
/// Here `c` is at least the square root of `n`.
proof fn lemma_mixed_bound(n: int, s: Seq<usize>, t: Seq<usize>, c: int)
    requires
        character_sums_bounded(n),
        apart(n, s, t),
        n >= 0,
        c >= 0,
        n <= c * c,
    ensures
        t.len() == 0 ==> 2 * mixed_sum(n, s, t, n) >= 2 * n - c * (pow2(s.len()) * (s.len() - 2)
            + 2),
        t.len() > 0 ==> 2 * mixed_sum(n, s, t, n) >= -(c * (pow2(s.len()) * (2 * (t.len() - 1)
            + s.len()))),
    decreases s.len(),
{
    if s.len() == 0 {
        assert(s =~= Seq::empty());
        lemma2_to64();
        lemma_mixed_plain(n, t, n);
        if t.len() > 0 {
            let w = partial_sum(n, t, n);
            let d = t.len() - 1;
            assert(w >= -(d * c)) by (nonlinear_arith)
                requires
                    w * w <= d * d * n,
                    n <= c * c,
                    d >= 0,
                    c >= 0,
            {
                assert(d * d * n <= d * d * (c * c)) by (nonlinear_arith)
                    requires
                        n <= c * c,
                        d >= 0,
                ;
                assert(d * d * (c * c) == (d * c) * (d * c)) by (nonlinear_arith);
                if w < -(d * c) {
                    assert((d * c) * (d * c) < w * w) by (nonlinear_arith)
                        requires
                            w < -(d * c),
                            d * c >= 0,
                    ;
                }
            }
            assert(c * (1 * (2 * d + 0)) == 2 * (d * c)) by (nonlinear_arith);
        } else {
            assert(c * (1 * (0 - 2) + 2) == 0) by (nonlinear_arith);
        }
    } else {
        let s2 = s.drop_last();
        let v = s.last();
        let m = s2.len() as int;
        let j = t.len() as int;
        let q = pow2(s2.len()) as int;
        assert(s2.push(v) =~= s);
        lemma_mixed_push(n, s2, t, v, n);
        assert(apart(n, s2, t));
        assert(apart(n, s2, t.push(v))) by {
            assert forall|a: int, b: int|
                0 <= a < s2.len() && 0 <= b < t.push(v).len() implies s2[a] != t.push(v)[b] by {
                assert(s2[a] == s[a]);
                assert(s[a] != s[s.len() - 1]);
            }
            assert forall|a: int, b: int|
                0 <= a < t.push(v).len() && 0 <= b < t.push(v).len() && a != b implies t.push(v)[a]
                != t.push(v)[b] by {
                assert(s[s.len() - 1] == v);
            }
        }
        lemma_mixed_bound(n, s2, t, c);
        lemma_mixed_bound(n, s2, t.push(v), c);
        lemma_pow2_unfold(s.len());
        assert(pow2(s.len()) == 2 * q);
        if j == 0 {
            assert(c * (q * (m - 2) + 2) + c * (q * (2 * 0 + m)) == c * ((2 * q) * (m + 1 - 2) + 2))
                by (nonlinear_arith);
        } else {
            assert(c * (q * (2 * (j - 1) + m)) + c * (q * (2 * (j + 1 - 1) + m)) == c * ((2 * q)
                * (2 * (j - 1) + (m + 1)))) by (nonlinear_arith);
        }
    }
}

/// The weight is at most a power of two, half of it at a member of the list,
/// and nothing at a vertex that does not dominate some other member.
proof fn lemma_weight(n: int, s: Seq<usize>, x: int)
    requires
        0 < n <= usize::MAX,
        0 <= x < n,
        vertices(n, s),
    ensures
        0 <= weight(n, s, x) <= pow2(s.len()),
        s.contains(x as usize) ==> 2 * weight(n, s, x) <= pow2(s.len()),
        !s.contains(x as usize) && !common_dominator(n, s, x) ==> weight(n, s, x) == 0,
    decreases s.len(),
{
    if s.len() == 0 {
        lemma2_to64();
    } else {
        let s2 = s.drop_last();
        let v = s.last();
        assert(vertices(n, s2));
        lemma_weight(n, s2, x);
        lemma_pow2_unfold(s.len());
        let w = weight(n, s2, x);
        let f = 1 + character(n, v - x);
        let q = pow2(s2.len()) as int;
        assert(0 <= f <= 2);
        assert(0 <= w * f <= 2 * q) by (nonlinear_arith)
            requires
                0 <= w <= q,
                0 <= f <= 2,
        ;
        if v == x {
            assert(v - x == 0);
            lemma_small_mod(0, n as nat);
            assert(w * 1 == w);
        } else {
            assert((v - x) % n != 0) by {
                if v > x {
                    lemma_small_mod((v - x) as nat, n as nat);
                } else {
                    lemma_mod_add_multiples_vanish(v - x, n);
                    lemma_small_mod((n + v - x) as nat, n as nat);
                }
            }
            if s.contains(x as usize) {
                let i = choose|i: int| 0 <= i < s.len() && s[i] == x as usize;
                assert(s2[i] == x as usize);
                assert(2 * (w * f) <= 2 * q) by (nonlinear_arith)
                    requires
                        0 <= w,
                        2 * w <= q,
                        0 <= f <= 2,
                ;
            } else {
                assert forall|i: int| 0 <= i < s2.len() implies s2[i] != x as usize by {
                    assert(s[i] == s2[i]);
                }
                if !common_dominator(n, s, x) {
                    if common_dominator(n, s2, x) {
                        assert(!residue(n, v - x)) by {
                            if residue(n, v - x) {
                                assert forall|i: int| 0 <= i < s.len() implies residue(
                                    n,
                                    #[trigger] s[i] as int - x,
                                ) by {
                                    if i < s2.len() {
                                        assert(s2[i] == s[i]);
                                        assert(crate::tournament::dominates(n, x, s2[i] as int));
                                    }
                                }
                                assert(common_dominator(n, s, x));
                            }
                        }
                        assert(f == 0);
                    }
                    assert(w * f == 0) by (nonlinear_arith)
                        requires
                            w == 0 || f == 0,
                    ;
                }
            }
        }
    }
}

/// A list has no more members than entries.
proof fn lemma_hits(s: Seq<usize>, m: int)
    requires
        m <= usize::MAX + 1,
    ensures
        hits(s, m) <= s.len(),
    decreases s.len(),
{
    if s.len() == 0 {
        lemma_hits_single(s, s, 0, m);
    } else {
        lemma_hits(s.drop_last(), m);
        lemma_hits_single(s, s.drop_last(), s.last(), m);
    }
}

/// One more entry makes at most one more member.
proof fn lemma_hits_single(s: Seq<usize>, s2: Seq<usize>, v: usize, m: int)
    requires
        m <= usize::MAX + 1,
        s.len() == 0 && s2 == s || s.len() > 0 && s2 == s.drop_last() && v == s.last(),
    ensures
        s.len() == 0 ==> hits(s, m) == 0,
        s.len() > 0 ==> hits(s, m) <= hits(s2, m) + if m > v {
            1int
        } else {
            0
        },
    decreases m,
{
    if m > 0 {
        lemma_hits_single(s, s2, v, m - 1);
        let x = (m - 1) as usize;
        if s.len() > 0 && s.contains(x) && x != v {
            let i = choose|i: int| 0 <= i < s.len() && s[i] == x;
            assert(s2[i] == x);
        }
    }
}

/// The sum of the weights of a list without a common dominator is small.
proof fn lemma_weights_small(n: int, s: Seq<usize>, m: int)
    requires
        0 < n <= usize::MAX,
        m <= n,
        vertices(n, s),
        !dominated(n, s),
    ensures
        2 * mixed_sum(n, s, Seq::empty(), m) <= pow2(s.len()) * hits(s, m),
    decreases m,
{
    let q = pow2(s.len()) as int;
    if m > 0 {
        let x = m - 1;
        lemma_weights_small(n, s, x);
        lemma_weight(n, s, x);
        assert(!common_dominator(n, s, x));
        let w = weight(n, s, x);
        assert(character_product(n, Seq::empty(), x) * w == w) by {
            assert(character_product(n, Seq::empty(), x) == 1);
        }
        let h = hits(s, x);
        if s.contains(x as usize) {
            assert(q * (h + 1) == q * h + q) by (nonlinear_arith);
        }
    } else {
        assert(q * 0 == 0);
    }
}

/// The least number whose square is at least `n`.
proof fn lemma_root(n: int) -> (c: int)
    requires
        n >= 1,
    ensures
        c >= 1,
        (c - 1) * (c - 1) < n <= c * c,
    decreases n,
{
    if n == 1 {
        1
    } else {
        let c = lemma_root(n - 1);
        if n <= c * c {
            assert((c - 1) * (c - 1) < n);
            c
        } else {
            let d = c + 1;
            assert((d - 1) * (d - 1) < n && n <= d * d) by (nonlinear_arith)
                requires
                    d == c + 1,
                    n - 1 <= c * c,
                    n > c * c,
                    c >= 1,
            ;
            d
        }
    }
}

/// A power of four is the square of a power of two.
proof fn lemma_pow4(e: nat)
    ensures
        pow(4, e) == pow2(e) * pow2(e),
    decreases e,
{
    if e == 0 {
        lemma_pow0(4);
        lemma2_to64();
    } else {
        let d = (e - 1) as nat;
        lemma_pow4(d);
        reveal(pow);
        lemma_pow2_unfold(e);
        let q = pow2(d) as int;
        assert(4 * (q * q) == (2 * q) * (2 * q)) by (nonlinear_arith);
    }
}

/// The arithmetic of the limit: with `m` for `k * 2^(k - 1)`, the two bounds on
/// the sum of the weights exclude each other.
proof fn lemma_limit(n: int, c: int, m: int, q: int)
    requires
        q >= 2,
        m >= 0,
        c >= 1,
        (c - 1) * (c - 1) < n <= c * c,
        m * m <= n,
    ensures
        n - c * (m - 2 * q + 1) > m,
{
    assert(c >= m) by (nonlinear_arith)
        requires
            m * m <= c * c,
            c >= 1,
            m >= 0,
    ;
    assert((c - 1) * (c - 1) == c * c - 2 * c + 1) by (nonlinear_arith);
    assert(c * (m - 2 * q + 1) == c * m - 2 * (c * q) + c) by (nonlinear_arith);
    assert(c * c >= c * m) by (nonlinear_arith)
        requires
            c >= m,
            c >= 1,
    ;
    assert(c * q >= 2 * c) by (nonlinear_arith)
        requires
            q >= 2,
            c >= 1,
    ;
}

/// Where Weil's bound on character sums holds, every tournament from the upper
/// limit on has S_k.
pub proof fn lemma_upper_limit(n: int, k: nat)
    requires
        paley_prime(n),
        n <= usize::MAX,
        n >= upper_limit(k as int),
        character_sums_bounded(n),
    ensures
        property_s(n, k as int),
{
    lemma_single(n);
    if k >= 2 {
        let e = (k - 1) as nat;
        let q = pow2(e) as int;
        let m = k * q;
        lemma_pow4(e);
        lemma_pow2_unfold(e);
        lemma_pow2_pos((e - 1) as nat);
        assert(q >= 2);
        assert(m * m == (k * k) * (q * q) && m >= k) by (nonlinear_arith)
            requires
                m == k * q,
                q >= 2,
                k >= 2,
        ;
        assert(k <= n) by (nonlinear_arith)
            requires
                m * m <= n,
                m >= k,
                k >= 2,
        ;
        assert forall|s: Seq<usize>| #[trigger] vertices(n, s) && s.len() == k implies dominated(
            n,
            s,
        ) by {
            if !dominated(n, s) {
                let c = lemma_root(n);
                assert(apart(n, s, Seq::empty()));
                lemma_mixed_bound(n, s, Seq::empty(), c);
                lemma_weights_small(n, s, n);
                lemma_hits(s, n);
                lemma_pow2_unfold(k);
                let h = hits(s, n);
                assert(pow2(k) == 2 * q);
                assert((2 * q) * h <= 2 * m) by (nonlinear_arith)
                    requires
                        h <= k,
                        m == k * q,
                        q >= 2,
                ;
                assert(c * ((2 * q) * (k - 2) + 2) == 2 * (c * (m - 2 * q + 1)))
                    by (nonlinear_arith)
                    requires
                        m == k * q,
                ;
                lemma_limit(n, c, m, q);
            }
        }
        assert(each_dominated(n, k as int));
    }
    lemma_property_s(n, k as int);
}

} // verus!
