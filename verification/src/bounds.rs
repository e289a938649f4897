//! The range of vertex numbers in which the least tournament with S_k is
//! looked for.
use crate::primes::paley_prime;
use crate::tournament::{
    common_dominator, dominated, dominates, lemma_tournament, property_s, vertices,
};
use vstd::arithmetic::mul::*;
use vstd::arithmetic::power::*;
use vstd::arithmetic::power2::*;
use vstd::prelude::*;

verus! {

/// The number of members of `t` that dominate `v`.
spec fn count_in(n: int, t: Seq<usize>, v: int) -> int
    decreases t.len(),
{
    if t.len() == 0 {
        0
    } else {
        count_in(n, t.drop_last(), v) + if dominates(n, t.last() as int, v) {
            1int
        } else {
            0
        }
    }
}

/// The number of members of `t` that `x` dominates.
spec fn count_out(n: int, t: Seq<usize>, x: int) -> int
    decreases t.len(),
{
    if t.len() == 0 {
        0
    } else {
        count_out(n, t.drop_last(), x) + if dominates(n, x, t.last() as int) {
            1int
        } else {
            0
        }
    }
}

/// The number of arcs from members of `t` to members of `u`.
spec fn count_arcs(n: int, t: Seq<usize>, u: Seq<usize>) -> int
    decreases u.len(),
{
    if u.len() == 0 {
        0
    } else {
        count_arcs(n, t, u.drop_last()) + count_in(n, t, u.last() as int)
    }
}

/// The members of `t` that dominate `v`.
spec fn dominating(n: int, t: Seq<usize>, v: int) -> Seq<usize>
    decreases t.len(),
{
    if t.len() == 0 {
        Seq::empty()
    } else if dominates(n, t.last() as int, v) {
        dominating(n, t.drop_last(), v).push(t.last())
    } else {
        dominating(n, t.drop_last(), v)
    }
}

proof fn lemma_dominating(n: int, t: Seq<usize>, v: int)
    requires
        vertices(n, t),
    ensures
        dominating(n, t, v).len() == count_in(n, t, v),
        vertices(n, dominating(n, t, v)),
        forall|x: usize| #[trigger]
            dominating(n, t, v).contains(x) <==> t.contains(x) && dominates(n, x as int, v),
    decreases t.len(),
{
    if t.len() > 0 {
        let rest = t.drop_last();
        let part = dominating(n, rest, v);
        let all = dominating(n, t, v);
        assert(vertices(n, rest));
        lemma_dominating(n, rest, v);
        assert forall|x: usize| #[trigger] all.contains(x) <==> t.contains(x) && dominates(
            n,
            x as int,
            v,
        ) by {
            if all.contains(x) {
                let i = choose|i: int| 0 <= i < all.len() && all[i] == x;
                if i < part.len() {
                    assert(part[i] == x);
                    assert(part.contains(x));
                    let j = choose|j: int| 0 <= j < rest.len() && rest[j] == x;
                    assert(t[j] == x);
                } else {
                    assert(t[t.len() - 1] == x);
                }
            }
            if t.contains(x) && dominates(n, x as int, v) {
                let j = choose|j: int| 0 <= j < t.len() && t[j] == x;
                if j < rest.len() {
                    assert(rest[j] == x);
                    assert(part.contains(x));
                    let i = choose|i: int| 0 <= i < part.len() && part[i] == x;
                    assert(all[i] == x);
                } else {
                    assert(all[part.len() as int] == x);
                }
            }
        }
        assert forall|i: int, j: int|
            0 <= i < all.len() && 0 <= j < all.len() && i != j implies all[i] != all[j] by {
            if i == part.len() {
                assert(part.contains(part[j]));
                assert(rest.contains(part[j]));
                let q = choose|q: int| 0 <= q < rest.len() && rest[q] == part[j];
                assert(t[q] == part[j]);
            }
            if j == part.len() {
                assert(part.contains(part[i]));
                assert(rest.contains(part[i]));
                let q = choose|q: int| 0 <= q < rest.len() && rest[q] == part[i];
                assert(t[q] == part[i]);
            }
        }
        assert forall|i: int| 0 <= i < all.len() implies #[trigger] all[i] < n by {
            assert(all.contains(all[i]));
            let j = choose|j: int| 0 <= j < t.len() && t[j] == all[i];
            assert(t[j] < n);
        }
    }
}

proof fn lemma_arcs_push(n: int, t: Seq<usize>, w: usize, u: Seq<usize>)
    ensures
        count_arcs(n, t.push(w), u) == count_arcs(n, t, u) + count_out(n, u, w as int),
    decreases u.len(),
{
    if u.len() > 0 {
        lemma_arcs_push(n, t, w, u.drop_last());
        assert(t.push(w).drop_last() =~= t);
    }
}

/// Every other vertex either dominates `w` or is dominated by it.
proof fn lemma_in_and_out(n: int, t: Seq<usize>, w: usize)
    requires
        paley_prime(n),
        w < n,
        forall|i: int| 0 <= i < t.len() ==> #[trigger] t[i] < n && t[i] != w,
    ensures
        count_in(n, t, w as int) + count_out(n, t, w as int) == t.len(),
    decreases t.len(),
{
    if t.len() > 0 {
        let rest = t.drop_last();
        assert forall|i: int| 0 <= i < rest.len() implies #[trigger] rest[i] < n && rest[i]
            != w by {
            assert(rest[i] == t[i]);
        }
        lemma_in_and_out(n, rest, w);
        assert(t.last() == t[t.len() - 1]);
        lemma_tournament(n, t.last() as int, w as int);
    }
}

/// A tournament on `m` vertices has `m * (m - 1) / 2` arcs.
proof fn lemma_arcs(n: int, t: Seq<usize>)
    requires
        paley_prime(n),
        vertices(n, t),
    ensures
        2 * count_arcs(n, t, t) == t.len() * (t.len() - 1),
    decreases t.len(),
{
    if t.len() > 0 {
        let rest = t.drop_last();
        let w = t.last();
        assert(vertices(n, rest));
        lemma_arcs(n, rest);
        assert(t =~= rest.push(w));
        lemma_arcs_push(n, rest, w, rest);
        assert forall|i: int| 0 <= i < rest.len() implies #[trigger] rest[i] < n && rest[i]
            != w by {
            assert(rest[i] == t[i]);
            assert(w == t[t.len() - 1]);
        }
        lemma_in_and_out(n, rest, w);
        lemma_tournament(n, w as int, w as int);
        let m = rest.len() as int;
        assert(2 * m + m * (m - 1) == (m + 1) * m) by (nonlinear_arith);
    }
}

proof fn lemma_arcs_at_least(n: int, t: Seq<usize>, u: Seq<usize>, c: int)
    requires
        forall|i: int| 0 <= i < u.len() ==> 2 * count_in(n, t, #[trigger] u[i] as int) >= c,
    ensures
        2 * count_arcs(n, t, u) >= c * u.len(),
    decreases u.len(),
{
    if u.len() > 0 {
        let rest = u.drop_last();
        assert forall|i: int| 0 <= i < rest.len() implies 2 * count_in(
            n,
            t,
            #[trigger] rest[i] as int,
        ) >= c by {
            assert(rest[i] == u[i]);
        }
        lemma_arcs_at_least(n, t, rest, c);
        assert(u.last() == u[u.len() - 1]);
        assert(c * u.len() == c * rest.len() + c) by (nonlinear_arith)
            requires
                u.len() == rest.len() + 1,
        ;
    } else {
        lemma_mul_basics(c);
    }
}

/// Some vertex is dominated by less than half of the others.
proof fn lemma_weakly_dominated(n: int, t: Seq<usize>) -> (i: int)
    requires
        paley_prime(n),
        vertices(n, t),
        t.len() > 0,
    ensures
        0 <= i < t.len(),
        2 * count_in(n, t, t[i] as int) + 1 <= t.len(),
{
    let m = t.len() as int;
    if forall|i: int| 0 <= i < t.len() ==> 2 * count_in(n, t, #[trigger] t[i] as int) >= m {
        lemma_arcs_at_least(n, t, t, m);
        lemma_arcs(n, t);
        assert(m * (m - 1) < m * m) by (nonlinear_arith)
            requires
                m > 0,
        ;
    }
    choose|i: int| 0 <= i < t.len() && 2 * count_in(n, t, #[trigger] t[i] as int) < m
}

/// Every at most `j` distinct members of `t` have a common dominator in `t`.
spec fn closed_under_domination(n: int, t: Seq<usize>, j: int) -> bool {
    forall|s: Seq<usize>| #[trigger]
        vertices(n, s) && s.len() <= j && (forall|i: int|
            0 <= i < s.len() ==> t.contains(#[trigger] s[i])) ==> exists|x: usize|
            t.contains(x) && common_dominator(n, s, x as int)
}

proof fn lemma_closed_is_large(n: int, t: Seq<usize>, j: nat)
    requires
        paley_prime(n),
        vertices(n, t),
        closed_under_domination(n, t, j as int),
    ensures
        t.len() >= pow2(j + 1) - 1,
    decreases j,
{
    lemma_pow2_unfold(j + 1);
    if j == 0 {
        lemma2_to64();
        let e = Seq::<usize>::empty();
        assert(vertices(n, e));
        let x = choose|x: usize| t.contains(x) && common_dominator(n, e, x as int);
        assert(t.contains(x));
    } else {
        let e = Seq::<usize>::empty();
        assert(vertices(n, e));
        let x = choose|x: usize| t.contains(x) && common_dominator(n, e, x as int);
        assert(t.contains(x));
        let i = lemma_weakly_dominated(n, t);
        let v = t[i];
        let u = dominating(n, t, v as int);
        lemma_dominating(n, t, v as int);
        lemma_tournament(n, v as int, v as int);
        assert(closed_under_domination(n, u, j - 1)) by {
            assert forall|s: Seq<usize>| #[trigger]
                vertices(n, s) && s.len() <= j - 1 && (forall|q: int|
                    0 <= q < s.len() ==> u.contains(#[trigger] s[q])) implies exists|y: usize|
                u.contains(y) && common_dominator(n, s, y as int) by {
                let s2 = s.push(v);
                assert(!u.contains(v));
                assert(vertices(n, s2)) by {
                    assert forall|a: int, b: int|
                        0 <= a < s2.len() && 0 <= b < s2.len() && a != b implies s2[a]
                        != s2[b] by {
                        if a == s.len() {
                            assert(u.contains(s[b]));
                        }
                        if b == s.len() {
                            assert(u.contains(s[a]));
                        }
                    }
                }
                assert forall|q: int| 0 <= q < s2.len() implies t.contains(#[trigger] s2[q]) by {
                    if q < s.len() {
                        assert(u.contains(s[q]));
                    }
                }
                let y = choose|y: usize| t.contains(y) && common_dominator(n, s2, y as int);
                assert(dominates(n, y as int, s2[s.len() as int] as int));
                assert(common_dominator(n, s, y as int)) by {
                    assert forall|q: int| 0 <= q < s.len() implies dominates(
                        n,
                        y as int,
                        #[trigger] s[q] as int,
                    ) by {
                        assert(s2[q] == s[q]);
                    }
                }
                assert(u.contains(y));
            }
        }
        lemma_closed_is_large(n, u, (j - 1) as nat);
    }
}

/// A tournament with S_k has at least `2^(k + 1) - 1` vertices.
pub proof fn lemma_least_size(n: int, k: nat)
    requires
        paley_prime(n),
        n <= usize::MAX,
        property_s(n, k as int),
    ensures
        n >= pow2(k + 1) - 1,
{
    let t = Seq::new(n as nat, |i: int| i as usize);
    assert(vertices(n, t));
    assert(closed_under_domination(n, t, k as int)) by {
        assert forall|s: Seq<usize>| #[trigger]
            vertices(n, s) && s.len() <= k && (forall|i: int|
                0 <= i < s.len() ==> t.contains(#[trigger] s[i])) implies exists|x: usize|
            t.contains(x) && common_dominator(n, s, x as int) by {
            assert(dominated(n, s));
            let x = choose|x: int| common_dominator(n, s, x);
            assert(t[x] == x as usize);
            assert(t.contains(x as usize));
            assert(common_dominator(n, s, (x as usize) as int));
        }
    }
    lemma_closed_is_large(n, t, k);
}

/// The number at which the search for S_k starts.
pub open spec fn lower_limit(k: int) -> int {
    if k <= 0 {
        1
    } else {
        pow2((k - 1) as nat) as int
    }
}

/// The number below which the search for S_k stays.
pub open spec fn upper_limit(k: int) -> int {
    if k <= 1 {
        8
    } else {
        (k * k) * pow(4, (k - 1) as nat)
    }
}

/// No tournament with S_k is missed below the start: none of them is that
/// small.
pub proof fn lemma_lower_limit(n: int, k: nat)
    requires
        paley_prime(n),
        n <= usize::MAX,
        n < lower_limit(k as int),
    ensures
        !property_s(n, k as int),
{
    if property_s(n, k as int) {
        lemma_least_size(n, k);
        lemma_pow2_unfold(k + 1);
        lemma_pow2_pos(k);
        if k > 0 {
            lemma_pow2_unfold(k);
        }
    }
}

/// The number at which the search starts, where a machine word can hold it.
pub fn checked_lower_bound(k: usize) -> (r: Option<usize>)
    ensures
        match r {
            Some(lo) => lo == lower_limit(k as int),
            None => lower_limit(k as int) > usize::MAX,
        },
{
    if k == 0 {
        return Some(1);
    }
    let mut lo: usize = 1;
    let mut e: usize = 0;
    proof {
        lemma2_to64();
    }
    while e < k - 1
        invariant
            k > 0,
            e <= k - 1,
            lo == pow2(e as nat),
        decreases k - e,
    {
        proof {
            lemma_pow2_unfold((e + 1) as nat);
            if e + 1 < k - 1 {
                lemma_pow2_strictly_increases((e + 1) as nat, (k - 1) as nat);
            }
        }
        match lo.checked_mul(2) {
            Some(next) => {
                lo = next;
            },
            None => {
                return None;
            },
        }
        e = e + 1;
    }
    Some(lo)
}

/// The number at which the search starts.
pub fn lower_bound(k: usize) -> (lo: usize)
    requires
        lower_limit(k as int) <= usize::MAX,
    ensures
        lo == lower_limit(k as int),
{
    match checked_lower_bound(k) {
        Some(lo) => lo,
        None => {
            assert(false);
            1
        },
    }
}

/// The number below which the search stays, where a machine word can hold it.
pub fn checked_weil_hi(k: usize) -> (r: Option<usize>)
    ensures
        match r {
            Some(hi) => hi == upper_limit(k as int),
            None => upper_limit(k as int) > usize::MAX,
        },
{
    if k <= 1 {
        return Some(8);
    }
    let ghost square = k as int * k as int;
    proof {
        lemma_mul_strictly_positive(k as int, k as int);
    }
    let mut hi: usize = match k.checked_mul(k) {
        Some(kk) => kk,
        None => {
            proof {
                lemma_pow_positive(4, (k - 1) as nat);
                assert(square * pow(4, (k - 1) as nat) >= square) by (nonlinear_arith)
                    requires
                        square >= 0,
                        pow(4, (k - 1) as nat) >= 1,
                ;
            }
            return None;
        },
    };
    let mut e: usize = 0;
    proof {
        lemma_pow0(4);
        lemma_mul_basics(square);
    }
    while e < k - 1
        invariant
            k > 1,
            square == k as int * k as int,
            square > 0,
            e <= k - 1,
            hi == square * pow(4, e as nat),
        decreases k - e,
    {
        proof {
            let a = pow(4, e as nat);
            reveal(pow);
            assert(pow(4, (e + 1) as nat) == 4 * a);
            assert(square * (4 * a) == (square * a) * 4) by (nonlinear_arith);
            lemma_pow_increases(4, (e + 1) as nat, (k - 1) as nat);
            assert(square * pow(4, (e + 1) as nat) <= square * pow(4, (k - 1) as nat))
                by (nonlinear_arith)
                requires
                    square > 0,
                    pow(4, (e + 1) as nat) <= pow(4, (k - 1) as nat),
            ;
        }
        match hi.checked_mul(4) {
            Some(next) => {
                hi = next;
            },
            None => {
                return None;
            },
        }
        e = e + 1;
    }
    Some(hi)
}

/// The number below which the search stays.  The Weil bound on character sums
/// gives S_k to every larger prime of the form `4m + 3`; that theorem is not
/// proved here.
pub fn weil_hi(k: usize) -> (hi: usize)
    requires
        upper_limit(k as int) <= usize::MAX,
    ensures
        hi == upper_limit(k as int),
{
    match checked_weil_hi(k) {
        Some(hi) => hi,
        None => {
            assert(false);
            8
        },
    }
}

/// How the limits grow: the lower one doubles with each step of `k`, and the
/// upper one is `k` squared times a number that grows fourfold.
pub proof fn lemma_limits(k: int)
    requires
        k >= 1,
    ensures
        lower_limit(0) == 1,
        lower_limit(1) == 1,
        lower_limit(k + 1) == 2 * lower_limit(k),
        upper_limit(0) == 8,
        upper_limit(1) == 8,
        upper_limit(2) == 16,
        k >= 2 ==> upper_limit(k + 1) * (k * k) == 4 * ((k + 1) * (k + 1)) * upper_limit(k),
{
    lemma2_to64();
    lemma_pow2_unfold(k as nat);
    lemma_pow1(4);
    if k >= 2 {
        let e = (k - 1) as nat;
        let x = pow(4, e);
        let a = k * k;
        let b = (k + 1) * (k + 1);
        assert(pow(4, k as nat) == 4 * x) by {
            reveal(pow);
        }
        assert((b * (4 * x)) * a == 4 * b * (a * x)) by (nonlinear_arith);
    }
}

} // verus!
