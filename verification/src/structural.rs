//! Counterexamples with a structure: arithmetic and geometric progressions.
use crate::bitset::BitSet;
use crate::modular::{inverse, lemma_cancel, lemma_cong_mul, lemma_euclid, lemma_inverse, prime};
use crate::paley::{lemma_fits, Paley};
use crate::primes::paley_prime;
use crate::tournament::{
    common_dominator, counterexample, dominated, dominators, lemma_dominated_part,
    lemma_narrowed_dominators, lemma_narrowed_push, lemma_tournament, narrowed, vertices,
};
use vstd::arithmetic::div_mod::*;
use vstd::arithmetic::mul::*;
use vstd::arithmetic::power::*;
use vstd::prelude::*;

verus! {

/// The arithmetic progression `0, d, 2d, ..` of `m` vertices.
pub open spec fn arithmetic(n: int, d: int, m: int) -> Seq<usize> {
    Seq::new(m as nat, |j: int| ((j * d) % n) as usize)
}

/// The list `0, 1, g, g^2, ..` of `m` vertices.
pub open spec fn geometric(n: int, g: int, m: int) -> Seq<usize> {
    Seq::new(
        m as nat,
        |j: int|
            if j == 0 {
                0usize
            } else {
                (pow(g, (j - 1) as nat) % n) as usize
            },
    )
}

/// `s` is the shortest beginning of `whole`, of at least two vertices, without
/// a common dominator.
pub open spec fn shortest_failure(n: int, whole: Seq<usize>, s: Seq<usize>) -> bool {
    &&& 2 <= s.len() <= whole.len()
    &&& s == whole.take(s.len() as int)
    &&& !dominated(n, s)
    &&& s.len() > 2 ==> dominated(n, s.drop_last())
}

/// The last vertex of a shortest undominated list is new in it.
proof fn lemma_last_is_new(n: int, s: Seq<usize>, j: int)
    requires
        s.len() >= 1,
        !dominated(n, s),
        dominated(n, s.drop_last()),
        0 <= j < s.len() - 1,
    ensures
        s[j] != s.last(),
{
    if s[j] == s.last() {
        let t = s.drop_last();
        assert forall|i: int| 0 <= i < s.len() implies t.contains(#[trigger] s[i]) by {
            if i == s.len() - 1 {
                assert(t[j] == s[i]);
            } else {
                assert(t[i] == s[i]);
            }
        }
        lemma_dominated_part(n, t, s);
    }
}

/// The vertices of a shortest undominated arithmetic progression differ.
proof fn lemma_arithmetic_vertices(n: int, d: int, s: Seq<usize>)
    requires
        paley_prime(n),
        n <= usize::MAX,
        1 <= d < n,
        s == arithmetic(n, d, s.len() as int),
        s.len() >= 2,
        !dominated(n, s),
        s.len() > 2 ==> dominated(n, s.drop_last()),
    ensures
        vertices(n, s),
{
    lemma_small_mod(d as nat, n as nat);
    assert forall|i: int| 0 <= i < s.len() implies #[trigger] s[i] < n && s[i] == (i * d) % n by {
        lemma_mod_bound(i * d, n);
    }
    assert forall|i: int, j: int| 0 <= i < s.len() && 0 <= j < s.len() && i < j implies s[i]
        != s[j] by {
        if s[i] == s[j] {
            let m = s.len() - 1;
            let e = m - (j - i);
            // The difference of the two places repeats at the end.
            lemma_mod_equivalence(j * d, i * d, n);
            assert(j * d - i * d == m * d - e * d) by (nonlinear_arith)
                requires
                    e == m - (j - i),
            ;
            lemma_mod_equivalence(m * d, e * d, n);
            assert(s[e] == s[m]);
            if s.len() > 2 {
                lemma_last_is_new(n, s, e);
            } else {
                assert(s[0] == 0 && s[1] == d);
            }
        }
    }
}

/// The vertices of a shortest undominated geometric progression differ.
proof fn lemma_geometric_vertices(n: int, g: int, s: Seq<usize>)
    requires
        paley_prime(n),
        n <= usize::MAX,
        2 <= g < n,
        s == geometric(n, g, s.len() as int),
        s.len() >= 2,
        !dominated(n, s),
        s.len() > 2 ==> dominated(n, s.drop_last()),
    ensures
        vertices(n, s),
{
    assert forall|i: int| 1 <= i < s.len() implies 0 < #[trigger] s[i] < n && s[i] == pow(
        g,
        (i - 1) as nat,
    ) % n by {
        lemma_power_nonzero(n, g, (i - 1) as nat);
        lemma_mod_bound(pow(g, (i - 1) as nat), n);
    }
    assert forall|i: int, j: int| 0 <= i < s.len() && 0 <= j < s.len() && i < j implies s[i]
        != s[j] by {
        assert(s[j] > 0);
        if i > 0 && s[i] == s[j] {
            let m = s.len() - 1;
            let t = (j - i) as nat;
            let a = pow(g, (i - 1) as nat);
            let e = m - t;
            // g^t is 1, so the last power is an earlier one.
            lemma_pow_adds(g, (i - 1) as nat, t);
            lemma_power_nonzero(n, g, (i - 1) as nat);
            lemma_mul_basics(a);
            lemma_mul_is_commutative(a, 1);
            lemma_cancel(n, a, pow(g, t), 1);
            let b = pow(g, (e - 1) as nat);
            lemma_pow_adds(g, (e - 1) as nat, t);
            lemma_mul_basics(b);
            lemma_cong_mul(n, b, b, pow(g, t), 1);
            assert(s[e] == s[m]);
            assert(s.len() > 2);
            lemma_last_is_new(n, s, e);
        }
    }
}

/// A prime divides no power of a smaller number.
proof fn lemma_power_nonzero(n: int, g: int, e: nat)
    requires
        prime(n),
        1 <= g < n,
    ensures
        pow(g, e) % n != 0,
    decreases e,
{
    reveal(pow);
    if e == 0 {
        lemma_small_mod(1, n as nat);
    } else {
        lemma_power_nonzero(n, g, (e - 1) as nat);
        lemma_small_mod(g as nat, n as nat);
        if pow(g, e) % n == 0 {
            lemma_euclid(n, g, pow(g, (e - 1) as nat));
        }
    }
}

/// An arithmetic progression of `n` vertices runs through all of them, and has
/// no common dominator.
pub proof fn lemma_long_arithmetic(n: int, d: int, m: int)
    requires
        paley_prime(n),
        n <= usize::MAX,
        1 <= d < n,
        m >= n,
    ensures
        !dominated(n, arithmetic(n, d, m)),
{
    let s = arithmetic(n, d, m);
    if dominated(n, s) {
        let x = choose|x: int| common_dominator(n, s, x);
        lemma_small_mod(d as nat, n as nat);
        lemma_inverse(n, d);
        let j = (x * inverse(n, d)) % n;
        lemma_mod_bound(x * inverse(n, d), n);
        lemma_mul_mod_noop_left(x * inverse(n, d), d, n);
        assert((x * inverse(n, d)) * d == (d * inverse(n, d)) * x) by (nonlinear_arith);
        lemma_small_mod(1, n as nat);
        lemma_cong_mul(n, d * inverse(n, d), 1, x, x);
        lemma_mul_basics(x);
        lemma_small_mod(x as nat, n as nat);
        assert(s[j] == x);
        lemma_tournament(n, x, x);
    }
}

/// All arithmetic and geometric progressions of `k` vertices have a common
/// dominator.
pub open spec fn progressions_dominated(n: int, k: int) -> bool {
    &&& forall|d: int| 1 <= d < n ==> dominated(n, #[trigger] arithmetic(n, d, k))
    &&& forall|g: int| 2 <= g < n ==> dominated(n, #[trigger] geometric(n, g, k))
}

/// The first arithmetic or geometric progression of `k` vertices without a
/// common dominator, cut off where it loses the last one.
pub open spec fn first_progression(n: int, k: int, s: Seq<usize>) -> bool {
    ||| exists|d: int|
        1 <= d < n && shortest_failure(n, #[trigger] arithmetic(n, d, k), s) && forall|c: int|
            1 <= c < d ==> dominated(n, #[trigger] arithmetic(n, c, k))
    ||| {
        &&& forall|d: int| 1 <= d < n ==> dominated(n, #[trigger] arithmetic(n, d, k))
        &&& exists|g: int|
            2 <= g < n && shortest_failure(n, #[trigger] geometric(n, g, k), s) && forall|c: int|
                2 <= c < g ==> dominated(n, #[trigger] geometric(n, c, k))
    }
}

/// Follows the arithmetic progression with difference `d` until it loses its
/// last common dominator.
fn arithmetic_witness(p: &Paley, k: usize, d: usize) -> (r: Option<Vec<usize>>)
    requires
        p.wf(),
        k >= 2,
        1 <= d < p.n,
    ensures
        match r {
            Some(s) => shortest_failure(p.n as int, arithmetic(p.n as int, d as int, k as int), s@)
                && counterexample(p.n as int, k as int, s@),
            None => dominated(p.n as int, arithmetic(p.n as int, d as int, k as int)),
        },
{
    let ghost n = p.n as int;
    let ghost whole = arithmetic(n, d as int, k as int);
    let mut scratch = BitSet::zeros(p.nwords);
    scratch.copy_from(&p.nb[0]);
    let mut s: Vec<usize> = Vec::new();
    s.push(0);
    let mut j: usize = 1;
    proof {
        lemma_fits(n);
        lemma_mul_basics(d as int);
        lemma_small_mod(0, n as nat);
        assert(s@ =~= arithmetic(n, d as int, 1));
        assert(s@.skip(1) =~= Seq::<usize>::empty());
        assert(scratch@ =~= narrowed(n, dominators(n, 0), s@.skip(1)));
        assert(scratch@ != Set::<int>::empty()) by {
            crate::enumerate::lemma_single(n);
        }
    }
    while j < k
        invariant
            p.wf(),
            n == p.n,
            k >= 2,
            1 <= d < p.n,
            1 <= j <= k,
            whole == arithmetic(n, d as int, k as int),
            s@ == arithmetic(n, d as int, j as int),
            scratch.words@.len() == p.nwords,
            scratch@ == narrowed(n, dominators(n, 0), s@.skip(1)),
            scratch@ != Set::<int>::empty(),
        decreases k - j,
    {
        proof {
            lemma_fits(n);
            assert(s@[0] == 0) by {
                lemma_mul_basics(d as int);
                lemma_small_mod(0, n as nat);
            }
            assert(seq![0usize] + s@.skip(1) =~= s@);
            lemma_narrowed_dominators(n, 0, s@.skip(1));
            if j >= n {
                lemma_long_arithmetic(n, d as int, j as int);
            }
            assert(0 <= j as int * d as int <= usize::MAX);
            lemma_mod_bound(j * d, n);
        }
        let ghost before = s@;
        let v: usize = (j * d) % p.n;
        s.push(v);
        let alive: bool = scratch.and_assign(&p.nb[v]);
        proof {
            assert(s@ =~= arithmetic(n, d as int, j + 1));
            lemma_narrowed_push(n, dominators(n, 0), before.skip(1), v);
            assert(before.skip(1).push(v) =~= s@.skip(1));
            assert(seq![0usize] + s@.skip(1) =~= s@);
            lemma_narrowed_dominators(n, 0, s@.skip(1));
            assert(s@.drop_last() =~= before);
        }
        if !alive {
            proof {
                assert(s@ =~= whole.take(s@.len() as int));
                lemma_arithmetic_vertices(n, d as int, s@);
            }
            return Some(s);
        }
        j = j + 1;
    }
    proof {
        assert(s@[0] == 0) by {
            lemma_mul_basics(d as int);
            lemma_small_mod(0, n as nat);
        }
        assert(seq![0usize] + s@.skip(1) =~= s@);
        lemma_narrowed_dominators(n, 0, s@.skip(1));
    }
    None
}

/// Follows the geometric progression with ratio `g` until it loses its last
/// common dominator.
fn geometric_witness(p: &Paley, k: usize, g: usize) -> (r: Option<Vec<usize>>)
    requires
        p.wf(),
        k >= 2,
        2 <= g < p.n,
    ensures
        match r {
            Some(s) => shortest_failure(p.n as int, geometric(p.n as int, g as int, k as int), s@)
                && counterexample(p.n as int, k as int, s@),
            None => dominated(p.n as int, geometric(p.n as int, g as int, k as int)),
        },
{
    let ghost n = p.n as int;
    let ghost whole = geometric(n, g as int, k as int);
    let mut scratch = BitSet::zeros(p.nwords);
    scratch.copy_from(&p.nb[0]);
    let mut s: Vec<usize> = Vec::new();
    s.push(0);
    let mut x: usize = 1;
    let mut j: usize = 1;
    proof {
        lemma_fits(n);
        lemma_pow0(g as int);
        lemma_small_mod(1, n as nat);
        assert(s@ =~= geometric(n, g as int, 1));
        assert(s@.skip(1) =~= Seq::<usize>::empty());
        assert(scratch@ =~= narrowed(n, dominators(n, 0), s@.skip(1)));
        assert(scratch@ != Set::<int>::empty()) by {
            crate::enumerate::lemma_single(n);
        }
    }
    while j < k
        invariant
            p.wf(),
            n == p.n,
            k >= 2,
            2 <= g < p.n,
            1 <= j <= k,
            x < p.n,
            x == pow(g as int, (j - 1) as nat) % n,
            whole == geometric(n, g as int, k as int),
            s@ == geometric(n, g as int, j as int),
            scratch.words@.len() == p.nwords,
            scratch@ == narrowed(n, dominators(n, 0), s@.skip(1)),
            scratch@ != Set::<int>::empty(),
        decreases k - j,
    {
        let ghost before = s@;
        s.push(x);
        let alive: bool = scratch.and_assign(&p.nb[x]);
        proof {
            assert(s@ =~= geometric(n, g as int, j + 1));
            lemma_narrowed_push(n, dominators(n, 0), before.skip(1), x);
            assert(before.skip(1).push(x) =~= s@.skip(1));
            assert(seq![0usize] + before.skip(1) =~= before);
            assert(seq![0usize] + s@.skip(1) =~= s@);
            lemma_narrowed_dominators(n, 0, before.skip(1));
            lemma_narrowed_dominators(n, 0, s@.skip(1));
            assert(s@.drop_last() =~= before);
        }
        if !alive {
            proof {
                assert(s@ =~= whole.take(s@.len() as int));
                lemma_geometric_vertices(n, g as int, s@);
            }
            return Some(s);
        }
        proof {
            lemma_fits(n);
            assert(0 <= x as int * g as int <= usize::MAX);
            lemma_mod_bound(x * g, n);
            let e = pow(g as int, (j - 1) as nat);
            lemma_mul_mod_noop_left(e, g as int, n);
            reveal(pow);
            lemma_mul_is_commutative(e, g as int);
            assert(pow(g as int, j as nat) == g * e);
        }
        x = (x * g) % p.n;
        j = j + 1;
    }
    proof {
        assert(seq![0usize] + s@.skip(1) =~= s@);
        lemma_narrowed_dominators(n, 0, s@.skip(1));
    }
    None
}

/// Looks for a progression of at most `k` vertices without a common dominator:
/// first the arithmetic progressions through 0, then the lists of 0 and the
/// powers of a number.
pub fn structural_witness(p: &Paley, k: usize) -> (r: Option<Vec<usize>>)
    requires
        p.wf(),
    ensures
        match r {
            Some(s) => k >= 2 && first_progression(p.n as int, k as int, s@) && counterexample(
                p.n as int,
                k as int,
                s@,
            ),
            None => k < 2 || progressions_dominated(p.n as int, k as int),
        },
{
    if k < 2 {
        return None;
    }
    let ghost n = p.n as int;
    let mut d: usize = 1;
    while d < p.n
        invariant
            p.wf(),
            n == p.n,
            k >= 2,
            1 <= d <= p.n,
            forall|c: int| 1 <= c < d ==> dominated(n, #[trigger] arithmetic(n, c, k as int)),
        decreases p.n - d,
    {
        match arithmetic_witness(p, k, d) {
            Some(s) => {
                return Some(s);
            },
            None => {},
        }
        d = d + 1;
    }
    let mut g: usize = 2;
    while g < p.n
        invariant
            p.wf(),
            n == p.n,
            k >= 2,
            2 <= g <= p.n,
            forall|c: int| 1 <= c < n ==> dominated(n, #[trigger] arithmetic(n, c, k as int)),
            forall|c: int| 2 <= c < g ==> dominated(n, #[trigger] geometric(n, c, k as int)),
        decreases p.n - g,
    {
        match geometric_witness(p, k, g) {
            Some(s) => {
                return Some(s);
            },
            None => {},
        }
        g = g + 1;
    }
    None
}

/// Where the progressions of `k` vertices have common dominators, there are at
/// least `k` vertices.
pub proof fn lemma_progressions_need_vertices(n: int, k: int)
    requires
        paley_prime(n),
        n <= usize::MAX,
        progressions_dominated(n, k),
    ensures
        k < n,
{
    if k >= n {
        lemma_long_arithmetic(n, 1, k);
        assert(dominated(n, arithmetic(n, 1, k)));
    }
}

/// Vertices from 0 on, each the one before it plus `d`.
pub open spec fn by_steps(n: int, d: int, s: Seq<usize>) -> bool {
    &&& s.len() > 0
    &&& s[0] == 0
    &&& forall|i: int| 0 <= i < s.len() ==> #[trigger] s[i] < n
    &&& forall|i: int, j: int|
        0 <= i && j == i + 1 && j < s.len() ==> (#[trigger] s[j] - #[trigger] s[i] - d) % n == 0
}

/// Vertices 0 and 1, and from there on each the one before it times `g`.
pub open spec fn by_factors(n: int, g: int, s: Seq<usize>) -> bool {
    &&& s.len() >= 2
    &&& s[0] == 0
    &&& s[1] == 1
    &&& forall|i: int| 0 <= i < s.len() ==> #[trigger] s[i] < n
    &&& forall|i: int, j: int|
        1 <= i && j == i + 1 && j < s.len() ==> (#[trigger] s[j] - #[trigger] s[i] * g) % n == 0
}

/// Numbers below `n` that differ by a multiple of it are the same.
proof fn lemma_same(n: int, a: int, b: int)
    requires
        0 <= a < n,
        0 <= b < n,
        (a - b) % n == 0,
    ensures
        a == b,
{
    lemma_fundamental_div_mod(a - b, n);
    let q = (a - b) / n;
    assert(q == 0) by (nonlinear_arith)
        requires
            a - b == n * q,
            -n < a - b < n,
            n > 0,
    ;
    assert(n * 0 == 0) by (nonlinear_arith);
}

/// A difference of multiples of `n` is one.
proof fn lemma_chain(n: int, a: int, b: int, c: int)
    requires
        n > 0,
        (a - b) % n == 0,
        (b - c) % n == 0,
    ensures
        (a - c) % n == 0,
{
    lemma_add_mod_noop(a - b, b - c, n);
    lemma_small_mod(0, n as nat);
}

/// The remainder differs from the number by a multiple of `n`.
proof fn lemma_remainder(n: int, a: int)
    requires
        n > 0,
    ensures
        0 <= a % n < n,
        (a % n - a) % n == 0,
        (a - a % n) % n == 0,
{
    lemma_mod_bound(a, n);
    lemma_fundamental_div_mod(a, n);
    let q = a / n;
    lemma_mod_multiples_basic(q, n);
    lemma_mod_multiples_basic(-q, n);
    assert(a - a % n == q * n && a % n - a == (-q) * n) by (nonlinear_arith)
        requires
            a == n * q + a % n,
    ;
}

/// Equal steps make the arithmetic progression.
proof fn lemma_by_steps(n: int, d: int, s: Seq<usize>, i: int)
    requires
        0 < n <= usize::MAX,
        by_steps(n, d, s),
        0 <= i < s.len(),
    ensures
        s[i] == arithmetic(n, d, s.len() as int)[i],
    decreases i,
{
    lemma_remainder(n, i * d);
    if i == 0 {
        assert(0 * d == 0) by (nonlinear_arith);
        lemma_small_mod(0, n as nat);
    } else {
        lemma_by_steps(n, d, s, i - 1);
        lemma_remainder(n, (i - 1) * d);
        let r = ((i - 1) * d) % n;
        assert(s[i - 1] == r);
        assert((s[i] - s[i - 1] - d) % n == 0);
        assert(i * d == (i - 1) * d + d) by (nonlinear_arith);
        assert(s[i] - (r + d) == s[i] - s[i - 1] - d);
        assert((r + d) - i * d == r - (i - 1) * d);
        lemma_chain(n, s[i] as int, r + d, i * d);
        lemma_chain(n, s[i] as int, i * d, (i * d) % n);
        lemma_same(n, s[i] as int, (i * d) % n);
    }
}

/// Equal factors make the geometric progression.
proof fn lemma_by_factors(n: int, g: int, s: Seq<usize>, i: int)
    requires
        1 < n <= usize::MAX,
        by_factors(n, g, s),
        0 <= i < s.len(),
    ensures
        s[i] == geometric(n, g, s.len() as int)[i],
    decreases i,
{
    if i == 1 {
        lemma_pow0(g);
        lemma_small_mod(1, n as nat);
    } else if i > 1 {
        lemma_by_factors(n, g, s, i - 1);
        let e = (i - 2) as nat;
        let x = pow(g, e);
        let y = pow(g, (i - 1) as nat);
        lemma_remainder(n, x);
        lemma_remainder(n, y);
        assert(y == g * x) by {
            reveal(pow);
        }
        let r = x % n;
        assert(s[i - 1] == r);
        assert((s[i] - s[i - 1] * g) % n == 0);
        assert((r * g - y) % n == 0) by {
            lemma_mul_mod_noop_left(r - x, g, n);
            assert((r - x) * g == r * g - y) by (nonlinear_arith)
                requires
                    y == g * x,
            ;
            assert(((r - x) % n) * g == 0) by (nonlinear_arith)
                requires
                    (r - x) % n == 0,
            ;
            lemma_small_mod(0, n as nat);
        }
        lemma_chain(n, s[i] as int, r * g, y);
        lemma_chain(n, s[i] as int, y, y % n);
        lemma_same(n, s[i] as int, y % n);
    }
}

/// Where the search among the progressions comes to nothing, every list of `k`
/// vertices from 0 on in equal steps has a common dominator, and so has every
/// list of 0, 1 and on by equal factors.
pub proof fn lemma_no_progression(n: int, k: int, d: int, s: Seq<usize>)
    requires
        paley_prime(n),
        n <= usize::MAX,
        progressions_dominated(n, k),
        s.len() == k,
        1 <= d < n && by_steps(n, d, s) || 2 <= d < n && by_factors(n, d, s),
    ensures
        dominated(n, s),
{
    if 1 <= d < n && by_steps(n, d, s) {
        assert forall|i: int| 0 <= i < s.len() implies s[i] == arithmetic(n, d, k)[i] by {
            lemma_by_steps(n, d, s, i);
        }
        assert(s =~= arithmetic(n, d, k));
        assert(dominated(n, arithmetic(n, d, k)));
    } else {
        assert forall|i: int| 0 <= i < s.len() implies s[i] == geometric(n, d, k)[i] by {
            lemma_by_factors(n, d, s, i);
        }
        assert(s =~= geometric(n, d, k));
        assert(dominated(n, geometric(n, d, k)));
    }
}

/// The arithmetic progression goes in equal steps.
proof fn lemma_arithmetic_steps(n: int, d: int, m: int)
    requires
        0 < n <= usize::MAX,
        m > 0,
    ensures
        by_steps(n, d, arithmetic(n, d, m)),
{
    let s = arithmetic(n, d, m);
    assert forall|i: int| 0 <= i < m implies #[trigger] s[i] < n && s[i] == (i * d) % n by {
        lemma_mod_bound(i * d, n);
    }
    assert(s[0] == 0) by {
        assert(0 * d == 0) by (nonlinear_arith);
        lemma_small_mod(0, n as nat);
    }
    assert forall|i: int, j: int| 0 <= i && j == i + 1 && j < s.len() implies (#[trigger] s[j]
        - #[trigger] s[i] - d) % n == 0 by {
        lemma_remainder(n, i * d);
        lemma_remainder(n, j * d);
        assert(j * d == i * d + d) by (nonlinear_arith)
            requires
                j == i + 1,
        ;
        assert(i * d + d - (s[i] + d) == i * d - (i * d) % n);
        lemma_chain(n, s[j] as int, j * d, s[i] + d);
        assert(s[j] - (s[i] + d) == s[j] - s[i] - d);
    }
}

/// The geometric progression goes by equal factors.
proof fn lemma_geometric_factors(n: int, g: int, m: int)
    requires
        1 < n <= usize::MAX,
        m >= 2,
    ensures
        by_factors(n, g, geometric(n, g, m)),
{
    let s = geometric(n, g, m);
    assert forall|i: int| 0 <= i < m implies #[trigger] s[i] < n by {
        if i > 0 {
            lemma_mod_bound(pow(g, (i - 1) as nat), n);
        }
    }
    lemma_pow0(g);
    lemma_small_mod(1, n as nat);
    assert forall|i: int, j: int| 1 <= i && j == i + 1 && j < s.len() implies (#[trigger] s[j]
        - #[trigger] s[i] * g) % n == 0 by {
        let x = pow(g, (i - 1) as nat);
        let y = pow(g, (j - 1) as nat);
        assert(y == g * x) by {
            reveal(pow);
        }
        lemma_remainder(n, x);
        lemma_remainder(n, y);
        let r = x % n;
        assert(s[i] == r && s[j] == y % n);
        assert((y - r * g) % n == 0) by {
            lemma_mul_mod_noop_left(x - r, g, n);
            assert((x - r) * g == y - r * g) by (nonlinear_arith)
                requires
                    y == g * x,
            ;
            assert(((x - r) % n) * g == 0) by (nonlinear_arith)
                requires
                    (x - r) % n == 0,
            ;
            lemma_small_mod(0, n as nat);
        }
        lemma_chain(n, s[j] as int, y, r * g);
    }
}

/// The list goes in steps of `d`, and all lists of `k` vertices in smaller
/// steps have a common dominator.
pub open spec fn first_by_steps(n: int, k: int, d: int, s: Seq<usize>) -> bool {
    &&& 1 <= d < n
    &&& by_steps(n, d, s)
    &&& forall|c: int, t: Seq<usize>|
        1 <= c < d && t.len() == k && #[trigger] by_steps(n, c, t) ==> dominated(n, t)
}

/// The list goes by factors of `g`, and all lists of `k` vertices in equal
/// steps, or by smaller factors, have a common dominator.
pub open spec fn first_by_factors(n: int, k: int, g: int, s: Seq<usize>) -> bool {
    &&& 2 <= g < n
    &&& by_factors(n, g, s)
    &&& forall|c: int, t: Seq<usize>|
        1 <= c < n && t.len() == k && #[trigger] by_steps(n, c, t) ==> dominated(n, t)
    &&& forall|c: int, t: Seq<usize>|
        2 <= c < g && t.len() == k && #[trigger] by_factors(n, c, t) ==> dominated(n, t)
}

/// A progression that is found goes in equal steps from 0 on, or by equal
/// factors from 0 and 1 on, has no common dominator, and has just lost its
/// last one; and all lists of `k` vertices in smaller steps have one.
pub proof fn lemma_found_progression(n: int, k: int, s: Seq<usize>)
    requires
        paley_prime(n),
        n <= usize::MAX,
        k >= 2,
        first_progression(n, k, s),
    ensures
        2 <= s.len() <= k,
        !dominated(n, s),
        s.len() > 2 ==> dominated(n, s.drop_last()),
        (exists|d: int| first_by_steps(n, k, d, s)) || (exists|g: int|
            first_by_factors(n, k, g, s)),
{
    if exists|d: int|
        1 <= d < n && shortest_failure(n, #[trigger] arithmetic(n, d, k), s) && forall|c: int|
            1 <= c < d ==> dominated(n, #[trigger] arithmetic(n, c, k)) {
        let d = choose|d: int|
            1 <= d < n && shortest_failure(n, #[trigger] arithmetic(n, d, k), s) && forall|c: int|
                1 <= c < d ==> dominated(n, #[trigger] arithmetic(n, c, k));
        lemma_arithmetic_steps(n, d, k);
        let whole = arithmetic(n, d, k);
        assert(by_steps(n, d, s)) by {
            assert forall|i: int| 0 <= i < s.len() implies #[trigger] s[i] == whole[i] by {}
        }
        assert forall|c: int, t: Seq<usize>|
            1 <= c < d && t.len() == k && #[trigger] by_steps(n, c, t) implies dominated(n, t) by {
            assert forall|i: int| 0 <= i < t.len() implies t[i] == arithmetic(n, c, k)[i] by {
                lemma_by_steps(n, c, t, i);
            }
            assert(t =~= arithmetic(n, c, k));
            assert(dominated(n, arithmetic(n, c, k)));
        }
        assert(first_by_steps(n, k, d, s));
    } else {
        let g = choose|g: int|
            2 <= g < n && shortest_failure(n, #[trigger] geometric(n, g, k), s) && forall|c: int|
                2 <= c < g ==> dominated(n, #[trigger] geometric(n, c, k));
        lemma_geometric_factors(n, g, k);
        let whole = geometric(n, g, k);
        assert(by_factors(n, g, s)) by {
            assert forall|i: int| 0 <= i < s.len() implies #[trigger] s[i] == whole[i] by {}
        }
        assert forall|c: int, t: Seq<usize>|
            1 <= c < n && t.len() == k && #[trigger] by_steps(n, c, t) implies dominated(n, t) by {
            assert forall|i: int| 0 <= i < t.len() implies t[i] == arithmetic(n, c, k)[i] by {
                lemma_by_steps(n, c, t, i);
            }
            assert(t =~= arithmetic(n, c, k));
            assert(dominated(n, arithmetic(n, c, k)));
        }
        assert forall|c: int, t: Seq<usize>|
            2 <= c < g && t.len() == k && #[trigger] by_factors(n, c, t) implies dominated(n, t) by {
            assert forall|i: int| 0 <= i < t.len() implies t[i] == geometric(n, c, k)[i] by {
                lemma_by_factors(n, c, t, i);
            }
            assert(t =~= geometric(n, c, k));
            assert(dominated(n, geometric(n, c, k)));
        }
        assert(first_by_factors(n, k, g, s));
    }
}

} // verus!
