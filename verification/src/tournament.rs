//! The Paley tournament on `n` vertices as a mathematical object: its arcs,
//! common dominators, and the property S_k.
use crate::modular::{
    inverse, lemma_cancel, lemma_cong_mul, lemma_cong_sub, lemma_inverse, prime,
};
use crate::primes::paley_prime;
use crate::residues::{
    lemma_residue_cong, lemma_residue_dichotomy, lemma_residue_div, lemma_residue_inverse,
    lemma_residue_mul, lemma_zero_not_residue, residue,
};
use vstd::arithmetic::div_mod::*;
use vstd::arithmetic::mul::*;
use vstd::prelude::*;
use vstd::seq_lib::*;
use vstd::set_lib::*;

verus! {

/// Vertex `x` dominates vertex `v`: the difference `v - x` is a residue.
pub open spec fn dominates(n: int, x: int, v: int) -> bool {
    residue(n, v - x)
}

/// The vertices that dominate `v`.
pub open spec fn dominators(n: int, v: int) -> Set<int> {
    Set::new(|x: int| 0 <= x < n && dominates(n, x, v))
}

/// `x` is a vertex that dominates every vertex of the list.
pub open spec fn common_dominator(n: int, s: Seq<usize>, x: int) -> bool {
    0 <= x < n && forall|i: int| 0 <= i < s.len() ==> dominates(n, x, #[trigger] s[i] as int)
}

/// The vertices that dominate every vertex of the list.
pub open spec fn common_dominators(n: int, s: Seq<usize>) -> Set<int> {
    Set::new(|x: int| common_dominator(n, s, x))
}

/// The members of `mask` that dominate every vertex of the list.
pub open spec fn narrowed(n: int, mask: Set<int>, s: Seq<usize>) -> Set<int> {
    Set::new(
        |x: int|
            mask.contains(x) && forall|i: int|
                0 <= i < s.len() ==> dominators(n, #[trigger] s[i] as int).contains(x),
    )
}

/// The list has a common dominator.
pub open spec fn dominated(n: int, s: Seq<usize>) -> bool {
    exists|x: int| common_dominator(n, s, x)
}

/// A list of distinct vertices.
pub open spec fn vertices(n: int, s: Seq<usize>) -> bool {
    s.no_duplicates() && forall|i: int| 0 <= i < s.len() ==> #[trigger] s[i] < n
}

/// Every `k` distinct vertices have a common dominator.
pub open spec fn each_dominated(n: int, k: int) -> bool {
    forall|s: Seq<usize>| #[trigger] vertices(n, s) && s.len() == k ==> dominated(n, s)
}

/// The property S_k: no `k` vertices, equal or not, lack a common dominator.
/// On at least `k` vertices it says no more than `each_dominated`.
pub open spec fn property_s(n: int, k: int) -> bool {
    forall|s: Seq<usize>| #[trigger] vertices(n, s) && s.len() <= k ==> dominated(n, s)
}

/// A counterexample to S_k: at most `k` distinct vertices without a common
/// dominator.
pub open spec fn counterexample(n: int, k: int, s: Seq<usize>) -> bool {
    vertices(n, s) && s.len() <= k && !dominated(n, s)
}

/// A strictly increasing list.
pub open spec fn increasing(s: Seq<usize>) -> bool {
    forall|i: int, j: int| 0 <= i < j < s.len() ==> s[i] < s[j]
}

/// Of two distinct vertices exactly one dominates the other, and no vertex
/// dominates itself.
pub proof fn lemma_tournament(n: int, x: int, v: int)
    requires
        paley_prime(n),
        0 <= x < n,
        0 <= v < n,
    ensures
        x != v ==> dominates(n, x, v) != dominates(n, v, x),
        x == v ==> !dominates(n, x, v),
{
    if x == v {
        lemma_small_mod(0, n as nat);
        lemma_zero_not_residue(n, 0);
    } else {
        assert((v - x) % n != 0) by {
            if x < v {
                lemma_small_mod((v - x) as nat, n as nat);
            } else {
                lemma_mod_add_multiples_vanish(v - x, n);
                lemma_small_mod((n + v - x) as nat, n as nat);
            }
        }
        lemma_residue_dichotomy(n, v - x);
        assert(-(v - x) == x - v);
    }
}

/// The tournament is unchanged by every map `y -> (y - a) * c` with a residue
/// `c`.
pub proof fn lemma_automorphism(n: int, a: int, c: int, x: int, v: int)
    requires
        paley_prime(n),
        residue(n, c),
    ensures
        dominates(n, ((x - a) * c) % n, ((v - a) * c) % n) == dominates(n, x, v),
{
    let y = (x - a) * c;
    let w = (v - a) * c;
    lemma_mod_twice(y, n);
    lemma_mod_twice(w, n);
    lemma_cong_sub(n, w % n, w, y % n, y);
    lemma_residue_cong(n, w % n - y % n, w - y);
    assert(w - y == c * (v - x)) by (nonlinear_arith)
        requires
            w == (v - a) * c,
            y == (x - a) * c,
    ;
    if residue(n, v - x) {
        lemma_residue_mul(n, c, v - x);
    }
    if residue(n, c * (v - x)) {
        lemma_residue_div(n, c, v - x);
    }
}

/// Narrowing by one more vertex intersects with its dominators.
pub proof fn lemma_narrowed_push(n: int, mask: Set<int>, s: Seq<usize>, v: usize)
    ensures
        narrowed(n, mask, s.push(v)) == narrowed(n, mask, s).intersect(dominators(n, v as int)),
{
    let t = s.push(v);
    assert forall|x: int| narrowed(n, mask, t).contains(x) <==> narrowed(n, mask, s).intersect(
        dominators(n, v as int),
    ).contains(x) by {
        if narrowed(n, mask, t).contains(x) {
            assert(dominators(n, t[s.len() as int] as int).contains(x));
            assert forall|i: int| 0 <= i < s.len() implies dominators(
                n,
                #[trigger] s[i] as int,
            ).contains(x) by {
                assert(t[i] == s[i]);
            }
        }
    }
    assert(narrowed(n, mask, t) =~= narrowed(n, mask, s).intersect(dominators(n, v as int)));
}

/// Narrowing by one list and another by turns is narrowing by both.
pub proof fn lemma_narrowed_add(n: int, mask: Set<int>, s: Seq<usize>, t: Seq<usize>)
    ensures
        narrowed(n, narrowed(n, mask, s), t) == narrowed(n, mask, s + t),
{
    let st = s + t;
    assert forall|x: int| narrowed(n, narrowed(n, mask, s), t).contains(x) <==> narrowed(
        n,
        mask,
        st,
    ).contains(x) by {
        if narrowed(n, mask, st).contains(x) {
            assert forall|i: int| 0 <= i < s.len() implies dominators(
                n,
                #[trigger] s[i] as int,
            ).contains(x) by {
                assert(st[i] == s[i]);
            }
            assert forall|i: int| 0 <= i < t.len() implies dominators(
                n,
                #[trigger] t[i] as int,
            ).contains(x) by {
                assert(st[s.len() + i] == t[i]);
            }
        }
    }
    assert(narrowed(n, narrowed(n, mask, s), t) =~= narrowed(n, mask, st));
}

/// Narrowing by one vertex intersects with its dominators.
pub proof fn lemma_narrowed_one(n: int, mask: Set<int>, v: usize)
    ensures
        narrowed(n, mask, seq![v]) == mask.intersect(dominators(n, v as int)),
{
    assert(narrowed(n, mask, Seq::empty()) =~= mask);
    lemma_narrowed_push(n, mask, Seq::empty(), v);
    assert(Seq::<usize>::empty().push(v) =~= seq![v]);
}

/// Narrowing further loses members only.
pub proof fn lemma_narrowed_part(n: int, mask: Set<int>, s: Seq<usize>, t: Seq<usize>)
    requires
        forall|i: int| 0 <= i < s.len() ==> t.contains(#[trigger] s[i]),
    ensures
        narrowed(n, mask, t).subset_of(narrowed(n, mask, s)),
{
    assert forall|x: int| narrowed(n, mask, t).contains(x) implies narrowed(n, mask, s).contains(
        x,
    ) by {
        assert forall|i: int| 0 <= i < s.len() implies dominators(
            n,
            #[trigger] s[i] as int,
        ).contains(x) by {
            let j = choose|j: int| 0 <= j < t.len() && t[j] == s[i];
            assert(dominators(n, t[j] as int).contains(x));
        }
    }
}

/// Narrowing the dominators of a vertex leaves the common dominators.
pub proof fn lemma_narrowed_dominators(n: int, a: usize, s: Seq<usize>)
    ensures
        narrowed(n, dominators(n, a as int), s) == common_dominators(n, seq![a] + s),
        dominated(n, seq![a] + s) <==> narrowed(n, dominators(n, a as int), s) != Set::<
            int,
        >::empty(),
{
    let t = seq![a] + s;
    let m = narrowed(n, dominators(n, a as int), s);
    assert forall|x: int| m.contains(x) <==> common_dominator(n, t, x) by {
        if common_dominator(n, t, x) {
            assert(t[0] == a);
            assert forall|i: int| 0 <= i < s.len() implies dominators(
                n,
                #[trigger] s[i] as int,
            ).contains(x) by {
                assert(t[i + 1] == s[i]);
            }
        }
        if m.contains(x) {
            assert forall|i: int| 0 <= i < t.len() implies dominates(
                n,
                x,
                #[trigger] t[i] as int,
            ) by {
                if i > 0 {
                    assert(t[i] == s[i - 1]);
                }
            }
        }
    }
    assert(m =~= common_dominators(n, t));
    if dominated(n, t) {
        let x = choose|x: int| common_dominator(n, t, x);
        assert(m.contains(x));
    }
    if m != Set::<int>::empty() {
        let x = choose|x: int| m.contains(x);
        if forall|x: int| !m.contains(x) {
            assert(m =~= Set::<int>::empty());
        }
        assert(common_dominator(n, t, x));
    }
}

/// A list whose vertices all stand in a dominated list is dominated.
pub proof fn lemma_dominated_part(n: int, s: Seq<usize>, t: Seq<usize>)
    requires
        dominated(n, s),
        forall|i: int| 0 <= i < t.len() ==> s.contains(#[trigger] t[i]),
    ensures
        dominated(n, t),
{
    let x = choose|x: int| common_dominator(n, s, x);
    assert(common_dominator(n, t, x)) by {
        assert forall|i: int| 0 <= i < t.len() implies dominates(n, x, #[trigger] t[i] as int) by {
            assert(s.contains(t[i]));
            let j = choose|j: int| 0 <= j < s.len() && s[j] == t[i];
            assert(dominates(n, x, s[j] as int));
        }
    }
}

/// A list that holds every vertex from `lo` up to `n` is as long as these are
/// many.
pub proof fn lemma_covering_length(n: int, lo: int, s: Seq<usize>)
    requires
        0 <= lo <= n <= usize::MAX,
        forall|v: usize| lo <= v < n ==> s.contains(v),
    ensures
        s.len() >= n - lo,
{
    let all = set_int_range(lo, n);
    lemma_int_range(lo, n);
    let f = |v: usize| v as int;
    let image = s.to_set().map(f);
    seq_to_set_is_finite(s);
    s.lemma_cardinality_of_set();
    s.to_set().lemma_map_finite(f);
    lemma_map_size(s.to_set(), image, f);
    assert(all.subset_of(image)) by {
        assert forall|x: int| all.contains(x) implies image.contains(x) by {
            let v = x as usize;
            assert(s.contains(v));
            assert(s.to_set().contains(v));
            assert(f(v) == x);
        }
    }
    lemma_len_subset(all, image);
}

/// A list of distinct vertices from `lo` on is at most as long as these are
/// many.
pub proof fn lemma_distinct_length(n: int, lo: int, s: Seq<usize>)
    requires
        0 <= lo <= n,
        vertices(n, s),
        forall|i: int| 0 <= i < s.len() ==> lo <= #[trigger] s[i],
    ensures
        s.len() <= n - lo,
{
    let all = set_int_range(lo, n);
    lemma_int_range(lo, n);
    let f = |v: usize| v as int;
    let image = s.to_set().map(f);
    s.unique_seq_to_set();
    s.to_set().lemma_map_finite(f);
    lemma_map_size(s.to_set(), image, f);
    assert(image.subset_of(all)) by {
        assert forall|x: int| image.contains(x) implies all.contains(x) by {
            let v = choose|v: usize| s.to_set().contains(v) && f(v) == x;
            assert(s.contains(v));
        }
    }
    lemma_len_subset(image, all);
}

/// A list shorter than the number of vertices leaves a vertex out.
proof fn lemma_unused_vertex(n: int, s: Seq<usize>) -> (v: usize)
    requires
        vertices(n, s),
        s.len() < n <= usize::MAX,
    ensures
        v < n,
        !s.contains(v),
{
    if forall|v: usize| v < n ==> s.contains(v) {
        lemma_covering_length(n, 0, s);
    }
    choose|v: usize| v < n && !s.contains(v)
}

/// A list of distinct vertices can be filled up to any length up to `n`.
pub proof fn lemma_extend(n: int, s: Seq<usize>, k: int) -> (t: Seq<usize>)
    requires
        vertices(n, s),
        s.len() <= k <= n <= usize::MAX,
    ensures
        vertices(n, t),
        t.len() == k,
        forall|i: int| 0 <= i < s.len() ==> t[i] == s[i],
    decreases k - s.len(),
{
    if s.len() == k {
        s
    } else {
        let v = lemma_unused_vertex(n, s);
        assert(vertices(n, s.push(v))) by {
            assert forall|i: int, j: int|
                0 <= i < s.len() + 1 && 0 <= j < s.len() + 1 && i != j implies s.push(v)[i]
                != s.push(v)[j] by {
                assert(s.contains(s[0]) || s.len() == 0);
                if i == s.len() {
                    assert(s.contains(s[j]));
                }
                if j == s.len() {
                    assert(s.contains(s[i]));
                }
            }
        }
        let t = lemma_extend(n, s.push(v), k);
        assert forall|i: int| 0 <= i < s.len() implies t[i] == s[i] by {
            assert(s.push(v)[i] == s[i]);
        }
        t
    }
}

/// On at least `k` vertices, S_k says that every `k` distinct vertices have a
/// common dominator.
pub proof fn lemma_property_s(n: int, k: int)
    requires
        0 <= k <= n <= usize::MAX,
    ensures
        property_s(n, k) <==> each_dominated(n, k),
{
    if each_dominated(n, k) {
        assert forall|s: Seq<usize>| #[trigger] vertices(n, s) && s.len() <= k implies dominated(
            n,
            s,
        ) by {
            let t = lemma_extend(n, s, k);
            assert(dominated(n, t));
            assert forall|i: int| 0 <= i < s.len() implies t.contains(#[trigger] s[i]) by {
                assert(t[i] == s[i]);
            }
            lemma_dominated_part(n, t, s);
        }
    }
}

/// S_k is inherited by all smaller indices.
pub proof fn lemma_property_s_monotone(n: int, j: int, k: int)
    requires
        j <= k,
        property_s(n, k),
    ensures
        property_s(n, j),
{
    assert forall|s: Seq<usize>| #[trigger] vertices(n, s) && s.len() <= j implies dominated(
        n,
        s,
    ) by {}
}

/// No tournament on fewer than `k` vertices has S_k: the list of all vertices
/// has no common dominator.
pub proof fn lemma_property_s_needs_vertices(n: int, k: int)
    requires
        paley_prime(n),
        n <= k,
        n <= usize::MAX,
    ensures
        !property_s(n, k),
{
    let s = Seq::new(n as nat, |i: int| i as usize);
    assert(vertices(n, s));
    if dominated(n, s) {
        let x = choose|x: int| common_dominator(n, s, x);
        assert(s[x] == x);
        lemma_tournament(n, x, x);
    }
}

/// The members of `r` from `lo` up to `hi`, in increasing order.
pub open spec fn ascending(r: Set<int>, lo: int, hi: int) -> Seq<usize>
    decreases hi - lo,
{
    if lo >= hi {
        Seq::empty()
    } else if r.contains(lo) {
        seq![lo as usize] + ascending(r, lo + 1, hi)
    } else {
        ascending(r, lo + 1, hi)
    }
}

pub proof fn lemma_ascending(r: Set<int>, lo: int, hi: int)
    requires
        0 <= lo,
        hi <= usize::MAX,
    ensures
        increasing(ascending(r, lo, hi)),
        forall|x: usize| #[trigger]
            ascending(r, lo, hi).contains(x) <==> lo <= x < hi && r.contains(x as int),
        r.finite() && (forall|x: int| r.contains(x) ==> lo <= x < hi) ==> ascending(
            r,
            lo,
            hi,
        ).len() == r.len(),
    decreases hi - lo,
{
    let a = ascending(r, lo, hi);
    if lo >= hi {
        if forall|x: int| r.contains(x) ==> lo <= x < hi {
            assert(r =~= Set::empty());
        }
    } else {
        let b = ascending(r, lo + 1, hi);
        lemma_ascending(r, lo + 1, hi);
        if r.contains(lo) {
            assert forall|i: int, j: int| 0 <= i < j < a.len() implies a[i] < a[j] by {
                assert(a[j] == b[j - 1]);
                assert(b.contains(b[j - 1]));
                if i > 0 {
                    assert(a[i] == b[i - 1]);
                }
            }
            assert forall|x: usize| #[trigger] a.contains(x) <==> lo <= x < hi && r.contains(
                x as int,
            ) by {
                if a.contains(x) {
                    let i = choose|i: int| 0 <= i < a.len() && a[i] == x;
                    if i > 0 {
                        assert(b[i - 1] == x);
                        assert(b.contains(x));
                    }
                }
                if lo <= x < hi && r.contains(x as int) {
                    if x == lo {
                        assert(a[0] == x);
                    } else {
                        assert(b.contains(x));
                        let i = choose|i: int| 0 <= i < b.len() && b[i] == x;
                        assert(a[i + 1] == x);
                    }
                }
            }
            if r.finite() && (forall|x: int| r.contains(x) ==> lo <= x < hi) {
                let rest = r.remove(lo);
                lemma_ascending(rest, lo + 1, hi);
                lemma_ascending_cong(r, rest, lo + 1, hi);
            }
        }
    }
}

/// The list depends on the members from `lo` up to `hi` alone.
proof fn lemma_ascending_cong(r: Set<int>, q: Set<int>, lo: int, hi: int)
    requires
        forall|x: int| lo <= x < hi ==> (r.contains(x) <==> q.contains(x)),
    ensures
        ascending(r, lo, hi) == ascending(q, lo, hi),
    decreases hi - lo,
{
    if lo < hi {
        lemma_ascending_cong(r, q, lo + 1, hi);
    }
}

/// The list splits at every number.
pub proof fn lemma_ascending_split(r: Set<int>, lo: int, m: int, hi: int)
    requires
        lo <= m <= hi,
    ensures
        ascending(r, lo, hi) == ascending(r, lo, m) + ascending(r, m, hi),
    decreases m - lo,
{
    if lo < m {
        lemma_ascending_split(r, lo + 1, m, hi);
        assert(ascending(r, lo, hi) =~= ascending(r, lo, m) + ascending(r, m, hi));
    } else {
        assert(ascending(r, lo, hi) =~= ascending(r, lo, m) + ascending(r, m, hi));
    }
}

/// The image of vertex `y` under the map that takes `a` to 0 and `b` to 1.
pub open spec fn normalised(n: int, a: int, b: int, y: int) -> int {
    ((y - a) * inverse(n, b - a)) % n
}

/// The normalising map takes `a` to 0 and `b` to 1, and keeps vertices apart.
pub proof fn lemma_normalised(n: int, a: int, b: int)
    requires
        prime(n),
        (b - a) % n != 0,
    ensures
        normalised(n, a, b, a) == 0,
        normalised(n, a, b, b) == 1,
        forall|y: int|
            0 <= #[trigger] normalised(n, a, b, y) < n,
        forall|y: int, z: int|
            0 <= y < n && 0 <= z < n && #[trigger] normalised(n, a, b, y)
                == #[trigger] normalised(n, a, b, z) ==> y == z,
{
    let c = inverse(n, b - a);
    lemma_inverse(n, b - a);
    lemma_mul_basics(c);
    lemma_small_mod(0, n as nat);
    lemma_small_mod(c as nat, n as nat);
    assert forall|y: int| 0 <= #[trigger] normalised(n, a, b, y) < n by {
        lemma_mod_bound((y - a) * c, n);
    }
    assert forall|y: int, z: int|
        0 <= y < n && 0 <= z < n && #[trigger] normalised(n, a, b, y) == #[trigger] normalised(
            n,
            a,
            b,
            z,
        ) implies y == z by {
        lemma_mul_is_commutative(y - a, c);
        lemma_mul_is_commutative(z - a, c);
        lemma_cancel(n, c, y - a, z - a);
        lemma_mod_equivalence(y - a, z - a, n);
        assert((y - z) % n == 0);
        if y > z {
            lemma_small_mod((y - z) as nat, n as nat);
        } else if z > y {
            lemma_mod_add_multiples_vanish(y - z, n);
            lemma_small_mod((n + y - z) as nat, n as nat);
        }
    }
}

/// A list that holds the images of all vertices of an undominated list, under
/// a normalising map along an arc, is undominated.
pub proof fn lemma_image_undominated(n: int, a: int, b: int, s: Seq<usize>, t: Seq<usize>)
    requires
        paley_prime(n),
        residue(n, b - a),
        !dominated(n, s),
        forall|i: int|
            0 <= i < s.len() ==> exists|j: int|
                0 <= j < t.len() && #[trigger] t[j] == normalised(n, a, b, #[trigger] s[i] as int),
    ensures
        !dominated(n, t),
{
    if dominated(n, t) {
        lemma_residue_inverse(n, b - a);
        let x = choose|x: int| common_dominator(n, t, x);
        let d = b - a;
        let c = inverse(n, d);
        let y = (x * d + a) % n;
        lemma_mod_bound(x * d + a, n);
        assert forall|i: int| 0 <= i < s.len() implies dominates(n, y, #[trigger] s[i] as int) by {
            let v = s[i] as int;
            let w = normalised(n, a, b, v);
            let j = choose|j: int| 0 <= j < t.len() && #[trigger] t[j] == w;
            assert(dominates(n, x, t[j] as int));
            lemma_residue_mul(n, d, w - x);
            // d * (w - x) is congruent to v - y
            lemma_inverse(n, d);
            lemma_mod_twice((v - a) * c, n);
            lemma_cong_mul(n, w, (v - a) * c, d, d);
            lemma_small_mod(1, n as nat);
            lemma_cong_mul(n, d * c, 1, v - a, v - a);
            assert(((v - a) * c) * d == (d * c) * (v - a)) by (nonlinear_arith);
            lemma_mul_basics(v - a);
            assert((w * d) % n == (v - a) % n);
            lemma_cong_sub(n, w * d, v - a, x * d, x * d);
            assert(d * (w - x) == w * d - x * d) by (nonlinear_arith);
            lemma_mod_twice(x * d + a, n);
            lemma_cong_sub(n, v, v, y, x * d + a);
            assert(v - a - x * d == v - (x * d + a));
            lemma_residue_cong(n, d * (w - x), v - y);
        }
        assert(common_dominator(n, s, y));
    }
}

/// Every undominated list of at least two vertices has an image of the same
/// length that starts with 0 and 1, goes on in increasing order, and is
/// undominated too.
pub proof fn lemma_normal_form(n: int, s: Seq<usize>) -> (t: Seq<usize>)
    requires
        paley_prime(n),
        n <= usize::MAX,
        vertices(n, s),
        s.len() >= 2,
        !dominated(n, s),
    ensures
        t.len() == s.len() - 2,
        increasing(t),
        forall|i: int| 0 <= i < t.len() ==> 2 <= #[trigger] t[i] < n,
        !dominated(n, seq![0usize, 1usize] + t),
{
    let (a, b) = if dominates(n, s[0] as int, s[1] as int) {
        (s[0] as int, s[1] as int)
    } else {
        (s[1] as int, s[0] as int)
    };
    assert(s[0] != s[1]);
    lemma_tournament(n, s[0] as int, s[1] as int);
    assert(residue(n, b - a));
    lemma_residue_inverse(n, b - a);
    lemma_normalised(n, a, b);
    let f = |y: usize| normalised(n, a, b, y as int);
    let image = s.to_set().map(f);
    s.unique_seq_to_set();
    s.to_set().lemma_map_finite(f);
    assert forall|y: usize, z: usize|
        s.to_set().contains(y) && s.to_set().contains(z) && f(y) == f(z) implies y == z by {
        assert(s.contains(y) && s.contains(z));
        assert(y < n && z < n);
        assert(normalised(n, a, b, y as int) == normalised(n, a, b, z as int));
    }
    lemma_map_size(s.to_set(), image, f);
    assert(image.contains(0)) by {
        assert(s.to_set().contains(a as usize));
        assert(f(a as usize) == 0);
    }
    assert(image.contains(1)) by {
        assert(s.to_set().contains(b as usize));
        assert(f(b as usize) == 1);
    }
    let rest = image.remove(0).remove(1);
    assert forall|x: int| rest.contains(x) implies 2 <= x < n by {
        let y = choose|y: usize| s.to_set().contains(y) && f(y) == x;
        assert(x == normalised(n, a, b, y as int));
    }
    let t = ascending(rest, 2, n);
    lemma_ascending(rest, 2, n);
    assert forall|i: int| 0 <= i < t.len() implies 2 <= #[trigger] t[i] < n by {
        assert(t.contains(t[i]));
    }
    let whole = seq![0usize, 1usize] + t;
    assert forall|i: int| 0 <= i < s.len() implies exists|j: int|
        0 <= j < whole.len() && #[trigger] whole[j] == normalised(
            n,
            a,
            b,
            #[trigger] s[i] as int,
        ) by {
        let w = normalised(n, a, b, s[i] as int);
        assert(s.to_set().contains(s[i]));
        assert(image.contains(f(s[i])));
        if w == 0 {
            assert(whole[0] == w);
        } else if w == 1 {
            assert(whole[1] == w);
        } else {
            assert(rest.contains(w));
            assert(t.contains(w as usize));
            let j = choose|j: int| 0 <= j < t.len() && t[j] == w as usize;
            assert(whole[j + 2] == w);
        }
    }
    lemma_image_undominated(n, a, b, s, whole);
    t
}

} // verus!
