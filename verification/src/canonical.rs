//! Canonical lists of vertices: the least ones among their images under the
//! automorphisms that take an arc of the list to the arc from 0 to 1.
use crate::modular::inverse;
use crate::paley::{lemma_fits, Paley};
use crate::primes::paley_prime;
use crate::residues::{lemma_residue_cong, lemma_residue_inverse, residue};
use crate::tournament::{
    dominated, increasing, lemma_image_undominated, lemma_normal_form, lemma_normalised,
    normalised, vertices,
};
use vstd::arithmetic::div_mod::*;
use vstd::arithmetic::mul::*;
use vstd::arithmetic::power::*;
use vstd::prelude::*;
use vstd::relations::*;
use vstd::seq_lib::*;
use vstd::set_lib::*;

verus! {

/// The filter that an enumeration applies to its partial lists.
#[derive(Clone, Copy, PartialEq, Eq, Structural)]
pub enum CanonicalKind {
    /// Every list passes.
    Any,
    /// Canonical lists pass.
    CaseA,
}

/// The images of the vertices of `s` under the map that takes `s[i]` to 0 and
/// `s[j]` to 1.
pub open spec fn image(n: int, s: Seq<usize>, i: int, j: int) -> Seq<int> {
    Seq::new(s.len(), |m: int| normalised(n, s[i] as int, s[j] as int, s[m] as int))
}

/// `t` comes before `s` in the lexicographic order.
pub open spec fn lex_less(t: Seq<int>, s: Seq<usize>) -> bool {
    exists|m: int|
        0 <= m < t.len() && m < s.len() && #[trigger] t[m] < s[m] && forall|q: int|
            0 <= q < m ==> t[q] == s[q]
}

/// Positions `i` and `j` of `s`, other than the first two in order, hold an
/// arc from `s[i]` to `s[j]`.
pub open spec fn other_arc(n: int, s: Seq<usize>, i: int, j: int) -> bool {
    &&& 0 <= i < s.len()
    &&& 0 <= j < s.len()
    &&& i != j
    &&& !(i == 0 && j == 1)
    &&& residue(n, s[j] - s[i])
}

/// No image of `s` along another arc, sorted, comes before `s`.  Lists of
/// fewer than three vertices are canonical.
pub open spec fn canonical(n: int, s: Seq<usize>) -> bool {
    s.len() < 3 || forall|i: int, j: int| #[trigger]
        other_arc(n, s, i, j) ==> !lex_less(image(n, s, i, j).sort(), s)
}

/// The list passes the filter.
pub open spec fn admitted(n: int, s: Seq<usize>, kind: CanonicalKind) -> bool {
    kind == CanonicalKind::Any || canonical(n, s)
}

proof fn lemma_order_total()
    ensures
        total_ordering(|x: int, y: int| x <= y),
{
}

/// A sorted list has the members of the list it sorts, as often.
proof fn lemma_sorted_members(s: Seq<int>)
    requires
        s.no_duplicates(),
    ensures
        s.sort().len() == s.len(),
        s.sort().no_duplicates(),
        forall|x: int| s.sort().contains(x) <==> s.contains(x),
        forall|i: int, j: int| 0 <= i < j < s.len() ==> s.sort()[i] < s.sort()[j],
{
    broadcast use vstd::multiset::group_multiset_axioms;
    broadcast use group_to_multiset_ensures;

    let t = s.sort();
    let leq = |x: int, y: int| x <= y;
    s.lemma_sort_ensures();
    s.lemma_multiset_has_no_duplicates();
    assert forall|x: int| t.contains(x) <==> s.contains(x) by {
        to_multiset_contains(s, x);
        to_multiset_contains(t, x);
    }
    assert(t.to_multiset().len() == s.to_multiset().len());
    t.lemma_multiset_has_no_duplicates_conv();
    assert forall|i: int, j: int| 0 <= i < j < s.len() implies t[i] < t[j] by {
        assert(leq(t[i], t[j]));
    }
}

/// The images of distinct vertices are distinct vertices.
proof fn lemma_image_distinct(n: int, s: Seq<usize>, i: int, j: int)
    requires
        paley_prime(n),
        vertices(n, s),
        other_arc(n, s, i, j),
    ensures
        image(n, s, i, j).no_duplicates(),
        forall|m: int| 0 <= m < s.len() ==> 0 <= #[trigger] image(n, s, i, j)[m] < n,
        image(n, s, i, j)[i] == 0,
        image(n, s, i, j)[j] == 1,
{
    let a = s[i] as int;
    let b = s[j] as int;
    lemma_residue_inverse(n, b - a);
    lemma_normalised(n, a, b);
    let t = image(n, s, i, j);
    assert forall|m: int, q: int| 0 <= m < t.len() && 0 <= q < t.len() && m != q implies t[m]
        != t[q] by {
        if t[m] == t[q] {
            assert(normalised(n, a, b, s[m] as int) == normalised(n, a, b, s[q] as int));
        }
    }
}

/// Each place of a sorted list holds at most what it holds without some of
/// the members.
proof fn lemma_sorted_part(s: Seq<int>, e: Seq<int>, m: int)
    requires
        (s + e).no_duplicates(),
        0 <= m < s.len(),
    ensures
        (s + e).sort()[m] <= s.sort()[m],
        (s + e).sort().len() == s.len() + e.len(),
        s.sort().len() == s.len(),
{
    let whole = s + e;
    assert(s.no_duplicates()) by {
        assert forall|i: int, j: int| 0 <= i < s.len() && 0 <= j < s.len() && i != j implies s[i]
            != s[j] by {
            assert(whole[i] == s[i] && whole[j] == s[j]);
        }
    }
    lemma_sorted_members(s);
    lemma_sorted_members(whole);
    let t = s.sort();
    let u = whole.sort();
    if u[m] > t[m] {
        let low = t.take(m + 1);
        let few = u.take(m);
        assert(low.no_duplicates());
        assert(few.no_duplicates());
        low.unique_seq_to_set();
        few.unique_seq_to_set();
        assert forall|x: int| low.to_set().contains(x) implies few.to_set().contains(x) by {
            assert(low.contains(x));
            let q = choose|q: int| 0 <= q < low.len() && low[q] == x;
            assert(t[q] == x);
            assert(x <= t[m]) by {
                if q < m {
                    assert(t[q] < t[m]);
                }
            }
            assert(t.contains(x));
            assert(s.contains(x));
            let c = choose|c: int| 0 <= c < s.len() && s[c] == x;
            assert(whole[c] == x);
            assert(whole.contains(x));
            assert(u.contains(x));
            let r = choose|r: int| 0 <= r < u.len() && u[r] == x;
            assert(r < m) by {
                if r > m {
                    assert(u[m] < u[r]);
                }
            }
            assert(few[r] == x);
        }
        lemma_len_subset(low.to_set(), few.to_set());
    }
}

/// Pruning is sound at every depth: no extension of a list that is not
/// canonical is canonical.
pub proof fn lemma_prune_sound(n: int, s: Seq<usize>, e: Seq<usize>)
    requires
        paley_prime(n),
        vertices(n, s + e),
        !canonical(n, s),
    ensures
        !canonical(n, s + e),
{
    let whole = s + e;
    let (i, j) = choose|i: int, j: int| #[trigger]
        other_arc(n, s, i, j) && lex_less(image(n, s, i, j).sort(), s);
    assert(whole[i] == s[i] && whole[j] == s[j]);
    assert(other_arc(n, whole, i, j));
    lemma_image_distinct(n, whole, i, j);
    let part = image(n, s, i, j);
    let rest = Seq::new(
        e.len(),
        |m: int| normalised(n, s[i] as int, s[j] as int, e[m] as int),
    );
    assert(image(n, whole, i, j) =~= part + rest);
    let t = part.sort();
    let u = image(n, whole, i, j).sort();
    let m = choose|m: int|
        0 <= m < t.len() && m < s.len() && #[trigger] t[m] < s[m] && forall|q: int|
            0 <= q < m ==> t[q] == s[q];
    lemma_sorted_part(part, rest, m);
    lemma_first_difference(part, rest, s, e, m, 0);
}

/// The first place from `q` on where the sorted images differ from the list.
proof fn lemma_first_difference(
    part: Seq<int>,
    rest: Seq<int>,
    s: Seq<usize>,
    e: Seq<usize>,
    m: int,
    q: int,
)
    requires
        (part + rest).no_duplicates(),
        part.len() == s.len(),
        rest.len() == e.len(),
        0 <= q <= m < s.len(),
        part.sort()[m] < s[m],
        forall|i: int| 0 <= i < m ==> part.sort()[i] == s[i],
        forall|i: int| 0 <= i < q ==> (part + rest).sort()[i] == s[i],
    ensures
        lex_less((part + rest).sort(), s + e),
    decreases m - q,
{
    let u = (part + rest).sort();
    let whole = s + e;
    lemma_sorted_part(part, rest, q);
    assert(whole[q] == s[q]);
    if u[q] < s[q] {
        assert(u[q] < whole[q]);
        assert forall|i: int| 0 <= i < q implies u[i] == whole[i] by {
            assert(whole[i] == s[i]);
        }
    } else {
        assert(q < m);
        lemma_first_difference(part, rest, s, e, m, q + 1);
    }
}

/// The list read as a number in base `n`.
spec fn rank(n: int, s: Seq<usize>) -> int
    decreases s.len(),
{
    if s.len() == 0 {
        0
    } else {
        rank(n, s.drop_last()) * n + s.last()
    }
}

proof fn lemma_rank_nonnegative(n: int, s: Seq<usize>)
    requires
        n >= 0,
    ensures
        rank(n, s) >= 0,
    decreases s.len(),
{
    if s.len() > 0 {
        lemma_rank_nonnegative(n, s.drop_last());
        lemma_mul_nonnegative(rank(n, s.drop_last()), n);
    }
}

proof fn lemma_rank_lex(n: int, t: Seq<usize>, s: Seq<usize>, m: int)
    requires
        t.len() == s.len(),
        0 <= m < s.len(),
        t[m] < s[m],
        forall|q: int| 0 <= q < m ==> t[q] == s[q],
        forall|q: int| 0 <= q < t.len() ==> #[trigger] t[q] < n,
    ensures
        rank(n, t) < rank(n, s),
    decreases s.len(),
{
    let a = t.drop_last();
    let b = s.drop_last();
    if m == s.len() - 1 {
        assert(a =~= b);
    } else {
        assert(a[m] < b[m]);
        assert forall|q: int| 0 <= q < a.len() implies #[trigger] a[q] < n by {
            assert(a[q] == t[q]);
        }
        lemma_rank_lex(n, a, b, m);
        assert(t.last() < n) by {
            assert(t.last() == t[t.len() - 1]);
        }
        let x = rank(n, a);
        let y = rank(n, b);
        assert(x * n + n <= y * n) by (nonlinear_arith)
            requires
                x + 1 <= y,
                n > 0,
        ;
    }
}

/// A list in normal form: 0, 1, and on in increasing order.
pub open spec fn normal(n: int, w: Seq<usize>) -> bool {
    &&& w.len() >= 2
    &&& w[0] == 0
    &&& w[1] == 1
    &&& increasing(w)
    &&& forall|i: int| 0 <= i < w.len() ==> #[trigger] w[i] < n
}

/// Every beginning of the list is canonical.
pub open spec fn canonical_throughout(n: int, w: Seq<usize>) -> bool {
    forall|m: int| 0 <= m <= w.len() ==> canonical(n, #[trigger] w.take(m))
}

/// A list in normal form that is not canonical has an image in normal form
/// that comes before it.
proof fn lemma_descend(n: int, w: Seq<usize>) -> (v: Seq<usize>)
    requires
        paley_prime(n),
        n <= usize::MAX,
        normal(n, w),
        !dominated(n, w),
        !canonical(n, w),
    ensures
        normal(n, v),
        !dominated(n, v),
        v.len() == w.len(),
        rank(n, v) < rank(n, w),
{
    let (i, j) = choose|i: int, j: int| #[trigger]
        other_arc(n, w, i, j) && lex_less(image(n, w, i, j).sort(), w);
    assert(vertices(n, w));
    lemma_image_distinct(n, w, i, j);
    let t = image(n, w, i, j);
    let u = t.sort();
    lemma_sorted_members(t);
    let v = Seq::new(u.len(), |q: int| u[q] as usize);
    assert forall|q: int| 0 <= q < v.len() implies #[trigger] v[q] < n && v[q] == u[q] by {
        assert(u.contains(u[q]));
        assert(t.contains(u[q]));
        let r = choose|r: int| 0 <= r < t.len() && t[r] == u[q];
        assert(0 <= t[r] < n);
    }
    assert(v[0] == 0 && v[1] == 1) by {
        assert(t.contains(t[i]) && t.contains(t[j]));
        assert(u.contains(0) && u.contains(1));
        let a = choose|a: int| 0 <= a < u.len() && u[a] == 0;
        let b = choose|b: int| 0 <= b < u.len() && u[b] == 1;
        if a > 0 {
            assert(u[0] < u[a]);
            assert(v[0] == u[0]);
        }
        if b > 1 {
            assert(u[1] < u[b]);
            assert(u[0] < u[1]);
            assert(v[0] == u[0]);
        }
        if b == 0 {
            assert(a > 0);
        }
    }
    assert forall|q: int| 0 <= q < w.len() implies exists|r: int|
        0 <= r < v.len() && #[trigger] v[r] == normalised(
            n,
            w[i] as int,
            w[j] as int,
            #[trigger] w[q] as int,
        ) by {
        assert(t.contains(t[q]));
        assert(u.contains(t[q]));
        let r = choose|r: int| 0 <= r < u.len() && u[r] == t[q];
        assert(v[r] == u[r]);
    }
    lemma_image_undominated(n, w[i] as int, w[j] as int, w, v);
    let m = choose|m: int|
        0 <= m < u.len() && m < w.len() && #[trigger] u[m] < w[m] && forall|q: int|
            0 <= q < m ==> u[q] == w[q];
    lemma_rank_lex(n, v, w, m);
    v
}

proof fn lemma_least_image(n: int, w: Seq<usize>) -> (v: Seq<usize>)
    requires
        paley_prime(n),
        n <= usize::MAX,
        normal(n, w),
        !dominated(n, w),
    ensures
        normal(n, v),
        !dominated(n, v),
        v.len() == w.len(),
        canonical_throughout(n, v),
    decreases rank(n, w),
{
    if canonical_throughout(n, w) {
        w
    } else {
        let m = choose|m: int| 0 <= m <= w.len() && !canonical(n, #[trigger] w.take(m));
        assert(w.take(m) + w.skip(m) =~= w);
        assert(vertices(n, w));
        lemma_prune_sound(n, w.take(m), w.skip(m));
        let v = lemma_descend(n, w);
        lemma_rank_nonnegative(n, v);
        lemma_least_image(n, v)
    }
}

/// The canonical lists suffice: every undominated list of at least two
/// vertices has an undominated image in normal form, of the same length, all
/// of whose beginnings are canonical.
pub proof fn lemma_canonical_image(n: int, s: Seq<usize>) -> (t: Seq<usize>)
    requires
        paley_prime(n),
        n <= usize::MAX,
        vertices(n, s),
        s.len() >= 2,
        !dominated(n, s),
    ensures
        t.len() == s.len() - 2,
        increasing(t),
        forall|i: int| 0 <= i < t.len() ==> 2 <= #[trigger] t[i] < n,
        !dominated(n, seq![0usize, 1usize] + t),
        canonical_throughout(n, seq![0usize, 1usize] + t),
{
    let t0 = lemma_normal_form(n, s);
    let w = seq![0usize, 1usize] + t0;
    assert forall|i: int| 0 <= i < w.len() implies #[trigger] w[i] < n by {
        if i >= 2 {
            assert(w[i] == t0[i - 2]);
        }
    }
    assert forall|i: int, j: int| 0 <= i < j < w.len() implies w[i] < w[j] by {
        if j >= 2 {
            assert(w[j] == t0[j - 2]);
            if i >= 2 {
                assert(w[i] == t0[i - 2]);
            }
        }
    }
    let v = lemma_least_image(n, w);
    let t = v.skip(2);
    assert(seq![0usize, 1usize] + t =~= v);
    assert forall|i: int| 0 <= i < t.len() implies 2 <= #[trigger] t[i] < n by {
        assert(t[i] == v[i + 2]);
        assert(v[1] < v[i + 2]);
    }
    t
}

/// Puts `x` in its place in a sorted list.
fn insert_sorted(t: &mut Vec<usize>, x: usize) -> (at: usize)
    requires
        forall|i: int, j: int| 0 <= i < j < old(t)@.len() ==> old(t)@[i] <= old(t)@[j],
    ensures
        at <= old(t)@.len(),
        final(t)@ == old(t)@.insert(at as int, x),
        forall|i: int, j: int| 0 <= i < j < final(t)@.len() ==> final(t)@[i] <= final(t)@[j],
{
    let ghost before = t@;
    let len: usize = t.len();
    let mut at: usize = 0;
    while at < len && t[at] <= x
        invariant
            at <= len,
            len == t@.len(),
            forall|i: int| 0 <= i < at ==> t@[i] <= x,
        decreases len - at,
    {
        at = at + 1;
    }
    t.insert(at, x);
    proof {
        assert forall|i: int, j: int| 0 <= i < j < t@.len() implies t@[i] <= t@[j] by {
            assert(at < len ==> before[at as int] > x);
            let a = if i < at {
                before[i]
            } else if i == at {
                x
            } else {
                before[i - 1]
            };
            let b = if j < at {
                before[j]
            } else if j == at {
                x
            } else {
                before[j - 1]
            };
            assert(t@[i] == a && t@[j] == b);
            if i == at {
                assert(before[at as int] <= before[j - 1]);
            }
        }
    }
    at
}

/// The inverse depends on the remainder alone.
proof fn lemma_inverse_cong(n: int, a: int, b: int)
    requires
        n > 0,
        a % n == b % n,
    ensures
        inverse(n, a) == inverse(n, b),
{
    lemma_pow_mod_noop(a, (n - 2) as nat, n);
    lemma_pow_mod_noop(b, (n - 2) as nat, n);
}

/// The difference of two vertices as a vertex.
fn difference(n: usize, b: usize, a: usize) -> (d: usize)
    requires
        a < n,
        b < n,
        2 * n <= usize::MAX,
    ensures
        d < n,
        d == (b - a) % (n as int),
{
    if b >= a {
        proof {
            lemma_small_mod((b - a) as nat, n as nat);
        }
        b - a
    } else {
        proof {
            lemma_mod_add_multiples_vanish(b - a, n as int);
            lemma_small_mod((b + n - a) as nat, n as nat);
        }
        b + n - a
    }
}

/// Whether the list `s` is canonical.
pub fn case_a_canonical(s: &[usize], p: &Paley) -> (r: bool)
    requires
        p.wf(),
        forall|i: int| 0 <= i < s@.len() ==> #[trigger] s@[i] < p.n,
    ensures
        r == canonical(p.n as int, s@),
{
    let n: usize = p.n;
    let k: usize = s.len();
    if k < 3 {
        return true;
    }
    proof {
        lemma_fits(n as int);
    }
    let mut i: usize = 0;
    while i < k
        invariant
            p.wf(),
            n == p.n,
            k == s@.len(),
            3 <= k,
            i <= k,
            2 * n + 200 <= usize::MAX,
            forall|m: int| 0 <= m < s@.len() ==> #[trigger] s@[m] < n,
            forall|a: int, b: int| #[trigger]
                other_arc(n as int, s@, a, b) && a < i ==> !lex_less(
                    image(n as int, s@, a, b).sort(),
                    s@,
                ),
        decreases k - i,
    {
        let mut j: usize = 0;
        while j < k
            invariant
                p.wf(),
                n == p.n,
                k == s@.len(),
                3 <= k,
                i < k,
                j <= k,
                2 * n + 200 <= usize::MAX,
                forall|m: int| 0 <= m < s@.len() ==> #[trigger] s@[m] < n,
                forall|a: int, b: int| #[trigger]
                    other_arc(n as int, s@, a, b) && (a < i || (a == i && b < j)) ==> !lex_less(
                        image(n as int, s@, a, b).sort(),
                        s@,
                    ),
            decreases k - j,
        {
            let a: usize = s[i];
            let b: usize = s[j];
            let d: usize = difference(n, b, a);
            proof {
                lemma_mod_twice(b - a, n as int);
                lemma_residue_cong(n as int, d as int, b - a);
                lemma_inverse_cong(n as int, d as int, b - a);
            }
            if i != j && !(i == 0 && j == 1) && p.qr[d] {
                if image_comes_before(s, p, i, j, d) {
                    assert(other_arc(n as int, s@, i as int, j as int));
                    return false;
                }
            }
            j = j + 1;
        }
        i = i + 1;
    }
    true
}

/// Whether the image of `s` along the arc from `s[i]` to `s[j]`, sorted, comes
/// before `s`; `d` is the difference of the two.
fn image_comes_before(s: &[usize], p: &Paley, i: usize, j: usize, d: usize) -> (r: bool)
    requires
        p.wf(),
        forall|m: int| 0 <= m < s@.len() ==> #[trigger] s@[m] < p.n,
        i < s@.len(),
        j < s@.len(),
        d < p.n,
        residue(p.n as int, d as int),
        inverse(p.n as int, d as int) == inverse(p.n as int, s@[j as int] - s@[i as int]),
    ensures
        r == lex_less(image(p.n as int, s@, i as int, j as int).sort(), s@),
{
    let n: usize = p.n;
    let k: usize = s.len();
    let a: usize = s[i];
    let d_inv: usize = p.qr_inv[d];
    let ghost target = image(n as int, s@, i as int, j as int);
    let ghost mut g: Seq<int> = Seq::empty();
    let mut t: Vec<usize> = Vec::new();
    let mut m: usize = 0;
    proof {
        lemma_fits(n as int);
        assert(target.take(0) =~= Seq::<int>::empty());
    }
    while m < k
        invariant
            p.wf(),
            n == p.n,
            2 * n + 200 <= usize::MAX,
            k == s@.len(),
            m <= k,
            i < k,
            j < k,
            a == s@[i as int],
            d_inv == inverse(n as int, s@[j as int] - s@[i as int]),
            forall|q: int| 0 <= q < s@.len() ==> #[trigger] s@[q] < n,
            target == image(n as int, s@, i as int, j as int),
            t@.len() == m,
            g.len() == m,
            forall|q: int| 0 <= q < m ==> g[q] == t@[q],
            forall|q: int, r: int| 0 <= q < r < m ==> t@[q] <= t@[r],
            g.to_multiset() == target.take(m as int).to_multiset(),
        decreases k - m,
    {
        let v: usize = s[m];
        let x: usize = difference(n, v, a);
        proof {
            assert(x * d_inv <= u128::MAX) by (nonlinear_arith)
                requires
                    0 <= x <= 0xffff_ffff_ffff_ffff,
                    0 <= d_inv <= 0xffff_ffff_ffff_ffff,
            ;
            lemma_mod_bound(x * d_inv, n as int);
        }
        let y: usize = ((x as u128 * d_inv as u128) % (n as u128)) as usize;
        proof {
            lemma_mul_mod_noop_left(v - a, d_inv as int, n as int);
            assert(y == target[m as int]);
        }
        let ghost before = t@;
        let at: usize = insert_sorted(&mut t, y);
        proof {
            let old_g = g;
            g = old_g.insert(at as int, y as int);
            to_multiset_insert(old_g, at as int, y as int);
            let part = target.take(m as int);
            assert(target.take(m + 1) =~= part.insert(m as int, y as int));
            to_multiset_insert(part, m as int, y as int);
            assert forall|q: int| 0 <= q < m + 1 implies g[q] == t@[q] by {
                if q < at {
                    assert(g[q] == old_g[q] && t@[q] == before[q]);
                } else if q > at {
                    assert(g[q] == old_g[q - 1] && t@[q] == before[q - 1]);
                }
            }
        }
        m = m + 1;
    }
    proof {
        assert(target.take(k as int) =~= target);
        let leq = |x: int, y: int| x <= y;
        assert(sorted_by(g, leq)) by {
            assert forall|q: int, r: int| 0 <= q < r < g.len() implies #[trigger] leq(
                g[q],
                g[r],
            ) by {
                assert(t@[q] <= t@[r]);
            }
        }
        target.lemma_sort_ensures();
        lemma_order_total();
        lemma_sorted_unique(g, target.sort(), leq);
    }
    let mut q: usize = 0;
    while q < k
        invariant
            n == p.n,
            k == s@.len(),
            t@.len() == k,
            g.len() == k,
            q <= k,
            target == image(n as int, s@, i as int, j as int),
            g == target.sort(),
            forall|r: int| 0 <= r < k ==> g[r] == t@[r],
            forall|r: int| 0 <= r < q ==> t@[r] == s@[r],
        decreases k - q,
    {
        if t[q] < s[q] {
            assert(g[q as int] < s@[q as int]);
            return true;
        }
        if t[q] > s[q] {
            assert(g[q as int] > s@[q as int]);
            return false;
        }
        q = q + 1;
    }
    false
}

/// Of two lists of the same length, equal before place `m` and different from
/// there on, one comes before the other.
proof fn lemma_first_gap(t: Seq<int>, s: Seq<usize>, m: int)
    requires
        t.len() == s.len(),
        0 <= m < s.len(),
        exists|q: int| m <= q < s.len() && t[q] != s[q],
        forall|q: int| 0 <= q < m ==> t[q] == s[q],
    ensures
        exists|q: int|
            0 <= q < s.len() && #[trigger] t[q] != s[q] && forall|r: int|
                0 <= r < q ==> t[r] == s[r],
    decreases s.len() - m,
{
    if t[m] == s[m] {
        let q = choose|q: int| m <= q < s.len() && t[q] != s[q];
        assert(q != m);
        lemma_first_gap(t, s, m + 1);
    }
}

/// The canonical list is the only one of its kind: of lists that are images of
/// each other, sorted, no two are canonical.
pub proof fn lemma_canonical_unique(
    n: int,
    v: Seq<usize>,
    w: Seq<usize>,
    i: int,
    j: int,
    a: int,
    b: int,
)
    requires
        v.len() >= 3,
        w.len() == v.len(),
        canonical(n, v),
        canonical(n, w),
        other_arc(n, v, i, j),
        other_arc(n, w, a, b),
        image(n, v, i, j).sort() == w.map_values(|x: usize| x as int),
        image(n, w, a, b).sort() == v.map_values(|x: usize| x as int),
    ensures
        v == w,
{
    let x = image(n, v, i, j).sort();
    let y = image(n, w, a, b).sort();
    assert(!lex_less(x, v));
    assert(!lex_less(y, w));
    if exists|q: int| 0 <= q < v.len() && x[q] != v[q] {
        lemma_first_gap(x, v, 0);
        let q = choose|q: int|
            0 <= q < v.len() && #[trigger] x[q] != v[q] && forall|r: int|
                0 <= r < q ==> x[r] == v[r];
        if x[q] > v[q] {
            assert(y[q] == v[q] && x[q] == w[q]);
            assert forall|r: int| 0 <= r < q implies y[r] == w[r] by {
                assert(y[r] == v[r] && x[r] == w[r]);
            }
            assert(y[q] < w[q]);
        }
    } else {
        assert forall|q: int| 0 <= q < v.len() implies v[q] == w[q] by {
            assert(x[q] == v[q]);
            assert(x[q] == w[q]);
        }
        assert(v =~= w);
    }
}

} // verus!
