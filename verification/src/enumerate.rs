//! Exhaustive search for lists of vertices that leave a mask without a
//! dominator: depth first, the most restrictive vertex first.
use crate::bitset::{lemma_members_finite, BitSet};
use crate::canonical::{admitted, case_a_canonical, lemma_canonical_image, CanonicalKind};
use crate::lists::{
    is_subsequence, lemma_positions, lemma_subsequence, lemma_subsequence_prepend, prepend,
    stands_at, subsequence,
};
use crate::outside::{find_map_any, not_before, pair_le, reached, sort_pairs};
use crate::paley::{has_dominator, lemma_fits, lemma_some_nonresidue, Paley};
use crate::primes::paley_prime;
use crate::readings::{clock_reading, flag_reading, read_clock, read_flag};
use crate::tournament::{
    dominated, dominators, each_dominated, increasing, lemma_narrowed_add,
    lemma_narrowed_dominators, lemma_narrowed_one, lemma_narrowed_part, lemma_narrowed_push,
    narrowed, vertices,
};
use std::sync::atomic::{AtomicBool, Ordering};
use std::sync::OnceLock;
use std::time::Instant;
use vstd::prelude::*;
use vstd::seq_lib::*;
use vstd::set_lib::*;
use vstd::slice::*;

verus! {

/// How a search came to a halt before it had seen everything.
pub enum Ending {
    /// It found a list.
    Found(Vec<usize>),
    /// It was told to stop.
    Stopped,
}

/// The number of vertices of the mask that dominate `v`.
pub open spec fn score(n: int, mask: Set<int>, v: usize) -> nat {
    mask.intersect(dominators(n, v as int)).len()
}

/// Candidate `i` of the pool is tried before candidate `j`: it leaves fewer
/// vertices in the mask, or as many and stands earlier.
pub open spec fn tried_before(
    n: int,
    mask: Set<int>,
    pool: Seq<usize>,
    i: int,
    j: int,
) -> bool {
    ||| score(n, mask, pool[i]) < score(n, mask, pool[j])
    ||| score(n, mask, pool[i]) == score(n, mask, pool[j]) && i < j
}

/// What trying candidate `i` of the pool comes to: a list of `depth` vertices
/// of the pool that starts with the candidate and empties the mask.
pub open spec fn branch(
    n: int,
    mask: Set<int>,
    pool: Seq<usize>,
    depth: nat,
    cur: Seq<usize>,
    kind: CanonicalKind,
    i: int,
) -> Option<Seq<usize>>
    decreases depth, 0nat,
{
    let v = pool[i];
    if !admitted(n, cur.push(v), kind) {
        None
    } else if score(n, mask, v) == 0 {
        if i + depth <= pool.len() {
            Some(pool.subrange(i, i + depth))
        } else {
            None
        }
    } else if depth <= 1 {
        None
    } else {
        match dfs(
            n,
            mask.intersect(dominators(n, v as int)),
            pool.skip(i + 1),
            (depth - 1) as nat,
            cur.push(v),
            kind,
        ) {
            Some(t) => Some(seq![v] + t),
            None => None,
        }
    }
}

/// What trying each candidate of the pool comes to.
pub open spec fn branches(
    n: int,
    mask: Set<int>,
    pool: Seq<usize>,
    depth: nat,
    cur: Seq<usize>,
    kind: CanonicalKind,
) -> Seq<Option<Seq<usize>>>
    decreases depth, 1nat,
{
    Seq::new(pool.len(), |i: int| branch(n, mask, pool, depth, cur, kind, i))
}

/// Candidate `i` is the first, in the order of trying, with a result.
pub open spec fn first_success(
    n: int,
    mask: Set<int>,
    pool: Seq<usize>,
    results: Seq<Option<Seq<usize>>>,
    i: int,
) -> bool {
    &&& 0 <= i < results.len()
    &&& results[i] is Some
    &&& forall|j: int|
        0 <= j < results.len() && j != i && #[trigger] results[j] is Some ==> tried_before(
            n,
            mask,
            pool,
            i,
            j,
        )
}

/// The result of the first candidate, in the order of trying, that has one.
pub open spec fn first_result(
    n: int,
    mask: Set<int>,
    pool: Seq<usize>,
    results: Seq<Option<Seq<usize>>>,
) -> Option<Seq<usize>> {
    if exists|i: int| first_success(n, mask, pool, results, i) {
        results[choose|i: int| first_success(n, mask, pool, results, i)]
    } else {
        None
    }
}

/// The list that a depth-first search comes to: `depth` vertices of the pool,
/// in pool order, that together with `cur` pass the filter and that empty the
/// mask.
pub open spec fn dfs(
    n: int,
    mask: Set<int>,
    pool: Seq<usize>,
    depth: nat,
    cur: Seq<usize>,
    kind: CanonicalKind,
) -> Option<Seq<usize>>
    decreases depth, 2nat,
{
    if depth == 0 {
        if mask == Set::<int>::empty() {
            Some(Seq::empty())
        } else {
            None
        }
    } else if pool.len() < depth {
        None
    } else {
        first_result(n, mask, pool, branches(n, mask, pool, depth, cur, kind))
    }
}

/// `depth` vertices of the pool that empty the mask, in pool order.
pub open spec fn collapses(
    n: int,
    mask: Set<int>,
    pool: Seq<usize>,
    depth: nat,
    t: Seq<usize>,
) -> bool {
    &&& t.len() == depth
    &&& subsequence(pool, t)
    &&& narrowed(n, mask, t) == Set::<int>::empty()
}

/// The beginning of `m` vertices of `t` passes the filter after `cur`, unless a
/// shorter one has emptied the mask already.
pub open spec fn beginning_passes(
    n: int,
    mask: Set<int>,
    cur: Seq<usize>,
    kind: CanonicalKind,
    t: Seq<usize>,
    m: int,
) -> bool {
    m == 1 || narrowed(n, mask, t.take(m - 1)) != Set::<int>::empty() ==> admitted(
        n,
        cur + t.take(m),
        kind,
    )
}

/// All beginnings of `t`, up to the first that empties the mask, pass the
/// filter after `cur`.
pub open spec fn passes(
    n: int,
    mask: Set<int>,
    cur: Seq<usize>,
    kind: CanonicalKind,
    t: Seq<usize>,
) -> bool {
    forall|m: int| 1 <= m <= t.len() ==> #[trigger] beginning_passes(n, mask, cur, kind, t, m)
}

/// Where some candidate has a result, one is the first to have one.
proof fn lemma_first_success(
    n: int,
    mask: Set<int>,
    pool: Seq<usize>,
    results: Seq<Option<Seq<usize>>>,
    i: int,
)
    requires
        0 <= i < results.len(),
        results[i] is Some,
    ensures
        first_result(n, mask, pool, results) is Some,
    decreases score(n, mask, pool[i]), i,
{
    if first_success(n, mask, pool, results, i) {
        let c = choose|c: int| first_success(n, mask, pool, results, c);
        assert(first_success(n, mask, pool, results, c));
    } else {
        let j = choose|j: int|
            0 <= j < results.len() && j != i && #[trigger] results[j] is Some && !tried_before(
                n,
                mask,
                pool,
                i,
                j,
            );
        lemma_first_success(n, mask, pool, results, j);
    }
}

/// The first candidate with a result is the only first.
proof fn lemma_first_success_unique(
    n: int,
    mask: Set<int>,
    pool: Seq<usize>,
    results: Seq<Option<Seq<usize>>>,
    i: int,
)
    requires
        first_success(n, mask, pool, results, i),
    ensures
        first_result(n, mask, pool, results) == results[i],
{
    let c = choose|c: int| first_success(n, mask, pool, results, c);
    assert(first_success(n, mask, pool, results, c));
    if c != i {
        assert(results[c] is Some && results[i] is Some);
        assert(tried_before(n, mask, pool, i, c));
        assert(tried_before(n, mask, pool, c, i));
    }
}

/// A vertex that leaves nothing in a finite mask.
proof fn lemma_score_zero(n: int, mask: Set<int>, v: usize)
    requires
        mask.finite(),
    ensures
        score(n, mask, v) == 0 <==> mask.intersect(dominators(n, v as int)) == Set::<int>::empty(),
{
    let m = mask.intersect(dominators(n, v as int));
    if m.len() == 0 {
        m.lemma_len0_is_empty();
    }
}

/// What trying a candidate comes to does empty the mask, and passes the filter.
pub proof fn lemma_branch_sound(
    n: int,
    mask: Set<int>,
    pool: Seq<usize>,
    depth: nat,
    cur: Seq<usize>,
    kind: CanonicalKind,
    i: int,
)
    requires
        mask.finite(),
        depth > 0,
        0 <= i < pool.len(),
    ensures
        branch(n, mask, pool, depth, cur, kind, i) matches Some(t) ==> collapses(
            n,
            mask,
            pool,
            depth,
            t,
        ) && passes(n, mask, cur, kind, t),
    decreases depth, 0nat,
{
    let v = pool[i];
    let m = mask.intersect(dominators(n, v as int));
    if let Some(t) = branch(n, mask, pool, depth, cur, kind, i) {
        lemma_narrowed_one(n, mask, v);
        lemma_score_zero(n, mask, v);
        assert(t[0] == v);
        assert(cur + t.take(1) =~= cur.push(v));
        if score(n, mask, v) == 0 {
            assert(t =~= pool.subrange(i, i + depth));
            assert(t[0] == v);
            assert(stands_at(pool, t, Seq::new(depth, |j: int| i + j)));
            assert forall|j: int| 0 <= j < seq![v].len() implies t.contains(
                #[trigger] seq![v][j],
            ) by {
                assert(t.contains(t[0]));
            }
            lemma_narrowed_part(n, mask, seq![v], t);
            assert(narrowed(n, mask, t) =~= Set::<int>::empty());
            assert forall|q: int| 1 <= q <= t.len() implies #[trigger] beginning_passes(
                n,
                mask,
                cur,
                kind,
                t,
                q,
            ) by {
                if q > 1 {
                    let part = t.take(q - 1);
                    assert forall|j: int| 0 <= j < seq![v].len() implies part.contains(
                        #[trigger] seq![v][j],
                    ) by {
                        assert(part[0] == v);
                    }
                    lemma_narrowed_part(n, mask, seq![v], part);
                    assert(narrowed(n, mask, part) =~= Set::<int>::empty());
                }
            }
        } else {
            let rest = pool.skip(i + 1);
            lemma_dfs_sound(n, m, rest, (depth - 1) as nat, cur.push(v), kind);
            let sub = dfs(n, m, rest, (depth - 1) as nat, cur.push(v), kind).unwrap();
            assert(t == seq![v] + sub);
            lemma_narrowed_add(n, mask, seq![v], sub);
            lemma_subsequence_prepend(pool, i, sub);
            assert forall|q: int| 1 <= q <= t.len() implies #[trigger] beginning_passes(
                n,
                mask,
                cur,
                kind,
                t,
                q,
            ) by {
                if q > 1 {
                    assert(beginning_passes(n, m, cur.push(v), kind, sub, q - 1));
                    assert(cur + t.take(q) =~= cur.push(v) + sub.take(q - 1));
                    assert(t.take(q - 1) =~= seq![v] + sub.take(q - 2));
                    lemma_narrowed_add(n, mask, seq![v], sub.take(q - 2));
                }
            }
        }
    }
}

/// What the search comes to does empty the mask, and passes the filter.
pub proof fn lemma_dfs_sound(
    n: int,
    mask: Set<int>,
    pool: Seq<usize>,
    depth: nat,
    cur: Seq<usize>,
    kind: CanonicalKind,
)
    requires
        mask.finite(),
    ensures
        dfs(n, mask, pool, depth, cur, kind) matches Some(t) ==> collapses(
            n,
            mask,
            pool,
            depth,
            t,
        ) && passes(n, mask, cur, kind, t),
    decreases depth, 1nat,
{
    if let Some(t) = dfs(n, mask, pool, depth, cur, kind) {
        if depth == 0 {
            assert(narrowed(n, mask, t) =~= Set::<int>::empty());
            assert(stands_at(pool, t, Seq::empty()));
        } else {
            let results = branches(n, mask, pool, depth, cur, kind);
            let i = choose|i: int| first_success(n, mask, pool, results, i);
            lemma_branch_sound(n, mask, pool, depth, cur, kind, i);
        }
    }
}

/// A list that empties the mask and passes the filter makes its first candidate
/// come to something.
proof fn lemma_branch_complete(
    n: int,
    mask: Set<int>,
    pool: Seq<usize>,
    depth: nat,
    cur: Seq<usize>,
    kind: CanonicalKind,
    t: Seq<usize>,
    at: Seq<int>,
)
    requires
        mask.finite(),
        depth > 0,
        t.len() == depth,
        stands_at(pool, t, at),
        passes(n, mask, cur, kind, t),
        narrowed(n, mask, t) == Set::<int>::empty(),
    ensures
        branch(n, mask, pool, depth, cur, kind, at[0]) is Some,
    decreases depth, 0nat,
{
    let v = t[0];
    let i = at[0];
    lemma_positions(pool, t, at, 0);
    assert(cur + t.take(1) =~= cur.push(v));
    assert(beginning_passes(n, mask, cur, kind, t, 1));
    lemma_score_zero(n, mask, v);
    lemma_narrowed_one(n, mask, v);
    let m = mask.intersect(dominators(n, v as int));
    if score(n, mask, v) > 0 {
        let rest = t.drop_first();
        assert(t =~= seq![v] + rest);
        lemma_narrowed_add(n, mask, seq![v], rest);
        if depth == 1 {
            assert(rest =~= Seq::<usize>::empty());
            assert(narrowed(n, m, rest) =~= m);
        } else {
            let pool2 = pool.skip(i + 1);
            let there = Seq::new(rest.len(), |j: int| at[j + 1] - i - 1);
            assert forall|j: int| 0 <= j < there.len() implies 0 <= #[trigger] there[j]
                < pool2.len() && rest[j] == pool2[there[j]] by {
                assert(at[0] < at[j + 1]);
                assert(t[j + 1] == pool[at[j + 1]]);
            }
            assert(stands_at(pool2, rest, there));
            assert forall|q: int| 1 <= q <= rest.len() implies #[trigger] beginning_passes(
                n,
                m,
                cur.push(v),
                kind,
                rest,
                q,
            ) by {
                assert(beginning_passes(n, mask, cur, kind, t, q + 1));
                assert(cur.push(v) + rest.take(q) =~= cur + t.take(q + 1));
                assert(t.take(q) =~= seq![v] + rest.take(q - 1));
                lemma_narrowed_add(n, mask, seq![v], rest.take(q - 1));
                if q == 1 {
                    assert(rest.take(0) =~= Seq::<usize>::empty());
                    assert(narrowed(n, m, rest.take(0)) =~= m);
                }
            }
            if dfs(n, m, pool2, (depth - 1) as nat, cur.push(v), kind) is None {
                lemma_dfs_complete(n, m, pool2, (depth - 1) as nat, cur.push(v), kind, rest);
            }
        }
    }
}

/// The search misses nothing: where it comes to nothing, no list of `depth`
/// vertices of the pool, in pool order, that passes the filter empties the
/// mask.
pub proof fn lemma_dfs_complete(
    n: int,
    mask: Set<int>,
    pool: Seq<usize>,
    depth: nat,
    cur: Seq<usize>,
    kind: CanonicalKind,
    t: Seq<usize>,
)
    requires
        mask.finite(),
        t.len() == depth,
        subsequence(pool, t),
        passes(n, mask, cur, kind, t),
        dfs(n, mask, pool, depth, cur, kind) is None,
    ensures
        narrowed(n, mask, t) != Set::<int>::empty(),
    decreases depth, 1nat,
{
    lemma_subsequence(pool, t);
    if narrowed(n, mask, t) == Set::<int>::empty() {
        if depth == 0 {
            assert(narrowed(n, mask, t) =~= mask);
        } else {
            let at = choose|at: Seq<int>| stands_at(pool, t, at);
            lemma_branch_complete(n, mask, pool, depth, cur, kind, t, at);
            lemma_first_success(
                n,
                mask,
                pool,
                branches(n, mask, pool, depth, cur, kind),
                at[0],
            );
        }
    }
}

/// The search heads for the empty mask: the first vertex of what it comes to
/// leaves no more in the mask than the first vertex of any list that it might
/// have come to, and among those that leave as many it stands first.
pub proof fn lemma_dfs_greedy(
    n: int,
    mask: Set<int>,
    pool: Seq<usize>,
    depth: nat,
    cur: Seq<usize>,
    kind: CanonicalKind,
    t: Seq<usize>,
    u: Seq<usize>,
    at: Seq<int>,
)
    requires
        mask.finite(),
        depth > 0,
        dfs(n, mask, pool, depth, cur, kind) == Some(t),
        collapses(n, mask, pool, depth, u),
        passes(n, mask, cur, kind, u),
        stands_at(pool, u, at),
    ensures
        t.len() == depth,
        mask.intersect(dominators(n, t[0] as int)).len() <= mask.intersect(
            dominators(n, u[0] as int),
        ).len(),
        mask.intersect(dominators(n, t[0] as int)).len() == mask.intersect(
            dominators(n, u[0] as int),
        ).len() ==> exists|i: int| 0 <= i <= at[0] && #[trigger] pool[i] == t[0],
{
    let results = branches(n, mask, pool, depth, cur, kind);
    let i = choose|i: int| first_success(n, mask, pool, results, i);
    let j = at[0];
    lemma_dfs_sound(n, mask, pool, depth, cur, kind);
    assert(u[0] == pool[j]);
    lemma_branch_complete(n, mask, pool, depth, cur, kind, u, at);
    assert(results[j] is Some);
    assert(results[i] == Some(t));
    assert(branch(n, mask, pool, depth, cur, kind, i) == Some(t));
    assert(t[0] == pool[i]);
    if i != j {
        assert(tried_before(n, mask, pool, i, j));
    }
}

/// The search comes to a list if and only if some `depth` vertices of the pool,
/// in pool order, empty the mask and pass the filter.
pub proof fn lemma_dfs_decides(
    n: int,
    mask: Set<int>,
    pool: Seq<usize>,
    depth: nat,
    cur: Seq<usize>,
    kind: CanonicalKind,
)
    requires
        mask.finite(),
    ensures
        dfs(n, mask, pool, depth, cur, kind) is Some <==> exists|t: Seq<usize>| #[trigger]
            collapses(n, mask, pool, depth, t) && passes(n, mask, cur, kind, t),
{
    lemma_dfs_sound(n, mask, pool, depth, cur, kind);
    if dfs(n, mask, pool, depth, cur, kind) is None {
        assert forall|t: Seq<usize>| #[trigger] collapses(n, mask, pool, depth, t) implies !passes(
            n,
            mask,
            cur,
            kind,
            t,
        ) by {
            if passes(n, mask, cur, kind, t) {
                lemma_dfs_complete(n, mask, pool, depth, cur, kind, t);
            }
        }
    }
}

/// The pool of the vertices from 2 on.
pub open spec fn upper_pool(n: int) -> Seq<usize> {
    Seq::new((n - 2) as nat, |i: int| (i + 2) as usize)
}

/// The vertices that dominate both `a` and `b`.
pub open spec fn pair_mask(n: int, a: int, b: int) -> Set<int> {
    dominators(n, a).intersect(dominators(n, b))
}

/// The common dominators of a list that starts with `a` and `b`.
pub proof fn lemma_pair_mask(n: int, a: usize, b: usize, t: Seq<usize>)
    ensures
        narrowed(n, pair_mask(n, a as int, b as int), t) == Set::<int>::empty() <==> !dominated(
            n,
            seq![a, b] + t,
        ),
{
    lemma_narrowed_one(n, dominators(n, a as int), b);
    lemma_narrowed_add(n, dominators(n, a as int), seq![b], t);
    lemma_narrowed_dominators(n, a, seq![b] + t);
    assert(seq![a] + (seq![b] + t) =~= seq![a, b] + t);
}

/// A search over the lists that start with 0 and 1, canonical or not, decides
/// whether every `k` distinct vertices have a common dominator.
pub proof fn lemma_search_decides(n: int, k: int, kind: CanonicalKind)
    requires
        paley_prime(n),
        n <= usize::MAX,
        k >= 2,
    ensures
        dfs(
            n,
            pair_mask(n, 0, 1),
            upper_pool(n),
            (k - 2) as nat,
            seq![0usize, 1usize],
            kind,
        ) is None <==> each_dominated(n, k),
{
    let mask = pair_mask(n, 0, 1);
    let pool = upper_pool(n);
    let depth = (k - 2) as nat;
    let start = seq![0usize, 1usize];
    let found = dfs(n, mask, pool, depth, start, kind);
    lemma_int_range(0, n);
    assert(mask.subset_of(set_int_range(0, n)));
    lemma_len_subset(mask, set_int_range(0, n));
    assert(increasing(pool));
    if found is None {
        assert forall|s: Seq<usize>| #[trigger] vertices(n, s) && s.len() == k implies dominated(
            n,
            s,
        ) by {
            if !dominated(n, s) {
                let t = lemma_canonical_image(n, s);
                assert(stands_at(pool, t, Seq::new(t.len(), |i: int| t[i] - 2)));
                assert forall|m: int| 1 <= m <= t.len() implies #[trigger] beginning_passes(
                    n,
                    mask,
                    start,
                    kind,
                    t,
                    m,
                ) by {
                    assert(start + t.take(m) =~= (start + t).take(m + 2));
                }
                lemma_dfs_complete(n, mask, pool, depth, start, kind, t);
                lemma_pair_mask(n, 0, 1, t);
            }
        }
    }
    if each_dominated(n, k) && found is Some {
        let t = found.unwrap();
        lemma_dfs_sound(n, mask, pool, depth, start, kind);
        lemma_subsequence(pool, t);
        lemma_pair_mask(n, 0, 1, t);
        lemma_start_vertices(n, 1, t);
        assert(vertices(n, seq![0usize, 1usize] + t));
    }
}

/// A list that starts with 0 and `g` and goes on with vertices above `g`.
proof fn lemma_start_vertices(n: int, g: usize, t: Seq<usize>)
    requires
        1 <= g < n,
        increasing(t),
        forall|i: int| 0 <= i < t.len() ==> g < #[trigger] t[i] < n,
    ensures
        vertices(n, seq![0usize, g] + t),
        increasing(seq![0usize, g] + t),
{
    let s = seq![0usize, g] + t;
    assert forall|i: int| 0 <= i < s.len() implies #[trigger] s[i] < n by {
        if i >= 2 {
            assert(s[i] == t[i - 2]);
        }
    }
    assert forall|i: int, j: int| 0 <= i < s.len() && 0 <= j < s.len() && i != j implies s[i]
        != s[j] by {
        if i >= 2 {
            assert(s[i] == t[i - 2]);
        }
        if j >= 2 {
            assert(s[j] == t[j - 2]);
        }
    }
}

/// There is a deadline, and at `time` it has passed.
pub open spec fn passed(deadline: Option<Instant>, time: Instant) -> bool {
    deadline matches Some(limit) && not_before(time, limit)
}

/// There is a deadline, and at every time it has passed.
pub open spec fn always_passed(deadline: Option<Instant>) -> bool {
    forall|time: Instant| #[trigger] passed(deadline, time)
}

/// There is a flag, and a reading of it shows it up.
pub open spec fn seen_up(flag: Option<&AtomicBool>) -> bool {
    flag matches Some(f) && flag_reading(f, true)
}

/// There is a flag, and no reading of it shows it down.
pub open spec fn never_down(flag: Option<&AtomicBool>) -> bool {
    flag matches Some(f) && !flag_reading(f, false)
}

/// A reading of the clock has reached the deadline.
pub open spec fn seen_late(deadline: Option<Instant>) -> bool {
    exists|time: Instant| #[trigger] clock_reading(time) && passed(deadline, time)
}

/// There is a deadline, and every reading of the clock has reached it.
pub open spec fn never_early(deadline: Option<Instant>) -> bool {
    deadline is Some && forall|time: Instant| #[trigger]
        clock_reading(time) ==> passed(deadline, time)
}

/// A reading of a flag or of the clock calls for a stop.
pub open spec fn stop_seen(
    abort: Option<&AtomicBool>,
    interrupted: Option<&AtomicBool>,
    deadline: Option<Instant>,
) -> bool {
    seen_up(abort) || seen_up(interrupted) || seen_late(deadline)
}

/// All readings of a flag, or of the clock, call for a stop.
pub open spec fn stop_sure(
    abort: Option<&AtomicBool>,
    interrupted: Option<&AtomicBool>,
    deadline: Option<Instant>,
) -> bool {
    never_down(abort) || never_down(interrupted) || never_early(deadline)
}

/// Nothing can stop a search: there is no flag, and no deadline that passes at
/// any time.
pub open spec fn unstoppable(
    abort: Option<&AtomicBool>,
    interrupted: Option<&AtomicBool>,
    deadline: Option<Instant>,
) -> bool {
    abort is None && interrupted is None && forall|time: Instant| !#[trigger] passed(deadline, time)
}

/// Whether there is a flag and it is up.
fn raised(flag: Option<&AtomicBool>) -> (r: bool)
    ensures
        flag is None ==> !r,
        flag matches Some(f) ==> flag_reading(f, r),
{
    match flag {
        Some(flag) => read_flag(flag),
        None => false,
    }
}

/// Puts the flag up, if there is one.
fn raise(flag: Option<&AtomicBool>) {
    match flag {
        Some(flag) => flag.store(true, Ordering::Relaxed),
        None => {},
    }
}

/// Takes the flag down.
fn lower(flag: &AtomicBool) {
    flag.store(false, Ordering::Relaxed);
}

/// Whether there is a deadline and at `time` it has passed.
fn expired(deadline: Option<Instant>, time: Instant) -> (r: bool)
    ensures
        r == passed(deadline, time),
{
    match deadline {
        Some(limit) => reached(time, limit),
        None => false,
    }
}

/// Whether a search is to stop, given what its flags show and the time.
pub fn must_stop(
    abort_up: bool,
    interrupted_up: bool,
    deadline: Option<Instant>,
    time: Instant,
) -> (r: bool)
    ensures
        r == (abort_up || interrupted_up || passed(deadline, time)),
{
    abort_up || interrupted_up || expired(deadline, time)
}

/// Whether to give up: a flag is up, or at `time` the deadline has passed.  A
/// passed deadline puts the flag `abort` up.
fn told_to_stop(
    abort: Option<&AtomicBool>,
    interrupted: Option<&AtomicBool>,
    deadline: Option<Instant>,
    time: Instant,
) -> (r: bool)
    ensures
        passed(deadline, time) ==> r,
        abort is None && interrupted is None ==> r == passed(deadline, time),
        r ==> seen_up(abort) || seen_up(interrupted) || passed(deadline, time),
        !r ==> !never_down(abort) && !never_down(interrupted),
{
    let abort_up: bool = raised(abort);
    let interrupted_up: bool = raised(interrupted);
    let stop: bool = must_stop(abort_up, interrupted_up, deadline, time);
    if stop && !abort_up && !interrupted_up {
        raise(abort);
    }
    stop
}

/// `r` reports `result`, unless it reports a stop.
pub open spec fn reports(r: Option<Ending>, result: Option<Seq<usize>>) -> bool {
    match r {
        None => result is None,
        Some(Ending::Found(t)) => result == Some(t@),
        Some(Ending::Stopped) => true,
    }
}

/// What a search needs to run: a mask as wide as the sets of vertices, few
/// enough bits in it to count, vertices in the pool, and, where a filter reads
/// it, vertices in the list so far.
pub open spec fn searchable(
    p: &Paley,
    mask: &BitSet,
    pool: Seq<usize>,
    cur: Seq<usize>,
    kind: CanonicalKind,
) -> bool {
    &&& p.wf()
    &&& mask.words@.len() == p.nwords
    &&& mask@.len() <= u32::MAX
    &&& forall|i: int| 0 <= i < pool.len() ==> #[trigger] pool[i] < p.n
    &&& kind == CanonicalKind::CaseA ==> forall|i: int|
        0 <= i < cur.len() ==> #[trigger] cur[i] < p.n
}

/// The dominators of a vertex are few enough to count in 32 bits.
pub proof fn lemma_score_fits(p: &Paley, mask: Set<int>, v: usize)
    requires
        p.wf(),
        v < p.n,
        mask.finite(),
    ensures
        mask.intersect(dominators(p.n as int, v as int)).finite(),
        mask.intersect(dominators(p.n as int, v as int)).len() <= u32::MAX,
{
    let n = p.n as int;
    lemma_fits(n);
    lemma_int_range(0, n);
    let m = mask.intersect(dominators(n, v as int));
    assert(m.subset_of(set_int_range(0, n)));
    lemma_len_subset(m, set_int_range(0, n));
}

/// The scores of the first `count` candidates of the pool, each with its
/// position.
fn scores(p: &Paley, prefix: &BitSet, pool: &[usize], count: usize) -> (scored: Vec<(u32, usize)>)
    requires
        searchable(p, prefix, pool@, Seq::empty(), CanonicalKind::Any),
        count <= pool@.len(),
    ensures
        scored@.len() == count,
        forall|i: int|
            0 <= i < count ==> (#[trigger] scored@[i]).0 == score(p.n as int, prefix@, pool@[i])
                && scored@[i].1 == i,
{
    let ghost n = p.n as int;
    let mut tmp = BitSet::zeros(p.nwords);
    let mut scored: Vec<(u32, usize)> = Vec::with_capacity(count);
    let mut i: usize = 0;
    proof {
        lemma_members_finite(prefix.words@);
    }
    while i < count
        invariant
            searchable(p, prefix, pool@, Seq::empty(), CanonicalKind::Any),
            n == p.n,
            prefix@.finite(),
            count <= pool@.len(),
            i <= count,
            tmp.words@.len() == p.nwords,
            scored@.len() == i,
            forall|j: int|
                0 <= j < i ==> (#[trigger] scored@[j]).0 == score(n, prefix@, pool@[j])
                    && scored@[j].1 == j,
        decreases count - i,
    {
        let v: usize = pool[i];
        BitSet::and_into(&mut tmp, prefix, &p.nb[v]);
        proof {
            lemma_score_fits(p, prefix@, v);
        }
        scored.push((tmp.popcount(), i));
        i = i + 1;
    }
    scored
}

/// A sorted list of pairs holds the pairs it sorts.
proof fn lemma_sorted_pairs(before: Seq<(u32, usize)>, after: Seq<(u32, usize)>)
    requires
        before.to_multiset() == after.to_multiset(),
    ensures
        after.len() == before.len(),
        forall|x: (u32, usize)| before.contains(x) <==> after.contains(x),
{
    broadcast use vstd::multiset::group_multiset_axioms;
    broadcast use group_to_multiset_ensures;

    assert forall|x: (u32, usize)| before.contains(x) <==> after.contains(x) by {
        to_multiset_contains(before, x);
        to_multiset_contains(after, x);
    }
    to_multiset_len(before);
    to_multiset_len(after);
}

/// Tries candidate `idx` of the pool, whose score is `pop`.
fn explore(
    p: &Paley,
    prefix: &BitSet,
    pool: &[usize],
    depth: usize,
    cur_subset: &mut Vec<usize>,
    canonical: CanonicalKind,
    abort: Option<&AtomicBool>,
    interrupted: Option<&AtomicBool>,
    deadline: Option<Instant>,
    pop: u32,
    idx: usize,
) -> (r: Option<Ending>)
    requires
        searchable(p, prefix, pool@, old(cur_subset)@, canonical),
        depth > 0,
        idx < pool@.len(),
        pop == score(p.n as int, prefix@, pool@[idx as int]),
    ensures
        final(cur_subset)@ == old(cur_subset)@,
        reports(
            r,
            branch(
                p.n as int,
                prefix@,
                pool@,
                depth as nat,
                old(cur_subset)@,
                canonical,
                idx as int,
            ),
        ),
        unstoppable(abort, interrupted, deadline) ==> r != Some(Ending::Stopped),
        r == Some(Ending::Stopped) ==> stop_seen(abort, interrupted, deadline),
    decreases depth, 0nat,
{
    let ghost n = p.n as int;
    let ghost cur = cur_subset@;
    let v: usize = pool[idx];
    cur_subset.push(v);
    let pass: bool = match canonical {
        CanonicalKind::Any => true,
        CanonicalKind::CaseA => case_a_canonical(cur_subset.as_slice(), p),
    };
    if !pass {
        cur_subset.pop();
        assert(cur_subset@ =~= cur);
        return None;
    }
    if pop == 0 {
        cur_subset.pop();
        assert(cur_subset@ =~= cur);
        if pool.len() - idx < depth {
            return None;
        }
        let mut t: Vec<usize> = Vec::new();
        let mut nxt: usize = idx;
        while t.len() < depth
            invariant
                idx + depth <= pool@.len(),
                t@.len() <= depth,
                nxt == idx + t@.len(),
                t@ == pool@.subrange(idx as int, nxt as int),
            decreases depth - t@.len(),
        {
            t.push(pool[nxt]);
            nxt = nxt + 1;
            assert(t@ =~= pool@.subrange(idx as int, nxt as int));
        }
        return Some(Ending::Found(t));
    }
    if depth == 1 {
        cur_subset.pop();
        assert(cur_subset@ =~= cur);
        return None;
    }
    let mut new_prefix = prefix.clone();
    new_prefix.and_assign(&p.nb[v]);
    proof {
        assert(prefix@ == crate::bitset::members(prefix.words@));
        lemma_members_finite(prefix.words@);
        lemma_score_fits(p, prefix@, v);
    }
    let sub_pool: &[usize] = slice_subrange(pool, idx + 1, pool.len());
    assert(sub_pool@ == pool@.skip(idx + 1));
    let sub = enumerate_serial(
        p,
        &new_prefix,
        sub_pool,
        depth - 1,
        cur_subset,
        canonical,
        abort,
        interrupted,
        deadline,
    );
    cur_subset.pop();
    assert(cur_subset@ =~= cur);
    match sub {
        Some(Ending::Found(rest)) => Some(Ending::Found(prepend(v, rest.as_slice()))),
        Some(Ending::Stopped) => Some(Ending::Stopped),
        None => None,
    }
}

/// Depth-first search for `depth` vertices of the pool, in pool order, that
/// empty the mask `prefix`; the candidates that leave the fewest vertices in
/// the mask are tried first.  `cur_subset` holds the vertices chosen so far,
/// to which the filter applies.
pub fn enumerate_serial(
    p: &Paley,
    prefix: &BitSet,
    pool: &[usize],
    depth: usize,
    cur_subset: &mut Vec<usize>,
    canonical: CanonicalKind,
    abort: Option<&AtomicBool>,
    interrupted: Option<&AtomicBool>,
    deadline: Option<Instant>,
) -> (r: Option<Ending>)
    requires
        searchable(p, prefix, pool@, old(cur_subset)@, canonical),
    ensures
        final(cur_subset)@ == old(cur_subset)@,
        reports(
            r,
            dfs(p.n as int, prefix@, pool@, depth as nat, old(cur_subset)@, canonical),
        ),
        depth == 0 || pool@.len() < depth ==> r != Some(Ending::Stopped),
        unstoppable(abort, interrupted, deadline) ==> r != Some(Ending::Stopped),
        r == Some(Ending::Stopped) ==> stop_seen(abort, interrupted, deadline),
        0 < depth <= pool@.len() && always_passed(deadline) ==> r == Some(Ending::Stopped),
        0 < depth <= pool@.len() && stop_sure(abort, interrupted, deadline) ==> r == Some(
            Ending::Stopped,
        ),
    decreases depth, 1nat,
{
    let ghost n = p.n as int;
    let ghost cur = cur_subset@;
    if depth == 0 {
        let t: Vec<usize> = Vec::new();
        return if prefix.popcount() == 0 {
            assert(t@ =~= Seq::<usize>::empty());
            Some(Ending::Found(t))
        } else {
            None
        };
    }
    if pool.len() < depth {
        return None;
    }
    if told_to_stop(abort, interrupted, deadline, read_clock()) {
        return Some(Ending::Stopped);
    }
    let mut scored: Vec<(u32, usize)> = scores(p, prefix, pool, pool.len());
    let ghost unsorted = scored@;
    sort_pairs(&mut scored);
    let ghost results = branches(n, prefix@, pool@, depth as nat, cur, canonical);
    proof {
        lemma_sorted_pairs(unsorted, scored@);
    }
    let mut q: usize = 0;
    while q < scored.len()
        invariant
            searchable(p, prefix, pool@, cur, canonical),
            n == p.n,
            cur_subset@ == cur,
            cur == old(cur_subset)@,
            depth > 0,
            pool@.len() >= depth,
            !always_passed(deadline),
            !stop_sure(abort, interrupted, deadline),
            results == branches(n, prefix@, pool@, depth as nat, cur, canonical),
            unsorted.len() == pool@.len(),
            forall|i: int|
                0 <= i < pool@.len() ==> (#[trigger] unsorted[i]).0 == score(n, prefix@, pool@[i])
                    && unsorted[i].1 == i,
            forall|x: (u32, usize)| unsorted.contains(x) <==> scored@.contains(x),
            forall|i: int, j: int|
                0 <= i < j < scored@.len() ==> pair_le(scored@[i], scored@[j]),
            q <= scored@.len(),
            forall|i: int| 0 <= i < q ==> results[(#[trigger] scored@[i]).1 as int] is None,
        decreases scored@.len() - q,
    {
        if raised(abort) {
            return Some(Ending::Stopped);
        }
        let (pop, idx): (u32, usize) = scored[q];
        proof {
            assert(scored@.contains(scored@[q as int]));
            assert(unsorted.contains((pop, idx)));
            let i = choose|i: int| 0 <= i < unsorted.len() && unsorted[i] == (pop, idx);
            assert(idx == i);
        }
        let r = explore(
            p,
            prefix,
            pool,
            depth,
            cur_subset,
            canonical,
            abort,
            interrupted,
            deadline,
            pop,
            idx,
        );
        match r {
            Some(Ending::Found(t)) => {
                proof {
                    assert(results[idx as int] == Some(t@));
                    assert forall|j: int|
                        0 <= j < results.len() && j != idx && #[trigger] results[j]
                            is Some implies tried_before(n, prefix@, pool@, idx as int, j) by {
                        assert(unsorted.contains(unsorted[j]));
                        let c = choose|c: int| 0 <= c < scored@.len() && scored@[c] == unsorted[j];
                        assert(scored@.contains(unsorted[j]));
                        assert(c >= q) by {
                            if c < q {
                                assert(results[scored@[c].1 as int] is None);
                            }
                        }
                        assert(pair_le(scored@[q as int], scored@[c]));
                    }
                    lemma_first_success_unique(n, prefix@, pool@, results, idx as int);
                }
                return Some(Ending::Found(t));
            },
            Some(Ending::Stopped) => {
                return Some(Ending::Stopped);
            },
            None => {},
        }
        q = q + 1;
    }
    proof {
        assert forall|i: int| !first_success(n, prefix@, pool@, results, i) by {
            if 0 <= i < results.len() {
                assert(unsorted.contains(unsorted[i]));
                assert(scored@.contains(unsorted[i]));
                let c = choose|c: int| 0 <= c < scored@.len() && scored@[c] == unsorted[i];
                assert(results[scored@[c].1 as int] is None);
            }
        }
    }
    None
}

/// Whether all beginnings of `t`, up to the first that empties the mask, pass
/// the filter after `cur`.
fn passes_filter(
    p: &Paley,
    prefix: &BitSet,
    cur: &[usize],
    canonical: CanonicalKind,
    t: &[usize],
) -> (r: bool)
    requires
        searchable(p, prefix, t@, cur@, canonical),
    ensures
        r == passes(p.n as int, prefix@, cur@, canonical, t@),
{
    match canonical {
        CanonicalKind::Any => {
            return true;
        },
        CanonicalKind::CaseA => {},
    }
    let ghost n = p.n as int;
    let mut mask = prefix.clone();
    let mut alive: bool = true;
    let mut list: Vec<usize> = Vec::new();
    list.extend_from_slice(cur);
    let len: usize = t.len();
    let mut m: usize = 0;
    proof {
        assert(t@.take(0) =~= Seq::<usize>::empty());
        assert(narrowed(n, prefix@, t@.take(0)) =~= prefix@);
        assert(list@ =~= cur@ + t@.take(0));
    }
    while m < len
        invariant
            searchable(p, prefix, t@, cur@, canonical),
            canonical == CanonicalKind::CaseA,
            n == p.n,
            len == t@.len(),
            m <= len,
            mask.words@.len() == p.nwords,
            mask@ == narrowed(n, prefix@, t@.take(m as int)),
            alive == (m == 0 || mask@ != Set::<int>::empty()),
            list@ == cur@ + t@.take(m as int),
            forall|q: int|
                1 <= q <= m ==> #[trigger] beginning_passes(n, prefix@, cur@, canonical, t@, q),
        decreases len - m,
    {
        let v: usize = t[m];
        list.push(v);
        proof {
            assert(t@.take(m as int).push(v) =~= t@.take(m + 1));
            assert(list@ =~= cur@ + t@.take(m + 1));
            lemma_narrowed_push(n, prefix@, t@.take(m as int), v);
        }
        if alive && !case_a_canonical(list.as_slice(), p) {
            assert(!beginning_passes(n, prefix@, cur@, canonical, t@, m + 1));
            return false;
        }
        assert(beginning_passes(n, prefix@, cur@, canonical, t@, m + 1));
        alive = mask.and_assign(&p.nb[v]);
        m = m + 1;
    }
    true
}

/// Whether `t` consists of `depth` vertices of the pool, in pool order, that
/// empty the mask and pass the filter after `cur`.
fn confirms(
    p: &Paley,
    prefix: &BitSet,
    pool: &[usize],
    depth: usize,
    cur: &[usize],
    canonical: CanonicalKind,
    t: &[usize],
) -> (r: bool)
    requires
        searchable(p, prefix, pool@, cur@, canonical),
    ensures
        r == (collapses(p.n as int, prefix@, pool@, depth as nat, t@) && passes(
            p.n as int,
            prefix@,
            cur@,
            canonical,
            t@,
        )),
{
    if t.len() != depth {
        return false;
    }
    if !is_subsequence(pool, t) {
        return false;
    }
    proof {
        lemma_subsequence(pool@, t@);
        assert forall|j: int| 0 <= j < t@.len() implies #[trigger] t@[j] < p.n by {
            assert(pool@.contains(t@[j]));
        }
    }
    let mut scratch = BitSet::zeros(p.nwords);
    !has_dominator(p, prefix, t, &mut scratch) && passes_filter(p, prefix, cur, canonical, t)
}

/// Tries candidate `idx` of the pool on its own.  A list that is found is left
/// in `found`, and `abort` is put up, for the branches that run beside this
/// one.
fn search_branch(
    p: &Paley,
    prefix: &BitSet,
    pool: &[usize],
    depth: usize,
    initial_subset: &[usize],
    canonical: CanonicalKind,
    abort: Option<&AtomicBool>,
    found: &OnceLock<Vec<usize>>,
    interrupted: Option<&AtomicBool>,
    deadline: Option<Instant>,
    pop: u32,
    idx: usize,
) -> (r: Option<Ending>)
    requires
        searchable(p, prefix, pool@, initial_subset@, canonical),
        depth > 0,
        idx < pool@.len(),
        pop == score(p.n as int, prefix@, pool@[idx as int]),
    ensures
        reports(
            r,
            branch(
                p.n as int,
                prefix@,
                pool@,
                depth as nat,
                initial_subset@,
                canonical,
                idx as int,
            ),
        ),
        unstoppable(abort, interrupted, deadline) ==> r != Some(Ending::Stopped),
        r == Some(Ending::Stopped) ==> stop_seen(abort, interrupted, deadline),
{
    if told_to_stop(abort, interrupted, deadline, read_clock()) {
        return Some(Ending::Stopped);
    }
    let mut cur_subset: Vec<usize> = Vec::new();
    cur_subset.extend_from_slice(initial_subset);
    assert(cur_subset@ =~= initial_subset@);
    let r = explore(
        p,
        prefix,
        pool,
        depth,
        &mut cur_subset,
        canonical,
        abort,
        interrupted,
        deadline,
        pop,
        idx,
    );
    match r {
        Some(Ending::Found(t)) => {
            let _ = found.set(t.clone());
            raise(abort);
            Some(Ending::Found(t))
        },
        other => other,
    }
}

/// The pair of a score and the position in the pool that it belongs to.
spec fn scored_candidate(p: &Paley, prefix: &BitSet, pool: Seq<usize>, item: (u32, usize)) -> bool {
    &&& item.1 < pool.len()
    &&& item.0 == score(p.n as int, prefix@, pool[item.1 as int])
}

/// `r` reports what trying the candidate comes to, or, if it may, a stop.
spec fn reports_item(
    may_stop: bool,
    p: &Paley,
    prefix: &BitSet,
    pool: Seq<usize>,
    depth: usize,
    cur: Seq<usize>,
    kind: CanonicalKind,
    item: (u32, usize),
    r: Option<Ending>,
) -> bool {
    &&& reports(r, branch(p.n as int, prefix@, pool, depth as nat, cur, kind, item.1 as int))
    &&& may_stop || r != Some(Ending::Stopped)
}

/// The search of `enumerate_serial` with the candidates for the first vertex
/// tried in parallel.  Which of several lists is found is left open.
pub fn enumerate_parallel(
    p: &Paley,
    prefix: &BitSet,
    pool: &[usize],
    depth: usize,
    initial_subset: &[usize],
    canonical: CanonicalKind,
    abort: Option<&AtomicBool>,
    interrupted: Option<&AtomicBool>,
    deadline: Option<Instant>,
) -> (r: Option<Ending>)
    requires
        searchable(p, prefix, pool@, initial_subset@, canonical),
    ensures
        match r {
            None => dfs(
                p.n as int,
                prefix@,
                pool@,
                depth as nat,
                initial_subset@,
                canonical,
            ) is None,
            Some(Ending::Found(t)) => collapses(p.n as int, prefix@, pool@, depth as nat, t@)
                && passes(p.n as int, prefix@, initial_subset@, canonical, t@),
            Some(Ending::Stopped) => 0 < depth <= pool@.len() && !unstoppable(
                abort,
                interrupted,
                deadline,
            ) && stop_seen(abort, interrupted, deadline),
        },
        0 < depth <= pool@.len() && always_passed(deadline) ==> r == Some(Ending::Stopped),
        0 < depth <= pool@.len() && stop_sure(abort, interrupted, deadline) ==> r == Some(
            Ending::Stopped,
        ),
{
    let ghost n = p.n as int;
    proof {
        lemma_members_finite(prefix.words@);
        lemma_dfs_sound(n, prefix@, pool@, depth as nat, initial_subset@, canonical);
    }
    if depth == 0 {
        let t: Vec<usize> = Vec::new();
        return if prefix.popcount() == 0 {
            assert(t@ =~= Seq::<usize>::empty());
            Some(Ending::Found(t))
        } else {
            None
        };
    }
    let pool_len: usize = pool.len();
    if depth > pool_len {
        return None;
    }
    if told_to_stop(abort, interrupted, deadline, read_clock()) {
        return Some(Ending::Stopped);
    }
    let n_top: usize = pool_len - (depth - 1);
    let mut top_scored: Vec<(u32, usize)> = scores(p, prefix, pool, n_top);
    let ghost unsorted = top_scored@;
    sort_pairs(&mut top_scored);
    proof {
        lemma_sorted_pairs(unsorted, top_scored@);
        assert forall|i: int| 0 <= i < top_scored@.len() implies (#[trigger] top_scored@[i]).1
            < n_top && top_scored@[i].0 == score(n, prefix@, pool@[top_scored@[i].1 as int]) by {
            assert(top_scored@.contains(top_scored@[i]));
            let j = choose|j: int| 0 <= j < unsorted.len() && unsorted[j] == top_scored@[i];
            assert(unsorted.contains(top_scored@[i]));
        }
        assert forall|i: int| 0 <= i < top_scored@.len() implies scored_candidate(
            p,
            prefix,
            pool@,
            #[trigger] top_scored@[i],
        ) by {}
    }
    let cell: OnceLock<Vec<usize>> = OnceLock::new();
    let found: &OnceLock<Vec<usize>> = &cell;
    let ghost may_stop = !unstoppable(abort, interrupted, deadline) && stop_seen(
        abort,
        interrupted,
        deadline,
    );
    let f = |item: &(u32, usize)| -> (r: Option<Ending>)
        requires
            scored_candidate(p, prefix, pool@, *item),
        ensures
            reports_item(
                may_stop,
                p,
                prefix,
                pool@,
                depth,
                initial_subset@,
                canonical,
                *item,
                r,
            ),
        {
            search_branch(
                p,
                prefix,
                pool,
                depth,
                initial_subset,
                canonical,
                abort,
                found,
                interrupted,
                deadline,
                item.0,
                item.1,
            )
        };
    let ending = find_map_any(&top_scored, f);
    match ending {
        Some(Ending::Found(t)) => {
            proof {
                let i = choose|i: int|
                    0 <= i < top_scored@.len() && reports_item(
                        may_stop,
                        p,
                        prefix,
                        pool@,
                        depth,
                        initial_subset@,
                        canonical,
                        #[trigger] top_scored@[i],
                        ending,
                    );
                lemma_branch_sound(
                    n,
                    prefix@,
                    pool@,
                    depth as nat,
                    initial_subset@,
                    canonical,
                    top_scored@[i].1 as int,
                );
            }
            Some(Ending::Found(t))
        },
        Some(Ending::Stopped) => match cell.into_inner() {
            Some(t) => {
                if confirms(
                    p,
                    prefix,
                    pool,
                    depth,
                    initial_subset,
                    canonical,
                    t.as_slice(),
                ) {
                    Some(Ending::Found(t))
                } else {
                    Some(Ending::Stopped)
                }
            },
            None => Some(Ending::Stopped),
        },
        None => {
            proof {
                let results = branches(
                    n,
                    prefix@,
                    pool@,
                    depth as nat,
                    initial_subset@,
                    canonical,
                );
                assert forall|i: int| 0 <= i < results.len() implies #[trigger] results[i]
                    is None by {
                    if i < n_top {
                        assert(unsorted.contains(unsorted[i]));
                        assert(top_scored@.contains(unsorted[i]));
                        let c = choose|c: int|
                            0 <= c < top_scored@.len() && top_scored@[c] == unsorted[i];
                        assert(top_scored@[c].1 == i);
                    }
                }
            }
            None
        },
    }
}

/// What a verification came to.
pub enum VerifyResult {
    /// These vertices have no common dominator.
    Fail(Vec<usize>),
    /// All lists of vertices of the given length have a common dominator.
    Pass,
    /// The deadline passed first.
    Timeout,
    /// The interrupt came first.
    Interrupted,
}

/// What a verification that has found nothing comes to, if it cannot go on:
/// the interrupt counts before the deadline.  A search that was `cut` short
/// though neither is to be seen any more was stopped by the interrupt, if
/// there is a flag for it, and by the deadline otherwise.
pub fn outcome(interrupted_up: bool, late: bool, cut: bool, interruptible: bool) -> (r: Option<
    VerifyResult,
>)
    ensures
        interrupted_up ==> r == Some(VerifyResult::Interrupted),
        !interrupted_up && late ==> r == Some(VerifyResult::Timeout),
        !interrupted_up && !late && cut ==> r == Some(
            if interruptible {
                VerifyResult::Interrupted
            } else {
                VerifyResult::Timeout
            },
        ),
        !interrupted_up && !late && !cut ==> r is None,
{
    if interrupted_up {
        Some(VerifyResult::Interrupted)
    } else if late {
        Some(VerifyResult::Timeout)
    } else if cut {
        Some(
            if interruptible {
                VerifyResult::Interrupted
            } else {
                VerifyResult::Timeout
            },
        )
    } else {
        None
    }
}

/// The list `a, b` followed by `rest`.
fn start_with(a: usize, b: usize, rest: &[usize]) -> (s: Vec<usize>)
    ensures
        s@ == seq![a, b] + rest@,
{
    let mut s: Vec<usize> = Vec::new();
    s.push(a);
    s.push(b);
    s.extend_from_slice(rest);
    assert(s@ =~= seq![a, b] + rest@);
    s
}

/// Some vertex dominates vertex 0.
pub proof fn lemma_single(n: int)
    requires
        paley_prime(n),
    ensures
        dominators(n, 0).contains(n - 1),
        each_dominated(n, 1),
        each_dominated(n, 0),
{
    assert(crate::residues::square_mod(n, 1) == 1int % n);
    assert(crate::residues::residue(n, 1));
    vstd::arithmetic::div_mod::lemma_mod_sub_multiples_vanish(1, n);
    crate::residues::lemma_residue_cong(n, 1, 0 - (n - 1));
    assert forall|s: Seq<usize>| #[trigger] vertices(n, s) && s.len() == 1 implies dominated(
        n,
        s,
    ) by {
        let v = s[0] as int;
        let x = (v - 1) % n;
        vstd::arithmetic::div_mod::lemma_mod_bound(v - 1, n);
        vstd::arithmetic::div_mod::lemma_mod_twice(v - 1, n);
        crate::modular::lemma_cong_sub(n, v, v, x, v - 1);
        crate::residues::lemma_residue_cong(n, v - x, 1);
        assert(crate::tournament::common_dominator(n, s, x));
    }
    assert forall|s: Seq<usize>| #[trigger] vertices(n, s) && s.len() == 0 implies dominated(
        n,
        s,
    ) by {
        assert(crate::tournament::common_dominator(n, s, 0));
    }
}

/// Decides whether every `k` distinct vertices have a common dominator, unless
/// the deadline or an interrupt comes first.
pub fn verify(
    p: &Paley,
    k: usize,
    deadline: Option<Instant>,
    interrupted: Option<&AtomicBool>,
) -> (r: VerifyResult)
    requires
        p.wf(),
    ensures
        match r {
            VerifyResult::Fail(s) => {
                &&& vertices(p.n as int, s@)
                &&& s@.len() == k
                &&& k > 0
                &&& s@[0] == 0
                &&& increasing(s@)
                &&& !dominated(p.n as int, s@)
            },
            VerifyResult::Pass => each_dominated(p.n as int, k as int),
            VerifyResult::Timeout => k >= 2 && deadline is Some && seen_late(deadline),
            VerifyResult::Interrupted => k >= 2 && interrupted is Some && seen_up(interrupted),
        },
        k == 2 && !dominated(p.n as int, seq![0usize, 1usize]) ==> r is Fail,
        deadline is None && interrupted is None ==> r is Fail || r is Pass,
        always_passed(deadline) && k >= 2 && (k > 2 || dominated(
            p.n as int,
            seq![0usize, 1usize],
        )) ==> r is Timeout || r is Interrupted,
        never_early(deadline) && k >= 2 && (k > 2 || dominated(
            p.n as int,
            seq![0usize, 1usize],
        )) ==> r is Timeout || r is Interrupted,
        never_down(interrupted) && k >= 2 && (k > 2 || dominated(
            p.n as int,
            seq![0usize, 1usize],
        )) ==> r is Interrupted,
        !seen_up(interrupted) && !seen_late(deadline) ==> (r is Fail || r is Pass) && (r is Pass
            <==> each_dominated(p.n as int, k as int)),
{
    let ghost n = p.n as int;
    proof {
        lemma_single(n);
        lemma_fits(n);
    }
    if k == 0 {
        return VerifyResult::Pass;
    }
    if k == 1 {
        proof {
            lemma_int_range(0, n);
            lemma_len_subset(dominators(n, 0), set_int_range(0, n));
        }
        return if p.nb[0].popcount() == 0 {
            VerifyResult::Fail(vec![0usize])
        } else {
            VerifyResult::Pass
        };
    }
    proof {
        lemma_some_nonresidue(n, p.nrs@);
    }
    let g: usize = p.nrs[0];
    let flag = AtomicBool::new(false);
    // A list that one branch finds cuts the others short through the flag.
    // Where nothing else can stop the search it runs without the flag, and is
    // sure to decide.
    let abort: Option<&AtomicBool> = if deadline.is_some() || interrupted.is_some() {
        Some(&flag)
    } else {
        None
    };
    let none: Vec<usize> = Vec::new();

    // Every arc can be taken to the arc from 0 to 1, so the lists that start
    // with these two stand for all.
    let mut pa = p.nb[0].clone();
    pa.and_assign(&p.nb[1]);
    let mut pool_a: Vec<usize> = Vec::new();
    let mut v: usize = 2;
    while v < p.n
        invariant
            n == p.n,
            2 <= v <= n,
            pool_a@.len() == v - 2,
            forall|i: int| 0 <= i < pool_a@.len() ==> #[trigger] pool_a@[i] == i + 2,
        decreases p.n - v,
    {
        pool_a.push(v);
        v = v + 1;
    }
    proof {
        assert(pool_a@ =~= upper_pool(n));
        assert(dominators(n, 0).finite()) by {
            lemma_members_finite(p.nb@[0].words@);
        }
        lemma_score_fits(p, dominators(n, 0), 1);
        assert(pa@ == pair_mask(n, 0, 1));
        lemma_search_decides(n, k as int, CanonicalKind::Any);
    }
    let start_a = start_with(0, 1, none.as_slice());
    assert(start_a@ =~= seq![0usize, 1usize]);
    let mut case_a = enumerate_parallel(
        p,
        &pa,
        pool_a.as_slice(),
        k - 2,
        start_a.as_slice(),
        CanonicalKind::Any,
        abort,
        interrupted,
        deadline,
    );
    let cut: bool = matches!(case_a, Some(Ending::Stopped));
    if cut {
        let late: bool = expired(deadline, read_clock());
        match outcome(raised(interrupted), late, false, interrupted.is_some()) {
            Some(r) => {
                return r;
            },
            None => {},
        }
        // What cut the search short is gone; another one, which nothing can
        // stop, decides.
        case_a = enumerate_parallel(
            p,
            &pa,
            pool_a.as_slice(),
            k - 2,
            start_a.as_slice(),
            CanonicalKind::Any,
            None,
            None,
            None,
        );
    }
    match case_a {
        Some(Ending::Found(t)) => {
            proof {
                lemma_subsequence(pool_a@, t@);
                lemma_pair_mask(n, 0, 1, t@);
                assert forall|i: int| 0 <= i < t@.len() implies 1 < #[trigger] t@[i] < n by {
                    assert(pool_a@.contains(t@[i]));
                }
                lemma_start_vertices(n, 1, t@);
            }
            return VerifyResult::Fail(start_with(0, 1, t.as_slice()));
        },
        _ => {},
    }
    proof {
        assert(seq![0usize, 1usize] + Seq::<usize>::empty() =~= seq![0usize, 1usize]);
        lemma_pair_mask(n, 0, 1, Seq::empty());
        assert(narrowed(n, pa@, Seq::empty()) =~= pa@);
    }
    let late: bool = expired(deadline, read_clock());
    match outcome(raised(interrupted), late, false, interrupted.is_some()) {
        Some(r) => {
            return r;
        },
        None => {},
    }

    // The lists of 0 and nonresidues, from the least nonresidue on.
    lower(&flag);
    let mut pb = p.nb[0].clone();
    pb.and_assign(&p.nb[g]);
    proof {
        lemma_score_fits(p, dominators(n, 0), g);
        assert(pb@ == pair_mask(n, 0, g as int));
        assert forall|i: int| 0 <= i < p.nrs@.len() implies #[trigger] p.nrs@[i] < p.n by {
            assert(p.nrs@.contains(p.nrs@[i]));
        }
    }
    let pool_b: &[usize] = slice_subrange(p.nrs.as_slice(), 1, p.nrs.len());
    let start_b = start_with(0, g, none.as_slice());
    let case_b = enumerate_parallel(
        p,
        &pb,
        pool_b,
        k - 2,
        start_b.as_slice(),
        CanonicalKind::Any,
        abort,
        interrupted,
        deadline,
    );
    match case_b {
        Some(Ending::Found(t)) => {
            proof {
                lemma_pair_mask(n, 0, g, t@);
                lemma_subsequence(pool_b@, t@);
                assert(increasing(pool_b@));
                assert forall|i: int| 0 <= i < t@.len() implies g < #[trigger] t@[i] < n by {
                    assert(pool_b@.contains(t@[i]));
                    let j = choose|j: int| 0 <= j < pool_b@.len() && pool_b@[j] == t@[i];
                    assert(p.nrs@[j + 1] == t@[i]);
                }
                lemma_start_vertices(n, g, t@);
            }
            return VerifyResult::Fail(start_with(0, g, t.as_slice()));
        },
        _ => {},
    }
    // The lists that start with 0 and 1 have decided already, so it does not
    // matter whether this search was cut short.
    let late: bool = expired(deadline, read_clock());
    match outcome(raised(interrupted), late, false, interrupted.is_some()) {
        Some(r) => r,
        None => VerifyResult::Pass,
    }
}

/// Nothing counts as a stop where no reading of the flag shows it up and no
/// reading of the clock reaches the deadline; and where all readings do, they
/// count.
pub proof fn lemma_undisturbed(interrupted: Option<&AtomicBool>, deadline: Option<Instant>)
    ensures
        (interrupted matches Some(f) ==> !flag_reading(f, true)) ==> !seen_up(interrupted),
        (deadline matches Some(limit) ==> forall|time: Instant|
            clock_reading(time) ==> !not_before(time, limit)) ==> !seen_late(deadline),
        interrupted matches Some(f) ==> !flag_reading(f, false) ==> never_down(interrupted),
        deadline matches Some(limit) ==> (forall|time: Instant|
            clock_reading(time) ==> not_before(time, limit)) ==> never_early(deadline),
{
}

} // verus!
