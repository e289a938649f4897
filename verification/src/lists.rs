//! Small operations on lists of vertices.
use crate::tournament::{
    ascending, increasing, lemma_ascending, lemma_ascending_split, lemma_covering_length,
    lemma_distinct_length, vertices,
};
use vstd::prelude::*;

verus! {

/// Whether `x` stands in the list.
pub fn contains(s: &[usize], x: usize) -> (r: bool)
    ensures
        r == s@.contains(x),
{
    let len: usize = s.len();
    let mut i: usize = 0;
    while i < len
        invariant
            len == s@.len(),
            i <= len,
            forall|j: int| 0 <= j < i ==> s@[j] != x,
        decreases len - i,
    {
        if s[i] == x {
            return true;
        }
        i = i + 1;
    }
    false
}

/// The list with `first` put before it.
pub fn prepend(first: usize, rest: &[usize]) -> (s: Vec<usize>)
    ensures
        s@ == seq![first] + rest@,
{
    let mut s: Vec<usize> = Vec::new();
    s.push(first);
    s.extend_from_slice(rest);
    assert(s@ =~= seq![first] + rest@);
    s
}

/// The numbers that do not stand in the list.
pub open spec fn unused(s: Seq<usize>) -> Set<int> {
    Set::new(|x: int| 0 <= x <= usize::MAX && !s.contains(x as usize))
}

/// The list filled up towards length `k` with the least unused numbers from
/// `from` up to `n`, in increasing order.
pub open spec fn padded(s: Seq<usize>, from: int, n: int, k: int) -> Seq<usize> {
    let extra = ascending(unused(s), from, n);
    if k <= s.len() {
        s
    } else if k - s.len() <= extra.len() {
        s + extra.take(k - s.len())
    } else {
        s + extra
    }
}

/// What padding keeps: the list as a beginning, and vertices distinct.  It
/// stops short of the length `k` only where no number is left.
pub proof fn lemma_padded(s: Seq<usize>, from: int, n: int, k: int)
    requires
        vertices(n, s),
        0 <= from,
        n <= usize::MAX,
    ensures
        vertices(n, padded(s, from, n, k)),
        s.len() <= padded(s, from, n, k).len(),
        s.len() <= k ==> padded(s, from, n, k).len() <= k,
        forall|i: int| 0 <= i < s.len() ==> padded(s, from, n, k)[i] == s[i],
        forall|i: int|
            s.len() <= i < padded(s, from, n, k).len() ==> from <= #[trigger] padded(
                s,
                from,
                n,
                k,
            )[i],
        padded(s, from, n, k).len() < k ==> forall|v: usize|
            from <= v < n ==> padded(s, from, n, k).contains(v),
{
    let extra = ascending(unused(s), from, n);
    let t = padded(s, from, n, k);
    lemma_ascending(unused(s), from, n);
    assert forall|i: int| s.len() <= i < t.len() implies t[i] == extra[i - s.len()] by {}
    assert forall|i: int| 0 <= i < extra.len() implies from <= #[trigger] extra[i] < n
        && !s.contains(extra[i]) by {
        assert(extra.contains(extra[i]));
    }
    assert forall|i: int, j: int| 0 <= i < t.len() && 0 <= j < t.len() && i != j implies t[i]
        != t[j] by {
        if i < s.len() && j >= s.len() {
            assert(s.contains(s[i]));
        }
        if j < s.len() && i >= s.len() {
            assert(s.contains(s[j]));
        }
    }
    if t.len() < k {
        assert(t =~= s + extra);
        assert forall|v: usize| from <= v < n implies t.contains(v) by {
            if s.contains(v) {
                let i = choose|i: int| 0 <= i < s.len() && s[i] == v;
                assert(t[i] == v);
            } else {
                assert(extra.contains(v));
                let i = choose|i: int| 0 <= i < extra.len() && extra[i] == v;
                assert(t[s.len() + i] == v);
            }
        }
    }
}

/// A list that holds every vertex below `from` is filled up to `k`, or to all
/// of the `n` vertices.
pub proof fn lemma_padded_length(s: Seq<usize>, from: int, n: int, k: int)
    requires
        vertices(n, s),
        0 <= from,
        0 <= n <= usize::MAX,
        s.len() <= k,
        forall|v: usize| v < from ==> s.contains(v),
    ensures
        padded(s, from, n, k).len() == if k <= n {
            k
        } else {
            n
        },
{
    let t = padded(s, from, n, k);
    lemma_padded(s, from, n, k);
    lemma_distinct_length(n, 0, t);
    if t.len() < k {
        assert forall|v: usize| 0 <= v < n implies t.contains(v) by {
            if v < from {
                assert(s.contains(v));
                let i = choose|i: int| 0 <= i < s.len() && s[i] == v;
                assert(t[i] == v);
            }
        }
        lemma_covering_length(n, 0, t);
    }
}

/// Fills the list up towards length `k` with the least unused numbers from
/// `from` up to `n`.
pub fn pad_from(s: &mut Vec<usize>, from: usize, n: usize, k: usize)
    ensures
        final(s)@ == padded(old(s)@, from as int, n as int, k as int),
{
    let ghost start = s@;
    let ghost extra = ascending(unused(start), from as int, n as int);
    let mut nxt: usize = from;
    proof {
        assert(s@ =~= start + ascending(unused(start), from as int, from as int));
    }
    while s.len() < k && nxt < n
        invariant
            from <= nxt,
            from <= n ==> nxt <= n,
            from > n ==> nxt == from,
            s@ == start + ascending(unused(start), from as int, nxt as int),
            s@.len() <= k || s@ == start,
        decreases n - nxt,
    {
        let ghost part = ascending(unused(start), from as int, nxt as int);
        let ghost before = s@;
        proof {
            lemma_ascending(unused(start), from as int, nxt as int);
            lemma_ascending_split(unused(start), from as int, nxt as int, nxt + 1);
            let one = ascending(unused(start), nxt as int, nxt + 1);
            assert(ascending(unused(start), nxt + 1, nxt + 1) =~= Seq::<usize>::empty());
            assert(before.contains(nxt) <==> start.contains(nxt)) by {
                if before.contains(nxt) {
                    let i = choose|i: int| 0 <= i < before.len() && before[i] == nxt;
                    if i >= start.len() {
                        assert(part[i - start.len()] == nxt);
                        assert(part.contains(nxt));
                    }
                }
                if start.contains(nxt) {
                    let i = choose|i: int| 0 <= i < start.len() && start[i] == nxt;
                    assert(before[i] == nxt);
                }
            }
            if start.contains(nxt) {
                assert(one =~= Seq::<usize>::empty());
            } else {
                assert(one =~= seq![nxt]);
            }
            assert(part + Seq::<usize>::empty() =~= part);
        }
        if !contains(s.as_slice(), nxt) {
            s.push(nxt);
            assert(s@ =~= start + (part + seq![nxt]));
        }
        nxt = nxt + 1;
    }
    proof {
        let part = ascending(unused(start), from as int, nxt as int);
        if nxt <= n {
            lemma_ascending_split(unused(start), from as int, nxt as int, n as int);
        }
        if nxt >= n {
            assert(part =~= extra) by {
                if nxt == n {
                } else {
                    assert(nxt == from);
                }
            }
        }
        if k <= start.len() {
            assert(part.len() == 0) by {
                assert(s@.len() == start.len() + part.len());
            }
            assert(s@ =~= start);
        } else if k - start.len() <= extra.len() {
            assert(part.len() == k - start.len());
            assert(extra.take(k - start.len()) =~= part);
        }
        assert(s@ =~= padded(start, from as int, n as int, k as int));
    }
}

/// Fills the list up towards length `k` with the least unused vertices from 2
/// on.
pub fn pad(s: &mut Vec<usize>, n: usize, k: usize)
    ensures
        final(s)@ == padded(old(s)@, 2, n as int, k as int),
{
    pad_from(s, 2, n, k);
}

/// The members of `t` stand in the pool at the positions `at`, which increase.
pub open spec fn stands_at(pool: Seq<usize>, t: Seq<usize>, at: Seq<int>) -> bool {
    &&& at.len() == t.len()
    &&& forall|i: int|
        0 <= i < at.len() ==> 0 <= #[trigger] at[i] < pool.len() && t[i] == pool[at[i]]
    &&& forall|i: int, j: int| 0 <= i < j < at.len() ==> at[i] < at[j]
}

/// The members of `t` stand in the pool at increasing positions.
pub open spec fn subsequence(pool: Seq<usize>, t: Seq<usize>) -> bool {
    exists|at: Seq<int>| stands_at(pool, t, at)
}

/// Increasing positions leave room for those that follow.
pub proof fn lemma_positions(pool: Seq<usize>, t: Seq<usize>, at: Seq<int>, i: int)
    requires
        stands_at(pool, t, at),
        0 <= i < at.len(),
    ensures
        at[i] + (t.len() - i) <= pool.len(),
    decreases at.len() - i,
{
    if i + 1 < at.len() {
        lemma_positions(pool, t, at, i + 1);
        assert(at[i] < at[i + 1]);
    }
}

/// A subsequence holds members of the pool, no more of them than the pool, and
/// increases where the pool does.
pub proof fn lemma_subsequence(pool: Seq<usize>, t: Seq<usize>)
    requires
        subsequence(pool, t),
    ensures
        t.len() <= pool.len(),
        forall|i: int| 0 <= i < t.len() ==> pool.contains(#[trigger] t[i]),
        increasing(pool) ==> increasing(t),
{
    let at = choose|at: Seq<int>| stands_at(pool, t, at);
    if t.len() > 0 {
        lemma_positions(pool, t, at, 0);
    }
    assert forall|i: int| 0 <= i < t.len() implies pool.contains(#[trigger] t[i]) by {
        assert(pool[at[i]] == t[i]);
    }
    if increasing(pool) {
        assert forall|i: int, j: int| 0 <= i < j < t.len() implies t[i] < t[j] by {
            assert(at[i] < at[j]);
            assert(t[i] == pool[at[i]] && t[j] == pool[at[j]]);
        }
    }
}

/// A subsequence of what follows position `i`, with the member at `i` before
/// it, is a subsequence of the whole.
pub proof fn lemma_subsequence_prepend(pool: Seq<usize>, i: int, t: Seq<usize>)
    requires
        0 <= i < pool.len(),
        subsequence(pool.skip(i + 1), t),
    ensures
        subsequence(pool, seq![pool[i]] + t),
{
    let after = pool.skip(i + 1);
    let at = choose|at: Seq<int>| stands_at(after, t, at);
    let whole = seq![pool[i]] + t;
    let there = Seq::new(
        whole.len(),
        |j: int|
            if j == 0 {
                i
            } else {
                at[j - 1] + i + 1
            },
    );
    assert forall|j: int| 0 <= j < there.len() implies 0 <= #[trigger] there[j] < pool.len()
        && whole[j] == pool[there[j]] by {
        if j > 0 {
            assert(0 <= at[j - 1] < after.len());
            assert(whole[j] == t[j - 1]);
        }
    }
    assert forall|a: int, b: int| 0 <= a < b < there.len() implies there[a] < there[b] by {
        assert(0 <= at[b - 1]);
        if a > 0 {
            assert(at[a - 1] < at[b - 1]);
        }
    }
    assert(stands_at(pool, whole, there));
}

/// Whether the members of `t` stand in the pool at increasing positions.
pub fn is_subsequence(pool: &[usize], t: &[usize]) -> (r: bool)
    ensures
        r == subsequence(pool@, t@),
{
    let len: usize = t.len();
    let pool_len: usize = pool.len();
    let mut i: usize = 0;
    let mut q: usize = 0;
    let ghost mut at: Seq<int> = Seq::empty();
    assert(t@.take(0) =~= Seq::<usize>::empty());
    while i < len && q < pool_len
        invariant
            len == t@.len(),
            pool_len == pool@.len(),
            i <= len,
            q <= pool_len,
            stands_at(pool@, t@.take(i as int), at),
            forall|j: int| 0 <= j < at.len() ==> #[trigger] at[j] < q,
            forall|b: Seq<int>| #[trigger] stands_at(pool@, t@, b) && i < len ==> b[i as int] >= q,
        decreases pool_len - q,
    {
        if pool[q] == t[i] {
            proof {
                let longer = at.push(q as int);
                assert forall|j: int| 0 <= j < longer.len() implies 0 <= #[trigger] longer[j]
                    < pool@.len() && t@.take(i + 1)[j] == pool@[longer[j]] by {
                    if j < at.len() {
                        assert(longer[j] == at[j]);
                        assert(t@.take(i as int)[j] == pool@[at[j]]);
                    }
                }
                at = longer;
                assert forall|b: Seq<int>| #[trigger] stands_at(pool@, t@, b) && i + 1
                    < len implies b[i + 1] >= q + 1 by {
                    assert(b[i as int] < b[i + 1]);
                }
            }
            i = i + 1;
        } else {
            proof {
                assert forall|b: Seq<int>| #[trigger] stands_at(pool@, t@, b) implies b[i as int]
                    >= q + 1 by {
                    assert(t@[i as int] == pool@[b[i as int]]);
                }
            }
        }
        q = q + 1;
    }
    proof {
        if i == len {
            assert(t@.take(len as int) =~= t@);
            assert(stands_at(pool@, t@, at));
        } else if subsequence(pool@, t@) {
            let b = choose|b: Seq<int>| stands_at(pool@, t@, b);
            assert(b[i as int] >= q);
        }
    }
    i == len
}

/// What is filled in is the least that is unused, in increasing order: every
/// number of the range that stands neither in the list nor among what was
/// filled in is larger than all of the latter.
pub proof fn lemma_padded_least(s: Seq<usize>, from: int, n: int, k: int)
    requires
        0 <= from,
        n <= usize::MAX,
    ensures
        s.is_prefix_of(padded(s, from, n, k)),
        forall|i: int, j: int|
            s.len() <= i < j < padded(s, from, n, k).len() ==> padded(s, from, n, k)[i] < padded(
                s,
                from,
                n,
                k,
            )[j],
        forall|i: int, v: usize|
            #![trigger padded(s, from, n, k)[i], padded(s, from, n, k).contains(v)]
            s.len() <= i < padded(s, from, n, k).len() && from <= v < n && !padded(
                s,
                from,
                n,
                k,
            ).contains(v) ==> padded(s, from, n, k)[i] < v,
{
    let extra = ascending(unused(s), from, n);
    let t = padded(s, from, n, k);
    lemma_ascending(unused(s), from, n);
    let m = t.len() - s.len();
    assert(0 <= m <= extra.len());
    assert(t =~= s + extra.take(m));
    assert(s =~= t.subrange(0, s.len() as int));
    assert forall|i: int, j: int| s.len() <= i < j < t.len() implies t[i] < t[j] by {
        assert(t[i] == extra[i - s.len()] && t[j] == extra[j - s.len()]);
    }
    assert forall|i: int, v: usize|
        #![trigger t[i], t.contains(v)]
        s.len() <= i < t.len() && from <= v < n && !t.contains(v) implies t[i] < v by {
        assert(t[i] == extra[i - s.len()]);
        assert(!s.contains(v)) by {
            if s.contains(v) {
                let q = choose|q: int| 0 <= q < s.len() && s[q] == v;
                assert(t[q] == v);
            }
        }
        assert(extra.contains(v));
        let q = choose|q: int| 0 <= q < extra.len() && extra[q] == v;
        assert(q >= m) by {
            if q < m {
                assert(t[s.len() + q] == v);
            }
        }
        assert(extra[i - s.len()] < extra[q]);
    }
}

} // verus!
