//! Counterexamples by chance: random lists, greedy extensions of close pairs,
//! and local search.
use crate::bitset::{lemma_members_finite, BitSet};
use crate::enumerate::{lemma_score_fits, score};
use crate::lists::{
    contains, lemma_padded, lemma_padded_least, lemma_padded_length, pad, pad_from, padded, prepend,
};
use crate::paley::{has_dominator, lemma_fits, Paley};
use crate::readings::{draw_run, drawn, lemma_draw_push, lemma_draw_range, next_number};
use crate::tournament::{
    common_dominators, counterexample, dominated, dominators, lemma_covering_length,
    lemma_dominated_part, lemma_narrowed_dominators, lemma_narrowed_push, lemma_tournament,
    narrowed, vertices,
};
use rand_xoshiro::Xoshiro256PlusPlus;
use vstd::prelude::*;
use vstd::set_lib::*;

verus! {

/// Distinct vertices other than 0.
pub open spec fn nonzero_vertices(n: int, s: Seq<usize>) -> bool {
    vertices(n, s) && forall|i: int| 0 <= i < s.len() ==> 1 <= #[trigger] s[i]
}

/// The vertex 0 and distinct vertices other than 0.
pub proof fn lemma_with_zero(n: int, s: Seq<usize>)
    requires
        n >= 1,
        nonzero_vertices(n, s),
    ensures
        vertices(n, seq![0usize] + s),
{
    let t = seq![0usize] + s;
    assert forall|i: int| 0 <= i < t.len() implies #[trigger] t[i] < n by {
        if i > 0 {
            assert(t[i] == s[i - 1]);
        }
    }
    assert forall|i: int, j: int| 0 <= i < t.len() && 0 <= j < t.len() && i != j implies t[i]
        != t[j] by {
        if i > 0 {
            assert(t[i] == s[i - 1]);
        }
        if j > 0 {
            assert(t[j] == s[j - 1]);
        }
    }
}

/// `count` numbers of the range from `lo` up to `hi`, at random.
fn draw_many(rng: &mut Xoshiro256PlusPlus, lo: usize, hi: usize, count: usize) -> (draws: Vec<
    usize,
>)
    requires
        lo < hi,
    ensures
        draws@.len() == count,
        forall|i: int| 0 <= i < count ==> lo <= #[trigger] draws@[i] < hi,
        draw_run(*old(rng), lo, hi, draws@, *final(rng)),
{
    let mut draws: Vec<usize> = Vec::new();
    while draws.len() < count
        invariant
            lo < hi,
            draws@.len() <= count,
            forall|i: int| 0 <= i < draws@.len() ==> lo <= #[trigger] draws@[i] < hi,
            draw_run(*old(rng), lo, hi, draws@, *rng),
        decreases count - draws@.len(),
    {
        let ghost mid = *rng;
        let ghost so_far = draws@;
        let c: usize = next_number(rng, lo, hi);
        draws.push(c);
        proof {
            lemma_draw_push(*old(rng), lo, hi, so_far, mid, c, *rng);
        }
    }
    draws
}

/// Takes a draw into the list unless it stands there already.
pub fn push_new(s: &mut Vec<usize>, c: usize)
    ensures
        final(s)@ == if old(s)@.contains(c) {
            old(s)@
        } else {
            old(s)@.push(c)
        },
{
    if !contains(s.as_slice(), c) {
        s.push(c);
    }
}

/// The numbers without repetitions, in the order of their first places.
pub open spec fn distinct(numbers: Seq<usize>) -> Seq<usize>
    decreases numbers.len(),
{
    if numbers.len() == 0 {
        numbers
    } else if numbers.drop_last().contains(numbers.last()) {
        distinct(numbers.drop_last())
    } else {
        distinct(numbers.drop_last()).push(numbers.last())
    }
}

/// The list without repetitions has the same members, each once.
pub proof fn lemma_distinct(numbers: Seq<usize>)
    ensures
        distinct(numbers).no_duplicates(),
        forall|x: usize| distinct(numbers).contains(x) <==> numbers.contains(x),
    decreases numbers.len(),
{
    if numbers.len() > 0 {
        let rest = numbers.drop_last();
        let d = distinct(rest);
        lemma_distinct(rest);
        assert forall|x: usize| numbers.contains(x) <==> rest.contains(x) || x
            == numbers.last() by {
            if numbers.contains(x) {
                let i = choose|i: int| 0 <= i < numbers.len() && numbers[i] == x;
                if i < rest.len() {
                    assert(rest[i] == x);
                }
            }
            if rest.contains(x) {
                let i = choose|i: int| 0 <= i < rest.len() && rest[i] == x;
                assert(numbers[i] == x);
            }
            assert(numbers[numbers.len() - 1] == numbers.last());
        }
        if !rest.contains(numbers.last()) {
            let e = d.push(numbers.last());
            assert forall|x: usize| e.contains(x) <==> d.contains(x) || x == numbers.last() by {
                if e.contains(x) {
                    let i = choose|i: int| 0 <= i < e.len() && e[i] == x;
                    if i < d.len() {
                        assert(d[i] == x);
                    }
                }
                if d.contains(x) {
                    let i = choose|i: int| 0 <= i < d.len() && d[i] == x;
                    assert(e[i] == x);
                }
                assert(e[d.len() as int] == numbers.last());
            }
            assert forall|i: int, j: int|
                0 <= i < e.len() && 0 <= j < e.len() && i != j implies e[i] != e[j] by {
                if i == d.len() {
                    assert(d.contains(d[j]));
                }
                if j == d.len() {
                    assert(d.contains(d[i]));
                }
            }
        }
    }
}

/// Successive draws of vertices other than 0 make up the list `s` of `want`
/// distinct ones: they go on until that many differ.  Should they have gone on
/// for longer than a machine can count, the least unused vertices end it.
pub open spec fn sample_run(
    n: int,
    want: int,
    before: Xoshiro256PlusPlus,
    s: Seq<usize>,
    after: Xoshiro256PlusPlus,
) -> bool {
    exists|numbers: Seq<usize>| #[trigger]
        draw_run(before, 1, n as usize, numbers, after) && makes_sample(n, want, numbers, s)
}

/// The draws make up the list: no more than needed, and as many, unless too
/// many to count.
pub open spec fn makes_sample(n: int, want: int, numbers: Seq<usize>, s: Seq<usize>) -> bool {
    &&& numbers.len() > 0 ==> distinct(numbers.drop_last()).len() < want
    &&& if distinct(numbers).len() == want {
        s == distinct(numbers)
    } else {
        numbers.len() == u64::MAX && s == padded(distinct(numbers), 1, n, want)
    }
}

/// Successive samples of `want` distinct vertices other than 0.
pub open spec fn samples_run(
    n: int,
    want: int,
    before: Xoshiro256PlusPlus,
    lists: Seq<Seq<usize>>,
    after: Xoshiro256PlusPlus,
) -> bool
    decreases lists.len(),
{
    if lists.len() == 0 {
        before == after
    } else {
        exists|mid: Xoshiro256PlusPlus| #[trigger]
            sample_run(n, want, mid, lists.last(), after) && samples_run(
                n,
                want,
                before,
                lists.drop_last(),
                mid,
            )
    }
}

/// All lists have, together with vertex 0, a common dominator.
pub open spec fn all_dominated(n: int, lists: Seq<Seq<usize>>) -> bool {
    forall|i: int| 0 <= i < lists.len() ==> dominated(n, seq![0usize] + #[trigger] lists[i])
}

/// The contents of a list that may be there.
pub open spec fn listed(r: Option<Vec<usize>>) -> Option<Seq<usize>> {
    match r {
        Some(s) => Some(s@),
        None => None,
    }
}

/// What trying `budget` random lists comes to: where it comes to nothing, that
/// many samples were drawn, and all have common dominators; otherwise the last
/// of at most that many has none, and is the first of them.
pub open spec fn random_outcome(
    n: int,
    k: int,
    budget: int,
    before: Xoshiro256PlusPlus,
    r: Option<Seq<usize>>,
    after: Xoshiro256PlusPlus,
) -> bool {
    exists|lists: Seq<Seq<usize>>| #[trigger]
        samples_run(n, k - 1, before, lists, after) && match r {
            None => lists.len() == budget && all_dominated(n, lists),
            Some(s) => 0 < lists.len() <= budget && s == seq![0usize] + lists.last() && !dominated(
                n,
                s,
            ) && all_dominated(n, lists.drop_last()),
        }
}

/// `want` distinct vertices other than 0, at random: draws are repeated until
/// enough of them differ.  After more repetitions than a machine can make the
/// least unused vertices end the list.
fn draw_distinct(rng: &mut Xoshiro256PlusPlus, n: usize, want: usize) -> (s: Vec<usize>)
    requires
        want < n,
        n >= 2,
    ensures
        s@.len() == want,
        nonzero_vertices(n as int, s@),
        sample_run(n as int, want as int, *old(rng), s@, *final(rng)),
{
    let mut s: Vec<usize> = Vec::new();
    let mut left: u64 = u64::MAX;
    let ghost mut numbers: Seq<usize> = Seq::empty();
    assert(s@ =~= distinct(numbers));
    while s.len() < want && left > 0
        invariant
            n >= 2,
            s@.len() <= want,
            nonzero_vertices(n as int, s@),
            draw_run(*old(rng), 1, n, numbers, *rng),
            s@ == distinct(numbers),
            numbers.len() + left == u64::MAX,
            numbers.len() > 0 ==> distinct(numbers.drop_last()).len() < want,
        decreases left,
    {
        let ghost mid = *rng;
        let c: usize = next_number(rng, 1, n);
        let ghost before = s@;
        push_new(&mut s, c);
        proof {
            lemma_draw_push(*old(rng), 1, n, numbers, mid, c, *rng);
            lemma_distinct(numbers);
            assert(numbers.push(c).drop_last() =~= numbers);
            numbers = numbers.push(c);
            if !before.contains(c) {
                assert forall|i: int, j: int|
                    0 <= i < s@.len() && 0 <= j < s@.len() && i != j implies s@[i] != s@[j] by {
                    if i == before.len() {
                        assert(before.contains(before[j]));
                    }
                    if j == before.len() {
                        assert(before.contains(before[i]));
                    }
                }
            }
        }
        left = left - 1;
    }
    let ghost before = s@;
    pad_from(&mut s, 1, n, want);
    proof {
        assert(makes_sample(n as int, want as int, numbers, s@));
        assert((n as int) as usize == n);
        assert(draw_run(*old(rng), 1, (n as int) as usize, numbers, *rng));
        lemma_padded(before, 1, n as int, want as int);
        if s@.len() < want {
            lemma_covering_length(n as int, 1, s@);
        }
        assert forall|i: int| 0 <= i < s@.len() implies 1 <= #[trigger] s@[i] by {
            if i < before.len() {
                assert(s@[i] == before[i]);
            }
        }
    }
    s
}

/// The list of vertex 0 and the vertices of `s`, if it has no common
/// dominator.
pub fn sample_witness(p: &Paley, s: &[usize]) -> (r: Option<Vec<usize>>)
    requires
        p.wf(),
        forall|i: int| 0 <= i < s@.len() ==> #[trigger] s@[i] < p.n,
    ensures
        match r {
            Some(t) => t@ == seq![0usize] + s@ && !dominated(p.n as int, t@),
            None => dominated(p.n as int, seq![0usize] + s@),
        },
{
    proof {
        lemma_narrowed_dominators(p.n as int, 0, s@);
    }
    let mut scratch = BitSet::zeros(p.nwords);
    if !has_dominator(p, &p.nb[0], s, &mut scratch) {
        Some(prepend(0, s))
    } else {
        None
    }
}

/// No `k` distinct vertices with 0 among them, in first place, have a common
/// dominator.
pub open spec fn none_dominated(n: int, k: int) -> bool {
    forall|s: Seq<usize>| #[trigger]
        vertices(n, s) && s.len() == k && s.len() > 0 && s[0] == 0 ==> !dominated(n, s)
}

/// A list of `k` distinct vertices, the first of them 0, without a common
/// dominator.
pub open spec fn zero_witness(n: int, k: int, s: Seq<usize>) -> bool {
    counterexample(n, k, s) && s.len() == k && s[0] == 0
}

/// Tries `budget` random lists of vertex 0 and `k - 1` others.  Which lists
/// these are is chance: the contract says that they are drawn, how many, and
/// what comes of them.
pub fn random_witness(p: &Paley, rng: &mut Xoshiro256PlusPlus, k: usize, budget: u64) -> (r: Option<
    Vec<usize>,
>)
    requires
        p.wf(),
    ensures
        r matches Some(s) ==> 2 <= k <= p.n && budget > 0 && zero_witness(
            p.n as int,
            k as int,
            s@,
        ),
        2 <= k <= p.n && budget > 0 && none_dominated(p.n as int, k as int) ==> r is Some,
        k < 2 || k > p.n || budget == 0 ==> *final(rng) == *old(rng),
        2 <= k <= p.n ==> random_outcome(
            p.n as int,
            k as int,
            budget as int,
            *old(rng),
            listed(r),
            *final(rng),
        ),
{
    if k < 2 {
        return None;
    }
    if p.n - 1 < k - 1 {
        return None;
    }
    let ghost n = p.n as int;
    let want: usize = k - 1;
    let mut tries: u64 = 0;
    let ghost mut lists: Seq<Seq<usize>> = Seq::empty();
    while tries < budget
        invariant
            p.wf(),
            n == p.n,
            2 <= k <= n,
            want == k - 1,
            tries <= budget,
            tries > 0 ==> !none_dominated(n, k as int),
            budget == 0 ==> *rng == *old(rng),
            samples_run(n, want as int, *old(rng), lists, *rng),
            lists.len() == tries,
            all_dominated(n, lists),
        decreases budget - tries,
    {
        let ghost mid = *rng;
        let s = draw_distinct(rng, p.n, want);
        let ghost tried = lists.push(s@);
        proof {
            lemma_with_zero(n, s@);
            assert(tried.drop_last() =~= lists);
            assert(tried.last() == s@);
            assert(samples_run(n, want as int, *old(rng), tried, *rng));
            lists = tried;
        }
        match sample_witness(p, s.as_slice()) {
            Some(t) => {
                return Some(t);
            },
            None => {},
        }
        tries = tries + 1;
    }
    None
}

/// Draw `i` is no vertex of the list, and leaves the fewest vertices in the
/// mask of all such draws; it is the first that does.
pub open spec fn best_draw(
    n: int,
    mask: Set<int>,
    s: Seq<usize>,
    draws: Seq<usize>,
    i: int,
) -> bool {
    &&& 0 <= i < draws.len()
    &&& !s.contains(draws[i])
    &&& forall|j: int|
        0 <= j < draws.len() && !s.contains(#[trigger] draws[j]) ==> score(n, mask, draws[i])
            < score(n, mask, draws[j]) || (score(n, mask, draws[i]) == score(n, mask, draws[j])
            && i <= j)
}

/// The best draw, or `otherwise` where all draws stand in the list.
pub open spec fn picked(
    n: int,
    mask: Set<int>,
    s: Seq<usize>,
    draws: Seq<usize>,
    otherwise: usize,
) -> usize {
    if exists|i: int| best_draw(n, mask, s, draws, i) {
        draws[choose|i: int| best_draw(n, mask, s, draws, i)]
    } else {
        otherwise
    }
}

/// The best draw is the only best.
proof fn lemma_picked(
    n: int,
    mask: Set<int>,
    s: Seq<usize>,
    draws: Seq<usize>,
    otherwise: usize,
    i: int,
)
    requires
        best_draw(n, mask, s, draws, i),
    ensures
        picked(n, mask, s, draws, otherwise) == draws[i],
{
    let c = choose|c: int| best_draw(n, mask, s, draws, c);
    assert(best_draw(n, mask, s, draws, c));
    assert(!s.contains(draws[i]) && !s.contains(draws[c]));
}

/// The number of dominators of a vertex stays below the number of vertices.
proof fn lemma_score_small(p: &Paley, mask: Set<int>, v: usize)
    requires
        p.wf(),
        v < p.n,
        mask.finite(),
    ensures
        score(p.n as int, mask, v) < u32::MAX,
{
    let n = p.n as int;
    lemma_fits(n);
    lemma_int_range(0, n);
    let m = mask.intersect(dominators(n, v as int));
    let all = set_int_range(0, n).remove(v as int);
    lemma_tournament(n, v as int, v as int);
    assert(m.subset_of(all));
    lemma_len_subset(m, all);
}

/// Picks the draw, outside the list, that leaves the fewest vertices in the
/// mask.
pub fn pick(p: &Paley, mask: &BitSet, s: &[usize], draws: &[usize], otherwise: usize) -> (v: usize)
    requires
        p.wf(),
        mask.words@.len() == p.nwords,
        forall|i: int| 0 <= i < draws@.len() ==> #[trigger] draws@[i] < p.n,
    ensures
        v == picked(p.n as int, mask@, s@, draws@, otherwise),
{
    let ghost n = p.n as int;
    let mut trial = BitSet::zeros(p.nwords);
    let mut best_v: usize = otherwise;
    let mut best_pop: u32 = u32::MAX;
    let ghost mut at: int = -1;
    let len: usize = draws.len();
    let mut i: usize = 0;
    proof {
        lemma_members_finite(mask.words@);
    }
    while i < len
        invariant
            p.wf(),
            n == p.n,
            mask.words@.len() == p.nwords,
            mask@.finite(),
            trial.words@.len() == p.nwords,
            len == draws@.len(),
            i <= len,
            forall|j: int| 0 <= j < draws@.len() ==> #[trigger] draws@[j] < p.n,
            at == -1 ==> best_v == otherwise && best_pop == u32::MAX && forall|j: int|
                0 <= j < i ==> s@.contains(#[trigger] draws@[j]),
            at != -1 ==> 0 <= at < i && best_v == draws@[at] && best_pop == score(n, mask@, best_v)
                && best_draw(n, mask@, s@, draws@.take(i as int), at),
        decreases len - i,
    {
        let c: usize = draws[i];
        let ghost before = draws@.take(i as int);
        let ghost after = draws@.take(i + 1);
        let ghost prior = at;
        proof {
            assert forall|j: int| 0 <= j < i implies before[j] == draws@[j] && after[j]
                == draws@[j] by {}
            assert(after[i as int] == c);
        }
        if !contains(s, c) {
            BitSet::and_into(&mut trial, mask, &p.nb[c]);
            proof {
                lemma_score_fits(p, mask@, c);
                lemma_score_small(p, mask@, c);
            }
            let pop: u32 = trial.popcount();
            if pop < best_pop {
                best_pop = pop;
                best_v = c;
                proof {
                    at = i as int;
                }
            }
        }
        proof {
            if at != -1 {
                assert(best_draw(n, mask@, s@, after, at)) by {
                    assert forall|j: int|
                        0 <= j < after.len() && !s@.contains(#[trigger] after[j]) implies score(
                        n,
                        mask@,
                        after[at],
                    ) < score(n, mask@, after[j]) || (score(n, mask@, after[at]) == score(
                        n,
                        mask@,
                        after[j],
                    ) && at <= j) by {
                        if j < i {
                            assert(before[j] == after[j]);
                            if prior == -1 {
                                assert(s@.contains(draws@[j]));
                            } else {
                                assert(!s@.contains(before[prior]));
                            }
                        }
                    }
                }
            }
        }
        i = i + 1;
    }
    proof {
        assert(draws@.take(len as int) =~= draws@);
        if at != -1 {
            lemma_picked(n, mask@, s@, draws@, otherwise, at);
        } else {
            assert forall|j: int| !best_draw(n, mask@, s@, draws@, j) by {
                if 0 <= j < draws@.len() {
                    assert(s@.contains(draws@[j]));
                }
            }
        }
    }
    best_v
}

/// Members of the mask that dominate the vertices of `s` other than the one in
/// place `i`.
pub open spec fn mask_without(n: int, s: Seq<usize>, i: int) -> Set<int> {
    narrowed(n, dominators(n, 0), s.remove(i))
}

/// The list with the vertex in place `i` replaced by the best of the draws.
pub open spec fn swapped(n: int, s: Seq<usize>, i: int, draws: Seq<usize>) -> Seq<usize> {
    s.update(i, picked(n, mask_without(n, s, i), s, draws, s[i]))
}

/// One step of the local search: the vertex in place `i` is replaced by the
/// best of the draws.  Tells whether that left vertex 0 and the list without a
/// common dominator.
pub fn swap_step(p: &Paley, s: &mut Vec<usize>, i: usize, draws: &[usize]) -> (collapsed: bool)
    requires
        p.wf(),
        nonzero_vertices(p.n as int, old(s)@),
        i < old(s)@.len(),
        forall|j: int| 0 <= j < draws@.len() ==> 1 <= #[trigger] draws@[j] < p.n,
    ensures
        final(s)@ == swapped(p.n as int, old(s)@, i as int, draws@),
        nonzero_vertices(p.n as int, final(s)@),
        collapsed == (final(s)@ != old(s)@ && !dominated(p.n as int, seq![0usize] + final(s)@)),
{
    let ghost n = p.n as int;
    let ghost before = s@;
    let len: usize = s.len();
    let mut without = BitSet::zeros(p.nwords);
    without.copy_from(&p.nb[0]);
    let mut j: usize = 0;
    let ghost mut rest: Seq<usize> = Seq::empty();
    proof {
        assert(without@ =~= narrowed(n, dominators(n, 0), rest));
    }
    while j < len
        invariant
            p.wf(),
            n == p.n,
            s@ == before,
            nonzero_vertices(n, before),
            len == before.len(),
            i < len,
            j <= len,
            without.words@.len() == p.nwords,
            rest == if j <= i {
                before.take(j as int)
            } else {
                before.take(j as int).remove(i as int)
            },
            without@ == narrowed(n, dominators(n, 0), rest),
        decreases len - j,
    {
        let v: usize = s[j];
        if j != i {
            without.and_assign(&p.nb[v]);
            proof {
                lemma_narrowed_push(n, dominators(n, 0), rest, v);
                rest = rest.push(v);
            }
        }
        proof {
            let next = before.take(j + 1);
            if j < i {
                assert(rest =~= next);
            } else if j == i {
                assert(rest =~= next.remove(i as int));
            } else {
                assert(rest =~= next.remove(i as int));
            }
        }
        j = j + 1;
    }
    proof {
        assert(before.take(len as int) =~= before);
        assert(without@ == mask_without(n, before, i as int));
    }
    let current: usize = s[i];
    let best_v: usize = pick(p, &without, s.as_slice(), draws, current);
    proof {
        if exists|c: int| best_draw(n, without@, before, draws@, c) {
            let c = choose|c: int| best_draw(n, without@, before, draws@, c);
            assert(best_draw(n, without@, before, draws@, c));
            assert(best_v == draws@[c]);
            assert(!before.contains(best_v));
        }
        assert(before.contains(current)) by {
            assert(before[i as int] == current);
        }
    }
    if best_v != current {
        s.set(i, best_v);
        proof {
            assert(s@ != before) by {
                assert(s@[i as int] != before[i as int]);
            }
            assert forall|a: int, b: int|
                0 <= a < s@.len() && 0 <= b < s@.len() && a != b implies s@[a] != s@[b] by {
                assert(before.contains(before[a]) && before.contains(before[b]));
            }
            assert forall|a: int| 0 <= a < s@.len() implies 1 <= #[trigger] s@[a] < n by {}
            lemma_narrowed_dominators(n, 0, s@);
        }
        let mut m = BitSet::zeros(p.nwords);
        !has_dominator(p, &p.nb[0], s.as_slice(), &mut m)
    } else {
        assert(before.update(i as int, best_v) =~= before);
        false
    }
}

/// The list `t` comes of `s` by a swap in place `i`.
pub open spec fn swap_at(
    n: int,
    s: Seq<usize>,
    t: Seq<usize>,
    i: int,
    draws: Seq<usize>,
) -> bool {
    &&& 0 <= i < s.len()
    &&& draws.len() == 16
    &&& forall|j: int| 0 <= j < draws.len() ==> 1 <= #[trigger] draws[j] < n
    &&& t == swapped(n, s, i, draws)
}

/// The list `t` comes of `s` by a swap.
pub open spec fn one_swap(n: int, s: Seq<usize>, t: Seq<usize>) -> bool {
    exists|i: int, draws: Seq<usize>| swap_at(n, s, t, i, draws)
}

/// List `j` of the path comes of the list before it by a swap, and that list
/// has, together with vertex 0, a common dominator.
pub open spec fn path_step(n: int, path: Seq<Seq<usize>>, j: int) -> bool {
    &&& dominated(n, seq![0usize] + path[j - 1])
    &&& one_swap(n, path[j - 1], path[j])
}

/// A path of the local search from a list of `size` vertices other than 0.
pub open spec fn local_path(n: int, size: int, path: Seq<Seq<usize>>) -> bool {
    &&& path.len() > 0
    &&& nonzero_vertices(n, path[0])
    &&& path[0].len() == size
    &&& forall|j: int| 1 <= j < path.len() ==> #[trigger] path_step(n, path, j)
}

/// The list of `k` vertices is vertex 0 and the end of a path of at most
/// `max_swaps` swaps.
pub open spec fn local_result(n: int, k: int, max_swaps: int, s: Seq<usize>) -> bool {
    exists|path: Seq<Seq<usize>>| #[trigger]
        local_path(n, k - 1, path) && path.len() <= max_swaps + 1 && s == seq![0usize]
            + path.last()
}

/// A path goes on by a swap.
proof fn lemma_path_push(
    n: int,
    size: int,
    path: Seq<Seq<usize>>,
    t: Seq<usize>,
    i: int,
    draws: Seq<usize>,
)
    requires
        local_path(n, size, path),
        dominated(n, seq![0usize] + path.last()),
        swap_at(n, path.last(), t, i, draws),
    ensures
        local_path(n, size, path.push(t)),
{
    let longer = path.push(t);
    assert forall|j: int| 1 <= j < longer.len() implies #[trigger] path_step(n, longer, j) by {
        if j < path.len() {
            assert(path_step(n, path, j));
            assert(longer[j] == path[j] && longer[j - 1] == path[j - 1]);
        } else {
            assert(longer[j - 1] == path.last());
            assert(swap_at(n, longer[j - 1], longer[j], i, draws));
        }
    }
}

/// A swap by draws: first of the place, then of the vertices to choose from.
pub open spec fn swap_run(
    n: int,
    before: Xoshiro256PlusPlus,
    s: Seq<usize>,
    t: Seq<usize>,
    after: Xoshiro256PlusPlus,
) -> bool {
    exists|i: usize, mid: Xoshiro256PlusPlus, draws: Seq<usize>| #[trigger]
        drawn(before, 0, s.len() as usize, i, mid) && #[trigger] draw_run(
            mid,
            1,
            n as usize,
            draws,
            after,
        ) && swap_at(n, s, t, i as int, draws)
}

/// A path by draws: a sample of `size` vertices, and swaps.
pub open spec fn path_run(
    n: int,
    size: int,
    before: Xoshiro256PlusPlus,
    path: Seq<Seq<usize>>,
    after: Xoshiro256PlusPlus,
) -> bool
    decreases path.len(),
{
    if path.len() == 0 {
        false
    } else if path.len() == 1 {
        sample_run(n, size, before, path[0], after)
    } else {
        exists|mid: Xoshiro256PlusPlus| #[trigger]
            swap_run(n, mid, path[path.len() - 2], path.last(), after) && path_run(
                n,
                size,
                before,
                path.drop_last(),
                mid,
            )
    }
}

/// Successive paths by draws.
pub open spec fn paths_run(
    n: int,
    size: int,
    before: Xoshiro256PlusPlus,
    paths: Seq<Seq<Seq<usize>>>,
    after: Xoshiro256PlusPlus,
) -> bool
    decreases paths.len(),
{
    if paths.len() == 0 {
        before == after
    } else {
        exists|mid: Xoshiro256PlusPlus| #[trigger]
            path_run(n, size, mid, paths.last(), after) && paths_run(
                n,
                size,
                before,
                paths.drop_last(),
                mid,
            )
    }
}

/// All paths have gone through all their swaps without losing the last common
/// dominator.
pub open spec fn all_spent(n: int, max_swaps: int, paths: Seq<Seq<Seq<usize>>>) -> bool {
    forall|i: int|
        0 <= i < paths.len() ==> (#[trigger] paths[i]).len() == max_swaps + 1 && all_dominated(
            n,
            paths[i],
        )
}

/// What a local search comes to: where it comes to nothing, as many paths as
/// restarts have gone through all their swaps; otherwise the last of at most
/// that many paths ends in the list, the first without a common dominator.
pub open spec fn local_outcome(
    n: int,
    k: int,
    restarts: int,
    max_swaps: int,
    before: Xoshiro256PlusPlus,
    r: Option<Seq<usize>>,
    after: Xoshiro256PlusPlus,
) -> bool {
    exists|paths: Seq<Seq<Seq<usize>>>| #[trigger]
        paths_run(n, k - 1, before, paths, after) && match r {
            None => paths.len() == restarts && all_spent(n, max_swaps, paths),
            Some(s) => {
                &&& 0 < paths.len() <= restarts
                &&& all_spent(n, max_swaps, paths.drop_last())
                &&& 0 < paths.last().len() <= max_swaps + 1
                &&& all_dominated(n, paths.last().drop_last())
                &&& s == seq![0usize] + paths.last().last()
                &&& !dominated(n, s)
            },
        }
}

/// A path by draws goes on by a swap by draws.
proof fn lemma_path_run_push(
    n: int,
    size: int,
    before: Xoshiro256PlusPlus,
    path: Seq<Seq<usize>>,
    mid: Xoshiro256PlusPlus,
    t: Seq<usize>,
    after: Xoshiro256PlusPlus,
)
    requires
        path_run(n, size, before, path, mid),
        swap_run(n, mid, path.last(), t, after),
    ensures
        path_run(n, size, before, path.push(t), after),
{
    let longer = path.push(t);
    assert(path.len() > 0);
    assert(longer.drop_last() =~= path);
    assert(longer[longer.len() - 2] == path.last());
    assert(longer.last() == t);
}

/// Local search: from random lists of vertex 0 and `k - 1` others, vertices
/// are swapped for ones that leave fewer common dominators.  Which
/// vertices are drawn is chance: the contract says that they are drawn, how
/// often, and what comes of them.  What a swap does with given draws is said
/// of `swap_step`.
pub fn local_witness(
    p: &Paley,
    rng: &mut Xoshiro256PlusPlus,
    k: usize,
    restarts: u32,
    max_swaps: u32,
) -> (r: Option<Vec<usize>>)
    requires
        p.wf(),
    ensures
        r matches Some(s) ==> 2 <= k <= p.n && restarts > 0 && zero_witness(
            p.n as int,
            k as int,
            s@,
        ) && local_result(p.n as int, k as int, max_swaps as int, s@),
        2 <= k <= p.n && restarts > 0 && none_dominated(p.n as int, k as int) ==> r is Some,
        k < 2 || k > p.n || restarts == 0 ==> *final(rng) == *old(rng),
        2 <= k <= p.n ==> local_outcome(
            p.n as int,
            k as int,
            restarts as int,
            max_swaps as int,
            *old(rng),
            listed(r),
            *final(rng),
        ),
{
    if k < 2 {
        return None;
    }
    if p.n - 1 < k - 1 {
        return None;
    }
    let ghost n = p.n as int;
    let want: usize = k - 1;
    let mut round: u32 = 0;
    let ghost mut paths: Seq<Seq<Seq<usize>>> = Seq::empty();
    while round < restarts
        invariant
            p.wf(),
            n == p.n,
            2 <= k <= n,
            want == k - 1,
            round <= restarts,
            round > 0 ==> !none_dominated(n, k as int),
            restarts == 0 ==> *rng == *old(rng),
            paths_run(n, want as int, *old(rng), paths, *rng),
            paths.len() == round,
            all_spent(n, max_swaps as int, paths),
        decreases restarts - round,
    {
        let ghost start = *rng;
        let mut s = draw_distinct(rng, p.n, want);
        let ghost mut path: Seq<Seq<usize>> = seq![s@];
        proof {
            lemma_with_zero(n, s@);
            assert(local_path(n, want as int, path));
            assert(path.last() == s@);
            assert(path_run(n, want as int, start, path, *rng));
        }
        match sample_witness(p, s.as_slice()) {
            Some(t) => {
                proof {
                    let tried = paths.push(path);
                    assert(tried.drop_last() =~= paths);
                    assert(tried.last() == path);
                    assert(path.drop_last() =~= Seq::<Seq<usize>>::empty());
                    assert(paths_run(n, want as int, *old(rng), tried, *rng));
                }
                return Some(t);
            },
            None => {},
        }
        let mut swaps: u32 = 0;
        while swaps < max_swaps
            invariant
                p.wf(),
                n == p.n,
                2 <= k <= n,
                want == k - 1,
                round < restarts,
                s@.len() == want,
                nonzero_vertices(n, s@),
                !none_dominated(n, k as int),
                swaps <= max_swaps,
                local_path(n, want as int, path),
                path.len() == swaps + 1,
                path.last() == s@,
                dominated(n, seq![0usize] + s@),
                path_run(n, want as int, start, path, *rng),
                all_dominated(n, path),
                paths_run(n, want as int, *old(rng), paths, start),
                paths.len() == round,
                all_spent(n, max_swaps as int, paths),
            decreases max_swaps - swaps,
        {
            let ghost g0 = *rng;
            let i: usize = next_number(rng, 0, want);
            let ghost g1 = *rng;
            let draws = draw_many(rng, 1, p.n, LOCAL_TRIALS);
            let ghost before = s@;
            let collapsed: bool = swap_step(p, &mut s, i, draws.as_slice());
            proof {
                assert(swap_at(n, before, s@, i as int, draws@));
                lemma_path_push(n, want as int, path, s@, i as int, draws@);
                assert(drawn(g0, 0, before.len() as usize, i, g1));
                assert(draw_run(g1, 1, p.n, draws@, *rng));
                assert(swap_run(n, g0, before, s@, *rng));
                lemma_path_run_push(n, want as int, start, path, g0, s@, *rng);
                assert(path.push(s@).drop_last() =~= path);
                path = path.push(s@);
            }
            if collapsed {
                proof {
                    lemma_with_zero(n, s@);
                    let tried = paths.push(path);
                    assert(tried.drop_last() =~= paths);
                    assert(tried.last() == path);
                    assert(paths_run(n, want as int, *old(rng), tried, *rng));
                }
                return Some(prepend(0, s.as_slice()));
            }
            swaps = swaps + 1;
        }
        proof {
            let tried = paths.push(path);
            assert(tried.drop_last() =~= paths);
            assert(tried.last() == path);
            paths = tried;
        }
        round = round + 1;
    }
    None
}

/// The number of draws in one step of the local search.
pub const LOCAL_TRIALS: usize = 16;

/// The largest difference in a close pair.
pub const PAIR_DELTA_MAX: usize = 12;

/// The number of draws for one vertex of a greedy extension.
pub const PAIR_GREEDY_TRIALS: usize = 32;

/// A close pair of vertices from 2 on.
pub open spec fn close_pair(n: int, a: int, b: int) -> bool {
    2 <= a < n - 1 && a < b <= a + 12 && b < n
}

/// The close pair stands for the list of 0, 1 and itself.
pub open spec fn pair_list(a: int, b: int) -> Seq<usize> {
    seq![0usize, 1usize, a as usize, b as usize]
}

/// All close pairs before the pair of `a` and `b` have, together with 0 and 1,
/// a common dominator.
pub open spec fn earlier_pairs_dominated(n: int, a: int, b: int) -> bool {
    forall|c: int, d: int| #[trigger]
        close_pair(n, c, d) && (c < a || (c == a && d < b)) ==> dominated(n, pair_list(c, d))
}

/// Vertex `v` is what a greedy step from the list `s` adds: of the draws the
/// one that leaves the fewest common dominators.
pub open spec fn greedy_step(n: int, s: Seq<usize>, draws: Seq<usize>, v: usize) -> bool {
    &&& draws.len() == 32
    &&& forall|j: int| 0 <= j < draws.len() ==> 2 <= #[trigger] draws[j] < n
    &&& v == picked(n, common_dominators(n, s), s, draws, 0)
}

/// Vertex `v` may be what a greedy step from the list `s` adds.
pub open spec fn greedy_choice(n: int, s: Seq<usize>, v: usize) -> bool {
    exists|draws: Seq<usize>| greedy_step(n, s, draws, v)
}

/// The list starts with 0, 1, `a` and `b` and goes on by greedy steps.
pub open spec fn greedy_list(n: int, a: int, b: int, s: Seq<usize>) -> bool {
    &&& s.len() >= 4
    &&& s.take(4) == pair_list(a, b)
    &&& forall|i: int| 4 <= i < s.len() ==> greedy_choice(n, s.take(i), #[trigger] s[i])
}

/// What the pair of `a` and `b` leads to: the shortest beginning of 0, 1, `a`
/// and `b` without a common dominator, padded, or else a greedy extension that
/// has just lost its last one, padded.
pub open spec fn pair_result(n: int, k: int, a: int, b: int, s: Seq<usize>) -> bool {
    if !dominated(n, seq![0usize, 1usize]) {
        s == seq![0usize, 1usize]
    } else if !dominated(n, seq![0usize, 1usize, a as usize]) {
        s == padded(seq![0usize, 1usize, a as usize], 2, n, k)
    } else if !dominated(n, pair_list(a, b)) {
        s == padded(pair_list(a, b), 2, n, k)
    } else {
        exists|t: Seq<usize>| #[trigger]
            greedy_list(n, a, b, t) && 4 < t.len() <= k && !dominated(n, t) && dominated(
                n,
                t.drop_last(),
            ) && s == padded(t, 2, n, k)
    }
}

/// A greedy extension of 0, 1, `a` and `b` by draws: for each further vertex a
/// round of draws, of which the best is taken.
pub open spec fn greedy_run(
    n: int,
    a: int,
    b: int,
    before: Xoshiro256PlusPlus,
    t: Seq<usize>,
    after: Xoshiro256PlusPlus,
) -> bool
    decreases t.len(),
{
    if t.len() <= 4 {
        t == pair_list(a, b) && before == after
    } else {
        exists|mid: Xoshiro256PlusPlus, draws: Seq<usize>| #[trigger]
            draw_run(mid, 2, n as usize, draws, after) && greedy_step(
                n,
                t.drop_last(),
                draws,
                t.last(),
            ) && t.last() != 0 && greedy_run(n, a, b, before, t.drop_last(), mid)
    }
}

/// A greedy extension that a round of draws ends, all of which stand in the
/// list.
pub open spec fn greedy_stuck(
    n: int,
    a: int,
    b: int,
    before: Xoshiro256PlusPlus,
    t: Seq<usize>,
    after: Xoshiro256PlusPlus,
) -> bool {
    exists|mid: Xoshiro256PlusPlus, draws: Seq<usize>| #[trigger]
        draw_run(mid, 2, n as usize, draws, after) && draws.len() == 32 && (forall|
            j: int,
        |
            0 <= j < draws.len() ==> t.contains(#[trigger] draws[j])) && greedy_run(
            n,
            a,
            b,
            before,
            t,
            mid,
        )
}

/// The pair of `a` and `b` leads to nothing: its greedy extension keeps a
/// common dominator up to `k` vertices, or up to a round of draws that all
/// stand in the list.
pub open spec fn pair_miss(
    n: int,
    k: int,
    a: int,
    b: int,
    before: Xoshiro256PlusPlus,
    after: Xoshiro256PlusPlus,
) -> bool {
    exists|t: Seq<usize>| #[trigger]
        dominated(n, t) && (t.len() == k && greedy_run(n, a, b, before, t, after) || t.len() < k
            && greedy_stuck(n, a, b, before, t, after))
}

/// The pair of `a` and `b` leads to `s`: the shortest beginning of 0, 1, `a`
/// and `b` without a common dominator, padded, before anything is drawn, or
/// else a greedy extension that has just lost its last one, padded.
pub open spec fn pair_hit(
    n: int,
    k: int,
    a: int,
    b: int,
    before: Xoshiro256PlusPlus,
    s: Seq<usize>,
    after: Xoshiro256PlusPlus,
) -> bool {
    if dominated(n, pair_list(a, b)) {
        exists|t: Seq<usize>| #[trigger]
            greedy_run(n, a, b, before, t, after) && 4 < t.len() <= k && !dominated(n, t)
                && dominated(n, t.drop_last()) && s == padded(t, 2, n, k)
    } else {
        pair_result(n, k, a, b, s) && before == after
    }
}

/// Pair `x` comes before pair `y`.
pub open spec fn pair_before(x: (int, int), y: (int, int)) -> bool {
    x.0 < y.0 || (x.0 == y.0 && x.1 < y.1)
}

/// A sweep over the pairs, none of which leads to anything.
pub open spec fn sweep_run(
    n: int,
    k: int,
    before: Xoshiro256PlusPlus,
    pairs: Seq<(int, int)>,
    after: Xoshiro256PlusPlus,
) -> bool
    decreases pairs.len(),
{
    if pairs.len() == 0 {
        before == after
    } else {
        exists|mid: Xoshiro256PlusPlus| #[trigger]
            pair_miss(n, k, pairs.last().0, pairs.last().1, mid, after) && sweep_run(
                n,
                k,
                before,
                pairs.drop_last(),
                mid,
            )
    }
}

/// The pairs are the close pairs before `limit`, in order.
pub open spec fn close_pairs_before(n: int, pairs: Seq<(int, int)>, limit: (int, int)) -> bool {
    &&& forall|i: int, j: int|
        0 <= i < j < pairs.len() ==> pair_before(#[trigger] pairs[i], #[trigger] pairs[j])
    &&& forall|x: (int, int)| #[trigger]
        pairs.contains(x) <==> close_pair(n, x.0, x.1) && pair_before(x, limit)
}

/// The close pairs before that of `a` and `b` have led to nothing, and that
/// one has led to `s`.
pub open spec fn sweep_hit(
    n: int,
    k: int,
    a: int,
    b: int,
    before: Xoshiro256PlusPlus,
    s: Seq<usize>,
    after: Xoshiro256PlusPlus,
) -> bool {
    &&& close_pair(n, a, b)
    &&& exists|pairs: Seq<(int, int)>, mid: Xoshiro256PlusPlus| #[trigger]
        sweep_run(n, k, before, pairs, mid) && close_pairs_before(n, pairs, (a, b)) && pair_hit(
            n,
            k,
            a,
            b,
            mid,
            s,
            after,
        )
}

/// All close pairs, in order, have led to nothing.
pub open spec fn sweep_missed(
    n: int,
    k: int,
    before: Xoshiro256PlusPlus,
    after: Xoshiro256PlusPlus,
) -> bool {
    exists|pairs: Seq<(int, int)>| #[trigger]
        sweep_run(n, k, before, pairs, after) && close_pairs_before(n, pairs, (n, 0))
}

/// Some close pair has led to `s`, and those before it to nothing.
pub open spec fn sweep_found(
    n: int,
    k: int,
    before: Xoshiro256PlusPlus,
    s: Seq<usize>,
    after: Xoshiro256PlusPlus,
) -> bool {
    exists|a: int, b: int| #[trigger] sweep_hit(n, k, a, b, before, s, after)
}

/// What the sweep over the close pairs comes to: where it comes to nothing,
/// every close pair, in order, has led to nothing.
pub open spec fn pair_outcome(
    n: int,
    k: int,
    before: Xoshiro256PlusPlus,
    r: Option<Seq<usize>>,
    after: Xoshiro256PlusPlus,
) -> bool {
    &&& r is None ==> sweep_missed(n, k, before, after)
    &&& r is Some ==> sweep_found(n, k, before, r.unwrap(), after)
}

/// What a step of a greedy extension came to.
#[derive(Clone, Copy, PartialEq, Eq, Structural)]
pub enum Extension {
    /// All draws stood in the list already.
    Nothing,
    /// A vertex was added, and a common dominator is left.
    Open,
    /// A vertex was added, and no common dominator is left.
    Collapsed,
}

/// One step of a greedy extension: the best of the draws, which are not 0,
/// joins the list, and the mask is narrowed by it.
pub fn extend_step(p: &Paley, mask: &mut BitSet, s: &mut Vec<usize>, draws: &[usize]) -> (
    step: Extension)
    requires
        p.wf(),
        old(mask).words@.len() == p.nwords,
        forall|j: int| 0 <= j < draws@.len() ==> 1 <= #[trigger] draws@[j] < p.n,
    ensures
        final(mask).words@.len() == p.nwords,
        ({
            let v = picked(p.n as int, old(mask)@, old(s)@, draws@, 0);
            if v == 0 {
                step == Extension::Nothing && final(mask)@ == old(mask)@ && final(s)@ == old(s)@
            } else {
                &&& !old(s)@.contains(v)
                &&& v < p.n
                &&& final(s)@ == old(s)@.push(v)
                &&& final(mask)@ == old(mask)@.intersect(dominators(p.n as int, v as int))
                &&& step == if final(mask)@ == Set::<int>::empty() {
                    Extension::Collapsed
                } else {
                    Extension::Open
                }
            }
        }),
        (step == Extension::Nothing) == (forall|j: int|
            0 <= j < draws@.len() ==> old(s)@.contains(#[trigger] draws@[j])),
{
    let ghost n = p.n as int;
    let ghost before = s@;
    let ghost m = mask@;
    let v: usize = pick(p, mask, s.as_slice(), draws, 0);
    proof {
        if exists|c: int| best_draw(n, m, before, draws@, c) {
            let c = choose|c: int| best_draw(n, m, before, draws@, c);
            assert(best_draw(n, m, before, draws@, c));
            assert(v == draws@[c]);
        } else {
            assert forall|j: int| 0 <= j < draws@.len() implies before.contains(
                #[trigger] draws@[j],
            ) by {
                if !before.contains(draws@[j]) {
                    lemma_best_draw_exists(n, m, before, draws@, j);
                }
            }
        }
    }
    if v == 0 {
        return Extension::Nothing;
    }
    s.push(v);
    if mask.and_assign(&p.nb[v]) {
        Extension::Open
    } else {
        Extension::Collapsed
    }
}

/// Where a draw stands outside the list, one of them is the best.
proof fn lemma_best_draw_exists(
    n: int,
    mask: Set<int>,
    s: Seq<usize>,
    draws: Seq<usize>,
    j: int,
)
    requires
        0 <= j < draws.len(),
        !s.contains(draws[j]),
    ensures
        exists|i: int| best_draw(n, mask, s, draws, i),
    decreases score(n, mask, draws[j]), j,
{
    if !best_draw(n, mask, s, draws, j) {
        let i = choose|i: int|
            0 <= i < draws.len() && !s.contains(#[trigger] draws[i]) && !(score(n, mask, draws[j])
                < score(n, mask, draws[i]) || (score(n, mask, draws[j]) == score(n, mask, draws[i])
                && j <= i));
        lemma_best_draw_exists(n, mask, s, draws, i);
    }
}

/// A new vertex keeps a list of distinct vertices one.
proof fn lemma_push_vertex(n: int, s: Seq<usize>, v: usize)
    requires
        vertices(n, s),
        v < n,
        !s.contains(v),
    ensures
        vertices(n, s.push(v)),
{
    let t = s.push(v);
    assert forall|i: int, j: int| 0 <= i < t.len() && 0 <= j < t.len() && i != j implies t[i]
        != t[j] by {
        if i == s.len() {
            assert(s.contains(s[j]));
        }
        if j == s.len() {
            assert(s.contains(s[i]));
        }
    }
}

/// An undominated list stays one when it is padded.
proof fn lemma_padded_counterexample(n: int, k: int, s: Seq<usize>)
    requires
        vertices(n, s),
        0 <= n <= usize::MAX,
        2 <= s.len() <= k,
        s[0] == 0,
        s[1] == 1,
        !dominated(n, s),
    ensures
        counterexample(n, k, padded(s, 2, n, k)),
        padded(s, 2, n, k)[0] == 0,
        padded(s, 2, n, k)[1] == 1,
        padded(s, 2, n, k).len() == if k <= n {
            k
        } else {
            n
        },
{
    let t = padded(s, 2, n, k);
    lemma_padded(s, 2, n, k);
    assert forall|v: usize| v < 2 implies s.contains(v) by {
        assert(s[v as int] == v);
    }
    lemma_padded_length(s, 2, n, k);
    if dominated(n, t) {
        assert forall|i: int| 0 <= i < s.len() implies t.contains(#[trigger] s[i]) by {
            assert(t[i] == s[i]);
        }
        lemma_dominated_part(n, t, s);
    }
}

/// Narrows the mask of the common dominators of `s` by one more vertex, which
/// joins the list.  Tells whether a common dominator is left.
fn take_in(p: &Paley, mask: &mut BitSet, s: &mut Vec<usize>, v: usize) -> (alive: bool)
    requires
        p.wf(),
        v < p.n,
        old(s)@.len() >= 1,
        old(s)@[0] == 0,
        old(mask).words@.len() == p.nwords,
        old(mask)@ == narrowed(p.n as int, dominators(p.n as int, 0), old(s)@.skip(1)),
    ensures
        final(mask).words@.len() == p.nwords,
        final(s)@ == old(s)@.push(v),
        final(mask)@ == narrowed(p.n as int, dominators(p.n as int, 0), final(s)@.skip(1)),
        alive == dominated(p.n as int, final(s)@),
{
    let ghost n = p.n as int;
    let ghost before = s@;
    s.push(v);
    let alive: bool = mask.and_assign(&p.nb[v]);
    proof {
        lemma_narrowed_push(n, dominators(n, 0), before.skip(1), v);
        assert(before.skip(1).push(v) =~= s@.skip(1));
        lemma_narrowed_dominators(n, 0, s@.skip(1));
        assert(seq![0usize] + s@.skip(1) =~= s@);
    }
    alive
}

/// A beginning of 0, 1, `a` and `b` without a common dominator leaves the whole
/// without one.
proof fn lemma_pair_part(n: int, a: int, b: int, s: Seq<usize>)
    requires
        s.len() <= 4,
        s == pair_list(a, b).take(s.len() as int),
        !dominated(n, s),
    ensures
        !dominated(n, pair_list(a, b)),
{
    let t = pair_list(a, b);
    if dominated(n, t) {
        assert forall|i: int| 0 <= i < s.len() implies t.contains(#[trigger] s[i]) by {
            assert(t[i] == s[i]);
        }
        lemma_dominated_part(n, t, s);
    }
}

/// Tries the close pair of `a` and `b`: 0, 1, `a` and `b`, and then a greedy
/// extension of these.
fn try_pair(p: &Paley, rng: &mut Xoshiro256PlusPlus, k: usize, a: usize, b: usize) -> (r: Option<
    Vec<usize>,
>)
    requires
        p.wf(),
        k >= 4,
        close_pair(p.n as int, a as int, b as int),
    ensures
        match r {
            Some(s) => counterexample(p.n as int, k as int, s@) && pair_result(
                p.n as int,
                k as int,
                a as int,
                b as int,
                s@,
            ),
            None => dominated(p.n as int, pair_list(a as int, b as int)),
        },
        k == 4 || !dominated(p.n as int, pair_list(a as int, b as int)) ==> *final(rng) == *old(
            rng,
        ),
        match r {
            Some(s) => pair_hit(
                p.n as int,
                k as int,
                a as int,
                b as int,
                *old(rng),
                s@,
                *final(rng),
            ),
            None => pair_miss(p.n as int, k as int, a as int, b as int, *old(rng), *final(rng)),
        },
{
    let ghost n = p.n as int;
    let mut m = BitSet::zeros(p.nwords);
    m.copy_from(&p.nb[0]);
    let mut s: Vec<usize> = Vec::new();
    s.push(0);
    proof {
        lemma_fits(n);
        assert(s@.skip(1) =~= Seq::<usize>::empty());
        assert(m@ =~= narrowed(n, dominators(n, 0), s@.skip(1)));
    }
    let alive: bool = take_in(p, &mut m, &mut s, 1);
    assert(s@ =~= seq![0usize, 1usize]);
    assert(vertices(n, s@));
    if !alive {
        proof {
            assert(s@ =~= pair_list(a as int, b as int).take(s@.len() as int));
            lemma_pair_part(n, a as int, b as int, s@);
        }
        return Some(s);
    }
    let alive: bool = take_in(p, &mut m, &mut s, a);
    assert(s@ =~= seq![0usize, 1usize, a]);
    assert(vertices(n, s@));
    if !alive {
        proof {
            assert(s@ =~= pair_list(a as int, b as int).take(s@.len() as int));
            lemma_pair_part(n, a as int, b as int, s@);
            lemma_padded_counterexample(n, k as int, s@);
        }
        pad(&mut s, p.n, k);
        return Some(s);
    }
    let alive: bool = take_in(p, &mut m, &mut s, b);
    assert(s@ =~= pair_list(a as int, b as int));
    assert(vertices(n, s@));
    if !alive {
        proof {
            lemma_padded_counterexample(n, k as int, s@);
        }
        pad(&mut s, p.n, k);
        return Some(s);
    }
    let mut more: bool = true;
    let mut size: usize = 4;
    assert(s@.take(4) =~= s@);
    assert(greedy_run(n, a as int, b as int, *old(rng), s@, *rng));
    while size < k && more
        invariant
            p.wf(),
            n == p.n,
            4 <= size <= k,
            close_pair(n, a as int, b as int),
            dominated(n, seq![0usize, 1usize]),
            dominated(n, seq![0usize, 1usize, a]),
            dominated(n, pair_list(a as int, b as int)),
            more ==> s@.len() == size,
            4 <= s@.len() <= size,
            greedy_list(n, a as int, b as int, s@),
            dominated(n, s@),
            vertices(n, s@),
            m.words@.len() == p.nwords,
            m@ == narrowed(n, dominators(n, 0), s@.skip(1)),
            k == 4 ==> *rng == *old(rng),
            more ==> greedy_run(n, a as int, b as int, *old(rng), s@, *rng),
            !more ==> s@.len() < size && greedy_stuck(
                n,
                a as int,
                b as int,
                *old(rng),
                s@,
                *rng,
            ),
        decreases k - size,
    {
        let ghost mid = *rng;
        let draws = draw_many(rng, 2, p.n, PAIR_GREEDY_TRIALS);
        let ghost before = s@;
        let step: Extension = extend_step(p, &mut m, &mut s, draws.as_slice());
        proof {
            if step != Extension::Nothing {
                let v = s@.last();
                lemma_push_vertex(n, before, v);
                lemma_narrowed_push(n, dominators(n, 0), before.skip(1), v);
                assert(before.skip(1).push(v) =~= s@.skip(1));
                lemma_narrowed_dominators(n, 0, s@.skip(1));
                assert(s@[0] == 0 && s@[1] == 1) by {
                    assert(before.take(4)[0] == before[0]);
                    assert(before.take(4)[1] == before[1]);
                }
                assert(seq![0usize] + s@.skip(1) =~= s@);
                assert(s@.take(4) =~= before.take(4));
                assert(s@.drop_last() =~= before);
                assert(seq![0usize] + before.skip(1) =~= before);
                lemma_narrowed_dominators(n, 0, before.skip(1));
                assert(greedy_step(n, before, draws@, v));
                assert(draw_run(mid, 2, (n as int) as usize, draws@, *rng));
                assert(s@.last() == v);
                assert(greedy_run(n, a as int, b as int, *old(rng), s@, *rng));
                assert forall|i: int| 4 <= i < s@.len() implies greedy_choice(
                    n,
                    s@.take(i),
                    #[trigger] s@[i],
                ) by {
                    if i < before.len() {
                        assert(s@.take(i) =~= before.take(i));
                        assert(s@[i] == before[i]);
                    } else {
                        assert(s@.take(i) =~= before);
                    }
                }
            }
        }
        if step == Extension::Nothing {
            assert(s@ =~= before);
            assert(draw_run(mid, 2, (n as int) as usize, draws@, *rng));
            assert(greedy_stuck(n, a as int, b as int, *old(rng), s@, *rng));
            more = false;
        } else if step == Extension::Collapsed {
            let ghost found = s@;
            proof {
                lemma_padded_counterexample(n, k as int, found);
                lemma_padded(found, 2, n, k as int);
            }
            pad(&mut s, p.n, k);
            assert(greedy_list(n, a as int, b as int, found));
            return Some(s);
        }
        size = size + 1;
    }
    None
}

/// The close pairs before a pair, and that pair.
proof fn lemma_pairs_push(n: int, pairs: Seq<(int, int)>, a: int, b: int)
    requires
        close_pairs_before(n, pairs, (a, b)),
        close_pair(n, a, b),
    ensures
        close_pairs_before(n, pairs.push((a, b)), (a, b + 1)),
{
    let more = pairs.push((a, b));
    assert forall|i: int, j: int| 0 <= i < j < more.len() implies pair_before(
        #[trigger] more[i],
        #[trigger] more[j],
    ) by {
        if j == pairs.len() {
            assert(pairs.contains(pairs[i]));
        }
    }
    assert forall|x: (int, int)| #[trigger] more.contains(x) <==> close_pair(n, x.0, x.1)
        && pair_before(x, (a, b + 1)) by {
        if more.contains(x) {
            let i = choose|i: int| 0 <= i < more.len() && more[i] == x;
            if i < pairs.len() {
                assert(pairs[i] == x);
                assert(pairs.contains(x));
            }
        }
        if close_pair(n, x.0, x.1) && pair_before(x, (a, b + 1)) {
            if x == (a, b) {
                assert(more[pairs.len() as int] == x);
            } else {
                assert(pair_before(x, (a, b)));
                assert(pairs.contains(x));
                let i = choose|i: int| 0 <= i < pairs.len() && pairs[i] == x;
                assert(more[i] == x);
            }
        }
    }
}

/// Past the last partner of `a` come the partners of `a + 1`.
proof fn lemma_pairs_next(n: int, pairs: Seq<(int, int)>, a: int, b: int)
    requires
        close_pairs_before(n, pairs, (a, b)),
        !close_pair(n, a, b),
        2 <= a < n - 1,
        a < b,
    ensures
        close_pairs_before(n, pairs, (a + 1, 0)),
{
    assert forall|x: (int, int)| #[trigger] pairs.contains(x) <==> close_pair(n, x.0, x.1)
        && pair_before(x, (a + 1, 0)) by {}
}

/// A pair that leads to a list ends the sweep.
proof fn lemma_sweep_hit(
    n: int,
    k: int,
    a: int,
    b: int,
    before: Xoshiro256PlusPlus,
    pairs: Seq<(int, int)>,
    mid: Xoshiro256PlusPlus,
    s: Seq<usize>,
    after: Xoshiro256PlusPlus,
)
    requires
        close_pair(n, a, b),
        sweep_run(n, k, before, pairs, mid),
        close_pairs_before(n, pairs, (a, b)),
        pair_hit(n, k, a, b, mid, s, after),
    ensures
        pair_outcome(n, k, before, Some(s), after),
{
    assert(sweep_hit(n, k, a, b, before, s, after));
    assert(sweep_found(n, k, before, s, after));
}

/// Sweeps over the close pairs of vertices: each, together with 0 and 1, is
/// extended greedily to `k` vertices.  Which vertices are drawn is chance;
/// draws that all stand in the list end an extension.  What a step does with
/// given draws is said of `extend_step`.
pub fn pair_witness(p: &Paley, rng: &mut Xoshiro256PlusPlus, k: usize) -> (r: Option<Vec<usize>>)
    requires
        p.wf(),
    ensures
        match r {
            Some(s) => k >= 4 && counterexample(p.n as int, k as int, s@) && exists|a: int, b: int|
                #[trigger]
                close_pair(p.n as int, a, b) && earlier_pairs_dominated(p.n as int, a, b)
                    && pair_result(p.n as int, k as int, a, b, s@),
            None => k < 4 || forall|a: int, b: int| #[trigger]
                close_pair(p.n as int, a, b) ==> dominated(p.n as int, pair_list(a, b)),
        },
        k <= 4 || !close_pair(p.n as int, 2, 3) || !dominated(p.n as int, pair_list(2, 3))
            ==> *final(rng) == *old(rng),
        k >= 4 ==> pair_outcome(p.n as int, k as int, *old(rng), listed(r), *final(rng)),
{
    if k < 4 {
        return None;
    }
    let ghost n = p.n as int;
    proof {
        lemma_fits(n);
    }
    let mut a: usize = 2;
    let ghost mut pairs: Seq<(int, int)> = Seq::empty();
    while a < p.n - 1
        invariant
            p.wf(),
            n == p.n,
            2 * n + 200 <= usize::MAX,
            k >= 4,
            2 <= a,
            forall|c: int, d: int| #[trigger]
                close_pair(n, c, d) && c < a ==> dominated(n, pair_list(c, d)),
            a > 2 ==> close_pair(n, 2, 3),
            k == 4 || a == 2 ==> *rng == *old(rng),
            sweep_run(n, k as int, *old(rng), pairs, *rng),
            close_pairs_before(n, pairs, (a as int, 0)),
        decreases p.n - a,
    {
        let mut delta: usize = 1;
        proof {
            assert forall|x: (int, int)| #[trigger] pairs.contains(x) <==> close_pair(n, x.0, x.1)
                && pair_before(x, (a as int, a + 1)) by {}
        }
        while delta <= PAIR_DELTA_MAX && a + delta < p.n
            invariant
                p.wf(),
                n == p.n,
                2 * n + 200 <= usize::MAX,
                k >= 4,
                2 <= a < n - 1,
                1 <= delta <= PAIR_DELTA_MAX + 1,
                forall|c: int, d: int| #[trigger]
                    close_pair(n, c, d) && (c < a || (c == a && d < a + delta)) ==> dominated(
                        n,
                        pair_list(c, d),
                    ),
                k == 4 || (a == 2 && delta == 1) ==> *rng == *old(rng),
                sweep_run(n, k as int, *old(rng), pairs, *rng),
                close_pairs_before(n, pairs, (a as int, a + delta)),
            decreases PAIR_DELTA_MAX + 1 - delta,
        {
            let b: usize = a + delta;
            let ghost mid = *rng;
            assert(close_pair(n, a as int, b as int));
            match try_pair(p, rng, k, a, b) {
                Some(s) => {
                    proof {
                        assert(earlier_pairs_dominated(n, a as int, b as int));
                        lemma_sweep_hit(
                            n,
                            k as int,
                            a as int,
                            b as int,
                            *old(rng),
                            pairs,
                            mid,
                            s@,
                            *rng,
                        );
                        assert(listed(Some(s)) == Some(s@));
                        if a == 2 && delta == 1 {
                            assert(pair_list(a as int, b as int) == pair_list(2, 3));
                        } else {
                            assert(close_pair(n, 2, 3));
                            assert(dominated(n, pair_list(2, 3)));
                        }
                    }
                    return Some(s);
                },
                None => {
                    proof {
                        lemma_pairs_push(n, pairs, a as int, b as int);
                        let more = pairs.push((a as int, b as int));
                        assert(more.drop_last() =~= pairs);
                        assert(more.last() == (a as int, b as int));
                        assert(pair_miss(n, k as int, more.last().0, more.last().1, mid, *rng));
                        assert(sweep_run(n, k as int, *old(rng), more, *rng));
                        pairs = more;
                    }
                },
            }
            delta = delta + 1;
        }
        proof {
            lemma_pairs_next(n, pairs, a as int, a + delta);
        }
        a = a + 1;
    }
    proof {
        assert(close_pair(n, 2, 3) ==> a > 2);
        assert forall|x: (int, int)| #[trigger] pairs.contains(x) <==> close_pair(n, x.0, x.1)
            && pair_before(x, (n, 0)) by {}
    }
    None
}

/// Where trying random lists comes to nothing, as many samples as the budget
/// says were drawn, one after the other, and each has, together with vertex 0,
/// a common dominator.
pub proof fn lemma_random_missed(
    n: int,
    k: int,
    budget: int,
    before: Xoshiro256PlusPlus,
    after: Xoshiro256PlusPlus,
)
    requires
        random_outcome(n, k, budget, before, None, after),
    ensures
        exists|lists: Seq<Seq<usize>>| #[trigger]
            samples_run(n, k - 1, before, lists, after) && lists.len() == budget && forall|i: int|
                0 <= i < budget ==> dominated(n, seq![0usize] + #[trigger] lists[i]),
{
    let lists = choose|lists: Seq<Seq<usize>>| #[trigger]
        samples_run(n, k - 1, before, lists, after) && lists.len() == budget && all_dominated(
            n,
            lists,
        );
    assert(samples_run(n, k - 1, before, lists, after));
}

/// A sample consists of `want` distinct vertices other than 0.
pub proof fn lemma_sample(
    n: int,
    want: int,
    before: Xoshiro256PlusPlus,
    s: Seq<usize>,
    after: Xoshiro256PlusPlus,
)
    requires
        2 <= n <= usize::MAX,
        0 <= want < n,
        sample_run(n, want, before, s, after),
    ensures
        nonzero_vertices(n, s),
        s.len() == want,
{
    let numbers = choose|numbers: Seq<usize>| #[trigger]
        draw_run(before, 1, n as usize, numbers, after) && makes_sample(n, want, numbers, s);
    let d = distinct(numbers);
    lemma_draw_range(before, 1, n as usize, numbers, after);
    lemma_distinct(numbers);
    assert forall|i: int| 0 <= i < d.len() implies 1 <= #[trigger] d[i] < n by {
        assert(d.contains(d[i]));
        assert(numbers.contains(d[i]));
    }
    assert(vertices(n, d));
    if d.len() != want {
        lemma_padded(d, 1, n, want);
        lemma_padded_least(d, 1, n, want);
        lemma_distinct_growth(numbers);
        if s.len() < want {
            lemma_covering_length(n, 1, s);
        }
        assert forall|i: int| 0 <= i < s.len() implies 1 <= #[trigger] s[i] by {
            if i < d.len() {
                assert(s[i] == d[i]);
            }
        }
    }
}

/// One more number makes at most one more distinct one.
proof fn lemma_distinct_growth(numbers: Seq<usize>)
    ensures
        numbers.len() == 0 ==> distinct(numbers).len() == 0,
        numbers.len() > 0 ==> distinct(numbers).len() <= distinct(numbers.drop_last()).len() + 1,
{
}

/// Where a local search comes to nothing, as many paths as restarts were drawn,
/// one after the other, each a sample and all its swaps, and every list on them
/// has, together with vertex 0, a common dominator.
pub proof fn lemma_local_missed(
    n: int,
    k: int,
    restarts: int,
    max_swaps: int,
    before: Xoshiro256PlusPlus,
    after: Xoshiro256PlusPlus,
)
    requires
        local_outcome(n, k, restarts, max_swaps, before, None, after),
    ensures
        exists|paths: Seq<Seq<Seq<usize>>>| #[trigger]
            paths_run(n, k - 1, before, paths, after) && paths.len() == restarts && forall|
                i: int,
                j: int,
            |
                #![trigger paths[i][j]]
                0 <= i < restarts && 0 <= j <= max_swaps ==> paths[i].len() == max_swaps + 1
                    && dominated(n, seq![0usize] + paths[i][j]),
{
    let paths = choose|paths: Seq<Seq<Seq<usize>>>| #[trigger]
        paths_run(n, k - 1, before, paths, after) && paths.len() == restarts && all_spent(
            n,
            max_swaps,
            paths,
        );
    assert(paths_run(n, k - 1, before, paths, after));
    assert forall|i: int, j: int|
        #![trigger paths[i][j]]
        0 <= i < restarts && 0 <= j <= max_swaps implies paths[i].len() == max_swaps + 1
        && dominated(n, seq![0usize] + paths[i][j]) by {
        assert(all_dominated(n, paths[i]));
    }
}

/// The best of the draws is one of them that does not stand in the list, and
/// none of the others leaves fewer vertices in the mask.
pub proof fn lemma_picked_least(
    n: int,
    mask: Set<int>,
    s: Seq<usize>,
    draws: Seq<usize>,
    otherwise: usize,
    j: int,
)
    requires
        0 <= j < draws.len(),
        !s.contains(draws[j]),
    ensures
        draws.contains(picked(n, mask, s, draws, otherwise)),
        !s.contains(picked(n, mask, s, draws, otherwise)),
        mask.intersect(
            dominators(n, picked(n, mask, s, draws, otherwise) as int),
        ).len() <= mask.intersect(dominators(n, draws[j] as int)).len(),
{
    lemma_best_draw_exists(n, mask, s, draws, j);
    let i = choose|i: int| best_draw(n, mask, s, draws, i);
    assert(best_draw(n, mask, s, draws, i));
    assert(draws[i] == picked(n, mask, s, draws, otherwise));
}

/// A swap changes one place only, and of the draws that stand outside the list
/// none would leave fewer common dominators there.
pub proof fn lemma_swapped(n: int, s: Seq<usize>, i: int, draws: Seq<usize>, j: int)
    requires
        0 <= i < s.len(),
        0 <= j < draws.len(),
    ensures
        swapped(n, s, i, draws).len() == s.len(),
        forall|q: int| 0 <= q < s.len() && q != i ==> swapped(n, s, i, draws)[q] == s[q],
        !s.contains(draws[j]) ==> draws.contains(swapped(n, s, i, draws)[i]) && !s.contains(
            swapped(n, s, i, draws)[i],
        ) && mask_without(n, s, i).intersect(
            dominators(n, swapped(n, s, i, draws)[i] as int),
        ).len() <= mask_without(n, s, i).intersect(dominators(n, draws[j] as int)).len(),
{
    if !s.contains(draws[j]) {
        lemma_picked_least(n, mask_without(n, s, i), s, draws, s[i], j);
    }
}

/// Every pair of a sweep that comes to nothing does so.
proof fn lemma_sweep_member(
    n: int,
    k: int,
    before: Xoshiro256PlusPlus,
    pairs: Seq<(int, int)>,
    after: Xoshiro256PlusPlus,
    q: int,
)
    requires
        sweep_run(n, k, before, pairs, after),
        0 <= q < pairs.len(),
    ensures
        exists|g: Xoshiro256PlusPlus, h: Xoshiro256PlusPlus| #[trigger]
            pair_miss(n, k, pairs[q].0, pairs[q].1, g, h),
    decreases pairs.len(),
{
    let mid = choose|mid: Xoshiro256PlusPlus| #[trigger]
        pair_miss(n, k, pairs.last().0, pairs.last().1, mid, after) && sweep_run(
            n,
            k,
            before,
            pairs.drop_last(),
            mid,
        );
    if q < pairs.len() - 1 {
        lemma_sweep_member(n, k, before, pairs.drop_last(), mid, q);
        assert(pairs.drop_last()[q] == pairs[q]);
    } else {
        assert(pair_miss(n, k, pairs[q].0, pairs[q].1, mid, after));
    }
}

/// A greedy extension starts with 0, 1, `a` and `b`.
proof fn lemma_greedy_start(
    n: int,
    a: int,
    b: int,
    before: Xoshiro256PlusPlus,
    t: Seq<usize>,
    after: Xoshiro256PlusPlus,
)
    requires
        greedy_run(n, a, b, before, t, after),
    ensures
        t.len() >= 4,
        t.take(4) == seq![0usize, 1usize, a as usize, b as usize],
    decreases t.len(),
{
    if t.len() <= 4 {
        assert(t.take(4) =~= t);
    } else {
        let (mid, draws) = choose|mid: Xoshiro256PlusPlus, draws: Seq<usize>| #[trigger]
            draw_run(mid, 2, n as usize, draws, after) && greedy_step(
                n,
                t.drop_last(),
                draws,
                t.last(),
            ) && t.last() != 0 && greedy_run(n, a, b, before, t.drop_last(), mid);
        lemma_greedy_start(n, a, b, before, t.drop_last(), mid);
        assert(t.take(4) =~= t.drop_last().take(4));
    }
}

/// Where the sweep over the close pairs comes to nothing, each two vertices
/// from 2 on that are at most 12 apart have been extended, together with 0 and
/// 1, to a list that has a common dominator and either has `k` vertices or was
/// ended by a round of 32 draws that all stand in it.
pub proof fn lemma_pairs_missed(
    n: int,
    k: int,
    before: Xoshiro256PlusPlus,
    after: Xoshiro256PlusPlus,
    a: int,
    b: int,
)
    requires
        pair_outcome(n, k, before, None, after),
        2 <= a < b < n,
        b - a <= 12,
    ensures
        exists|t: Seq<usize>, g: Xoshiro256PlusPlus, h: Xoshiro256PlusPlus|
            {
                &&& #[trigger] extended(n, k, a, b, t, g, h)
                &&& dominated(n, t)
                &&& t.len() >= 4
                &&& t.take(4) == seq![0usize, 1usize, a as usize, b as usize]
            },
{
    assert(sweep_missed(n, k, before, after));
    let pairs = choose|pairs: Seq<(int, int)>| #[trigger]
        sweep_run(n, k, before, pairs, after) && close_pairs_before(n, pairs, (n, 0));
    let x = (a, b);
    assert(close_pair(n, x.0, x.1) && pair_before(x, (n, 0)));
    assert(pairs.contains(x));
    let q = choose|q: int| 0 <= q < pairs.len() && pairs[q] == x;
    lemma_sweep_member(n, k, before, pairs, after, q);
    let (g, h) = choose|g: Xoshiro256PlusPlus, h: Xoshiro256PlusPlus| #[trigger]
        pair_miss(n, k, pairs[q].0, pairs[q].1, g, h);
    assert(pair_miss(n, k, a, b, g, h));
    let t = choose|t: Seq<usize>| #[trigger]
        dominated(n, t) && (t.len() == k && greedy_run(n, a, b, g, t, h) || t.len() < k
            && greedy_stuck(n, a, b, g, t, h));
    if t.len() == k && greedy_run(n, a, b, g, t, h) {
        lemma_greedy_start(n, a, b, g, t, h);
    } else {
        let (mid, draws) = choose|mid: Xoshiro256PlusPlus, draws: Seq<usize>| #[trigger]
            draw_run(mid, 2, n as usize, draws, h) && draws.len() == 32 && (forall|j: int|
                0 <= j < draws.len() ==> t.contains(#[trigger] draws[j])) && greedy_run(
                n,
                a,
                b,
                g,
                t,
                mid,
            );
        lemma_greedy_start(n, a, b, g, t, mid);
        lemma_draw_range(mid, 2, n as usize, draws, h);
    }
    assert(extended(n, k, a, b, t, g, h));
}

/// The list is a greedy extension, drawn between two states of the generator,
/// to `k` vertices, or as far as a round of draws that all stand in it.
pub open spec fn extended(
    n: int,
    k: int,
    a: int,
    b: int,
    t: Seq<usize>,
    g: Xoshiro256PlusPlus,
    h: Xoshiro256PlusPlus,
) -> bool {
    ||| t.len() == k && greedy_run(n, a, b, g, t, h)
    ||| t.len() < k && exists|mid: Xoshiro256PlusPlus, draws: Seq<usize>| #[trigger]
        draw_run(mid, 2, n as usize, draws, h) && draws.len() == 32 && (forall|j: int|
            0 <= j < draws.len() ==> t.contains(#[trigger] draws[j])) && greedy_run(
            n,
            a,
            b,
            g,
            t,
            mid,
        )
}

} // verus!
