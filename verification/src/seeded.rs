//! Counterexamples by analogy: the counterexample of an earlier prime, carried
//! over to this one.
use crate::bitset::BitSet;
use crate::lists::{
    contains, lemma_padded, lemma_padded_least, lemma_padded_length, pad_from, padded,
};
use crate::paley::{has_dominator, lemma_fits, Paley};
use crate::readings::{lemma_signed_push, next_signed, signed_run};
use crate::sampling::listed;
use crate::tournament::{counterexample, dominated, lemma_narrowed_dominators, vertices};
use rand_xoshiro::Xoshiro256PlusPlus;
use vstd::arithmetic::div_mod::*;
use vstd::prelude::*;
use vstd::slice::*;

verus! {

/// The remainders of the numbers, each where it occurs first.
pub open spec fn remainders(n: int, raw: Seq<usize>) -> Seq<usize>
    decreases raw.len(),
{
    if raw.len() == 0 {
        Seq::empty()
    } else {
        let before = remainders(n, raw.drop_last());
        let v = (raw.last() as int % n) as usize;
        if before.contains(v) {
            before
        } else {
            before.push(v)
        }
    }
}

/// The first `k` members of a list, or all of a shorter list.
pub open spec fn at_most(s: Seq<usize>, k: int) -> Seq<usize> {
    if s.len() <= k {
        s
    } else {
        s.take(k)
    }
}

/// The list of vertices that the numbers `raw` stand for: the first `k`
/// different remainders, padded with the least unused vertices.
pub open spec fn carried_over(n: int, k: int, raw: Seq<usize>) -> Seq<usize> {
    padded(at_most(remainders(n, raw), k), 0, n, k)
}

/// The remainders of a beginning are a beginning of the remainders.
proof fn lemma_remainders_prefix(n: int, raw: Seq<usize>, i: int)
    requires
        0 <= i <= raw.len(),
    ensures
        remainders(n, raw.take(i)).len() <= remainders(n, raw).len(),
        remainders(n, raw).take(remainders(n, raw.take(i)).len() as int) == remainders(
            n,
            raw.take(i),
        ),
    decreases raw.len(),
{
    let part = remainders(n, raw.take(i));
    if i == raw.len() {
        assert(raw.take(i) =~= raw);
        assert(remainders(n, raw).take(part.len() as int) =~= part);
    } else {
        let rest = raw.drop_last();
        lemma_remainders_prefix(n, rest, i);
        assert(rest.take(i) =~= raw.take(i));
        assert(remainders(n, raw).take(part.len() as int) =~= remainders(n, rest).take(
            part.len() as int,
        ));
    }
}

/// The remainders are distinct vertices.
proof fn lemma_remainders(n: int, raw: Seq<usize>)
    requires
        0 < n <= usize::MAX,
    ensures
        vertices(n, remainders(n, raw)),
    decreases raw.len(),
{
    if raw.len() > 0 {
        let before = remainders(n, raw.drop_last());
        let v = (raw.last() as int % n) as usize;
        let all = remainders(n, raw);
        lemma_remainders(n, raw.drop_last());
        lemma_mod_bound(raw.last() as int, n);
        assert forall|i: int, j: int|
            0 <= i < all.len() && 0 <= j < all.len() && i != j implies all[i] != all[j] by {
            if i == before.len() {
                assert(before.contains(before[j]));
            }
            if j == before.len() {
                assert(before.contains(before[i]));
            }
        }
    }
}

/// The list carried over has `k` distinct vertices, or all of the `n`.
pub proof fn lemma_carried_over(n: int, k: int, raw: Seq<usize>)
    requires
        0 < n <= usize::MAX,
        0 <= k,
    ensures
        vertices(n, carried_over(n, k, raw)),
        carried_over(n, k, raw).len() == if k <= n {
            k
        } else {
            n
        },
{
    let s = at_most(remainders(n, raw), k);
    lemma_remainders(n, raw);
    assert(vertices(n, s));
    lemma_padded(s, 0, n, k);
    lemma_padded_length(s, 0, n, k);
}

/// Carries the numbers `s_raw` over, and gives the list if it has no common
/// dominator.
pub fn try_pad(p: &Paley, s_raw: &[usize], k: usize) -> (r: Option<Vec<usize>>)
    requires
        p.wf(),
        k >= 2,
    ensures
        match r {
            Some(t) => t@ == carried_over(p.n as int, k as int, s_raw@) && counterexample(
                p.n as int,
                k as int,
                t@,
            ),
            None => dominated(p.n as int, carried_over(p.n as int, k as int, s_raw@)),
        },
{
    let n: usize = p.n;
    let len: usize = s_raw.len();
    let mut t: Vec<usize> = Vec::with_capacity(k);
    let mut i: usize = 0;
    assert(s_raw@.take(0) =~= Seq::<usize>::empty());
    while i < len && t.len() < k
        invariant
            p.wf(),
            n == p.n,
            len == s_raw@.len(),
            i <= len,
            t@.len() <= k,
            t@ == remainders(n as int, s_raw@.take(i as int)),
        decreases len - i,
    {
        let v: usize = s_raw[i] % n;
        assert(s_raw@.take(i + 1).drop_last() =~= s_raw@.take(i as int));
        if !contains(t.as_slice(), v) {
            t.push(v);
        }
        i = i + 1;
    }
    proof {
        lemma_remainders_prefix(n as int, s_raw@, i as int);
        if i == len {
            assert(s_raw@.take(i as int) =~= s_raw@);
        }
        assert(t@ =~= at_most(remainders(n as int, s_raw@), k as int));
        lemma_carried_over(n as int, k as int, s_raw@);
    }
    pad_from(&mut t, 0, n, k);
    let mut scratch = BitSet::zeros(p.nwords);
    let rest: &[usize] = slice_subrange(t.as_slice(), 1, t.len());
    proof {
        assert(seq![t@[0]] + rest@ =~= t@);
        lemma_narrowed_dominators(n as int, t@[0], rest@);
        assert forall|j: int| 0 <= j < rest@.len() implies #[trigger] rest@[j] < n by {
            assert(rest@[j] == t@[j + 1]);
        }
    }
    if !has_dominator(p, &p.nb[t[0]], rest, &mut scratch) {
        Some(t)
    } else {
        None
    }
}

/// The numbers scaled from `n_prev` vertices to `n`.
pub open spec fn rescaled(n: int, n_prev: int, s: Seq<usize>) -> Seq<usize> {
    Seq::new(
        s.len(),
        |i: int| (((s[i] * n) / n_prev) as usize as int % n) as usize,
    )
}

/// Scales the numbers from `n_prev` vertices to `n`.
pub fn rescale(n: usize, n_prev: usize, s: &[usize]) -> (t: Vec<usize>)
    requires
        n > 0,
        n_prev > 0,
    ensures
        t@ == rescaled(n as int, n_prev as int, s@),
{
    let len: usize = s.len();
    let mut t: Vec<usize> = Vec::new();
    let mut i: usize = 0;
    while i < len
        invariant
            n > 0,
            n_prev > 0,
            len == s@.len(),
            i <= len,
            t@ == rescaled(n as int, n_prev as int, s@.take(i as int)),
        decreases len - i,
    {
        let v: usize = s[i];
        assert(v * n <= u128::MAX) by (nonlinear_arith)
            requires
                0 <= v <= 0xffff_ffff_ffff_ffff,
                0 <= n <= 0xffff_ffff_ffff_ffff,
        ;
        let wide: u128 = (v as u128 * n as u128) / (n_prev as u128);
        t.push((wide as usize) % n);
        i = i + 1;
        assert(t@ =~= rescaled(n as int, n_prev as int, s@.take(i as int)));
    }
    assert(s@.take(len as int) =~= s@);
    t
}

/// The numbers shifted by an offset each, modulo `n`; draw `d` stands for the
/// offset `d - 4`.
pub open spec fn jittered(n: int, s: Seq<usize>, draws: Seq<i64>) -> Seq<usize> {
    Seq::new(s.len(), |i: int| ((s[i] as i64 + (draws[i] - 4)) % n) as usize)
}

/// A draw for each number, each of an offset from -4 to 4.
pub open spec fn jitter_draws(s: Seq<usize>, draws: Seq<i64>) -> bool {
    draws.len() == s.len() && forall|i: int| 0 <= i < draws.len() ==> 0 <= #[trigger] draws[i] < 9
}

/// The numbers leave room for every offset.
pub open spec fn room_for_jitter(s: Seq<usize>) -> bool {
    forall|i: int|
        0 <= i < s.len() ==> i64::MIN + 4 <= (#[trigger] s[i] as i64) <= i64::MAX - 4
}

/// Shifts each number by the offset that its draw stands for.
pub fn jitter(n: usize, s: &[usize], draws: &[i64]) -> (t: Vec<usize>)
    requires
        0 < n <= i64::MAX,
        jitter_draws(s@, draws@),
        room_for_jitter(s@),
    ensures
        t@ == jittered(n as int, s@, draws@),
{
    let len: usize = s.len();
    let m: i64 = n as i64;
    let mut t: Vec<usize> = Vec::new();
    let mut i: usize = 0;
    while i < len
        invariant
            0 < n <= i64::MAX,
            m == n,
            len == s@.len(),
            jitter_draws(s@, draws@),
            room_for_jitter(s@),
            i <= len,
            t@.len() == i,
            forall|j: int| 0 <= j < i ==> t@[j] == jittered(n as int, s@, draws@)[j],
        decreases len - i,
    {
        let v: i64 = s[i] as i64;
        let d: i64 = draws[i];
        assert(0 <= d < 9 && v == s@[i as int] as i64);
        let j: i64 = d - 4;
        let w: i64 = v + j;
        proof {
            lemma_mod_bound(w as int, m as int);
        }
        match w.checked_rem_euclid(m) {
            Some(x) => {
                t.push(x as usize);
            },
            None => {
                assert(false);
            },
        }
        i = i + 1;
    }
    assert(t@ =~= jittered(n as int, s@, draws@));
    t
}

/// The number of random variations that are tried.
pub const JITTER_ROUNDS: u32 = 16;

/// The list from `n_prev` vertices leads to `t`: carried over as it is, or
/// else scaled, or else shifted by small offsets.
pub open spec fn seeded_result(
    n: int,
    k: int,
    n_prev: int,
    s: Seq<usize>,
    t: Seq<usize>,
) -> bool {
    let plain = carried_over(n, k, s);
    let scaled = carried_over(n, k, rescaled(n, n_prev, s));
    if !dominated(n, plain) {
        t == plain
    } else if !dominated(n, scaled) {
        t == scaled
    } else {
        exists|draws: Seq<i64>| #[trigger]
            jitter_draws(s, draws) && t == carried_over(n, k, jittered(n, s, draws))
    }
}

/// The list from `n_prev` vertices has a common dominator both carried over as
/// it is and scaled.
pub open spec fn seed_dominated(n: int, k: int, n_prev: int, s: Seq<usize>) -> bool {
    dominated(n, carried_over(n, k, s)) && dominated(
        n,
        carried_over(n, k, rescaled(n, n_prev, s)),
    )
}

/// Some list of small offsets shifts the list to one with a common dominator.
pub open spec fn some_shift_dominated(n: int, k: int, s: Seq<usize>) -> bool {
    exists|draws: Seq<i64>| #[trigger]
        jitter_draws(s, draws) && dominated(n, carried_over(n, k, jittered(n, s, draws)))
}

/// Successive rounds of draws, one offset for each number of `s`.
pub open spec fn rounds_run(
    s: Seq<usize>,
    before: Xoshiro256PlusPlus,
    rounds: Seq<Seq<i64>>,
    after: Xoshiro256PlusPlus,
) -> bool
    decreases rounds.len(),
{
    if rounds.len() == 0 {
        before == after
    } else {
        exists|mid: Xoshiro256PlusPlus| #[trigger]
            signed_run(mid, 0, 9, rounds.last(), after) && rounds.last().len() == s.len()
                && rounds_run(s, before, rounds.drop_last(), mid)
    }
}

/// All rounds shift the list to one with a common dominator.
pub open spec fn all_shifts_dominated(
    n: int,
    k: int,
    s: Seq<usize>,
    rounds: Seq<Seq<i64>>,
) -> bool {
    forall|i: int|
        0 <= i < rounds.len() ==> dominated(
            n,
            carried_over(n, k, jittered(n, s, #[trigger] rounds[i])),
        )
}

/// What the random shifts come to: where they come to nothing, sixteen rounds
/// were drawn, and all lead to lists with common dominators; otherwise the
/// last of at most sixteen leads to the list, and is the first to lead to one
/// without a common dominator.
pub open spec fn shift_outcome(
    n: int,
    k: int,
    s: Seq<usize>,
    before: Xoshiro256PlusPlus,
    r: Option<Seq<usize>>,
    after: Xoshiro256PlusPlus,
) -> bool {
    exists|rounds: Seq<Seq<i64>>| #[trigger]
        rounds_run(s, before, rounds, after) && if r is None {
            rounds.len() == 16 && all_shifts_dominated(n, k, s, rounds)
        } else {
            &&& 0 < rounds.len() <= 16
            &&& all_shifts_dominated(n, k, s, rounds.drop_last())
            &&& r.unwrap() == carried_over(n, k, jittered(n, s, rounds.last()))
            &&& !dominated(n, r.unwrap())
        }
}

/// What carrying the seed over comes to: the list as it is, or else scaled,
/// before anything is drawn, or else what the random shifts come to.
pub open spec fn seeded_outcome(
    n: int,
    k: int,
    seed: Option<(usize, Vec<usize>)>,
    before: Xoshiro256PlusPlus,
    r: Option<Seq<usize>>,
    after: Xoshiro256PlusPlus,
) -> bool {
    match seed {
        None => r is None && before == after,
        Some(previous) => {
            let s = previous.1@;
            let plain = carried_over(n, k, s);
            let scaled = carried_over(n, k, rescaled(n, previous.0 as int, s));
            if k < 2 || s.len() == 0 {
                r is None && before == after
            } else if !dominated(n, plain) {
                r == Some(plain) && before == after
            } else if !dominated(n, scaled) {
                r == Some(scaled) && before == after
            } else {
                shift_outcome(n, k, s, before, r, after)
            }
        },
    }
}

/// Carries the counterexample of an earlier prime over: as it is, rescaled,
/// and with small random shifts.  Which shifts are tried is chance: the
/// contract says that they are drawn, how many, and what comes of them.  What
/// comes of given shifts is said of `jitter` and `try_pad`.
pub fn seeded_witness(
    p: &Paley,
    rng: &mut Xoshiro256PlusPlus,
    k: usize,
    seed: &Option<(usize, Vec<usize>)>,
) -> (r: Option<Vec<usize>>)
    requires
        p.wf(),
        seed matches Some(previous) ==> previous.0 > 0 && room_for_jitter(previous.1@),
    ensures
        r is Some ==> k >= 2 && (seed matches Some(previous) && previous.1@.len() > 0),
        seed matches Some(previous) ==> k >= 2 && previous.1@.len() > 0 ==> match r {
            Some(t) => counterexample(p.n as int, k as int, t@) && seeded_result(
                p.n as int,
                k as int,
                previous.0 as int,
                previous.1@,
                t@,
            ),
            None => seed_dominated(p.n as int, k as int, previous.0 as int, previous.1@)
                && some_shift_dominated(p.n as int, k as int, previous.1@),
        },
        seed is None || k < 2 ==> *final(rng) == *old(rng),
        seed matches Some(previous) ==> previous.1@.len() == 0 || !seed_dominated(
            p.n as int,
            k as int,
            previous.0 as int,
            previous.1@,
        ) ==> *final(rng) == *old(rng),
        seeded_outcome(p.n as int, k as int, *seed, *old(rng), listed(r), *final(rng)),
{
    match seed {
        None => None,
        Some(previous) => {
            let n: usize = p.n;
            let prev_s: &[usize] = previous.1.as_slice();
            if k < 2 || prev_s.len() == 0 {
                return None;
            }
            proof {
                lemma_fits(n as int);
            }
            match try_pad(p, prev_s, k) {
                Some(t) => {
                    return Some(t);
                },
                None => {},
            }
            let mapped = rescale(n, previous.0, prev_s);
            match try_pad(p, mapped.as_slice(), k) {
                Some(t) => {
                    return Some(t);
                },
                None => {},
            }
            let mut round: u32 = 0;
            let ghost mut rounds: Seq<Seq<i64>> = Seq::empty();
            while round < JITTER_ROUNDS
                invariant
                    p.wf(),
                    n == p.n,
                    n <= 0x1_0000_0000,
                    k >= 2,
                    prev_s@ == previous.1@,
                    prev_s@.len() > 0,
                    room_for_jitter(prev_s@),
                    *seed == Some(*previous),
                    dominated(n as int, carried_over(n as int, k as int, previous.1@)),
                    dominated(
                        n as int,
                        carried_over(
                            n as int,
                            k as int,
                            rescaled(n as int, previous.0 as int, previous.1@),
                        ),
                    ),
                    round > 0 ==> some_shift_dominated(n as int, k as int, previous.1@),
                    round <= JITTER_ROUNDS,
                    rounds_run(previous.1@, *old(rng), rounds, *rng),
                    rounds.len() == round,
                    all_shifts_dominated(n as int, k as int, previous.1@, rounds),
                decreases JITTER_ROUNDS - round,
            {
                let ghost start = *rng;
                let mut draws: Vec<i64> = Vec::new();
                while draws.len() < prev_s.len()
                    invariant
                        draws@.len() <= prev_s@.len(),
                        forall|i: int| 0 <= i < draws@.len() ==> 0 <= #[trigger] draws@[i] < 9,
                        signed_run(start, 0, 9, draws@, *rng),
                    decreases prev_s@.len() - draws@.len(),
                {
                    let ghost mid = *rng;
                    let ghost so_far = draws@;
                    let d: i64 = next_signed(rng, 0, 9);
                    draws.push(d);
                    proof {
                        lemma_signed_push(start, 0, 9, so_far, mid, d, *rng);
                    }
                }
                proof {
                    let tried = rounds.push(draws@);
                    assert(tried.drop_last() =~= rounds);
                    assert(tried.last() == draws@);
                    assert(rounds_run(previous.1@, *old(rng), tried, *rng));
                    rounds = tried;
                }
                let shifted = jitter(n, prev_s, draws.as_slice());
                assert(jitter_draws(previous.1@, draws@));
                match try_pad(p, shifted.as_slice(), k) {
                    Some(t) => {
                        return Some(t);
                    },
                    None => {},
                }
                round = round + 1;
            }
            None
        },
    }
}

/// The remainders are those of the numbers, and the first is that of the first.
proof fn lemma_remainders_members(n: int, raw: Seq<usize>)
    requires
        0 < n <= usize::MAX,
    ensures
        forall|i: int|
            0 <= i < raw.len() ==> remainders(n, raw).contains(
                (#[trigger] raw[i] as int % n) as usize,
            ),
        forall|x: usize| #[trigger]
            remainders(n, raw).contains(x) ==> exists|i: int|
                0 <= i < raw.len() && (#[trigger] raw[i] as int % n) as usize == x,
        raw.len() > 0 ==> remainders(n, raw).len() > 0 && remainders(n, raw)[0] == (raw[0] as int
            % n) as usize,
    decreases raw.len(),
{
    if raw.len() > 0 {
        let rest = raw.drop_last();
        let before = remainders(n, rest);
        let all = remainders(n, raw);
        let v = (raw.last() as int % n) as usize;
        lemma_remainders_members(n, rest);
        assert forall|x: usize| all.contains(x) <==> before.contains(x) || x == v by {
            if all.contains(x) && !before.contains(v) {
                let q = choose|q: int| 0 <= q < all.len() && all[q] == x;
                if q < before.len() {
                    assert(before[q] == x);
                }
            }
            if before.contains(x) {
                let q = choose|q: int| 0 <= q < before.len() && before[q] == x;
                assert(all[q] == x);
            }
            if !before.contains(v) {
                assert(all[before.len() as int] == v);
            }
        }
        assert forall|i: int| 0 <= i < raw.len() implies all.contains(
            (#[trigger] raw[i] as int % n) as usize,
        ) by {
            if i < rest.len() {
                assert(rest[i] == raw[i]);
            }
        }
        assert forall|x: usize| #[trigger] all.contains(x) implies exists|i: int|
            0 <= i < raw.len() && (#[trigger] raw[i] as int % n) as usize == x by {
            if before.contains(x) {
                let i = choose|i: int|
                    0 <= i < rest.len() && (#[trigger] rest[i] as int % n) as usize == x;
                assert(raw[i] == rest[i]);
            } else {
                assert((raw[raw.len() - 1] as int % n) as usize == x);
            }
        }
        if rest.len() > 0 {
            assert(rest[0] == raw[0]);
        }
    }
}

/// What is carried over: the list starts with the remainder of the first
/// number, and where the remainder of some number is missing from it, it holds
/// nothing but remainders.
pub proof fn lemma_carried_members(n: int, k: int, raw: Seq<usize>, i: int)
    requires
        0 < n <= usize::MAX,
        k > 0,
        0 <= i < raw.len(),
    ensures
        carried_over(n, k, raw).len() > 0,
        carried_over(n, k, raw)[0] == raw[0] as int % n,
        carried_over(n, k, raw).contains((raw[i] as int % n) as usize) || forall|j: int|
            0 <= j < carried_over(n, k, raw).len() ==> exists|q: int|
                0 <= q < raw.len() && (#[trigger] raw[q] as int % n) as usize
                    == #[trigger] carried_over(n, k, raw)[j],
{
    let all = remainders(n, raw);
    let s = at_most(all, k);
    let t = carried_over(n, k, raw);
    lemma_remainders(n, raw);
    lemma_remainders_members(n, raw);
    lemma_padded_least(s, 0, n, k);
    lemma_mod_bound(raw[0] as int, n);
    assert(s =~= t.subrange(0, s.len() as int));
    assert(t[0] == s[0]);
    let v = (raw[i] as int % n) as usize;
    if all.len() <= k {
        let q = choose|q: int| 0 <= q < all.len() && all[q] == v;
        assert(t[q] == v);
    } else {
        assert(t =~= s);
        assert forall|j: int| 0 <= j < t.len() implies exists|q: int|
            0 <= q < raw.len() && (#[trigger] raw[q] as int % n) as usize == #[trigger] t[j] by {
            assert(all[j] == t[j]);
            assert(all.contains(t[j]));
        }
    }
}

/// What scaling does: a number below `n_prev` goes to the number below `n`
/// that stands in the same proportion, rounded down.
pub proof fn lemma_rescaled(n: int, n_prev: int, s: Seq<usize>, i: int)
    requires
        0 < n <= usize::MAX,
        0 < n_prev,
        0 <= i < s.len(),
        s[i] < n_prev,
    ensures
        rescaled(n, n_prev, s).len() == s.len(),
        rescaled(n, n_prev, s)[i] < n,
        rescaled(n, n_prev, s)[i] * n_prev <= s[i] * n,
        s[i] * n < (rescaled(n, n_prev, s)[i] + 1) * n_prev,
{
    let v = s[i] as int;
    let q = (v * n) / n_prev;
    lemma_fundamental_div_mod(v * n, n_prev);
    lemma_mod_bound(v * n, n_prev);
    assert(0 <= q < n) by (nonlinear_arith)
        requires
            v * n == n_prev * q + (v * n) % n_prev,
            0 <= (v * n) % n_prev,
            (v * n) % n_prev < n_prev,
            0 <= v < n_prev,
            0 < n,
    ;
    lemma_small_mod(q as nat, n as nat);
    assert(q * n_prev <= v * n && v * n < (q + 1) * n_prev) by (nonlinear_arith)
        requires
            v * n == n_prev * q + (v * n) % n_prev,
            0 <= (v * n) % n_prev,
            (v * n) % n_prev < n_prev,
    ;
}

/// What a shift does: it moves each number by its own offset, from -4 to 4,
/// modulo `n`.
pub proof fn lemma_jittered(n: int, s: Seq<usize>, draws: Seq<i64>, i: int)
    requires
        0 < n <= usize::MAX,
        jitter_draws(s, draws),
        0 <= i < s.len(),
        s[i] <= i64::MAX,
    ensures
        jittered(n, s, draws).len() == s.len(),
        jittered(n, s, draws)[i] < n,
        (jittered(n, s, draws)[i] - (s[i] + draws[i] - 4)) % n == 0,
        -4 <= draws[i] - 4 <= 4,
{
    let w = s[i] as int + (draws[i] - 4);
    lemma_mod_bound(w, n);
    lemma_fundamental_div_mod(w, n);
    let q = w / n;
    assert(w % n - w == n * (-q)) by (nonlinear_arith)
        requires
            w == n * q + w % n,
    ;
    lemma_mod_multiples_basic(-q, n);
    assert((-q) * n == n * (-q)) by (nonlinear_arith);
}

/// Where carrying the seed over comes to nothing, the list as it is and the
/// scaled list have common dominators, and sixteen rounds of offsets, drawn one
/// after the other, have led only to lists that have one too.
pub proof fn lemma_seed_missed(
    n: int,
    k: int,
    n_prev: usize,
    s: Vec<usize>,
    before: Xoshiro256PlusPlus,
    after: Xoshiro256PlusPlus,
)
    requires
        k >= 2,
        s@.len() > 0,
        seeded_outcome(n, k, Some((n_prev, s)), before, None, after),
    ensures
        dominated(n, carried_over(n, k, s@)),
        dominated(n, carried_over(n, k, rescaled(n, n_prev as int, s@))),
        exists|rounds: Seq<Seq<i64>>| #[trigger]
            rounds_run(s@, before, rounds, after) && rounds.len() == 16 && forall|i: int|
                0 <= i < 16 ==> dominated(
                    n,
                    carried_over(n, k, jittered(n, s@, #[trigger] rounds[i])),
                ),
{
    let rounds = choose|rounds: Seq<Seq<i64>>| #[trigger]
        rounds_run(s@, before, rounds, after) && rounds.len() == 16 && all_shifts_dominated(
            n,
            k,
            s@,
            rounds,
        );
    assert(rounds_run(s@, before, rounds, after));
}

} // verus!
