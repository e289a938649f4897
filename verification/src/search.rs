//! The search for the least Paley tournament with S_k: candidate by candidate,
//! first the quick attempts at a counterexample, then the verification.
use crate::bookmark::Bookmark;
use crate::bounds::{lemma_lower_limit, lower_limit};
use crate::enumerate::{
    always_passed, never_down, never_early, seen_late, seen_up, verify, VerifyResult,
};
use crate::outside::{generator_of, seeded_generator};
use crate::paley::{fits, lemma_fits, Paley};
use crate::primes::{checked_next_prime_3mod4, paley_prime};
use crate::sampling::{
    close_pair, earlier_pairs_dominated, local_outcome, local_result, local_witness,
    none_dominated, pair_list, pair_outcome, pair_result, pair_witness, random_outcome,
    random_witness, zero_witness,
};
use crate::seeded::{
    room_for_jitter, seed_dominated, seeded_outcome, seeded_result, seeded_witness,
};
use crate::structural::{
    first_progression, lemma_progressions_need_vertices, progressions_dominated,
    structural_witness,
};
use crate::tournament::{
    counterexample, dominated, increasing, lemma_property_s, property_s, vertices,
};
use rand_xoshiro::Xoshiro256PlusPlus;
use std::sync::atomic::AtomicBool;
use std::time::Instant;
use vstd::prelude::*;

verus! {

/// The step of the search that refutes a candidate.
#[derive(Clone, Copy, Debug, PartialEq, Eq, Structural)]
pub enum Stage {
    /// The counterexample of an earlier candidate, carried over.
    Seeded,
    /// Arithmetic and geometric progressions.
    Progression,
    /// Extensions of close pairs.
    Pair,
    /// Random lists.
    Random,
    /// Local search.
    Local,
    /// The verification.
    Verify,
}

impl Stage {
    /// The place of the step in the search.
    pub open spec fn rank(self) -> int {
        match self {
            Stage::Seeded => 0,
            Stage::Progression => 1,
            Stage::Pair => 2,
            Stage::Random => 3,
            Stage::Local => 4,
            Stage::Verify => 5,
        }
    }

    /// The word for the step.
    pub open spec fn word(self) -> Seq<char> {
        match self {
            Stage::Seeded => "seeded"@,
            Stage::Progression => "structural"@,
            Stage::Pair => "pair"@,
            Stage::Random => "random"@,
            Stage::Local => "local"@,
            Stage::Verify => "verify"@,
        }
    }

    /// The word for the step.
    pub fn name(&self) -> (s: &'static str)
        ensures
            s@ == self.word(),
    {
        match self {
            Stage::Seeded => "seeded",
            Stage::Progression => "structural",
            Stage::Pair => "pair",
            Stage::Random => "random",
            Stage::Local => "local",
            Stage::Verify => "verify",
        }
    }
}

/// The restarts of the local search.
pub const LOCAL_RESTARTS: u32 = 1000;

/// The swaps of the local search after each restart.
pub const LOCAL_SWAPS: u32 = 100;

/// The seed of the generator that a search draws from.
pub const GENERATOR_SEED: u64 = 0xC0_FF_EE;

/// A counterexample of an earlier candidate, if there is one, can be carried
/// over.
pub open spec fn usable(seed: Option<(usize, Vec<usize>)>) -> bool {
    seed matches Some(previous) ==> previous.0 > 0 && room_for_jitter(previous.1@)
}

/// The steps before `stage` have found nothing where they are sure to find
/// something: the carried lists, the progressions and the close pairs have
/// common dominators, and so has some list of `k` vertices.
pub open spec fn survives(
    n: int,
    k: int,
    seed: Option<(usize, Vec<usize>)>,
    sample_budget: int,
    stage: Stage,
) -> bool {
    &&& stage.rank() > 0 ==> (seed matches Some(previous) ==> previous.1@.len() > 0
        ==> seed_dominated(n, k, previous.0 as int, previous.1@))
    &&& stage.rank() > 1 ==> progressions_dominated(n, k)
    &&& stage.rank() > 2 && k >= 4 ==> forall|a: int, b: int| #[trigger]
        close_pair(n, a, b) ==> dominated(n, pair_list(a, b))
    &&& stage.rank() > 3 && sample_budget > 0 ==> !none_dominated(n, k)
    &&& stage.rank() > 4 ==> !none_dominated(n, k)
}

/// The list is one that the step comes up with.
pub open spec fn comes_from(
    n: int,
    k: int,
    seed: Option<(usize, Vec<usize>)>,
    sample_budget: int,
    stage: Stage,
    s: Seq<usize>,
) -> bool {
    match stage {
        Stage::Seeded => seed matches Some(previous) && previous.1@.len() > 0 && seeded_result(
            n,
            k,
            previous.0 as int,
            previous.1@,
            s,
        ),
        Stage::Progression => first_progression(n, k, s),
        Stage::Pair => k >= 4 && exists|a: int, b: int| #[trigger]
            close_pair(n, a, b) && earlier_pairs_dominated(n, a, b) && pair_result(n, k, a, b, s),
        Stage::Random => sample_budget > 0 && zero_witness(n, k, s),
        Stage::Local => zero_witness(n, k, s) && local_result(n, k, LOCAL_SWAPS as int, s),
        Stage::Verify => vertices(n, s) && s.len() == k,
    }
}

/// The sweep over the close pairs, which lists of fewer than four vertices are
/// spared, comes to nothing.
pub open spec fn pairs_miss(
    n: int,
    k: int,
    before: Xoshiro256PlusPlus,
    after: Xoshiro256PlusPlus,
) -> bool {
    if k >= 4 {
        pair_outcome(n, k, before, None, after)
    } else {
        before == after
    }
}

/// The attempts before the random lists have come to nothing.
pub open spec fn before_random(
    n: int,
    k: int,
    seed: Option<(usize, Vec<usize>)>,
    before: Xoshiro256PlusPlus,
    after: Xoshiro256PlusPlus,
) -> bool {
    exists|mid: Xoshiro256PlusPlus| #[trigger]
        seeded_outcome(n, k, seed, before, None, mid) && pairs_miss(n, k, mid, after)
}

/// The attempts before the local search have come to nothing.
pub open spec fn before_local(
    n: int,
    k: int,
    seed: Option<(usize, Vec<usize>)>,
    sample_budget: int,
    before: Xoshiro256PlusPlus,
    after: Xoshiro256PlusPlus,
) -> bool {
    exists|mid: Xoshiro256PlusPlus| #[trigger]
        before_random(n, k, seed, before, mid) && random_outcome(
            n,
            k,
            sample_budget,
            mid,
            None,
            after,
        )
}

/// All quick attempts have come to nothing, each made in full and in its turn:
/// all random lists of the budget, and a thousand restarts of the local search
/// with a hundred swaps each.
pub open spec fn before_verify(
    n: int,
    k: int,
    seed: Option<(usize, Vec<usize>)>,
    sample_budget: int,
    before: Xoshiro256PlusPlus,
    after: Xoshiro256PlusPlus,
) -> bool {
    exists|mid: Xoshiro256PlusPlus| #[trigger]
        before_local(n, k, seed, sample_budget, before, mid) && local_outcome(
            n,
            k,
            1000,
            100,
            mid,
            None,
            after,
        )
}

/// The attempts before `stage` have come to nothing, and that one to `s`.
pub open spec fn succeeds_at(
    n: int,
    k: int,
    seed: Option<(usize, Vec<usize>)>,
    sample_budget: int,
    stage: Stage,
    before: Xoshiro256PlusPlus,
    s: Seq<usize>,
    after: Xoshiro256PlusPlus,
) -> bool {
    match stage {
        Stage::Seeded => seeded_outcome(n, k, seed, before, Some(s), after),
        Stage::Progression => seeded_outcome(n, k, seed, before, None, after),
        Stage::Pair => exists|mid: Xoshiro256PlusPlus| #[trigger]
            seeded_outcome(n, k, seed, before, None, mid) && pair_outcome(
                n,
                k,
                mid,
                Some(s),
                after,
            ),
        Stage::Random => exists|mid: Xoshiro256PlusPlus| #[trigger]
            before_random(n, k, seed, before, mid) && random_outcome(
                n,
                k,
                sample_budget,
                mid,
                Some(s),
                after,
            ),
        Stage::Local => exists|mid: Xoshiro256PlusPlus| #[trigger]
            before_local(n, k, seed, sample_budget, before, mid) && local_outcome(
                n,
                k,
                1000,
                100,
                mid,
                Some(s),
                after,
            ),
        Stage::Verify => false,
    }
}

/// Makes the quick attempts at a counterexample, one after the other, and
/// tells which one succeeds.
pub fn falsify(
    p: &Paley,
    rng: &mut Xoshiro256PlusPlus,
    k: usize,
    seed: &Option<(usize, Vec<usize>)>,
    sample_budget: u64,
) -> (r: Option<(Stage, Vec<usize>)>)
    requires
        p.wf(),
        usable(*seed),
    ensures
        match r {
            Some((stage, s)) => {
                &&& k >= 2
                &&& stage != Stage::Verify
                &&& counterexample(p.n as int, k as int, s@)
                &&& survives(p.n as int, k as int, *seed, sample_budget as int, stage)
                &&& comes_from(p.n as int, k as int, *seed, sample_budget as int, stage, s@)
            },
            None => k < 2 || survives(
                p.n as int,
                k as int,
                *seed,
                sample_budget as int,
                Stage::Verify,
            ) && k < p.n,
        },
        k < 2 ==> *final(rng) == *old(rng),
        k >= 2 && r is Some ==> succeeds_at(
            p.n as int,
            k as int,
            *seed,
            sample_budget as int,
            r.unwrap().0,
            *old(rng),
            r.unwrap().1@,
            *final(rng),
        ),
        k >= 2 && r is None ==> before_verify(
            p.n as int,
            k as int,
            *seed,
            sample_budget as int,
            *old(rng),
            *final(rng),
        ),
{
    if k < 2 {
        return None;
    }
    let ghost g0 = *rng;
    match seeded_witness(p, rng, k, seed) {
        Some(s) => {
            return Some((Stage::Seeded, s));
        },
        None => {},
    }
    let ghost g1 = *rng;
    match structural_witness(p, k) {
        Some(s) => {
            return Some((Stage::Progression, s));
        },
        None => {},
    }
    let ghost n = p.n as int;
    proof {
        lemma_progressions_need_vertices(p.n as int, k as int);
        assert(seeded_outcome(n, k as int, *seed, g0, None, g1));
    }
    if k >= 4 {
        match pair_witness(p, rng, k) {
            Some(s) => {
                return Some((Stage::Pair, s));
            },
            None => {},
        }
    }
    let ghost g2 = *rng;
    assert(pairs_miss(n, k as int, g1, g2));
    assert(before_random(n, k as int, *seed, g0, g2));
    match random_witness(p, rng, k, sample_budget) {
        Some(s) => {
            return Some((Stage::Random, s));
        },
        None => {},
    }
    let ghost g3 = *rng;
    assert(before_local(n, k as int, *seed, sample_budget as int, g0, g3));
    match local_witness(p, rng, k, LOCAL_RESTARTS, LOCAL_SWAPS) {
        Some(s) => Some((Stage::Local, s)),
        None => None,
    }
}

/// A search under way.
pub struct Search {
    /// The index of the property.
    pub k: usize,
    /// The number below which the search stays.
    pub hi: usize,
    /// The number of random lists that are tried on each candidate.
    pub sample_budget: u64,
    /// The source of random numbers.
    pub rng: Xoshiro256PlusPlus,
    /// The latest counterexample that is worth carrying over, with the
    /// candidate that it refutes.
    pub seed: Option<(usize, Vec<usize>)>,
    /// The number at which the search started.
    pub start: usize,
    /// The candidate that comes next, if a machine word can hold one.
    pub next: Option<usize>,
    /// The candidates whose verification ran out of time, in increasing order.
    pub stalled: Vec<usize>,
}

/// How a search opens.
pub enum Opening {
    /// Every tournament has S_0, the one on a single vertex too.
    Trivial,
    /// An earlier search has ended with this number.
    Recorded(usize),
    /// There is something to search.
    Search(Search),
}

/// What a search answers.
#[derive(Clone, Copy, Debug, PartialEq, Eq, Structural)]
pub enum Answer {
    /// This number of vertices passed.
    Found(usize),
    /// No number passed, and this is the first that ran out of time.
    TimeoutCandidate(usize),
    /// There is none in the range, or an interrupt came.
    Nothing,
}

/// What a search has to do next.
#[derive(Clone, Copy, Debug, PartialEq, Eq, Structural)]
pub enum Action {
    /// The interrupt stops it at this candidate, whose bookmark is not written.
    Stop(usize),
    /// It leaves a bookmark at the first number and goes on to try the second.
    Try(usize, usize),
    /// It ends with this answer.
    End(Answer),
}

impl Opening {
    /// The answer that is known before anything is searched.
    pub fn answer(&self) -> (r: Option<Answer>)
        ensures
            r == match self {
                Opening::Trivial => Some(Answer::Found(1)),
                Opening::Recorded(n) => Some(Answer::Found(*n)),
                Opening::Search(_) => None,
            },
    {
        match self {
            Opening::Trivial => Some(Answer::Found(1)),
            Opening::Recorded(n) => Some(Answer::Found(*n)),
            Opening::Search(_) => None,
        }
    }
}

/// The number at which a search from `lo` starts when an earlier one has left
/// the bookmark.
pub open spec fn resumed(lo: usize, bookmark: Bookmark) -> usize {
    match bookmark {
        Bookmark::Pending(saved) => if saved > lo {
            saved
        } else {
            lo
        },
        _ => lo,
    }
}

/// `next` is the least candidate from `n` on, if a machine word can hold one.
pub open spec fn least_candidate(n: int, next: Option<usize>) -> bool {
    match next {
        Some(m) => n <= m && paley_prime(m as int) && forall|q: int|
            n <= q < m ==> !#[trigger] paley_prime(q),
        None => forall|q: int| n <= q <= usize::MAX ==> !#[trigger] paley_prime(q),
    }
}

/// No tournament on `from` to `to - 1` vertices has S_k, but for those of the
/// list.
pub open spec fn none_has(k: int, from: int, to: int, but: Seq<usize>) -> bool {
    forall|q: int|
        from <= q < to && #[trigger] paley_prime(q) && property_s(q, k) ==> but.contains(
            q as usize,
        )
}

impl Search {
    /// The number before which everything is settled or stalled.
    pub open spec fn frontier(&self) -> int {
        match self.next {
            Some(n) => n as int,
            None => usize::MAX + 1,
        }
    }

    /// The first candidate that is not settled.
    pub open spec fn first_unsettled(&self) -> int {
        if self.stalled@.len() > 0 {
            self.stalled@[0] as int
        } else {
            self.frontier()
        }
    }

    /// The search has missed nothing.
    pub open spec fn wf(&self) -> bool {
        &&& self.k > 0
        &&& usable(self.seed)
        &&& self.next matches Some(n) ==> self.start <= n && paley_prime(n as int)
        &&& increasing(self.stalled@)
        &&& forall|i: int|
            0 <= i < self.stalled@.len() ==> self.start <= #[trigger] self.stalled@[i]
                < self.frontier() && self.stalled@[i] < self.hi && paley_prime(
                self.stalled@[i] as int,
            )
        &&& none_has(self.k as int, self.start as int, self.frontier(), self.stalled@)
    }

    /// `n` is the candidate at hand.
    pub open spec fn at(&self, n: int) -> bool {
        self.next == Some(n as usize) && 0 <= n < self.hi
    }

    /// The search has the same aim as another one, and the same start.
    pub open spec fn continues(&self, other: Search) -> bool {
        &&& self.k == other.k
        &&& self.hi == other.hi
        &&& self.sample_budget == other.sample_budget
        &&& self.start == other.start
    }

    /// Opens the search for the least tournament on at least `lo` and fewer
    /// than `hi` vertices with S_k.
    pub fn begin(
        k: usize,
        lo: usize,
        hi: usize,
        sample_budget: u64,
        bookmark: Bookmark,
    ) -> (r: Opening)
        ensures
            match r {
                Opening::Trivial => k == 0,
                Opening::Recorded(n) => k > 0 && bookmark == Bookmark::Done(n),
                Opening::Search(search) => {
                    &&& k > 0
                    &&& !(bookmark is Done)
                    &&& search.wf()
                    &&& search.k == k
                    &&& search.hi == hi
                    &&& search.sample_budget == sample_budget
                    &&& search.rng == generator_of(GENERATOR_SEED)
                    &&& search.seed is None
                    &&& search.start == resumed(lo, bookmark)
                    &&& least_candidate(search.start as int, search.next)
                    &&& search.stalled@.len() == 0
                },
            },
    {
        if k == 0 {
            return Opening::Trivial;
        }
        let start: usize = match bookmark {
            Bookmark::Done(n) => {
                return Opening::Recorded(n);
            },
            Bookmark::Pending(saved) => if saved > lo {
                saved
            } else {
                lo
            },
            Bookmark::Empty => lo,
        };
        Opening::Search(
            Search {
                k,
                hi,
                sample_budget,
                rng: seeded_generator(GENERATOR_SEED),
                seed: None,
                start,
                next: checked_next_prime_3mod4(start),
                stalled: Vec::new(),
            },
        )
    }

    /// The candidate at hand, if any is left.
    pub fn candidate(&self) -> (r: Option<usize>)
        ensures
            match r {
                Some(n) => self.at(n as int),
                None => self.frontier() >= self.hi,
            },
    {
        match self.next {
            Some(n) => if n < self.hi {
                Some(n)
            } else {
                None
            },
            None => None,
        }
    }

    /// The number to leave in the bookmark: the first candidate that is not
    /// settled.  A search that resumes there misses nothing.
    pub fn bookmark(&self) -> (r: Option<usize>)
        requires
            self.wf(),
        ensures
            match r {
                Some(n) => {
                    &&& n == self.first_unsettled()
                    &&& n < self.hi
                    &&& none_has(self.k as int, self.start as int, n as int, Seq::empty())
                },
                None => self.stalled@.len() == 0 && self.frontier() >= self.hi && none_has(
                    self.k as int,
                    self.start as int,
                    self.hi as int,
                    Seq::empty(),
                ),
            },
    {
        proof {
            lemma_first_unsettled(*self);
        }
        if self.stalled.len() > 0 {
            Some(self.stalled[0])
        } else {
            self.candidate()
        }
    }

    /// What to do next, given whether an interrupt has come: it stops the search
    /// while a candidate is left, before the bookmark is written.
    pub fn next_action(&self, interrupted_up: bool) -> (a: Action)
        requires
            self.wf(),
        ensures
            match a {
                Action::Stop(n) => interrupted_up && self.at(n as int),
                Action::Try(first, n) => !interrupted_up && self.at(n as int) && first
                    == self.first_unsettled(),
                Action::End(answer) => self.frontier() >= self.hi && answer == if self.stalled@.len()
                    > 0 {
                    Answer::TimeoutCandidate(self.stalled@[0])
                } else {
                    Answer::Nothing
                },
            },
    {
        match self.candidate() {
            Some(n) => {
                if interrupted_up {
                    return Action::Stop(n);
                }
                match self.bookmark() {
                    Some(first) => Action::Try(first, n),
                    None => Action::Try(n, n),
                }
            },
            None => match self.bookmark() {
                Some(first) => Action::End(Answer::TimeoutCandidate(first)),
                None => Action::End(Answer::Nothing),
            },
        }
    }

    /// The answer that the result for candidate `n` gives, if the search ends
    /// with it.
    pub fn answer(&self, n: usize, r: &VerifyResult) -> (a: Option<Answer>)
        ensures
            a == match r {
                VerifyResult::Pass => Some(Answer::Found(n)),
                VerifyResult::Interrupted => Some(Answer::Nothing),
                _ => None,
            },
    {
        match r {
            VerifyResult::Pass => Some(Answer::Found(n)),
            VerifyResult::Interrupted => Some(Answer::Nothing),
            VerifyResult::Fail(_) => None,
            VerifyResult::Timeout => None,
        }
    }

    /// The bookmark to leave once candidate `n` has passed: the search is done,
    /// unless an earlier candidate ran out of time and is to be verified again.
    pub fn closing_bookmark(&self, n: usize) -> (b: Bookmark)
        ensures
            b == if self.stalled@.len() == 0 {
                Bookmark::Done(n)
            } else {
                Bookmark::Pending(self.stalled@[0])
            },
            self.wf() && self.at(n as int) && b is Done ==> none_has(
                self.k as int,
                self.start as int,
                n as int,
                Seq::empty(),
            ),
    {
        assert(self.stalled@.len() == 0 ==> self.stalled@ =~= Seq::empty());
        if self.stalled.len() == 0 {
            Bookmark::Done(n)
        } else {
            Bookmark::Pending(self.stalled[0])
        }
    }

    /// Moves on to the next candidate.
    fn advance(&mut self, n: usize)
        requires
            old(self).at(n as int),
            old(self).next matches Some(m) && old(self).start <= m && paley_prime(m as int),
        ensures
            *final(self) == (Search { next: final(self).next, ..*old(self) }),
            least_candidate(n + 1, final(self).next),
            final(self).next matches Some(m) ==> old(self).start <= m,
    {
        self.next = if n > usize::MAX - 4 {
            None
        } else {
            checked_next_prime_3mod4(n + 4)
        };
        proof {
            assert forall|q: int| n < q < n + 4 implies !#[trigger] paley_prime(q) by {
                assert(q % 4 != 3);
            }
        }
    }

    /// A counterexample settles the candidate at hand.
    proof fn lemma_settled(self, n: int, s: Seq<usize>, after: Search)
        requires
            self.wf(),
            self.at(n),
            counterexample(n, self.k as int, s),
            least_candidate(n + 1, after.next),
            after.k == self.k,
            after.start == self.start,
            after.stalled@ == self.stalled@,
        ensures
            none_has(after.k as int, after.start as int, after.frontier(), after.stalled@),
    {
        assert forall|q: int|
            after.start <= q < after.frontier() && #[trigger] paley_prime(q) && property_s(
                q,
                after.k as int,
            ) implies after.stalled@.contains(q as usize) by {
            if q == n {
                assert(dominated(n, s));
            }
            assert(q < n);
        }
    }

    /// Makes the quick attempts on the candidate at hand; where one succeeds,
    /// the search moves on.
    pub fn falsify(&mut self, p: &Paley) -> (r: Option<(Stage, Vec<usize>)>)
        requires
            old(self).wf(),
            old(self).at(p.n as int),
            p.wf(),
        ensures
            final(self).wf(),
            final(self).continues(*old(self)),
            final(self).stalled@ == old(self).stalled@,
            match r {
                Some((stage, s)) => {
                    &&& old(self).k >= 2
                    &&& stage != Stage::Verify
                    &&& counterexample(p.n as int, old(self).k as int, s@)
                    &&& survives(
                        p.n as int,
                        old(self).k as int,
                        old(self).seed,
                        old(self).sample_budget as int,
                        stage,
                    )
                    &&& comes_from(
                        p.n as int,
                        old(self).k as int,
                        old(self).seed,
                        old(self).sample_budget as int,
                        stage,
                        s@,
                    )
                    &&& succeeds_at(
                        p.n as int,
                        old(self).k as int,
                        old(self).seed,
                        old(self).sample_budget as int,
                        stage,
                        old(self).rng,
                        s@,
                        final(self).rng,
                    )
                    &&& least_candidate(p.n + 1, final(self).next)
                    &&& if stage == Stage::Seeded {
                        final(self).seed matches Some(kept) && kept.0 == p.n && kept.1@ == s@
                    } else {
                        final(self).seed == old(self).seed
                    }
                },
                None => {
                    &&& final(self).next == old(self).next
                    &&& final(self).seed == old(self).seed
                    &&& old(self).k <= p.n
                    &&& old(self).k < 2 || survives(
                        p.n as int,
                        old(self).k as int,
                        old(self).seed,
                        old(self).sample_budget as int,
                        Stage::Verify,
                    ) && before_verify(
                        p.n as int,
                        old(self).k as int,
                        old(self).seed,
                        old(self).sample_budget as int,
                        old(self).rng,
                        final(self).rng,
                    )
                    &&& old(self).k < 2 ==> final(self).rng == old(self).rng
                },
            },
    {
        let found = falsify(p, &mut self.rng, self.k, &self.seed, self.sample_budget);
        match found {
            Some((stage, s)) => {
                self.advance(p.n);
                match stage {
                    Stage::Seeded => {
                        self.seed = Some((p.n, s.clone()));
                        proof {
                            lemma_fits(p.n as int);
                        }
                    },
                    _ => {},
                }
                proof {
                    (*old(self)).lemma_settled(p.n as int, s@, *self);
                }
                Some((stage, s))
            },
            None => None,
        }
    }

    /// Verifies the candidate at hand, which has stood the quick attempts, and
    /// takes the result in.
    pub fn check(
        &mut self,
        p: &Paley,
        deadline: Option<Instant>,
        interrupted: Option<&AtomicBool>,
    ) -> (r: VerifyResult)
        requires
            old(self).wf(),
            old(self).at(p.n as int),
            p.wf(),
            old(self).k <= p.n,
        ensures
            old(self).verdict(p.n as int, r),
            final(self).takes_in(*old(self), p.n as int, r),
            r matches VerifyResult::Fail(s) ==> s@[0] == 0 && increasing(s@),
            r matches VerifyResult::Fail(s) ==> (final(self).seed matches Some(kept) && kept.0
                == p.n && kept.1@ == s@),
            r is Timeout ==> final(self).stalled@ == old(self).stalled@.push(p.n),
            r is Pass || r is Interrupted ==> final(self).next == old(self).next,
            r is Fail || r is Timeout ==> final(self).frontier() > p.n,
            r is Timeout ==> deadline is Some && seen_late(deadline),
            r is Interrupted ==> interrupted is Some && seen_up(interrupted),
            deadline is None && interrupted is None ==> r is Fail || r is Pass,
            always_passed(deadline) && old(self).k > 2 ==> r is Timeout || r is Interrupted,
            never_early(deadline) && old(self).k > 2 ==> r is Timeout || r is Interrupted,
            never_down(interrupted) && old(self).k > 2 ==> r is Interrupted,
            !seen_up(interrupted) && !seen_late(deadline) ==> (r is Fail || r is Pass) && (r is Pass
                <==> property_s(p.n as int, old(self).k as int)),
    {
        let r = verify(p, self.k, deadline, interrupted);
        proof {
            lemma_fits(p.n as int);
            lemma_property_s(p.n as int, self.k as int);
        }
        self.conclude(p.n, &r);
        r
    }

    /// The result is true of the tournament on `n` vertices.
    pub open spec fn verdict(&self, n: int, r: VerifyResult) -> bool {
        match r {
            VerifyResult::Fail(s) => counterexample(n, self.k as int, s@) && s@.len() == self.k,
            VerifyResult::Pass => property_s(n, self.k as int),
            VerifyResult::Timeout => true,
            VerifyResult::Interrupted => true,
        }
    }

    /// The search after it has taken in a result for candidate `n`: it moves
    /// on past a candidate that fails, whose counterexample it keeps, and past
    /// one that runs out of time, which it notes down; otherwise it stays.
    pub open spec fn takes_in(&self, before: Search, n: int, r: VerifyResult) -> bool {
        &&& self.wf()
        &&& self.continues(before)
        &&& self.rng == before.rng
        &&& match r {
            VerifyResult::Fail(s) => {
                &&& least_candidate(n + 1, self.next)
                &&& self.seed matches Some(kept) && kept.0 == n && kept.1@ == s@
                &&& self.stalled@ == before.stalled@
            },
            VerifyResult::Timeout => {
                &&& least_candidate(n + 1, self.next)
                &&& self.seed == before.seed
                &&& self.stalled@ == before.stalled@.push(n as usize)
            },
            _ => {
                &&& self.next == before.next
                &&& self.seed == before.seed
                &&& self.stalled@ == before.stalled@
            },
        }
    }

    /// Takes in the result of a verification of the candidate at hand.
    pub fn conclude(&mut self, n: usize, r: &VerifyResult)
        requires
            old(self).wf(),
            old(self).at(n as int),
            old(self).verdict(n as int, *r),
            fits(n as int),
        ensures
            final(self).takes_in(*old(self), n as int, *r),
    {
        match r {
            VerifyResult::Fail(s) => {
                self.advance(n);
                self.seed = Some((n, s.clone()));
                proof {
                    lemma_fits(n as int);
                    (*old(self)).lemma_settled(n as int, s@, *self);
                }
            },
            VerifyResult::Timeout => {
                self.advance(n);
                self.stalled.push(n);
                proof {
                    let stalled = old(self).stalled@.push(n);
                    assert forall|q: int|
                        self.start <= q < self.frontier() && #[trigger] paley_prime(q)
                            && property_s(q, self.k as int) implies stalled.contains(
                        q as usize,
                    ) by {
                        if q == n {
                            assert(stalled[stalled.len() - 1] == q as usize);
                        } else {
                            assert(q < n);
                            assert(old(self).stalled@.contains(q as usize));
                            let i = choose|i: int|
                                0 <= i < old(self).stalled@.len() && old(self).stalled@[i]
                                    == q as usize;
                            assert(stalled[i] == q as usize);
                        }
                    }
                }
            },
            VerifyResult::Pass => {},
            VerifyResult::Interrupted => {},
        }
    }
}

/// No tournament from the start to the first candidate that is not settled has
/// S_k.
pub proof fn lemma_first_unsettled(search: Search)
    requires
        search.wf(),
    ensures
        none_has(
            search.k as int,
            search.start as int,
            search.first_unsettled(),
            Seq::empty(),
        ),
{
    let stalled = search.stalled@;
    assert forall|q: int|
        search.start <= q < search.first_unsettled() && #[trigger] paley_prime(q) && property_s(
            q,
            search.k as int,
        ) implies Seq::<usize>::empty().contains(q as usize) by {
        if stalled.len() > 0 {
            assert(q < search.frontier());
        }
        assert(stalled.contains(q as usize));
        let i = choose|i: int| 0 <= i < stalled.len() && stalled[i] == q as usize;
        assert(stalled[0] <= stalled[i]);
    }
}

/// A search goes on where a bookmark says, unless it was to start later than
/// that; without one it starts where it was to start.
pub proof fn lemma_resumed(lo: usize, saved: usize)
    ensures
        resumed(lo, Bookmark::Empty) == lo,
        resumed(lo, Bookmark::Pending(saved)) >= saved,
        resumed(lo, Bookmark::Pending(saved)) >= lo,
        resumed(lo, Bookmark::Pending(saved)) == saved || resumed(lo, Bookmark::Pending(saved))
            == lo,
{
}

/// A search that an earlier one's bookmark starts leaves nothing out: between
/// the start of the earlier search and the candidate at hand no tournament has
/// S_k, unless the later search has noted it down.
pub proof fn lemma_resume(earlier: Search, later: Search, n: int)
    requires
        earlier.wf(),
        later.wf(),
        later.k == earlier.k,
        earlier.first_unsettled() <= usize::MAX,
        later.start == resumed(
            earlier.start,
            Bookmark::Pending(earlier.first_unsettled() as usize),
        ),
        later.at(n),
    ensures
        none_has(later.k as int, earlier.start as int, n, later.stalled@),
{
    lemma_first_unsettled(earlier);
    assert forall|q: int|
        earlier.start <= q < n && #[trigger] paley_prime(q) && property_s(
            q,
            later.k as int,
        ) implies later.stalled@.contains(q as usize) by {
        if q < later.start {
            assert(Seq::<usize>::empty().contains(q as usize));
        }
    }
}

/// A search that starts at the lower limit, or below it, and leaves no
/// tournament out comes to the least of all that have S_k.
pub proof fn lemma_least(k: nat, lo: int, n: int)
    requires
        lo <= lower_limit(k as int),
        n <= usize::MAX + 1,
        none_has(k as int, lo, n, Seq::empty()),
    ensures
        forall|q: int| q < n && #[trigger] paley_prime(q) ==> !property_s(q, k as int),
{
    assert forall|q: int| q < n && #[trigger] paley_prime(q) implies !property_s(q, k as int) by {
        if q < lo {
            lemma_lower_limit(q, k);
        } else if property_s(q, k as int) {
            assert(Seq::<usize>::empty().contains(q as usize));
        }
    }
}

/// What a search that runs to its end comes to.
#[derive(Clone, Copy, Debug, PartialEq, Eq, Structural)]
pub enum Smallest {
    /// The least number of vertices.
    Found(usize),
    /// No tournament of the range has the property.
    Nothing,
    /// The search has come to a tournament that is too large for its tables.
    TooLarge(usize),
}

/// The least number of vertices, from `lo` on and below `hi`, of a Paley
/// tournament with S_k, where neither a deadline nor an interrupt cuts the
/// search short.  The random lists that are tried on the way, `sample_budget`
/// of them on each candidate, change nothing in the result.
pub fn find_smallest_sk(k: usize, lo: usize, hi: usize, sample_budget: u64) -> (r: Smallest)
    ensures
        k == 0 ==> r == Smallest::Found(1),
        k > 0 ==> match r {
            Smallest::Found(n) => {
                &&& lo <= n < hi
                &&& paley_prime(n as int)
                &&& property_s(n as int, k as int)
                &&& none_has(k as int, lo as int, n as int, Seq::empty())
            },
            Smallest::Nothing => none_has(k as int, lo as int, hi as int, Seq::empty()),
            Smallest::TooLarge(n) => {
                &&& lo <= n < hi
                &&& paley_prime(n as int)
                &&& !fits(n as int)
                &&& none_has(k as int, lo as int, n as int, Seq::empty())
            },
        },
{
    let mut search: Search = match Search::begin(k, lo, hi, sample_budget, Bookmark::Empty) {
        Opening::Search(search) => search,
        _ => {
            return Smallest::Found(1);
        },
    };
    loop
        invariant
            k > 0,
            search.wf(),
            search.k == k,
            search.hi == hi,
            search.start == lo,
            search.stalled@.len() == 0,
        decreases usize::MAX + 1 - search.frontier(),
    {
        assert(search.stalled@ =~= Seq::empty());
        let n: usize = match search.candidate() {
            Some(n) => n,
            None => {
                return Smallest::Nothing;
            },
        };
        let p: Paley = match Paley::checked_new(n) {
            Some(p) => p,
            None => {
                return Smallest::TooLarge(n);
            },
        };
        if search.falsify(&p).is_some() {
            continue;
        }
        match search.check(&p, None, None) {
            VerifyResult::Pass => {
                return Smallest::Found(n);
            },
            _ => {},
        }
    }
}

/// Where all quick attempts come to nothing, each was made in full, one after
/// the other: the seed was carried over, the close pairs were swept (for lists
/// of at least four vertices), the random lists of the budget were tried, and a
/// local search of 1000 restarts with 100 swaps each was made.
pub proof fn lemma_attempts(
    n: int,
    k: int,
    seed: Option<(usize, Vec<usize>)>,
    sample_budget: int,
    before: Xoshiro256PlusPlus,
    after: Xoshiro256PlusPlus,
)
    requires
        before_verify(n, k, seed, sample_budget, before, after),
    ensures
        exists|
            g: Xoshiro256PlusPlus,
            h: Xoshiro256PlusPlus,
            i: Xoshiro256PlusPlus,
        |
            #![trigger seeded_outcome(n, k, seed, before, None, g), random_outcome(n, k, sample_budget, h, None, i)]
            {
                &&& seeded_outcome(n, k, seed, before, None, g)
                &&& k >= 4 ==> pair_outcome(n, k, g, None, h)
                &&& k < 4 ==> g == h
                &&& random_outcome(n, k, sample_budget, h, None, i)
                &&& local_outcome(n, k, 1000, 100, i, None, after)
            },
{
    let i = choose|i: Xoshiro256PlusPlus| #[trigger]
        before_local(n, k, seed, sample_budget, before, i) && local_outcome(
            n,
            k,
            1000,
            100,
            i,
            None,
            after,
        );
    let h = choose|h: Xoshiro256PlusPlus| #[trigger]
        before_random(n, k, seed, before, h) && random_outcome(
            n,
            k,
            sample_budget,
            h,
            None,
            i,
        );
    let g = choose|g: Xoshiro256PlusPlus| #[trigger]
        seeded_outcome(n, k, seed, before, None, g) && pairs_miss(n, k, g, h);
    assert(seeded_outcome(n, k, seed, before, None, g));
    assert(random_outcome(n, k, sample_budget, h, None, i));
}

} // verus!
