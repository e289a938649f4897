//! The Paley tournament as tables that a search can use.
use crate::bitset::{
    lemma_and_bit, lemma_low_mask_bit, lemma_or_bit, lemma_shl_bit, lemma_shr_bit, lemma_zero_word,
    member, BitSet,
};
use crate::modular::{inverse, mod_pow};
use crate::primes::{is_prime, paley_prime};
use crate::residues::{
    lemma_minus_one_not_residue, lemma_residue_cong, lemma_residue_dichotomy,
    lemma_zero_not_residue, residue, square_mod,
};
use crate::tournament::{
    dominates, dominators, increasing, lemma_narrowed_part, lemma_narrowed_push, narrowed,
};
use vstd::arithmetic::div_mod::*;
use vstd::prelude::*;

verus! {

/// The Paley tournament on `n` vertices.
pub struct Paley {
    /// The number of vertices, a prime of the form `4m + 3`.
    pub n: usize,
    /// The number of words in a set of vertices.
    pub nwords: usize,
    /// The dominators of each vertex.
    pub nb: Vec<BitSet>,
    /// Whether each number below `n` is a residue.
    pub qr: Vec<bool>,
    /// The nonresidues from 1 on, in increasing order.
    pub nrs: Vec<usize>,
    /// The inverse of each residue, and 0 for the other numbers.
    pub qr_inv: Vec<usize>,
}

/// The number of vertices is small enough that no product of two vertices
/// overflows.
pub open spec fn fits(n: int) -> bool {
    (n - 1) * (n - 1) <= usize::MAX
}

impl Paley {
    /// The tables hold what their names say.
    pub open spec fn wf(&self) -> bool {
        let n = self.n as int;
        &&& paley_prime(n)
        &&& fits(n)
        &&& self.nwords == (n + 63) / 64
        &&& self.nb@.len() == n
        &&& forall|v: int|
            0 <= v < n ==> (#[trigger] self.nb@[v]).words@.len() == self.nwords
        &&& forall|v: int| 0 <= v < n ==> (#[trigger] self.nb@[v])@ == dominators(n, v)
        &&& self.qr@.len() == n
        &&& forall|a: int| 0 <= a < n ==> #[trigger] self.qr@[a] == residue(n, a)
        &&& nonresidue_list(n, self.nrs@)
        &&& self.qr_inv@.len() == n
        &&& forall|q: int|
            0 <= q < n ==> #[trigger] self.qr_inv@[q] == if residue(n, q) {
                inverse(n, q)
            } else {
                0
            }
    }
}

/// The list of the nonresidues from 1 on.
pub open spec fn nonresidue_list(n: int, nrs: Seq<usize>) -> bool {
    &&& increasing(nrs)
    &&& forall|j: usize| #[trigger] nrs.contains(j) <==> 1 <= j < n && !residue(n, j as int)
}

/// What a small number of vertices gives.
pub proof fn lemma_fits(n: int)
    requires
        fits(n),
        n >= 3,
    ensures
        2 * n + 200 <= usize::MAX,
        n <= 0x1_0000_0000,
        forall|a: int, b: int| 0 <= a < n && 0 <= b < n ==> 0 <= #[trigger] (a * b) <= usize::MAX,
{
    assert(2 * n + 200 <= usize::MAX) by {
        if 2 * n + 200 > usize::MAX {
            assert(n > 1_000_000);
            assert((n - 1) * (n - 1) >= 1_000 * (n - 1)) by (nonlinear_arith)
                requires
                    n > 1_000_000,
            ;
        }
    }
    assert(n <= 0x1_0000_0000) by {
        if n > 0x1_0000_0000 {
            assert((n - 1) * (n - 1) >= 0x1_0000_0000 * 0x1_0000_0000) by (nonlinear_arith)
                requires
                    n > 0x1_0000_0000,
            ;
        }
    }
    assert forall|a: int, b: int| 0 <= a < n && 0 <= b < n implies 0 <= #[trigger] (a * b)
        <= usize::MAX by {
        assert(0 <= a * b <= (n - 1) * (n - 1)) by (nonlinear_arith)
            requires
                0 <= a < n,
                0 <= b < n,
        ;
    }
}

/// Writes a row of `n` bits twice in a row, the second copy from bit `n` on.
fn doubled(row: &Vec<u64>, n: usize) -> (src: Vec<u64>)
    requires
        n >= 3,
        2 * n + 200 <= usize::MAX,
        row@.len() == (n as int + 63) / 64,
        forall|t: int| #[trigger] member(row@, t) ==> t < n,
    ensures
        src@.len() == (2 * n as int + 63) / 64 + 1,
        forall|t: int| #[trigger]
            member(src@, t) <==> member(row@, t) || member(row@, t - n),
{
    let nwords: usize = row.len();
    let src_words: usize = ((2 * n + 63) / 64) + 1;
    let mut src: Vec<u64> = vec![0u64; src_words];
    let mut i: usize = 0;
    while i < nwords
        invariant
            i <= nwords,
            nwords == row@.len(),
            nwords == (n as int + 63) / 64,
            src_words == (2 * n as int + 63) / 64 + 1,
            src@.len() == src_words,
            forall|j: int| 0 <= j < i ==> src@[j] == row@[j],
            forall|j: int| i <= j < src_words ==> src@[j] == 0,
        decreases nwords - i,
    {
        let w: u64 = row[i];
        src.set(i, w);
        i = i + 1;
    }
    let word_off: usize = n / 64;
    let bit_off: usize = n % 64;
    proof {
        assert forall|t: int| 0 <= t < 64 * src_words implies #[trigger] member(src@, t) == member(
            row@,
            t,
        ) by {
            if t / 64 >= nwords {
                lemma_zero_word(t % 64);
            }
        }
    }
    i = 0;
    while i < nwords
        invariant
            i <= nwords,
            nwords == row@.len(),
            nwords == (n as int + 63) / 64,
            src_words == (2 * n as int + 63) / 64 + 1,
            src@.len() == src_words,
            word_off == n as int / 64,
            bit_off == n as int % 64,
            forall|t: int|
                0 <= t < 64 * src_words ==> #[trigger] member(src@, t) == (member(row@, t) || (n
                    <= t < n + 64 * i && member(row@, t - n))),
        decreases nwords - i,
    {
        let ghost prev = src@;
        let w: u64 = row[i];
        let at: usize = word_off + i;
        if bit_off == 0 {
            let low: u64 = src[at];
            src.set(at, low | w);
            proof {
                assert forall|t: int| 0 <= t < 64 * src_words implies #[trigger] member(src@, t)
                    == (member(row@, t) || (n <= t < n + 64 * (i + 1) && member(
                    row@,
                    t - n,
                ))) by {
                    assert(member(prev, t) == (member(row@, t) || (n <= t < n + 64 * i && member(
                        row@,
                        t - n,
                    ))));
                    if t / 64 == at {
                        lemma_or_bit(low, w, t % 64);
                        assert((t - n) / 64 == i && (t - n) % 64 == t % 64);
                    }
                }
            }
        } else {
            let low: u64 = src[at];
            src.set(at, low | (w << bit_off));
            let high: u64 = src[at + 1];
            let down: usize = 64 - bit_off;
            src.set(at + 1, high | (w >> down));
            proof {
                assert(w << bit_off == w << (bit_off as u64));
                assert(w >> down == w >> (down as u64));
                assert forall|t: int| 0 <= t < 64 * src_words implies #[trigger] member(src@, t)
                    == (member(row@, t) || (n <= t < n + 64 * (i + 1) && member(
                    row@,
                    t - n,
                ))) by {
                    assert(member(prev, t) == (member(row@, t) || (n <= t < n + 64 * i && member(
                        row@,
                        t - n,
                    ))));
                    let r = t % 64;
                    if t / 64 == at {
                        lemma_or_bit(low, w << bit_off, r);
                        lemma_shl_bit(w, bit_off as u64, r);
                        if r >= bit_off {
                            assert((t - n) / 64 == i && (t - n) % 64 == r - bit_off);
                        }
                    } else if t / 64 == at + 1 {
                        lemma_or_bit(high, w >> down, r);
                        lemma_shr_bit(w, down as u64, r);
                        if r < bit_off {
                            assert((t - n) / 64 == i && (t - n) % 64 == r + down);
                        }
                    }
                }
            }
        }
        i = i + 1;
    }
    proof {
        assert forall|t: int| #[trigger] member(src@, t) <==> member(row@, t) || member(
            row@,
            t - n,
        ) by {
            if !(0 <= t < 64 * src_words) {
                if member(row@, t - n) {
                    assert(t - n < n);
                }
            }
        }
    }
    src
}

/// Cuts the `n` bits from bit `start` on out of a doubled row.
fn window(src: &Vec<u64>, start: usize, n: usize) -> (out: BitSet)
    requires
        n >= 3,
        2 * n + 200 <= usize::MAX,
        start <= n,
        src@.len() == (2 * n as int + 63) / 64 + 1,
    ensures
        out.words@.len() == (n as int + 63) / 64,
        forall|x: int| #[trigger]
            member(out.words@, x) <==> 0 <= x < n && member(src@, start + x),
{
    let nwords: usize = (n + 63) / 64;
    let mut out = BitSet::zeros(nwords);
    let wo: usize = start / 64;
    let bo: usize = start % 64;
    let mut i: usize = 0;
    while i < nwords
        invariant
            n >= 3,
            2 * n + 200 <= usize::MAX,
            start <= n,
            src@.len() == (2 * n as int + 63) / 64 + 1,
            i <= nwords,
            nwords == (n as int + 63) / 64,
            out.words@.len() == nwords,
            wo == start as int / 64,
            bo == start as int % 64,
            forall|x: int|
                0 <= x < 64 * i ==> #[trigger] member(out.words@, x) == member(src@, start + x),
        decreases nwords - i,
    {
        let ghost prev = out.words@;
        if bo == 0 {
            let w: u64 = src[wo + i];
            out.words.set(i, w);
            proof {
                assert forall|x: int| 0 <= x < 64 * (i + 1) implies #[trigger] member(
                    out.words@,
                    x,
                ) == member(src@, start + x) by {
                    if x < 64 * i {
                        assert(member(prev, x) == member(src@, start + x));
                    } else {
                        assert(x / 64 == i);
                        assert((start + x) / 64 == wo + i && (start + x) % 64 == x % 64);
                    }
                }
            }
        } else {
            let inv: usize = 64 - bo;
            let low: u64 = src[wo + i];
            let high: u64 = src[wo + i + 1];
            out.words.set(i, (low >> bo) | (high << inv));
            proof {
                assert(low >> bo == low >> (bo as u64));
                assert(high << inv == high << (inv as u64));
                assert forall|x: int| 0 <= x < 64 * (i + 1) implies #[trigger] member(
                    out.words@,
                    x,
                ) == member(src@, start + x) by {
                    if x < 64 * i {
                        assert(member(prev, x) == member(src@, start + x));
                    } else {
                        let r = x % 64;
                        assert(x / 64 == i);
                        lemma_or_bit(low >> bo, high << inv, r);
                        lemma_shr_bit(low, bo as u64, r);
                        lemma_shl_bit(high, inv as u64, r);
                        if r + bo < 64 {
                            assert((start + x) / 64 == wo + i && (start + x) % 64 == r + bo);
                        } else {
                            assert((start + x) / 64 == wo + i + 1 && (start + x) % 64 == r
                                - inv);
                        }
                    }
                }
            }
        }
        i = i + 1;
    }
    let last_bits: usize = n % 64;
    if last_bits != 0 {
        let ghost prev = out.words@;
        proof {
            lemma_low_mask_bit(last_bits as u64, 0);
            assert(1u64 << last_bits == 1u64 << (last_bits as u64));
        }
        let last_mask: u64 = (1u64 << last_bits) - 1;
        let last: u64 = out.words[nwords - 1];
        out.words.set(nwords - 1, last & last_mask);
        proof {
            assert forall|x: int| #[trigger] member(out.words@, x) <==> 0 <= x < n && member(
                src@,
                start + x,
            ) by {
                if 0 <= x < 64 * nwords {
                    assert(member(prev, x) == member(src@, start + x));
                    if x / 64 == nwords - 1 {
                        lemma_and_bit(last, last_mask, x % 64);
                        lemma_low_mask_bit(last_bits as u64, x % 64);
                    }
                }
            }
        }
    } else {
        assert(64 * nwords == n);
    }
    out
}

/// The rotation of the nonresidues by `v` is the set of dominators of `v`.
proof fn lemma_rotation(n: int, v: int, x: int)
    requires
        paley_prime(n),
        0 <= v < n,
        0 <= x < n,
    ensures
        dominates(n, x, v) <==> {
            let d = if x >= v {
                x - v
            } else {
                x - v + n
            };
            1 <= d < n && !residue(n, d)
        },
{
    let d = if x >= v {
        x - v
    } else {
        x - v + n
    };
    lemma_mod_add_multiples_vanish(x - v, n);
    lemma_residue_cong(n, d, x - v);
    lemma_small_mod(d as nat, n as nat);
    assert(-(x - v) == v - x);
    if d == 0 {
        lemma_zero_not_residue(n, 0);
    } else {
        lemma_residue_dichotomy(n, x - v);
    }
}

impl Paley {
    /// Builds the tables for the tournament on `n` vertices, if there is one
    /// and it is not too large.
    pub fn checked_new(n: usize) -> (r: Option<Self>)
        ensures
            match r {
                Some(p) => p.wf() && p.n == n,
                None => !paley_prime(n as int) || !fits(n as int),
            },
    {
        if n % 4 != 3 || !is_prime(n) {
            return None;
        }
        match (n - 1).checked_mul(n - 1) {
            Some(_) => Some(Paley::new(n)),
            None => None,
        }
    }
}

impl Paley {
    /// Builds the tables for the tournament on `n` vertices.
    pub fn new(n: usize) -> (p: Self)
        requires
            paley_prime(n as int),
            fits(n as int),
        ensures
            p.wf(),
            p.n == n,
    {
        proof {
            lemma_fits(n as int);
        }
        let nwords: usize = (n + 63) / 64;
        let mut qr: Vec<bool> = vec![false; n];
        let mut i: usize = 1;
        while i < n
            invariant
                n >= 3,
                fits(n as int),
                1 <= i <= n,
                qr@.len() == n,
                forall|a: int|
                    0 <= a < n ==> (#[trigger] qr@[a] <==> exists|b: int|
                        1 <= b < i && #[trigger] square_mod(n as int, b) == a),
            decreases n - i,
        {
            proof {
                lemma_fits(n as int);
                assert(i as int * i as int <= usize::MAX);
                lemma_mod_bound(i * i, n as int);
            }
            let ghost prev = qr@;
            let a: usize = (i * i) % n;
            qr.set(a, true);
            proof {
                assert(square_mod(n as int, i as int) == a);
                assert forall|c: int| 0 <= c < n implies (#[trigger] qr@[c] <==> exists|b: int|
                    1 <= b < i + 1 && #[trigger] square_mod(n as int, b) == c) by {
                    assert(prev[c] <==> exists|b: int|
                        1 <= b < i && #[trigger] square_mod(n as int, b) == c);
                    if exists|b: int| 1 <= b < i + 1 && #[trigger] square_mod(n as int, b) == c {
                        let b = choose|b: int|
                            1 <= b < i + 1 && #[trigger] square_mod(n as int, b) == c;
                        if b < i {
                            assert(prev[c]);
                        }
                    }
                    if qr@[c] && c != a {
                        let b = choose|b: int|
                            1 <= b < i && #[trigger] square_mod(n as int, b) == c;
                        assert(1 <= b < i + 1 && square_mod(n as int, b) == c);
                    }
                }
            }
            i = i + 1;
        }
        proof {
            assert forall|a: int| 0 <= a < n implies #[trigger] qr@[a] == residue(n as int, a) by {
                lemma_small_mod(a as nat, n as nat);
            }
        }

        // nb[0] holds the nonresidues, and nb[v] the same row rotated by v.
        let mut nrs: Vec<usize> = Vec::new();
        let mut nb0 = BitSet::zeros(nwords);
        let mut j: usize = 1;
        while j < n
            invariant
                n >= 3,
                nwords == (n as int + 63) / 64,
                1 <= j <= n,
                qr@.len() == n,
                forall|a: int| 0 <= a < n ==> #[trigger] qr@[a] == residue(n as int, a),
                nb0.words@.len() == nwords,
                forall|t: int| #[trigger]
                    nb0@.contains(t) <==> 1 <= t < j && !residue(n as int, t),
                increasing(nrs@),
                forall|t: usize| #[trigger]
                    nrs@.contains(t) <==> 1 <= t < j && !residue(n as int, t as int),
            decreases n - j,
        {
            if !qr[j] {
                let ghost prev = nrs@;
                nb0.set(j);
                nrs.push(j);
                proof {
                    assert forall|a: int, b: int| 0 <= a < b < nrs@.len() implies nrs@[a]
                        < nrs@[b] by {
                        assert(prev.contains(prev[a]));
                        assert(nrs@[a] == prev[a]);
                        if b < prev.len() {
                            assert(nrs@[b] == prev[b]);
                        }
                    }
                    assert forall|t: usize| #[trigger] nrs@.contains(t) <==> 1 <= t < j + 1
                        && !residue(n as int, t as int) by {
                        if nrs@.contains(t) {
                            let a = choose|a: int| 0 <= a < nrs@.len() && nrs@[a] == t;
                            if a < prev.len() {
                                assert(prev[a] == t);
                                assert(prev.contains(t));
                            }
                        }
                        if 1 <= t < j + 1 && !residue(n as int, t as int) {
                            if t == j {
                                assert(nrs@[prev.len() as int] == t);
                            } else {
                                assert(prev.contains(t));
                                let a = choose|a: int| 0 <= a < prev.len() && prev[a] == t;
                                assert(nrs@[a] == t);
                            }
                        }
                    }
                }
            }
            j = j + 1;
        }
        proof {
            assert forall|t: int| #[trigger] member(nb0.words@, t) implies t < n by {
                assert(nb0@.contains(t));
            }
        }
        let src: Vec<u64> = doubled(&nb0.words, n);
        let mut nb: Vec<BitSet> = Vec::with_capacity(n);
        let mut v: usize = 0;
        while v < n
            invariant
                paley_prime(n as int),
                2 * n + 200 <= usize::MAX,
                nwords == (n as int + 63) / 64,
                v <= n,
                src@.len() == (2 * n as int + 63) / 64 + 1,
                forall|t: int| #[trigger]
                    member(src@, t) <==> member(nb0.words@, t) || member(nb0.words@, t - n),
                forall|t: int| #[trigger]
                    nb0@.contains(t) <==> 1 <= t < n && !residue(n as int, t),
                nb@.len() == v,
                forall|u: int| 0 <= u < v ==> (#[trigger] nb@[u]).words@.len() == nwords,
                forall|u: int| 0 <= u < v ==> (#[trigger] nb@[u])@ == dominators(n as int, u),
            decreases n - v,
        {
            let row = window(&src, n - v, n);
            proof {
                assert forall|x: int| row@.contains(x) <==> dominators(n as int, v as int).contains(
                    x,
                ) by {
                    assert(row@.contains(x) == member(row.words@, x));
                    if 0 <= x < n {
                        lemma_rotation(n as int, v as int, x);
                        let t = n - v + x;
                        assert(member(src@, t) <==> member(nb0.words@, t) || member(
                            nb0.words@,
                            t - n,
                        ));
                        assert(nb0@.contains(t) == member(nb0.words@, t));
                        assert(nb0@.contains(t - n) == member(nb0.words@, t - n));
                    }
                }
                assert(row@ =~= dominators(n as int, v as int));
            }
            nb.push(row);
            v = v + 1;
        }

        let mut qr_inv: Vec<usize> = vec![0usize; n];
        let mut q: usize = 1;
        proof {
            lemma_small_mod(0, n as nat);
            lemma_zero_not_residue(n as int, 0);
        }
        while q < n
            invariant
                n >= 3,
                1 <= q <= n,
                qr@.len() == n,
                forall|a: int| 0 <= a < n ==> #[trigger] qr@[a] == residue(n as int, a),
                qr_inv@.len() == n,
                forall|a: int|
                    0 <= a < q ==> #[trigger] qr_inv@[a] == if residue(n as int, a) {
                        inverse(n as int, a)
                    } else {
                        0
                    },
                forall|a: int| q <= a < n ==> #[trigger] qr_inv@[a] == 0,
            decreases n - q,
        {
            if qr[q] {
                let r: usize = mod_pow(q, n - 2, n);
                qr_inv.set(q, r);
            }
            q = q + 1;
        }
        Paley { n, nwords, nb, qr, nrs, qr_inv }
    }
}

/// There is a nonresidue, so the list of them is not empty.
pub proof fn lemma_some_nonresidue(n: int, nrs: Seq<usize>)
    requires
        paley_prime(n),
        n <= usize::MAX,
        nonresidue_list(n, nrs),
    ensures
        nrs.len() > 0,
        1 <= nrs[0] < n,
        !residue(n, nrs[0] as int),
{
    lemma_minus_one_not_residue(n);
    lemma_mod_add_multiples_vanish(-1, n);
    lemma_residue_cong(n, -1, n - 1);
    assert(nrs.contains((n - 1) as usize));
    assert(nrs.contains(nrs[0]));
}

/// Whether some vertex of `prefix` dominates every vertex of `t`.  The buffer
/// `scratch` is left with the vertices that do.
pub fn has_dominator(p: &Paley, prefix: &BitSet, t: &[usize], scratch: &mut BitSet) -> (r: bool)
    requires
        p.wf(),
        prefix.words@.len() <= p.nwords,
        old(scratch).words@.len() == prefix.words@.len(),
        forall|i: int| 0 <= i < t@.len() ==> #[trigger] t@[i] < p.n,
    ensures
        final(scratch).words@.len() == old(scratch).words@.len(),
        final(scratch)@ == narrowed(p.n as int, prefix@, t@),
        r == (narrowed(p.n as int, prefix@, t@) != Set::<int>::empty()),
{
    let ghost n = p.n as int;
    scratch.copy_from(prefix);
    let mut alive: bool = scratch.and_assign(prefix);
    let len: usize = t.len();
    let mut i: usize = 0;
    proof {
        assert(scratch@ =~= prefix@);
        assert(t@.take(0) =~= Seq::<usize>::empty());
        assert(narrowed(n, prefix@, t@.take(0)) =~= prefix@);
    }
    while i < len && alive
        invariant
            p.wf(),
            n == p.n,
            len == t@.len(),
            i <= len,
            prefix.words@.len() <= p.nwords,
            scratch.words@.len() == prefix.words@.len(),
            forall|j: int| 0 <= j < t@.len() ==> #[trigger] t@[j] < p.n,
            scratch@ == narrowed(n, prefix@, t@.take(i as int)),
            alive == (scratch@ != Set::<int>::empty()),
        decreases len - i,
    {
        let v: usize = t[i];
        alive = scratch.and_assign(&p.nb[v]);
        proof {
            lemma_narrowed_push(n, prefix@, t@.take(i as int), v);
            assert(t@.take(i as int).push(v) =~= t@.take(i + 1));
        }
        i = i + 1;
    }
    proof {
        let part = t@.take(i as int);
        assert forall|j: int| 0 <= j < part.len() implies t@.contains(#[trigger] part[j]) by {
            assert(part[j] == t@[j]);
        }
        lemma_narrowed_part(n, prefix@, part, t@);
        if alive {
            assert(part =~= t@);
        } else {
            assert(narrowed(n, prefix@, t@) =~= Set::<int>::empty());
        }
    }
    alive
}

} // verus!
