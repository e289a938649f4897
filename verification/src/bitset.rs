//! Fixed-width bit sets, stored 64 members to a word.
use vstd::prelude::*;
use vstd::set_lib::*;
use vstd::std_specs::bits::*;

verus! {

/// Bit `i` of the word `w`.
pub open spec fn bit(w: u64, i: int) -> bool {
    (w >> (i as u64)) & 1 == 1
}

/// The positions of the one bits of a word.
pub open spec fn word_bits(w: u64) -> Set<int> {
    Set::new(|i: int| 0 <= i < 64 && bit(w, i))
}

/// Member `i` of the set that a row of words stores.
pub open spec fn member(words: Seq<u64>, i: int) -> bool {
    0 <= i < 64 * words.len() && bit(words[i / 64], i % 64)
}

/// The set that a row of words stores.
pub open spec fn members(words: Seq<u64>) -> Set<int> {
    Set::new(|i: int| member(words, i))
}

/// `u64::count_ones` gives the number of ones in the binary representation of
/// the word.
pub assume_specification[ u64::count_ones ](w: u64) -> (ones: u32)
    ensures
        ones == word_bits(w).len(),
;

/// A set of small non-negative integers.
pub struct BitSet {
    pub words: Vec<u64>,
}

impl View for BitSet {
    type V = Set<int>;

    open spec fn view(&self) -> Set<int> {
        members(self.words@)
    }
}

impl Clone for BitSet {
    fn clone(&self) -> (copy: Self)
        ensures
            copy.words@ == self.words@,
    {
        BitSet { words: self.words.clone() }
    }
}

/// A nonzero word has a one bit.
pub proof fn lemma_nonzero_word(w: u64) -> (i: int)
    requires
        w != 0,
    ensures
        0 <= i < 64,
        bit(w, i),
{
    axiom_u64_trailing_zeros(w);
    u64_trailing_zeros(w) as int
}

/// The zero word has no one bit.
pub proof fn lemma_zero_word(i: int)
    requires
        0 <= i < 64,
    ensures
        !bit(0, i),
{
    let j = i as u64;
    assert((0u64 >> j) & 1 == 0) by (bit_vector);
}

/// The bits of a conjunction.
pub proof fn lemma_and_bit(a: u64, b: u64, i: int)
    requires
        0 <= i < 64,
    ensures
        bit(a & b, i) == (bit(a, i) && bit(b, i)),
{
    let j = i as u64;
    assert(((a & b) >> j) & 1 == 1 <==> (a >> j) & 1 == 1 && (b >> j) & 1 == 1) by (bit_vector);
}

/// The bits of a disjunction.
pub proof fn lemma_or_bit(a: u64, b: u64, i: int)
    requires
        0 <= i < 64,
    ensures
        bit(a | b, i) == (bit(a, i) || bit(b, i)),
{
    let j = i as u64;
    assert(((a | b) >> j) & 1 == 1 <==> (a >> j) & 1 == 1 || (b >> j) & 1 == 1) by (bit_vector);
}

/// The bits of a word with a single one.
pub proof fn lemma_single_bit(k: u64, i: int)
    requires
        0 <= i < 64,
        k < 64,
    ensures
        bit(1u64 << k, i) == (i == k),
{
    let j = i as u64;
    assert(((1u64 << k) >> j) & 1 == 1 <==> j == k) by (bit_vector)
        requires
            j < 64,
            k < 64,
    ;
}

/// The bits of a word shifted up.
pub proof fn lemma_shl_bit(w: u64, k: u64, i: int)
    requires
        0 <= i < 64,
        k < 64,
    ensures
        bit(w << k, i) == (i >= k && bit(w, i - k)),
{
    let j = i as u64;
    if i >= k {
        let d = (i - k) as u64;
        assert(((w << k) >> j) & 1 == (w >> d) & 1) by (bit_vector)
            requires
                j < 64,
                k <= j,
                d == j - k,
        ;
    } else {
        assert(((w << k) >> j) & 1 == 0) by (bit_vector)
            requires
                k < 64,
                j < k,
        ;
    }
}

/// The bits of a word shifted down.
pub proof fn lemma_shr_bit(w: u64, k: u64, i: int)
    requires
        0 <= i < 64,
        k < 64,
    ensures
        bit(w >> k, i) == (i + k < 64 && bit(w, i + k)),
{
    let j = i as u64;
    let d = (i + k) as u64;
    if i + k < 64 {
        assert(((w >> k) >> j) & 1 == (w >> d) & 1) by (bit_vector)
            requires
                d == j + k,
                d < 64,
        ;
    } else {
        assert(((w >> k) >> j) & 1 == 0) by (bit_vector)
            requires
                j < 64,
                k < 64,
                j + k >= 64,
        ;
    }
}

/// The bits of a mask of the low `k` bits.
pub proof fn lemma_low_mask_bit(k: u64, i: int)
    requires
        0 <= i < 64,
        k < 64,
    ensures
        1u64 << k >= 1,
        bit(((1u64 << k) - 1) as u64, i) == (i < k),
{
    let j = i as u64;
    assert(1u64 << k >= 1) by (bit_vector)
        requires
            k < 64,
    ;
    let m = ((1u64 << k) - 1) as u64;
    assert((m >> j) & 1 == 1 <==> j < k) by (bit_vector)
        requires
            j < 64,
            k < 64,
            m == (1u64 << k) - 1,
    ;
}

/// The words of a row are all zero exactly when the set it stores is empty.
pub proof fn lemma_empty_members(words: Seq<u64>)
    ensures
        members(words) =~= Set::<int>::empty() <==> (forall|i: int|
            0 <= i < words.len() ==> words[i] == 0),
{
    if forall|i: int| 0 <= i < words.len() ==> words[i] == 0 {
        assert forall|i: int| !members(words).contains(i) by {
            if 0 <= i < 64 * words.len() {
                lemma_zero_word(i % 64);
            }
        }
    }
    if members(words) =~= Set::<int>::empty() {
        assert forall|i: int| 0 <= i < words.len() implies words[i] == 0 by {
            if words[i] != 0 {
                let b = lemma_nonzero_word(words[i]);
                assert((64 * i + b) / 64 == i && (64 * i + b) % 64 == b);
                assert(members(words).contains(64 * i + b));
            }
        }
    }
}

/// The set that a row of words stores is finite, and has as many members as
/// its words have ones.
pub proof fn lemma_members_push(words: Seq<u64>, w: u64)
    requires
        members(words).finite(),
    ensures
        members(words.push(w)).finite(),
        members(words.push(w)).len() == members(words).len() + word_bits(w).len(),
{
    let old_set = members(words);
    let base = 64 * words.len() as int;
    let shifted = word_bits(w).map(|i: int| i + base);
    lemma_int_range(0, 64);
    lemma_len_subset(word_bits(w), set_int_range(0, 64));
    word_bits(w).lemma_map_finite(|i: int| i + base);
    assert(word_bits(w).map(|i: int| i + base) =~= shifted);
    lemma_map_size(word_bits(w), shifted, |i: int| i + base);
    assert forall|i: int| members(words.push(w)).contains(i) <==> old_set.union(shifted).contains(
        i,
    ) by {
        if members(words.push(w)).contains(i) {
            if i >= base {
                assert(i / 64 == words.len());
                assert(i % 64 == i - base);
                assert(word_bits(w).contains(i - base));
                assert(shifted.contains((i - base) + base));
            } else {
                assert(i / 64 < words.len());
                assert(old_set.contains(i));
            }
        }
        if old_set.contains(i) {
            assert(i / 64 < words.len());
        }
        if shifted.contains(i) {
            let b = choose|b: int| word_bits(w).contains(b) && b + base == i;
            assert(i / 64 == words.len() && i % 64 == b);
        }
    }
    assert(members(words.push(w)) =~= old_set.union(shifted));
    assert(old_set.disjoint(shifted));
    lemma_set_disjoint_lens(old_set, shifted);
}

/// The set that a row of words stores is finite.
pub proof fn lemma_members_finite(words: Seq<u64>)
    ensures
        members(words).finite(),
    decreases words.len(),
{
    if words.len() == 0 {
        assert(members(words) =~= Set::<int>::empty());
    } else {
        lemma_members_finite(words.drop_last());
        lemma_members_push(words.drop_last(), words.last());
        assert(words.drop_last().push(words.last()) =~= words);
    }
}

impl BitSet {
    /// The empty set, in `nwords` words.
    pub fn zeros(nwords: usize) -> (s: Self)
        ensures
            s.words@ == Seq::new(nwords as nat, |i: int| 0u64),
            s@ == Set::<int>::empty(),
    {
        let s = BitSet { words: vec![0u64; nwords] };
        proof {
            assert(s.words@ =~= Seq::new(nwords as nat, |i: int| 0u64));
            lemma_empty_members(s.words@);
        }
        s
    }

    /// Adds member `i`.
    pub fn set(&mut self, i: usize)
        requires
            i < 64 * old(self).words@.len(),
        ensures
            final(self).words@.len() == old(self).words@.len(),
            final(self)@ == old(self)@.insert(i as int),
    {
        let ghost before = self.words@;
        assert(i >> 6 == i / 64 && i & 63 == i % 64) by (bit_vector);
        let w: usize = i >> 6;
        let b: usize = i & 63;
        let word: u64 = self.words[w];
        self.words.set(w, word | (1u64 << b));
        proof {
            let after = self.words@;
            assert forall|j: int| members(after).contains(j) <==> members(before).insert(
                i as int,
            ).contains(j) by {
                if 0 <= j < 64 * before.len() {
                    if j / 64 == w {
                        lemma_or_bit(word, 1u64 << b, j % 64);
                        lemma_single_bit(b as u64, j % 64);
                        assert(1u64 << b == 1u64 << (b as u64));
                    }
                }
            }
            assert(members(after) =~= members(before).insert(i as int));
        }
    }

    /// Takes over the members of `src`, which has as many words.
    pub fn copy_from(&mut self, src: &BitSet)
        requires
            old(self).words@.len() == src.words@.len(),
        ensures
            final(self).words@ == src.words@,
    {
        let len: usize = self.words.len();
        let mut i: usize = 0;
        while i < len
            invariant
                i <= len,
                len == self.words@.len(),
                len == src.words@.len(),
                forall|j: int| 0 <= j < i ==> self.words@[j] == src.words@[j],
            decreases len - i,
        {
            let w: u64 = src.words[i];
            self.words.set(i, w);
            i = i + 1;
        }
        assert(self.words@ =~= src.words@);
    }

    /// Intersects with `other`, and tells whether a member is left.  Words
    /// that `other` does not have stay as they are.
    pub fn and_assign(&mut self, other: &BitSet) -> (alive: bool)
        ensures
            final(self).words@.len() == old(self).words@.len(),
            forall|i: int|
                final(self)@.contains(i) <==> old(self)@.contains(i) && (i < 64
                    * other.words@.len() ==> other@.contains(i)),
            old(self).words@.len() <= other.words@.len()
                ==> final(self)@ == old(self)@.intersect(other@),
            alive == (final(self)@ != Set::<int>::empty()),
    {
        let ghost before = self.words@;
        let len: usize = self.words.len();
        let mut acc: u64 = 0;
        let mut i: usize = 0;
        while i < len
            invariant
                i <= len,
                len == self.words@.len(),
                len == before.len(),
                forall|j: int|
                    0 <= j < i ==> self.words@[j] == if j < other.words@.len() {
                        before[j] & other.words@[j]
                    } else {
                        before[j]
                    },
                forall|j: int| i <= j < len ==> self.words@[j] == before[j],
                acc == 0 <==> forall|j: int| 0 <= j < i ==> self.words@[j] == 0,
            decreases len - i,
        {
            let mut w: u64 = self.words[i];
            if i < other.words.len() {
                w = w & other.words[i];
            }
            let ghost prev = self.words@;
            self.words.set(i, w);
            assert(acc | w == 0 <==> acc == 0 && w == 0) by (bit_vector);
            let ghost prior = acc;
            acc = acc | w;
            i = i + 1;
            proof {
                if acc == 0 {
                    assert forall|j: int| 0 <= j < i implies self.words@[j] == 0 by {}
                }
                if forall|j: int| 0 <= j < i ==> self.words@[j] == 0 {
                    assert(self.words@[i - 1] == w);
                    assert forall|j: int| 0 <= j < i - 1 implies prev[j] == 0 by {
                        assert(self.words@[j] == 0);
                    }
                    assert(prior == 0);
                }
            }
        }
        proof {
            let after = self.words@;
            assert forall|j: int|
                members(after).contains(j) <==> members(before).contains(j) && (j < 64
                    * other.words@.len() ==> members(other.words@).contains(j)) by {
                if 0 <= j < 64 * before.len() {
                    let q = j / 64;
                    if q < other.words@.len() {
                        lemma_and_bit(before[q], other.words@[q], j % 64);
                        assert(j < 64 * other.words@.len());
                    }
                }
            }
            if before.len() <= other.words@.len() {
                assert(members(after) =~= members(before).intersect(members(other.words@)));
            }
            lemma_empty_members(after);
        }
        acc != 0
    }

    /// Stores the intersection of `a` and `b` in `out`, and tells whether
    /// `out` then has a member.  Words of `out` that `a` or `b` does not have
    /// stay as they are.
    pub fn and_into(out: &mut BitSet, a: &BitSet, b: &BitSet) -> (alive: bool)
        ensures
            final(out).words@.len() == old(out).words@.len(),
            forall|i: int|
                final(out)@.contains(i) <==> if i < 64 * a.words@.len() && i < 64
                    * b.words@.len() {
                    i < 64 * old(out).words@.len() && a@.contains(i) && b@.contains(i)
                } else {
                    old(out)@.contains(i)
                },
            old(out).words@.len() == a.words@.len() && a.words@.len() == b.words@.len()
                ==> final(out)@ == a@.intersect(b@),
            alive == (final(out)@ != Set::<int>::empty()),
    {
        let ghost before = out.words@;
        let len: usize = out.words.len();
        let mut acc: u64 = 0;
        let mut i: usize = 0;
        while i < len
            invariant
                i <= len,
                len == out.words@.len(),
                len == before.len(),
                forall|j: int|
                    0 <= j < i ==> out.words@[j] == if j < a.words@.len() && j < b.words@.len() {
                        a.words@[j] & b.words@[j]
                    } else {
                        before[j]
                    },
                forall|j: int| i <= j < len ==> out.words@[j] == before[j],
                acc == 0 <==> forall|j: int| 0 <= j < i ==> out.words@[j] == 0,
            decreases len - i,
        {
            let mut w: u64 = out.words[i];
            if i < a.words.len() && i < b.words.len() {
                w = a.words[i] & b.words[i];
            }
            let ghost prev = out.words@;
            out.words.set(i, w);
            assert(acc | w == 0 <==> acc == 0 && w == 0) by (bit_vector);
            let ghost prior = acc;
            acc = acc | w;
            i = i + 1;
            proof {
                if acc == 0 {
                    assert forall|j: int| 0 <= j < i implies out.words@[j] == 0 by {}
                }
                if forall|j: int| 0 <= j < i ==> out.words@[j] == 0 {
                    assert(out.words@[i - 1] == w);
                    assert forall|j: int| 0 <= j < i - 1 implies prev[j] == 0 by {
                        assert(out.words@[j] == 0);
                    }
                    assert(prior == 0);
                }
            }
        }
        proof {
            let after = out.words@;
            assert forall|j: int|
                members(after).contains(j) <==> if j < 64 * a.words@.len() && j < 64
                    * b.words@.len() {
                    j < 64 * before.len() && members(a.words@).contains(j) && members(
                        b.words@,
                    ).contains(j)
                } else {
                    members(before).contains(j)
                } by {
                if 0 <= j < 64 * before.len() {
                    let q = j / 64;
                    if q < a.words@.len() && q < b.words@.len() {
                        lemma_and_bit(a.words@[q], b.words@[q], j % 64);
                    }
                }
            }
            if before.len() == a.words@.len() && a.words@.len() == b.words@.len() {
                assert(members(after) =~= members(a.words@).intersect(members(b.words@)));
            }
            lemma_empty_members(after);
        }
        acc != 0
    }

    /// The number of members.
    pub fn popcount(&self) -> (count: u32)
        requires
            self@.len() <= u32::MAX,
        ensures
            count == self@.len(),
            count == 0 <==> self@ == Set::<int>::empty(),
    {
        let len: usize = self.words.len();
        let mut total: u32 = 0;
        let mut i: usize = 0;
        proof {
            lemma_members_finite(self.words@);
            assert(members(self.words@.take(0)) =~= Set::<int>::empty());
        }
        while i < len
            invariant
                i <= len,
                len == self.words@.len(),
                self@.finite(),
                self@.len() <= u32::MAX,
                total == members(self.words@.take(i as int)).len(),
            decreases len - i,
        {
            let ones: u32 = self.words[i].count_ones();
            proof {
                let w = self.words@;
                lemma_members_finite(w.take(i as int));
                lemma_members_push(w.take(i as int), w[i as int]);
                assert(w.take(i as int).push(w[i as int]) =~= w.take(i + 1));
                assert forall|j: int| members(w.take(i + 1)).contains(j) implies members(
                    w,
                ).contains(j) by {
                    assert(j / 64 < i + 1);
                }
                lemma_len_subset(members(w.take(i + 1)), members(w));
            }
            total = total + ones;
            i = i + 1;
        }
        assert(self.words@.take(len as int) =~= self.words@);
        proof {
            if total == 0 {
                self@.lemma_len0_is_empty();
            }
        }
        total
    }
}

} // verus!
