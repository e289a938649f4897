//! Arithmetic modulo a prime: divisibility, powers, inverses.
use vstd::arithmetic::div_mod::*;
use vstd::arithmetic::mul::*;
use vstd::arithmetic::power::*;
use vstd::prelude::*;
use vstd::seq_lib::*;
use vstd::set_lib::*;

verus! {

/// `d` divides `n`.
pub open spec fn divides(d: int, n: int) -> bool {
    n % d == 0
}

/// `n` is a prime number.
pub open spec fn prime(n: int) -> bool {
    n >= 2 && forall|d: int| 2 <= d < n ==> !#[trigger] divides(d, n)
}

/// Congruent factors have congruent products.
pub proof fn lemma_cong_mul(n: int, a: int, b: int, c: int, d: int)
    requires
        n > 0,
        a % n == b % n,
        c % n == d % n,
    ensures
        (a * c) % n == (b * d) % n,
{
    lemma_mul_mod_noop_general(a, c, n);
    lemma_mul_mod_noop_general(b, d, n);
}

/// Congruent terms have congruent differences.
pub proof fn lemma_cong_sub(n: int, a: int, b: int, c: int, d: int)
    requires
        n > 0,
        a % n == b % n,
        c % n == d % n,
    ensures
        (a - c) % n == (b - d) % n,
{
    lemma_sub_mod_noop(a, c, n);
    lemma_sub_mod_noop(b, d, n);
}

/// A multiple of `n` leaves nothing.
pub proof fn lemma_multiple(n: int, a: int, b: int)
    requires
        n > 0,
        a % n == 0,
    ensures
        (a * b) % n == 0,
        (b * a) % n == 0,
{
    lemma_mul_mod_noop_left(a, b, n);
    lemma_mul_basics(b);
    lemma_small_mod(0, n as nat);
    lemma_mul_is_commutative(a, b);
}

/// A prime that divides a product with a factor in `1..p` divides the other
/// factor.
proof fn lemma_euclid_reduced(p: int, a: int, b: int)
    requires
        prime(p),
        0 < a < p,
        (a * b) % p == 0,
    ensures
        b % p == 0,
    decreases a,
{
    if a == 1 {
        lemma_mul_basics(b);
    } else {
        let q = p / a;
        let r = p % a;
        lemma_fundamental_div_mod(p, a);
        assert(!divides(a, p));
        lemma_mod_bound(p, a);
        assert(r * b == p * b - q * (a * b)) by (nonlinear_arith)
            requires
                p == a * q + r,
        ;
        lemma_mod_self_0(p);
        lemma_multiple(p, p, b);
        lemma_multiple(p, a * b, q);
        lemma_cong_sub(p, p * b, 0, q * (a * b), 0);
        lemma_small_mod(0, p as nat);
        lemma_euclid_reduced(p, r, b);
    }
}

/// A prime that divides a product divides one of the factors.
pub proof fn lemma_euclid(p: int, a: int, b: int)
    requires
        prime(p),
        (a * b) % p == 0,
    ensures
        a % p == 0 || b % p == 0,
{
    let r = a % p;
    lemma_mod_bound(a, p);
    if r != 0 {
        lemma_mul_mod_noop_left(a, b, p);
        lemma_euclid_reduced(p, r, b);
    }
}

/// A factor that the prime does not divide can be cancelled.
pub proof fn lemma_cancel(p: int, a: int, b: int, c: int)
    requires
        prime(p),
        a % p != 0,
        (a * b) % p == (a * c) % p,
    ensures
        b % p == c % p,
{
    lemma_mod_equivalence(a * b, a * c, p);
    lemma_mul_is_distributive_sub(a, b, c);
    lemma_euclid(p, a, b - c);
    lemma_mod_equivalence(b, c, p);
}

/// The product of a list.
pub open spec fn product(s: Seq<int>) -> int {
    s.fold_left(1int, |acc: int, x: int| acc * x)
}

proof fn lemma_product_push(s: Seq<int>, x: int)
    ensures
        product(s.push(x)) == product(s) * x,
{
    assert(s.push(x).drop_last() =~= s);
}

/// Two lists without repetition of the same members have the same product.
proof fn lemma_product_rearranged(s: Seq<int>, t: Seq<int>)
    requires
        s.no_duplicates(),
        t.no_duplicates(),
        forall|x: int| s.contains(x) <==> t.contains(x),
    ensures
        product(s) == product(t),
{
    let f = |acc: int, x: int| acc * x;
    s.lemma_multiset_has_no_duplicates();
    t.lemma_multiset_has_no_duplicates();
    assert(s.to_multiset() =~= t.to_multiset()) by {
        assert forall|x: int| s.to_multiset().count(x) == t.to_multiset().count(x) by {
            s.to_multiset_ensures();
            t.to_multiset_ensures();
            assert(s.contains(x) <==> s.to_multiset().count(x) > 0);
            assert(t.contains(x) <==> t.to_multiset().count(x) > 0);
            if s.contains(x) {
                assert(s.to_multiset().contains(x));
                assert(t.to_multiset().contains(x));
            }
        }
    }
    assert(commutative_foldl(f)) by {
        assert forall|x: int, y: int, v: int| #[trigger] f(f(v, x), y) == f(f(v, y), x) by {
            lemma_mul_is_associative(v, x, y);
            lemma_mul_is_associative(v, y, x);
            lemma_mul_is_commutative(x, y);
        }
    }
    lemma_fold_left_permutation(s, t, f, 1);
}

/// The list `1, 2, .., m`.
spec fn upto(m: int) -> Seq<int> {
    Seq::new(m as nat, |i: int| i + 1)
}

/// The list of the remainders of `a, 2a, .., ma`.
spec fn multiples(p: int, a: int, m: int) -> Seq<int> {
    Seq::new(m as nat, |i: int| (a * (i + 1)) % p)
}

proof fn lemma_upto_product(p: int, m: int)
    requires
        prime(p),
        0 <= m < p,
    ensures
        product(upto(m)) % p != 0,
    decreases m,
{
    if m == 0 {
        assert(upto(0) =~= Seq::<int>::empty());
        lemma_small_mod(1, p as nat);
    } else {
        lemma_upto_product(p, m - 1);
        assert(upto(m) =~= upto(m - 1).push(m));
        lemma_product_push(upto(m - 1), m);
        lemma_small_mod(m as nat, p as nat);
        if product(upto(m)) % p == 0 {
            lemma_euclid(p, product(upto(m - 1)), m);
        }
    }
}

proof fn lemma_multiples_product(p: int, a: int, m: int)
    requires
        p > 0,
        0 <= m,
    ensures
        product(multiples(p, a, m)) % p == (pow(a, m as nat) * product(upto(m))) % p,
    decreases m,
{
    reveal(pow);
    if m == 0 {
        assert(upto(0) =~= Seq::<int>::empty());
        assert(multiples(p, a, 0) =~= Seq::<int>::empty());
    } else {
        lemma_multiples_product(p, a, m - 1);
        assert(upto(m) =~= upto(m - 1).push(m));
        assert(multiples(p, a, m) =~= multiples(p, a, m - 1).push((a * m) % p));
        lemma_product_push(upto(m - 1), m);
        lemma_product_push(multiples(p, a, m - 1), (a * m) % p);
        let e = pow(a, (m - 1) as nat);
        let u = product(upto(m - 1));
        lemma_mod_twice(a * m, p);
        lemma_cong_mul(p, product(multiples(p, a, m - 1)), e * u, (a * m) % p, a * m);
        assert((e * u) * (a * m) == (a * e) * (u * m)) by (nonlinear_arith);
    }
}

/// Fermat's little theorem.
pub proof fn lemma_fermat(p: int, a: int)
    requires
        prime(p),
        a % p != 0,
    ensures
        pow(a, (p - 1) as nat) % p == 1,
{
    let m = p - 1;
    let s = upto(m);
    let t = multiples(p, a, m);
    assert(t.no_duplicates()) by {
        assert forall|i: int, j: int| 0 <= i < m && 0 <= j < m && i != j implies t[i] != t[j] by {
            if t[i] == t[j] {
                lemma_cancel(p, a, i + 1, j + 1);
                lemma_small_mod((i + 1) as nat, p as nat);
                lemma_small_mod((j + 1) as nat, p as nat);
            }
        }
    }
    assert forall|x: int| s.contains(x) <==> 1 <= x <= m by {
        if 1 <= x <= m {
            assert(s[x - 1] == x);
        }
    }
    assert forall|x: int| t.contains(x) implies 1 <= x <= m by {
        let i = choose|i: int| 0 <= i < m && t[i] == x;
        lemma_mod_bound(a * (i + 1), p);
        lemma_small_mod((i + 1) as nat, p as nat);
        if x == 0 {
            lemma_euclid(p, a, i + 1);
        }
    }
    let range = set_int_range(1, p);
    lemma_int_range(1, p);
    t.unique_seq_to_set();
    assert(t.to_set().subset_of(range)) by {
        assert forall|x: int| t.to_set().contains(x) implies range.contains(x) by {
            assert(t.contains(x));
        }
    }
    lemma_subset_equality(t.to_set(), range);
    assert forall|x: int| s.contains(x) <==> t.contains(x) by {
        assert(range.contains(x) <==> 1 <= x < p);
        assert(t.to_set().contains(x) <==> t.contains(x));
    }
    lemma_product_rearranged(s, t);
    lemma_multiples_product(p, a, m);
    lemma_upto_product(p, m);
    let f = product(s);
    let e = pow(a, m as nat);
    lemma_mul_basics(f);
    lemma_mul_is_commutative(e, f);
    lemma_mul_is_commutative(1, f);
    lemma_cancel(p, f, e, 1);
    lemma_small_mod(1, p as nat);
}

/// The inverse of `a` modulo the prime `p`, in `1..p`.
pub open spec fn inverse(p: int, a: int) -> int {
    pow(a, (p - 2) as nat) % p
}

/// The inverse does invert.
pub proof fn lemma_inverse(p: int, a: int)
    requires
        prime(p),
        a % p != 0,
    ensures
        0 < inverse(p, a) < p,
        (a * inverse(p, a)) % p == 1,
{
    let e = pow(a, (p - 2) as nat);
    reveal(pow);
    assert(pow(a, (p - 1) as nat) == a * e);
    lemma_fermat(p, a);
    lemma_mul_mod_noop_right(a, e, p);
    lemma_mod_bound(e, p);
    if inverse(p, a) == 0 {
        lemma_mul_basics(a);
        lemma_small_mod(0, p as nat);
    }
}

/// `base` to the power `exp`, modulo `m`; the empty product is 1.
pub open spec fn power_mod(base: int, exp: nat, m: int) -> int {
    if exp == 0 {
        1
    } else {
        pow(base, exp) % m
    }
}

/// Fast exponentiation modulo `m`.
pub fn mod_pow(base: usize, exp: usize, m: usize) -> (r: usize)
    requires
        m > 0,
    ensures
        r == power_mod(base as int, exp as nat, m as int),
        m > 1 ==> r == pow(base as int, exp as nat) % (m as int),
{
    let mm: u128 = m as u128;
    let mut result: u128 = 1;
    let mut b: u128 = (base % m) as u128;
    let mut e: usize = exp;
    proof {
        lemma_pow_mod_noop(base as int, exp as nat, m as int);
        lemma_mul_basics(pow(b as int, exp as nat));
        lemma_mod_bound(base as int, m as int);
        if exp == 0 {
            lemma_pow0(base as int);
            if m > 1 {
                lemma_small_mod(1, m as nat);
            }
        }
    }
    while e > 0
        invariant
            mm == m,
            0 < m,
            result < m || (result == 1 && (e > 0 || exp == 0)),
            exp == 0 ==> e == 0 && result == 1,
            b < m,
            (result * pow(b as int, e as nat)) % (m as int) == pow(base as int, exp as nat) % (
            m as int),
        decreases e,
    {
        let ghost r0 = result as int;
        let ghost b0 = b as int;
        let ghost e0 = e as nat;
        let h: usize = e >> 1;
        assert(e >> 1 == e / 2 && e & 1 == e % 2) by (bit_vector);
        let ghost n = m as int;
        proof {
            assert(result * b <= u128::MAX) by (nonlinear_arith)
                requires
                    0 <= result <= 0xffff_ffff_ffff_ffff,
                    0 <= b <= 0xffff_ffff_ffff_ffff,
            ;
            assert(b * b <= u128::MAX) by (nonlinear_arith)
                requires
                    0 <= b <= 0xffff_ffff_ffff_ffff,
            ;
            // b^e == (b*b)^(e/2) * b^(e%2)
            lemma_pow_multiplies(b0, 2, h as nat);
            lemma_square_is_pow2(b0);
            lemma_pow_adds(b0, (2 * h) as nat, (e % 2) as nat);
            lemma_pow0(b0);
            lemma_pow1(b0);
        }
        if e & 1 == 1 {
            result = (result * b) % mm;
        }
        b = (b * b) % mm;
        e = h;
        proof {
            let sq = pow(b0 * b0, h as nat);
            lemma_pow_mod_noop(b0 * b0, h as nat, n);
            lemma_mod_bound(b0 * b0, n);
            lemma_mod_bound(r0 * b0, n);
            if e0 % 2 == 1 {
                assert(pow(b0, e0) == sq * b0);
                assert(r0 * (sq * b0) == (r0 * b0) * sq) by (nonlinear_arith);
                lemma_mod_twice(r0 * b0, n);
                lemma_cong_mul(n, result as int, r0 * b0, pow(b as int, h as nat), sq);
            } else {
                lemma_mul_basics(sq);
                assert(pow(b0, e0) == sq);
                lemma_cong_mul(n, r0, r0, pow(b as int, h as nat), sq);
            }
        }
    }
    proof {
        lemma_pow0(b as int);
        lemma_mul_basics(result as int);
        if exp > 0 {
            lemma_small_mod(result as nat, m as nat);
        }
    }
    result as usize
}

} // verus!
