//! Quadratic residues modulo a prime of the form `4m + 3`.
use crate::modular::{
    inverse, lemma_cong_mul, lemma_cong_sub, lemma_euclid, lemma_fermat, lemma_inverse, prime,
};
use crate::primes::paley_prime;
use vstd::arithmetic::div_mod::*;
use vstd::arithmetic::mul::*;
use vstd::arithmetic::power::*;
use vstd::prelude::*;
use vstd::set_lib::*;

verus! {

/// The square of `b` modulo `n`.
pub open spec fn square_mod(n: int, b: int) -> int {
    (b * b) % n
}

/// `a` is a quadratic residue modulo `n`: the square of some number in `1..n`.
pub open spec fn residue(n: int, a: int) -> bool {
    exists|b: int| 1 <= b < n && #[trigger] square_mod(n, b) == a % n
}

/// Whether a number is a residue depends on its remainder alone.
pub proof fn lemma_residue_cong(n: int, a: int, b: int)
    requires
        a % n == b % n,
    ensures
        residue(n, a) == residue(n, b),
{
    if residue(n, a) {
        let c = choose|c: int| 1 <= c < n && #[trigger] square_mod(n, c) == a % n;
        assert(square_mod(n, c) == b % n);
    }
    if residue(n, b) {
        let c = choose|c: int| 1 <= c < n && #[trigger] square_mod(n, c) == b % n;
        assert(square_mod(n, c) == a % n);
    }
}

/// Any number that the prime does not divide squares to a residue.
pub proof fn lemma_square_is_residue(n: int, a: int, b: int)
    requires
        n > 0,
        b % n != 0,
        a % n == (b * b) % n,
    ensures
        residue(n, a),
{
    let c = b % n;
    lemma_mod_bound(b, n);
    lemma_mod_twice(b, n);
    lemma_cong_mul(n, c, b, c, b);
    assert(square_mod(n, c) == a % n);
}

/// No multiple of the prime is a residue.
pub proof fn lemma_zero_not_residue(n: int, a: int)
    requires
        prime(n),
        a % n == 0,
    ensures
        !residue(n, a),
{
    if residue(n, a) {
        let b = choose|b: int| 1 <= b < n && #[trigger] square_mod(n, b) == a % n;
        lemma_euclid(n, b, b);
        lemma_small_mod(b as nat, n as nat);
    }
}

/// The product of two residues is a residue.
pub proof fn lemma_residue_mul(n: int, a: int, b: int)
    requires
        prime(n),
        residue(n, a),
        residue(n, b),
    ensures
        residue(n, a * b),
{
    let c = choose|c: int| 1 <= c < n && #[trigger] square_mod(n, c) == a % n;
    let d = choose|d: int| 1 <= d < n && #[trigger] square_mod(n, d) == b % n;
    lemma_small_mod(c as nat, n as nat);
    lemma_small_mod(d as nat, n as nat);
    if (c * d) % n == 0 {
        lemma_euclid(n, c, d);
    }
    lemma_mod_twice(a, n);
    lemma_cong_mul(n, a, c * c, b, d * d);
    assert((c * c) * (d * d) == (c * d) * (c * d)) by (nonlinear_arith);
    lemma_square_is_residue(n, a * b, c * d);
}

/// A residue divides a residue: `a` and `a * b` residues make `b` one.
pub proof fn lemma_residue_div(n: int, a: int, b: int)
    requires
        prime(n),
        residue(n, a),
        residue(n, a * b),
    ensures
        residue(n, b),
{
    // b == (a * b) * inv, where inv inverts a and is the square of the
    // inverse of a root of a.
    let c = choose|c: int| 1 <= c < n && #[trigger] square_mod(n, c) == a % n;
    lemma_small_mod(c as nat, n as nat);
    let d = inverse(n, c);
    lemma_inverse(n, c);
    lemma_small_mod(d as nat, n as nat);
    lemma_square_is_residue(n, d * d, d);
    lemma_residue_mul(n, a * b, d * d);
    // (a * b) * (d * d) == b
    lemma_small_mod(1, n as nat);
    lemma_cong_mul(n, c * d, 1, c * d, 1);
    assert((c * d) * (c * d) == (c * c) * (d * d)) by (nonlinear_arith);
    lemma_mod_twice(a, n);
    lemma_cong_mul(n, a, c * c, d * d, d * d);
    lemma_cong_mul(n, a * (d * d), 1, b, b);
    assert((a * b) * (d * d) == (a * (d * d)) * b) by (nonlinear_arith);
    lemma_mul_basics(b);
    lemma_residue_cong(n, (a * b) * (d * d), b);
}

/// The inverse of a residue is a residue.
pub proof fn lemma_residue_inverse(n: int, a: int)
    requires
        prime(n),
        residue(n, a),
    ensures
        residue(n, inverse(n, a)),
        a % n != 0,
{
    if a % n == 0 {
        lemma_zero_not_residue(n, a);
    }
    lemma_inverse(n, a);
    lemma_small_mod(1, n as nat);
    lemma_square_is_residue(n, a * inverse(n, a), 1);
    lemma_residue_div(n, a, inverse(n, a));
}

/// An odd power of -1 is -1.
proof fn lemma_odd_power_of_minus_one(e: nat)
    requires
        e % 2 == 1,
    ensures
        pow(-1, e) == -1,
    decreases e,
{
    reveal(pow);
    if e == 1 {
        lemma_pow1(-1);
    } else {
        lemma_odd_power_of_minus_one((e - 2) as nat);
        assert(pow(-1, e) == -1 * pow(-1, (e - 1) as nat));
        assert(pow(-1, (e - 1) as nat) == -1 * pow(-1, (e - 2) as nat));
    }
}

/// -1 is no residue modulo a prime of the form `4m + 3`.
pub proof fn lemma_minus_one_not_residue(n: int)
    requires
        paley_prime(n),
    ensures
        !residue(n, -1),
{
    if residue(n, -1) {
        let b = choose|b: int| 1 <= b < n && #[trigger] square_mod(n, b) == (-1int) % n;
        lemma_small_mod(b as nat, n as nat);
        let h = ((n - 1) / 2) as nat;
        lemma_fermat(n, b);
        lemma_square_is_pow2(b);
        lemma_pow_multiplies(b, 2, h);
        assert(pow(b * b, h) == pow(b, (n - 1) as nat));
        lemma_pow_mod_noop(b * b, h, n);
        lemma_pow_mod_noop(-1, h, n);
        lemma_odd_power_of_minus_one(h);
        assert((-1int) % n == 1);
        lemma_mod_add_multiples_vanish(-1, n);
        lemma_small_mod((n - 1) as nat, n as nat);
    }
}

/// No number and its negative are both residues.
proof fn lemma_not_both_residues(n: int, a: int)
    requires
        paley_prime(n),
    ensures
        !(residue(n, a) && residue(n, -a)),
{
    if residue(n, a) && residue(n, -a) {
        assert(a * -1 == -a);
        lemma_residue_div(n, a, -1);
        lemma_minus_one_not_residue(n);
    }
}

/// The squares of the numbers up to half of `n` differ.
proof fn lemma_squares_apart(n: int, b: int, c: int)
    requires
        prime(n),
        1 <= b,
        1 <= c,
        b + c < n,
        (b * b) % n == (c * c) % n,
    ensures
        b == c,
{
    lemma_mod_equivalence(b * b, c * c, n);
    assert(b * b - c * c == (b - c) * (b + c)) by (nonlinear_arith);
    lemma_euclid(n, b - c, b + c);
    lemma_small_mod((b + c) as nat, n as nat);
    if b > c {
        lemma_small_mod((b - c) as nat, n as nat);
    } else if c > b {
        lemma_mod_add_multiples_vanish(b - c, n);
        lemma_small_mod((n + b - c) as nat, n as nat);
    }
}

/// The residues among `1..n`, up to the sign `sign` of 1 or -1.
spec fn signed_residues(n: int, sign: int) -> Set<int> {
    Set::new(|x: int| 1 <= x < n && residue(n, sign * x))
}

/// At least half of the numbers in `1..n` are residues, and at least half are
/// negatives of residues.
proof fn lemma_many_residues(n: int, sign: int)
    requires
        prime(n),
        n % 2 == 1,
        sign == 1 || sign == -1,
    ensures
        signed_residues(n, sign).finite(),
        signed_residues(n, sign).len() >= (n - 1) / 2,
{
    let h = (n - 1) / 2;
    let half = set_int_range(1, h + 1);
    lemma_int_range(1, h + 1);
    let f = |b: int| (sign * (b * b)) % n;
    let image = half.map(f);
    half.lemma_map_finite(f);
    assert forall|b: int, c: int|
        half.contains(b) && half.contains(c) && #[trigger] f(b) == #[trigger] f(c) implies b
        == c by {
        lemma_cong_mul(n, sign, sign, sign * (b * b), sign * (c * c));
        assert(sign * (sign * (b * b)) == b * b) by (nonlinear_arith)
            requires
                sign == 1 || sign == -1,
        ;
        assert(sign * (sign * (c * c)) == c * c) by (nonlinear_arith)
            requires
                sign == 1 || sign == -1,
        ;
        lemma_squares_apart(n, b, c);
    }
    lemma_map_size(half, image, f);
    let all = signed_residues(n, sign);
    assert forall|x: int| image.contains(x) implies all.contains(x) by {
        let b = choose|b: int| half.contains(b) && f(b) == x;
        lemma_mod_bound(sign * (b * b), n);
        lemma_mod_twice(sign * (b * b), n);
        lemma_cong_mul(n, sign, sign, x, sign * (b * b));
        assert(sign * (sign * (b * b)) == b * b) by (nonlinear_arith)
            requires
                sign == 1 || sign == -1,
        ;
        assert(square_mod(n, b) == (sign * x) % n);
        if x == 0 {
            lemma_small_mod(0, n as nat);
            lemma_zero_not_residue(n, sign * x);
        }
    }
    lemma_int_range(1, n);
    assert(all.subset_of(set_int_range(1, n)));
    lemma_len_subset(all, set_int_range(1, n));
    lemma_len_subset(image, all);
}

/// Two disjoint sets that each fill half of `1..n` leave no number out.
proof fn lemma_two_halves(q: Set<int>, r: Set<int>, n: int, x: int)
    requires
        n % 2 == 1,
        q.finite(),
        r.finite(),
        q.len() >= (n - 1) / 2,
        r.len() >= (n - 1) / 2,
        q.disjoint(r),
        q.subset_of(set_int_range(1, n)),
        r.subset_of(set_int_range(1, n)),
        1 <= x < n,
    ensures
        q.contains(x) || r.contains(x),
{
    let all = set_int_range(1, n);
    lemma_int_range(1, n);
    lemma_set_disjoint_lens(q, r);
    lemma_len_subset(q + r, all);
    lemma_subset_equality(q + r, all);
    assert((q + r).contains(x));
}

/// Of a number that the prime does not divide and its negative, exactly one is
/// a residue.
pub proof fn lemma_residue_dichotomy(n: int, a: int)
    requires
        paley_prime(n),
        a % n != 0,
    ensures
        residue(n, a) != residue(n, -a),
{
    lemma_not_both_residues(n, a);
    let x = a % n;
    lemma_mod_bound(a, n);
    lemma_mod_twice(a, n);
    lemma_residue_cong(n, a, x);
    lemma_cong_sub(n, 0, 0, a, x);
    lemma_residue_cong(n, -a, -x);
    assert(residue(n, x) || residue(n, -x)) by {
        let q = signed_residues(n, 1);
        let r = signed_residues(n, -1);
        lemma_many_residues(n, 1);
        lemma_many_residues(n, -1);
        assert(q.disjoint(r)) by {
            assert forall|y: int| !(q.contains(y) && r.contains(y)) by {
                lemma_not_both_residues(n, y);
                assert(1 * y == y && -1 * y == -y);
            }
        }
        lemma_two_halves(q, r, n, x);
        assert(1 * x == x && -1 * x == -x);
    }
}

} // verus!
