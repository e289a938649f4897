use paley::bounds::{checked_lower_bound, checked_weil_hi, lower_bound, weil_hi};
use paley::modular::mod_pow;
use paley::primes::{checked_next_prime_3mod4, is_prime, next_prime_3mod4_at_least};

#[test]
fn small_primes() {
    let primes: Vec<usize> = (0..60).filter(|&n| is_prime(n)).collect();
    assert_eq!(primes, vec![2, 3, 5, 7, 11, 13, 17, 19, 23, 29, 31, 37, 41, 43, 47, 53, 59]);
}

#[test]
fn squares_of_primes_are_not_prime() {
    for p in [3usize, 5, 7, 11, 13, 97, 101, 65_537] {
        assert!(!is_prime(p * p));
    }
}

#[test]
fn large_primes() {
    assert!(is_prime(4_294_967_291));
    assert!(!is_prime(4_294_967_295));
    assert!(!is_prime(usize::MAX));
}

#[test]
fn next_primes_of_the_form_4m_3() {
    assert_eq!(next_prime_3mod4_at_least(0), 3);
    assert_eq!(next_prime_3mod4_at_least(3), 3);
    assert_eq!(next_prime_3mod4_at_least(4), 7);
    assert_eq!(next_prime_3mod4_at_least(8), 11);
    assert_eq!(next_prime_3mod4_at_least(12), 19);
    assert_eq!(next_prime_3mod4_at_least(68), 71);
    assert_eq!(next_prime_3mod4_at_least(2683), 2683);
}

#[test]
fn checked_next_prime_at_the_end_of_the_range() {
    assert_eq!(checked_next_prime_3mod4(20), Some(23));
    assert_eq!(checked_next_prime_3mod4(usize::MAX), None);
}

#[test]
fn powers_modulo_a_number() {
    assert_eq!(mod_pow(2, 10, 1000), 24);
    assert_eq!(mod_pow(3, 0, 7), 1);
    assert_eq!(mod_pow(0, 5, 7), 0);
    assert_eq!(mod_pow(10, 3, 1), 0);
    assert_eq!(mod_pow(5, 0, 1), 1);
    assert_eq!(mod_pow(usize::MAX, 2, usize::MAX - 1), 1);
}

#[test]
fn fermat_inverses() {
    for q in 1usize..67 {
        assert_eq!(q * mod_pow(q, 65, 67) % 67, 1);
    }
}

#[test]
fn lower_bounds() {
    assert_eq!(lower_bound(0), 1);
    assert_eq!(lower_bound(1), 1);
    assert_eq!(lower_bound(2), 2);
    assert_eq!(lower_bound(7), 64);
    assert_eq!(checked_lower_bound(64), Some(1usize << 63));
    assert_eq!(checked_lower_bound(65), None);
    assert_eq!(checked_lower_bound(usize::MAX), None);
}

#[test]
fn upper_bounds() {
    assert_eq!(weil_hi(0), 8);
    assert_eq!(weil_hi(1), 8);
    assert_eq!(weil_hi(2), 16);
    assert_eq!(weil_hi(3), 144);
    assert_eq!(weil_hi(7), 200_704);
    assert_eq!(checked_weil_hi(28), Some(784 << 54));
    assert_eq!(checked_weil_hi(29), None);
    assert_eq!(checked_weil_hi(usize::MAX), None);
}

#[test]
fn known_values_lie_between_the_bounds() {
    let known: [usize; 6] = [3, 7, 19, 67, 331, 1163];
    for (i, &n) in known.iter().enumerate() {
        let k: usize = i + 1;
        assert!(lower_bound(k) <= n && n < weil_hi(k));
        assert!(n + 1 >= 1usize << (k + 1));
    }
}
