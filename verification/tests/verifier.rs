use paley::bitset::BitSet;
use paley::bounds::weil_hi;
use paley::canonical::{case_a_canonical, CanonicalKind};
use paley::enumerate::{
    enumerate_parallel, enumerate_serial, must_stop, outcome, verify, Ending, VerifyResult,
};
use paley::paley::Paley;
use paley::primes::next_prime_3mod4_at_least;
use std::sync::atomic::{AtomicBool, Ordering};
use std::time::{Duration, Instant};

fn dominated(p: &Paley, s: &[usize]) -> bool {
    (0..p.n).any(|x| s.iter().all(|&v| p.qr[(v + p.n - x) % p.n]))
}

fn arc(p: &Paley, b: usize) -> BitSet {
    let mut mask = p.nb[0].clone();
    mask.and_assign(&p.nb[b]);
    mask
}

fn serial(p: &Paley, depth: usize, kind: CanonicalKind) -> Option<Vec<usize>> {
    let pool: Vec<usize> = (2..p.n).collect();
    let mut cur: Vec<usize> = vec![0, 1];
    let r = enumerate_serial(p, &arc(p, 1), &pool, depth, &mut cur, kind, None, None, None);
    assert_eq!(cur, vec![0, 1]);
    match r {
        Some(Ending::Found(t)) => Some(t),
        Some(Ending::Stopped) => panic!("stopped"),
        None => None,
    }
}

fn parallel(p: &Paley, depth: usize) -> Option<Vec<usize>> {
    let pool: Vec<usize> = (2..p.n).collect();
    let flag = AtomicBool::new(false);
    let r = enumerate_parallel(
        p,
        &arc(p, 1),
        &pool,
        depth,
        &[0, 1],
        CanonicalKind::Any,
        Some(&flag),
        None,
        None,
    );
    match r {
        Some(Ending::Found(t)) => Some(t),
        Some(Ending::Stopped) => panic!("stopped"),
        None => None,
    }
}

#[test]
fn depth_first_finds_the_most_restrictive_list() {
    assert_eq!(serial(&Paley::new(7), 1, CanonicalKind::Any), Some(vec![2]));
    assert_eq!(serial(&Paley::new(11), 1, CanonicalKind::Any), Some(vec![3]));
    assert_eq!(serial(&Paley::new(19), 1, CanonicalKind::Any), None);
    assert_eq!(serial(&Paley::new(19), 2, CanonicalKind::Any), Some(vec![6, 7]));
    assert_eq!(serial(&Paley::new(43), 2, CanonicalKind::Any), Some(vec![10, 13]));
    assert_eq!(serial(&Paley::new(59), 2, CanonicalKind::Any), Some(vec![7, 19]));
    assert_eq!(serial(&Paley::new(67), 2, CanonicalKind::Any), None);
}

#[test]
fn the_filter_keeps_the_answer() {
    for n in [7usize, 11, 19, 23, 31, 43, 47, 59, 67] {
        let p = Paley::new(n);
        for depth in 1..3usize {
            let plain = serial(&p, depth, CanonicalKind::Any);
            let filtered = serial(&p, depth, CanonicalKind::CaseA);
            assert_eq!(plain.is_some(), filtered.is_some());
            if let Some(t) = filtered {
                let mut s: Vec<usize> = vec![0, 1];
                s.extend(t);
                assert!(!dominated(&p, &s));
            }
        }
    }
}

#[test]
fn a_candidate_without_room_does_not_end_the_search() {
    let p = Paley::new(11);
    let mut cur: Vec<usize> = vec![0, 1];
    // 3 empties the mask but is the last of the pool; 4 empties it too.
    let pool: Vec<usize> = vec![4, 2, 3];
    let r = enumerate_serial(
        &p,
        &arc(&p, 1),
        &pool,
        2,
        &mut cur,
        CanonicalKind::Any,
        None,
        None,
        None,
    );
    assert!(matches!(r, Some(Ending::Found(t)) if t == vec![4, 2]));
    let late: Vec<usize> = vec![2, 6, 3];
    let mut again: Vec<usize> = vec![0, 1];
    let r = enumerate_serial(
        &p,
        &arc(&p, 1),
        &late,
        2,
        &mut again,
        CanonicalKind::Any,
        None,
        None,
        None,
    );
    assert!(matches!(r, Some(Ending::Found(t)) if t == vec![2, 3]));
}

#[test]
fn empty_and_short_searches() {
    let p = Paley::new(7);
    let up = AtomicBool::new(true);
    let mut cur: Vec<usize> = vec![];
    let zero = BitSet::zeros(1);
    let found = enumerate_serial(
        &p,
        &zero,
        &[],
        0,
        &mut cur,
        CanonicalKind::Any,
        Some(&up),
        Some(&up),
        None,
    );
    assert!(matches!(found, Some(Ending::Found(t)) if t.is_empty()));
    let none = enumerate_serial(
        &p,
        &p.nb[0],
        &[1],
        2,
        &mut cur,
        CanonicalKind::Any,
        Some(&up),
        Some(&up),
        None,
    );
    assert!(none.is_none());
    let stopped = enumerate_serial(
        &p,
        &p.nb[0],
        &[1, 2],
        2,
        &mut cur,
        CanonicalKind::Any,
        None,
        Some(&up),
        None,
    );
    assert!(matches!(stopped, Some(Ending::Stopped)));
}

#[test]
fn parallel_search_agrees_with_the_serial_one() {
    for n in [7usize, 11, 19, 23, 31, 43, 47, 59, 67] {
        let p = Paley::new(n);
        for depth in 1..3usize {
            let found = parallel(&p, depth);
            assert_eq!(found.is_some(), serial(&p, depth, CanonicalKind::Any).is_some());
            if let Some(t) = found {
                assert_eq!(t.len(), depth);
                let mut s: Vec<usize> = vec![0, 1];
                s.extend(t);
                assert!(s.windows(2).all(|w| w[0] < w[1]));
                assert!(!dominated(&p, &s));
            }
        }
    }
}

#[test]
fn parallel_search_of_depth_zero() {
    let p = Paley::new(7);
    let r = enumerate_parallel(
        &p,
        &BitSet::zeros(1),
        &[2],
        0,
        &[0, 1],
        CanonicalKind::Any,
        None,
        None,
        None,
    );
    assert!(matches!(r, Some(Ending::Found(t)) if t.is_empty()));
    let r = enumerate_parallel(
        &p,
        &p.nb[0],
        &[2],
        2,
        &[0, 1],
        CanonicalKind::Any,
        None,
        None,
        None,
    );
    assert!(r.is_none());
}

#[test]
fn least_tournaments() {
    let table: [(usize, usize); 4] = [(1, 3), (2, 7), (3, 19), (4, 67)];
    for (k, least) in table {
        for n in [3usize, 7, 11, 19, 23, 31, 43, 47, 59, 67] {
            if n < k || n > least {
                continue;
            }
            let p = Paley::new(n);
            match verify(&p, k, None, None) {
                VerifyResult::Pass => assert_eq!(n, least),
                VerifyResult::Fail(s) => {
                    assert!(n < least);
                    assert_eq!(s.len(), k);
                    assert!(!dominated(&p, &s));
                }
                _ => panic!("undecided"),
            }
        }
    }
}

#[test]
fn the_fifth_property() {
    let p = Paley::new(331);
    assert!(matches!(verify(&p, 5, None, None), VerifyResult::Pass));
    let q = Paley::new(311);
    match verify(&q, 5, None, None) {
        VerifyResult::Fail(s) => assert!(s.len() == 5 && !dominated(&q, &s)),
        _ => panic!("not refuted"),
    }
}

#[test]
fn trivial_verifications() {
    let up = AtomicBool::new(true);
    let p = Paley::new(7);
    assert!(matches!(verify(&p, 0, None, Some(&up)), VerifyResult::Pass));
    assert!(matches!(verify(&p, 1, None, Some(&up)), VerifyResult::Pass));
    let q = Paley::new(3);
    assert!(matches!(verify(&q, 2, None, Some(&up)), VerifyResult::Fail(s) if s == vec![0, 1]));
}

#[test]
fn interrupts_and_deadlines() {
    let p = Paley::new(67);
    let flag = AtomicBool::new(true);
    assert!(matches!(verify(&p, 4, None, Some(&flag)), VerifyResult::Interrupted));
    assert!(flag.load(Ordering::Relaxed));
    let down = AtomicBool::new(false);
    let past = Some(Instant::now());
    assert!(matches!(verify(&p, 4, past, Some(&down)), VerifyResult::Timeout));
    assert!(matches!(verify(&p, 4, past, None), VerifyResult::Timeout));
    let later = Some(Instant::now() + Duration::from_secs(3600));
    assert!(matches!(verify(&p, 4, later, Some(&down)), VerifyResult::Pass));
    assert!(!down.load(Ordering::Relaxed));
}

#[test]
fn a_property_holds_with_the_weaker_ones() {
    let p = Paley::new(67);
    for k in 0..5usize {
        assert!(matches!(verify(&p, k, None, None), VerifyResult::Pass));
    }
    assert!(matches!(verify(&p, 5, None, None), VerifyResult::Fail(_)));
}

#[test]
fn what_the_signals_decide() {
    let now = Instant::now();
    let later = Some(now + Duration::from_secs(1));
    assert!(!must_stop(false, false, None, now));
    assert!(!must_stop(false, false, later, now));
    assert!(must_stop(false, false, Some(now), now));
    assert!(must_stop(true, false, None, now));
    assert!(must_stop(false, true, later, now));
    assert!(matches!(outcome(true, true, true, true), Some(VerifyResult::Interrupted)));
    assert!(matches!(outcome(false, true, true, true), Some(VerifyResult::Timeout)));
    assert!(matches!(outcome(false, false, true, true), Some(VerifyResult::Interrupted)));
    assert!(matches!(outcome(false, false, true, false), Some(VerifyResult::Timeout)));
    assert!(outcome(false, false, false, true).is_none());
}

#[test]
fn failing_lists_increase_from_zero() {
    let all: Vec<usize> = (0..19).collect();
    assert!(matches!(verify(&Paley::new(19), 19, None, None), VerifyResult::Fail(s) if s == all));
    let seven: Vec<usize> = (0..7).collect();
    assert!(matches!(verify(&Paley::new(7), 7, None, None), VerifyResult::Fail(s) if s == seven));
    for n in [11usize, 19, 43, 59] {
        match verify(&Paley::new(n), 4, None, None) {
            VerifyResult::Fail(s) => {
                assert_eq!(s[0], 0);
                assert!(s.windows(2).all(|w| w[0] < w[1]));
            }
            _ => panic!("not refuted"),
        }
    }
}

#[test]
fn lists_of_an_unsorted_pool() {
    let p = Paley::new(11);
    let pool: Vec<usize> = vec![4, 2, 3];
    let r = enumerate_parallel(
        &p,
        &arc(&p, 1),
        &pool,
        2,
        &[],
        CanonicalKind::Any,
        None,
        None,
        None,
    );
    match r {
        Some(Ending::Found(t)) => {
            assert!([vec![4, 2], vec![4, 3], vec![2, 3]].contains(&t));
        }
        _ => panic!("nothing found"),
    }
}

#[test]
fn tournaments_from_the_upper_limit_on() {
    for k in 0..4usize {
        let mut n = next_prime_3mod4_at_least(weil_hi(k));
        for _ in 0..3 {
            assert!(matches!(verify(&Paley::new(n), k, None, None), VerifyResult::Pass));
            n = next_prime_3mod4_at_least(n + 4);
        }
    }
}

#[test]
fn character_sums_of_two_factors() {
    for n in [7usize, 19, 43] {
        let p = Paley::new(n);
        let character = |a: usize| -> i64 {
            if a % n == 0 {
                0
            } else if p.qr[a % n] {
                1
            } else {
                -1
            }
        };
        for a in 0..n {
            for b in 0..a {
                let sum: i64 =
                    (0..n).map(|x| character(a + n - x) * character(b + n - x)).sum();
                assert!(sum * sum <= n as i64);
            }
        }
    }
}

#[test]
fn a_passed_deadline_stops_every_search() {
    let p = Paley::new(19);
    let pool: Vec<usize> = (2..19).collect();
    let past = Some(Instant::now());
    let abort = AtomicBool::new(false);
    let mut cur: Vec<usize> = vec![0, 1];
    let serial = enumerate_serial(
        &p,
        &arc(&p, 1),
        &pool,
        2,
        &mut cur,
        CanonicalKind::Any,
        Some(&abort),
        None,
        past,
    );
    assert!(matches!(serial, Some(Ending::Stopped)));
    assert!(abort.load(Ordering::Relaxed));
    let side = enumerate_parallel(
        &p,
        &arc(&p, 1),
        &pool,
        2,
        &[0, 1],
        CanonicalKind::Any,
        None,
        None,
        past,
    );
    assert!(matches!(side, Some(Ending::Stopped)));
    assert!(matches!(verify(&p, 2, past, None), VerifyResult::Timeout));
    assert!(matches!(verify(&p, 3, past, None), VerifyResult::Timeout));
    assert!(matches!(verify(&p, 20, past, None), VerifyResult::Timeout));
}

#[test]
fn parallel_search_under_the_filter() {
    for n in [11usize, 19, 43, 59, 67] {
        let p = Paley::new(n);
        let pool: Vec<usize> = (2..n).collect();
        let flag = AtomicBool::new(false);
        let r = enumerate_parallel(
            &p,
            &arc(&p, 1),
            &pool,
            2,
            &[0, 1],
            CanonicalKind::CaseA,
            Some(&flag),
            None,
            None,
        );
        match r {
            Some(Ending::Found(t)) => {
                assert!(n < 67);
                assert!(!dominated(&p, &[0, 1, t[0], t[1]]));
                assert!(case_a_canonical(&[0, 1, t[0]], &p));
                let early = !dominated(&p, &[0, 1, t[0]]);
                assert!(early || case_a_canonical(&[0, 1, t[0], t[1]], &p));
            }
            Some(Ending::Stopped) => panic!("stopped"),
            None => assert_eq!(n, 67),
        }
    }
}
