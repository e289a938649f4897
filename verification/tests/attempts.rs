use paley::canonical::case_a_canonical;
use paley::lists::{contains, is_subsequence, pad, pad_from, prepend};
use paley::paley::Paley;
use paley::sampling::{
    extend_step, local_witness, pair_witness, pick, push_new, random_witness, sample_witness,
    swap_step, Extension,
};
use paley::seeded::{jitter, rescale, seeded_witness, try_pad};
use paley::structural::structural_witness;
use rand::SeedableRng;
use rand_xoshiro::Xoshiro256PlusPlus;

fn rng() -> Xoshiro256PlusPlus {
    Xoshiro256PlusPlus::seed_from_u64(7)
}

fn dominated(p: &Paley, s: &[usize]) -> bool {
    (0..p.n).any(|x| s.iter().all(|&v| p.qr[(v + p.n - x) % p.n]))
}

fn refutes(p: &Paley, k: usize, s: &[usize]) -> bool {
    let distinct = s.iter().enumerate().all(|(i, v)| !s[..i].contains(v));
    distinct && s.len() <= k && s.iter().all(|&v| v < p.n) && !dominated(p, s)
}

#[test]
fn list_helpers() {
    assert!(contains(&[3, 1, 2], 1));
    assert!(!contains(&[3, 1, 2], 4));
    assert!(!contains(&[], 0));
    assert!(is_subsequence(&[5, 1, 5, 2], &[]));
    assert!(is_subsequence(&[5, 1, 5, 2], &[1, 5]));
    assert!(is_subsequence(&[5, 1, 5, 2], &[5, 5, 2]));
    assert!(!is_subsequence(&[5, 1, 5, 2], &[2, 5]));
    assert!(!is_subsequence(&[5, 1, 5, 2], &[1, 1]));
    assert!(!is_subsequence(&[], &[1]));
    assert_eq!(prepend(5, &[1, 2]), vec![5, 1, 2]);
}

#[test]
fn padding() {
    let mut s: Vec<usize> = vec![0, 1, 3];
    pad(&mut s, 10, 6);
    assert_eq!(s, vec![0, 1, 3, 2, 4, 5]);
    let mut short: Vec<usize> = vec![0, 1];
    pad(&mut short, 4, 9);
    assert_eq!(short, vec![0, 1, 2, 3]);
    let mut full: Vec<usize> = vec![0, 1, 2, 3];
    pad(&mut full, 10, 2);
    assert_eq!(full, vec![0, 1, 2, 3]);
    let mut empty: Vec<usize> = vec![];
    pad_from(&mut empty, 0, 5, 3);
    assert_eq!(empty, vec![0, 1, 2]);
}

#[test]
fn progressions() {
    assert_eq!(structural_witness(&Paley::new(3), 2), Some(vec![0, 1]));
    assert_eq!(structural_witness(&Paley::new(7), 2), None);
    assert_eq!(structural_witness(&Paley::new(7), 3), Some(vec![0, 1, 2]));
    assert_eq!(structural_witness(&Paley::new(11), 3), Some(vec![0, 1, 3]));
    assert_eq!(structural_witness(&Paley::new(19), 3), None);
    assert_eq!(structural_witness(&Paley::new(19), 4), Some(vec![0, 1, 3, 9]));
    assert_eq!(structural_witness(&Paley::new(59), 4), Some(vec![0, 1, 19, 7]));
    assert_eq!(structural_witness(&Paley::new(67), 4), None);
    assert_eq!(structural_witness(&Paley::new(7), 1), None);
    assert_eq!(structural_witness(&Paley::new(7), 0), None);
}

#[test]
fn more_vertices_than_the_tournament_has() {
    assert_eq!(structural_witness(&Paley::new(7), 8), Some(vec![0, 1, 2]));
    assert_eq!(structural_witness(&Paley::new(3), 9), Some(vec![0, 1]));
    assert_eq!(random_witness(&Paley::new(3), &mut rng(), 4, 10), None);
    assert_eq!(local_witness(&Paley::new(3), &mut rng(), 4, 10, 10), None);
}

#[test]
fn canonical_lists_on_eleven_vertices() {
    let p = Paley::new(11);
    let kept: Vec<usize> = (2..11).filter(|&v| case_a_canonical(&[0, 1, v], &p)).collect();
    assert_eq!(kept, vec![2, 3, 5]);
    assert!(case_a_canonical(&[0, 1], &p));
    assert!(case_a_canonical(&[], &p));
}

#[test]
fn extensions_of_pruned_lists_are_pruned() {
    let p = Paley::new(19);
    for v in 2..19usize {
        if !case_a_canonical(&[0, 1, v], &p) {
            for w in v + 1..19 {
                assert!(!case_a_canonical(&[0, 1, v, w], &p));
            }
        }
    }
}

#[test]
fn long_lists_can_be_canonical() {
    let p = Paley::new(23);
    let all: Vec<usize> = (0..20).collect();
    assert!(case_a_canonical(&all, &p));
}

#[test]
fn samples() {
    let p = Paley::new(11);
    assert_eq!(sample_witness(&p, &[1, 3]), Some(vec![0, 1, 3]));
    assert_eq!(sample_witness(&p, &[1, 2]), None);
    assert_eq!(sample_witness(&p, &[]), None);
    let mut s: Vec<usize> = vec![4];
    push_new(&mut s, 4);
    push_new(&mut s, 2);
    assert_eq!(s, vec![4, 2]);
}

#[test]
fn random_lists() {
    let p = Paley::new(11);
    let s = random_witness(&p, &mut rng(), 3, 1000).unwrap();
    assert_eq!(s.len(), 3);
    assert_eq!(s[0], 0);
    assert!(refutes(&p, 3, &s));
    assert_eq!(random_witness(&p, &mut rng(), 2, 1000), None);
    assert_eq!(random_witness(&p, &mut rng(), 3, 0), None);
    assert_eq!(random_witness(&p, &mut rng(), 1, 1000), None);
    assert_eq!(random_witness(&Paley::new(67), &mut rng(), 4, 500), None);
}

#[test]
fn random_lists_of_all_vertices() {
    let p = Paley::new(7);
    let s = random_witness(&p, &mut rng(), 7, 1).unwrap();
    let mut sorted = s.clone();
    sorted.sort();
    assert_eq!(sorted, vec![0, 1, 2, 3, 4, 5, 6]);
}

#[test]
fn best_draw() {
    let p = Paley::new(11);
    let mut mask = p.nb[0].clone();
    mask.and_assign(&p.nb[1]);
    assert_eq!(pick(&p, &mask, &[0, 1], &[2, 5, 6], 99), 2);
    assert_eq!(pick(&p, &mask, &[0, 1], &[2, 4, 3], 99), 4);
    assert_eq!(pick(&p, &mask, &[0, 1], &[1, 0, 1], 99), 99);
    assert_eq!(pick(&p, &mask, &[0, 1], &[], 99), 99);
}

#[test]
fn swaps() {
    let p = Paley::new(11);
    let mut s: Vec<usize> = vec![1, 2];
    assert!(!swap_step(&p, &mut s, 1, &[1, 2]));
    assert_eq!(s, vec![1, 2]);
    assert!(!swap_step(&p, &mut s, 1, &[5]));
    assert_eq!(s, vec![1, 5]);
    assert!(swap_step(&p, &mut s, 1, &[2, 4]));
    assert_eq!(s, vec![1, 4]);
}

#[test]
fn local_search() {
    let p = Paley::new(59);
    let s = local_witness(&p, &mut rng(), 4, 1000, 100).unwrap();
    assert_eq!(s.len(), 4);
    assert_eq!(s[0], 0);
    assert!(refutes(&p, 4, &s));
    assert_eq!(local_witness(&Paley::new(19), &mut rng(), 3, 20, 20), None);
    assert_eq!(local_witness(&p, &mut rng(), 4, 0, 100), None);
    assert_eq!(local_witness(&p, &mut rng(), 1, 10, 10), None);
}

#[test]
fn greedy_steps() {
    let p = Paley::new(11);
    let mut mask = p.nb[0].clone();
    mask.and_assign(&p.nb[1]);
    let mut s: Vec<usize> = vec![0, 1];
    assert!(matches!(extend_step(&p, &mut mask, &mut s, &[1, 1]), Extension::Nothing));
    assert_eq!(s, vec![0, 1]);
    assert!(matches!(extend_step(&p, &mut mask, &mut s, &[2]), Extension::Open));
    assert_eq!(s, vec![0, 1, 2]);
    assert_eq!(mask.popcount(), 1);
    assert!(matches!(extend_step(&p, &mut mask, &mut s, &[2, 4]), Extension::Collapsed));
    assert_eq!(s, vec![0, 1, 2, 4]);
    assert_eq!(mask.popcount(), 0);
}

#[test]
fn close_pairs() {
    let p = Paley::new(11);
    assert_eq!(pair_witness(&p, &mut rng(), 4), Some(vec![0, 1, 2, 3]));
    assert_eq!(pair_witness(&p, &mut rng(), 6), Some(vec![0, 1, 2, 3, 4, 5]));
    assert_eq!(pair_witness(&p, &mut rng(), 3), None);
    assert_eq!(pair_witness(&Paley::new(3), &mut rng(), 4), None);
    assert_eq!(pair_witness(&Paley::new(67), &mut rng(), 4), None);
    let q = Paley::new(331);
    let s = pair_witness(&q, &mut rng(), 7).unwrap();
    assert!(refutes(&q, 7, &s));
}

#[test]
fn carried_lists() {
    let p = Paley::new(11);
    assert_eq!(try_pad(&p, &[11, 12, 14], 3), Some(vec![0, 1, 3]));
    assert_eq!(try_pad(&p, &[3, 14, 1, 9], 3), None);
    assert_eq!(try_pad(&p, &[], 2), None);
    assert_eq!(try_pad(&p, &[3], 4), Some(vec![3, 0, 1, 2]));
    assert_eq!(rescale(20, 10, &[0, 3, 9]), vec![0, 6, 18]);
    assert_eq!(rescale(11, 7, &[0, 1, 2]), vec![0, 1, 3]);
    assert_eq!(jitter(11, &[0, 10, 5, 3], &[0, 8, 4, 5]), vec![7, 3, 5, 4]);
}

#[test]
fn seeds() {
    let p = Paley::new(11);
    assert_eq!(seeded_witness(&p, &mut rng(), 3, &None), None);
    assert_eq!(seeded_witness(&p, &mut rng(), 3, &Some((7, vec![]))), None);
    assert_eq!(seeded_witness(&p, &mut rng(), 1, &Some((7, vec![0, 1, 3]))), None);
    assert_eq!(
        seeded_witness(&p, &mut rng(), 3, &Some((7, vec![0, 1, 3]))),
        Some(vec![0, 1, 3])
    );
    assert_eq!(
        seeded_witness(&p, &mut rng(), 3, &Some((7, vec![0, 1, 2]))),
        Some(vec![0, 1, 3])
    );
    let s = seeded_witness(&p, &mut rng(), 3, &Some((11, vec![0, 1, 2]))).unwrap();
    assert!(refutes(&p, 3, &s));
    assert_eq!(seeded_witness(&Paley::new(19), &mut rng(), 3, &Some((11, vec![0, 1, 3]))), None);
}

#[test]
fn nothing_is_drawn_where_nothing_is_tried() {
    let mut g = rng();
    let p = Paley::new(11);
    let q = Paley::new(7);
    assert_eq!(pair_witness(&q, &mut g, 5), Some(vec![0, 1, 2, 3, 4]));
    assert_eq!(pair_witness(&p, &mut g, 5), Some(vec![0, 1, 2, 3, 4]));
    assert_eq!(pair_witness(&q, &mut g, 3), None);
    assert_eq!(seeded_witness(&q, &mut g, 3, &Some((11, vec![0, 1, 3]))), Some(vec![0, 1, 2]));
    assert_eq!(seeded_witness(&q, &mut g, 3, &Some((11, vec![0, 7, 1]))), Some(vec![0, 1, 2]));
    assert_eq!(seeded_witness(&q, &mut g, 3, &None), None);
    assert_eq!(random_witness(&q, &mut g, 8, 5), None);
    assert_eq!(random_witness(&q, &mut g, 3, 0), None);
    assert_eq!(local_witness(&q, &mut g, 8, 5, 5), None);
    assert_eq!(local_witness(&q, &mut g, 3, 0, 5), None);
    assert!(g == rng());
    assert!(random_witness(&q, &mut g, 3, 5).is_some());
    assert!(g != rng());
}
