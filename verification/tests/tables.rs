use paley::bitset::BitSet;
use paley::paley::{has_dominator, Paley};

fn members(s: &BitSet) -> Vec<usize> {
    (0..64 * s.words.len()).filter(|&i| s.words[i / 64] >> (i % 64) & 1 == 1).collect()
}

fn of(nwords: usize, items: &[usize]) -> BitSet {
    let mut s = BitSet::zeros(nwords);
    for &i in items {
        s.set(i);
    }
    s
}

#[test]
fn set_and_count() {
    let s = of(3, &[0, 1, 63, 64, 127, 128, 128]);
    assert_eq!(members(&s), vec![0, 1, 63, 64, 127, 128]);
    assert_eq!(s.popcount(), 6);
    assert_eq!(BitSet::zeros(3).popcount(), 0);
    assert_eq!(BitSet::zeros(0).popcount(), 0);
    assert_eq!((BitSet { words: vec![u64::MAX, 1] }).popcount(), 65);
}

#[test]
fn copies_are_equal_and_apart() {
    let s = of(2, &[5, 70]);
    let mut t = BitSet::zeros(2);
    t.copy_from(&s);
    assert_eq!(members(&t), vec![5, 70]);
    let mut u = s.clone();
    u.set(6);
    assert_eq!(members(&s), vec![5, 70]);
    assert_eq!(members(&u), vec![5, 6, 70]);
}

#[test]
fn intersections() {
    let a = of(2, &[1, 2, 70]);
    let b = of(2, &[2, 3, 70, 71]);
    let mut c = a.clone();
    assert!(c.and_assign(&b));
    assert_eq!(members(&c), vec![2, 70]);
    assert!(!c.and_assign(&of(2, &[0, 3])));
    assert_eq!(members(&c), Vec::<usize>::new());
    let mut out = of(2, &[9]);
    assert!(BitSet::and_into(&mut out, &a, &b));
    assert_eq!(members(&out), vec![2, 70]);
    assert!(!BitSet::and_into(&mut out, &a, &of(2, &[0])));
    assert_eq!(members(&out), Vec::<usize>::new());
}

#[test]
fn intersections_of_unequal_width() {
    let mut wide = of(2, &[1, 70]);
    assert!(wide.and_assign(&of(1, &[2])));
    assert_eq!(members(&wide), vec![70]);
    let mut out = of(2, &[70]);
    assert!(BitSet::and_into(&mut out, &of(1, &[1, 2]), &of(2, &[2, 70])));
    assert_eq!(members(&out), vec![2, 70]);
}

#[test]
fn tournament_on_seven_vertices() {
    let p = Paley::new(7);
    assert_eq!(p.n, 7);
    assert_eq!(p.nwords, 1);
    assert_eq!(p.qr, vec![false, true, true, false, true, false, false]);
    assert_eq!(p.nrs, vec![3, 5, 6]);
    assert_eq!(p.qr_inv, vec![0, 1, 4, 0, 2, 0, 0]);
    let rows: Vec<Vec<usize>> = p.nb.iter().map(members).collect();
    assert_eq!(
        rows,
        vec![
            vec![3, 5, 6],
            vec![0, 4, 6],
            vec![0, 1, 5],
            vec![1, 2, 6],
            vec![0, 2, 3],
            vec![1, 3, 4],
            vec![2, 4, 5],
        ]
    );
}

#[test]
fn rows_that_cross_words() {
    let p = Paley::new(67);
    assert_eq!(p.nwords, 2);
    assert_eq!(
        members(&p.nb[5]),
        vec![
            1, 4, 7, 8, 10, 12, 13, 16, 17, 18, 23, 25, 32, 33, 35, 36, 37, 39, 43, 46, 47, 48, 49,
            50, 51, 53, 55, 56, 57, 58, 62, 63, 66
        ]
    );
    for n in [3usize, 11, 59, 67, 127, 131, 191, 331] {
        let p = Paley::new(n);
        for v in 0..n {
            let row: Vec<usize> = (0..n).filter(|&x| p.qr[(v + n - x) % n]).collect();
            assert_eq!(members(&p.nb[v]), row);
            assert_eq!(row.len(), (n - 1) / 2);
        }
    }
}

#[test]
fn one_of_two_vertices_dominates_the_other() {
    let p = Paley::new(43);
    for x in 0..43usize {
        for v in 0..43usize {
            let there = members(&p.nb[v]).contains(&x);
            let back = members(&p.nb[x]).contains(&v);
            assert_eq!(there != back, x != v);
            assert!(x != v || !there);
        }
    }
}

#[test]
fn checked_construction() {
    assert_eq!(Paley::checked_new(19).map(|p| p.n), Some(19));
    assert!(Paley::checked_new(0).is_none());
    assert!(Paley::checked_new(13).is_none());
    assert!(Paley::checked_new(15).is_none());
    assert!(Paley::checked_new(4_294_967_311).is_none());
}

#[test]
fn dominators_of_lists() {
    let p = Paley::new(7);
    let mut scratch = BitSet::zeros(1);
    assert!(has_dominator(&p, &p.nb[0], &[1], &mut scratch));
    assert_eq!(members(&scratch), vec![6]);
    assert!(!has_dominator(&p, &p.nb[0], &[1, 2], &mut scratch));
    assert_eq!(members(&scratch), Vec::<usize>::new());
    assert!(has_dominator(&p, &p.nb[0], &[], &mut scratch));
    assert!(!has_dominator(&p, &BitSet::zeros(1), &[], &mut scratch));
}

#[test]
fn multiplying_by_a_residue_keeps_the_arcs() {
    let p = Paley::new(23);
    for c in (1..23usize).filter(|&c| p.qr[c]) {
        for a in 0..23usize {
            let map = |y: usize| (y + 23 - a) * c % 23;
            for x in 0..23usize {
                for v in 0..23usize {
                    assert_eq!(p.qr[(map(v) + 23 - map(x)) % 23], p.qr[(v + 23 - x) % 23]);
                }
            }
        }
    }
}

#[test]
fn a_number_or_its_negative_is_a_residue() {
    let p = Paley::new(47);
    assert!(!p.qr[0]);
    assert!(!p.qr[46]);
    for a in 1..47usize {
        assert_ne!(p.qr[a], p.qr[47 - a]);
    }
}

#[test]
fn stored_inverses() {
    let p = Paley::new(59);
    for q in 0..59usize {
        if p.qr[q] {
            assert_eq!(q * p.qr_inv[q] % 59, 1);
        } else {
            assert_eq!(p.qr_inv[q], 0);
        }
    }
}
