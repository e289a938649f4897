use paley::args::{parse_args, plan, ArgError, Args, Flag, Mode, Plan, PlanError};
use paley::bookmark::{bookmark_text, parse_bookmark, Bookmark};
use paley::enumerate::VerifyResult;
use paley::paley::Paley;
use paley::search::{
    falsify, find_smallest_sk, Action, Answer, Opening, Search, Smallest, Stage,
};
use paley::text::{append_decimal, characters, parse_number, trim};
use rand::SeedableRng;
use rand_xoshiro::Xoshiro256PlusPlus;
use std::sync::atomic::AtomicBool;
use std::time::Instant;

fn words(line: &str) -> Vec<String> {
    line.split_whitespace().map(String::from).collect()
}

fn args(line: &str) -> Args {
    match parse_args(&words(line)) {
        Ok(a) => a,
        Err(e) => panic!("{:?}", e),
    }
}

fn arg_error(line: &str) -> ArgError {
    match parse_args(&words(line)) {
        Ok(_) => panic!("accepted"),
        Err(e) => e,
    }
}

fn number(s: &str, max: u64) -> Option<u64> {
    parse_number(&characters(s), max)
}

fn open(k: usize, lo: usize, hi: usize, bookmark: Bookmark) -> Search {
    match Search::begin(k, lo, hi, 200, bookmark) {
        Opening::Search(s) => s,
        _ => panic!("nothing to search"),
    }
}

fn run(search: &mut Search) -> Option<usize> {
    while let Some(n) = search.candidate() {
        let p = Paley::new(n);
        if search.falsify(&p).is_some() {
            continue;
        }
        match search.check(&p, None, None) {
            VerifyResult::Pass => return Some(n),
            VerifyResult::Fail(_) => {}
            _ => panic!("undecided"),
        }
    }
    None
}

#[test]
fn numbers_in_text() {
    assert_eq!(number("0", 9), Some(0));
    assert_eq!(number("007", 9), Some(7));
    assert_eq!(number("+42", 99), Some(42));
    assert_eq!(number("100", 99), None);
    assert_eq!(number("", 99), None);
    assert_eq!(number("+", 99), None);
    assert_eq!(number("-1", 99), None);
    assert_eq!(number("1 2", 99), None);
    assert_eq!(number("18446744073709551615", u64::MAX), Some(u64::MAX));
    assert_eq!(number("18446744073709551616", u64::MAX), None);
    for n in [0u64, 9, 10, 100, 1163, u64::MAX] {
        let mut s = String::new();
        append_decimal(&mut s, n);
        assert_eq!(s, format!("{}", n));
        assert_eq!(number(&s, u64::MAX), Some(n));
    }
}

#[test]
fn white_space_is_trimmed() {
    for s in ["", "   ", " a b \n", "\t\u{a0}x\u{3000}", "\u{2028}7\u{85}\r\n", "\u{200b}y"] {
        let t: String = trim(&characters(s)).into_iter().collect();
        assert_eq!(t, s.trim());
    }
}

#[test]
fn bookmarks_are_read() {
    assert_eq!(parse_bookmark(" 2683\n"), Bookmark::Pending(2683));
    assert_eq!(parse_bookmark("DONE: 1163"), Bookmark::Done(1163));
    assert_eq!(parse_bookmark("DONE:1163\n"), Bookmark::Done(1163));
    assert_eq!(parse_bookmark("  DONE:   7  "), Bookmark::Done(7));
    assert_eq!(parse_bookmark(""), Bookmark::Empty);
    assert_eq!(parse_bookmark("done: 7"), Bookmark::Empty);
    assert_eq!(parse_bookmark("DONE: x"), Bookmark::Empty);
    assert_eq!(parse_bookmark("DONE:"), Bookmark::Empty);
    assert_eq!(parse_bookmark("12 13"), Bookmark::Empty);
}

#[test]
fn bookmarks_are_written() {
    assert_eq!(bookmark_text(Bookmark::Pending(2683)), "2683");
    assert_eq!(bookmark_text(Bookmark::Done(1163)), "DONE: 1163");
    for b in [Bookmark::Empty, Bookmark::Pending(0), Bookmark::Pending(usize::MAX), Bookmark::Done(19)] {
        assert_eq!(parse_bookmark(&bookmark_text(b)), b);
    }
}

#[test]
fn plain_command_lines() {
    let a = args("A 8");
    assert_eq!(a.mode, Mode::OEIS);
    assert_eq!(a.target, 8);
    assert_eq!(a.lo, None);
    assert_eq!(a.hi, None);
    assert_eq!(a.sample_budget, 100_000);
    assert_eq!(a.threads, None);
    assert_eq!(a.bookmark, None);
    assert_eq!(a.verify_timeout_secs, 0);
    assert_eq!(args("a 1").mode, Mode::OEIS);
    assert_eq!(args("oeis 1").mode, Mode::OEIS);
    assert_eq!(args("SK 7").mode, Mode::SK);
    assert_eq!(args("sk 7").mode, Mode::SK);
}

#[test]
fn flags_of_the_command_line() {
    let a = args(
        "SK 7 --lo 2683 --hi 9000 --budget 5 --threads 8 --bookmark b.txt --verify-timeout 60",
    );
    assert_eq!(a.lo, Some(2683));
    assert_eq!(a.hi, Some(9000));
    assert_eq!(a.sample_budget, 5);
    assert_eq!(a.threads, Some(8));
    assert_eq!(a.bookmark, Some(String::from("b.txt")));
    assert_eq!(a.verify_timeout_secs, 60);
    assert_eq!(args("A 8 --lo 1 --lo 2").lo, Some(2));
}

#[test]
fn faulty_command_lines() {
    assert_eq!(arg_error(""), ArgError::MissingTarget);
    assert_eq!(arg_error("A"), ArgError::MissingTarget);
    assert_eq!(arg_error("B 8"), ArgError::BadMode);
    assert_eq!(arg_error("B"), ArgError::BadMode);
    assert_eq!(arg_error("A x"), ArgError::BadTarget);
    assert_eq!(arg_error("A 8 --lo"), ArgError::MissingValue(Flag::Lo));
    assert_eq!(arg_error("A 8 --bookmark"), ArgError::MissingValue(Flag::Bookmark));
    assert_eq!(arg_error("A 8 --hi x"), ArgError::BadValue(Flag::Hi));
    assert_eq!(arg_error("A 8 --threads -1"), ArgError::BadValue(Flag::Threads));
    assert_eq!(arg_error("A 8 --lo 5 extra"), ArgError::UnknownFlag(4));
    assert_eq!(arg_error("A 8 --budget 1 --verify-timeout z"), ArgError::BadValue(Flag::VerifyTimeout));
    assert_eq!(arg_error("A 8 --budget z --lo"), ArgError::BadValue(Flag::Budget));
}

#[test]
fn plans() {
    assert!(matches!(plan(&args("A 0")), Err(PlanError::IndexZero)));
    assert!(matches!(plan(&args("A 1")), Ok(Plan::Trivial)));
    match plan(&args("A 8")) {
        Ok(Plan::Run(r)) => {
            assert_eq!(r.k, 7);
            assert_eq!(r.label, "A(8)");
            assert_eq!(r.lo, 64);
            assert_eq!(r.hi, 200_704);
            assert_eq!(r.bookmark, "bookmark_a8.txt");
        }
        _ => panic!("no search"),
    }
    match plan(&args("SK 7 --lo 2683 --hi 5000 --bookmark mine.txt")) {
        Ok(Plan::Run(r)) => {
            assert_eq!(r.k, 7);
            assert_eq!(r.label, "SK(7)");
            assert_eq!(r.lo, 2683);
            assert_eq!(r.hi, 5000);
            assert_eq!(r.bookmark, "mine.txt");
        }
        _ => panic!("no search"),
    }
    match plan(&args("SK 0")) {
        Ok(Plan::Run(r)) => {
            assert_eq!(r.k, 0);
            assert_eq!(r.bookmark, "bookmark_sk0.txt");
        }
        _ => panic!("no search"),
    }
    assert!(matches!(plan(&args("SK 99")), Err(PlanError::LowerBoundOverflow)));
    assert!(matches!(plan(&args("SK 40")), Err(PlanError::UpperBoundOverflow)));
    assert!(matches!(plan(&args("SK 99 --lo 3 --hi 9")), Ok(Plan::Run(_))));
}

#[test]
fn openings() {
    assert!(matches!(Search::begin(0, 1, 9, 1, Bookmark::Done(5)), Opening::Trivial));
    assert!(matches!(Search::begin(3, 1, 9, 1, Bookmark::Done(19)), Opening::Recorded(19)));
    let s = open(3, 4, 144, Bookmark::Empty);
    assert_eq!(s.start, 4);
    assert_eq!(s.candidate(), Some(7));
    assert_eq!(s.bookmark(), Some(7));
    assert!(s.rng == Xoshiro256PlusPlus::seed_from_u64(0xC0_FF_EE));
    assert_eq!(open(3, 4, 144, Bookmark::Pending(12)).candidate(), Some(19));
    assert_eq!(open(3, 24, 144, Bookmark::Pending(12)).candidate(), Some(31));
    assert_eq!(open(3, 4, 5, Bookmark::Empty).candidate(), None);
    assert_eq!(open(3, usize::MAX, usize::MAX, Bookmark::Empty).candidate(), None);
}

#[test]
fn known_values() {
    let table: [(usize, usize); 4] = [(1, 3), (2, 7), (3, 19), (4, 67)];
    for (k, least) in table {
        match plan(&args(&format!("SK {}", k))) {
            Ok(Plan::Run(r)) => {
                assert_eq!(run(&mut open(r.k, r.lo, r.hi, Bookmark::Empty)), Some(least));
            }
            _ => panic!("no search"),
        }
    }
}

#[test]
fn whole_searches() {
    assert_eq!(find_smallest_sk(0, 5, 9, 10), Smallest::Found(1));
    assert_eq!(find_smallest_sk(1, 1, 8, 10), Smallest::Found(3));
    assert_eq!(find_smallest_sk(2, 2, 16, 10), Smallest::Found(7));
    assert_eq!(find_smallest_sk(3, 4, 144, 10), Smallest::Found(19));
    assert_eq!(find_smallest_sk(4, 8, 1024, 10), Smallest::Found(67));
    assert_eq!(find_smallest_sk(4, 68, 1024, 10), Smallest::Found(71));
    assert_eq!(find_smallest_sk(4, 8, 67, 10), Smallest::Nothing);
    assert_eq!(find_smallest_sk(4, 9, 9, 10), Smallest::Nothing);
    assert_eq!(
        find_smallest_sk(1, 4_294_967_298, usize::MAX, 10),
        Smallest::TooLarge(4_294_967_311)
    );
}

#[test]
fn an_exhausted_range() {
    let mut s = open(4, 4, 67, Bookmark::Empty);
    assert_eq!(run(&mut s), None);
    assert_eq!(s.candidate(), None);
    assert_eq!(s.bookmark(), None);
    assert_eq!(s.next_action(false), Action::End(Answer::Nothing));
}

#[test]
fn resumed_searches_find_the_same() {
    let mut s = open(4, 4, 256, Bookmark::Empty);
    for _ in 0..5 {
        let p = Paley::new(s.candidate().unwrap());
        assert!(s.falsify(&p).is_some());
    }
    let text = bookmark_text(Bookmark::Pending(s.bookmark().unwrap()));
    assert_eq!(run(&mut open(4, 4, 256, parse_bookmark(&text))), Some(67));
}

#[test]
fn stages_of_the_quick_attempts() {
    let mut s = open(4, 19, 256, Bookmark::Empty);
    let p = Paley::new(19);
    let (stage, list) = s.falsify(&p).unwrap();
    assert_eq!(stage, Stage::Progression);
    assert_eq!(stage.name(), "structural");
    assert_eq!(list, vec![0, 1, 3, 9]);
    assert_eq!(s.candidate(), Some(23));
    assert!(s.seed.is_none());
    let mut rng = Xoshiro256PlusPlus::seed_from_u64(1);
    let seed: Option<(usize, Vec<usize>)> = Some((19, vec![0, 1, 3, 9]));
    let found = falsify(&p, &mut rng, 4, &seed, 10).unwrap();
    assert_eq!(found, (Stage::Seeded, vec![0, 1, 3, 9]));
    assert_eq!(falsify(&p, &mut rng, 1, &seed, 10), None);
    assert_eq!(falsify(&p, &mut rng, 3, &None, 10), None);
    let names: Vec<&str> = [Stage::Seeded, Stage::Pair, Stage::Random, Stage::Local, Stage::Verify]
        .iter()
        .map(|s| s.name())
        .collect();
    assert_eq!(names, vec!["seeded", "pair", "random", "local", "verify"]);
}

#[test]
fn seeds_are_kept() {
    let mut s = open(4, 19, 256, Bookmark::Empty);
    s.conclude(19, &VerifyResult::Fail(vec![0, 1, 3, 9]));
    assert_eq!(s.candidate(), Some(23));
    assert_eq!(s.seed, Some((19, vec![0, 1, 3, 9])));
    assert_eq!(s.bookmark(), Some(23));
}

#[test]
fn candidates_that_run_out_of_time() {
    let mut s = open(4, 60, 72, Bookmark::Empty);
    let p = Paley::new(67);
    assert!(s.falsify(&p).is_none());
    let past = Some(Instant::now());
    let flag = AtomicBool::new(false);
    assert!(matches!(s.check(&p, past, Some(&flag)), VerifyResult::Timeout));
    assert_eq!(s.stalled, vec![67]);
    assert_eq!(s.next_action(false), Action::Try(67, 71));
    assert_eq!(s.next_action(true), Action::Stop(71));
    assert_eq!(s.candidate(), Some(71));
    assert_eq!(s.bookmark(), Some(67));
    assert_eq!(s.closing_bookmark(71), Bookmark::Pending(67));
    s.conclude(71, &VerifyResult::Timeout);
    assert_eq!(s.candidate(), None);
    assert_eq!(s.next_action(true), Action::End(Answer::TimeoutCandidate(67)));
    assert_eq!(s.bookmark(), Some(67));
}

#[test]
fn interrupted_and_passed_candidates_stay() {
    let mut s = open(4, 60, 72, Bookmark::Empty);
    let p = Paley::new(67);
    let up = AtomicBool::new(true);
    assert!(matches!(s.check(&p, None, Some(&up)), VerifyResult::Interrupted));
    assert_eq!(s.candidate(), Some(67));
    assert!(matches!(s.check(&p, None, None), VerifyResult::Pass));
    assert_eq!(s.candidate(), Some(67));
    assert_eq!(s.closing_bookmark(67), Bookmark::Done(67));
}

#[test]
fn answers() {
    assert_eq!(Opening::Trivial.answer(), Some(Answer::Found(1)));
    assert_eq!(Opening::Recorded(19).answer(), Some(Answer::Found(19)));
    let s = open(4, 60, 72, Bookmark::Empty);
    assert_eq!(s.next_action(false), Action::Try(67, 67));
    assert_eq!(s.answer(67, &VerifyResult::Pass), Some(Answer::Found(67)));
    assert_eq!(s.answer(67, &VerifyResult::Interrupted), Some(Answer::Nothing));
    assert_eq!(s.answer(67, &VerifyResult::Timeout), None);
    assert_eq!(s.answer(67, &VerifyResult::Fail(vec![])), None);
    assert_eq!(Opening::Search(s).answer(), None);
}
