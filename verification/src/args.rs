//! The command line, and the search that it asks for.
use crate::bounds::{
    checked_lower_bound, checked_weil_hi, lemma_lower_limit, lower_limit, upper_limit,
};
use crate::primes::paley_prime;
use crate::text::{
    append_decimal, characters, decimal, lemma_decimal, lemma_value_nonnegative, number,
    parse_number, unsigned_part,
};
use crate::tournament::property_s;
use crate::weil::{character_sums_bounded, lemma_upper_limit};
use vstd::prelude::*;

verus! {

/// What the target number of the command line counts.
#[derive(Clone, Copy, Debug, PartialEq, Eq, Structural)]
pub enum Mode {
    /// The index in the sequence of least tournaments, which starts with 1.
    OEIS,
    /// The index of the property S_k.
    SK,
}

/// A flag of the command line; each takes a value.
#[derive(Clone, Copy, Debug, PartialEq, Eq, Structural)]
pub enum Flag {
    Lo,
    Hi,
    Budget,
    Threads,
    Bookmark,
    VerifyTimeout,
}

/// Why a command line was not understood.
#[derive(Clone, Copy, Debug, PartialEq, Eq, Structural)]
pub enum ArgError {
    /// The first argument names no mode.
    BadMode,
    /// There is no second argument.
    MissingTarget,
    /// The second argument is no number.
    BadTarget,
    /// A flag is the last argument.
    MissingValue(Flag),
    /// The value of a flag is no number.
    BadValue(Flag),
    /// The argument at this position is no flag.
    UnknownFlag(usize),
}

/// The arguments of a search.
pub struct Args {
    pub mode: Mode,
    pub target: usize,
    pub lo: Option<usize>,
    pub hi: Option<usize>,
    pub sample_budget: u64,
    pub threads: Option<usize>,
    pub bookmark: Option<String>,
    /// The time that a verification may take, in seconds; 0 for any time.
    pub verify_timeout_secs: u64,
}

/// The arguments of a search, with text as a sequence of characters.
pub struct ArgsView {
    pub mode: Mode,
    pub target: usize,
    pub lo: Option<usize>,
    pub hi: Option<usize>,
    pub sample_budget: u64,
    pub threads: Option<usize>,
    pub bookmark: Option<Seq<char>>,
    pub verify_timeout_secs: u64,
}

impl View for Args {
    type V = ArgsView;

    open spec fn view(&self) -> ArgsView {
        ArgsView {
            mode: self.mode,
            target: self.target,
            lo: self.lo,
            hi: self.hi,
            sample_budget: self.sample_budget,
            threads: self.threads,
            bookmark: match self.bookmark {
                Some(s) => Some(s@),
                None => None,
            },
            verify_timeout_secs: self.verify_timeout_secs,
        }
    }
}

/// The number of random lists that are tried where no flag says otherwise.
pub const DEFAULT_BUDGET: u64 = 100_000;

/// The mode that a word names.
pub open spec fn mode_of(s: Seq<char>) -> Option<Mode> {
    if s == "A"@ || s == "a"@ || s == "oeis"@ {
        Some(Mode::OEIS)
    } else if s == "SK"@ || s == "sk"@ {
        Some(Mode::SK)
    } else {
        None
    }
}

/// The flag that a word names.
pub open spec fn flag_of(s: Seq<char>) -> Option<Flag> {
    if s == "--lo"@ {
        Some(Flag::Lo)
    } else if s == "--hi"@ {
        Some(Flag::Hi)
    } else if s == "--budget"@ {
        Some(Flag::Budget)
    } else if s == "--threads"@ {
        Some(Flag::Threads)
    } else if s == "--bookmark"@ {
        Some(Flag::Bookmark)
    } else if s == "--verify-timeout"@ {
        Some(Flag::VerifyTimeout)
    } else {
        None
    }
}

/// The largest number that the flag takes.
pub open spec fn flag_max(f: Flag) -> int {
    if f == Flag::Budget || f == Flag::VerifyTimeout {
        u64::MAX as int
    } else {
        usize::MAX as int
    }
}

/// The arguments with the flag set to the value, if that is one.
pub open spec fn with_flag(a: ArgsView, f: Flag, v: Seq<char>) -> Option<ArgsView> {
    if f == Flag::Bookmark {
        Some(ArgsView { bookmark: Some(v), ..a })
    } else {
        match number(v, flag_max(f)) {
            None => None,
            Some(n) => Some(
                match f {
                    Flag::Lo => ArgsView { lo: Some(n as usize), ..a },
                    Flag::Hi => ArgsView { hi: Some(n as usize), ..a },
                    Flag::Budget => ArgsView { sample_budget: n as u64, ..a },
                    Flag::Threads => ArgsView { threads: Some(n as usize), ..a },
                    Flag::VerifyTimeout => ArgsView { verify_timeout_secs: n as u64, ..a },
                    Flag::Bookmark => a,
                },
            ),
        }
    }
}

/// The arguments after the flags from position `i` on; the first mistake
/// counts.
pub open spec fn with_flags(argv: Seq<String>, i: int, a: ArgsView) -> Result<ArgsView, ArgError>
    decreases argv.len() - i,
{
    if i >= argv.len() {
        Ok(a)
    } else {
        match flag_of(argv[i]@) {
            None => Err(ArgError::UnknownFlag(i as usize)),
            Some(f) => if i + 1 >= argv.len() {
                Err(ArgError::MissingValue(f))
            } else {
                match with_flag(a, f, argv[i + 1]@) {
                    None => Err(ArgError::BadValue(f)),
                    Some(b) => with_flags(argv, i + 2, b),
                }
            },
        }
    }
}

/// The arguments before any flag.
pub open spec fn bare_args(mode: Mode, target: usize) -> ArgsView {
    ArgsView {
        mode,
        target,
        lo: None,
        hi: None,
        sample_budget: DEFAULT_BUDGET,
        threads: None,
        bookmark: None,
        verify_timeout_secs: 0,
    }
}

/// What a command line says: a mode, a target number, and flags with their
/// values.
pub open spec fn args_of(argv: Seq<String>) -> Result<ArgsView, ArgError> {
    if argv.len() > 0 && mode_of(argv[0]@) is None {
        Err(ArgError::BadMode)
    } else if argv.len() < 2 {
        Err(ArgError::MissingTarget)
    } else {
        match number(argv[1]@, usize::MAX as int) {
            None => Err(ArgError::BadTarget),
            Some(t) => with_flags(argv, 2, bare_args(mode_of(argv[0]@).unwrap(), t as usize)),
        }
    }
}

/// Whether a text is the given word.
fn is_word(s: &String, word: &str) -> (r: bool)
    ensures
        r == (s@ == word@),
{
    *s == word.to_owned()
}

fn parse_mode(s: &String) -> (r: Option<Mode>)
    ensures
        r == mode_of(s@),
{
    if is_word(s, "A") || is_word(s, "a") || is_word(s, "oeis") {
        Some(Mode::OEIS)
    } else if is_word(s, "SK") || is_word(s, "sk") {
        Some(Mode::SK)
    } else {
        None
    }
}

fn parse_flag(s: &String) -> (r: Option<Flag>)
    ensures
        r == flag_of(s@),
{
    if is_word(s, "--lo") {
        Some(Flag::Lo)
    } else if is_word(s, "--hi") {
        Some(Flag::Hi)
    } else if is_word(s, "--budget") {
        Some(Flag::Budget)
    } else if is_word(s, "--threads") {
        Some(Flag::Threads)
    } else if is_word(s, "--bookmark") {
        Some(Flag::Bookmark)
    } else if is_word(s, "--verify-timeout") {
        Some(Flag::VerifyTimeout)
    } else {
        None
    }
}

fn parse_text_number(s: &String, max: u64) -> (r: Option<u64>)
    ensures
        match r {
            Some(n) => number(s@, max as int) == Some(n as int),
            None => number(s@, max as int) is None,
        },
{
    let chars = characters(s.as_str());
    parse_number(chars.as_slice(), max)
}

/// Sets the flag to the value; tells whether the value is one.
fn set_flag(a: &mut Args, f: Flag, v: &String) -> (ok: bool)
    ensures
        ok == (with_flag(old(a)@, f, v@) is Some),
        ok ==> with_flag(old(a)@, f, v@) == Some(final(a)@),
{
    match f {
        Flag::Bookmark => {
            a.bookmark = Some(v.clone());
            true
        },
        Flag::Budget => match parse_text_number(v, u64::MAX) {
            Some(n) => {
                a.sample_budget = n;
                true
            },
            None => false,
        },
        Flag::VerifyTimeout => match parse_text_number(v, u64::MAX) {
            Some(n) => {
                a.verify_timeout_secs = n;
                true
            },
            None => false,
        },
        Flag::Lo => match parse_text_number(v, usize::MAX as u64) {
            Some(n) => {
                a.lo = Some(n as usize);
                true
            },
            None => false,
        },
        Flag::Hi => match parse_text_number(v, usize::MAX as u64) {
            Some(n) => {
                a.hi = Some(n as usize);
                true
            },
            None => false,
        },
        Flag::Threads => match parse_text_number(v, usize::MAX as u64) {
            Some(n) => {
                a.threads = Some(n as usize);
                true
            },
            None => false,
        },
    }
}

/// Reads a command line, without the name of the program.
pub fn parse_args(argv: &Vec<String>) -> (r: Result<Args, ArgError>)
    ensures
        match r {
            Ok(a) => args_of(argv@) == Ok::<ArgsView, ArgError>(a@),
            Err(e) => args_of(argv@) == Err::<ArgsView, ArgError>(e),
        },
{
    if argv.len() == 0 {
        return Err(ArgError::MissingTarget);
    }
    let mode: Mode = match parse_mode(&argv[0]) {
        Some(m) => m,
        None => {
            return Err(ArgError::BadMode);
        },
    };
    if argv.len() < 2 {
        return Err(ArgError::MissingTarget);
    }
    let target: usize = match parse_text_number(&argv[1], usize::MAX as u64) {
        Some(t) => t as usize,
        None => {
            return Err(ArgError::BadTarget);
        },
    };
    let mut a = Args {
        mode,
        target,
        lo: None,
        hi: None,
        sample_budget: DEFAULT_BUDGET,
        threads: None,
        bookmark: None,
        verify_timeout_secs: 0,
    };
    assert(a@ == bare_args(mode, target));
    let mut i: usize = 2;
    while i < argv.len()
        invariant
            2 <= i,
            argv@.len() >= 2,
            args_of(argv@) == with_flags(argv@, i as int, a@),
        decreases argv@.len() - i,
    {
        let f: Flag = match parse_flag(&argv[i]) {
            Some(f) => f,
            None => {
                return Err(ArgError::UnknownFlag(i));
            },
        };
        if i == argv.len() - 1 {
            return Err(ArgError::MissingValue(f));
        }
        if !set_flag(&mut a, f, &argv[i + 1]) {
            return Err(ArgError::BadValue(f));
        }
        if i + 1 == argv.len() - 1 {
            assert(with_flags(argv@, i + 2, a@) == Ok::<ArgsView, ArgError>(a@));
            return Ok(a);
        }
        i = i + 2;
    }
    Ok(a)
}

/// Why no search can be planned.
#[derive(Clone, Copy, Debug, PartialEq, Eq, Structural)]
pub enum PlanError {
    /// The index in the sequence is 0.
    IndexZero,
    /// No machine word holds the number at which the search starts.
    LowerBoundOverflow,
    /// No machine word holds the number below which the search stays.
    UpperBoundOverflow,
}

/// The search that a command line asks for.
pub struct Request {
    /// The index of the property.
    pub k: usize,
    /// How the result is announced.
    pub label: String,
    /// The number at which the search starts.
    pub lo: usize,
    /// The number below which it stays.
    pub hi: usize,
    /// The name of the bookmark file.
    pub bookmark: String,
}

/// What a command line asks for.
pub enum Plan {
    /// The first member of the sequence, which is 1.
    Trivial,
    /// A search.
    Run(Request),
}

/// The index of the property that the target stands for.
pub open spec fn property_index(mode: Mode, target: int) -> int {
    match mode {
        Mode::OEIS => target - 1,
        Mode::SK => target,
    }
}

/// How the result is announced.
pub open spec fn label_text(mode: Mode, target: nat) -> Seq<char> {
    match mode {
        Mode::OEIS => "A("@ + decimal(target) + ")"@,
        Mode::SK => "SK("@ + decimal(target) + ")"@,
    }
}

/// The name of the bookmark file where no flag gives one.
pub open spec fn bookmark_name(mode: Mode, target: nat) -> Seq<char> {
    match mode {
        Mode::OEIS => "bookmark_a"@ + decimal(target) + ".txt"@,
        Mode::SK => "bookmark_sk"@ + decimal(target) + ".txt"@,
    }
}

/// The start of the search, from a flag or the lower limit.
pub open spec fn planned_lo(a: ArgsView) -> int {
    match a.lo {
        Some(lo) => lo as int,
        None => lower_limit(property_index(a.mode, a.target as int)),
    }
}

/// The end of the search, from a flag or the upper limit.
pub open spec fn planned_hi(a: ArgsView) -> int {
    match a.hi {
        Some(hi) => hi as int,
        None => upper_limit(property_index(a.mode, a.target as int)),
    }
}

/// The decimal notation of a number between two words.
fn framed(before: &str, n: usize, after: &str) -> (s: String)
    ensures
        s@ == before@ + decimal(n as nat) + after@,
{
    let mut s = before.to_owned();
    append_decimal(&mut s, n as u64);
    s.append(after);
    s
}

/// Turns the arguments into a search.
pub fn plan(a: &Args) -> (r: Result<Plan, PlanError>)
    ensures
        match r {
            Err(PlanError::IndexZero) => a.mode == Mode::OEIS && a.target == 0,
            Ok(Plan::Trivial) => a.mode == Mode::OEIS && a.target == 1,
            Err(PlanError::LowerBoundOverflow) => property_index(a.mode, a.target as int) >= 0
                && !(a.mode == Mode::OEIS && a.target == 1) && planned_lo(a@) > usize::MAX,
            Err(PlanError::UpperBoundOverflow) => property_index(a.mode, a.target as int) >= 0
                && !(a.mode == Mode::OEIS && a.target == 1) && planned_lo(a@) <= usize::MAX
                && planned_hi(a@) > usize::MAX,
            Ok(Plan::Run(s)) => {
                &&& property_index(a.mode, a.target as int) >= 0
                &&& !(a.mode == Mode::OEIS && a.target == 1)
                &&& s.k == property_index(a.mode, a.target as int)
                &&& s.label@ == label_text(a.mode, a.target as nat)
                &&& s.lo == planned_lo(a@)
                &&& s.hi == planned_hi(a@)
                &&& s.bookmark@ == match a@.bookmark {
                    Some(name) => name,
                    None => bookmark_name(a.mode, a.target as nat),
                }
            },
        },
{
    let k: usize = match a.mode {
        Mode::OEIS => {
            if a.target == 0 {
                return Err(PlanError::IndexZero);
            }
            if a.target == 1 {
                return Ok(Plan::Trivial);
            }
            a.target - 1
        },
        Mode::SK => a.target,
    };
    let label: String = match a.mode {
        Mode::OEIS => framed("A(", a.target, ")"),
        Mode::SK => framed("SK(", a.target, ")"),
    };
    let lo: usize = match a.lo {
        Some(lo) => lo,
        None => match checked_lower_bound(k) {
            Some(lo) => lo,
            None => {
                return Err(PlanError::LowerBoundOverflow);
            },
        },
    };
    let hi: usize = match a.hi {
        Some(hi) => hi,
        None => match checked_weil_hi(k) {
            Some(hi) => hi,
            None => {
                return Err(PlanError::UpperBoundOverflow);
            },
        },
    };
    let bookmark: String = match &a.bookmark {
        Some(name) => name.clone(),
        None => match a.mode {
            Mode::OEIS => framed("bookmark_a", a.target, ".txt"),
            Mode::SK => framed("bookmark_sk", a.target, ".txt"),
        },
    };
    Ok(Plan::Run(Request { k, label, lo, hi, bookmark }))
}

/// The word stands in the place of a flag, from place `i` on.
pub open spec fn occurs(argv: Seq<String>, i: int, word: Seq<char>) -> bool {
    exists|j: int| i <= j < argv.len() && (j - i) % 2 == 0 && #[trigger] argv[j]@ == word
}

/// Place `j` is the last place of a flag, from place `i` on, that holds the
/// word.
pub open spec fn last_place(argv: Seq<String>, i: int, word: Seq<char>, j: int) -> bool {
    &&& i <= j < argv.len()
    &&& (j - i) % 2 == 0
    &&& argv[j]@ == word
    &&& !occurs(argv, j + 2, word)
}

/// The word of a flag.
spec fn word_of(f: Flag) -> Seq<char> {
    match f {
        Flag::Lo => "--lo"@,
        Flag::Hi => "--hi"@,
        Flag::Budget => "--budget"@,
        Flag::Threads => "--threads"@,
        Flag::Bookmark => "--bookmark"@,
        Flag::VerifyTimeout => "--verify-timeout"@,
    }
}

/// The number that a flag sets.
spec fn setting(a: ArgsView, f: Flag) -> Option<int> {
    match f {
        Flag::Lo => match a.lo {
            Some(n) => Some(n as int),
            None => None,
        },
        Flag::Hi => match a.hi {
            Some(n) => Some(n as int),
            None => None,
        },
        Flag::Budget => Some(a.sample_budget as int),
        Flag::Threads => match a.threads {
            Some(n) => Some(n as int),
            None => None,
        },
        Flag::VerifyTimeout => Some(a.verify_timeout_secs as int),
        Flag::Bookmark => None,
    }
}

/// The words of the flags differ.
proof fn lemma_words()
    ensures
        forall|f: Flag| #[trigger] flag_of(word_of(f)) == Some(f),
        forall|s: Seq<char>, f: Flag| #[trigger] flag_of(s) == Some(f) ==> s == #[trigger] word_of(
            f,
        ),
{
    reveal_strlit("--lo");
    reveal_strlit("--hi");
    reveal_strlit("--budget");
    reveal_strlit("--threads");
    reveal_strlit("--bookmark");
    reveal_strlit("--verify-timeout");
    assert("--lo"@[2] == 'l' && "--hi"@[2] == 'h');
    assert("--lo"@.len() == 4 && "--hi"@.len() == 4);
    assert("--budget"@.len() == 8 && "--threads"@.len() == 9);
    assert("--bookmark"@.len() == 10 && "--verify-timeout"@.len() == 16);
}

/// A flag sets its own field and leaves the others alone.
proof fn lemma_one_flag(a: ArgsView, f: Flag, v: Seq<char>, b: ArgsView)
    requires
        with_flag(a, f, v) == Some(b),
    ensures
        b.mode == a.mode,
        b.target == a.target,
        f == Flag::Bookmark ==> b.bookmark == Some(v),
        f != Flag::Bookmark ==> b.bookmark == a.bookmark && number(v, flag_max(f)) is Some
            && setting(b, f) == number(v, flag_max(f)),
        forall|g: Flag| g != f ==> #[trigger] setting(b, g) == setting(a, g),
{
    if f != Flag::Bookmark {
        lemma_number_range(v, flag_max(f));
    }
}

/// A number that a text denotes lies in its range.
proof fn lemma_number_range(s: Seq<char>, max: int)
    ensures
        number(s, max) matches Some(n) ==> 0 <= n <= max,
{
    if number(s, max) is Some {
        lemma_value_nonnegative(unsigned_part(s));
    }
}

/// What the flags from place `i` on come to, flag by flag.
proof fn lemma_settings(argv: Seq<String>, i: int, a: ArgsView, b: ArgsView, f: Flag)
    requires
        with_flags(argv, i, a) == Ok::<ArgsView, ArgError>(b),
    ensures
        b.mode == a.mode,
        b.target == a.target,
        !occurs(argv, i, word_of(f)) ==> setting(b, f) == setting(a, f) && (f == Flag::Bookmark
            ==> b.bookmark == a.bookmark),
        forall|j: int| #[trigger]
            last_place(argv, i, word_of(f), j) ==> j + 1 < argv.len() && if f == Flag::Bookmark {
                b.bookmark == Some(argv[j + 1]@)
            } else {
                number(argv[j + 1]@, flag_max(f)) is Some && setting(b, f) == number(
                    argv[j + 1]@,
                    flag_max(f),
                )
            },
    decreases argv.len() - i,
{
    let w = word_of(f);
    if i < argv.len() {
        lemma_words();
        let g = flag_of(argv[i]@).unwrap();
        let c = with_flag(a, g, argv[i + 1]@).unwrap();
        lemma_one_flag(a, g, argv[i + 1]@, c);
        lemma_settings(argv, i + 2, c, b, f);
        assert(argv[i]@ == word_of(g));
        assert((g == f) == (argv[i]@ == w));
        if occurs(argv, i + 2, w) {
            let j = choose|j: int|
                i + 2 <= j < argv.len() && (j - (i + 2)) % 2 == 0 && #[trigger] argv[j]@ == w;
            assert((j - i) % 2 == 0);
            assert(occurs(argv, i, w));
        }
        if g == f {
            assert((i - i) % 2 == 0);
            assert(occurs(argv, i, w));
        }
        assert forall|j: int| #[trigger] last_place(argv, i, w, j) implies j + 1 < argv.len()
            && if f == Flag::Bookmark {
            b.bookmark == Some(argv[j + 1]@)
        } else {
            number(argv[j + 1]@, flag_max(f)) is Some && setting(b, f) == number(
                argv[j + 1]@,
                flag_max(f),
            )
        } by {
            if j > i {
                assert(j != i + 1) by {
                    if j == i + 1 {
                        assert((j - i) % 2 == 1);
                    }
                }
                assert((j - (i + 2)) % 2 == 0);
                assert(last_place(argv, i + 2, w, j));
            }
        }
    }
}

/// What an accepted command line says, field by field: each flag sets its own
/// field, to the value after its last place, and where it does not occur the
/// field keeps its default; no flag has a say in the field of another.
pub proof fn lemma_fields(argv: Seq<String>, a: ArgsView)
    requires
        args_of(argv) == Ok::<ArgsView, ArgError>(a),
    ensures
        argv.len() >= 2,
        a.mode == Mode::OEIS <==> argv[0]@ == "A"@ || argv[0]@ == "a"@ || argv[0]@ == "oeis"@,
        a.mode == Mode::SK <==> argv[0]@ == "SK"@ || argv[0]@ == "sk"@,
        number(argv[1]@, usize::MAX as int) == Some(a.target as int),
        !occurs(argv, 2, "--lo"@) ==> a.lo is None,
        forall|j: int| #[trigger]
            last_place(argv, 2, "--lo"@, j) ==> a.lo is Some && number(
                argv[j + 1]@,
                usize::MAX as int,
            ) == Some(a.lo.unwrap() as int),
        !occurs(argv, 2, "--hi"@) ==> a.hi is None,
        forall|j: int| #[trigger]
            last_place(argv, 2, "--hi"@, j) ==> a.hi is Some && number(
                argv[j + 1]@,
                usize::MAX as int,
            ) == Some(a.hi.unwrap() as int),
        !occurs(argv, 2, "--budget"@) ==> a.sample_budget == 100_000,
        forall|j: int| #[trigger]
            last_place(argv, 2, "--budget"@, j) ==> number(argv[j + 1]@, u64::MAX as int) == Some(
                a.sample_budget as int,
            ),
        !occurs(argv, 2, "--threads"@) ==> a.threads is None,
        forall|j: int| #[trigger]
            last_place(argv, 2, "--threads"@, j) ==> a.threads is Some && number(
                argv[j + 1]@,
                usize::MAX as int,
            ) == Some(a.threads.unwrap() as int),
        !occurs(argv, 2, "--bookmark"@) ==> a.bookmark is None,
        forall|j: int| #[trigger]
            last_place(argv, 2, "--bookmark"@, j) ==> j + 1 < argv.len() && a.bookmark == Some(
                argv[j + 1]@,
            ),
        !occurs(argv, 2, "--verify-timeout"@) ==> a.verify_timeout_secs == 0,
        forall|j: int| #[trigger]
            last_place(argv, 2, "--verify-timeout"@, j) ==> number(
                argv[j + 1]@,
                u64::MAX as int,
            ) == Some(a.verify_timeout_secs as int),
{
    let t = number(argv[1]@, usize::MAX as int).unwrap();
    lemma_number_range(argv[1]@, usize::MAX as int);
    let bare = bare_args(mode_of(argv[0]@).unwrap(), t as usize);
    lemma_mode_words();
    lemma_settings(argv, 2, bare, a, Flag::Lo);
    lemma_settings(argv, 2, bare, a, Flag::Hi);
    lemma_settings(argv, 2, bare, a, Flag::Budget);
    lemma_settings(argv, 2, bare, a, Flag::Threads);
    lemma_settings(argv, 2, bare, a, Flag::Bookmark);
    lemma_settings(argv, 2, bare, a, Flag::VerifyTimeout);
}

/// The words of the two modes differ.
proof fn lemma_mode_words()
    ensures
        "A"@ != "SK"@ && "A"@ != "sk"@,
        "a"@ != "SK"@ && "a"@ != "sk"@,
        "oeis"@ != "SK"@ && "oeis"@ != "sk"@,
{
    reveal_strlit("A");
    reveal_strlit("a");
    reveal_strlit("oeis");
    reveal_strlit("SK");
    reveal_strlit("sk");
    assert("A"@.len() == 1 && "a"@.len() == 1 && "oeis"@.len() == 4);
    assert("SK"@.len() == 2 && "sk"@.len() == 2);
}

/// Two command lines say the same of a flag: neither has it, or the values
/// after its last places are the same text.
pub open spec fn same_flag(x: Seq<String>, y: Seq<String>, word: Seq<char>) -> bool {
    ||| !occurs(x, 2, word) && !occurs(y, 2, word)
    ||| exists|i: int, j: int| #[trigger]
        last_place(x, 2, word, i) && #[trigger] last_place(y, 2, word, j) && x[i + 1]@ == y[j
            + 1]@
}

/// The order of the flags does not matter: accepted command lines with the
/// same mode and target that say the same of each flag come to the same.
pub proof fn lemma_order(x: Seq<String>, y: Seq<String>, a: ArgsView, b: ArgsView)
    requires
        args_of(x) == Ok::<ArgsView, ArgError>(a),
        args_of(y) == Ok::<ArgsView, ArgError>(b),
        x[0]@ == y[0]@,
        x[1]@ == y[1]@,
        same_flag(x, y, "--lo"@),
        same_flag(x, y, "--hi"@),
        same_flag(x, y, "--budget"@),
        same_flag(x, y, "--threads"@),
        same_flag(x, y, "--bookmark"@),
        same_flag(x, y, "--verify-timeout"@),
    ensures
        a == b,
{
    lemma_fields(x, a);
    lemma_fields(y, b);
}

/// A command line is accepted if and only if it has a mode, a target, and
/// after these only flags, each with a value that suits it.
pub proof fn lemma_accepted(argv: Seq<String>)
    ensures
        args_of(argv) is Ok <==> {
            &&& argv.len() >= 2
            &&& argv.len() % 2 == 0
            &&& argv[0]@ == "A"@ || argv[0]@ == "a"@ || argv[0]@ == "oeis"@ || argv[0]@ == "SK"@
                || argv[0]@ == "sk"@
            &&& number(argv[1]@, usize::MAX as int) is Some
            &&& forall|i: int|
                2 <= i < argv.len() && i % 2 == 0 ==> suits(#[trigger] argv[i]@, argv[i + 1]@)
        },
{
    if argv.len() >= 2 && mode_of(argv[0]@) is Some && number(
        argv[1]@,
        usize::MAX as int,
    ) is Some {
        let t = number(argv[1]@, usize::MAX as int).unwrap();
        lemma_accepted_from(argv, 2, bare_args(mode_of(argv[0]@).unwrap(), t as usize));
    }
}

/// The word is a flag and the value suits it: any text for the bookmark, a
/// number for the others.
pub open spec fn suits(word: Seq<char>, value: Seq<char>) -> bool {
    ||| word == "--bookmark"@
    ||| (word == "--lo"@ || word == "--hi"@ || word == "--threads"@) && number(
        value,
        usize::MAX as int,
    ) is Some
    ||| (word == "--budget"@ || word == "--verify-timeout"@) && number(
        value,
        u64::MAX as int,
    ) is Some
}

/// As `lemma_accepted`, for the flags from place `i` on.
proof fn lemma_accepted_from(argv: Seq<String>, i: int, a: ArgsView)
    requires
        i >= 2,
        i % 2 == 0,
    ensures
        with_flags(argv, i, a) is Ok <==> (i >= argv.len() || argv.len() % 2 == 0) && forall|j: int|
            i <= j < argv.len() && j % 2 == 0 ==> suits(#[trigger] argv[j]@, argv[j + 1]@),
    decreases argv.len() - i,
{
    if i < argv.len() {
        lemma_words();
        match flag_of(argv[i]@) {
            None => {
                assert(!suits(argv[i]@, argv[i + 1]@)) by {
                    assert forall|f: Flag| argv[i]@ != #[trigger] word_of(f) by {
                        assert(flag_of(word_of(f)) == Some(f));
                    }
                    assert(argv[i]@ != word_of(Flag::Lo) && argv[i]@ != word_of(Flag::Hi));
                    assert(argv[i]@ != word_of(Flag::Budget) && argv[i]@ != word_of(Flag::Threads));
                    assert(argv[i]@ != word_of(Flag::Bookmark));
                    assert(argv[i]@ != word_of(Flag::VerifyTimeout));
                }
            },
            Some(f) => {
                assert(argv[i]@ == word_of(f));
                if i + 1 < argv.len() {
                    lemma_suits(a, f, argv[i + 1]@);
                    match with_flag(a, f, argv[i + 1]@) {
                        Some(b) => {
                            lemma_accepted_from(argv, i + 2, b);
                            assert forall|j: int|
                                i <= j < argv.len() && j % 2 == 0 && (forall|q: int|
                                    i + 2 <= q < argv.len() && q % 2 == 0 ==> suits(
                                        #[trigger] argv[q]@,
                                        argv[q + 1]@,
                                    )) implies suits(#[trigger] argv[j]@, argv[j + 1]@) by {
                                if j > i {
                                    assert(j >= i + 2);
                                }
                            }
                        },
                        None => {},
                    }
                }
            },
        }
    }
}

/// The sequence starts one index later than the property: its member `t` and
/// the property `t - 1` are the same search, and the flags for its range take
/// the place of the limits.
pub proof fn lemma_plan(a: ArgsView, b: ArgsView)
    requires
        a.mode == Mode::OEIS,
        a.target >= 1,
        b == (ArgsView { mode: Mode::SK, target: (a.target - 1) as usize, ..a }),
    ensures
        property_index(a.mode, a.target as int) == property_index(b.mode, b.target as int),
        property_index(b.mode, b.target as int) == b.target,
        planned_lo(a) == planned_lo(b),
        planned_hi(a) == planned_hi(b),
        a.lo matches Some(lo) ==> planned_lo(a) == lo,
        a.hi matches Some(hi) ==> planned_hi(a) == hi,
{
}

/// Texts around different numbers differ.
proof fn lemma_framed_distinct(before: Seq<char>, m: nat, n: nat, after: Seq<char>)
    requires
        before + decimal(m) + after == before + decimal(n) + after,
    ensures
        m == n,
{
    let x = before + decimal(m) + after;
    let y = before + decimal(n) + after;
    assert(x.len() == y.len());
    assert(decimal(m) =~= x.subrange(before.len() as int, (before.len() + decimal(m).len()) as int));
    assert(decimal(n) =~= y.subrange(before.len() as int, (before.len() + decimal(n).len()) as int));
    lemma_decimal(m);
    lemma_decimal(n);
}

/// Different searches have different labels and, where no flag says otherwise,
/// different bookmarks.
pub proof fn lemma_names(m: Mode, s: nat, n: Mode, t: nat)
    requires
        label_text(m, s) == label_text(n, t) || bookmark_name(m, s) == bookmark_name(n, t),
    ensures
        m == n,
        s == t,
{
    reveal_strlit("A(");
    reveal_strlit("SK(");
    reveal_strlit("bookmark_a");
    reveal_strlit("bookmark_sk");
    assert(label_text(Mode::OEIS, s)[0] == 'A' && label_text(Mode::SK, s)[0] == 'S');
    assert(label_text(Mode::OEIS, t)[0] == 'A' && label_text(Mode::SK, t)[0] == 'S');
    assert(bookmark_name(Mode::OEIS, s)[9] == 'a' && bookmark_name(Mode::SK, s)[9] == 's');
    assert(bookmark_name(Mode::OEIS, t)[9] == 'a' && bookmark_name(Mode::SK, t)[9] == 's');
    assert(m == n);
    match m {
        Mode::OEIS => {
            if label_text(m, s) == label_text(n, t) {
                lemma_framed_distinct("A("@, s, t, ")"@);
            } else {
                lemma_framed_distinct("bookmark_a"@, s, t, ".txt"@);
            }
        },
        Mode::SK => {
            if label_text(m, s) == label_text(n, t) {
                lemma_framed_distinct("SK("@, s, t, ")"@);
            } else {
                lemma_framed_distinct("bookmark_sk"@, s, t, ".txt"@);
            }
        },
    }
}

/// The flags before place `i` all have values that suit them.
pub open spec fn sound_before(argv: Seq<String>, i: int) -> bool {
    forall|j: int| 2 <= j < i && j % 2 == 0 ==> suits(#[trigger] argv[j]@, argv[j + 1]@)
}

/// What the flags from place `i` on are refused for.
proof fn lemma_rejected_from(argv: Seq<String>, i: int, a: ArgsView, e: ArgError)
    requires
        i >= 2,
        i % 2 == 0,
        argv.len() <= usize::MAX,
        sound_before(argv, i),
        with_flags(argv, i, a) == Err::<ArgsView, ArgError>(e),
    ensures
        match e {
            ArgError::UnknownFlag(j) => {
                &&& 2 <= j < argv.len()
                &&& j % 2 == 0
                &&& sound_before(argv, j as int)
                &&& forall|f: Flag| argv[j as int]@ != #[trigger] word_of(f)
            },
            ArgError::MissingValue(f) => {
                &&& argv.len() >= 3
                &&& argv.len() % 2 == 1
                &&& sound_before(argv, argv.len() - 1)
                &&& argv.last()@ == word_of(f)
            },
            ArgError::BadValue(f) => exists|j: int|
                2 <= j < argv.len() - 1 && j % 2 == 0 && sound_before(argv, j)
                    && #[trigger] argv[j]@ == word_of(f) && !suits(argv[j]@, argv[j + 1]@),
            _ => false,
        },
    decreases argv.len() - i,
{
    lemma_words();
    lemma_accepted_from(argv, i, a);
    if i < argv.len() {
        match flag_of(argv[i]@) {
            None => {
                assert forall|f: Flag| argv[i]@ != #[trigger] word_of(f) by {
                    assert(flag_of(word_of(f)) == Some(f));
                }
            },
            Some(f) => {
                assert(argv[i]@ == word_of(f));
                if i + 1 < argv.len() {
                    lemma_suits(a, f, argv[i + 1]@);
                    match with_flag(a, f, argv[i + 1]@) {
                        Some(b) => {
                            assert(sound_before(argv, i + 2)) by {
                                assert forall|j: int| 2 <= j < i + 2 && j % 2 == 0 implies suits(
                                    #[trigger] argv[j]@,
                                    argv[j + 1]@,
                                ) by {
                                    if j >= i {
                                        assert(j == i);
                                    }
                                }
                            }
                            lemma_rejected_from(argv, i + 2, b, e);
                        },
                        None => {},
                    }
                }
            },
        }
    }
}

/// A value suits the word of a flag if and only if the flag takes it.
proof fn lemma_suits(a: ArgsView, f: Flag, v: Seq<char>)
    ensures
        suits(word_of(f), v) == (with_flag(a, f, v) is Some),
{
    lemma_words();
    assert(flag_of(word_of(Flag::Lo)) == Some(Flag::Lo));
    assert(flag_of(word_of(Flag::Hi)) == Some(Flag::Hi));
    assert(flag_of(word_of(Flag::Budget)) == Some(Flag::Budget));
    assert(flag_of(word_of(Flag::Threads)) == Some(Flag::Threads));
    assert(flag_of(word_of(Flag::Bookmark)) == Some(Flag::Bookmark));
    assert(flag_of(word_of(Flag::VerifyTimeout)) == Some(Flag::VerifyTimeout));
}

/// What a command line is refused for: the first thing that is wrong with it,
/// read from the left.
pub proof fn lemma_rejected(argv: Seq<String>, e: ArgError)
    requires
        argv.len() <= usize::MAX,
        args_of(argv) == Err::<ArgsView, ArgError>(e),
    ensures
        (e == ArgError::BadMode) == (argv.len() > 0 && argv[0]@ != "A"@ && argv[0]@ != "a"@
            && argv[0]@ != "oeis"@ && argv[0]@ != "SK"@ && argv[0]@ != "sk"@),
        e == ArgError::MissingTarget ==> argv.len() < 2,
        argv.len() == 0 ==> e == ArgError::MissingTarget,
        e == ArgError::BadTarget ==> argv.len() >= 2 && number(
            argv[1]@,
            usize::MAX as int,
        ) is None,
        e matches ArgError::UnknownFlag(j) ==> 2 <= j < argv.len() && j % 2 == 0 && sound_before(
            argv,
            j as int,
        ) && argv[j as int]@ != "--lo"@ && argv[j as int]@ != "--hi"@ && argv[j as int]@
            != "--budget"@ && argv[j as int]@ != "--threads"@ && argv[j as int]@ != "--bookmark"@
            && argv[j as int]@ != "--verify-timeout"@,
        e matches ArgError::MissingValue(f) ==> argv.len() >= 3 && argv.len() % 2 == 1
            && sound_before(argv, argv.len() - 1) && argv.last()@ == match f {
            Flag::Lo => "--lo"@,
            Flag::Hi => "--hi"@,
            Flag::Budget => "--budget"@,
            Flag::Threads => "--threads"@,
            Flag::Bookmark => "--bookmark"@,
            Flag::VerifyTimeout => "--verify-timeout"@,
        },
        e matches ArgError::BadValue(f) ==> exists|j: int|
            2 <= j < argv.len() - 1 && j % 2 == 0 && sound_before(argv, j) && #[trigger] argv[j]@
                == match f {
                Flag::Lo => "--lo"@,
                Flag::Hi => "--hi"@,
                Flag::Budget => "--budget"@,
                Flag::Threads => "--threads"@,
                Flag::Bookmark => "--bookmark"@,
                Flag::VerifyTimeout => "--verify-timeout"@,
            } && !suits(argv[j]@, argv[j + 1]@),
{
    if argv.len() >= 2 && mode_of(argv[0]@) is Some && number(
        argv[1]@,
        usize::MAX as int,
    ) is Some {
        let t = number(argv[1]@, usize::MAX as int).unwrap();
        lemma_rejected_from(argv, 2, bare_args(mode_of(argv[0]@).unwrap(), t as usize), e);
        if let ArgError::UnknownFlag(j) = e {
            assert(argv[j as int]@ != word_of(Flag::Lo));
            assert(argv[j as int]@ != word_of(Flag::Hi));
            assert(argv[j as int]@ != word_of(Flag::Budget));
            assert(argv[j as int]@ != word_of(Flag::Threads));
            assert(argv[j as int]@ != word_of(Flag::Bookmark));
            assert(argv[j as int]@ != word_of(Flag::VerifyTimeout));
        }
    }
}

/// The range of a search without flags leaves nothing out: no tournament below
/// its start has the property, and, by Weil's bound on character sums, every
/// one from its end on has it.
pub proof fn lemma_default_range(a: ArgsView, n: int)
    requires
        a.lo is None,
        a.hi is None,
        property_index(a.mode, a.target as int) >= 0,
        paley_prime(n),
        n <= usize::MAX,
    ensures
        planned_lo(a) == lower_limit(property_index(a.mode, a.target as int)),
        planned_hi(a) == upper_limit(property_index(a.mode, a.target as int)),
        n < planned_lo(a) ==> !property_s(n, property_index(a.mode, a.target as int)),
        n >= planned_hi(a) && character_sums_bounded(n) ==> property_s(
            n,
            property_index(a.mode, a.target as int),
        ),
{
    let k = property_index(a.mode, a.target as int) as nat;
    if n < planned_lo(a) {
        lemma_lower_limit(n, k);
    }
    if n >= planned_hi(a) && character_sums_bounded(n) {
        lemma_upper_limit(n, k);
    }
}

} // verus!
