//! The bookmark: how far a search has come, as text.
use crate::text::{
    all_spaces, append_decimal, characters, decimal, is_digit, is_space, lemma_decimal,
    lemma_number_of_decimal, lemma_spaces_around, number, parse_number, trim, trimmed,
    trimmed_start,
};
use vstd::prelude::*;
use vstd::slice::*;

verus! {

/// How far a search has come.
#[derive(Clone, Copy, Debug, PartialEq, Eq, Structural)]
pub enum Bookmark {
    /// Nothing is known.
    Empty,
    /// The candidates below this number are done with.
    Pending(usize),
    /// The search has ended with this number.
    Done(usize),
}

/// The mark of a search that has ended.
pub open spec fn done_mark() -> Seq<char> {
    seq!['D', 'O', 'N', 'E', ':']
}

/// The text starts with the mark of a search that has ended.
pub open spec fn has_done_mark(s: Seq<char>) -> bool {
    s.len() >= 5 && s.take(5) == done_mark()
}

/// What a text says as a bookmark: a number, or the done mark and a number,
/// with white space around each.
pub open spec fn bookmark_of(text: Seq<char>) -> Bookmark {
    let t = trimmed(text);
    if has_done_mark(t) && number(trimmed(t.skip(5)), usize::MAX as int) is Some {
        Bookmark::Done(number(trimmed(t.skip(5)), usize::MAX as int).unwrap() as usize)
    } else if number(t, usize::MAX as int) is Some {
        Bookmark::Pending(number(t, usize::MAX as int).unwrap() as usize)
    } else {
        Bookmark::Empty
    }
}

/// Reads a bookmark.
pub fn parse_bookmark(text: &str) -> (b: Bookmark)
    ensures
        b == bookmark_of(text@),
{
    let whole = characters(text);
    let t = trim(whole.as_slice());
    let len: usize = t.len();
    if len >= 5 && t[0] == 'D' && t[1] == 'O' && t[2] == 'N' && t[3] == 'E' && t[4] == ':' {
        assert(t@.take(5) =~= done_mark());
        let rest = trim(slice_subrange(t.as_slice(), 5, len));
        assert(t@.subrange(5, len as int) =~= t@.skip(5));
        match parse_number(rest.as_slice(), usize::MAX as u64) {
            Some(n) => {
                return Bookmark::Done(n as usize);
            },
            None => {},
        }
    } else {
        proof {
            if has_done_mark(t@) {
                assert(t@.take(5)[0] == 'D' && t@.take(5)[1] == 'O' && t@.take(5)[2] == 'N'
                    && t@.take(5)[3] == 'E' && t@.take(5)[4] == ':');
                assert(t@[0] == 'D' && t@[1] == 'O' && t@[2] == 'N' && t@[3] == 'E' && t@[4]
                    == ':');
            }
        }
    }
    match parse_number(t.as_slice(), usize::MAX as u64) {
        Some(n) => Bookmark::Pending(n as usize),
        None => Bookmark::Empty,
    }
}

/// The bookmark of a search that has come to `n`, as text.
fn pending_text(n: usize) -> (s: String)
    ensures
        s@ == decimal(n as nat),
{
    let mut s = String::new();
    append_decimal(&mut s, n as u64);
    assert(s@ =~= decimal(n as nat));
    s
}

/// The bookmark of a search that has ended with `n`, as text.
fn done_text(n: usize) -> (s: String)
    ensures
        s@ == done_mark() + seq![' '] + decimal(n as nat),
{
    let mut s = String::new();
    proof {
        reveal_strlit("DONE: ");
    }
    s.append("DONE: ");
    assert(s@ =~= done_mark() + seq![' ']);
    append_decimal(&mut s, n as u64);
    s
}

/// A bookmark as text.
pub open spec fn text_of(b: Bookmark) -> Seq<char> {
    match b {
        Bookmark::Empty => Seq::empty(),
        Bookmark::Pending(n) => decimal(n as nat),
        Bookmark::Done(n) => done_mark() + seq![' '] + decimal(n as nat),
    }
}

/// Writes a bookmark out.
pub fn bookmark_text(b: Bookmark) -> (s: String)
    ensures
        s@ == text_of(b),
{
    match b {
        Bookmark::Empty => {
            let s = String::new();
            assert(s@ =~= Seq::empty());
            s
        },
        Bookmark::Pending(n) => pending_text(n),
        Bookmark::Done(n) => done_text(n),
    }
}

/// Text with no white space at its ends is not changed by trimming.
proof fn lemma_trimmed_fixed(s: Seq<char>)
    requires
        s.len() > 0,
        !is_space(s[0]),
        !is_space(s.last()),
    ensures
        trimmed(s) == s,
{
}

/// Reading a bookmark gives back what was written.
pub proof fn lemma_bookmark_round_trip(b: Bookmark)
    ensures
        bookmark_of(text_of(b)) == b,
{
    match b {
        Bookmark::Empty => {},
        Bookmark::Pending(n) => {
            let d = decimal(n as nat);
            lemma_decimal(n as nat);
            lemma_number_of_decimal(n as nat, usize::MAX as int);
            assert(is_digit(d[0]) && is_digit(d[d.len() - 1]));
            lemma_trimmed_fixed(d);
            if has_done_mark(d) {
                assert(d.take(5)[0] == 'D');
            }
        },
        Bookmark::Done(n) => {
            let d = decimal(n as nat);
            lemma_decimal(n as nat);
            lemma_number_of_decimal(n as nat, usize::MAX as int);
            assert(is_digit(d[0]) && is_digit(d[d.len() - 1]));
            lemma_trimmed_fixed(d);
            let w = done_mark() + seq![' '] + d;
            assert(w[0] == 'D' && w.last() == d.last());
            lemma_trimmed_fixed(w);
            assert(w.take(5) =~= done_mark());
            let rest = w.skip(5);
            assert(rest[0] == ' ');
            assert(rest.skip(1) =~= d);
            assert(trimmed_start(rest) == trimmed_start(d));
            assert(trimmed(rest) == d);
        },
    }
}

/// White space around a bookmark does not matter.
pub proof fn lemma_bookmark_spaces(b: Bookmark, w: Seq<char>, v: Seq<char>)
    requires
        all_spaces(w),
        all_spaces(v),
    ensures
        bookmark_of(w + text_of(b) + v) == b,
{
    let t = text_of(b);
    match b {
        Bookmark::Empty => {},
        Bookmark::Pending(n) => {
            lemma_decimal(n as nat);
            assert(is_digit(t[0]) && is_digit(t[t.len() - 1]));
        },
        Bookmark::Done(n) => {
            let d = decimal(n as nat);
            lemma_decimal(n as nat);
            assert(is_digit(d[d.len() - 1]));
            assert(t[0] == 'D' && t.last() == d.last());
        },
    }
    lemma_spaces_around(w, t, v);
    lemma_spaces_around(Seq::empty(), t, Seq::empty());
    assert(Seq::<char>::empty() + t + Seq::<char>::empty() =~= t);
    lemma_bookmark_round_trip(b);
}

} // verus!
