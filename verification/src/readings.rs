//! What came of the calls that look outside: which values a flag, the clock
//! and a generator of random numbers have given.  Nothing is claimed of these
//! values; a reading stands only where the call was made and gave it.
use crate::outside::{draw, draw_signed, now, seeded_generator};
use rand_xoshiro::Xoshiro256PlusPlus;
use std::sync::atomic::{AtomicBool, Ordering};
use std::time::Instant;
use vstd::prelude::*;

verus! {

/// A load of the flag gives `up`.
pub closed spec fn flag_reading(flag: &AtomicBool, up: bool) -> bool {
    call_ensures(AtomicBool::load, (flag, Ordering::Relaxed), up)
}

/// The clock gives `time`.
pub closed spec fn clock_reading(time: Instant) -> bool {
    call_ensures(now, (), time)
}

/// A draw from the range of `lo` up to `hi` gives `number`, and takes the
/// generator from the state `before` to the state `after`.
pub closed spec fn drawn(
    before: Xoshiro256PlusPlus,
    lo: usize,
    hi: usize,
    number: usize,
    after: Xoshiro256PlusPlus,
) -> bool {
    call_ensures(draw_from, (before, lo, hi), (number, after))
}

/// As `drawn`, for a range of signed numbers.
pub closed spec fn drawn_signed(
    before: Xoshiro256PlusPlus,
    lo: i64,
    hi: i64,
    number: i64,
    after: Xoshiro256PlusPlus,
) -> bool {
    call_ensures(draw_signed_from, (before, lo, hi), (number, after))
}

/// Calls a function without arguments.
fn call_plain<R, F: Fn() -> R>(f: F) -> (r: R)
    requires
        call_requires(f, ()),
    ensures
        call_ensures(f, (), r),
{
    f()
}

/// Calls a function of two arguments.
fn call_pair<A, B, R, F: Fn(A, B) -> R>(f: F, a: A, b: B) -> (r: R)
    requires
        call_requires(f, (a, b)),
    ensures
        call_ensures(f, (a, b), r),
{
    f(a, b)
}

/// Calls a function of three arguments.
fn call_triple<A, B, C, R, F: Fn(A, B, C) -> R>(f: F, a: A, b: B, c: C) -> (r: R)
    requires
        call_requires(f, (a, b, c)),
    ensures
        call_ensures(f, (a, b, c), r),
{
    f(a, b, c)
}

/// Calls a function that changes a generator.
fn call_on<T, F: Fn(&mut Xoshiro256PlusPlus, T, T) -> T>(
    f: F,
    rng: &mut Xoshiro256PlusPlus,
    lo: T,
    hi: T,
) -> (r: T)
    requires
        forall|g: &mut Xoshiro256PlusPlus| #[trigger] call_requires(f, (g, lo, hi)),
    ensures
        exists|g: &mut Xoshiro256PlusPlus|
            *g == *old(rng) && *final(g) == *final(rng) && #[trigger] call_ensures(
                f,
                (g, lo, hi),
                r,
            ),
{
    f(rng, lo, hi)
}

/// Draws a number from a generator that is handed in and out.
fn draw_from(rng: Xoshiro256PlusPlus, lo: usize, hi: usize) -> (r: (usize, Xoshiro256PlusPlus))
    requires
        lo < hi,
    ensures
        lo <= r.0 < hi,
        exists|g: &mut Xoshiro256PlusPlus|
            *g == rng && *final(g) == r.1 && #[trigger] call_ensures(draw, (g, lo, hi), r.0),
{
    let mut g = rng;
    let number: usize = call_on(draw, &mut g, lo, hi);
    (number, g)
}

/// As `draw_from`, for signed numbers.
fn draw_signed_from(rng: Xoshiro256PlusPlus, lo: i64, hi: i64) -> (r: (i64, Xoshiro256PlusPlus))
    requires
        lo < hi,
    ensures
        lo <= r.0 < hi,
        exists|g: &mut Xoshiro256PlusPlus|
            *g == rng && *final(g) == r.1 && #[trigger] call_ensures(
                draw_signed,
                (g, lo, hi),
                r.0,
            ),
{
    let mut g = rng;
    let number: i64 = call_on(draw_signed, &mut g, lo, hi);
    (number, g)
}

/// Reads a flag.
pub(crate) fn read_flag(flag: &AtomicBool) -> (up: bool)
    ensures
        flag_reading(flag, up),
{
    call_pair(AtomicBool::load, flag, Ordering::Relaxed)
}

/// Reads the clock.
pub(crate) fn read_clock() -> (time: Instant)
    ensures
        clock_reading(time),
{
    call_plain(now)
}

/// Draws a number of the range from `lo` up to `hi`.
pub(crate) fn next_number(rng: &mut Xoshiro256PlusPlus, lo: usize, hi: usize) -> (number: usize)
    requires
        lo < hi,
    ensures
        lo <= number < hi,
        drawn(*old(rng), lo, hi, number, *final(rng)),
{
    let mut g = seeded_generator(0);
    std::mem::swap(rng, &mut g);
    let (number, after): (usize, Xoshiro256PlusPlus) = call_triple(draw_from, g, lo, hi);
    *rng = after;
    number
}

/// Draws a signed number of the range from `lo` up to `hi`.
pub(crate) fn next_signed(rng: &mut Xoshiro256PlusPlus, lo: i64, hi: i64) -> (number: i64)
    requires
        lo < hi,
    ensures
        lo <= number < hi,
        drawn_signed(*old(rng), lo, hi, number, *final(rng)),
{
    let mut g = seeded_generator(0);
    std::mem::swap(rng, &mut g);
    let (number, after): (i64, Xoshiro256PlusPlus) = call_triple(draw_signed_from, g, lo, hi);
    *rng = after;
    number
}

/// Successive draws from the range of `lo` up to `hi` give the numbers, and
/// take the generator from the state `before` to the state `after`.
pub open spec fn draw_run(
    before: Xoshiro256PlusPlus,
    lo: usize,
    hi: usize,
    numbers: Seq<usize>,
    after: Xoshiro256PlusPlus,
) -> bool
    decreases numbers.len(),
{
    if numbers.len() == 0 {
        before == after
    } else {
        exists|mid: Xoshiro256PlusPlus| #[trigger]
            drawn(mid, lo, hi, numbers.last(), after) && draw_run(
                before,
                lo,
                hi,
                numbers.drop_last(),
                mid,
            )
    }
}

/// As `draw_run`, for a range of signed numbers.
pub open spec fn signed_run(
    before: Xoshiro256PlusPlus,
    lo: i64,
    hi: i64,
    numbers: Seq<i64>,
    after: Xoshiro256PlusPlus,
) -> bool
    decreases numbers.len(),
{
    if numbers.len() == 0 {
        before == after
    } else {
        exists|mid: Xoshiro256PlusPlus| #[trigger]
            drawn_signed(mid, lo, hi, numbers.last(), after) && signed_run(
                before,
                lo,
                hi,
                numbers.drop_last(),
                mid,
            )
    }
}

/// One more draw.
pub proof fn lemma_draw_push(
    before: Xoshiro256PlusPlus,
    lo: usize,
    hi: usize,
    numbers: Seq<usize>,
    mid: Xoshiro256PlusPlus,
    number: usize,
    after: Xoshiro256PlusPlus,
)
    requires
        draw_run(before, lo, hi, numbers, mid),
        drawn(mid, lo, hi, number, after),
    ensures
        draw_run(before, lo, hi, numbers.push(number), after),
{
    assert(numbers.push(number).drop_last() =~= numbers);
    assert(numbers.push(number).last() == number);
}

/// One more signed draw.
pub proof fn lemma_signed_push(
    before: Xoshiro256PlusPlus,
    lo: i64,
    hi: i64,
    numbers: Seq<i64>,
    mid: Xoshiro256PlusPlus,
    number: i64,
    after: Xoshiro256PlusPlus,
)
    requires
        signed_run(before, lo, hi, numbers, mid),
        drawn_signed(mid, lo, hi, number, after),
    ensures
        signed_run(before, lo, hi, numbers.push(number), after),
{
    assert(numbers.push(number).drop_last() =~= numbers);
    assert(numbers.push(number).last() == number);
}

/// All draws lie in the range.
pub proof fn lemma_draw_range(
    before: Xoshiro256PlusPlus,
    lo: usize,
    hi: usize,
    numbers: Seq<usize>,
    after: Xoshiro256PlusPlus,
)
    requires
        draw_run(before, lo, hi, numbers, after),
    ensures
        forall|i: int| 0 <= i < numbers.len() ==> lo <= #[trigger] numbers[i] < hi,
    decreases numbers.len(),
{
    if numbers.len() > 0 {
        let mid = choose|mid: Xoshiro256PlusPlus| #[trigger]
            drawn(mid, lo, hi, numbers.last(), after) && draw_run(
                before,
                lo,
                hi,
                numbers.drop_last(),
                mid,
            );
        lemma_draw_range(before, lo, hi, numbers.drop_last(), mid);
        assert forall|i: int| 0 <= i < numbers.len() implies lo <= #[trigger] numbers[i]
            < hi by {
            if i < numbers.len() - 1 {
                assert(numbers.drop_last()[i] == numbers[i]);
            }
        }
    }
}

} // verus!
