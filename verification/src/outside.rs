//! What the library takes from `rand`, `rayon` and the standard library
//! without proof: each item names the function it stands for, and its contract
//! is what that function is believed to do.
use rand::{Rng, SeedableRng};
use rand_xoshiro::Xoshiro256PlusPlus;
use rayon::iter::{IntoParallelRefIterator, ParallelIterator};
use std::sync::OnceLock;
use std::time::Instant;
use vstd::prelude::*;

verus! {

/// The generator of `rand_xoshiro`; its state is not modelled.
#[verifier::external_type_specification]
#[verifier::external_body]
pub struct ExXoshiro256PlusPlus(Xoshiro256PlusPlus);

/// The generator that `SeedableRng::seed_from_u64` makes of a seed.
pub uninterp spec fn generator_of(seed: u64) -> Xoshiro256PlusPlus;

/// `SeedableRng::seed_from_u64` makes a generator, always the same one of the
/// same seed.  Nothing is said of the numbers that it will give.
#[verifier::external_body]
pub(crate) fn seeded_generator(seed: u64) -> (rng: Xoshiro256PlusPlus)
    ensures
        rng == generator_of(seed),
{
    Xoshiro256PlusPlus::seed_from_u64(seed)
}

/// `Rng::gen_range` on a half-open range gives a number of that range; it
/// panics on an empty one.  Which number it is rests on the state of the
/// generator, and nothing is said of it.
#[verifier::external_body]
pub(crate) fn draw(rng: &mut Xoshiro256PlusPlus, lo: usize, hi: usize) -> (number: usize)
    requires
        lo < hi,
    ensures
        lo <= number < hi,
{
    rng.gen_range(lo..hi)
}

/// `Rng::gen_range` on a half-open range of signed numbers, as in `draw`.
#[verifier::external_body]
pub(crate) fn draw_signed(rng: &mut Xoshiro256PlusPlus, lo: i64, hi: i64) -> (number: i64)
    requires
        lo < hi,
    ensures
        lo <= number < hi,
{
    rng.gen_range(lo..hi)
}

/// A point in time of `std::time`.
#[verifier::external_type_specification]
#[verifier::external_body]
pub struct ExInstant(Instant);

/// `Instant::now` reads the clock.
#[verifier::external_body]
pub(crate) fn now() -> Instant {
    Instant::now()
}

/// The order on `Instant`: `deadline` is not after `time`.
pub uninterp spec fn not_before(time: Instant, deadline: Instant) -> bool;

/// `PartialOrd::ge` on `Instant`: whether `deadline` is not after `time`.  The
/// order rests on the two points in time alone; nothing more is said of it.
#[verifier::external_body]
pub(crate) fn reached(time: Instant, deadline: Instant) -> (r: bool)
    ensures
        r == not_before(time, deadline),
{
    time >= deadline
}

/// A cell of `std::sync` that is written at most once.
#[verifier::external_type_specification]
#[verifier::external_body]
#[verifier::reject_recursive_types(T)]
pub struct ExOnceLock<T>(OnceLock<T>);

/// `OnceLock::new` makes an empty cell.  What a cell holds is not modelled:
/// other threads write it.
pub assume_specification<T>[ OnceLock::<T>::new ]() -> OnceLock<T>;

/// `OnceLock::set` writes the cell, or hands the value back if it was written
/// before.
pub assume_specification<T>[ OnceLock::<T>::set ](cell: &OnceLock<T>, value: T) -> Result<(), T>;

/// `OnceLock::into_inner` hands out what was written, if anything was.
pub assume_specification<T>[ OnceLock::<T>::into_inner ](cell: OnceLock<T>) -> Option<T>;

/// The lexicographic order on pairs.
pub open spec fn pair_le(a: (u32, usize), b: (u32, usize)) -> bool {
    a.0 < b.0 || (a.0 == b.0 && a.1 <= b.1)
}

/// `<[T]>::sort_unstable` on pairs: the same pairs, in ascending lexicographic
/// order.
#[verifier::external_body]
pub(crate) fn sort_pairs(pairs: &mut Vec<(u32, usize)>)
    ensures
        final(pairs)@.to_multiset() == old(pairs)@.to_multiset(),
        forall|i: int, j: int|
            0 <= i < j < final(pairs)@.len() ==> pair_le(final(pairs)@[i], final(pairs)@[j]),
{
    pairs.sort_unstable();
}

/// `ParallelIterator::find_map_any` over the items of a list: a result that
/// the function gave for some item, or nothing where it gave nothing for every
/// item.  Which result is handed out, where several items give one, is left
/// open.
#[verifier::external_body]
pub(crate) fn find_map_any<T: Sync, R: Send, F: Fn(&T) -> Option<R> + Sync + Send>(
    items: &Vec<T>,
    f: F,
) -> (found: Option<R>)
    requires
        forall|i: int| 0 <= i < items@.len() ==> call_requires(f, (&#[trigger] items@[i],)),
    ensures
        match found {
            Some(r) => exists|i: int|
                0 <= i < items@.len() && call_ensures(f, (&#[trigger] items@[i],), Some(r)),
            None => forall|i: int|
                0 <= i < items@.len() ==> call_ensures(f, (&#[trigger] items@[i],), None::<R>),
        },
{
    items.par_iter().find_map_any(f)
}

} // verus!
