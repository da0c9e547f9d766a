//! The seeded random stream that world generation draws from.
//!
//! A stream is `rand`'s `StdRng` seeded from a `u64`. That generator is deterministic: the
//! same seed and the same sequence of requests give the same values. A stream is viewed as
//! its seed and the requests made of it so far; each draw is named as a function of those
//! and of the request, so two streams with one seed that are asked the same things answer
//! the same.

use rand::rngs::StdRng;
use rand::{Rng, SeedableRng};
use vstd::prelude::*;

verus! {

/// The `rand` crate's standard seedable generator.
#[verifier::external_type_specification]
#[verifier::external_body]
pub struct ExStdRng(StdRng);

/// A request made of a stream: (0, low, high) for an inclusive `i32` range, (1, low, high)
/// for a half-open `i32` range, (2, numerator, denominator) for a ratio.
pub type Request = (int, int, int);

/// The request for a value in the inclusive `i32` range `[low, high]`.
pub open spec fn req_inclusive(low: int, high: int) -> Request {
    (0, low, high)
}

/// The request for a value in the half-open `i32` range `[low, high)`.
pub open spec fn req_exclusive(low: int, high: int) -> Request {
    (1, low, high)
}

/// The request for `true` with chance `numerator / denominator`.
pub open spec fn req_ratio(numerator: int, denominator: int) -> Request {
    (2, numerator, denominator)
}

/// The value `Rng::gen_range(low..=high)` returns on an `i32` range from the generator
/// seeded with `seed` after it answered `history`.
pub uninterp spec fn inclusive_draw(seed: u64, history: Seq<(int, int, int)>, low: int, high: int) -> int;

/// The value `Rng::gen_range(low..high)` returns on an `i32` range from the generator
/// seeded with `seed` after it answered `history`.
pub uninterp spec fn exclusive_draw(seed: u64, history: Seq<(int, int, int)>, low: int, high: int) -> int;

/// The value `Rng::gen_ratio(numerator, denominator)` returns from the generator seeded
/// with `seed` after it answered `history`.
pub uninterp spec fn ratio_draw(seed: u64, history: Seq<(int, int, int)>, numerator: int, denominator: int) -> bool;

/// A seeded generator together with its seed and the requests it answered.
pub struct SeededStream {
    rng: StdRng,
    seed: Ghost<u64>,
    history: Ghost<Seq<(int, int, int)>>,
}

impl View for SeededStream {
    type V = (u64, Seq<(int, int, int)>);

    closed spec fn view(&self) -> (u64, Seq<(int, int, int)>) {
        (self.seed@, self.history@)
    }
}

/// Calls `StdRng::seed_from_u64`: the generator of the stream fixed by `seed`, which has
/// answered nothing yet.
#[verifier::external_body]
pub(crate) fn seeded_rng(seed: u64) -> (res: SeededStream)
    ensures
        res@ == (seed, Seq::<(int, int, int)>::empty()),
{
    SeededStream { rng: StdRng::seed_from_u64(seed), seed: Ghost(seed), history: Ghost(Seq::empty()) }
}

/// Calls `Rng::gen_range` on an inclusive `i32` range: a value in `[low, high]`, the one the
/// stream gives for this request after the requests it answered. The range must not be
/// empty (the call panics on an empty range).
#[verifier::external_body]
pub(crate) fn gen_range_inclusive(rng: &mut SeededStream, low: i32, high: i32) -> (res: i32)
    requires
        low <= high,
    ensures
        low <= res <= high,
        res == inclusive_draw(old(rng)@.0, old(rng)@.1, low as int, high as int),
        final(rng)@ == (old(rng)@.0, old(rng)@.1.push(req_inclusive(low as int, high as int))),
{
    rng.rng.gen_range(low..=high)
}

/// Calls `Rng::gen_range` on a half-open `i32` range: a value in `[low, high)`, the one the
/// stream gives for this request after the requests it answered. The range must not be
/// empty (the call panics on an empty range).
#[verifier::external_body]
pub(crate) fn gen_range_exclusive(rng: &mut SeededStream, low: i32, high: i32) -> (res: i32)
    requires
        low < high,
    ensures
        low <= res < high,
        res == exclusive_draw(old(rng)@.0, old(rng)@.1, low as int, high as int),
        final(rng)@ == (old(rng)@.0, old(rng)@.1.push(req_exclusive(low as int, high as int))),
{
    rng.rng.gen_range(low..high)
}

/// Calls `Rng::gen_ratio`: true with chance `numerator / denominator`, the answer the
/// stream gives for this request after the requests it answered. Its documentation promises
/// `true` when the two are equal and `false` when the numerator is zero; the call panics
/// when the denominator is zero or smaller than the numerator.
#[verifier::external_body]
pub(crate) fn gen_ratio(rng: &mut SeededStream, numerator: u32, denominator: u32) -> (res: bool)
    requires
        0 < denominator,
        numerator <= denominator,
    ensures
        numerator == denominator ==> res,
        numerator == 0 ==> !res,
        res == ratio_draw(old(rng)@.0, old(rng)@.1, numerator as int, denominator as int),
        final(rng)@ == (old(rng)@.0, old(rng)@.1.push(req_ratio(numerator as int, denominator as int))),
{
    rng.rng.gen_ratio(numerator, denominator)
}

} // verus!
