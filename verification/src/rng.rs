//! Random draws behind one small trait, so that the generators can be verified
//! for every value the random number generator may hand back.
use vstd::prelude::*;
use rand::rngs::{SmallRng, StdRng};
use rand::seq::SliceRandom;
use rand::Rng;

verus! {

#[verifier::external_type_specification]
#[verifier::external_body]
pub struct ExStdRng(StdRng);

#[verifier::external_type_specification]
#[verifier::external_body]
pub struct ExSmallRng(SmallRng);

/// The draws that the generators of this crate make.
///
/// Nothing is promised of a draw beyond the range it falls in: the generators
/// are verified for every value that a draw may return.
pub trait RandomSource {
    /// A value in `lo..=hi`.
    fn range_u64_inclusive(&mut self, lo: u64, hi: u64) -> (r: u64)
        requires
            lo <= hi,
        ensures
            lo <= r <= hi,
    ;

    /// A value in `lo..hi`.
    fn range_i32(&mut self, lo: i32, hi: i32) -> (r: i32)
        requires
            lo < hi,
        ensures
            lo <= r < hi,
    ;

    /// A value in `lo..hi`.
    fn range_usize(&mut self, lo: usize, hi: usize) -> (r: usize)
        requires
            lo < hi,
        ensures
            lo <= r < hi,
    ;

    /// A value in `lo..=hi`.
    fn range_usize_inclusive(&mut self, lo: usize, hi: usize) -> (r: usize)
        requires
            lo <= hi,
        ensures
            lo <= r <= hi,
    ;

    /// `true` with probability `numerator / denominator`.
    fn ratio(&mut self, numerator: u32, denominator: u32) -> (r: bool)
        requires
            0 < denominator,
            numerator <= denominator,
        ensures
            numerator == 0 ==> !r,
            numerator == denominator ==> r,
    ;

    /// One element of `items`, or `None` when `items` is empty.
    fn pick<'a, T>(&mut self, items: &'a [T]) -> (r: Option<&'a T>)
        ensures
            r is None <==> items@.len() == 0,
            r matches Some(x) ==> items@.contains(*x),
    ;
}

/// Calls `rand::Rng::gen_range` with `lo..=hi`; the contract claims that the
/// result lies in that range, as rand's documentation states.
#[verifier::external_body]
fn gen_u64_inclusive<R: Rng>(rng: &mut R, lo: u64, hi: u64) -> (r: u64)
    requires
        lo <= hi,
    ensures
        lo <= r <= hi,
{
    rng.gen_range(lo..=hi)
}

/// Calls `rand::Rng::gen_range` with `lo..hi` on `i32`; the contract claims
/// that the result lies in that range.
#[verifier::external_body]
fn gen_i32<R: Rng>(rng: &mut R, lo: i32, hi: i32) -> (r: i32)
    requires
        lo < hi,
    ensures
        lo <= r < hi,
{
    rng.gen_range(lo..hi)
}

/// Calls `rand::Rng::gen_range` with `lo..hi` on `usize`; the contract claims
/// that the result lies in that range.
#[verifier::external_body]
fn gen_usize<R: Rng>(rng: &mut R, lo: usize, hi: usize) -> (r: usize)
    requires
        lo < hi,
    ensures
        lo <= r < hi,
{
    rng.gen_range(lo..hi)
}

/// Calls `rand::Rng::gen_range` with `lo..=hi` on `usize`; the contract claims
/// that the result lies in that range.
#[verifier::external_body]
fn gen_usize_inclusive<R: Rng>(rng: &mut R, lo: usize, hi: usize) -> (r: usize)
    requires
        lo <= hi,
    ensures
        lo <= r <= hi,
{
    rng.gen_range(lo..=hi)
}

/// Calls `rand::Rng::gen_ratio`; the contract claims what its documentation
/// states of the two extreme ratios (never true for 0, always for 1).
#[verifier::external_body]
fn gen_ratio<R: Rng>(rng: &mut R, numerator: u32, denominator: u32) -> (r: bool)
    requires
        0 < denominator,
        numerator <= denominator,
    ensures
        numerator == 0 ==> !r,
        numerator == denominator ==> r,
{
    rng.gen_ratio(numerator, denominator)
}

/// Calls `rand::seq::SliceRandom::choose`; the contract claims that the result
/// is `None` exactly for an empty slice and otherwise one of its elements.
#[verifier::external_body]
fn choose_in<'a, T, R: Rng>(rng: &mut R, items: &'a [T]) -> (r: Option<&'a T>)
    ensures
        r is None <==> items@.len() == 0,
        r matches Some(x) ==> items@.contains(*x),
{
    items.choose(rng)
}

impl RandomSource for StdRng {
    fn range_u64_inclusive(&mut self, lo: u64, hi: u64) -> (r: u64) {
        gen_u64_inclusive(self, lo, hi)
    }

    fn range_i32(&mut self, lo: i32, hi: i32) -> (r: i32) {
        gen_i32(self, lo, hi)
    }

    fn range_usize(&mut self, lo: usize, hi: usize) -> (r: usize) {
        gen_usize(self, lo, hi)
    }

    fn range_usize_inclusive(&mut self, lo: usize, hi: usize) -> (r: usize) {
        gen_usize_inclusive(self, lo, hi)
    }

    fn ratio(&mut self, numerator: u32, denominator: u32) -> (r: bool) {
        gen_ratio(self, numerator, denominator)
    }

    fn pick<'a, T>(&mut self, items: &'a [T]) -> (r: Option<&'a T>) {
        choose_in(self, items)
    }
}

impl RandomSource for SmallRng {
    fn range_u64_inclusive(&mut self, lo: u64, hi: u64) -> (r: u64) {
        gen_u64_inclusive(self, lo, hi)
    }

    fn range_i32(&mut self, lo: i32, hi: i32) -> (r: i32) {
        gen_i32(self, lo, hi)
    }

    fn range_usize(&mut self, lo: usize, hi: usize) -> (r: usize) {
        gen_usize(self, lo, hi)
    }

    fn range_usize_inclusive(&mut self, lo: usize, hi: usize) -> (r: usize) {
        gen_usize_inclusive(self, lo, hi)
    }

    fn ratio(&mut self, numerator: u32, denominator: u32) -> (r: bool) {
        gen_ratio(self, numerator, denominator)
    }

    fn pick<'a, T>(&mut self, items: &'a [T]) -> (r: Option<&'a T>) {
        choose_in(self, items)
    }
}

} // verus!
