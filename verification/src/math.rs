//! The floating-point arithmetic that the indexes call for.
//!
//! The indexes decide; a [`VectorMath`] computes. Every operation takes and
//! gives bit patterns (see [`crate::bits`]), and every contract of the library
//! that depends on a computed number names it by the specification function of
//! the operation, so it holds whatever arithmetic stands behind the trait.

use vstd::prelude::*;

use crate::types::Metric;

verus! {

/// Arithmetic on vectors of bit patterns.
///
/// The methods promise nothing by themselves. Functions that use a `VectorMath`
/// ask for one that is [`lawful`]: each method answers what its specification
/// function says, so that the same arguments always give the same answer. An
/// implementation may define the specification functions; left alone, each is an
/// answer that its method can give.
pub trait VectorMath {
    /// What [`VectorMath::distance`] answers.
    open spec fn distance_of(&self, metric: Metric, left: Seq<u32>, right: Seq<u32>) -> u32 {
        (choose|r: u32, a: &[u32], b: &[u32]|
            a@ == left && b@ == right && #[trigger] call_ensures(
                Self::distance,
                (self, metric, a, b),
                r,
            )).0
    }

    /// What [`VectorMath::mean`] answers.
    open spec fn mean_of(&self, column: Seq<u32>) -> u32 {
        (choose|r: u32, a: &[u32]|
            a@ == column && #[trigger] call_ensures(Self::mean, (self, a), r)).0
    }

    /// What [`VectorMath::norm`] answers.
    open spec fn norm_of(&self, vector: Seq<u32>) -> u64 {
        (choose|r: u64, a: &[u32]|
            a@ == vector && #[trigger] call_ensures(Self::norm, (self, a), r)).0
    }

    /// What [`VectorMath::divide`] answers.
    open spec fn quotient_of(&self, value: u32, norm: u64) -> u32 {
        choose|r: u32| #[trigger] call_ensures(Self::divide, (self, value, norm), r)
    }

    /// What [`VectorMath::subtract`] answers.
    open spec fn difference_of(&self, value: u32, center: u32) -> u32 {
        choose|r: u32| #[trigger] call_ensures(Self::subtract, (self, value, center), r)
    }

    /// What [`VectorMath::subtract_wide`] answers.
    open spec fn wide_difference_of(&self, value: u32, center: u32) -> u64 {
        choose|r: u64| #[trigger] call_ensures(Self::subtract_wide, (self, value, center), r)
    }

    /// What [`VectorMath::squared_distance`] answers.
    open spec fn squared_distance_of(&self, left: Seq<u32>, right: Seq<u32>) -> u64 {
        (choose|r: u64, a: &[u32], b: &[u32]|
            a@ == left && b@ == right && #[trigger] call_ensures(
                Self::squared_distance,
                (self, a, b),
                r,
            )).0
    }

    /// What [`VectorMath::residual_distance`] answers.
    open spec fn residual_distance_of(&self, residual: Seq<u64>, codeword: Seq<u32>) -> u64 {
        (choose|r: u64, a: &[u64], b: &[u32]|
            a@ == residual && b@ == codeword && #[trigger] call_ensures(
                Self::residual_distance,
                (self, a, b),
                r,
            )).0
    }

    /// What [`VectorMath::sum`] answers.
    open spec fn sum_of(&self, terms: Seq<u64>) -> u64 {
        (choose|r: u64, a: &[u64]|
            a@ == terms && #[trigger] call_ensures(Self::sum, (self, a), r)).0
    }

    /// What [`VectorMath::root`] answers.
    open spec fn root_of(&self, square: u64) -> u32 {
        choose|r: u32| #[trigger] call_ensures(Self::root, (self, square), r)
    }

    /// The distance between two vectors by `metric`.
    fn distance(&self, metric: Metric, left: &[u32], right: &[u32]) -> u32;

    /// The mean of some numbers: summed in double precision in the order given,
    /// divided by their count, rounded to single precision.
    fn mean(&self, column: &[u32]) -> u32;

    /// The Euclidean norm of a vector, in double precision.
    fn norm(&self, vector: &[u32]) -> u64;

    /// `value` divided by `norm` in double precision, rounded to single.
    fn divide(&self, value: u32, norm: u64) -> u32;

    /// `value` less `center` in double precision, rounded to single.
    fn subtract(&self, value: u32, center: u32) -> u32;

    /// `value` less `center` in double precision.
    fn subtract_wide(&self, value: u32, center: u32) -> u64;

    /// The sum of the squared differences of two vectors, in double precision.
    fn squared_distance(&self, left: &[u32], right: &[u32]) -> u64;

    /// The sum of the squared differences of a double-precision vector and a
    /// single-precision one, in double precision.
    fn residual_distance(&self, residual: &[u64], codeword: &[u32]) -> u64;

    /// The sum of some double-precision numbers.
    fn sum(&self, terms: &[u64]) -> u64;

    /// The square root of a double-precision number, rounded to single.
    fn root(&self, square: u64) -> u32;
}

/// Whether every operation of `math` is the function that it names.
pub open spec fn lawful<M: VectorMath>(math: &M) -> bool {
    &&& forall|metric: Metric, left: &[u32], right: &[u32], r: u32| #[trigger]
        call_ensures(M::distance, (math, metric, left, right), r) ==> r == math.distance_of(
            metric,
            left@,
            right@,
        )
    &&& forall|column: &[u32], r: u32| #[trigger]
        call_ensures(M::mean, (math, column), r) ==> r == math.mean_of(column@)
    &&& forall|vector: &[u32], r: u64| #[trigger]
        call_ensures(M::norm, (math, vector), r) ==> r == math.norm_of(vector@)
    &&& forall|value: u32, norm: u64, r: u32| #[trigger]
        call_ensures(M::divide, (math, value, norm), r) ==> r == math.quotient_of(value, norm)
    &&& forall|value: u32, center: u32, r: u32| #[trigger]
        call_ensures(M::subtract, (math, value, center), r) ==> r == math.difference_of(
            value,
            center,
        )
    &&& forall|value: u32, center: u32, r: u64| #[trigger]
        call_ensures(M::subtract_wide, (math, value, center), r) ==> r
            == math.wide_difference_of(value, center)
    &&& forall|left: &[u32], right: &[u32], r: u64| #[trigger]
        call_ensures(M::squared_distance, (math, left, right), r) ==> r
            == math.squared_distance_of(left@, right@)
    &&& forall|residual: &[u64], codeword: &[u32], r: u64| #[trigger]
        call_ensures(M::residual_distance, (math, residual, codeword), r) ==> r
            == math.residual_distance_of(residual@, codeword@)
    &&& forall|terms: &[u64], r: u64| #[trigger]
        call_ensures(M::sum, (math, terms), r) ==> r == math.sum_of(terms@)
    &&& forall|square: u64, r: u32| #[trigger]
        call_ensures(M::root, (math, square), r) ==> r == math.root_of(square)
}

} // verus!
