use vstd::prelude::*;

verus! {

/// The span factor that a `CoverTree` uses unless it is given one.
///
/// The cover distance of a node at level `l` is `span_factor^l`.
pub const DEFAULT_SPAN_FACTOR: u64 = 2;

/// A point of a metric space that a `CoverTree` can hold.
///
/// Distances are whole numbers. An implementation promises that `distance`
/// computes `dist`, that `same_as` decides equality, and that `dist` is a
/// (pseudo)metric: zero from a point to itself, symmetric, and obeying the
/// triangle inequality. The nearest-neighbour search relies on the last two.
pub trait Point: Copy + Sized {
    /// The distance between two points.
    spec fn dist(self, other: Self) -> u64;

    /// Returns the distance between `self` and `other`.
    fn distance(&self, other: Self) -> (d: u64)
        ensures
            d == self.dist(other),
    ;

    /// Returns whether `self` and `other` are the same point.
    fn same_as(&self, other: &Self) -> (b: bool)
        ensures
            b == (*self == *other),
    ;

    /// The metric laws of `dist`.
    proof fn lemma_metric(a: Self, b: Self, c: Self)
        ensures
            a.dist(a) == 0,
            a.dist(b) == b.dist(a),
            a.dist(c) <= a.dist(b) + b.dist(c),
    ;
}

/// The distance between two integers: the absolute value of their difference.
pub open spec fn abs_diff(a: int, b: int) -> int {
    if a >= b {
        a - b
    } else {
        b - a
    }
}

impl Point for i64 {
    open spec fn dist(self, other: Self) -> u64 {
        abs_diff(self as int, other as int) as u64
    }

    fn distance(&self, other: Self) -> (d: u64)
        ensures
            *self >= other ==> d == *self - other,
            *self < other ==> d == other - *self,
    {
        let a: i128 = *self as i128;
        let b: i128 = other as i128;
        if a >= b {
            (a - b) as u64
        } else {
            (b - a) as u64
        }
    }

    fn same_as(&self, other: &Self) -> (b: bool) {
        *self == *other
    }

    proof fn lemma_metric(a: Self, b: Self, c: Self) {
    }
}

impl Point for i32 {
    open spec fn dist(self, other: Self) -> u64 {
        abs_diff(self as int, other as int) as u64
    }

    fn distance(&self, other: Self) -> (d: u64)
        ensures
            *self >= other ==> d == *self - other,
            *self < other ==> d == other - *self,
    {
        let a: i64 = *self as i64;
        let b: i64 = other as i64;
        if a >= b {
            (a - b) as u64
        } else {
            (b - a) as u64
        }
    }

    fn same_as(&self, other: &Self) -> (b: bool) {
        *self == *other
    }

    proof fn lemma_metric(a: Self, b: Self, c: Self) {
    }
}

/// The distance between two `i64` points is the absolute value of their
/// difference: the larger minus the smaller.
pub proof fn law_i64_distance_is_absolute_difference(a: i64, b: i64)
    ensures
        a >= b ==> a.dist(b) == a - b,
        a < b ==> a.dist(b) == b - a,
        a.dist(b) >= a - b,
        a.dist(b) >= b - a,
{
}

/// The distance between two `i32` points is the absolute value of their
/// difference: the larger minus the smaller.
pub proof fn law_i32_distance_is_absolute_difference(a: i32, b: i32)
    ensures
        a >= b ==> a.dist(b) == a - b,
        a < b ==> a.dist(b) == b - a,
        a.dist(b) >= a - b,
        a.dist(b) >= b - a,
{
}

} // verus!
