use vstd::prelude::*;

verus! {

/// Distance from `Self` to a stored value of type `T`.
///
/// `spec_distance` is the mathematical distance, `distance` computes it.
/// `distance_heuristic` may be a cheaper value that ranks candidates against
/// one fixed reference in the same order as the true distance (a squared
/// distance, for instance); it is used only while the tree is built.
pub trait Distance<T>: Sized {
    spec fn spec_distance(&self, other: &T) -> u64;

    spec fn spec_heuristic(&self, other: &T) -> u64;

    fn distance(&self, other: &T) -> (d: u64)
        ensures
            d == self.spec_distance(other),
    ;

    fn distance_heuristic(&self, other: &T) -> (h: u64)
        ensures
            h == self.spec_heuristic(other),
    ;

    /// Ranking by the heuristic never contradicts ranking by the distance.
    proof fn lemma_heuristic_order(&self, a: &T, b: &T)
        ensures
            self.spec_heuristic(a) <= self.spec_heuristic(b) ==> self.spec_distance(a)
                <= self.spec_distance(b),
    ;
}

/// A query target whose distances to stored values obey the triangle
/// inequality together with the stored values' own distances.
pub trait Metric<T: Distance<T>>: Distance<T> {
    /// For a pivot `p` and an item `x`: `d(p, x) <= d(self, p) + d(self, x)` and
    /// `d(self, p) <= d(self, x) + d(p, x)`.
    proof fn lemma_triangle(&self, p: &T, x: &T)
        ensures
            p.spec_distance(x) <= self.spec_distance(p) + self.spec_distance(x),
            self.spec_distance(p) <= self.spec_distance(x) + p.spec_distance(x),
    ;
}

/// Absolute difference of two unsigned integers.
pub open spec fn abs_diff_u64(a: u64, b: u64) -> u64 {
    if a >= b {
        (a - b) as u64
    } else {
        (b - a) as u64
    }
}

/// Absolute difference of two signed integers; it always fits in a `u64`.
pub open spec fn abs_diff_i64(a: i64, b: i64) -> u64 {
    if a >= b {
        (a - b) as u64
    } else {
        (b - a) as u64
    }
}

impl Distance<u64> for u64 {
    open spec fn spec_distance(&self, other: &u64) -> u64 {
        abs_diff_u64(*self, *other)
    }

    open spec fn spec_heuristic(&self, other: &u64) -> u64 {
        abs_diff_u64(*self, *other)
    }

    fn distance(&self, other: &u64) -> (d: u64) {
        if *self >= *other {
            *self - *other
        } else {
            *other - *self
        }
    }

    fn distance_heuristic(&self, other: &u64) -> (h: u64) {
        self.distance(other)
    }

    proof fn lemma_heuristic_order(&self, a: &u64, b: &u64) {
    }
}

impl Metric<u64> for u64 {
    proof fn lemma_triangle(&self, p: &u64, x: &u64) {
    }
}

impl Distance<i64> for i64 {
    open spec fn spec_distance(&self, other: &i64) -> u64 {
        abs_diff_i64(*self, *other)
    }

    open spec fn spec_heuristic(&self, other: &i64) -> u64 {
        abs_diff_i64(*self, *other)
    }

    fn distance(&self, other: &i64) -> (d: u64) {
        if *self >= *other {
            (*self as i128 - *other as i128) as u64
        } else {
            (*other as i128 - *self as i128) as u64
        }
    }

    fn distance_heuristic(&self, other: &i64) -> (h: u64) {
        self.distance(other)
    }

    proof fn lemma_heuristic_order(&self, a: &i64, b: &i64) {
    }
}

impl Metric<i64> for i64 {
    proof fn lemma_triangle(&self, p: &i64, x: &i64) {
    }
}

} // verus!
