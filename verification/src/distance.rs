//! Distances by which candidates are ordered.

use vstd::prelude::*;
use crate::binary32;
use crate::binary32::Binary32;
use crate::rounding::INFINITY_MAG;

verus! {

/// A kind of distance: plain values have a rounded one, packed vectors an exact one.
pub trait Distance: Sized + Copy {
    /// A number that orders all distances.
    spec fn key(self) -> int;

    /// The distance of a slot that holds no reference.
    spec fn farthest() -> Self;

    /// Whether `self` is nearer than `other`.
    fn nearer(self, other: Self) -> (r: bool)
        ensures
            r == (self.key() < other.key()),
    ;

    /// The distance of a slot that holds no reference.
    fn most() -> (r: Self)
        ensures
            r == Self::farthest(),
    ;
}

/// Distances of plain values, in the order of all encodings; infinity is farthest.
impl Distance for Binary32 {
    open spec fn key(self) -> int {
        binary32::total_key(self)
    }

    open spec fn farthest() -> Binary32 {
        binary32::signed(false, INFINITY_MAG as nat)
    }

    fn nearer(self, other: Binary32) -> (r: bool) {
        self.total_order() < other.total_order()
    }

    fn most() -> (r: Binary32) {
        Binary32 { bits: INFINITY_MAG }
    }
}

/// Squared distances of packed vectors, in whole steps.
impl Distance for u64 {
    open spec fn key(self) -> int {
        self as int
    }

    open spec fn farthest() -> u64 {
        u64::MAX
    }

    fn nearer(self, other: u64) -> (r: bool) {
        self < other
    }

    fn most() -> (r: u64) {
        u64::MAX
    }
}

} // verus!
