//! Reading and writing level files of a motorbike game.
//!
//! Doubles in the files (positions, integrity sums, stored counts) are carried
//! as their IEEE-754 bit patterns.
use vstd::prelude::*;

pub mod bytes;
pub mod error;
pub mod cipher;
pub mod count;
pub mod lev;
pub mod enc;
pub mod rec;
pub mod round_trip;

verus! {

/// A point in the plane.
#[derive(Debug, Clone, Copy, PartialEq, Eq, Structural)]
pub struct Position<T> {
    pub x: T,
    pub y: T,
}

} // verus!
