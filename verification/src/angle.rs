//! The angle units of the trigonometric functions.
use vstd::prelude::*;

verus! {

/// The unit in which angles are given.
#[derive(Clone, Copy, Debug, PartialEq, Eq, Structural)]
pub enum AngleUnit {
    Degree,
    Radian,
    Gradian,
}

} // verus!
