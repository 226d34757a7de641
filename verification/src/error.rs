//! The ways in which building a value can fail.

use vstd::prelude::*;

verus! {

/// Why a vector, a segment or a configuration was turned down.
#[derive(Clone, Copy, Debug, PartialEq, Eq, Structural)]
pub enum GeometryError {
    /// A vector of length zero has no direction.
    DegenerateVector,
    /// The endpoints of a segment coincide, or the segment is asked to be
    /// both reflective and refractive.
    InvalidSegment,
    /// An index of refraction is not positive, or the bounce budget is zero.
    InvalidConfiguration,
}

} // verus!
