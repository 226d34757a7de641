//! Rays: a point to start from and a unit direction to go in.

use vstd::prelude::*;
use crate::error::GeometryError;
use crate::vector::{Point2, Vector2};

verus! {

/// A half-line from `origin` in the unit direction `direction`.
#[derive(Clone, Copy, Debug, PartialEq, Eq, Structural)]
pub struct Ray {
    pub origin: Point2,
    pub direction: Vector2,
}

impl Ray {
    /// The direction is a unit vector.
    pub open spec fn wf(self) -> bool {
        self.direction@.is_unit()
    }

    /// The ray from `origin` toward `direction`, which is brought to unit
    /// length.
    ///
    /// Fails with `DegenerateVector` exactly where `direction` is zero.
    pub fn new(origin: Point2, direction: Vector2) -> (r: Result<Ray, GeometryError>)
        ensures
            match r {
                Ok(ray) => !direction@.is_zero() && ray.origin == origin && ray.direction@
                    == direction@.normalize() && ray.wf(),
                Err(e) => direction@.is_zero() && e == GeometryError::DegenerateVector,
            },
    {
        match direction.normalize() {
            Ok(unit) => Ok(Ray { origin, direction: unit }),
            Err(e) => Err(e),
        }
    }
}

} // verus!
