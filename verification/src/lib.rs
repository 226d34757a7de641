//! Light rays among mirrors, panes and walls in the plane.
//!
//! A scene is a list of straight segments, each of which mirrors, bends or
//! absorbs light. A ray is traced through the scene from one surface to the
//! next: [`intersect`] finds the surface that it meets first, [`optics`]
//! says in which direction it leaves, and [`trace`] strings the meetings
//! together into a path, which ends where the ray meets nothing more, is
//! absorbed, or has bounced as often as it may.
//!
//! All numbers are fixed-point integers that count millionths ([`fixed`]):
//! the coordinates of a point are `i32` values, so the plane reaches about
//! 2147 units from the origin in each direction, and a direction is a vector
//! of length one million, up to two millionths. Parallelism, the side on
//! which a point lies and whether a crossing falls within a segment are
//! decided on exact integer products. Only what is handed back (a point, a
//! distance, a direction) is rounded, always toward zero, and the contracts
//! say to which integer. [`laws`] states what follows for the library as a
//! whole. [`text`] writes a sum in decimal digits for hosts that ask for it.

pub mod error;
pub mod fixed;
pub mod intersect;
pub mod laws;
pub mod optics;
pub mod ray;
pub mod segment;
pub mod text;
pub mod trace;
pub mod vector;
