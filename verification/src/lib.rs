//! The animation engine of a two-rotor trail drawing.
//!
//! Two rotors each carry a moving point; the crossing of two long arms
//! anchored at those points traces a curve. The engine samples that curve a
//! fixed number of times per frame, keeps the samples that are not drawn yet
//! in a trail buffer, and records each frame's drawing as a list of surface
//! operations for the host to paint.
//!
//! The engine holds no real number. It is generic in the rotor type `R` and
//! in the scalar type `S` of a coordinate, and the host hands it the
//! kinematics as function values:
//!
//! - `intersect(a, b)` gives the two points in which the arms of the rotors
//!   `a` and `b` cross, or the reason why there are none;
//! - `advance(r)` gives the rotor `r` one simulation step later;
//! - `observe(r)` gives what the overlay shows of the rotor `r`.
//!
//! The contracts speak of these functions through what they can return, so
//! they hold for every host. Where a function asks that the kinematics accept
//! all rotors, a host whose functions have no precondition has nothing to
//! show.

pub mod constants;
pub mod draw;
pub mod field;
pub mod math;
pub mod renderer;
