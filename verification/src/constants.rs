//! Fixed configuration of the scene.

use vstd::prelude::*;

verus! {

/// Width of the drawing surface, in surface units.
pub const WINDOW_WIDTH: u32 = 3100;

/// Height of the drawing surface, in surface units.
pub const WINDOW_HEIGHT: u32 = WINDOW_WIDTH;

/// Trail points sampled per frame by a renderer built with the default budget.
pub const ITERATIONS_PER_FRAME: usize = 50_000;

/// The fixed pivot around which every rotor centre orbits: the middle of the surface.
pub const ORIGIN: (u32, u32) = (WINDOW_WIDTH / 2, WINDOW_HEIGHT / 2);

/// Stroke width of the construction rims and links on the overlay.
pub const OVERLAY_LINE_WIDTH: u32 = 5;

/// Radius of the small circles that mark a point on the overlay.
pub const MARKER_RADIUS: u32 = 2;

} // verus!
