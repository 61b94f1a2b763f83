//! Points and axis-aligned rectangles, used for the region of the plane
//! that an image shows.

use vstd::prelude::*;

verus! {

/// A point of the plane.
#[derive(Clone, Copy)]
pub struct Pt<T> {
    pub x: T,
    pub y: T,
}

/// An axis-aligned rectangle given by its lower-left and upper-right corners.
#[derive(Clone, Copy)]
pub struct Rect<T> {
    pub ll: Pt<T>,
    pub ur: Pt<T>,
}

} // verus!
