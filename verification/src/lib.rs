//! Verified core of a signed-distance-field renderer: the shape atoms,
//! the framebuffer that images are drawn into, and the naming of the
//! frames of an animation.

pub mod frames;
pub mod geometry;
pub mod framebuffer;
pub mod shapes;
