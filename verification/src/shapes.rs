//! The primitive shapes whose distance fields the renderer draws.

use vstd::prelude::*;

verus! {

/// The unit circle centred on the origin.
#[derive(Clone, Copy, Debug)]
pub struct Circle {}

/// The square of half-width one centred on the origin.
#[derive(Clone, Copy, Debug)]
pub struct Square {}

/// A rose curve with a given number of petals.
#[derive(Clone, Copy, Debug)]
pub struct Flower {
    num_petals: i32,
}

impl Flower {
    /// The number of petals this flower was made with.
    pub closed spec fn petals(self) -> i32 {
        self.num_petals
    }

    /// Makes a flower with `num_petals` petals.
    pub fn new(num_petals: i32) -> (f: Flower)
        ensures
            f.petals() == num_petals,
    {
        Flower { num_petals: num_petals }
    }

    /// The number of petals of this flower.
    pub fn num_petals(&self) -> (n: i32)
        ensures
            n == self.petals(),
    {
        self.num_petals
    }
}

/// Whether a repeated copy of a shape is mirrored in the grid cell with
/// index `cell` along one axis: it is in every cell an odd number of cells
/// away from cell zero.
pub fn parity_flips(cell: i32) -> (flip: bool)
    requires
        cell != i32::MIN,
    ensures
        flip == ((if cell < 0 { -cell } else { cell as int }) % 2 == 1),
{
    let distance: i32 = if cell < 0 { -cell } else { cell };
    distance % 2 == 1
}

} // verus!
