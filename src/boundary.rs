//! The bounding radius of a collidable entity.
use vstd::prelude::*;

verus! {

/// The effective interaction radius of an entity, in world units, used by
/// the precise overlap test. It is independent of the grid's cell size.
#[derive(Clone, Copy, Debug, PartialEq, Eq, Structural)]
pub struct Bounding {
    pub radius: u32,
}

impl Bounding {
    pub fn from_radius(radius: u32) -> (b: Bounding)
        ensures
            b.radius == radius,
    {
        Bounding { radius }
    }
}

} // verus!
