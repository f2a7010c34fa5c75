use vstd::prelude::*;

verus! {

/// Which side of a surface a ray struck.
#[derive(Clone, Copy, Debug, PartialEq, Eq, Structural)]
pub enum Face {
    /// The ray arrived against the geometric outward normal.
    Front,
    /// The ray arrived from inside the surface.
    Back,
}

impl Face {
    /// The face struck, given whether the outward normal opposes the ray direction.
    pub fn from_orientation(normal_opposes_ray: bool) -> (r: Face)
        ensures
            r == (if normal_opposes_ray { Face::Front } else { Face::Back }),
    {
        if normal_opposes_ray {
            Face::Front
        } else {
            Face::Back
        }
    }
}

} // verus!
