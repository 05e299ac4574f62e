use vstd::prelude::*;

verus! {

/// The side of a surface that a ray strikes.
#[derive(Debug, Copy, Clone, PartialEq, Eq, Structural)]
pub enum Face {
    /// The ray arrives from outside: it runs against the outward normal.
    Front,
    /// The ray arrives from inside: it runs along the outward normal.
    Back,
}

impl Face {
    /// Classifies a hit from the sign of `direction · outward_normal`:
    /// `Front` exactly when that product is negative.
    pub fn from_incidence(against_normal: bool) -> (face: Face)
        ensures
            face == Face::Front <==> against_normal,
            face == Face::Back <==> !against_normal,
    {
        if against_normal {
            Face::Front
        } else {
            Face::Back
        }
    }

    /// Whether the outward normal has to be negated so that the stored normal
    /// opposes the incoming ray: true on the back face only.
    pub fn flips_normal(&self) -> (flip: bool)
        ensures
            flip <==> *self == Face::Back,
    {
        match self {
            Face::Front => false,
            Face::Back => true,
        }
    }
}

} // verus!
