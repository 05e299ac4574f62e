use vstd::prelude::*;

verus! {

/// What a dielectric surface does with a ray.
#[derive(Debug, Copy, Clone, PartialEq, Eq, Structural)]
pub enum Bounce {
    /// The ray is mirrored at the surface.
    Reflect,
    /// The ray passes into the other medium and bends.
    Refract,
}

/// Decides between reflection and refraction at a dielectric surface.
/// `cannot_refract` says that the refraction ratio times the sine of the
/// incidence angle exceeds one (total internal reflection);
/// `reflectance_over_draw` says that the surface's reflectance at this angle
/// exceeds the uniform random draw. Either is enough to reflect, so under
/// total internal reflection the draw has no say.
pub fn dielectric_bounce(cannot_refract: bool, reflectance_over_draw: bool) -> (bounce: Bounce)
    ensures
        bounce == Bounce::Reflect <==> cannot_refract || reflectance_over_draw,
        bounce == Bounce::Refract <==> !cannot_refract && !reflectance_over_draw,
        cannot_refract ==> bounce == Bounce::Reflect,
{
    if cannot_refract || reflectance_over_draw {
        Bounce::Reflect
    } else {
        Bounce::Refract
    }
}

} // verus!
