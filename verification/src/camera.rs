use vstd::prelude::*;

verus! {

/// An orientation given as three angles about the x axis (pitch), the y axis
/// (yaw) and the z axis (roll), in whatever scalar type the caller works in.
pub struct RollPitchYaw<F> {
    pub pitch: F,
    pub yaw: F,
    pub roll: F,
}

impl<F> RollPitchYaw<F> {
    /// Bundles the three angles; note the argument order: pitch, yaw, roll.
    pub fn new(pitch: F, yaw: F, roll: F) -> (angles: Self)
        ensures
            angles.pitch == pitch,
            angles.yaw == yaw,
            angles.roll == roll,
    {
        Self { pitch, yaw, roll }
    }
}

} // verus!
