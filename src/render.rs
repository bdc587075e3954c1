use vstd::prelude::*;

verus! {

/// How the integrator gathers direct light.
#[derive(Debug, Copy, Clone, PartialEq, Eq, Structural)]
pub enum Strategy {
    /// Light is found only by paths that happen to hit an emitter.
    Simple,
    /// Next-event estimation: every diffuse bounce samples the lights.
    SampleLights,
}

impl Strategy {
    /// Whether the emission of a surface that a path reaches counts towards
    /// the path's radiance. Under next-event estimation, emission reached
    /// after a diffuse bounce was already counted when the lights were
    /// sampled, so only a specular bounce (or the camera) lets it count.
    pub fn counts_emission(self, after_specular: bool) -> (r: bool)
        ensures
            r == (self == Strategy::Simple || after_specular),
    {
        match self {
            Strategy::Simple => true,
            Strategy::SampleLights => after_specular,
        }
    }
}

/// Whether a ray may hit an object: objects drawn for the camera only (an
/// overlay such as axes) are invisible to every ray but camera rays.
pub fn visible_to_ray(is_camera_ray: bool, camera_only: bool) -> (r: bool)
    ensures
        r == (is_camera_ray || !camera_only),
{
    is_camera_ray || !camera_only
}

/// Whether a pixel has taken enough samples for its variance to be judged:
/// at least `min_samples`, and never fewer than two, the least number for
/// which a variance exists.
pub fn enough_samples_for_variance(count: u32, min_samples: u32) -> (r: bool)
    ensures
        r == (count >= min_samples && count >= 2),
{
    let needed = if min_samples > 2 { min_samples } else { 2 };
    count >= needed
}

/// One of the three coordinate axes.
#[derive(Debug, Copy, Clone, PartialEq, Eq, Structural)]
pub enum Axis3 {
    X,
    Y,
    Z,
}

impl Axis3 {
    /// The three axes in order.
    pub fn all() -> (r: [Axis3; 3])
        ensures
            r@ == seq![Axis3::X, Axis3::Y, Axis3::Z],
    {
        let r = [Axis3::X, Axis3::Y, Axis3::Z];
        assert(r@ =~= seq![Axis3::X, Axis3::Y, Axis3::Z]);
        r
    }
}

} // verus!
