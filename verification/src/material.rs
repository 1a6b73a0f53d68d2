//! The one decision of the scattering model that does not depend on the
//! geometry: whether a ray that meets a dielectric is reflected or refracted.

use vstd::prelude::*;

verus! {

/// What a dielectric does with a ray.
#[derive(Clone, Copy, Debug, PartialEq, Eq, Structural)]
pub enum Bounce {
    Reflect,
    Refract,
}

/// The ray cannot be refracted: the sine of the incidence angle times the
/// ratio of the refractive indices exceeds one.
pub open spec fn cannot_refract(ratio_sine: u32, one: u32) -> bool {
    ratio_sine > one
}

/// What a dielectric does: it reflects where the ray cannot be refracted,
/// and otherwise where the reflectance exceeds the draw.
pub open spec fn bounce_of(ratio_sine: u32, one: u32, reflectance: u32, draw: u32) -> Bounce {
    if cannot_refract(ratio_sine, one) || reflectance > draw {
        Bounce::Reflect
    } else {
        Bounce::Refract
    }
}

/// Decides between reflection and refraction. `ratio_sine` is the key of
/// the sine of the incidence angle times the ratio of the refractive
/// indices, `one` the key of the number one, `reflectance` the key of the
/// reflectance at that angle and `draw` the key of a uniform draw.
pub fn dielectric_bounce(ratio_sine: u32, one: u32, reflectance: u32, draw: u32) -> (bounce:
    Bounce)
    ensures
        bounce == bounce_of(ratio_sine, one, reflectance, draw),
{
    if ratio_sine > one || reflectance > draw {
        Bounce::Reflect
    } else {
        Bounce::Refract
    }
}

/// Total internal reflection: a ray that cannot be refracted is reflected,
/// whatever the reflectance and whatever the draw.
pub proof fn lemma_total_internal_reflection(
    ratio_sine: u32,
    one: u32,
    reflectance: u32,
    draw: u32,
)
    requires
        cannot_refract(ratio_sine, one),
    ensures
        bounce_of(ratio_sine, one, reflectance, draw) == Bounce::Reflect,
{
}

} // verus!
