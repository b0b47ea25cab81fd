use vstd::prelude::*;
use crate::color::Rgb;

verus! {

/// The surface style of a planet, which picks its procedural shader.
#[derive(Clone, Copy, Debug, PartialEq, Eq, Structural)]
pub enum PlanetType {
    Rocky,
    Cloudy,
    Earth,
    Glitter,
    Heart,
}

/// The base and detail colours that a planet of each type is given.
pub open spec fn palette(kind: PlanetType) -> (Rgb, Rgb) {
    match kind {
        PlanetType::Rocky => (Rgb { r: 127, g: 106, b: 79 }, Rgb { r: 76, g: 63, b: 47 }),
        PlanetType::Cloudy => (Rgb { r: 173, g: 216, b: 230 }, Rgb { r: 255, g: 255, b: 255 }),
        PlanetType::Earth => (Rgb { r: 0, g: 117, b: 44 }, Rgb { r: 0, g: 121, b: 241 }),
        PlanetType::Glitter => (Rgb { r: 255, g: 109, b: 194 }, Rgb { r: 255, g: 255, b: 255 }),
        PlanetType::Heart => (Rgb { r: 255, g: 109, b: 194 }, Rgb { r: 230, g: 41, b: 55 }),
    }
}

/// The base and detail colours of a planet of type `kind`: brown and dark brown
/// for rocky, light blue and white for cloudy, dark green and blue for earth-like,
/// pink and white for glitter, pink and red for heart.
pub fn planet_palette(kind: PlanetType) -> (p: (Rgb, Rgb))
    ensures
        p == palette(kind),
{
    match kind {
        PlanetType::Rocky => (Rgb::new(127, 106, 79), Rgb::new(76, 63, 47)),
        PlanetType::Cloudy => (Rgb::new(173, 216, 230), Rgb::new(255, 255, 255)),
        PlanetType::Earth => (Rgb::new(0, 117, 44), Rgb::new(0, 121, 241)),
        PlanetType::Glitter => (Rgb::new(255, 109, 194), Rgb::new(255, 255, 255)),
        PlanetType::Heart => (Rgb::new(255, 109, 194), Rgb::new(230, 41, 55)),
    }
}

} // verus!
