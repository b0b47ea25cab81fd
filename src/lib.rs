//! A software rasterizer core: packed colours, a colour and depth framebuffer,
//! a barycentric triangle rasterizer with a depth test, and the integer parts of
//! the procedural shading of a small solar-system scene.

pub mod color;
pub mod framebuffer;
pub mod noise;
pub mod planet;
pub mod raster;
pub mod sky;
pub mod visibility;

pub use color::{color_to_u32, packed, Rgb};
pub use framebuffer::{cell, Framebuffer, FAR_DEPTH};
pub use raster::{rasterize_triangle, Fragment, ScreenVertex};
pub use sky::{draw_sky_star, random_sky_star_color, sky_star_color};
pub use noise::lattice_hash;
pub use planet::{planet_palette, PlanetType};
