use vstd::prelude::*;

verus! {

/// The packed 0xRRGGBB value of three 8-bit channels.
pub open spec fn packed(r: u8, g: u8, b: u8) -> u32 {
    (r as int * 65536 + g as int * 256 + b as int) as u32
}

/// Packs three 8-bit channels into one 0xRRGGBB pixel value.
pub fn color_to_u32(r: u8, g: u8, b: u8) -> (c: u32)
    ensures
        c == packed(r, g, b),
        c as int == r as int * 65536 + g as int * 256 + b as int,
{
    let c: u32 = ((r as u32) << 16u32) | ((g as u32) << 8u32) | (b as u32);
    assert(c == (r as u32) * 65536 + (g as u32) * 256 + (b as u32)) by (bit_vector)
        requires
            c == ((r as u32) << 16u32) | ((g as u32) << 8u32) | (b as u32),
    ;
    c
}

/// An opaque colour given by its three 8-bit channels.
#[derive(Clone, Copy, Debug, PartialEq, Eq, Structural)]
pub struct Rgb {
    pub r: u8,
    pub g: u8,
    pub b: u8,
}

impl Rgb {
    /// The colour with the given channels.
    pub fn new(r: u8, g: u8, b: u8) -> (c: Rgb)
        ensures
            c == (Rgb { r, g, b }),
    {
        Rgb { r, g, b }
    }

    /// The packed 0xRRGGBB value of this colour.
    pub fn to_u32(&self) -> (c: u32)
        ensures
            c == packed(self.r, self.g, self.b),
    {
        color_to_u32(self.r, self.g, self.b)
    }
}

} // verus!
