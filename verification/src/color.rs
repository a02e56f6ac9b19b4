//! RGBA color values carried by the box model.

use vstd::prelude::*;

verus! {

/// An RGBA color, one byte per channel.
#[derive(Debug, Clone, Copy, PartialEq, Eq, Structural)]
pub struct Color {
    pub r: u8,
    pub g: u8,
    pub b: u8,
    pub a: u8,
}

/// The packed `0xRRGGBBAA` encoding of four channel bytes.
pub open spec fn spec_pack_rgba(r: u8, g: u8, b: u8, a: u8) -> int {
    r * 0x1000000 + g * 0x10000 + b * 0x100 + a
}

impl Color {
    /// A color from its four channels.
    pub fn new(r: u8, g: u8, b: u8, a: u8) -> (c: Color)
        ensures
            c == (Color { r, g, b, a }),
    {
        Color { r, g, b, a }
    }

    /// The color packed as `0xAARRGGBB`, the order the draw layer consumes.
    pub fn as_u32(&self) -> (v: u32)
        ensures
            v == spec_pack_rgba(self.a, self.r, self.g, self.b),
    {
        (self.a as u32) * 0x1000000 + (self.r as u32) * 0x10000 + (self.g as u32) * 0x100
            + (self.b as u32)
    }

    /// A color from a packed `0xRRGGBBAA` value; inverse of the packing.
    #[allow(non_snake_case)]
    pub fn Hex(hex: u32) -> (c: Color)
        ensures
            spec_pack_rgba(c.r, c.g, c.b, c.a) == hex,
    {
        let r = ((hex / 0x1000000) % 0x100) as u8;
        let g = ((hex / 0x10000) % 0x100) as u8;
        let b = ((hex / 0x100) % 0x100) as u8;
        let a = (hex % 0x100) as u8;
        proof {
            assert((((hex / 0x1000000) % 0x100) as u8) * 0x1000000
                + (((hex / 0x10000) % 0x100) as u8) * 0x10000
                + (((hex / 0x100) % 0x100) as u8) * 0x100 + ((hex % 0x100) as u8) == hex)
                by (bit_vector);
        }
        Color { r, g, b, a }
    }

    /// The same color with the alpha channel replaced.
    pub fn with_alpha(self, value: u8) -> (c: Color)
        ensures
            c == (Color { a: value, ..self }),
    {
        Color { a: value, ..self }
    }
}

impl Default for Color {
    /// Opaque white, the color a fresh style starts with.
    fn default() -> (c: Color)
        ensures
            c == (Color { r: 255, g: 255, b: 255, a: 255 }),
    {
        Color { r: 255, g: 255, b: 255, a: 255 }
    }
}

} // verus!
