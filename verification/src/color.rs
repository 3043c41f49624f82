//! Colours as red, green and blue channels.

use vstd::prelude::*;

verus! {

/// A colour of three 8-bit channels.
#[derive(Debug, Clone, Copy, PartialEq, Eq, Structural)]
pub struct Color {
    pub r: u8,
    pub g: u8,
    pub b: u8,
}

impl Color {
    /// The packed value `0xRRGGBB` of a colour.
    pub open spec fn packed(self) -> int {
        self.r * 65536 + self.g * 256 + self.b
    }

    /// The colour that the low 24 bits of `hex` spell as `0xRRGGBB`.
    pub open spec fn unpacked(hex: int) -> Color {
        Color { r: (hex / 65536 % 256) as u8, g: (hex / 256 % 256) as u8, b: (hex % 256) as u8 }
    }

    /// The channel-wise sum, each channel held at 255.
    pub open spec fn sum(self, other: Color) -> Color {
        Color {
            r: if self.r + other.r > 255 { 255u8 } else { (self.r + other.r) as u8 },
            g: if self.g + other.g > 255 { 255u8 } else { (self.g + other.g) as u8 },
            b: if self.b + other.b > 255 { 255u8 } else { (self.b + other.b) as u8 },
        }
    }

    /// The channel-wise difference, each channel held at 0.
    pub open spec fn difference(self, other: Color) -> Color {
        Color {
            r: if self.r < other.r { 0u8 } else { (self.r - other.r) as u8 },
            g: if self.g < other.g { 0u8 } else { (self.g - other.g) as u8 },
            b: if self.b < other.b { 0u8 } else { (self.b - other.b) as u8 },
        }
    }

    /// A colour from its channels.
    pub fn new(r: u8, g: u8, b: u8) -> (c: Color)
        ensures
            c == (Color { r, g, b }),
    {
        Color { r, g, b }
    }

    /// A colour from a packed value `0xRRGGBB`. Bits above the low 24 are
    /// ignored.
    pub fn from_hex(hex: u32) -> (c: Color)
        ensures
            c == Color::unpacked(hex as int),
    {
        assert((hex >> 16) & 0xFF == hex / 65536 % 256 && (hex >> 8) & 0xFF == hex / 256 % 256 && hex
            & 0xFF == hex % 256) by (bit_vector);
        Color {
            r: ((hex >> 16) & 0xFF) as u8,
            g: ((hex >> 8) & 0xFF) as u8,
            b: (hex & 0xFF) as u8,
        }
    }

    /// The packed value `0xRRGGBB`.
    pub fn to_hex(&self) -> (hex: u32)
        ensures
            hex == self.packed(),
    {
        let r = self.r as u32;
        let g = self.g as u32;
        let b = self.b as u32;
        assert(r << 16 | g << 8 | b == r * 65536 + g * 256 + b) by (bit_vector)
            requires
                r < 256,
                g < 256,
                b < 256,
        ;
        r << 16 | g << 8 | b
    }

    /// Adds channel by channel, holding each at 255.
    pub fn saturating_add(self, other: Color) -> (c: Color)
        ensures
            c == self.sum(other),
    {
        Color {
            r: self.r.saturating_add(other.r),
            g: self.g.saturating_add(other.g),
            b: self.b.saturating_add(other.b),
        }
    }

    /// Subtracts channel by channel, holding each at 0.
    pub fn saturating_sub(self, other: Color) -> (c: Color)
        ensures
            c == self.difference(other),
    {
        Color {
            r: self.r.saturating_sub(other.r),
            g: self.g.saturating_sub(other.g),
            b: self.b.saturating_sub(other.b),
        }
    }
}

/// Packing a colour and unpacking the value gives the colour back;
/// unpacking and packing keeps the low 24 bits.
pub proof fn lemma_hex_round_trip(c: Color, hex: u32)
    ensures
        Color::unpacked(c.packed()) == c,
        Color::unpacked(hex as int).packed() == hex % 0x100_0000,
{
    let r = c.r as u32;
    let g = c.g as u32;
    let b = c.b as u32;
    assert((r * 65536 + g * 256 + b) / 65536 % 256 == r && (r * 65536 + g * 256 + b) / 256 % 256
        == g && (r * 65536 + g * 256 + b) % 256 == b) by (bit_vector)
        requires
            r < 256,
            g < 256,
            b < 256,
    ;
    assert((hex / 65536 % 256) * 65536 + (hex / 256 % 256) * 256 + hex % 256 == hex % 0x100_0000)
        by (bit_vector);
}

} // verus!
