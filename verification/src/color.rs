use vstd::arithmetic::div_mod::{
    lemma_div_denominator, lemma_fundamental_div_mod_converse, lemma_small_mod,
};
use vstd::prelude::*;

verus! {

/// An RGB color: three 8-bit channels.
///
/// Every channel is always in 0..=255 by type; out-of-range inputs are
/// clamped (never wrapped) at construction and by every operation.
#[derive(Clone, Copy, Debug, PartialEq, Eq, Structural)]
pub struct Color {
    pub r: u8,
    pub g: u8,
    pub b: u8,
}

/// Clamp an arbitrary integer into the 0..=255 channel range.
pub open spec fn clamped(v: int) -> int {
    if v < 0 {
        0
    } else if v > 255 {
        255
    } else {
        v
    }
}

/// The color held in the low 24 bits of a packed 0xRRGGBB integer:
/// red in bits 16..24, green in bits 8..16, blue in bits 0..8.
pub open spec fn color_of_hex(h: int) -> Color {
    Color {
        r: (h / 0x10000 % 0x100) as u8,
        g: (h / 0x100 % 0x100) as u8,
        b: (h % 0x100) as u8,
    }
}

impl Color {
    /// The packed 0xRRGGBB integer for this color.
    pub open spec fn spec_hex(self) -> int {
        self.r * 0x10000 + self.g * 0x100 + self.b
    }

    /// Build a color from arbitrary integers, clamping each channel into 0..=255.
    pub fn new(r: i32, g: i32, b: i32) -> (c: Color)
        ensures
            c.r == clamped(r as int),
            c.g == clamped(g as int),
            c.b == clamped(b as int),
    {
        Color { r: Self::clamp(r), g: Self::clamp(g), b: Self::clamp(b) }
    }

    fn clamp(value: i32) -> (c: u8)
        ensures
            c == clamped(value as int),
    {
        if value < 0 {
            0
        } else if value > 255 {
            255
        } else {
            value as u8
        }
    }

    /// Build a color from a packed 0xRRGGBB integer; bits above the low 24 are ignored.
    pub fn from_hex(hex: u32) -> (c: Color)
        ensures
            c == color_of_hex(hex as int),
    {
        Color {
            r: (hex / 0x10000 % 0x100) as u8,
            g: (hex / 0x100 % 0x100) as u8,
            b: (hex % 0x100) as u8,
        }
    }

    /// The packed 0xRRGGBB integer of this color.
    pub fn to_hex(&self) -> (h: u32)
        ensures
            h == self.spec_hex(),
            0 <= self.spec_hex() < 0x1000000,
    {
        (self.r as u32) * 0x10000 + (self.g as u32) * 0x100 + (self.b as u32)
    }

    /// Per-channel saturating addition: each channel stops at 255 instead of wrapping.
    pub fn add_saturating(self, other: Color) -> (c: Color)
        ensures
            c.r == clamped(self.r + other.r),
            c.g == clamped(self.g + other.g),
            c.b == clamped(self.b + other.b),
    {
        Color {
            r: Self::sat_add(self.r, other.r),
            g: Self::sat_add(self.g, other.g),
            b: Self::sat_add(self.b, other.b),
        }
    }

    fn sat_add(a: u8, b: u8) -> (c: u8)
        ensures
            c == clamped(a + b),
    {
        let s: u16 = a as u16 + b as u16;
        if s > 255 {
            255
        } else {
            s as u8
        }
    }

    /// Scale every channel by the non-negative rational `num / den`:
    /// multiply exactly, truncate toward zero, and clamp into 0..=255.
    pub fn scale_clamped(self, num: u32, den: u32) -> (c: Color)
        requires
            den > 0,
        ensures
            c.r == clamped(self.r * num / den as int),
            c.g == clamped(self.g * num / den as int),
            c.b == clamped(self.b * num / den as int),
    {
        Color {
            r: Self::scale_channel(self.r, num, den),
            g: Self::scale_channel(self.g, num, den),
            b: Self::scale_channel(self.b, num, den),
        }
    }

    fn scale_channel(v: u8, num: u32, den: u32) -> (c: u8)
        requires
            den > 0,
        ensures
            c == clamped(v * num / den as int),
    {
        proof {
            assert(v as int * num as int <= 255 * 0xFFFFFFFF) by (nonlinear_arith)
                requires
                    v <= 255,
                    num <= 0xFFFFFFFFu32,
            ;
        }
        let p: u64 = v as u64 * num as u64;
        let q: u64 = p / den as u64;
        if q > 255 {
            255
        } else {
            q as u8
        }
    }
}

/// Packing a color and unpacking the result gives the color back,
/// for every representable color.
pub proof fn lemma_hex_round_trip(c: Color)
    ensures
        color_of_hex(c.spec_hex()) == c,
{
    let r = c.r as int;
    let g = c.g as int;
    let b = c.b as int;
    let h = c.spec_hex();
    assert(h == (r * 0x100 + g) * 0x100 + b);
    lemma_fundamental_div_mod_converse(h, 0x100, r * 0x100 + g, b);
    lemma_fundamental_div_mod_converse(r * 0x100 + g, 0x100, r, g);
    lemma_div_denominator(h, 0x100, 0x100);
    lemma_small_mod(r as nat, 0x100);
}

} // verus!
