use vstd::prelude::*;

verus! {

/// An RGBA colour, one byte per channel: red, green, blue, alpha.
#[derive(Clone, Copy, Debug, PartialEq, Eq, Structural)]
pub struct ObjectColor(pub u8, pub u8, pub u8, pub u8);

impl ObjectColor {
    /// The colour as one number, red in the most significant byte: `0xRRGGBBAA`.
    pub open spec fn packed(self) -> int {
        self.0 * 0x100_0000 + self.1 * 0x1_0000 + self.2 * 0x100 + self.3
    }

    /// The colour whose packed form is `hex`.
    pub open spec fn unpacked(hex: u32) -> ObjectColor {
        ObjectColor(
            (hex / 0x100_0000) as u8,
            ((hex / 0x1_0000) % 0x100) as u8,
            ((hex / 0x100) % 0x100) as u8,
            (hex % 0x100) as u8,
        )
    }

    /// Packs the four channels into `0xRRGGBBAA`.
    pub fn as_u32(&self) -> (hex: u32)
        ensures
            hex == self.packed(),
            Self::unpacked(hex) == *self,
    {
        let r: u32 = self.0 as u32;
        let g: u32 = self.1 as u32;
        let b: u32 = self.2 as u32;
        let a: u32 = self.3 as u32;
        proof {
            lemma_color_round_trip(*self, 0);
        }
        r * 0x100_0000 + g * 0x1_0000 + b * 0x100 + a
    }

    /// Reads a colour from `0xRRGGBBAA`.
    pub fn from_u32_hex(hex_code: u32) -> (c: Self)
        ensures
            c == Self::unpacked(hex_code),
            c.packed() == hex_code,
    {
        let r: u8 = (hex_code / 0x100_0000) as u8;
        let g: u8 = ((hex_code / 0x1_0000) % 0x100) as u8;
        let b: u8 = ((hex_code / 0x100) % 0x100) as u8;
        let a: u8 = (hex_code % 0x100) as u8;
        proof {
            lemma_color_round_trip(ObjectColor(r, g, b, a), hex_code);
        }
        ObjectColor(r, g, b, a)
    }

    /// Fully transparent black.
    pub fn transparent() -> (c: Self)
        ensures
            c == ObjectColor(0, 0, 0, 0),
    {
        ObjectColor(0, 0, 0, 0)
    }

    /// Opaque black.
    pub fn black() -> (c: Self)
        ensures
            c == ObjectColor(0, 0, 0, 255),
    {
        ObjectColor(0, 0, 0, 255)
    }

    /// Opaque white.
    pub fn white() -> (c: Self)
        ensures
            c == ObjectColor(255, 255, 255, 255),
    {
        ObjectColor(255, 255, 255, 255)
    }

    /// Opaque red.
    pub fn red() -> (c: Self)
        ensures
            c == ObjectColor(255, 0, 0, 255),
    {
        ObjectColor(255, 0, 0, 255)
    }

    /// Opaque green.
    pub fn green() -> (c: Self)
        ensures
            c == ObjectColor(0, 255, 0, 255),
    {
        ObjectColor(0, 255, 0, 255)
    }

    /// Opaque blue.
    pub fn blue() -> (c: Self)
        ensures
            c == ObjectColor(0, 0, 255, 255),
    {
        ObjectColor(0, 0, 255, 255)
    }
}

/// Packing a colour and reading it back gives the colour again, and reading
/// a number and packing the colour gives the number again.
pub proof fn lemma_color_round_trip(c: ObjectColor, hex: u32)
    ensures
        0 <= c.packed() <= u32::MAX,
        ObjectColor::unpacked(c.packed() as u32) == c,
        ObjectColor::unpacked(hex).packed() == hex,
{
    let r: u32 = c.0 as u32;
    let g: u32 = c.1 as u32;
    let b: u32 = c.2 as u32;
    let a: u32 = c.3 as u32;
    let h: u32 = (r * 0x100_0000 + g * 0x1_0000 + b * 0x100 + a) as u32;
    assert(h == c.packed());
    assert(h / 0x100_0000 == r && (h / 0x1_0000) % 0x100 == g && (h / 0x100) % 0x100 == b && h
        % 0x100 == a) by (bit_vector)
        requires
            r < 0x100 && g < 0x100 && b < 0x100 && a < 0x100,
            h == r * 0x100_0000 + g * 0x1_0000 + b * 0x100 + a,
    ;
    assert(hex / 0x100_0000 < 0x100 && hex == (hex / 0x100_0000) * 0x100_0000 + ((hex / 0x1_0000)
        % 0x100) * 0x1_0000 + ((hex / 0x100) % 0x100) * 0x100 + hex % 0x100) by (bit_vector);
}

impl Default for ObjectColor {
    fn default() -> (c: Self)
        ensures
            c == ObjectColor(0, 0, 0, 0),
    {
        ObjectColor(0, 0, 0, 0)
    }
}

} // verus!
