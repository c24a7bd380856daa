use vstd::prelude::*;

verus! {

/// A single color: four 8-bit channels, red, green, blue, alpha.
#[derive(Clone, Copy, PartialEq, Eq, Structural, Debug)]
pub struct Pixel {
    pub r: u8,
    pub g: u8,
    pub b: u8,
    pub a: u8,
}

impl Pixel {
    /// The four channels packed into one integer, red highest, so that
    /// comparing keys orders colors deterministically.
    pub open spec fn key_spec(self) -> int {
        (self.r as int) * 0x1000000 + (self.g as int) * 0x10000 + (self.b as int) * 0x100
            + (self.a as int)
    }

    pub fn key(self) -> (k: u32)
        ensures
            k == self.key_spec(),
    {
        (self.r as u32) * 0x1000000 + (self.g as u32) * 0x10000 + (self.b as u32) * 0x100
            + (self.a as u32)
    }

    /// The channel selected by axis number 0..4 (red, green, blue, alpha).
    pub open spec fn channel_spec(self, axis: int) -> u8 {
        if axis == 0 {
            self.r
        } else if axis == 1 {
            self.g
        } else if axis == 2 {
            self.b
        } else {
            self.a
        }
    }

    pub fn channel(self, axis: u8) -> (c: u8)
        ensures
            c == self.channel_spec(axis as int),
    {
        if axis == 0 {
            self.r
        } else if axis == 1 {
            self.g
        } else if axis == 2 {
            self.b
        } else {
            self.a
        }
    }
}

/// The pixel stored at position `i` of a flat RGBA byte buffer.
pub open spec fn pixel_at(data: Seq<u8>, i: int) -> Pixel {
    Pixel { r: data[4 * i], g: data[4 * i + 1], b: data[4 * i + 2], a: data[4 * i + 3] }
}

/// Reads the pixel at position `i` of a flat RGBA byte buffer.
pub fn read_pixel(data: &Vec<u8>, i: usize) -> (p: Pixel)
    requires
        4 * i + 4 <= data.len(),
    ensures
        p == pixel_at(data@, i as int),
{
    Pixel { r: data[4 * i], g: data[4 * i + 1], b: data[4 * i + 2], a: data[4 * i + 3] }
}

} // verus!
