use vstd::prelude::*;

verus! {

/// One 8-bit RGBA pixel.
#[derive(Clone, Copy, Debug, PartialEq, Eq, Structural)]
pub struct Color {
    pub r: u8,
    pub g: u8,
    pub b: u8,
    pub a: u8,
}

impl Color {
    pub fn new(r: u8, g: u8, b: u8, a: u8) -> (c: Self)
        ensures
            c == (Color { r, g, b, a }),
    {
        Color { r, g, b, a }
    }

    /// A fully opaque color built from the three color channels.
    pub fn from_rgb(r: u8, g: u8, b: u8) -> (c: Self)
        ensures
            c == (Color { r, g, b, a: 255u8 }),
    {
        Color { r, g, b, a: 255 }
    }

    pub fn from_array(arr: [u8; 4]) -> (c: Self)
        ensures
            c == (Color { r: arr[0], g: arr[1], b: arr[2], a: arr[3] }),
    {
        Color { r: arr[0], g: arr[1], b: arr[2], a: arr[3] }
    }

    /// What `from_slice` returns: missing color channels default to 0,
    /// a missing alpha channel defaults to 255 (opaque).
    pub open spec fn from_slice_spec(s: Seq<u8>) -> Color {
        Color {
            r: if s.len() > 0 { s[0] } else { 0 },
            g: if s.len() > 1 { s[1] } else { 0 },
            b: if s.len() > 2 { s[2] } else { 0 },
            a: if s.len() > 3 { s[3] } else { 255 },
        }
    }

    /// Builds a color from up to four channel bytes, tolerating short slices.
    pub fn from_slice(slice: &[u8]) -> (c: Self)
        ensures
            c == Self::from_slice_spec(slice@),
    {
        let mut color = Color::black();

        if slice.len() > 0 {
            color.r = slice[0];
        }
        if slice.len() > 1 {
            color.g = slice[1];
        }
        if slice.len() > 2 {
            color.b = slice[2];
        }
        if slice.len() > 3 {
            color.a = slice[3];
        }

        color
    }

    pub fn black() -> (c: Self)
        ensures
            c == (Color { r: 0u8, g: 0u8, b: 0u8, a: 255u8 }),
    {
        Color { r: 0, g: 0, b: 0, a: 255 }
    }
}

} // verus!
