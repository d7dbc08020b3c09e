use vstd::prelude::*;

use crate::color::Color;
use crate::error::CodecError;
use crate::interface::Reader;

verus! {

/// A rectangular grid of 8-bit RGBA pixels: `height` rows of `width` pixels.
pub struct Image {
    pub width: usize,
    pub height: usize,
    pub pixels: Vec<Vec<Color>>,
}

/// `height` rows of exactly `width` entries each.
pub open spec fn grid_wf(width: int, height: int, mat: Seq<Seq<Color>>) -> bool {
    &&& mat.len() == height
    &&& forall|y: int| 0 <= y < mat.len() ==> (#[trigger] mat[y]).len() == width
}

impl Image {
    /// The pixel grid as a sequence of rows.
    pub open spec fn mat(self) -> Seq<Seq<Color>> {
        self.pixels@.map_values(|row: Vec<Color>| row@)
    }

    pub open spec fn spec_width(self) -> int {
        self.width as int
    }

    pub open spec fn spec_height(self) -> int {
        self.height as int
    }

    /// The declared dimensions match the grid.
    pub open spec fn wf(self) -> bool {
        grid_wf(self.width as int, self.height as int, self.mat())
    }

    /// A `width` by `height` image of transparent black pixels.
    pub fn new(width: usize, height: usize) -> (im: Self)
        ensures
            im.wf(),
            im.spec_width() == width,
            im.spec_height() == height,
            forall|y: int, x: int|
                0 <= y < height && 0 <= x < width ==> im.mat()[y][x] == (Color {
                    r: 0u8,
                    g: 0u8,
                    b: 0u8,
                    a: 0u8,
                }),
    {
        let mut pixels: Vec<Vec<Color>> = Vec::new();
        for y in 0..height
            invariant
                pixels@.len() == y,
                forall|i: int| 0 <= i < y ==> (#[trigger] pixels@[i])@.len() == width,
                forall|i: int, j: int|
                    0 <= i < y && 0 <= j < width ==> pixels@[i]@[j] == (Color {
                        r: 0u8,
                        g: 0u8,
                        b: 0u8,
                        a: 0u8,
                    }),
        {
            let mut row: Vec<Color> = Vec::new();
            for x in 0..width
                invariant
                    row@.len() == x,
                    forall|j: int|
                        0 <= j < x ==> row@[j] == (Color { r: 0u8, g: 0u8, b: 0u8, a: 0u8 }),
            {
                row.push(Color::new(0, 0, 0, 0));
            }
            pixels.push(row);
        }
        Image { width, height, pixels }
    }

    /// Wraps an existing grid whose rows already have the declared shape.
    pub fn from_mat(width: usize, height: usize, pixels: Vec<Vec<Color>>) -> (im: Self)
        requires
            grid_wf(width as int, height as int, pixels@.map_values(|row: Vec<Color>| row@)),
        ensures
            im.wf(),
            im.spec_width() == width,
            im.spec_height() == height,
            im.mat() == pixels@.map_values(|row: Vec<Color>| row@),
    {
        Image { width, height, pixels }
    }

    /// Decodes an image from raw file bytes with whichever reader is given.
    pub fn from_reader<T: Reader>(reader: &T, data: &Vec<u8>) -> (r: Result<Image, CodecError>) {
        reader.read(data)
    }

    pub fn width(&self) -> (w: usize)
        ensures
            w == self.spec_width(),
    {
        self.width
    }

    pub fn height(&self) -> (h: usize)
        ensures
            h == self.spec_height(),
    {
        self.height
    }
}

} // verus!
