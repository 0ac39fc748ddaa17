//! The pixel grid: a width by height matrix of colours, row by row from the
//! top, and its flat RGBA byte layout.

use vstd::prelude::*;
use crate::palette::Color;

verus! {

/// A width by height matrix of colours, stored row-major.
#[derive(Debug)]
pub struct PixelGrid {
    width: u32,
    height: u32,
    pixels: Vec<Color>,
}

impl View for PixelGrid {
    type V = Seq<Color>;

    /// The pixels, row by row.
    closed spec fn view(&self) -> Seq<Color> {
        self.pixels@
    }
}

/// The four bytes of each colour in turn: red, green, blue, alpha.
pub open spec fn rgba_bytes(pixels: Seq<Color>) -> Seq<u8> {
    Seq::new(
        4 * pixels.len(),
        |i: int|
            {
                let c = pixels[i / 4];
                if i % 4 == 0 {
                    c.red
                } else if i % 4 == 1 {
                    c.green
                } else if i % 4 == 2 {
                    c.blue
                } else {
                    c.alpha
                }
            },
    )
}

impl PixelGrid {
    #[verifier::type_invariant]
    spec fn well_formed(self) -> bool {
        self.pixels@.len() == self.width * self.height
    }

    /// The number of columns.
    pub closed spec fn columns(self) -> nat {
        self.width as nat
    }

    /// The number of rows.
    pub closed spec fn rows(self) -> nat {
        self.height as nat
    }

    /// The pixel in column `x` of row `y`.
    pub open spec fn at(self, x: int, y: int) -> Color {
        self@[y * self.columns() + x]
    }

    /// Makes a grid of pixels that are already in row-major order, if there
    /// are exactly `width * height` of them.
    pub fn from_pixels(width: u32, height: u32, pixels: Vec<Color>) -> (grid: Option<PixelGrid>)
        ensures
            pixels@.len() == width * height <==> grid.is_some(),
            grid matches Some(g) ==> g@ == pixels@ && g.columns() == width && g.rows() == height,
    {
        assert(width * height <= 0xffff_ffff * 0xffff_ffff) by (nonlinear_arith)
            requires
                width <= 0xffff_ffff,
                height <= 0xffff_ffff,
        ;
        let wanted: u64 = (width as u64) * (height as u64);
        if pixels.len() as u64 == wanted {
            Some(PixelGrid { width, height, pixels })
        } else {
            None
        }
    }

    /// Makes a grid of `width * height` pixels in row-major order.
    pub(crate) fn assemble(width: u32, height: u32, pixels: Vec<Color>) -> (grid: PixelGrid)
        requires
            pixels@.len() == width * height,
        ensures
            grid@ == pixels@,
            grid.columns() == width,
            grid.rows() == height,
    {
        PixelGrid { width, height, pixels }
    }

    pub fn width(&self) -> (w: u32)
        ensures
            w == self.columns(),
            self@.len() == self.columns() * self.rows(),
    {
        proof {
            use_type_invariant(self);
        }
        self.width
    }

    pub fn height(&self) -> (h: u32)
        ensures
            h == self.rows(),
            self@.len() == self.columns() * self.rows(),
    {
        proof {
            use_type_invariant(self);
        }
        self.height
    }

    /// The pixel in column `x` of row `y`, if the grid has one there.
    pub fn pixel(&self, x: u32, y: u32) -> (c: Option<Color>)
        ensures
            x < self.columns() && y < self.rows() ==> c == Some(self.at(x as int, y as int)),
            !(x < self.columns() && y < self.rows()) ==> c.is_none(),
    {
        proof {
            use_type_invariant(self);
        }
        if x < self.width && y < self.height {
            let ghost w = self.width as int;
            let ghost h = self.height as int;
            assert(0 <= y * w && y * w + x < w * h) by (nonlinear_arith)
                requires
                    0 <= x < w,
                    0 <= y < h,
            ;
            let n: usize = self.pixels.len();
            assert(y * w + x < n);
            let i: usize = (y as usize) * (self.width as usize) + (x as usize);
            Some(self.pixels[i])
        } else {
            None
        }
    }

    /// The grid as flat RGBA bytes: four bytes a pixel, row by row from the
    /// top.
    pub fn to_rgba_bytes(&self) -> (bytes: Vec<u8>)
        ensures
            bytes@ == rgba_bytes(self@),
    {
        let mut bytes: Vec<u8> = Vec::new();
        let mut i: usize = 0;
        while i < self.pixels.len()
            invariant
                i <= self.pixels@.len(),
                bytes@ == rgba_bytes(self.pixels@.take(i as int)),
            decreases self.pixels@.len() - i,
        {
            let c: Color = self.pixels[i];
            let ghost before = bytes@;
            bytes.push(c.red);
            bytes.push(c.green);
            bytes.push(c.blue);
            bytes.push(c.alpha);
            proof {
                let shorter = self.pixels@.take(i as int);
                let longer = self.pixels@.take(i + 1);
                assert(bytes@.len() == rgba_bytes(longer).len());
                assert forall|j: int| 0 <= j < bytes@.len() implies bytes@[j] == rgba_bytes(
                    longer,
                )[j] by {
                    if j < 4 * i {
                        assert(before[j] == rgba_bytes(shorter)[j]);
                        assert(shorter[j / 4] == longer[j / 4]);
                    } else {
                        assert(j / 4 == i);
                        assert(longer[j / 4] == c);
                    }
                }
                assert(bytes@ =~= rgba_bytes(longer));
            }
            i = i + 1;
        }
        proof {
            assert(self.pixels@.take(i as int) =~= self.pixels@);
        }
        bytes
    }
}

} // verus!
