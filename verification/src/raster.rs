//! The grid as an image buffer of the `image` crate, ready to be encoded.

use vstd::prelude::*;
use crate::grid::{rgba_bytes, PixelGrid};

verus! {

/// An RGBA image buffer of the `image` crate, eight bits a channel. The
/// verifier does not look inside it: all that it knows of a picture is
/// what `picture_samples` and `picture_size` name.
#[verifier::external_body]
pub struct Picture {
    pub inner: image::RgbaImage,
}

/// The raw samples that the buffer holds, in its own order.
pub uninterp spec fn picture_samples(picture: Picture) -> Seq<u8>;

/// The width and the height that the buffer was made with.
pub uninterp spec fn picture_size(picture: Picture) -> (nat, nat);

/// `ImageBuffer::from_raw` on RGBA bytes, taken on trust from the source
/// of the `image` crate. It multiplies four by the width and then by the
/// height, each time checking that the product fits `usize`, and wants at
/// least that many bytes. Where both hold the buffer keeps the bytes as
/// they are, with the given width and height; else there is no buffer.
#[verifier::external_body]
fn picture_from_raw(width: u32, height: u32, bytes: Vec<u8>) -> (r: Option<Picture>)
    ensures
        r.is_some() <==> (4 * width <= usize::MAX && 4 * width * height <= bytes@.len()),
        r matches Some(picture) ==> picture_samples(picture) == bytes@ && picture_size(picture)
            == (width as nat, height as nat),
{
    match image::RgbaImage::from_raw(width, height, bytes) {
        Some(inner) => Some(Picture { inner }),
        None => None,
    }
}

/// The grid as an image buffer of the same width and height, whose samples
/// are the grid's bytes: four a pixel, row by row from the top. There is a
/// buffer whenever four times the width fits `usize`, which every grid
/// with at least one row meets.
pub fn to_picture(grid: &PixelGrid) -> (r: Option<Picture>)
    ensures
        r.is_some() <==> 4 * grid.columns() <= usize::MAX,
        grid.rows() > 0 ==> r.is_some(),
        r matches Some(picture) ==> picture_samples(picture) == rgba_bytes(grid@)
            && picture_size(picture) == (grid.columns(), grid.rows()),
{
    let w: u32 = grid.width();
    let h: u32 = grid.height();
    let bytes: Vec<u8> = grid.to_rgba_bytes();
    let n: usize = bytes.len();
    assert(4 * w * h == n && (h > 0 ==> 4 * w <= n)) by (nonlinear_arith)
        requires
            n == 4 * (w * h),
            w >= 0,
            h >= 0,
    ;
    picture_from_raw(w, h, bytes)
}

} // verus!
