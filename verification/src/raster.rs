//! The grayscale raster that a heatmap tile is drawn into, kept as an image of the
//! `image` crate.

use vstd::prelude::*;

verus! {

/// A grayscale raster of one byte per pixel: 0 is the darkest and 255 the brightest.
#[verifier::external_body]
pub struct HeatmapTile {
    image: image::GrayImage,
}

/// The bytes of a grayscale image, row by row from the top, left to right within a
/// row.
pub uninterp spec fn gray_pixels(tile: HeatmapTile) -> Seq<u8>;

/// The width in pixels that a grayscale image was made with.
pub uninterp spec fn gray_width(tile: HeatmapTile) -> nat;

impl HeatmapTile {
    /// `image::ImageBuffer::new`: an image of the given width and height whose
    /// pixels are all zero.
    #[verifier::external_body]
    pub(crate) fn blank(width: u32, height: u32) -> (tile: HeatmapTile)
        requires
            width * height <= usize::MAX,
        ensures
            gray_width(tile) == width,
            gray_pixels(tile) == Seq::new((width * height) as nat, |i: int| 0u8),
    {
        HeatmapTile { image: image::GrayImage::new(width, height) }
    }

    /// `image::ImageBuffer::put_pixel`: overwrites the one pixel at column `x` of
    /// row `y`, which must lie within the image.
    #[verifier::external_body]
    pub(crate) fn put(&mut self, x: u32, y: u32, value: u8)
        requires
            x < gray_width(*old(self)),
            (y + 1) * gray_width(*old(self)) <= gray_pixels(*old(self)).len(),
        ensures
            gray_width(*final(self)) == gray_width(*old(self)),
            gray_pixels(*final(self)) == gray_pixels(*old(self)).update(
                y * gray_width(*old(self)) + x,
                value,
            ),
    {
        self.image.put_pixel(x, y, image::Luma([value]))
    }

    /// `image::ImageBuffer::as_raw`: the bytes of the image, copied.
    #[verifier::external_body]
    fn raw(&self) -> (bytes: Vec<u8>)
        ensures
            bytes@ == gray_pixels(*self),
    {
        self.image.as_raw().clone()
    }

    /// `image::ImageBuffer::width`: the width of the image in pixels.
    #[verifier::external_body]
    fn columns(&self) -> (width: u32)
        ensures
            width == gray_width(*self),
    {
        self.image.width()
    }

    /// The bytes of the image, row by row from the top.
    pub fn to_bytes(&self) -> (bytes: Vec<u8>)
        ensures
            bytes@ == gray_pixels(*self),
    {
        self.raw()
    }

    /// The width of the image in pixels.
    pub fn width(&self) -> (width: u32)
        ensures
            width == gray_width(*self),
    {
        self.columns()
    }
}

} // verus!
