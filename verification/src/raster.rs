//! The trusted boundary to the raster image collaborator: the maze is
//! decoded from and rendered back into a raster of RGB pixels that an
//! `image::RgbImage` buffer holds.

use vstd::prelude::*;

verus! {

use crate::color::Color;

/// A raster of RGB pixels.  The buffer itself is opaque to the verifier;
/// the two spec functions below name its dimensions and its contents, and
/// the methods state over those names what the buffer's own operations do.
#[verifier::external_body]
pub struct Raster {
    img: image::RgbImage,
}

/// What a raster holds: the color at each in-bounds pixel coordinate.
pub uninterp spec fn raster_pixels(r: Raster) -> Map<(int, int), (u8, u8, u8)>;

/// The width and height a raster was made with.
pub uninterp spec fn raster_dims(r: Raster) -> (int, int);

impl Raster {
    /// Relies on `ImageBuffer::new`: a width-by-height buffer whose pixels
    /// are zero-filled, that is black.  `new` aborts when the byte length
    /// overflows usize, which the precondition rules out.
    #[verifier::external_body]
    pub fn new(width: u32, height: u32) -> (r: Raster)
        requires
            width as int * height as int * 3 <= usize::MAX as int,
        ensures
            raster_dims(r) == (width as int, height as int),
            forall|x: int, y: int|
                0 <= x < width && 0 <= y < height ==> raster_pixels(r)[(x, y)] == (0u8, 0u8, 0u8),
    {
        Raster { img: image::RgbImage::new(width, height) }
    }

    /// Relies on `ImageBuffer::width`.
    #[verifier::external_body]
    pub fn width(&self) -> (r: u32)
        ensures
            r as int == raster_dims(*self).0,
    {
        self.img.width()
    }

    /// Relies on `ImageBuffer::height`.
    #[verifier::external_body]
    pub fn height(&self) -> (r: u32)
        ensures
            r as int == raster_dims(*self).1,
    {
        self.img.height()
    }

    /// Relies on `ImageBuffer::get_pixel`: the color at `(x, y)`.  It
    /// panics out of bounds, which the precondition rules out.
    #[verifier::external_body]
    pub fn get_pixel(&self, x: u32, y: u32) -> (r: Color)
        requires
            (x as int) < raster_dims(*self).0,
            (y as int) < raster_dims(*self).1,
        ensures
            raster_pixels(*self)[(x as int, y as int)] == (r.r, r.g, r.b),
    {
        let p = self.img.get_pixel(x, y);
        Color { r: p.0[0], g: p.0[1], b: p.0[2] }
    }

    /// Relies on `ImageBuffer::put_pixel`: overwrites the color at
    /// `(x, y)` and leaves every other pixel alone.  It panics out of
    /// bounds, which the precondition rules out.
    #[verifier::external_body]
    pub fn put_pixel(&mut self, x: u32, y: u32, c: Color)
        requires
            (x as int) < raster_dims(*old(self)).0,
            (y as int) < raster_dims(*old(self)).1,
        ensures
            raster_dims(*final(self)) == raster_dims(*old(self)),
            raster_pixels(*final(self)) == raster_pixels(*old(self)).insert(
                (x as int, y as int),
                (c.r, c.g, c.b),
            ),
    {
        self.img.put_pixel(x, y, image::Rgb([c.r, c.g, c.b]));
    }
}

} // verus!
