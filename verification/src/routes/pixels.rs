//! The image that a QR code is drawn into: an RGBA buffer of the `image`
//! crate.

use image::{ImageBuffer, Rgba};
use vstd::prelude::*;

verus! {

/// An RGBA image, eight bits to a channel.
///
/// It is a buffer of the `image` crate; all that is known of it here is what
/// the functions below say of its size and its pixels.
#[verifier::external_body]
pub struct Canvas {
    image: ImageBuffer<Rgba<u8>, Vec<u8>>,
}

/// The pixels of an image: for each place in it, by column and row, the
/// red, green, blue and opacity there.
pub uninterp spec fn canvas_pixels(canvas: Canvas) -> Map<(int, int), [u8; 4]>;

/// The width and the height that an image was made with.
pub uninterp spec fn canvas_size(canvas: Canvas) -> (int, int);

/// The places of an image that is `width` pixels wide and `height` high.
pub open spec fn places(width: int, height: int) -> Set<(int, int)> {
    Set::new(|place: (int, int)| 0 <= place.0 < width && 0 <= place.1 < height)
}

/// An image of one colour.
pub open spec fn plain(width: int, height: int, color: [u8; 4]) -> Map<(int, int), [u8; 4]> {
    Map::new(|place: (int, int)| places(width, height).contains(place), |place: (int, int)| color)
}

/// Where channel `channel` of the pixel at `(x, y)` stands in the bytes of
/// an image of width `width`: row after row, pixel after pixel, four bytes
/// to a pixel.
pub open spec fn channel_index(width: int, x: int, y: int, channel: int) -> int {
    4 * (y * width + x) + channel
}

/// `bytes` are the bytes of an image of the given width and height with the
/// given pixels.
pub open spec fn bytes_hold(
    bytes: Seq<u8>,
    width: int,
    height: int,
    pixels: Map<(int, int), [u8; 4]>,
) -> bool {
    &&& bytes.len() == 4 * width * height
    &&& forall|x: int, y: int, channel: int|
        0 <= x < width && 0 <= y < height && 0 <= channel < 4 ==> #[trigger] bytes[channel_index(
            width,
            x,
            y,
            channel,
        )] == pixels[(x, y)][channel]
}

impl Canvas {
    /// Calls `ImageBuffer::new`. Believed, not proved: the image has the
    /// width and height asked for, and every channel of every pixel is
    /// zero. The call panics where the length of the buffer, or that of one
    /// row of it, does not fit in a `usize`.
    #[verifier::external_body]
    pub(crate) fn new(width: u32, height: u32) -> (canvas: Canvas)
        requires
            4 * width <= usize::MAX,
            4 * width * height <= usize::MAX,
        ensures
            canvas_size(canvas) == (width as int, height as int),
            canvas_pixels(canvas) == plain(width as int, height as int, [0u8, 0u8, 0u8, 0u8]),
    {
        Canvas { image: ImageBuffer::new(width, height) }
    }

    /// Calls `ImageBuffer::put_pixel`. Believed, not proved: the pixel at
    /// `(x, y)` becomes `color` and nothing else changes. The call panics
    /// for a place outside the image.
    #[verifier::external_body]
    pub(crate) fn put_pixel(&mut self, x: u32, y: u32, color: [u8; 4])
        requires
            canvas_pixels(*old(self)).dom().contains((x as int, y as int)),
        ensures
            canvas_size(*final(self)) == canvas_size(*old(self)),
            canvas_pixels(*final(self)) == canvas_pixels(*old(self)).insert(
                (x as int, y as int),
                color,
            ),
    {
        self.image.put_pixel(x, y, Rgba(color))
    }

    /// Calls `ImageBuffer::into_raw`. Believed, not proved: the bytes are
    /// the channels of the pixels, four to a pixel, row after row from the
    /// top and each row from the left.
    #[verifier::external_body]
    pub(crate) fn into_raw(self) -> (bytes: Vec<u8>)
        ensures
            bytes_hold(bytes@, canvas_size(self).0, canvas_size(self).1, canvas_pixels(self)),
    {
        self.image.into_raw()
    }
}

} // verus!
