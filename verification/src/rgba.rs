//! Export of a frame buffer as a four-channel image of the `image` crate.
//!
//! Here a packed value is read as four channels, red in the highest byte and
//! alpha in the lowest. This reading is independent of the three-channel one
//! that the bitmap encoder uses.

use vstd::prelude::*;
use crate::framebuffer::Framebuffer;

verus! {

/// A four-channel, 8-bit image of the `image` crate. Its contents are known
/// to the verifier only through [`picture_samples`] and
/// [`picture_dimensions`].
#[verifier::external_body]
pub struct RgbaPicture {
    pub image: image::RgbaImage,
}

/// The samples of a picture in storage order: row by row from the top, four
/// per pixel.
pub uninterp spec fn picture_samples(p: RgbaPicture) -> Seq<u8>;

/// The width and the height of a picture, in pixels.
pub uninterp spec fn picture_dimensions(p: RgbaPicture) -> (int, int);

/// `image::ImageBuffer::from_raw`: wraps a sample vector as an image of the
/// given extent. The crate accepts the vector exactly when four samples per
/// pixel of every row and column fit into it, computed without overflow, and
/// then keeps the vector and the extent unchanged.
#[verifier::external_body]
fn picture_from_raw(width: u32, height: u32, samples: Vec<u8>) -> (pic: Option<RgbaPicture>)
    ensures
        (pic is Some) == (4 * width <= usize::MAX && 4 * width * height <= samples@.len()),
        pic is Some ==> picture_samples(pic->0) == samples@,
        pic is Some ==> picture_dimensions(pic->0) == (width as int, height as int),
{
    match image::RgbaImage::from_raw(width, height, samples) {
        Some(image) => Some(RgbaPicture { image }),
        None => None,
    }
}

/// The four samples of one pixel: red, green, blue, alpha, from the highest
/// byte of the packed value to the lowest.
pub open spec fn rgba(pixel: u32) -> Seq<u8> {
    seq![
        (pixel / 16777216) as u8,
        (pixel / 65536 % 256) as u8,
        (pixel / 256 % 256) as u8,
        (pixel % 256) as u8,
    ]
}

/// The samples of the first `n` cells.
pub open spec fn rgba_samples(pixels: Seq<u32>, n: int) -> Seq<u8>
    decreases n,
{
    if n <= 0 {
        Seq::empty()
    } else {
        rgba_samples(pixels, n - 1) + rgba(pixels[n - 1])
    }
}

/// Where each sample of a cell stands: the first `n` cells take four
/// samples each, and channel `c` of cell `i` is at `4 * i + c`.
pub proof fn lemma_rgba_samples_layout(pixels: Seq<u32>, n: int, i: int, c: int)
    requires
        0 <= i < n,
        0 <= c < 4,
    ensures
        rgba_samples(pixels, n).len() == 4 * n,
        rgba_samples(pixels, n)[4 * i + c] == rgba(pixels[i])[c],
    decreases n,
{
    lemma_rgba_samples_len(pixels, n - 1);
    if i < n - 1 {
        lemma_rgba_samples_layout(pixels, n - 1, i, c);
    }
}

/// The first `n` cells take four samples each.
pub proof fn lemma_rgba_samples_len(pixels: Seq<u32>, n: int)
    requires
        0 <= n,
    ensures
        rgba_samples(pixels, n).len() == 4 * n,
    decreases n,
{
    if n > 0 {
        lemma_rgba_samples_len(pixels, n - 1);
    }
}

/// The extent fits the image type and its samples fit a vector.
pub open spec fn exportable(width: int, height: int) -> bool {
    &&& width <= u32::MAX
    &&& height <= u32::MAX
    &&& 4 * width <= usize::MAX
    &&& 4 * width * height <= usize::MAX
}

impl Framebuffer {
    /// The buffer as a four-channel image of the same extent, each cell read
    /// as red, green, blue, alpha. There is an image exactly when the extent
    /// is `exportable`.
    pub fn to_rgba_image(&self) -> (picture: Option<RgbaPicture>)
        ensures
            (picture is Some) == exportable(self@.width as int, self@.height as int),
            picture is Some ==> picture_samples(picture->0) == rgba_samples(
                self@.pixels,
                self@.pixels.len() as int,
            ),
            picture is Some ==> picture_dimensions(picture->0) == (
                self@.width as int,
                self@.height as int,
            ),
    {
        let width = self.width();
        let height = self.height();
        let cells = self.buffer();
        proof {
            self.lemma_view_wf();
        }
        if width > 0xFFFF_FFFF || height > 0xFFFF_FFFF {
            return None;
        }
        let row: u128 = 4 * (width as u128);
        assert(row * (height as u128) <= 4 * 0xFFFF_FFFF * 0xFFFF_FFFF) by (nonlinear_arith)
            requires
                row <= 4 * 0xFFFF_FFFF,
                height <= 0xFFFF_FFFF,
        ;
        let total: u128 = row * (height as u128);
        if row > usize::MAX as u128 || total > usize::MAX as u128 {
            return None;
        }
        let n = cells.len();
        let mut samples: Vec<u8> = Vec::new();
        let mut i: usize = 0;
        while i < n
            invariant
                i <= n,
                n == cells@.len(),
                samples@ == rgba_samples(cells@, i as int),
                samples@.len() == 4 * i,
            decreases n - i,
        {
            let pixel = cells[i];
            assert((pixel >> 24) & 0xFF == pixel / 16777216 && (pixel >> 16) & 0xFF == pixel / 65536
                % 256 && (pixel >> 8) & 0xFF == pixel / 256 % 256 && pixel & 0xFF == pixel % 256)
                by (bit_vector);
            samples.push(((pixel >> 24) & 0xFF) as u8);
            samples.push(((pixel >> 16) & 0xFF) as u8);
            samples.push(((pixel >> 8) & 0xFF) as u8);
            samples.push((pixel & 0xFF) as u8);
            i += 1;
            assert(samples@ =~= rgba_samples(cells@, i as int));
        }
        assert(4 * width * height == 4 * (width * height)) by (nonlinear_arith);
        picture_from_raw(width as u32, height as u32, samples)
    }
}

} // verus!
