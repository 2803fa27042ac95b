//! Images in memory: three bytes (red, green, blue) per pixel, row by row.

use vstd::prelude::*;

verus! {

/// What an image is: its dimensions, and at least three bytes for each of its pixels.
#[verifier::ext_equal]
pub struct Raster {
    pub width: nat,
    pub height: nat,
    pub bytes: Seq<u8>,
}

impl Raster {
    /// Where the pixel in column `x` of row `y` begins in the bytes.
    pub open spec fn position(self, x: int, y: int) -> int {
        3 * (y * self.width + x)
    }

    /// The pixel in column `x` of row `y`.
    pub open spec fn pixel(self, x: int, y: int) -> [u8; 3] {
        let p = self.position(x, y);
        [self.bytes[p], self.bytes[p + 1], self.bytes[p + 2]]
    }
}

/// An image of 24-bit pixels.
#[derive(Debug)]
pub struct RgbImage {
    width: u32,
    height: u32,
    raw: Vec<u8>,
}

impl View for RgbImage {
    type V = Raster;

    closed spec fn view(&self) -> Raster {
        Raster { width: self.width as nat, height: self.height as nat, bytes: self.raw@ }
    }
}

/// `image::RgbImage::from_raw`, handing back the dimensions and the bytes of the image made.
///
/// It makes an image exactly where the bytes suffice for the dimensions, and the image has
/// those dimensions and those bytes.
#[verifier::external_body]
fn image_from_raw(width: u32, height: u32, raw: Vec<u8>) -> (r: Option<(u32, u32, Vec<u8>)>)
    requires
        3 * width <= usize::MAX,
    ensures
        match r {
            Some((w, h, bytes)) => 3 * width * height <= raw@.len() && w == width && h == height
                && bytes@ == raw@,
            None => 3 * width * height > raw@.len(),
        },
{
    image::RgbImage::from_raw(width, height, raw).map(
        |img| (img.width(), img.height(), img.into_raw()),
    )
}

/// `image::ImageBuffer::get_pixel` on an image of 24-bit pixels over borrowed bytes.
///
/// The pixel is the three bytes at its place, the rows following one another from the top and
/// the pixels of a row from the left.
#[verifier::external_body]
fn image_pixel(width: u32, height: u32, raw: &[u8], x: u32, y: u32) -> (r: [u8; 3])
    requires
        3 * width <= usize::MAX,
        3 * width * height <= raw@.len(),
        x < width,
        y < height,
    ensures
        r@ == seq![
            raw@[3 * (y * width + x)],
            raw@[3 * (y * width + x) + 1],
            raw@[3 * (y * width + x) + 2],
        ],
{
    let view = image::ImageBuffer::<image::Rgb<u8>, &[u8]>::from_raw(width, height, raw);
    view.unwrap().get_pixel(x, y).0
}

impl RgbImage {
    #[verifier::type_invariant]
    spec fn large_enough(self) -> bool {
        &&& 3 * self.width <= usize::MAX
        &&& 3 * self.width * self.height <= self.raw@.len()
    }

    /// An image over the given bytes, or `None` where they do not suffice.
    pub fn from_raw(width: u32, height: u32, raw: Vec<u8>) -> (r: Option<RgbImage>)
        requires
            3 * width <= usize::MAX,
        ensures
            match r {
                Some(img) => 3 * width * height <= raw@.len() && img@ == (Raster {
                    width: width as nat,
                    height: height as nat,
                    bytes: raw@,
                }),
                None => 3 * width * height > raw@.len(),
            },
    {
        match image_from_raw(width, height, raw) {
            Some((width, height, raw)) => Some(RgbImage { width, height, raw }),
            None => None,
        }
    }

    /// The number of columns.
    pub fn width(&self) -> (r: u32)
        ensures
            r == self@.width,
    {
        self.width
    }

    /// The number of rows.
    pub fn height(&self) -> (r: u32)
        ensures
            r == self@.height,
    {
        self.height
    }

    /// The pixel in column `x` of row `y`.
    pub fn get_pixel(&self, x: u32, y: u32) -> (r: [u8; 3])
        requires
            x < self@.width,
            y < self@.height,
        ensures
            r == self@.pixel(x as int, y as int),
    {
        proof {
            use_type_invariant(self);
        }
        let r = image_pixel(self.width, self.height, self.raw.as_slice(), x, y);
        assert(r@ =~= self@.pixel(x as int, y as int)@);
        r
    }

    /// The bytes of the image.
    pub fn into_raw(self) -> (r: Vec<u8>)
        ensures
            r@ == self@.bytes,
    {
        self.raw
    }
}

/// A pixel is three bytes that follow one another, behind those of the pixels to its left and of
/// the rows above it.
pub proof fn pixels_are_three_bytes(image: Raster, x: int, y: int)
    requires
        0 <= x < image.width,
        0 <= y < image.height,
        3 * image.width * image.height <= image.bytes.len(),
    ensures
        image.pixel(x, y)@ == image.bytes.subrange(
            3 * image.width * y + 3 * x,
            3 * image.width * y + 3 * x + 3,
        ),
{
    let (w, h) = (image.width as int, image.height as int);
    assert(3 * (y * w + x) == 3 * w * y + 3 * x) by (nonlinear_arith);
    assert(0 <= y * w && y * w + x + 1 <= w * h) by (nonlinear_arith)
        requires
            0 <= x < w,
            0 <= y < h,
    ;
    assert(3 * w * h == 3 * (w * h)) by (nonlinear_arith);
    assert(image.pixel(x, y)@ =~= image.bytes.subrange(
        3 * image.width * y + 3 * x,
        3 * image.width * y + 3 * x + 3,
    ));
}

} // verus!
