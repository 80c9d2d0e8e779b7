//! Images: decoding, scaling and encoding, done by the `image` crate.

use vstd::prelude::*;
use crate::error::Error;

verus! {

/// A decoded image: its size in pixels and its pixels, four bytes each (red,
/// green, blue, alpha), row by row.
pub struct Bitmap {
    pub width: u32,
    pub height: u32,
    pub pixels: Vec<u8>,
}

impl Bitmap {
    /// The pixel bytes suffice for the size.
    pub open spec fn complete(&self) -> bool {
        self.width as int * self.height as int * 4 <= self.pixels@.len()
    }

    /// Whether the pixel bytes suffice for the size.
    pub fn is_complete(&self) -> (r: bool)
        ensures
            r == self.complete(),
    {
        assert(self.width as int * self.height as int <= 0xFFFF_FFFF * 0xFFFF_FFFF)
            by (nonlinear_arith)
            requires
                0 <= self.width <= 0xFFFF_FFFF,
                0 <= self.height <= 0xFFFF_FFFF,
        ;
        let area: u128 = (self.width as u128) * (self.height as u128);
        area * 4 <= self.pixels.len() as u128
    }
}

/// `image::ImageError`, the error of the calls into the `image` crate. It is
/// carried to where an error of this library takes its place; nothing is
/// known of what it holds.
#[verifier::external_type_specification]
#[verifier::external_body]
pub struct ExImageError(image::ImageError);

/// The size, width and height, of the image that the decoders of the `image`
/// crate read from the bytes. `None` where the bytes are of no format that
/// the crate tells by their start, or do not decode.
pub uninterp spec fn decoded_size_of(bytes: Seq<u8>) -> Option<(u32, u32)>;

/// Calls `image::guess_format` on the bytes and `image::load_from_memory_with_format`
/// with the format found, which together are what `image::load_from_memory`
/// does where no hook has been registered with the crate, and hands out the
/// image as 8-bit RGBA pixels (`DynamicImage::to_rgba8`). Claimed of it:
/// whether the bytes decode, and to which size, depends on the bytes alone,
/// and the buffer of a decoded image holds at least four bytes for each pixel
/// of its size. Nothing is claimed of which bytes decode, nor of the pixels:
/// a decoder may work on several threads, and the pixels of the same bytes
/// may differ from one call to the next.
#[verifier::external_body]
fn load_rgba(bytes: &[u8]) -> (r: Result<Bitmap, image::ImageError>)
    ensures
        match r {
            Ok(bitmap) => decoded_size_of(bytes@) == Some((bitmap.width, bitmap.height)),
            Err(_) => decoded_size_of(bytes@) is None,
        },
        r matches Ok(bitmap) ==> bitmap.complete(),
{
    let format = image::guess_format(bytes)?;
    let rgba = image::load_from_memory_with_format(bytes, format)?.to_rgba8();
    Ok(Bitmap { width: rgba.width(), height: rgba.height(), pixels: rgba.into_raw() })
}

/// Calls `image::imageops::resize` with the Lanczos filter of window 3.
/// Claimed of it: the result has the size asked for, with four bytes for each
/// pixel. Left out are the sizes for which a buffer that it makes, the result
/// or the image of `source.width` by `height` pixels of four 32-bit parts that
/// it makes on the way, would not fit in memory. Nothing is claimed of the
/// pixels.
#[verifier::external_body]
pub(crate) fn resample(source: &Bitmap, width: u32, height: u32) -> (r: Bitmap)
    requires
        source.complete(),
        width as int * height as int * 4 <= isize::MAX,
        source.width as int * height as int * 16 <= isize::MAX,
    ensures
        r.width == width,
        r.height == height,
        r.complete(),
{
    let image = image::RgbaImage::from_raw(source.width, source.height, source.pixels.clone())
        .unwrap();
    let resized = image::imageops::resize(
        &image,
        width,
        height,
        image::imageops::FilterType::Lanczos3,
    );
    Bitmap { width: resized.width(), height: resized.height(), pixels: resized.into_raw() }
}

/// What `image::codecs::jpeg::JpegEncoder::encode_image`, on an encoder made
/// with `new_with_quality` for `quality`, writes for the image of `width` by
/// `height` pixels whose buffer of four bytes to the pixel is `pixels`;
/// `None` where it reports an error.
pub uninterp spec fn jpeg_of(width: u32, height: u32, pixels: Seq<u8>, quality: u8) -> Option<
    Seq<u8>,
>;

/// Calls `image::codecs::jpeg::JpegEncoder::encode_image` on an encoder made
/// with `new_with_quality`. Claimed of it: what it writes, or that it reports
/// an error, depends on the size, the pixel buffer and the quality alone, and
/// an image is encoded only where both sides of it are between 1 and 65535
/// pixels. Nothing else is claimed of the bytes.
#[verifier::external_body]
fn write_jpeg(source: &Bitmap, quality: u8) -> (r: Result<Vec<u8>, image::ImageError>)
    requires
        source.complete(),
    ensures
        match r {
            Ok(bytes) => jpeg_of(source.width, source.height, source.pixels@, quality) == Some(
                bytes@,
            ),
            Err(_) => jpeg_of(source.width, source.height, source.pixels@, quality) is None,
        },
        r is Ok ==> 1 <= source.width <= 65535 && 1 <= source.height <= 65535,
{
    let image = image::RgbaImage::from_raw(source.width, source.height, source.pixels.clone())
        .unwrap();
    let mut bytes = Vec::new();
    image::codecs::jpeg::JpegEncoder::new_with_quality(&mut bytes, quality).encode_image(&image)?;
    Ok(bytes)
}

/// Decodes the bytes of an image of any format that can be told from its
/// content: the bitmap has the size that the decoders read from the bytes,
/// and pixel bytes that suffice for it. `DecodeError` where they read
/// nothing. Which pixels it has rests with the decoders.
pub fn decode(bytes: &[u8]) -> (r: Result<Bitmap, Error>)
    ensures
        match r {
            Ok(bitmap) => decoded_size_of(bytes@) == Some((bitmap.width, bitmap.height))
                && bitmap.complete(),
            Err(e) => e == Error::DecodeError && decoded_size_of(bytes@) is None,
        },
{
    match load_rgba(bytes) {
        Ok(bitmap) => Ok(bitmap),
        Err(_) => Err(Error::DecodeError),
    }
}

/// The image as the bytes of a JPEG file of the given quality, from 1 to 100:
/// what the encoder writes for it. `DecodeError` where the pixel bytes do not
/// suffice for the size, or the encoder reports an error, as it does for an
/// image whose sides are not both between 1 and 65535 pixels.
pub fn encode(source: &Bitmap, quality: u8) -> (r: Result<Vec<u8>, Error>)
    ensures
        match r {
            Ok(bytes) => {
                &&& source.complete()
                &&& jpeg_of(source.width, source.height, source.pixels@, quality) == Some(bytes@)
                &&& 1 <= source.width <= 65535 && 1 <= source.height <= 65535
            },
            Err(e) => {
                &&& e == Error::DecodeError
                &&& !source.complete() || jpeg_of(
                    source.width,
                    source.height,
                    source.pixels@,
                    quality,
                ) is None
            },
        },
{
    if !source.is_complete() {
        return Err(Error::DecodeError);
    }
    match write_jpeg(source, quality) {
        Ok(bytes) => Ok(bytes),
        Err(_) => Err(Error::DecodeError),
    }
}

} // verus!
