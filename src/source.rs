//! Decoded source images, held as plain pixel bytes.

use vstd::prelude::*;
use crate::color::{quantize, quantize_spec, ColorKey};

verus! {

/// The pixel layouts that the encoder accepts; any other layout is `Other`.
#[derive(Clone, Copy, Debug, PartialEq, Eq, Structural)]
pub enum PixelFormat {
    Rgb8,
    Rgba8,
    Other,
}

/// A decoded image: rows of `width` pixels from the top, each pixel three
/// (RGB) or four (RGBA) bytes. An image of format `Other` holds no pixel bytes.
#[derive(Debug)]
pub struct SourceImage {
    pub width: u32,
    pub height: u32,
    pub format: PixelFormat,
    pub data: Vec<u8>,
}

#[verifier::external_type_specification]
#[verifier::external_body]
pub struct ExImageError(image::ImageError);

/// Why an image or a set of images cannot be converted.
#[derive(Clone, Copy, Debug, PartialEq, Eq, Structural)]
pub enum ConvertError {
    /// The bytes are not an image that can be decoded.
    Decode,
    /// The image is neither 8-bit RGB nor 8-bit RGBA.
    UnsupportedFormat,
    /// The image has more distinct opaque colours than its bit depth allows.
    TooManyColors,
    /// No free palette slot is left for a colour of the asset at this index.
    PaletteExhausted { file: usize },
}

impl SourceImage {
    pub open spec fn channels(self) -> nat {
        match self.format {
            PixelFormat::Rgba8 => 4,
            _ => 3,
        }
    }

    pub open spec fn pixel_count(self) -> nat {
        (self.width * self.height) as nat
    }

    /// The pixel bytes cover every pixel.
    pub open spec fn wf(self) -> bool {
        self.format != PixelFormat::Other ==> self.data@.len() >= self.pixel_count() * self.channels()
    }

    /// The key of the pixel at position `i` in row-major order; pixels of an
    /// image without alpha are opaque.
    pub open spec fn key_at(self, i: int) -> Option<ColorKey> {
        let o = i * self.channels();
        let a = if self.format == PixelFormat::Rgba8 {
            self.data@[o + 3]
        } else {
            255u8
        };
        quantize_spec(self.data@[o], self.data@[o + 1], self.data@[o + 2], a)
    }

    /// The keys of all pixels in row-major order.
    pub open spec fn scan(self) -> Seq<Option<ColorKey>> {
        Seq::new(self.pixel_count(), |i: int| self.key_at(i))
    }

    pub fn pixel_key(&self, i: usize) -> (k: Option<ColorKey>)
        requires
            self.wf(),
            self.format != PixelFormat::Other,
            i < self.pixel_count(),
        ensures
            k == self.key_at(i as int),
            k matches Some(c) ==> c.wf(),
    {
        let c: usize = if self.format == PixelFormat::Rgba8 {
            4
        } else {
            3
        };
        proof {
            let n = self.pixel_count() as int;
            assert(c == self.channels());
            assert(i * c + c <= n * c) by (nonlinear_arith)
                requires
                    i < n,
                    c >= 0,
            ;
            assert(self.data@.len() == self.data.len());
            assert(i * c + c <= self.data.len());
        }
        let o = i * c;
        let a = if c == 4 {
            self.data[o + 3]
        } else {
            255
        };
        quantize(self.data[o], self.data[o + 1], self.data[o + 2], a)
    }
}

/// What decoding `bytes` gives: width, height, layout and pixel bytes, or
/// nothing where the bytes are not a decodable image.
pub uninterp spec fn decoded_image(bytes: Seq<u8>) -> Option<(u32, u32, PixelFormat, Seq<u8>)>;

/// Relies on image::load_from_memory, which guesses the format from the
/// bytes and decodes them; an `ImageBuffer` always holds at least
/// width * height * channels bytes.
#[verifier::external_body]
fn load_image(bytes: &[u8]) -> (r: Result<SourceImage, image::ImageError>)
    ensures
        match r {
            Ok(img) => decoded_image(bytes@) == Some((img.width, img.height, img.format, img.data@))
                && img.wf(),
            Err(_) => decoded_image(bytes@) is None,
        },
{
    match image::load_from_memory(bytes) {
        Ok(image::DynamicImage::ImageRgb8(b)) => Ok(
            SourceImage { width: b.width(), height: b.height(), format: PixelFormat::Rgb8, data: b.into_raw() },
        ),
        Ok(image::DynamicImage::ImageRgba8(b)) => Ok(
            SourceImage { width: b.width(), height: b.height(), format: PixelFormat::Rgba8, data: b.into_raw() },
        ),
        Ok(d) => Ok(SourceImage { width: d.width(), height: d.height(), format: PixelFormat::Other, data: Vec::new() }),
        Err(e) => Err(e),
    }
}

/// Decodes the bytes of an image file.
pub fn decode_image(bytes: &[u8]) -> (r: Result<SourceImage, ConvertError>)
    ensures
        match r {
            Ok(img) => decoded_image(bytes@) == Some((img.width, img.height, img.format, img.data@))
                && img.wf(),
            Err(e) => decoded_image(bytes@) is None && e == ConvertError::Decode,
        },
{
    match load_image(bytes) {
        Ok(img) => Ok(img),
        Err(_) => Err(ConvertError::Decode),
    }
}

} // verus!
