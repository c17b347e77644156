//! The images of the user interface: PNG files decoded to 8-bit RGBA pixels,
//! ready to be uploaded as textures.
use vstd::prelude::*;

verus! {

/// What the `png` crate decodes from `bytes`, read with no transformation:
/// `None` where it refuses them, else the first frame as width, height, PNG
/// color type code, bits per sample, bytes per line and the pixel buffer.
pub uninterp spec fn png_decoded(bytes: Seq<u8>) -> Option<(u32, u32, u8, u8, usize, Seq<u8>)>;

/// The PNG color type code of RGBA: red, green, blue and alpha samples.
pub const PNG_COLOR_RGBA: u8 = 6;

/// The bits per sample that the interface textures take.
pub const PNG_DEPTH_EIGHT: u8 = 8;

/// The first frame of a PNG image, as the `png` crate hands it out.
pub struct PngFrame {
    pub width: u32,
    pub height: u32,
    /// the PNG color type code: 0 gray, 2 RGB, 3 palette, 4 gray and
    /// alpha, 6 RGBA
    pub color_type: u8,
    /// bits per sample: 1, 2, 4, 8 or 16
    pub bit_depth: u8,
    /// bytes of one row of pixels
    pub line_size: usize,
    pub pixels: Vec<u8>,
}

impl PngFrame {
    /// The frame as plain values, in the order that `png_decoded` gives them.
    pub open spec fn parts(&self) -> (u32, u32, u8, u8, usize, Seq<u8>) {
        (self.width, self.height, self.color_type, self.bit_depth, self.line_size, self.pixels@)
    }
}

/// Decodes `bytes` with the `png` crate: `Decoder::new`, `read_info`, then
/// `next_frame` into a buffer of `output_buffer_size` bytes. Its contract
/// claims only that the outcome is what `png_decoded` names for these bytes:
/// `None` when either call returns an error, else the frame's `OutputInfo`
/// (color type and bit depth by their PNG codes) with the whole buffer.
/// The decoder's own internal assertions are taken to hold.
#[verifier::external_body]
fn decode_png(bytes: &[u8]) -> (r: Option<PngFrame>)
    ensures
        match r {
            Some(f) => png_decoded(bytes@) == Some(f.parts()),
            None => png_decoded(bytes@) is None,
        },
{
    let mut reader = png::Decoder::new(bytes).read_info().ok()?;
    let mut buf = vec![0u8; reader.output_buffer_size()];
    match reader.next_frame(&mut buf) {
        Ok(info) => Some(PngFrame {
            width: info.width,
            height: info.height,
            color_type: info.color_type as u8,
            bit_depth: info.bit_depth as u8,
            line_size: info.line_size,
            pixels: buf,
        }),
        Err(_) => None,
    }
}

/// Why an image could not become an interface texture.
#[derive(Clone, Copy, PartialEq, Eq, Structural, Debug)]
pub enum UIImageError {
    /// the bytes are no PNG image that the decoder reads
    Decode,
    /// the image is not 8-bit RGBA; the color type code and bit depth it has
    NotRgba8(u8, u8),
}

/// An interface image: 8-bit RGBA pixels, `line_size` bytes a row.
pub struct UIImage {
    pub width: u32,
    pub height: u32,
    pub line_size: usize,
    pub pixels: Vec<u8>,
}

/// What becomes of a decoded frame: an image where it is 8-bit RGBA, with
/// its size, row length and pixels, else the error naming what it is.
pub open spec fn image_from_parts(
    parts: (u32, u32, u8, u8, usize, Seq<u8>),
    r: Result<UIImage, UIImageError>,
) -> bool {
    let (w, h, color, depth, line, px) = parts;
    if color == PNG_COLOR_RGBA && depth == PNG_DEPTH_EIGHT {
        r matches Ok(img) && img.width == w && img.height == h && img.line_size == line && img.pixels@ == px
    } else {
        r == Err::<UIImage, UIImageError>(UIImageError::NotRgba8(color, depth))
    }
}

/// Only 8-bit RGBA becomes an interface image: a decoded frame is taken
/// exactly when its PNG color type is RGBA (6) and its depth is eight bits,
/// with its size, row length and pixels as they are; any other color type
/// (gray, RGB, palette, gray with alpha) or depth gives `NotRgba8` with the
/// frame's color type and depth.
pub proof fn law_only_rgba8_taken(parts: (u32, u32, u8, u8, usize, Seq<u8>), r: Result<UIImage, UIImageError>)
    requires
        image_from_parts(parts, r),
    ensures
        r is Ok <==> (parts.2 == 6u8 && parts.3 == 8u8),
        !(parts.2 == 6u8 && parts.3 == 8u8) ==> r == Err::<UIImage, UIImageError>(
            UIImageError::NotRgba8(parts.2, parts.3),
        ),
        r matches Ok(img) ==> img.width == parts.0 && img.height == parts.1 && img.line_size == parts.4
            && img.pixels@ == parts.5,
{
}

impl UIImage {
    /// Takes a decoded frame as an interface image: it must be RGBA with
    /// eight bits a sample.
    pub fn from_frame(frame: PngFrame) -> (r: Result<UIImage, UIImageError>)
        ensures
            image_from_parts(frame.parts(), r),
    {
        if frame.color_type == PNG_COLOR_RGBA && frame.bit_depth == PNG_DEPTH_EIGHT {
            Ok(UIImage {
                width: frame.width,
                height: frame.height,
                line_size: frame.line_size,
                pixels: frame.pixels,
            })
        } else {
            Err(UIImageError::NotRgba8(frame.color_type, frame.bit_depth))
        }
    }

    /// Decodes the bytes of a PNG file into an interface image. `Decode`
    /// where the decoder refuses the bytes; `NotRgba8` where the image is not
    /// 8-bit RGBA.
    pub fn from_png(bytes: &[u8]) -> (r: Result<UIImage, UIImageError>)
        ensures
            match png_decoded(bytes@) {
                None => r == Err::<UIImage, UIImageError>(UIImageError::Decode),
                Some(parts) => image_from_parts(parts, r),
            },
    {
        match decode_png(bytes) {
            None => Err(UIImageError::Decode),
            Some(frame) => UIImage::from_frame(frame),
        }
    }
}

} // verus!
