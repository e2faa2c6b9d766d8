//! From a raster to text: PNG, then base64.
//!
//! Both encodings are the work of other crates. What this library believes
//! of them is stated here; the rest of the library is proved from it.
use vstd::prelude::*;
use base64::engine::general_purpose::STANDARD;
use base64::Engine;
use image::ImageError;
use image::ImageFormat;
use image::RgbImage;
use std::io::Cursor;
use crate::error::VisualError;
use crate::geometry::drawable;
use crate::geometry::lemma_drawable_cells;
use crate::geometry::side;
use crate::geometry::SCALE;
use crate::render::raster;
use crate::render::raster_of;
use crate::render::Tone;

verus! {

/// The error of the `image` crate, carried through unopened.
#[verifier::external_type_specification]
#[verifier::external_body]
pub struct ExImageError(ImageError);

/// The bytes of the PNG file that the `image` crate writes for an image of
/// the given width and height whose pixels, row by row and three channels
/// each, are `rgb`; `None` where it refuses to write one.
pub uninterp spec fn png_encoding(width: u32, height: u32, rgb: Seq<u8>) -> Option<Seq<u8>>;

/// The text that the `base64` crate's standard engine, with padding, gives
/// for `bytes`.
pub uninterp spec fn base64_text(bytes: Seq<u8>) -> Seq<char>;

/// Length of the base64 text of `length` bytes: four characters for every
/// three bytes, the last group padded.
pub open spec fn base64_length(length: int) -> int {
    if length % 3 == 0 {
        length / 3 * 4
    } else {
        length / 3 * 4 + 4
    }
}

/// Whether the base64 text of `length` bytes can be allocated.
pub open spec fn base64_fits(length: int) -> bool {
    base64_length(length) <= isize::MAX
}

/// Makes an image of `rgb` with `ImageBuffer::from_raw` and writes it into
/// memory with `ImageBuffer::write_to`, as PNG, both of the `image` crate.
/// Believed of them: what is written, or that writing fails, depends on the
/// width, the height and the pixels alone. `from_raw` takes the buffer as
/// the image where three times the width, and that times the height, can
/// be counted in `usize` and the buffer is that long; `requires` leaves out
/// every other input, on which the call here would panic.
#[verifier::external_body]
fn encode_png(width: u32, height: u32, rgb: Vec<u8>) -> (result: Result<Vec<u8>, ImageError>)
    requires
        3 * width <= usize::MAX,
        3 * width * height <= usize::MAX,
        rgb@.len() == 3 * width * height,
    ensures
        match result {
            Ok(png) => png_encoding(width, height, rgb@) == Some(png@),
            Err(_) => png_encoding(width, height, rgb@) is None,
        },
{
    let image = RgbImage::from_raw(width, height, rgb).expect("raster covers the image");
    let mut png: Vec<u8> = Vec::new();
    let written = image.write_to(&mut Cursor::new(&mut png), ImageFormat::Png);
    written.map(|_| png)
}

/// Calls `Engine::encode` of the `base64` crate on its standard engine.
/// Believed of it: the text depends on the bytes alone. The call panics
/// where the text's length cannot be allocated, which `requires` leaves
/// out.
#[verifier::external_body]
fn encode_base64(bytes: &Vec<u8>) -> (text: String)
    requires
        base64_fits(bytes@.len() as int),
    ensures
        text@ == base64_text(bytes@),
{
    STANDARD.encode(bytes)
}

/// The picture of a head as text, given the outcome of writing its raster
/// as PNG: the base64 text of the PNG's bytes, and `None` where no PNG was
/// written or its text would be too long to allocate.
pub open spec fn text_of(png: Option<Seq<u8>>) -> Option<Seq<char>> {
    match png {
        Some(bytes) => if base64_fits(bytes.len() as int) {
            Some(base64_text(bytes))
        } else {
            None
        },
        None => None,
    }
}

/// The picture, as text, of a head of `size` rows whose cells have the
/// given tones; `None` where it cannot be encoded.
pub open spec fn heatmap_of(size: int, tones: Seq<Tone>) -> Option<Seq<char>> {
    text_of(png_encoding(side(size) as u32, side(size) as u32, raster_of(size, tones)))
}

/// Turns the bytes of a written PNG into text, where there are any and
/// their text can be allocated.
pub fn png_text(png: Option<Vec<u8>>) -> (result: Result<String, VisualError>)
    ensures
        match result {
            Ok(text) => png is Some && text_of(Some(png->0@)) == Some(text@),
            Err(error) => error == VisualError::Encoding && (png matches Some(bytes) ==> text_of(
                Some(bytes@),
            ) is None),
        },
{
    match png {
        Some(bytes) => {
            let pad: usize = if bytes.len() % 3 == 0 {
                0
            } else {
                4
            };
            if bytes.len() / 3 > (isize::MAX as usize - pad) / 4 {
                Err(VisualError::Encoding)
            } else {
                Ok(encode_base64(&bytes))
            }
        },
        None => Err(VisualError::Encoding),
    }
}

/// Draws the picture of a head of `size` rows and encodes it as text.
///
/// Fails with `Geometry` or `Shape` as [`raster`] does, and with `Encoding`
/// where the raster cannot be written as PNG or the PNG is too long to be
/// written as text.
pub fn heatmap(size: usize, tones: &[Tone]) -> (result: Result<String, VisualError>)
    ensures
        match result {
            Ok(text) => drawable(size as int) && tones@.len() == size * size && heatmap_of(
                size as int,
                tones@,
            ) == Some(text@),
            Err(error) => error == if !drawable(size as int) {
                VisualError::Geometry
            } else if tones@.len() != size * size {
                VisualError::Shape
            } else {
                VisualError::Encoding
            } && (!drawable(size as int) || tones@.len() != size * size || heatmap_of(
                size as int,
                tones@,
            ) is None),
        },
{
    let rgb = match raster(size, tones) {
        Ok(rgb) => rgb,
        Err(error) => {
            return Err(error);
        },
    };
    proof {
        lemma_drawable_cells(size as int);
    }
    let width: u32 = (SCALE * size) as u32;
    assert(3 * side(size as int) * side(size as int) == 3 * width * width && 3 * width <= 3
        * width * width) by (nonlinear_arith)
        requires
            side(size as int) == width,
            0 <= width,
    ;
    let png = match encode_png(width, width, rgb) {
        Ok(png) => Some(png),
        Err(_) => None,
    };
    png_text(png)
}

} // verus!
