//! From the tones of a head's cells to its picture.
//!
//! A tone is what a cell's value has been graded to: how red and how blue
//! its square is to be. The picture shows each cell as a square of `SCALE`
//! by `SCALE` pixels, rows of cells from top to bottom.
use vstd::prelude::*;
use vstd::arithmetic::div_mod::lemma_fundamental_div_mod_converse;
use crate::error::VisualError;
use crate::geometry::drawable;
use crate::geometry::is_drawable;
use crate::geometry::lemma_drawable_cells;
use crate::geometry::side;
use crate::geometry::SCALE;

verus! {

/// The colour of one cell: its red and blue channels. Green is always zero.
#[derive(Clone, Copy, Debug, PartialEq, Eq, Structural)]
pub struct Tone {
    pub red: u8,
    pub blue: u8,
}

/// The tone of the pixel at column `x`, row `y`: that of the cell whose
/// square the pixel lies in.
pub open spec fn pixel_tone(size: int, tones: Seq<Tone>, x: int, y: int) -> Tone {
    tones[(y / (SCALE as int)) * size + x / (SCALE as int)]
}

/// Channel `channel` of a tone: red, green, blue.
pub open spec fn channel_of(tone: Tone, channel: int) -> u8 {
    if channel == 0 {
        tone.red
    } else if channel == 2 {
        tone.blue
    } else {
        0
    }
}

/// Byte `index` of the raster: pixels row by row, three channels each.
pub open spec fn raster_byte(size: int, tones: Seq<Tone>, index: int) -> u8 {
    let pixel = index / 3;
    channel_of(pixel_tone(size, tones, pixel % side(size), pixel / side(size)), index % 3)
}

/// The raster of a head of `size` rows whose cells have the given tones.
pub open spec fn raster_of(size: int, tones: Seq<Tone>) -> Seq<u8> {
    Seq::new((3 * side(size) * side(size)) as nat, |index: int| raster_byte(size, tones, index))
}

/// Every pixel has the tone of the cell whose square it lies in, so each
/// square of `SCALE` by `SCALE` pixels is of one colour: the three bytes of
/// the pixel at column `x`, row `y` are the red of that cell's tone, zero,
/// and its blue.
pub proof fn lemma_pixel_bytes(size: int, tones: Seq<Tone>, x: int, y: int)
    requires
        0 <= x < side(size),
        0 <= y < side(size),
    ensures
        ({
            let first = 3 * (y * side(size) + x);
            let tone = pixel_tone(size, tones, x, y);
            &&& 0 <= first
            &&& first + 2 < raster_of(size, tones).len()
            &&& raster_of(size, tones)[first] == tone.red
            &&& raster_of(size, tones)[first + 1] == 0
            &&& raster_of(size, tones)[first + 2] == tone.blue
        }),
{
    let width = side(size);
    let pixel = y * width + x;
    lemma_fundamental_div_mod_converse(pixel, width, y, x);
    assert(0 <= pixel < width * width) by (nonlinear_arith)
        requires
            pixel == y * width + x,
            0 <= x < width,
            0 <= y < width,
    ;
    assert(3 * width * width == 3 * (width * width)) by (nonlinear_arith);
}

/// Draws the raster of a head of `size` rows from the tones of its cells.
///
/// Fails with `Geometry` where the picture cannot be held, and with `Shape`
/// where there is not one tone for each of the `size * size` cells.
pub fn raster(size: usize, tones: &[Tone]) -> (result: Result<Vec<u8>, VisualError>)
    ensures
        match result {
            Ok(bytes) => drawable(size as int) && tones@.len() == size * size && bytes@
                == raster_of(size as int, tones@),
            Err(error) => error == if !drawable(size as int) {
                VisualError::Geometry
            } else {
                VisualError::Shape
            } && (!drawable(size as int) || tones@.len() != size * size),
        },
{
    if !is_drawable(size) {
        return Err(VisualError::Geometry);
    }
    proof {
        lemma_drawable_cells(size as int);
        assert(3 * side(size as int) * side(size as int) == 3 * ((4 * size) * (4 * size)))
            by (nonlinear_arith)
            requires
                side(size as int) == 4 * size,
        ;
    }
    if tones.len() != size * size {
        return Err(VisualError::Shape);
    }
    let width: usize = SCALE * size;
    let ghost whole = raster_of(size as int, tones@);
    let mut bytes: Vec<u8> = Vec::with_capacity(3 * (width * width));
    let mut y: usize = 0;
    while y < width
        invariant
            width == 4 * size,
            3 * (width * width) <= usize::MAX,
            size * size <= usize::MAX,
            tones@.len() == size * size,
            whole == raster_of(size as int, tones@),
            whole.len() == 3 * (width * width),
            y <= width,
            bytes@ == whole.take(3 * (y * width)),
        decreases width - y,
    {
        let mut x: usize = 0;
        proof {
            assert(y * width + width <= width * width) by (nonlinear_arith)
                requires
                    0 <= y < width,
            ;
        }
        while x < width
            invariant
                width == 4 * size,
                3 * (width * width) <= usize::MAX,
                size * size <= usize::MAX,
                tones@.len() == size * size,
                whole == raster_of(size as int, tones@),
                whole.len() == 3 * (width * width),
                y < width,
                x <= width,
                y * width + width <= width * width,
                bytes@ == whole.take(3 * (y * width + x)),
            decreases width - x,
        {
            proof {
                assert(y / SCALE == y / 4 && x / SCALE == x / 4);
                assert((y / 4) * size + x / 4 < size * size && 0 <= (y / 4) * size)
                    by (nonlinear_arith)
                    requires
                        0 <= y / 4 < size,
                        0 <= x / 4 < size,
                ;
                assert(side(size as int) == width);
                lemma_pixel_bytes(size as int, tones@, x as int, y as int);
            }
            let tone = tones[(y / SCALE) * size + x / SCALE];
            let ghost first = 3 * (y * width + x);
            bytes.push(tone.red);
            bytes.push(0);
            bytes.push(tone.blue);
            proof {
                assert(bytes@ =~= whole.take(first + 3));
            }
            x += 1;
        }
        proof {
            assert((y + 1) * width == y * width + width) by (nonlinear_arith);
        }
        y += 1;
    }
    proof {
        assert(bytes@ =~= whole);
    }
    Ok(bytes)
}

} // verus!
