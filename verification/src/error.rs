//! The ways in which building a visual can fail.
use vstd::prelude::*;

verus! {

/// Why no visual was produced.
#[derive(Clone, Copy, Debug, PartialEq, Eq, Structural)]
pub enum VisualError {
    /// The model's geometry cannot be plotted: its layers have no head, or
    /// it has heads to draw and a head has fewer than two rows, or its sizes
    /// are beyond what the machine or an image can index.
    Geometry,
    /// The bins or tones handed in do not match the geometry: there is not
    /// one entry per head, or a head's tones do not cover its cells.
    Shape,
    /// A head's raster could not be written as an image, or the image is too
    /// long to be written as text.
    Encoding,
}

impl VisualError {
    /// A short description of the failure, for the host to display.
    pub fn message(&self) -> (text: String)
        ensures
            text@ == match *self {
                VisualError::Geometry => "model geometry cannot be plotted"@,
                VisualError::Shape => "bins or tones do not match the geometry"@,
                VisualError::Encoding => "failed to write image to bytes"@,
            },
    {
        match self {
            VisualError::Geometry => "model geometry cannot be plotted".to_owned(),
            VisualError::Shape => "bins or tones do not match the geometry".to_owned(),
            VisualError::Encoding => "failed to write image to bytes".to_owned(),
        }
    }
}

} // verus!
