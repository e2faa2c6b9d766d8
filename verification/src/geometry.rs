//! The model's geometry: how many layers and heads it has, and how wide a
//! head is.
use vstd::prelude::*;

verus! {

/// Generation of the model. The oldest, `V4`, keeps its state in a layout
/// that is not decoded.
#[derive(Clone, Copy, Debug, PartialEq, Eq, Structural)]
pub enum ModelVersion {
    V4,
    V5,
    V6,
    V7,
}

/// What the visual needs to know of a model.
#[derive(Clone, Copy, Debug, PartialEq, Eq, Structural)]
pub struct ModelInfo {
    pub version: ModelVersion,
    pub num_layer: usize,
    pub num_head: usize,
    pub num_emb: usize,
}

/// Each cell of a head becomes a square of `SCALE` by `SCALE` pixels.
pub const SCALE: usize = 4;

/// Pixels along one side of the picture of a head of `size` rows.
pub open spec fn side(size: int) -> int {
    SCALE * size
}

/// Whether the picture of a head of `size` rows can be held: its side fits
/// in `u32` and its bytes, three for each pixel, can be counted in `usize`.
pub open spec fn drawable(size: int) -> bool {
    &&& 0 <= size
    &&& side(size) <= u32::MAX
    &&& 3 * side(size) * side(size) <= usize::MAX
}

/// The cells of a head whose picture can be held can be counted in `usize`.
pub proof fn lemma_drawable_cells(size: int)
    requires
        drawable(size),
    ensures
        side(size) == 4 * size,
        size * size <= 3 * side(size) * side(size) <= usize::MAX,
{
    assert(size * size <= 3 * (4 * size) * (4 * size)) by (nonlinear_arith);
}

/// Whether the picture of a head of `size` rows can be held.
pub fn is_drawable(size: usize) -> (yes: bool)
    ensures
        yes == drawable(size as int),
{
    if size > 0x3fff_ffff {
        return false;
    }
    assert(side(size as int) == 4 * size);
    let width: u128 = (SCALE as u128) * (size as u128);
    assert(width * width <= 0xffff_fffc * 0xffff_fffc) by (nonlinear_arith)
        requires
            0 <= width <= 0xffff_fffc,
    ;
    let area: u128 = width * width;
    let length: u128 = 3 * area;
    assert(3 * side(size as int) * side(size as int) == length) by (nonlinear_arith)
        requires
            width == side(size as int),
            length == 3 * (width * width),
    ;
    length <= usize::MAX as u128
}

impl ModelInfo {
    /// Whether the state of this generation can be decoded.
    pub open spec fn supported(&self) -> bool {
        !(self.version is V4)
    }

    /// Rows, and columns, of one head: `num_emb / num_head`, rounded down.
    /// Zero for a model without heads.
    pub open spec fn head_size(&self) -> int {
        if self.num_head == 0 {
            0
        } else {
            self.num_emb as int / self.num_head as int
        }
    }

    /// Cells of one head.
    pub open spec fn head_cells(&self) -> int {
        self.head_size() * self.head_size()
    }

    /// Heads of the whole model.
    pub open spec fn head_count(&self) -> int {
        self.num_layer * self.num_head
    }

    /// Whether a visual can be made for this geometry. There must be a head
    /// in each layer, and the heads must be countable in `usize`. Where
    /// there is a layer, and so a head to draw, a head must have at least
    /// two rows (each quantile is taken from a cell and its successor) and
    /// its picture must be one that can be held. A model without layers has
    /// no head to draw, whatever the size of a head would be.
    pub open spec fn plottable(&self) -> bool {
        &&& self.num_head >= 1
        &&& self.head_count() <= usize::MAX
        &&& self.num_layer >= 1 ==> self.head_size() >= 2 && drawable(self.head_size())
    }

    /// Whether the state of this generation can be decoded.
    pub fn is_supported(&self) -> (yes: bool)
        ensures
            yes == self.supported(),
    {
        match self.version {
            ModelVersion::V4 => false,
            ModelVersion::V5 | ModelVersion::V6 | ModelVersion::V7 => true,
        }
    }

    /// The head size of a plottable geometry, and `None` for any other.
    pub fn plot_size(&self) -> (size: Option<usize>)
        ensures
            size is Some <==> self.plottable(),
            size matches Some(n) ==> n == self.head_size(),
    {
        if self.num_head == 0 {
            return None;
        }
        let size: usize = self.num_emb / self.num_head;
        if self.num_layer >= 1 && (size < 2 || !is_drawable(size)) {
            return None;
        }
        assert(self.num_layer * self.num_head <= 0xffff_ffff_ffff_ffff * 0xffff_ffff_ffff_ffff)
            by (nonlinear_arith)
            requires
                0 <= self.num_layer <= 0xffff_ffff_ffff_ffff,
                0 <= self.num_head <= 0xffff_ffff_ffff_ffff,
        ;
        let heads: u128 = (self.num_layer as u128) * (self.num_head as u128);
        if heads > usize::MAX as u128 {
            return None;
        }
        Some(size)
    }
}

} // verus!
