//! Where each cell of the flat state lies, and the matrices they make up.
//!
//! The state is a grid of `num_emb` columns, read row by row. A layer owns
//! `head_size + 2` consecutive rows: one row of padding, `head_size` rows of
//! cells, one more row of padding. Within a row, a head owns `head_size`
//! consecutive columns.
use vstd::prelude::*;
use vstd::arithmetic::div_mod::lemma_fundamental_div_mod;
use vstd::arithmetic::div_mod::lemma_fundamental_div_mod_converse;
use crate::error::VisualError;
use crate::geometry::lemma_drawable_cells;
use crate::geometry::ModelInfo;

verus! {

/// The cells of one head, row by row, each as a bit pattern.
#[derive(Clone, Debug)]
pub struct HeadMatrix {
    pub layer: usize,
    pub head: usize,
    /// Rows, and columns, of the matrix.
    pub size: usize,
    /// `size * size` cells; the cell of row `y` and column `x` is at
    /// `y * size + x`.
    pub cells: Vec<u32>,
}

/// Column of the state grid in which the cell of flat index `index` lies.
pub open spec fn column_of(info: ModelInfo, index: int) -> int {
    index % (info.num_emb as int)
}

/// Row of the state grid in which the cell of flat index `index` lies.
pub open spec fn row_of(info: ModelInfo, index: int) -> int {
    index / (info.num_emb as int)
}

/// Head that owns the cell's column.
pub open spec fn head_of(info: ModelInfo, index: int) -> int {
    column_of(info, index) / info.head_size()
}

/// Layer that owns the cell's row.
pub open spec fn layer_of(info: ModelInfo, index: int) -> int {
    row_of(info, index) / (info.head_size() + 2)
}

/// Column of the cell within its head.
pub open spec fn local_x(info: ModelInfo, index: int) -> int {
    column_of(info, index) % info.head_size()
}

/// Row of the cell within its layer's block of rows, padding included.
pub open spec fn local_y(info: ModelInfo, index: int) -> int {
    row_of(info, index) % (info.head_size() + 2)
}

/// Whether the cell lies in the first or the last row of its layer's block.
pub open spec fn is_padding(info: ModelInfo, index: int) -> bool {
    local_y(info, index) == 0 || local_y(info, index) == info.head_size() + 1
}

/// Flat index of the state cell that holds row `y`, column `x` of the
/// matrix of `head` in `layer`.
pub open spec fn source_index(info: ModelInfo, layer: int, head: int, y: int, x: int) -> int {
    (layer * (info.head_size() + 2) + y + 1) * info.num_emb + head * info.head_size() + x
}

/// What the matrix of `head` in `layer` holds at row `y`, column `x`: the
/// state's cell at the source index, and zero where the state is too short
/// to have one.
pub open spec fn cell_value(
    info: ModelInfo,
    state: Seq<u32>,
    layer: int,
    head: int,
    y: int,
    x: int,
) -> u32 {
    let index = source_index(info, layer, head, y, x);
    if 0 <= index < state.len() {
        state[index]
    } else {
        0
    }
}

/// The matrix of `head` in `layer`, row by row.
pub open spec fn head_cells(info: ModelInfo, state: Seq<u32>, layer: int, head: int) -> Seq<u32> {
    Seq::new(
        info.head_cells() as nat,
        |c: int| cell_value(info, state, layer, head, c / info.head_size(), c % info.head_size()),
    )
}

/// The matrix of the head at place `slot`, counting layer by layer and,
/// within a layer, head by head.
pub open spec fn slot_cells(info: ModelInfo, state: Seq<u32>, slot: int) -> Seq<u32> {
    head_cells(info, state, slot / (info.num_head as int), slot % (info.num_head as int))
}

/// `heads` are the matrices of `state`: one per head, layer by layer and
/// within a layer head by head, each holding its cells.
pub open spec fn decoded(info: ModelInfo, state: Seq<u32>, heads: Seq<HeadMatrix>) -> bool {
    &&& heads.len() == info.head_count()
    &&& forall|k: int|
        0 <= k < heads.len() ==> {
            &&& (#[trigger] heads[k]).layer == k / (info.num_head as int)
            &&& heads[k].head == k % (info.num_head as int)
            &&& heads[k].size == info.head_size()
            &&& heads[k].cells@ == slot_cells(info, state, k)
        }
}

/// A state has one decoding: two lists of matrices decoded from the same
/// state by the same geometry are of one length and hold, place by place,
/// the same cells under the same layer and head.
pub proof fn lemma_decoded_unique(
    info: ModelInfo,
    state: Seq<u32>,
    first: Seq<HeadMatrix>,
    second: Seq<HeadMatrix>,
)
    requires
        decoded(info, state, first),
        decoded(info, state, second),
    ensures
        first.len() == second.len(),
        forall|k: int|
            0 <= k < first.len() ==> {
                &&& (#[trigger] first[k]).cells@ == second[k].cells@
                &&& first[k].layer == second[k].layer
                &&& first[k].head == second[k].head
                &&& first[k].size == second[k].size
            },
{
}

/// The cell that a matrix takes from the state is the cell that the state's
/// layout assigns to it: the source index of row `y`, column `x` of a head
/// lies in that head's columns and that layer's rows, at column `x` and,
/// after the leading row of padding, at row `y + 1`.
pub proof fn lemma_source_decomposes(info: ModelInfo, layer: int, head: int, y: int, x: int)
    requires
        info.num_head >= 1,
        info.head_size() >= 1,
        0 <= layer,
        0 <= head < info.num_head,
        0 <= y < info.head_size(),
        0 <= x < info.head_size(),
    ensures
        source_index(info, layer, head, y, x) >= 0,
        layer_of(info, source_index(info, layer, head, y, x)) == layer,
        head_of(info, source_index(info, layer, head, y, x)) == head,
        local_y(info, source_index(info, layer, head, y, x)) == y + 1,
        local_x(info, source_index(info, layer, head, y, x)) == x,
        !is_padding(info, source_index(info, layer, head, y, x)),
{
    let size = info.head_size();
    let emb = info.num_emb as int;
    let heads = info.num_head as int;
    let index = source_index(info, layer, head, y, x);
    let row = layer * (size + 2) + y + 1;
    let column = head * size + x;
    lemma_fundamental_div_mod(emb, heads);
    assert(column < emb) by (nonlinear_arith)
        requires
            column == head * size + x,
            0 <= head < heads,
            0 <= x < size,
            emb == heads * size + emb % heads,
            0 <= emb % heads,
    ;
    assert(0 <= column) by (nonlinear_arith)
        requires
            column == head * size + x,
            0 <= head,
            0 <= x,
            0 <= size,
    ;
    assert(0 <= row) by (nonlinear_arith)
        requires
            row == layer * (size + 2) + y + 1,
            0 <= layer,
            0 <= y,
            0 <= size,
    ;
    assert(index >= 0) by (nonlinear_arith)
        requires
            index == row * emb + column,
            0 <= row,
            0 <= column,
            0 <= emb,
    ;
    lemma_fundamental_div_mod_converse(index, emb, row, column);
    lemma_fundamental_div_mod_converse(column, size, head, x);
    lemma_fundamental_div_mod_converse(row, size + 2, layer, y + 1);
}

/// Conversely, a cell of the state that is not padding is the source of the
/// matrix cell that the layout assigns it to.
pub proof fn lemma_decompose_source(info: ModelInfo, index: int)
    requires
        info.num_head >= 1,
        info.head_size() >= 1,
        0 <= index,
    ensures
        source_index(
            info,
            layer_of(info, index),
            head_of(info, index),
            local_y(info, index) - 1,
            local_x(info, index),
        ) == index,
        0 <= layer_of(info, index),
        0 <= head_of(info, index),
        0 <= local_x(info, index) < info.head_size(),
        0 <= local_y(info, index) < info.head_size() + 2,
        !is_padding(info, index) ==> 0 <= local_y(info, index) - 1 < info.head_size(),
{
    let size = info.head_size();
    let emb = info.num_emb as int;
    let heads = info.num_head as int;
    lemma_fundamental_div_mod(emb, heads);
    assert(emb >= 1) by (nonlinear_arith)
        requires
            emb == heads * size + emb % heads,
            0 <= emb % heads,
            heads >= 1,
            size >= 1,
    ;
    lemma_fundamental_div_mod(index, emb);
    lemma_fundamental_div_mod(column_of(info, index), size);
    lemma_fundamental_div_mod(row_of(info, index), size + 2);
    assert(0 <= row_of(info, index)) by (nonlinear_arith)
        requires
            0 <= index,
            emb >= 1,
            row_of(info, index) == index / emb,
    ;
    assert(0 <= layer_of(info, index)) by (nonlinear_arith)
        requires
            0 <= row_of(info, index),
            size + 2 >= 1,
            layer_of(info, index) == row_of(info, index) / (size + 2),
    ;
    assert(0 <= head_of(info, index)) by (nonlinear_arith)
        requires
            0 <= column_of(info, index),
            size >= 1,
            head_of(info, index) == column_of(info, index) / size,
    ;
    assert(source_index(
        info,
        layer_of(info, index),
        head_of(info, index),
        local_y(info, index) - 1,
        local_x(info, index),
    ) == index) by (nonlinear_arith)
        requires
            index == emb * row_of(info, index) + column_of(info, index),
            column_of(info, index) == size * head_of(info, index) + local_x(info, index),
            row_of(info, index) == (size + 2) * layer_of(info, index) + local_y(info, index),
            source_index(
                info,
                layer_of(info, index),
                head_of(info, index),
                local_y(info, index) - 1,
                local_x(info, index),
            ) == (layer_of(info, index) * (size + 2) + (local_y(info, index) - 1) + 1) * emb
                + head_of(info, index) * size + local_x(info, index),
    ;
}

/// Reading one more cell of the state changes the one matrix cell that has
/// it as its source, and no other.
proof fn lemma_cell_step(
    info: ModelInfo,
    state: Seq<u32>,
    index: int,
    layer: int,
    head: int,
    y: int,
    x: int,
)
    requires
        0 <= index < state.len(),
    ensures
        cell_value(info, state.take(index + 1), layer, head, y, x) == if source_index(
            info,
            layer,
            head,
            y,
            x,
        ) == index {
            state[index]
        } else {
            cell_value(info, state.take(index), layer, head, y, x)
        },
{
}

/// A matrix of zeros for each head, layer by layer.
fn blank_heads(info: &ModelInfo, size: usize) -> (heads: Vec<HeadMatrix>)
    requires
        info.plottable(),
        info.num_layer >= 1,
        size == info.head_size(),
    ensures
        decoded(*info, Seq::<u32>::empty(), heads@),
{
    proof {
        lemma_drawable_cells(size as int);
    }
    let cells: usize = size * size;
    let mut heads: Vec<HeadMatrix> = Vec::new();
    let mut layer: usize = 0;
    while layer < info.num_layer
        invariant
            info.plottable(),
            info.num_layer >= 1,
            size == info.head_size(),
            cells == info.head_cells(),
            layer <= info.num_layer,
            heads.len() == layer * info.num_head,
            forall|k: int|
                0 <= k < heads.len() ==> {
                    &&& (#[trigger] heads[k]).layer == k / (info.num_head as int)
                    &&& heads[k].head == k % (info.num_head as int)
                    &&& heads[k].size == size
                    &&& heads[k].cells@ == head_cells(
                        *info,
                        Seq::<u32>::empty(),
                        k / (info.num_head as int),
                        k % (info.num_head as int),
                    )
                },
        decreases info.num_layer - layer,
    {
        let mut head: usize = 0;
        while head < info.num_head
            invariant
                info.plottable(),
                info.num_layer >= 1,
                size == info.head_size(),
                cells == info.head_cells(),
                layer < info.num_layer,
                head <= info.num_head,
                heads.len() == layer * info.num_head + head,
                forall|k: int|
                    0 <= k < heads.len() ==> {
                        &&& (#[trigger] heads[k]).layer == k / (info.num_head as int)
                        &&& heads[k].head == k % (info.num_head as int)
                        &&& heads[k].size == size
                        &&& heads[k].cells@ == head_cells(
                            *info,
                            Seq::<u32>::empty(),
                            k / (info.num_head as int),
                            k % (info.num_head as int),
                        )
                    },
            decreases info.num_head - head,
        {
            let zeros: Vec<u32> = vec![0u32; cells];
            proof {
                lemma_fundamental_div_mod_converse(
                    heads.len() as int,
                    info.num_head as int,
                    layer as int,
                    head as int,
                );
                assert(zeros@ =~= head_cells(
                    *info,
                    Seq::<u32>::empty(),
                    layer as int,
                    head as int,
                ));
            }
            heads.push(HeadMatrix { layer, head, size, cells: zeros });
            head += 1;
        }
        proof {
            assert((layer + 1) * info.num_head == layer * info.num_head + info.num_head)
                by (nonlinear_arith);
        }
        layer += 1;
    }
    heads
}

/// Lays the cells of `state` out as one matrix per head.
///
/// The oldest generation is not decoded and yields no matrix. For the
/// others the geometry must be plottable; then there is one matrix per head,
/// layer by layer and within a layer head by head, and none for a model
/// without layers. Each cell of a matrix is the state's cell at its source
/// index. Padding rows, columns beyond the last head and rows beyond the
/// last layer are passed over, and a cell whose source lies beyond the end
/// of a short state is zero.
pub fn decode(info: &ModelInfo, state: &[u32]) -> (result: Result<Vec<HeadMatrix>, VisualError>)
    ensures
        match result {
            Ok(heads) => if info.supported() {
                info.plottable() && decoded(*info, state@, heads@)
            } else {
                heads@.len() == 0
            },
            Err(error) => info.supported() && !info.plottable() && error
                == VisualError::Geometry,
        },
{
    if !info.is_supported() {
        return Ok(Vec::new());
    }
    let size: usize = match info.plot_size() {
        Some(size) => size,
        None => {
            return Err(VisualError::Geometry);
        },
    };
    if info.num_layer == 0 {
        assert(info.head_count() == 0) by (nonlinear_arith)
            requires
                info.head_count() == info.num_layer * info.num_head,
                info.num_layer == 0,
        ;
        return Ok(Vec::new());
    }
    let mut heads = blank_heads(info, size);
    let ghost emb = info.num_emb as int;
    let ghost count = info.num_head as int;
    proof {
        lemma_fundamental_div_mod(emb, count);
        assert(emb >= 2) by (nonlinear_arith)
            requires
                emb == count * size + emb % count,
                0 <= emb % count,
                count >= 1,
                size >= 2,
        ;
        assert(state@.take(0) =~= Seq::<u32>::empty());
        lemma_drawable_cells(size as int);
    }
    let mut index: usize = 0;
    while index < state.len()
        invariant
            info.plottable(),
            info.num_layer >= 1,
            size == info.head_size(),
            emb == info.num_emb,
            count == info.num_head,
            emb >= 2,
            size * size <= usize::MAX,
            index <= state.len(),
            decoded(*info, state@.take(index as int), heads@),
        decreases state.len() - index,
    {
        let column: usize = index % info.num_emb;
        let line: usize = index / info.num_emb;
        let head: usize = column / size;
        let layer: usize = line / (size + 2);
        let x: usize = column % size;
        let y: usize = line % (size + 2);
        let ghost before = heads@;
        let ghost hit = y != 0 && y != size + 1 && head < info.num_head && layer
            < info.num_layer;
        let ghost slot = layer * count + head;
        let ghost cell = (y - 1) * size + x;
        proof {
            lemma_decompose_source(*info, index as int);
        }
        if y != 0 && y != size + 1 && head < info.num_head && layer < info.num_layer {
            proof {
                assert(0 <= slot < info.head_count()) by (nonlinear_arith)
                    requires
                        slot == layer * count + head,
                        0 <= head < count,
                        0 <= layer < info.num_layer,
                        info.head_count() == info.num_layer * count,
                ;
                assert(0 <= (y - 1) * size <= cell < size * size) by (nonlinear_arith)
                    requires
                        cell == (y - 1) * size + x,
                        0 <= x < size,
                        0 <= y - 1 < size,
                ;
                assert(0 <= layer * count) by (nonlinear_arith)
                    requires
                        0 <= layer,
                        0 <= count,
                ;
                lemma_fundamental_div_mod_converse(slot, count, layer as int, head as int);
                lemma_fundamental_div_mod_converse(cell, size as int, y - 1, x as int);
            }
            heads[layer * info.num_head + head].cells[(y - 1) * size + x] = state[index];
        }
        proof {
            let earlier = state@.take(index as int);
            let later = state@.take(index + 1);
            assert forall|k: int| 0 <= k < heads@.len() implies heads@[k].cells@ == head_cells(
                *info,
                later,
                k / count,
                k % count,
            ) by {
                let old_cells = before[k].cells@;
                let new_cells = heads@[k].cells@;
                lemma_fundamental_div_mod(k, count);
                assert(0 <= k / count < info.num_layer && 0 <= k % count < count && k == (k
                    / count) * count + k % count) by (nonlinear_arith)
                    requires
                        0 <= k < info.num_layer * count,
                        count >= 1,
                        k == count * (k / count) + k % count,
                        0 <= k % count < count,
                ;
                assert(old_cells == head_cells(*info, earlier, k / count, k % count));
                assert forall|c: int| 0 <= c < size * size implies new_cells[c] == cell_value(
                    *info,
                    later,
                    k / count,
                    k % count,
                    c / (size as int),
                    c % (size as int),
                ) by {
                    let cy = c / (size as int);
                    let cx = c % (size as int);
                    lemma_fundamental_div_mod(c, size as int);
                    assert(0 <= cy < size && 0 <= cx < size && c == cy * size + cx)
                        by (nonlinear_arith)
                        requires
                            0 <= c < size * size,
                            size >= 2,
                            c == size * cy + cx,
                            0 <= cx < size,
                    ;
                    lemma_source_decomposes(*info, k / count, k % count, cy, cx);
                    lemma_cell_step(*info, state@, index as int, k / count, k % count, cy, cx);
                    assert(old_cells[c] == cell_value(
                        *info,
                        earlier,
                        k / count,
                        k % count,
                        cy,
                        cx,
                    ));
                    if source_index(*info, k / count, k % count, cy, cx) == index {
                        assert(k / count == layer && k % count == head);
                        assert(cy == y - 1 && cx == x);
                        assert(hit);
                        assert(k == slot);
                        assert(c == cell);
                    } else if hit && k == slot {
                        assert(c != cell);
                    }
                }
                assert(new_cells =~= head_cells(*info, later, k / count, k % count));
            }
        }
        index += 1;
    }
    proof {
        assert(state@.take(index as int) =~= state@);
    }
    Ok(heads)
}

} // verus!
