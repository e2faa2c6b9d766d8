//! The visual of a whole state: a grid of pictures, one per head, and the
//! bins that calibrated each.
use vstd::prelude::*;
use vstd::arithmetic::div_mod::lemma_fundamental_div_mod;
use vstd::arithmetic::div_mod::lemma_fundamental_div_mod_converse;
use crate::encode::heatmap;
use crate::encode::heatmap_of;
use crate::error::VisualError;
use crate::geometry::lemma_drawable_cells;
use crate::geometry::ModelInfo;
use crate::layout::slot_cells;
use crate::order::ascending;
use crate::quantile::picks_of;
use crate::render::Tone;
use crate::order::precedes;
use crate::shading::between;
use crate::shading::graded;
use crate::shading::lemma_constant_bins;
use crate::shading::lemma_head_bins_rise;
use crate::shading::lemma_graded_unique;
use crate::shading::one_grade;
use crate::shading::one_mean;
use crate::shading::head_bins;
use crate::shading::shade;
use crate::shading::tone_rows;

verus! {

/// The bins of one head: its least cell, the five quantiles from the lowest
/// half percent to the highest, and its greatest cell, each as a bit
/// pattern.
#[derive(Clone, Copy, Debug, PartialEq, Eq)]
pub struct StateStats {
    pub layer: usize,
    pub head: usize,
    pub bins: [u32; 7],
}

/// The visual of a state.
#[derive(Clone, Debug)]
pub struct StateVisual {
    num_layer: usize,
    num_head: usize,
    stats: Vec<StateStats>,
    images: Vec<Vec<String>>,
}

/// What a visual holds: the numbers of layers and heads, the bins of each
/// head, and the pictures as text, a row for each layer and in it an entry
/// for each head.
pub struct VisualView {
    pub num_layer: int,
    pub num_head: int,
    pub stats: Seq<StateStats>,
    pub images: Seq<Seq<Seq<char>>>,
}

/// The texts of a grid of strings.
pub open spec fn texts(images: Seq<Vec<String>>) -> Seq<Seq<Seq<char>>> {
    Seq::new(images.len(), |l: int| Seq::new(images[l]@.len(), |h: int| images[l]@[h]@))
}

impl VisualView {
    /// No bins and no pictures: the visual of a state that is not decoded.
    pub open spec fn blank(&self) -> bool {
        self.stats.len() == 0 && self.images.len() == 0
    }

    /// A picture and one entry of bins for each head of each layer, the
    /// entries layer by layer and within a layer head by head.
    pub open spec fn complete(&self) -> bool {
        &&& 0 <= self.num_layer
        &&& 0 <= self.num_head
        &&& self.images.len() == self.num_layer
        &&& forall|l: int| 0 <= l < self.num_layer ==> (#[trigger] self.images[l]).len() == self.num_head
        &&& self.stats.len() == self.num_layer * self.num_head
        &&& forall|k: int|
            0 <= k < self.stats.len() ==> (#[trigger] self.stats[k]).layer == k / self.num_head
                && self.stats[k].head == k % self.num_head
    }
}

/// Whether there are bins and tones for each head, and a tone for each cell
/// of each head.
pub open spec fn fits(info: ModelInfo, bins: Seq<[u32; 7]>, tones: Seq<Seq<Tone>>) -> bool {
    &&& bins.len() == info.head_count()
    &&& tones.len() == info.head_count()
    &&& forall|k: int| 0 <= k < tones.len() ==> (#[trigger] tones[k]).len() == info.head_cells()
}

/// Whether the picture of every head can be encoded.
pub open spec fn encodes(info: ModelInfo, tones: Seq<Seq<Tone>>) -> bool {
    forall|k: int|
        0 <= k < info.head_count() ==> heatmap_of(info.head_size(), #[trigger] tones[k]) is Some
}

/// The bins of each head, labelled with its layer and head.
pub open spec fn stats_of(info: ModelInfo, bins: Seq<[u32; 7]>) -> Seq<StateStats> {
    Seq::new(
        info.head_count() as nat,
        |k: int|
            StateStats {
                layer: (k / (info.num_head as int)) as usize,
                head: (k % (info.num_head as int)) as usize,
                bins: bins[k],
            },
    )
}

/// The pictures of the heads, a row for each layer.
pub open spec fn images_of(info: ModelInfo, tones: Seq<Seq<Tone>>) -> Seq<Seq<Seq<char>>> {
    Seq::new(
        info.num_layer as nat,
        |l: int|
            Seq::new(
                info.num_head as nat,
                |h: int| heatmap_of(info.head_size(), tones[l * info.num_head + h])->0,
            ),
    )
}

/// What building a visual gives.
///
/// A state of the oldest generation is not decoded: its visual is blank,
/// whatever bins and tones come with it. Otherwise the geometry must be
/// plottable, the bins and tones must fit it, and every head's picture must
/// be encodable; the first of these that fails is the error. Where none
/// fails the visual is complete.
pub open spec fn visual_of(info: ModelInfo, bins: Seq<[u32; 7]>, tones: Seq<Seq<Tone>>) -> Result<
    VisualView,
    VisualError,
> {
    if !info.supported() {
        Ok(
            VisualView {
                num_layer: info.num_layer as int,
                num_head: info.num_head as int,
                stats: Seq::empty(),
                images: Seq::empty(),
            },
        )
    } else if !info.plottable() {
        Err(VisualError::Geometry)
    } else if !fits(info, bins, tones) {
        Err(VisualError::Shape)
    } else if !encodes(info, tones) {
        Err(VisualError::Encoding)
    } else {
        Ok(
            VisualView {
                num_layer: info.num_layer as int,
                num_head: info.num_head as int,
                stats: stats_of(info, bins),
                images: images_of(info, tones),
            },
        )
    }
}

impl View for StateVisual {
    type V = VisualView;

    closed spec fn view(&self) -> VisualView {
        VisualView {
            num_layer: self.num_layer as int,
            num_head: self.num_head as int,
            stats: self.stats@,
            images: texts(self.images@),
        }
    }
}

/// The bins of every head of the visual were made of the head's cells,
/// with `mean` for the five between the least cell and the greatest.
pub open spec fn bins_made<M: Fn(u32, u32) -> u32>(
    info: ModelInfo,
    state: Seq<u32>,
    mean: M,
    view: VisualView,
) -> bool {
    forall|k: int|
        0 <= k < info.head_count() ==> head_bins(
            mean,
            picks_of(ascending(slot_cells(info, state, k))),
            (#[trigger] view.stats[k]).bins,
        )
}

/// What came of building a visual, by what the visual holds.
pub open spec fn outcome(result: Result<StateVisual, VisualError>) -> Result<
    VisualView,
    VisualError,
> {
    match result {
        Ok(visual) => Ok(visual@),
        Err(error) => Err(error),
    }
}

impl StateVisual {
    /// Builds the visual of a state.
    ///
    /// The state is laid out head by head; each head's cells are sorted and
    /// its bins made, with `mean` for the five quantiles between the least
    /// cell and the greatest; each cell is graded by `grade` against the
    /// bins of its head; each head's tones are drawn, written as PNG and
    /// then as text. The oldest generation is not decoded: its visual is
    /// blank.
    pub fn new<M: Fn(u32, u32) -> u32, G: Fn(u32, [u32; 7]) -> Tone>(
        info: &ModelInfo,
        state: &[u32],
        mean: M,
        grade: G,
    ) -> (result: Result<StateVisual, VisualError>)
        requires
            forall|a: u32, b: u32| call_requires(mean, (a, b)),
            forall|cell: u32, bins: [u32; 7]| call_requires(grade, (cell, bins)),
        ensures
            !info.supported() ==> result is Ok && result->Ok_0@.blank() && result->Ok_0@.num_layer
                == info.num_layer && result->Ok_0@.num_head == info.num_head,
            info.supported() && !info.plottable() ==> result == Err::<StateVisual, VisualError>(
                VisualError::Geometry,
            ),
            info.supported() && info.plottable() ==> exists|
                bins: Seq<[u32; 7]>,
                tones: Seq<Seq<Tone>>,
            |
                graded(*info, state@, mean, grade, bins, tones) && outcome(result) == visual_of(
                    *info,
                    bins,
                    tones,
                ),
            info.supported() ==> (result matches Ok(visual) ==> {
                &&& visual@.complete()
                &&& visual@.num_layer == info.num_layer
                &&& visual@.num_head == info.num_head
                &&& bins_made(*info, state@, mean, visual@)
            }),
            info.supported() ==> (result matches Err(error) ==> error == VisualError::Geometry
                || error == VisualError::Encoding),
    {
        let shading = match shade(info, state, &mean, &grade) {
            Ok(shading) => shading,
            Err(error) => {
                return Err(error);
            },
        };
        let result = StateVisual::assemble(info, shading.bins.as_slice(), shading.tones.as_slice());
        proof {
            if info.supported() {
                let bins = shading.bins@;
                let tones = tone_rows(shading.tones@);
                assert(graded(*info, state@, mean, grade, bins, tones));
                assert(outcome(result) == visual_of(*info, bins, tones));
                assert(fits(*info, bins, tones)) by {
                    assert forall|k: int| 0 <= k < tones.len() implies (#[trigger] tones[k]).len()
                        == info.head_cells() by {
                        assert(head_bins(
                            mean,
                            picks_of(ascending(slot_cells(*info, state@, k))),
                            bins[k],
                        ));
                    }
                }
            }
        }
        result
    }

    /// Builds a visual from the bins and the tones of the heads, both given
    /// layer by layer and within a layer head by head.
    pub fn assemble(info: &ModelInfo, bins: &[[u32; 7]], tones: &[Vec<Tone>]) -> (result: Result<
        StateVisual,
        VisualError,
    >)
        ensures
            outcome(result) == visual_of(*info, bins@, tone_rows(tones@)),
            result matches Ok(visual) ==> if info.supported() {
                visual@.complete()
            } else {
                visual@.blank()
            },
    {
        if !info.is_supported() {
            let blank = StateVisual {
                num_layer: info.num_layer,
                num_head: info.num_head,
                stats: Vec::new(),
                images: Vec::new(),
            };
            assert(blank@.stats =~= Seq::empty());
            assert(blank@.images =~= Seq::empty());
            return Ok(blank);
        }
        let size: usize = match info.plot_size() {
            Some(size) => size,
            None => {
                return Err(VisualError::Geometry);
            },
        };
        let ghost rows = tone_rows(tones@);
        let count: usize = info.num_layer * info.num_head;
        if bins.len() != count || tones.len() != count {
            return Err(VisualError::Shape);
        }
        if info.num_layer == 0 {
            let empty = StateVisual {
                num_layer: info.num_layer,
                num_head: info.num_head,
                stats: Vec::new(),
                images: Vec::new(),
            };
            proof {
                assert(info.head_count() == 0) by (nonlinear_arith)
                    requires
                        info.head_count() == info.num_layer * info.num_head,
                        info.num_layer == 0,
                ;
                assert(fits(*info, bins@, rows));
                assert(empty@.stats =~= stats_of(*info, bins@));
                assert(empty@.images =~= images_of(*info, rows));
                lemma_complete(*info, bins@, rows);
            }
            return Ok(empty);
        }
        proof {
            lemma_drawable_cells(size as int);
        }
        let cells: usize = size * size;
        let mut k: usize = 0;
        while k < count
            invariant
                info.supported(),
                info.plottable(),
                info.num_layer >= 1,
                k <= count,
                count == info.head_count(),
                count == tones@.len(),
                cells == info.head_cells(),
                rows == tone_rows(tones@),
                forall|j: int| 0 <= j < k ==> (#[trigger] rows[j]).len() == cells,
            decreases count - k,
        {
            if tones[k].len() != cells {
                assert(rows[k as int].len() != info.head_cells());
                return Err(VisualError::Shape);
            }
            k += 1;
        }
        assert(fits(*info, bins@, rows));
        let mut stats: Vec<StateStats> = Vec::with_capacity(count);
        let mut images: Vec<Vec<String>> = Vec::with_capacity(info.num_layer);
        let mut layer: usize = 0;
        while layer < info.num_layer
            invariant
                info.supported(),
                info.plottable(),
                info.num_layer >= 1,
                size == info.head_size(),
                count == info.head_count(),
                rows == tone_rows(tones@),
                fits(*info, bins@, rows),
                layer <= info.num_layer,
                stats@ == stats_of(*info, bins@).take(layer * info.num_head),
                texts(images@) == images_of(*info, rows).take(layer as int),
                forall|j: int|
                    0 <= j < layer * info.num_head ==> heatmap_of(
                        info.head_size(),
                        #[trigger] rows[j],
                    ) is Some,
            decreases info.num_layer - layer,
        {
            let mut line: Vec<String> = Vec::with_capacity(info.num_head);
            let mut head: usize = 0;
            proof {
                assert(layer * info.num_head + info.num_head <= count) by (nonlinear_arith)
                    requires
                        0 <= layer < info.num_layer,
                        count == info.num_layer * info.num_head,
                        0 <= info.num_head,
                ;
                assert(0 <= layer * info.num_head) by (nonlinear_arith)
                    requires
                        0 <= layer,
                        0 <= info.num_head,
                ;
            }
            while head < info.num_head
                invariant
                    info.supported(),
                    info.plottable(),
                    info.num_layer >= 1,
                    size == info.head_size(),
                    count == info.head_count(),
                    rows == tone_rows(tones@),
                    fits(*info, bins@, rows),
                    layer < info.num_layer,
                    head <= info.num_head,
                    0 <= layer * info.num_head,
                    layer * info.num_head + info.num_head <= count,
                    stats@ == stats_of(*info, bins@).take(layer * info.num_head + head),
                    line@.len() == head,
                    forall|h: int|
                        0 <= h < head ==> (#[trigger] line@[h])@ == images_of(
                            *info,
                            rows,
                        )[layer as int][h],
                    forall|j: int|
                        0 <= j < layer * info.num_head + head ==> heatmap_of(
                            info.head_size(),
                            #[trigger] rows[j],
                        ) is Some,
                decreases info.num_head - head,
            {
                let slot: usize = layer * info.num_head + head;
                proof {
                    lemma_fundamental_div_mod_converse(
                        slot as int,
                        info.num_head as int,
                        layer as int,
                        head as int,
                    );
                    assert(rows[slot as int] == tones@[slot as int]@);
                }
                let text = match heatmap(size, tones[slot].as_slice()) {
                    Ok(text) => text,
                    Err(error) => {
                        assert(heatmap_of(info.head_size(), rows[slot as int]) is None);
                        return Err(error);
                    },
                };
                line.push(text);
                stats.push(StateStats { layer, head, bins: bins[slot] });
                proof {
                    assert(stats@ =~= stats_of(*info, bins@).take(slot + 1));
                }
                head += 1;
            }
            let ghost above = images@;
            images.push(line);
            proof {
                assert((layer + 1) * info.num_head == layer * info.num_head + info.num_head)
                    by (nonlinear_arith);
                let grid = texts(images@);
                let goal = images_of(*info, rows).take(layer + 1);
                assert(texts(above).len() == layer);
                assert forall|l: int| 0 <= l < grid.len() implies grid[l] == goal[l] by {
                    if l < layer {
                        assert(images@[l] == above[l]);
                        assert(grid[l] == texts(above)[l]);
                        assert(texts(above)[l] == images_of(*info, rows).take(layer as int)[l]);
                    } else {
                        assert(images@[l] == line);
                        assert(grid[l] =~= goal[l]);
                    }
                }
                assert(grid =~= goal);
            }
            layer += 1;
        }
        let visual = StateVisual {
            num_layer: info.num_layer,
            num_head: info.num_head,
            stats,
            images,
        };
        proof {
            assert(visual@.stats =~= stats_of(*info, bins@));
            assert(visual@.images =~= images_of(*info, rows));
            assert(encodes(*info, rows));
            lemma_complete(*info, bins@, rows);
        }
        Ok(visual)
    }

    /// Layers of the model.
    pub fn num_layer(&self) -> (count: usize)
        ensures
            count == self@.num_layer,
    {
        self.num_layer
    }

    /// Heads of each layer.
    pub fn num_head(&self) -> (count: usize)
        ensures
            count == self@.num_head,
    {
        self.num_head
    }

    /// The bins of each head, layer by layer and within a layer head by
    /// head.
    pub fn stats(&self) -> (stats: &Vec<StateStats>)
        ensures
            stats@ == self@.stats,
    {
        &self.stats
    }

    /// The pictures as text: a row for each layer and in it an entry for
    /// each head.
    pub fn images(&self) -> (images: &Vec<Vec<String>>)
        ensures
            texts(images@) == self@.images,
    {
        &self.images
    }
}

/// A visual built for a geometry that can be plotted has a picture and one
/// entry of bins for each head of each layer.
pub proof fn lemma_complete(info: ModelInfo, bins: Seq<[u32; 7]>, tones: Seq<Seq<Tone>>)
    requires
        info.supported(),
        visual_of(info, bins, tones) is Ok,
    ensures
        visual_of(info, bins, tones)->Ok_0.complete(),
{
    let view = visual_of(info, bins, tones)->Ok_0;
    assert forall|k: int| 0 <= k < view.stats.len() implies (#[trigger] view.stats[k]).layer == k
        / view.num_head && view.stats[k].head == k % view.num_head by {
        lemma_fundamental_div_mod(k, info.num_head as int);
        assert(0 <= k / (info.num_head as int) < info.num_layer && 0 <= k % (info.num_head as int)
            < info.num_head) by (nonlinear_arith)
            requires
                0 <= k < info.num_layer * info.num_head,
                info.num_head >= 1,
                k == info.num_head * (k / (info.num_head as int)) + k % (info.num_head as int),
                0 <= k % (info.num_head as int) < info.num_head,
        ;
    }
}

/// In a complete visual the entries of bins rise strictly by layer and,
/// within a layer, by head: they are sorted, and no head occurs twice.
pub proof fn lemma_stats_sorted(view: VisualView, i: int, j: int)
    requires
        view.complete(),
        0 <= i < j < view.stats.len(),
    ensures
        view.stats[i].layer < view.stats[j].layer || (view.stats[i].layer == view.stats[j].layer
            && view.stats[i].head < view.stats[j].head),
{
    let heads = view.num_head;
    assert(heads >= 1) by (nonlinear_arith)
        requires
            0 < view.num_layer * heads,
            0 <= view.num_layer,
            0 <= heads,
    ;
    lemma_fundamental_div_mod(i, heads);
    lemma_fundamental_div_mod(j, heads);
    assert(i / heads < j / heads || (i / heads == j / heads && i % heads < j % heads))
        by (nonlinear_arith)
        requires
            heads >= 1,
            0 <= i < j,
            i == heads * (i / heads) + i % heads,
            j == heads * (j / heads) + j % heads,
            0 <= i % heads < heads,
            0 <= j % heads < heads,
    ;
}

/// A visual is owed wherever pictures of the head's size can be encoded:
/// for a geometry that can be plotted, building then succeeds, whatever the
/// state holds, and gives a visual with a picture and one entry of bins for
/// each head of each layer.
pub proof fn lemma_visual_owed<M: Fn(u32, u32) -> u32, G: Fn(u32, [u32; 7]) -> Tone>(
    info: ModelInfo,
    state: Seq<u32>,
    mean: M,
    grade: G,
    result: Result<StateVisual, VisualError>,
)
    requires
        info.supported(),
        info.plottable(),
        exists|bins: Seq<[u32; 7]>, tones: Seq<Seq<Tone>>|
            graded(info, state, mean, grade, bins, tones) && outcome(result) == visual_of(
                info,
                bins,
                tones,
            ),
        forall|tones: Seq<Tone>|
            tones.len() == info.head_cells() ==> #[trigger] heatmap_of(info.head_size(), tones)
                is Some,
    ensures
        result is Ok,
        result->Ok_0@.complete(),
        result->Ok_0@.num_layer == info.num_layer,
        result->Ok_0@.num_head == info.num_head,
        result->Ok_0@.images.len() == info.num_layer,
        forall|l: int|
            0 <= l < info.num_layer ==> (#[trigger] result->Ok_0@.images[l]).len()
                == info.num_head,
        result->Ok_0@.stats.len() == info.num_layer * info.num_head,
{
    let (bins, tones) = choose|bins: Seq<[u32; 7]>, tones: Seq<Seq<Tone>>|
        graded(info, state, mean, grade, bins, tones) && outcome(result) == visual_of(
            info,
            bins,
            tones,
        );
    assert forall|k: int| 0 <= k < tones.len() implies (#[trigger] tones[k]).len()
        == info.head_cells() by {
        assert(head_bins(mean, picks_of(ascending(slot_cells(info, state, k))), bins[k]));
    }
    assert(fits(info, bins, tones));
    assert(encodes(info, tones));
    lemma_complete(info, bins, tones);
}

/// Where the cells of every head belong to a kind of cell on which `mean`
/// lies between its two arguments, and `mean` gives one result for one
/// pair, the bins of every head of the visual rise: the least cell, the
/// five quantiles from the lowest half percent to the highest, the
/// greatest cell.
pub proof fn lemma_visual_bins_rise<M: Fn(u32, u32) -> u32>(
    info: ModelInfo,
    state: Seq<u32>,
    mean: M,
    view: VisualView,
    kind: spec_fn(u32) -> bool,
)
    requires
        info.supported(),
        info.plottable(),
        bins_made(info, state, mean, view),
        one_mean(mean),
        forall|k: int, c: int|
            0 <= k < info.head_count() && 0 <= c < info.head_cells() ==> kind(
                #[trigger] slot_cells(info, state, k)[c],
            ),
        forall|a: u32, b: u32, bin: u32|
            kind(a) && kind(b) && precedes(a, b) && #[trigger] call_ensures(mean, (a, b), bin)
                ==> between((a, b), bin),
    ensures
        forall|k: int, i: int|
            0 <= k < info.head_count() && 0 <= i < 6 ==> precedes(
                #[trigger] view.stats[k].bins[i],
                view.stats[k].bins[i + 1],
            ),
{
    assert forall|k: int, i: int| 0 <= k < info.head_count() && 0 <= i < 6 implies precedes(
        #[trigger] view.stats[k].bins[i],
        view.stats[k].bins[i + 1],
    ) by {
        let cells = slot_cells(info, state, k);
        lemma_heads_have_layers(info, k);
        assert(cells.len() == info.head_cells());
        assert(head_bins(mean, picks_of(ascending(cells)), view.stats[k].bins));
        lemma_head_bins_rise(mean, cells, view.stats[k].bins, kind);
    }
}

/// Where the mean of a cell and itself is that cell, the bins of a head
/// whose cells are all alike are, all seven, that one cell.
pub proof fn lemma_visual_constant_bins<M: Fn(u32, u32) -> u32>(
    info: ModelInfo,
    state: Seq<u32>,
    mean: M,
    view: VisualView,
    k: int,
    cell: u32,
)
    requires
        info.supported(),
        info.plottable(),
        bins_made(info, state, mean, view),
        0 <= k < info.head_count(),
        forall|c: int| 0 <= c < info.head_cells() ==> slot_cells(info, state, k)[c] == cell,
        forall|bin: u32| call_ensures(mean, (cell, cell), bin) ==> bin == cell,
    ensures
        forall|i: int| 0 <= i < 7 ==> #[trigger] view.stats[k].bins[i] == cell,
{
    let cells = slot_cells(info, state, k);
    lemma_heads_have_layers(info, k);
    assert(cells.len() == info.head_cells());
    assert(head_bins(mean, picks_of(ascending(cells)), view.stats[k].bins));
    lemma_constant_bins(mean, cells, cell, view.stats[k].bins);
}

/// A model that has a head has a layer, and each of its heads has at least
/// four cells.
proof fn lemma_heads_have_layers(info: ModelInfo, k: int)
    requires
        info.plottable(),
        0 <= k < info.head_count(),
    ensures
        info.num_layer >= 1,
        info.head_cells() >= 4,
{
    assert(info.num_layer >= 1) by (nonlinear_arith)
        requires
            0 <= k < info.num_layer * info.num_head,
            0 <= info.num_layer,
    ;
    assert(info.head_cells() >= 4) by (nonlinear_arith)
        requires
            info.head_size() >= 2,
            info.head_cells() == info.head_size() * info.head_size(),
    ;
}

/// Building a visual is a function of what it is built from: with
/// arithmetic that gives one result for one input, two visuals built from
/// the same geometry and state hold the same, or both fail alike.
pub proof fn lemma_same_input_same_visual<M: Fn(u32, u32) -> u32, G: Fn(u32, [u32; 7]) -> Tone>(
    info: ModelInfo,
    state: Seq<u32>,
    mean: M,
    grade: G,
    first: Result<StateVisual, VisualError>,
    second: Result<StateVisual, VisualError>,
)
    requires
        info.supported(),
        info.plottable(),
        one_mean(mean),
        one_grade(grade),
        exists|bins: Seq<[u32; 7]>, tones: Seq<Seq<Tone>>|
            graded(info, state, mean, grade, bins, tones) && outcome(first) == visual_of(
                info,
                bins,
                tones,
            ),
        exists|bins: Seq<[u32; 7]>, tones: Seq<Seq<Tone>>|
            graded(info, state, mean, grade, bins, tones) && outcome(second) == visual_of(
                info,
                bins,
                tones,
            ),
    ensures
        outcome(first) == outcome(second),
{
    let (bins, tones) = choose|bins: Seq<[u32; 7]>, tones: Seq<Seq<Tone>>|
        graded(info, state, mean, grade, bins, tones) && outcome(first) == visual_of(
            info,
            bins,
            tones,
        );
    let (other_bins, other_tones) = choose|bins: Seq<[u32; 7]>, tones: Seq<Seq<Tone>>|
        graded(info, state, mean, grade, bins, tones) && outcome(second) == visual_of(
            info,
            bins,
            tones,
        );
    lemma_graded_unique(info, state, mean, grade, bins, tones, other_bins, other_tones);
}

} // verus!
