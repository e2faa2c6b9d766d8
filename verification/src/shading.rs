//! Bins and tones of every head, with the caller's arithmetic.
//!
//! Two steps on the way from a state to its pictures are arithmetic on the
//! values of cells: a quantile is the mean of two cells, and a cell's tone
//! is its value graded against the bins of its head. The caller hands both
//! in as functions on bit patterns; this module says to which cells they
//! are applied and where their results go.
use vstd::prelude::*;
use crate::error::VisualError;
use crate::geometry::lemma_drawable_cells;
use crate::geometry::ModelInfo;
use crate::layout::decode;
use crate::layout::decoded;
use crate::layout::slot_cells;
use crate::order::ascending;
use crate::order::lemma_total_order;
use crate::order::precedes;
use crate::order::total_order;
use crate::quantile::high_index;
use crate::quantile::lemma_constant_picks;
use crate::quantile::lemma_indices_ordered;
use crate::quantile::lemma_picks_ordered;
use crate::quantile::low_index;
use crate::quantile::median_index;
use crate::quantile::picks_of;
use crate::quantile::q1_index;
use crate::quantile::q3_index;
use crate::quantile::quantile_picks;
use crate::quantile::QuantilePicks;
use crate::render::Tone;

verus! {

/// The bins and the tones of each head, layer by layer and within a layer
/// head by head.
#[derive(Clone, Debug)]
pub struct Shading {
    pub bins: Vec<[u32; 7]>,
    pub tones: Vec<Vec<Tone>>,
}

/// The tones of each head.
pub open spec fn tone_rows(tones: Seq<Vec<Tone>>) -> Seq<Seq<Tone>> {
    Seq::new(tones.len(), |k: int| tones[k]@)
}

/// `bins` are the seven bins of a head with the given picks: the least
/// cell, what `mean` gave for each of the five pairs, and the greatest
/// cell.
pub open spec fn head_bins<M: Fn(u32, u32) -> u32>(
    mean: M,
    picks: QuantilePicks,
    bins: [u32; 7],
) -> bool {
    &&& bins[0] == picks.min
    &&& call_ensures(mean, (picks.low.0, picks.low.1), bins[1])
    &&& call_ensures(mean, (picks.q1.0, picks.q1.1), bins[2])
    &&& call_ensures(mean, (picks.median.0, picks.median.1), bins[3])
    &&& call_ensures(mean, (picks.q3.0, picks.q3.1), bins[4])
    &&& call_ensures(mean, (picks.high.0, picks.high.1), bins[5])
    &&& bins[6] == picks.max
}

/// `tones` are the tones of a head with the given cells and bins: for each
/// cell what `grade` gave for it and the bins.
pub open spec fn head_tones<G: Fn(u32, [u32; 7]) -> Tone>(
    grade: G,
    cells: Seq<u32>,
    bins: [u32; 7],
    tones: Seq<Tone>,
) -> bool {
    &&& tones.len() == cells.len()
    &&& forall|c: int|
        0 <= c < cells.len() ==> call_ensures(grade, (cells[c], bins), #[trigger] tones[c])
}

/// `bins` and `tones` are those of the heads of `state`: one entry each
/// for every head, made from the head's cells.
pub open spec fn graded<M: Fn(u32, u32) -> u32, G: Fn(u32, [u32; 7]) -> Tone>(
    info: ModelInfo,
    state: Seq<u32>,
    mean: M,
    grade: G,
    bins: Seq<[u32; 7]>,
    tones: Seq<Seq<Tone>>,
) -> bool {
    &&& bins.len() == info.head_count()
    &&& tones.len() == info.head_count()
    &&& forall|k: int|
        0 <= k < info.head_count() ==> {
            let cells = slot_cells(info, state, k);
            &&& head_bins(mean, picks_of(ascending(cells)), #[trigger] bins[k])
            &&& head_tones(grade, cells, bins[k], tones[k])
        }
}

/// Finds the bins and the tones of every head of `state`.
///
/// The oldest generation is not decoded and has neither. For the others the
/// geometry must be plottable; a model without layers has no head and so
/// neither bins nor tones. Each head's cells are sorted, its least and
/// greatest cell become its first and last bin, `mean` is applied to each of
/// the five picked pairs for the bins between, and `grade` to each cell and
/// the head's bins for the cell's tone.
pub fn shade<M: Fn(u32, u32) -> u32, G: Fn(u32, [u32; 7]) -> Tone>(
    info: &ModelInfo,
    state: &[u32],
    mean: &M,
    grade: &G,
) -> (result: Result<Shading, VisualError>)
    requires
        forall|a: u32, b: u32| call_requires(*mean, (a, b)),
        forall|cell: u32, bins: [u32; 7]| call_requires(*grade, (cell, bins)),
    ensures
        match result {
            Ok(shading) => if info.supported() {
                info.plottable() && graded(
                    *info,
                    state@,
                    *mean,
                    *grade,
                    shading.bins@,
                    tone_rows(shading.tones@),
                )
            } else {
                shading.bins@.len() == 0 && shading.tones@.len() == 0
            },
            Err(error) => info.supported() && !info.plottable() && error
                == VisualError::Geometry,
        },
{
    let heads = match decode(info, state) {
        Ok(heads) => heads,
        Err(error) => {
            return Err(error);
        },
    };
    let mut bins: Vec<[u32; 7]> = Vec::with_capacity(heads.len());
    let mut tones: Vec<Vec<Tone>> = Vec::with_capacity(heads.len());
    if !info.is_supported() || info.num_layer == 0 {
        assert(info.num_layer == 0 ==> info.head_count() == 0) by (nonlinear_arith)
            requires
                info.head_count() == info.num_layer * info.num_head,
        ;
        return Ok(Shading { bins, tones });
    }
    proof {
        lemma_drawable_cells(info.head_size());
        assert(info.head_cells() >= 4) by (nonlinear_arith)
            requires
                info.head_size() >= 2,
                info.head_cells() == info.head_size() * info.head_size(),
        ;
    }
    let mut k: usize = 0;
    while k < heads.len()
        invariant
            forall|a: u32, b: u32| call_requires(*mean, (a, b)),
            forall|cell: u32, bins: [u32; 7]| call_requires(*grade, (cell, bins)),
            info.supported(),
            info.plottable(),
            info.num_layer >= 1,
            info.head_cells() >= 4,
            decoded(*info, state@, heads@),
            k <= heads.len(),
            bins@.len() == k,
            tones@.len() == k,
            forall|j: int|
                0 <= j < k ==> {
                    let cells = slot_cells(*info, state@, j);
                    &&& head_bins(*mean, picks_of(ascending(cells)), #[trigger] bins@[j])
                    &&& head_tones(*grade, cells, bins@[j], tones@[j]@)
                },
        decreases heads.len() - k,
    {
        let head = &heads[k];
        let ghost cells = slot_cells(*info, state@, k as int);
        assert(head.cells@ == cells);
        let picks = match quantile_picks(head.cells.as_slice()) {
            Some(picks) => picks,
            None => {
                assert(false);
                return Err(VisualError::Geometry);
            },
        };
        let head_bins: [u32; 7] = [
            picks.min,
            mean(picks.low.0, picks.low.1),
            mean(picks.q1.0, picks.q1.1),
            mean(picks.median.0, picks.median.1),
            mean(picks.q3.0, picks.q3.1),
            mean(picks.high.0, picks.high.1),
            picks.max,
        ];
        let mut head_tones: Vec<Tone> = Vec::with_capacity(head.cells.len());
        let mut c: usize = 0;
        while c < head.cells.len()
            invariant
                forall|cell: u32, bins: [u32; 7]| call_requires(*grade, (cell, bins)),
                head.cells@ == cells,
                c <= head.cells@.len(),
                head_tones@.len() == c,
                forall|i: int|
                    0 <= i < c ==> call_ensures(
                        *grade,
                        (cells[i], head_bins),
                        #[trigger] head_tones@[i],
                    ),
            decreases head.cells@.len() - c,
        {
            head_tones.push(grade(head.cells[c], head_bins));
            c += 1;
        }
        bins.push(head_bins);
        tones.push(head_tones);
        k += 1;
    }
    proof {
        assert(tone_rows(tones@).len() == info.head_count());
        assert forall|j: int| 0 <= j < info.head_count() implies {
            let cells = slot_cells(*info, state@, j);
            &&& head_bins(*mean, picks_of(ascending(cells)), #[trigger] bins@[j])
            &&& head_tones(*grade, cells, bins@[j], tone_rows(tones@)[j])
        } by {
            assert(tone_rows(tones@)[j] == tones@[j]@);
        }
    }
    Ok(Shading { bins, tones })
}

/// `mean` gives one result for each pair of cells.
pub open spec fn one_mean<M: Fn(u32, u32) -> u32>(mean: M) -> bool {
    forall|a: u32, b: u32, first: u32, second: u32|
        call_ensures(mean, (a, b), first) && call_ensures(mean, (a, b), second) ==> first
            == second
}

/// `grade` gives one tone for each cell and bins.
pub open spec fn one_grade<G: Fn(u32, [u32; 7]) -> Tone>(grade: G) -> bool {
    forall|cell: u32, bins: [u32; 7], first: Tone, second: Tone|
        call_ensures(grade, (cell, bins), first) && call_ensures(grade, (cell, bins), second)
            ==> first == second
}

/// With arithmetic that gives one result for one input, a state has one
/// shading: the bins and the tones of its heads are determined by the
/// geometry and the state.
pub proof fn lemma_graded_unique<M: Fn(u32, u32) -> u32, G: Fn(u32, [u32; 7]) -> Tone>(
    info: ModelInfo,
    state: Seq<u32>,
    mean: M,
    grade: G,
    bins: Seq<[u32; 7]>,
    tones: Seq<Seq<Tone>>,
    other_bins: Seq<[u32; 7]>,
    other_tones: Seq<Seq<Tone>>,
)
    requires
        one_mean(mean),
        one_grade(grade),
        graded(info, state, mean, grade, bins, tones),
        graded(info, state, mean, grade, other_bins, other_tones),
    ensures
        bins == other_bins,
        tones == other_tones,
{
    assert forall|k: int| 0 <= k < bins.len() implies bins[k] == other_bins[k] && tones[k]
        == other_tones[k] by {
        let cells = slot_cells(info, state, k);
        let picks = picks_of(ascending(cells));
        assert(head_bins(mean, picks, bins[k]));
        assert(head_bins(mean, picks, other_bins[k]));
        assert(bins[k] =~= other_bins[k]);
        assert(head_tones(grade, cells, bins[k], tones[k]));
        assert(head_tones(grade, cells, other_bins[k], other_tones[k]));
        assert(tones[k] =~= other_tones[k]);
    }
    assert(bins =~= other_bins);
    assert(tones =~= other_tones);
}

/// A bin lies between the two cells of its pair.
pub open spec fn between(pair: (u32, u32), bin: u32) -> bool {
    precedes(pair.0, bin) && precedes(bin, pair.1)
}

/// Where every mean lies between the two cells it was taken of, and one
/// pair taken twice has one mean, the seven bins of a head rise from its
/// least cell to its greatest.
pub proof fn lemma_bins_rise(values: Seq<u32>, bins: [u32; 7])
    requires
        values.len() >= 2,
        ({
            let p = picks_of(ascending(values));
            &&& bins[0] == p.min
            &&& bins[6] == p.max
            &&& between(p.low, bins[1])
            &&& between(p.q1, bins[2])
            &&& between(p.median, bins[3])
            &&& between(p.q3, bins[4])
            &&& between(p.high, bins[5])
            &&& p.low == p.q1 ==> bins[1] == bins[2]
            &&& p.q1 == p.median ==> bins[2] == bins[3]
            &&& p.median == p.q3 ==> bins[3] == bins[4]
            &&& p.q3 == p.high ==> bins[4] == bins[5]
        }),
    ensures
        forall|i: int| 0 <= i < 6 ==> precedes(#[trigger] bins[i], bins[i + 1]),
{
    let sorted = ascending(values);
    let last = sorted.len() - 1;
    lemma_total_order();
    values.lemma_sort_by_ensures(total_order());
    values.to_multiset_ensures();
    sorted.to_multiset_ensures();
    lemma_indices_ordered(last);
    lemma_picks_ordered(values);
    assert forall|i: int, j: int| 0 <= i <= j < sorted.len() implies precedes(
        sorted[i],
        sorted[j],
    ) by {
        if i < j {
            assert(total_order()(sorted[i], sorted[j]));
        }
    }
    let low = low_index(last);
    let q1 = q1_index(last);
    let median = median_index(last);
    let q3 = q3_index(last);
    let high = high_index(last);
    assert(precedes(bins[0], bins[1]));
    assert(precedes(bins[1], bins[2])) by {
        if low < q1 {
            assert(precedes(sorted[low + 1], sorted[q1]));
        }
    }
    assert(precedes(bins[2], bins[3])) by {
        if q1 < median {
            assert(precedes(sorted[q1 + 1], sorted[median]));
        }
    }
    assert(precedes(bins[3], bins[4])) by {
        if median < q3 {
            assert(precedes(sorted[median + 1], sorted[q3]));
        }
    }
    assert(precedes(bins[4], bins[5])) by {
        if q3 < high {
            assert(precedes(sorted[q3 + 1], sorted[high]));
        }
    }
    assert(precedes(bins[5], bins[6]));
}

/// Where the cells of a head all belong to a kind of cell on which `mean`
/// lies between its two arguments, and `mean` gives one result for one
/// pair, the seven bins that were made of the head with `mean` rise.
pub proof fn lemma_head_bins_rise<M: Fn(u32, u32) -> u32>(
    mean: M,
    values: Seq<u32>,
    bins: [u32; 7],
    kind: spec_fn(u32) -> bool,
)
    requires
        values.len() >= 2,
        head_bins(mean, picks_of(ascending(values)), bins),
        one_mean(mean),
        forall|i: int| 0 <= i < values.len() ==> kind(#[trigger] values[i]),
        forall|a: u32, b: u32, bin: u32|
            kind(a) && kind(b) && precedes(a, b) && #[trigger] call_ensures(mean, (a, b), bin)
                ==> between((a, b), bin),
    ensures
        forall|i: int| 0 <= i < 6 ==> precedes(#[trigger] bins[i], bins[i + 1]),
{
    let sorted = ascending(values);
    let last = sorted.len() - 1;
    lemma_total_order();
    values.lemma_sort_by_ensures(total_order());
    values.to_multiset_ensures();
    sorted.to_multiset_ensures();
    lemma_indices_ordered(last);
    lemma_picks_ordered(values);
    assert forall|i: int| 0 <= i < sorted.len() implies kind(#[trigger] sorted[i]) by {
        assert(sorted.contains(sorted[i]));
        assert(values.contains(sorted[i]));
        let j = choose|j: int| 0 <= j < values.len() && values[j] == sorted[i];
        assert(kind(values[j]));
    }
    let p = picks_of(sorted);
    assert(kind(p.low.0) && kind(p.low.1)) by {
        assert(kind(sorted[low_index(last)]) && kind(sorted[low_index(last) + 1]));
    }
    assert(kind(p.q1.0) && kind(p.q1.1)) by {
        assert(kind(sorted[q1_index(last)]) && kind(sorted[q1_index(last) + 1]));
    }
    assert(kind(p.median.0) && kind(p.median.1)) by {
        assert(kind(sorted[median_index(last)]) && kind(sorted[median_index(last) + 1]));
    }
    assert(kind(p.q3.0) && kind(p.q3.1)) by {
        assert(kind(sorted[q3_index(last)]) && kind(sorted[q3_index(last) + 1]));
    }
    assert(kind(p.high.0) && kind(p.high.1)) by {
        assert(kind(sorted[high_index(last)]) && kind(sorted[high_index(last) + 1]));
    }
    lemma_bins_rise(values, bins);
}

/// Where the mean of a cell and itself is that cell, all seven bins of a
/// head whose cells are all alike are that one cell.
pub proof fn lemma_constant_bins<M: Fn(u32, u32) -> u32>(
    mean: M,
    values: Seq<u32>,
    cell: u32,
    bins: [u32; 7],
)
    requires
        values.len() >= 2,
        forall|i: int| 0 <= i < values.len() ==> values[i] == cell,
        head_bins(mean, picks_of(ascending(values)), bins),
        forall|bin: u32| call_ensures(mean, (cell, cell), bin) ==> bin == cell,
    ensures
        forall|i: int| 0 <= i < 7 ==> #[trigger] bins[i] == cell,
{
    lemma_constant_picks(values, cell);
}

} // verus!
