//! The order statistics that calibrate a head's colours.
//!
//! Seven bins summarise a head: its least cell, its greatest cell, and five
//! quantiles between them. Each of the five is the mean of a cell of the
//! sorted head and the cell after it. This module finds those cells; taking
//! the mean of a pair is arithmetic on values and is left to the caller.
use vstd::prelude::*;
use crate::order::ascending;
use crate::order::lemma_total_order;
use crate::order::precedes;
use crate::order::sort_ascending;
use crate::order::total_order;

verus! {

/// The cells from which a head's seven bins are made, each pair in
/// ascending order.
#[derive(Clone, Copy, Debug, PartialEq, Eq)]
pub struct QuantilePicks {
    /// The least cell: the first bin.
    pub min: u32,
    /// The pair whose mean is the bin of the lowest half percent.
    pub low: (u32, u32),
    /// The pair whose mean is the first quartile.
    pub q1: (u32, u32),
    /// The pair whose mean is the median.
    pub median: (u32, u32),
    /// The pair whose mean is the third quartile.
    pub q3: (u32, u32),
    /// The pair whose mean is the bin of the highest half percent.
    pub high: (u32, u32),
    /// The greatest cell: the last bin.
    pub max: u32,
}

/// Index of the median's first cell among cells `0` to `last`: halfway,
/// rounded down.
pub open spec fn median_index(last: int) -> int {
    last / 2
}

/// Index of the first quartile's first cell: halfway between the first cell
/// and the median's, rounded down.
pub open spec fn q1_index(last: int) -> int {
    median_index(last) / 2
}

/// Index of the third quartile's first cell: halfway between the median's
/// and the last cell, rounded down.
pub open spec fn q3_index(last: int) -> int {
    (median_index(last) + last) / 2
}

/// Index of the lowest half percent's first cell: `last * 0.005`, rounded
/// down.
pub open spec fn low_index(last: int) -> int {
    last * 5 / 1000
}

/// Index of the highest half percent's first cell: `last * 0.995`, rounded
/// down.
pub open spec fn high_index(last: int) -> int {
    last * 995 / 1000
}

/// The cell at `index` and the cell after it.
pub open spec fn pair_at(sorted: Seq<u32>, index: int) -> (u32, u32) {
    (sorted[index], sorted[index + 1])
}

/// The picks of a head whose cells, in ascending order, are `sorted`.
pub open spec fn picks_of(sorted: Seq<u32>) -> QuantilePicks {
    let last = sorted.len() - 1;
    QuantilePicks {
        min: sorted[0],
        low: pair_at(sorted, low_index(last)),
        q1: pair_at(sorted, q1_index(last)),
        median: pair_at(sorted, median_index(last)),
        q3: pair_at(sorted, q3_index(last)),
        high: pair_at(sorted, high_index(last)),
        max: sorted[last],
    }
}

/// The five indices rise from the lowest half percent to the highest, and
/// each has a successor among the cells.
pub proof fn lemma_indices_ordered(last: int)
    requires
        last >= 1,
    ensures
        0 <= low_index(last) <= q1_index(last) <= median_index(last) <= q3_index(last)
            <= high_index(last) < last,
{
}

/// The picks of a head rise with their bins. The least cell precedes both
/// cells of every pair and the greatest follows them; within a pair the
/// first cell precedes the second; and from each pair to the next, in the
/// order of the bins, the first cells rise and so do the second cells.
pub proof fn lemma_picks_ordered(values: Seq<u32>)
    requires
        values.len() >= 2,
    ensures
        ({
            let p = picks_of(ascending(values));
            &&& precedes(p.min, p.low.0)
            &&& precedes(p.low.0, p.low.1)
            &&& precedes(p.q1.0, p.q1.1)
            &&& precedes(p.median.0, p.median.1)
            &&& precedes(p.q3.0, p.q3.1)
            &&& precedes(p.high.0, p.high.1)
            &&& precedes(p.high.1, p.max)
            &&& precedes(p.low.0, p.q1.0) && precedes(p.low.1, p.q1.1)
            &&& precedes(p.q1.0, p.median.0) && precedes(p.q1.1, p.median.1)
            &&& precedes(p.median.0, p.q3.0) && precedes(p.median.1, p.q3.1)
            &&& precedes(p.q3.0, p.high.0) && precedes(p.q3.1, p.high.1)
        }),
{
    let sorted = ascending(values);
    lemma_total_order();
    values.lemma_sort_by_ensures(total_order());
    values.to_multiset_ensures();
    sorted.to_multiset_ensures();
    lemma_indices_ordered(sorted.len() - 1);
    assert forall|i: int, j: int| 0 <= i <= j < sorted.len() implies precedes(
        sorted[i],
        sorted[j],
    ) by {
        if i < j {
            assert(total_order()(sorted[i], sorted[j]));
        }
    }
}

/// In a head whose cells are all alike, every pick is that one cell.
pub proof fn lemma_constant_picks(values: Seq<u32>, cell: u32)
    requires
        values.len() >= 2,
        forall|i: int| 0 <= i < values.len() ==> values[i] == cell,
    ensures
        picks_of(ascending(values)) == (QuantilePicks {
            min: cell,
            low: (cell, cell),
            q1: (cell, cell),
            median: (cell, cell),
            q3: (cell, cell),
            high: (cell, cell),
            max: cell,
        }),
{
    let sorted = ascending(values);
    lemma_total_order();
    values.lemma_sort_by_ensures(total_order());
    values.to_multiset_ensures();
    sorted.to_multiset_ensures();
    assert(sorted.len() == values.len());
    assert forall|i: int| 0 <= i < sorted.len() implies sorted[i] == cell by {
        assert(sorted.contains(sorted[i]));
        assert(values.contains(sorted[i]));
    }
    lemma_indices_ordered(sorted.len() - 1);
}

/// The picks of a head, and `None` for a head of fewer than two cells,
/// where no cell has a successor.
pub fn quantile_picks(values: &[u32]) -> (picks: Option<QuantilePicks>)
    ensures
        picks == if values@.len() >= 2 {
            Some(picks_of(ascending(values@)))
        } else {
            None
        },
{
    let count: usize = values.len();
    if count < 2 {
        return None;
    }
    let sorted = sort_ascending(values);
    proof {
        sorted@.to_multiset_ensures();
        values@.to_multiset_ensures();
        lemma_indices_ordered(count - 1);
    }
    let last: usize = count - 1;
    let median: usize = last / 2;
    let q1: usize = median / 2;
    let q3: usize = median + (last - median) / 2;
    let low: usize = last / 200;
    let high: usize = last - last / 200 - if last % 200 == 0 {
        0
    } else {
        1
    };
    Some(
        QuantilePicks {
            min: sorted[0],
            low: (sorted[low], sorted[low + 1]),
            q1: (sorted[q1], sorted[q1 + 1]),
            median: (sorted[median], sorted[median + 1]),
            q3: (sorted[q3], sorted[q3 + 1]),
            high: (sorted[high], sorted[high + 1]),
            max: sorted[last],
        },
    )
}

} // verus!
