//! The order of cells: the IEEE 754 total order, read off the bit patterns.
//!
//! In that order the negative values come first, from the largest magnitude
//! to negative zero, then the positive ones from zero upwards; a not-a-number
//! lies beyond the infinity of its sign. No two bit patterns are equivalent.
use vstd::prelude::*;
use vstd::relations::sorted_by;
use vstd::relations::total_ordering;
use vstd::seq_lib::lemma_multiset_commutative;
use vstd::seq_lib::lemma_sorted_unique;
use vstd::seq_lib::to_multiset_build;

verus! {

/// The place of a bit pattern in the total order: patterns compare as their
/// ranks do. A pattern with a clear sign bit ranks as itself; one with the
/// sign bit set ranks below zero, the further the larger its magnitude.
pub open spec fn rank(bits: u32) -> int {
    if bits < 0x8000_0000 {
        bits as int
    } else {
        0x7fff_ffff - bits
    }
}

/// `a` comes no later than `b`.
pub open spec fn precedes(a: u32, b: u32) -> bool {
    rank(a) <= rank(b)
}

/// The total order as a relation.
pub open spec fn total_order() -> spec_fn(u32, u32) -> bool {
    |a: u32, b: u32| precedes(a, b)
}

/// The cells of `values` from the first to the last in the total order.
pub open spec fn ascending(values: Seq<u32>) -> Seq<u32> {
    values.sort_by(total_order())
}

/// The place of a bit pattern in the total order.
pub fn rank_of(bits: u32) -> (place: i64)
    ensures
        place == rank(bits),
{
    if bits < 0x8000_0000 {
        bits as i64
    } else {
        0x7fff_ffff - (bits as i64)
    }
}

/// Distinct bit patterns have distinct ranks, so the order is total: any
/// two patterns compare, and only a pattern itself is equivalent to it.
pub proof fn lemma_total_order()
    ensures
        total_ordering(total_order()),
        forall|a: u32, b: u32| rank(a) == rank(b) ==> a == b,
{
    let leq = total_order();
    assert forall|a: u32, b: u32| #[trigger] leq(a, b) && #[trigger] leq(b, a) implies a == b by {}
    assert forall|a: u32, b: u32, c: u32| #[trigger] leq(a, b) && #[trigger] leq(b, c) implies leq(
        a,
        c,
    ) by {}
    assert forall|a: u32, b: u32| #[trigger] leq(a, b) || #[trigger] leq(b, a) by {}
    assert forall|a: u32| #[trigger] leq(a, a) by {}
}

/// Merges two ascending runs into one.
fn merge(left: &Vec<u32>, right: &Vec<u32>) -> (merged: Vec<u32>)
    requires
        sorted_by(left@, total_order()),
        sorted_by(right@, total_order()),
    ensures
        sorted_by(merged@, total_order()),
        merged@.to_multiset() == left@.to_multiset().add(right@.to_multiset()),
{
    broadcast use vstd::multiset::group_multiset_axioms;

    let mut merged: Vec<u32> = Vec::new();
    let mut i: usize = 0;
    let mut j: usize = 0;
    proof {
        let none = Seq::<u32>::empty();
        assert(left@.take(0) =~= none);
        assert(right@.take(0) =~= none);
        assert(merged@ =~= none + none);
        lemma_multiset_commutative(none, none);
        assert(merged@.to_multiset() =~= left@.take(0).to_multiset().add(
            right@.take(0).to_multiset(),
        ));
    }
    while i < left.len() || j < right.len()
        invariant
            i <= left.len(),
            j <= right.len(),
            sorted_by(left@, total_order()),
            sorted_by(right@, total_order()),
            sorted_by(merged@, total_order()),
            merged@.to_multiset() == left@.take(i as int).to_multiset().add(
                right@.take(j as int).to_multiset(),
            ),
            forall|m: int, a: int|
                0 <= m < merged@.len() && i <= a < left@.len() ==> precedes(
                    #[trigger] merged@[m],
                    #[trigger] left@[a],
                ),
            forall|m: int, b: int|
                0 <= m < merged@.len() && j <= b < right@.len() ==> precedes(
                    #[trigger] merged@[m],
                    #[trigger] right@[b],
                ),
        decreases (left.len() - i) + (right.len() - j),
    {
        let ghost before = merged@;
        let from_left = if i == left.len() {
            false
        } else if j == right.len() {
            true
        } else {
            rank_of(left[i]) <= rank_of(right[j])
        };
        if from_left {
            let cell = left[i];
            merged.push(cell);
            proof {
                assert(left@.take(i + 1) =~= left@.take(i as int).push(cell));
                assert(merged@ == before.push(cell));
                to_multiset_build(before, cell);
                to_multiset_build(left@.take(i as int), cell);
                assert(merged@.to_multiset() =~= left@.take(i + 1).to_multiset().add(
                    right@.take(j as int).to_multiset(),
                ));
                assert forall|m: int, a: int|
                    0 <= m < merged@.len() && i + 1 <= a < left@.len() implies precedes(
                    #[trigger] merged@[m],
                    #[trigger] left@[a],
                ) by {
                    if m == before.len() {
                        assert(total_order()(left@[i as int], left@[a]));
                    }
                }
                assert forall|m: int, b: int|
                    0 <= m < merged@.len() && j <= b < right@.len() implies precedes(
                    #[trigger] merged@[m],
                    #[trigger] right@[b],
                ) by {
                    if m == before.len() {
                        assert(total_order()(right@[j as int], right@[b]) || b == j);
                    }
                }
                assert forall|m: int, n: int| 0 <= m < n < merged@.len() implies total_order()(
                    merged@[m],
                    merged@[n],
                ) by {
                    if n < before.len() {
                        assert(total_order()(before[m], before[n]));
                    } else {
                        assert(precedes(before[m], left@[i as int]));
                    }
                }
            }
            i += 1;
        } else {
            let cell = right[j];
            merged.push(cell);
            proof {
                assert(right@.take(j + 1) =~= right@.take(j as int).push(cell));
                assert(merged@ == before.push(cell));
                to_multiset_build(before, cell);
                to_multiset_build(right@.take(j as int), cell);
                assert(merged@.to_multiset() =~= left@.take(i as int).to_multiset().add(
                    right@.take(j + 1).to_multiset(),
                ));
                assert forall|m: int, b: int|
                    0 <= m < merged@.len() && j + 1 <= b < right@.len() implies precedes(
                    #[trigger] merged@[m],
                    #[trigger] right@[b],
                ) by {
                    if m == before.len() {
                        assert(total_order()(right@[j as int], right@[b]));
                    }
                }
                assert forall|m: int, a: int|
                    0 <= m < merged@.len() && i <= a < left@.len() implies precedes(
                    #[trigger] merged@[m],
                    #[trigger] left@[a],
                ) by {
                    if m == before.len() {
                        assert(total_order()(left@[i as int], left@[a]) || a == i);
                    }
                }
                assert forall|m: int, n: int| 0 <= m < n < merged@.len() implies total_order()(
                    merged@[m],
                    merged@[n],
                ) by {
                    if n < before.len() {
                        assert(total_order()(before[m], before[n]));
                    } else {
                        assert(precedes(before[m], right@[j as int]));
                    }
                }
            }
            j += 1;
        }
    }
    proof {
        assert(left@.take(i as int) =~= left@);
        assert(right@.take(j as int) =~= right@);
    }
    merged
}

/// The cells of `values` from index `from` up to `to`, in ascending order:
/// each half is sorted by itself, and the two are merged.
fn sort_range(values: &[u32], from: usize, to: usize) -> (sorted: Vec<u32>)
    requires
        from <= to <= values@.len(),
    ensures
        sorted_by(sorted@, total_order()),
        sorted@.to_multiset() == values@.subrange(from as int, to as int).to_multiset(),
    decreases to - from,
{
    let ghost range = values@.subrange(from as int, to as int);
    if to - from == 0 {
        let sorted: Vec<u32> = Vec::new();
        assert(sorted@ =~= range);
        sorted
    } else if to - from == 1 {
        let mut sorted: Vec<u32> = Vec::new();
        sorted.push(values[from]);
        assert(sorted@ =~= range);
        sorted
    } else {
        let middle: usize = from + (to - from) / 2;
        let left = sort_range(values, from, middle);
        let right = sort_range(values, middle, to);
        proof {
            let first = values@.subrange(from as int, middle as int);
            let second = values@.subrange(middle as int, to as int);
            assert(range =~= first + second);
            lemma_multiset_commutative(first, second);
        }
        merge(&left, &right)
    }
}

/// The cells of `values` in ascending order.
pub fn sort_ascending(values: &[u32]) -> (sorted: Vec<u32>)
    ensures
        sorted@ == ascending(values@),
        sorted_by(sorted@, total_order()),
        sorted@.to_multiset() == values@.to_multiset(),
{
    let sorted = sort_range(values, 0, values.len());
    proof {
        assert(values@.subrange(0, values@.len() as int) =~= values@);
        lemma_total_order();
        values@.lemma_sort_by_ensures(total_order());
        lemma_sorted_unique(sorted@, ascending(values@), total_order());
    }
    sorted
}

} // verus!
