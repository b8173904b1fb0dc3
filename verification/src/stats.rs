use crate::order::{arrange, arranged, lemma_arranged};
use crate::report::{greatest, highest, least, lowest};
use vstd::prelude::*;

verus! {

/// What many rolls of one notation came to.
#[derive(Debug, Clone, Copy, PartialEq, Eq)]
pub struct Summary {
    /// How many rolls were made.
    pub rolls: usize,
    /// The lowest sum.
    pub minimum: i32,
    /// The highest sum.
    pub maximum: i32,
    /// All sums added up.
    pub total: i128,
    /// Twice the median of the sums: twice the middle sum, or the two
    /// middle sums added.
    pub twice_median: i64,
}

/// `values` added up, without bounds.
pub open spec fn added(values: Seq<i32>) -> int
    decreases values.len(),
{
    if values.len() == 0 {
        0
    } else {
        added(values.drop_last()) + values.last()
    }
}

/// Twice the median of values that stand in ascending order.
pub open spec fn twice_middle(sorted: Seq<i32>) -> int
    recommends
        sorted.len() > 0,
{
    let middle = sorted.len() as int / 2;
    if sorted.len() % 2 == 0 {
        sorted[middle - 1] + sorted[middle]
    } else {
        2 * sorted[middle]
    }
}

/// The summary of `sums`.
pub open spec fn summary_of(sums: Seq<i32>) -> Summary
    recommends
        sums.len() > 0,
{
    Summary {
        rolls: sums.len() as usize,
        minimum: least(sums),
        maximum: greatest(sums),
        total: added(sums) as i128,
        twice_median: twice_middle(arranged(sums, false)) as i64,
    }
}

/// A sum of 32-bit values stays within their number times the range.
pub proof fn lemma_added_bounds(values: Seq<i32>)
    ensures
        -0x8000_0000 * values.len() <= added(values) <= 0x7fff_ffff * values.len(),
    decreases values.len(),
{
    if values.len() > 0 {
        lemma_added_bounds(values.drop_last());
    }
}

/// Adds up `values` without loss.
pub fn add_up(values: &[i32]) -> (total: i128)
    ensures
        total == added(values@),
{
    let mut total: i128 = 0;
    let mut index: usize = 0;
    while index < values.len()
        invariant
            index <= values.len(),
            total == added(values@.take(index as int)),
        decreases values.len() - index,
    {
        proof {
            assert(values@.take(index + 1).drop_last() =~= values@.take(index as int));
            lemma_added_bounds(values@.take(index as int));
        }
        total = total + values[index] as i128;
        index += 1;
    }
    assert(values@.take(index as int) =~= values@);
    total
}

/// Sums up many rolls: their number, the lowest and the highest sum, the
/// total, and twice the median. `None` where there is no roll.
pub fn summarize(sums: &Vec<i32>) -> (summary: Option<Summary>)
    ensures
        summary == if sums@.len() == 0 {
            None
        } else {
            Some(summary_of(sums@))
        },
{
    if sums.len() == 0 {
        return None;
    }
    let sorted = arrange(sums, false);
    proof {
        lemma_arranged(sums@, false);
        lemma_added_bounds(sums@);
    }
    let middle = sorted.len() / 2;
    let twice_median: i64 = if sorted.len() % 2 == 0 {
        sorted[middle - 1] as i64 + sorted[middle] as i64
    } else {
        2 * (sorted[middle] as i64)
    };
    Some(
        Summary {
            rolls: sums.len(),
            minimum: lowest(sums.as_slice()),
            maximum: highest(sums.as_slice()),
            total: add_up(sums.as_slice()),
            twice_median,
        },
    )
}

/// How often `value` stands in `values`.
pub open spec fn occurrences(values: Seq<i32>, value: i32) -> nat
    decreases values.len(),
{
    if values.len() == 0 {
        0
    } else {
        occurrences(values.drop_last(), value) + if values.last() == value {
            1nat
        } else {
            0nat
        }
    }
}

/// Whether `counts` holds an entry for `value`.
pub open spec fn counted(counts: Seq<(i32, usize)>, value: i32) -> bool {
    exists|k: int| 0 <= k < counts.len() && (#[trigger] counts[k]).0 == value
}

/// `counts` tells of `values` how often each value stands in them: the
/// values that occur, each once and in ascending order, each with the
/// number of its occurrences.
pub open spec fn counts_of(values: Seq<i32>, counts: Seq<(i32, usize)>) -> bool {
    &&& forall|k: int|
        0 <= k < counts.len() ==> (#[trigger] counts[k]).1 == occurrences(values, counts[k].0)
            && counts[k].1 > 0
    &&& forall|j: int, k: int| 0 <= j < k < counts.len() ==> counts[j].0 < counts[k].0
    &&& forall|i: int| 0 <= i < values.len() ==> counted(counts, #[trigger] values[i])
}

/// A value that stands nowhere in `values` occurs zero times.
pub proof fn lemma_absent(values: Seq<i32>, value: i32)
    requires
        forall|i: int| 0 <= i < values.len() ==> values[i] != value,
    ensures
        occurrences(values, value) == 0,
    decreases values.len(),
{
    if values.len() > 0 {
        assert(values.last() == values[values.len() - 1]);
        assert forall|i: int| 0 <= i < values.drop_last().len() implies values.drop_last()[i]
            != value by {
            assert(values.drop_last()[i] == values[i]);
        }
        lemma_absent(values.drop_last(), value);
    }
}

/// The order of the values does not change how often each occurs.
pub proof fn lemma_occurrences_arranged(values: Seq<i32>, value: i32)
    ensures
        occurrences(arranged(values, false), value) == occurrences(values, value),
{
    lemma_arranged(values, false);
    lemma_occurrences_count(values, value);
    lemma_occurrences_count(arranged(values, false), value);
}

/// The occurrences of a value are its count in the multiset of values.
pub proof fn lemma_occurrences_count(values: Seq<i32>, value: i32)
    ensures
        occurrences(values, value) == values.to_multiset().count(value),
    decreases values.len(),
{
    broadcast use vstd::seq_lib::group_to_multiset_ensures;

    if values.len() == 0 {
        assert(values.to_multiset().len() == 0);
        if values.to_multiset().count(value) > 0 {
            assert(values.contains(value));
        }
    } else {
        lemma_occurrences_count(values.drop_last(), value);
        assert(values =~= values.drop_last().push(values.last()));
        vstd::seq_lib::to_multiset_build(values.drop_last(), values.last());
    }
}

/// Counts how often each sum was rolled.
pub fn distribution(sums: &Vec<i32>) -> (counts: Vec<(i32, usize)>)
    ensures
        counts_of(sums@, counts@),
{
    let sorted = arrange(sums, false);
    let mut counts: Vec<(i32, usize)> = Vec::new();
    let mut index: usize = 0;
    proof {
        lemma_arranged(sums@, false);
        assert(sorted@.take(0) =~= Seq::<i32>::empty());
    }
    while index < sorted.len()
        invariant
            index <= sorted.len(),
            sorted@ == arranged(sums@, false),
            forall|i: int, j: int| 0 <= i < j < sorted@.len() ==> sorted@[i] <= sorted@[j],
            counts_of(sorted@.take(index as int), counts@),
            index > 0 ==> counts@.len() > 0 && counts@.last().0 == sorted@[index - 1],
            index == 0 ==> counts@.len() == 0,
        decreases sorted.len() - index,
    {
        let value = sorted[index];
        let ghost before = sorted@.take(index as int);
        let ghost after = sorted@.take(index + 1);
        let ghost old_counts = counts@;
        proof {
            assert(after.drop_last() =~= before);
            assert(after.last() == value);
        }
        let extend = index > 0 && counts[counts.len() - 1].0 == value;
        if extend {
            let last = counts.len() - 1;
            let seen = counts[last].1;
            proof {
                lemma_occurrences_bound(before, value);
            }
            counts.set(last, (value, seen + 1));
            proof {
                assert forall|k: int| 0 <= k < counts@.len() implies (#[trigger] counts@[k]).1
                    == occurrences(after, counts@[k].0) && counts@[k].1 > 0 by {
                    if k < last {
                        assert(counts@[k] == old_counts[k]);
                        assert(old_counts[k].0 < old_counts[last as int].0);
                    }
                }
                assert forall|i: int| 0 <= i < after.len() implies counted(
                    counts@,
                    #[trigger] after[i],
                ) by {
                    if i < before.len() {
                        assert(after[i] == before[i]);
                        assert(counted(old_counts, before[i]));
                        let k = choose|k: int|
                            0 <= k < old_counts.len() && (#[trigger] old_counts[k]).0
                                == before[i];
                        assert(counts@[k].0 == after[i]);
                    } else {
                        assert(counts@[last as int].0 == after[i]);
                    }
                }
            }
        } else {
            proof {
                assert forall|i: int| 0 <= i < before.len() implies before[i] != value by {
                    assert(before[i] == sorted@[i]);
                    if index > 0 {
                        assert(sorted@[i] <= sorted@[index - 1]);
                        assert(sorted@[index - 1] <= sorted@[index as int]);
                    }
                }
                lemma_absent(before, value);
            }
            counts.push((value, 1));
            proof {
                assert forall|j: int, k: int| 0 <= j < k < counts@.len() implies counts@[j].0
                    < counts@[k].0 by {
                    if k == counts@.len() - 1 {
                        assert(counts@[j] == old_counts[j]);
                        assert(old_counts[j].1 == occurrences(before, old_counts[j].0));
                        if old_counts[j].0 >= value {
                            assert(old_counts[j].0 <= old_counts.last().0) by {
                                if j < old_counts.len() - 1 {
                                    assert(old_counts[j].0 < old_counts[old_counts.len() - 1].0);
                                }
                            }
                            assert(old_counts.last().0 == sorted@[index - 1]);
                            assert(sorted@[index - 1] <= sorted@[index as int]);
                        }
                    } else {
                        assert(counts@[j] == old_counts[j]);
                        assert(counts@[k] == old_counts[k]);
                    }
                }
                assert forall|k: int| 0 <= k < counts@.len() implies (#[trigger] counts@[k]).1
                    == occurrences(after, counts@[k].0) && counts@[k].1 > 0 by {
                    if k < old_counts.len() {
                        assert(counts@[k] == old_counts[k]);
                        assert(counts@[k].0 < counts@[counts@.len() - 1].0);
                    }
                }
                assert forall|i: int| 0 <= i < after.len() implies counted(
                    counts@,
                    #[trigger] after[i],
                ) by {
                    if i < before.len() {
                        assert(after[i] == before[i]);
                        assert(counted(old_counts, before[i]));
                        let k = choose|k: int|
                            0 <= k < old_counts.len() && (#[trigger] old_counts[k]).0
                                == before[i];
                        assert(counts@[k] == old_counts[k]);
                    } else {
                        assert(counts@[counts@.len() - 1].0 == after[i]);
                    }
                }
            }
        }
        index += 1;
    }
    proof {
        assert(sorted@.take(index as int) =~= sorted@);
        assert forall|k: int| 0 <= k < counts@.len() implies (#[trigger] counts@[k]).1
            == occurrences(sums@, counts@[k].0) && counts@[k].1 > 0 by {
            lemma_occurrences_arranged(sums@, counts@[k].0);
        }
        assert forall|i: int| 0 <= i < sums@.len() implies counted(
            counts@,
            #[trigger] sums@[i],
        ) by {
            broadcast use vstd::seq_lib::group_to_multiset_ensures;

            assert(sums@.contains(sums@[i]));
            assert(sorted@.to_multiset().count(sums@[i]) > 0);
            assert(sorted@.contains(sums@[i]));
            let at = choose|at: int| 0 <= at < sorted@.len() && sorted@[at] == sums@[i];
            assert(counted(counts@, sorted@[at]));
        }
    }
    counts
}

/// A value occurs no more often than there are values.
pub proof fn lemma_occurrences_bound(values: Seq<i32>, value: i32)
    ensures
        occurrences(values, value) <= values.len(),
    decreases values.len(),
{
    if values.len() > 0 {
        lemma_occurrences_bound(values.drop_last(), value);
    }
}

} // verus!
