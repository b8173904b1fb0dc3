use vstd::prelude::*;
use vstd::relations::{
    antisymmetric, reflexive, sorted_by, strongly_connected, total_ordering, transitive,
};
use vstd::seq_lib::{lemma_sorted_unique, to_multiset_build, to_multiset_insert};

verus! {

/// The order in which dice are arranged: from the highest down when
/// `descending`, from the lowest up otherwise.
pub open spec fn precedes(descending: bool) -> spec_fn(i32, i32) -> bool {
    |a: i32, b: i32|
        if descending {
            a >= b
        } else {
            a <= b
        }
}

/// `rolls` put in order.
pub open spec fn arranged(rolls: Seq<i32>, descending: bool) -> Seq<i32> {
    rolls.sort_by(precedes(descending))
}

/// Both orders are total.
pub proof fn lemma_precedes_is_total(descending: bool)
    ensures
        total_ordering(precedes(descending)),
{
    let rel = precedes(descending);
    assert(reflexive(rel));
    assert(antisymmetric(rel));
    assert(transitive(rel));
    assert(strongly_connected(rel));
}

/// What `arranged` promises: the same rolls, each before every one that
/// the order puts after it.
pub proof fn lemma_arranged(rolls: Seq<i32>, descending: bool)
    ensures
        arranged(rolls, descending).len() == rolls.len(),
        arranged(rolls, descending).to_multiset() == rolls.to_multiset(),
        forall|i: int, j: int|
            0 <= i < j < rolls.len() ==> if descending {
                #[trigger] arranged(rolls, descending)[i] >= #[trigger] arranged(
                    rolls,
                    descending,
                )[j]
            } else {
                arranged(rolls, descending)[i] <= arranged(rolls, descending)[j]
            },
        forall|i: int|
            0 <= i < rolls.len() ==> rolls.contains(#[trigger] arranged(rolls, descending)[i]),
{
    broadcast use vstd::seq_lib::group_to_multiset_ensures;

    lemma_precedes_is_total(descending);
    rolls.lemma_sort_by_ensures(precedes(descending));
    let out = arranged(rolls, descending);
    assert(out.len() == out.to_multiset().len());
    assert(rolls.len() == rolls.to_multiset().len());
    assert forall|i: int, j: int| 0 <= i < j < rolls.len() implies if descending {
        #[trigger] out[i] >= #[trigger] out[j]
    } else {
        out[i] <= out[j]
    } by {
        assert(precedes(descending)(out[i], out[j]));
    }
    assert forall|i: int| 0 <= i < rolls.len() implies rolls.contains(#[trigger] out[i]) by {
        assert(out.contains(out[i]));
    }
}

/// Whether the order lets `a` stand before `b`.
pub fn in_order(descending: bool, a: i32, b: i32) -> (yes: bool)
    ensures
        yes == precedes(descending)(a, b),
{
    if descending {
        a >= b
    } else {
        a <= b
    }
}

/// A copy of `rolls` in order.
pub fn arrange(rolls: &Vec<i32>, descending: bool) -> (out: Vec<i32>)
    ensures
        out@ == arranged(rolls@, descending),
{
    let ghost rel = precedes(descending);
    let mut out: Vec<i32> = Vec::new();
    let mut taken: usize = 0;
    assert(out@ =~= rolls@.take(0));
    while taken < rolls.len()
        invariant
            taken <= rolls.len(),
            rel == precedes(descending),
            out@.len() == taken,
            out@.to_multiset() == rolls@.take(taken as int).to_multiset(),
            sorted_by(out@, rel),
        decreases rolls.len() - taken,
    {
        let roll = rolls[taken];
        let mut slot: usize = 0;
        while slot < out.len() && in_order(descending, out[slot], roll)
            invariant
                slot <= out.len(),
                rel == precedes(descending),
                forall|i: int| 0 <= i < slot ==> rel(#[trigger] out@[i], roll),
            decreases out.len() - slot,
        {
            slot += 1;
        }
        proof {
            let before = out@;
            let after = before.insert(slot as int, roll);
            to_multiset_insert(before, slot as int, roll);
            to_multiset_build(rolls@.take(taken as int), roll);
            assert(rolls@.take(taken + 1) =~= rolls@.take(taken as int).push(roll));
            assert forall|i: int, j: int| 0 <= i < j < after.len() implies rel(
                after[i],
                after[j],
            ) by {
                if j < slot {
                    assert(rel(before[i], before[j]));
                } else if j == slot {
                    assert(rel(before[i], roll));
                } else if i < slot {
                    assert(rel(before[i], before[j - 1]));
                } else if i == slot {
                    assert(!rel(before[slot as int], roll));
                    assert(rel(before[slot as int], before[j - 1]) || j - 1 == slot);
                } else {
                    assert(rel(before[i - 1], before[j - 1]));
                }
            }
        }
        out.insert(slot, roll);
        taken += 1;
    }
    proof {
        assert(rolls@.take(taken as int) =~= rolls@);
        lemma_precedes_is_total(descending);
        rolls@.lemma_sort_by_ensures(rel);
        lemma_sorted_unique(out@, rolls@.sort_by(rel), rel);
    }
    out
}

} // verus!
