//! Marks on packages, and counting those that are not marked yet: the measure
//! by which the loops over the graph end.

use vstd::prelude::*;

verus! {

/// The packages that carry a mark.
pub open spec fn marked(marks: Seq<bool>) -> Set<usize> {
    Set::new(|package: usize| package < marks.len() && marks[package as int])
}

/// How many entries carry no mark.
pub open spec fn count_unmarked(marks: Seq<bool>) -> nat
    decreases marks.len(),
{
    if marks.len() == 0 {
        0
    } else {
        count_unmarked(marks.drop_last()) + if marks.last() {
            0nat
        } else {
            1nat
        }
    }
}

/// Where no mark is taken away, no more entries are unmarked than before.
pub proof fn lemma_marks_stay(before: Seq<bool>, after: Seq<bool>)
    requires
        before.len() == after.len(),
        forall|i: int| 0 <= i < before.len() && before[i] ==> after[i],
    ensures
        count_unmarked(after) <= count_unmarked(before),
    decreases before.len(),
{
    if before.len() > 0 {
        lemma_marks_stay(before.drop_last(), after.drop_last());
    }
}

/// Where no mark is taken away and one is added, fewer entries are unmarked.
pub proof fn lemma_marks_grow(before: Seq<bool>, after: Seq<bool>, at: int)
    requires
        before.len() == after.len(),
        forall|i: int| 0 <= i < before.len() && before[i] ==> after[i],
        0 <= at < before.len(),
        !before[at],
        after[at],
    ensures
        count_unmarked(after) < count_unmarked(before),
    decreases before.len(),
{
    if at == before.len() - 1 {
        lemma_marks_stay(before.drop_last(), after.drop_last());
    } else {
        lemma_marks_grow(before.drop_last(), after.drop_last(), at);
    }
}

} // verus!
