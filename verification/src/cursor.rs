//! The walk of a cursor over a sequence of items.

use vstd::prelude::*;

verus! {

/// One call of a cursor's `next` over `items`, from position `p0` to `p1`,
/// giving `out`: the item at `p0` and a step forward while items remain,
/// then nothing and no step.
pub open spec fn cursor_step<A>(items: Seq<A>, p0: nat, out: Option<A>, p1: nat) -> bool {
    if p0 < items.len() {
        out == Some(items[p0 as int]) && p1 == p0 + 1
    } else {
        out is None && p1 == p0
    }
}

/// The position after `j` steps of a walk from the start.
proof fn lemma_cursor_positions<A>(items: Seq<A>, outs: Seq<Option<A>>, poss: Seq<nat>, j: int)
    requires
        poss.len() == outs.len() + 1,
        poss[0] == 0,
        forall|i: int| 0 <= i < outs.len() ==> cursor_step(items, poss[i], #[trigger] outs[i], poss[i + 1]),
        0 <= j <= outs.len(),
    ensures
        poss[j] == (if j < items.len() { j } else { items.len() as int }),
    decreases j,
{
    if j > 0 {
        lemma_cursor_positions(items, outs, poss, j - 1);
        assert(cursor_step(items, poss[j - 1], outs[j - 1], poss[j]));
    }
}

/// Walking a cursor from the start, call after call, yields every item in
/// order and then nothing, for good.
pub proof fn lemma_cursor_walk<A>(items: Seq<A>, outs: Seq<Option<A>>, poss: Seq<nat>)
    requires
        poss.len() == outs.len() + 1,
        poss[0] == 0,
        forall|i: int| 0 <= i < outs.len() ==> cursor_step(items, poss[i], #[trigger] outs[i], poss[i + 1]),
    ensures
        forall|j: int|
            0 <= j < outs.len() ==> #[trigger] outs[j] == (if j < items.len() {
                Some(items[j])
            } else {
                None
            }),
{
    assert forall|j: int| 0 <= j < outs.len() implies #[trigger] outs[j] == (if j < items.len() {
        Some(items[j])
    } else {
        None
    }) by {
        lemma_cursor_positions(items, outs, poss, j);
        assert(cursor_step(items, poss[j], outs[j], poss[j + 1]));
    }
}

} // verus!
