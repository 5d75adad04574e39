//! Picking the cheapest of several candidates.

use vstd::prelude::*;

verus! {

/// The place of the first smallest cost.
pub open spec fn cheapest(costs: Seq<nat>) -> int
    decreases costs.len(),
{
    if costs.len() <= 1 {
        0
    } else {
        let earlier = cheapest(costs.drop_last());
        if costs.last() < costs[earlier] {
            costs.len() - 1
        } else {
            earlier
        }
    }
}

/// The cheapest candidate costs no more than any other, and less than every
/// candidate before it.
pub proof fn law_cheapest_is_first_minimum(costs: Seq<nat>)
    requires
        costs.len() > 0,
    ensures
        0 <= cheapest(costs) < costs.len(),
        forall|i: int| 0 <= i < costs.len() ==> costs[cheapest(costs)] <= #[trigger] costs[i],
        forall|i: int| 0 <= i < cheapest(costs) ==> costs[cheapest(costs)] < #[trigger] costs[i],
    decreases costs.len(),
{
    if costs.len() > 1 {
        law_cheapest_is_first_minimum(costs.drop_last());
        assert forall|i: int| 0 <= i < costs.len() implies costs[cheapest(costs)] <= #[trigger] costs[i] by {
            if i < costs.len() - 1 {
                assert(costs.drop_last()[i] == costs[i]);
            }
        }
        assert forall|i: int| 0 <= i < cheapest(costs) implies costs[cheapest(costs)] < #[trigger] costs[i] by {
            assert(costs.drop_last()[i] == costs[i]);
        }
    }
}

/// Looking at one more candidate moves the choice only if it is cheaper.
pub proof fn lemma_cheapest_step(costs: Seq<nat>, taken: int)
    requires
        0 <= taken < costs.len(),
    ensures
        taken == 0 ==> cheapest(costs.take(taken + 1)) == 0,
        taken > 0 ==> 0 <= cheapest(costs.take(taken)) < taken,
        taken > 0 ==> cheapest(costs.take(taken + 1)) == if costs[taken] < costs[cheapest(
            costs.take(taken),
        )] {
            taken
        } else {
            cheapest(costs.take(taken))
        },
{
    let next = costs.take(taken + 1);
    assert(next.drop_last() == costs.take(taken));
    if taken > 0 {
        law_cheapest_is_first_minimum(costs.take(taken));
    }
}

} // verus!
