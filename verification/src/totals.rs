//! Adding up a quantity over the levels of a side.

use vstd::prelude::*;

use crate::level::LevelView;
use crate::order::Order;
use crate::types::Price;

verus! {

/// The remaining quantities of a queue of orders, added up.
pub open spec fn queued(orders: Seq<Order>) -> nat
    decreases orders.len(),
{
    if orders.len() == 0 {
        0
    } else {
        orders[0].remaining_quantity as nat + queued(orders.drop_first())
    }
}

/// A measure of levels, added up over all levels of a side.
pub open spec fn total_of(levels: Map<Price, LevelView>, measure: spec_fn(LevelView) -> nat) -> nat
    decreases levels.dom().len(),
    when levels.dom().finite()
{
    if levels.dom().len() == 0 {
        0
    } else {
        let price = levels.dom().choose();
        measure(levels[price]) + total_of(levels.remove(price), measure)
    }
}

/// The cached total of a level.
pub open spec fn cached() -> spec_fn(LevelView) -> nat {
    |level: LevelView| level.total_quantity as nat
}

/// What is really left to fill at a level.
pub open spec fn resting() -> spec_fn(LevelView) -> nat {
    |level: LevelView| queued(level.orders)
}

/// Any level can be split off a total.
pub proof fn total_splits(
    levels: Map<Price, LevelView>,
    measure: spec_fn(LevelView) -> nat,
    price: Price,
)
    requires
        levels.dom().finite(),
        levels.contains_key(price),
    ensures
        total_of(levels, measure) == measure(levels[price]) + total_of(
            levels.remove(price),
            measure,
        ),
    decreases levels.dom().len(),
{
    let chosen = levels.dom().choose();
    assert(levels.dom().len() > 0);
    if chosen != price {
        assert(levels.remove(chosen).dom() =~= levels.dom().remove(chosen));
        assert(levels.remove(price).dom() =~= levels.dom().remove(price));
        total_splits(levels.remove(chosen), measure, price);
        total_splits(levels.remove(price), measure, chosen);
        assert(levels.remove(chosen).remove(price) =~= levels.remove(price).remove(chosen));
    }
}

/// A level that is new to a side adds its measure to the total; a level that replaces another
/// takes the other's place in it.
pub proof fn total_inserts(
    levels: Map<Price, LevelView>,
    measure: spec_fn(LevelView) -> nat,
    price: Price,
    level: LevelView,
)
    requires
        levels.dom().finite(),
    ensures
        total_of(levels.insert(price, level), measure) == measure(level) + total_of(
            levels.remove(price),
            measure,
        ),
{
    let after = levels.insert(price, level);
    assert(after.dom() =~= levels.dom().insert(price));
    total_splits(after, measure, price);
    assert(after.remove(price) =~= levels.remove(price));
}

/// Levels of no measure add up to nothing.
pub proof fn nothing_adds_up(levels: Map<Price, LevelView>, measure: spec_fn(LevelView) -> nat)
    requires
        levels.dom().finite(),
        forall|p: Price| #[trigger] levels.contains_key(p) ==> measure(levels[p]) == 0,
    ensures
        total_of(levels, measure) == 0,
    decreases levels.dom().len(),
{
    if levels.dom().len() != 0 {
        let price = levels.dom().choose();
        let fewer = levels.remove(price);
        assert(levels.contains_key(price));
        assert(fewer.dom() =~= levels.dom().remove(price));
        assert forall|p: Price| #[trigger] fewer.contains_key(p) implies measure(fewer[p]) == 0 by {
            assert(levels.contains_key(p));
        }
        nothing_adds_up(fewer, measure);
    }
}

} // verus!
