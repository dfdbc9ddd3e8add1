//! Price-time priority: who trades first, at which price, and for how much.

use vstd::prelude::*;

use crate::events::Fill;
use crate::invariants::{
    filled, front_wf, queued_adds, step_wf, sweep_keeps, sweep_wf, tail_distinct, tail_within,
    walk_elsewhere, walk_exhausts, walk_keeps, walk_wf,
};
use crate::ladder::{as_good, candidates, crosses, stepped, walked};
use crate::laws::candidates_list;
use crate::level::LevelView;
use crate::model::side_wf;
use crate::order::Order;
use crate::totals::{nothing_adds_up, queued, resting, total_of, total_splits};
use crate::types::{Price, Quantity, Side};

verus! {

/// How much of `quantity` the `i`-th order of a queue gets when older orders come first.
pub open spec fn share(orders: Seq<Order>, quantity: Quantity, i: int) -> int {
    let ahead = queued(orders.take(i)) as int;
    if quantity <= ahead {
        0
    } else if quantity - ahead < orders[i].remaining_quantity {
        quantity - ahead
    } else {
        orders[i].remaining_quantity as int
    }
}

/// Shares in the rest of a queue, once its front has taken its own.
proof fn share_behind(orders: Seq<Order>, quantity: Quantity, less: Quantity, i: int)
    requires
        0 < i < orders.len(),
        orders[0].remaining_quantity + less == quantity,
    ensures
        share(orders.drop_first(), less, i - 1) == share(orders, quantity, i),
{
    let rest = orders.drop_first();
    assert(rest.take(i - 1) =~= orders.take(i).drop_first());
    assert(rest[i - 1] == orders[i]);
}

/// Time priority: within a level, earlier orders trade first.
///
/// The fills are with the front of the queue, one per order in order of arrival, and each order
/// gets what the orders ahead of it leave, as far as it wants it. What remains of the queue is
/// its tail, of which only the front can have been touched.
pub proof fn time_priority(level: LevelView, taker: Order, side: Side, price: Price)
    requires
        level.wf(side, price),
    ensures
        ({
            let swept = level.swept(taker);
            let gone = level.orders.len() - swept.level.orders.len();
            &&& swept.fills.len() <= level.orders.len()
            &&& forall|i: int|
                0 <= i < swept.fills.len() ==> {
                    &&& (#[trigger] swept.fills[i]).maker_order_id == level.orders[i].order_id
                    &&& swept.fills[i].quantity == share(
                        level.orders,
                        taker.remaining_quantity,
                        i,
                    )
                    &&& swept.fills[i].quantity > 0
                }
            &&& forall|i: int|
                swept.fills.len() <= i < level.orders.len() ==> #[trigger] share(
                    level.orders,
                    taker.remaining_quantity,
                    i,
                ) == 0
            &&& 0 <= gone <= swept.fills.len() <= gone + 1
            &&& swept.fills.len() == gone ==> swept.level.orders == level.orders.skip(gone)
            &&& swept.fills.len() == gone + 1 ==> swept.level.orders == level.orders.skip(
                gone,
            ).update(0, level.orders[gone].after_fill(swept.fills[gone].quantity))
        }),
    decreases level.orders.len(),
{
    let swept = level.swept(taker);
    let orders = level.orders;
    if orders.len() == 0 || taker.remaining_quantity == 0 {
        assert(orders.skip(0) =~= orders);
    } else {
        let left = level.front_left(taker);
        let rest = level.past_front(taker);
        front_wf(level, taker, side, price);
        assert(orders.take(0) =~= Seq::<Order>::empty());
        if left.remaining_quantity > 0 {
            assert(swept.level.orders =~= orders.skip(0).update(0, left));
            assert forall|i: int| 1 <= i < orders.len() implies #[trigger] share(
                orders,
                taker.remaining_quantity,
                i,
            ) == 0 by {
                assert(orders.take(i).drop_first() =~= orders.drop_first().take(i - 1));
            }
        } else {
            let taker2 = taker.after_fill(level.front_fill(taker).quantity);
            let then = rest.swept(taker2);
            time_priority(rest, taker2, side, price);
            let gone = rest.orders.len() - then.level.orders.len();
            assert(rest.orders.skip(gone) =~= orders.skip(gone + 1));
            assert forall|i: int| 0 <= i < swept.fills.len() implies {
                &&& (#[trigger] swept.fills[i]).maker_order_id == orders[i].order_id
                &&& swept.fills[i].quantity == share(orders, taker.remaining_quantity, i)
                &&& swept.fills[i].quantity > 0
            } by {
                if i > 0 {
                    assert(swept.fills[i] == then.fills[i - 1]);
                    assert(rest.orders[i - 1] == orders[i]);
                    share_behind(orders, taker.remaining_quantity, taker2.remaining_quantity, i);
                }
            }
            assert forall|i: int| swept.fills.len() <= i < orders.len() implies #[trigger] share(
                orders,
                taker.remaining_quantity,
                i,
            ) == 0 by {
                share_behind(orders, taker.remaining_quantity, taker2.remaining_quantity, i);
                assert(share(rest.orders, taker2.remaining_quantity, i - 1) == 0);
            }
        }
    }
}

/// Every fill of a walk belongs to the incoming order, stands at one of the walked prices, and
/// is for something.
pub proof fn fills_stand_at(
    levels: Map<Price, LevelView>,
    prices: Seq<Price>,
    taker: Order,
    prune: bool,
    side: Side,
)
    requires
        side_wf(levels, side),
    ensures
        ({
            let fills = walked(levels, prices, taker, prune).fills;
            forall|i: int|
                0 <= i < fills.len() ==> {
                    &&& prices.contains((#[trigger] fills[i]).price)
                    &&& fills[i].taker_order_id == taker.order_id
                    &&& fills[i].quantity > 0
                }
        }),
    decreases prices.len(),
{
    let all = walked(levels, prices, taker, prune).fills;
    if prices.len() != 0 && taker.remaining_quantity != 0 {
        let price = prices[0];
        let rest = prices.drop_first();
        tail_within(prices);
        if !levels.contains_key(price) {
            fills_stand_at(levels, rest, taker, prune, side);
        } else {
            let here = levels[price].swept(taker);
            let left = stepped(levels, price, taker, prune);
            let then = walked(left, rest, here.taker, prune);
            sweep_keeps(levels[price], taker);
            step_wf(levels, price, taker, prune, side);
            fills_stand_at(left, rest, here.taker, prune, side);
            assert(prices.contains(price));
            assert forall|i: int| 0 <= i < all.len() implies {
                &&& prices.contains((#[trigger] all[i]).price)
                &&& all[i].taker_order_id == taker.order_id
                &&& all[i].quantity > 0
            } by {
                if i < here.fills.len() {
                    assert(all[i] == here.fills[i]);
                } else {
                    assert(all[i] == then.fills[i - here.fills.len()]);
                }
            }
        }
    }
}

/// Price priority: better prices trade first.
///
/// The fills of an incoming order on `side` go from better prices to worse, and by the time it
/// trades at a price, nothing is left at any better price that it walks along.
pub proof fn price_priority(
    levels: Map<Price, LevelView>,
    prices: Seq<Price>,
    taker: Order,
    prune: bool,
    side: Side,
    resting_side: Side,
)
    requires
        side_wf(levels, resting_side),
        prices.no_duplicates(),
        forall|i: int, j: int|
            #![trigger prices[i], prices[j]]
            0 <= i < j < prices.len() ==> as_good(side, prices[i], prices[j]),
    ensures
        ({
            let walk = walked(levels, prices, taker, prune);
            &&& forall|a: int, b: int|
                #![trigger walk.fills[a], walk.fills[b]]
                0 <= a < b < walk.fills.len() ==> as_good(
                    side,
                    walk.fills[a].price,
                    walk.fills[b].price,
                )
            &&& forall|a: int, i: int, j: int|
                #![trigger walk.fills[a], prices[i], prices[j]]
                0 <= a < walk.fills.len() && 0 <= i < j < prices.len() && walk.fills[a].price
                    == prices[j] && walk.levels.contains_key(prices[i])
                    ==> walk.levels[prices[i]].orders.len() == 0
        }),
    decreases prices.len(),
{
    let walk = walked(levels, prices, taker, prune);
    if prices.len() != 0 && taker.remaining_quantity != 0 {
        let price = prices[0];
        let rest = prices.drop_first();
        tail_distinct(prices);
        assert forall|i: int, j: int| 0 <= i < j < rest.len() implies as_good(
            side,
            #[trigger] rest[i],
            #[trigger] rest[j],
        ) by {
            assert(as_good(side, prices[i + 1], prices[j + 1]));
        }
        if !levels.contains_key(price) {
            price_priority(levels, rest, taker, prune, side, resting_side);
            walk_elsewhere(levels, rest, taker, prune, price);
            assert forall|a: int, i: int, j: int|
                #![trigger walk.fills[a], prices[i], prices[j]]
                0 <= a < walk.fills.len() && 0 <= i < j < prices.len() && walk.fills[a].price
                    == prices[j] && walk.levels.contains_key(
                    prices[i],
                ) implies walk.levels[prices[i]].orders.len() == 0 by {
                assert(rest[j - 1] == prices[j]);
                if i > 0 {
                    assert(rest[i - 1] == prices[i]);
                }
            }
        } else {
            let here = levels[price].swept(taker);
            let left = stepped(levels, price, taker, prune);
            let then = walked(left, rest, here.taker, prune);
            sweep_keeps(levels[price], taker);
            step_wf(levels, price, taker, prune, resting_side);
            fills_stand_at(left, rest, here.taker, prune, resting_side);
            price_priority(left, rest, here.taker, prune, side, resting_side);
            walk_elsewhere(left, rest, here.taker, prune, price);
            assert forall|a: int, b: int|
                #![trigger walk.fills[a], walk.fills[b]]
                0 <= a < b < walk.fills.len() implies as_good(
                side,
                walk.fills[a].price,
                walk.fills[b].price,
            ) by {
                let n = here.fills.len() as int;
                if b < n {
                    assert(walk.fills[a] == here.fills[a] && walk.fills[b] == here.fills[b]);
                } else {
                    assert(walk.fills[b] == then.fills[b - n]);
                    if a < n {
                        assert(walk.fills[a] == here.fills[a]);
                        let j = rest.index_of(then.fills[b - n].price);
                        assert(rest.contains(then.fills[b - n].price));
                        assert(prices[j + 1] == then.fills[b - n].price);
                        assert(as_good(side, prices[0], prices[j + 1]));
                    } else {
                        assert(walk.fills[a] == then.fills[a - n]);
                    }
                }
            }
            assert forall|a: int, i: int, j: int|
                #![trigger walk.fills[a], prices[i], prices[j]]
                0 <= a < walk.fills.len() && 0 <= i < j < prices.len() && walk.fills[a].price
                    == prices[j] && walk.levels.contains_key(
                    prices[i],
                ) implies walk.levels[prices[i]].orders.len() == 0 by {
                let n = here.fills.len() as int;
                assert(rest[j - 1] == prices[j]);
                if a < n {
                    assert(walk.fills[a] == here.fills[a]);
                    assert(prices[j] == prices[0]);
                } else {
                    assert(walk.fills[a] == then.fills[a - n]);
                    if i > 0 {
                        assert(rest[i - 1] == prices[i]);
                    } else {
                        assert(then.fills.len() > 0);
                        assert(here.taker.remaining_quantity > 0);
                    }
                }
            }
        }
    }
}

/// A total splits into the part that satisfies a condition and the part that does not.
pub proof fn total_parts(
    levels: Map<Price, LevelView>,
    measure: spec_fn(LevelView) -> nat,
    part: Set<Price>,
)
    requires
        levels.dom().finite(),
    ensures
        total_of(levels, measure) == total_of(levels.restrict(part), measure) + total_of(
            levels.remove_keys(part),
            measure,
        ),
    decreases levels.dom().len(),
{
    let inside = levels.restrict(part);
    let outside = levels.remove_keys(part);
    assert(inside.dom() =~= levels.dom().intersect(part));
    assert(outside.dom() =~= levels.dom().difference(part));
    if levels.dom().len() == 0 {
        assert(inside.dom() =~= Set::<Price>::empty());
        assert(outside.dom() =~= Set::<Price>::empty());
    } else {
        let price = levels.dom().choose();
        let fewer = levels.remove(price);
        assert(fewer.dom() =~= levels.dom().remove(price));
        total_parts(fewer, measure, part);
        if part.contains(price) {
            total_splits(inside, measure, price);
            assert(fewer.restrict(part) =~= inside.remove(price));
            assert(fewer.remove_keys(part) =~= outside);
        } else {
            total_splits(outside, measure, price);
            assert(fewer.restrict(part) =~= inside);
            assert(fewer.remove_keys(part) =~= outside.remove(price));
        }
    }
}

/// The prices of a side at which an incoming order on `side` may trade.
pub open spec fn reachable(
    levels: Map<Price, LevelView>,
    side: Side,
    limit: Option<Price>,
) -> Map<Price, LevelView> {
    levels.restrict(Set::new(|p: Price| crosses(side, limit, p)))
}

/// An incoming order trades until it is used up or nothing is left that it may trade with: it
/// gets all that it wants, or all that rests within its reach, whichever is less.
pub proof fn fills_all_it_can(
    levels: Map<Price, LevelView>,
    taker: Order,
    prune: bool,
    side: Side,
    limit: Option<Price>,
    resting_side: Side,
)
    requires
        side_wf(levels, resting_side),
    ensures
        filled(walked(levels, candidates(levels, side, limit), taker, prune).fills) == {
            let available = total_of(reachable(levels, side, limit), resting());
            if taker.remaining_quantity <= available {
                taker.remaining_quantity as nat
            } else {
                available
            }
        },
{
    let prices = candidates(levels, side, limit);
    let walk = walked(levels, prices, taker, prune);
    let part = Set::new(|p: Price| crosses(side, limit, p));
    candidates_list(levels, side, limit);
    walk_keeps(levels, prices, taker, prune);
    walk_wf(levels, prices, taker, prune, resting_side);
    total_parts(levels, resting(), part);
    total_parts(walk.levels, resting(), part);
    assert(walk.levels.remove_keys(part) =~= levels.remove_keys(part)) by {
        assert forall|p: Price| !part.contains(p) implies walk.levels.contains_key(p)
            == levels.contains_key(p) && walk.levels[p] == levels[p] by {
            walk_elsewhere(levels, prices, taker, prune, p);
        }
    }
    if walk.taker.remaining_quantity > 0 {
        walk_exhausts(levels, prices, taker, prune);
        let left = walk.levels.restrict(part);
        assert(left.dom() =~= walk.levels.dom().intersect(part));
        assert forall|p: Price| #[trigger] left.contains_key(p) implies left[p].orders.len()
            == 0 by {
            assert(walk.levels.contains_key(p));
            assert(prices.contains(p));
            let i = prices.index_of(p);
            assert(prices[i] == p);
        }
        nothing_adds_up(left, resting());
    }
}

/// At each price that it comes to, a walk trades as `swept` says: there is a state in which the
/// incoming order reaches the level, from which follow the level afterwards and all fills at
/// this price.
pub proof fn walk_sweeps(
    levels: Map<Price, LevelView>,
    prices: Seq<Price>,
    taker: Order,
    prune: bool,
    side: Side,
    price: Price,
) -> (arrival: Order)
    requires
        side_wf(levels, side),
        prices.no_duplicates(),
        levels.contains_key(price),
    ensures
        ({
            let walk = walked(levels, prices, taker, prune);
            let here = levels[price].swept(arrival);
            &&& walk.levels.contains_key(price) ==> walk.levels[price] == here.level
            &&& forall|a: int|
                0 <= a < walk.fills.len() && (#[trigger] walk.fills[a]).price == price
                    ==> here.fills.contains(walk.fills[a])
        }),
    decreases prices.len(),
{
    let walk = walked(levels, prices, taker, prune);
    if prices.len() == 0 || taker.remaining_quantity == 0 {
        Order { remaining_quantity: 0, ..taker }
    } else {
        let first = prices[0];
        let rest = prices.drop_first();
        tail_distinct(prices);
        if !levels.contains_key(first) {
            walk_sweeps(levels, rest, taker, prune, side, price)
        } else {
            let here = levels[first].swept(taker);
            let left = stepped(levels, first, taker, prune);
            let then = walked(left, rest, here.taker, prune);
            let n = here.fills.len() as int;
            sweep_keeps(levels[first], taker);
            step_wf(levels, first, taker, prune, side);
            fills_stand_at(left, rest, here.taker, prune, side);
            if first == price {
                walk_elsewhere(left, rest, here.taker, prune, price);
                assert forall|a: int|
                    0 <= a < walk.fills.len() && (#[trigger] walk.fills[a]).price
                        == price implies here.fills.contains(walk.fills[a]) by {
                    if a < n {
                        assert(walk.fills[a] == here.fills[a]);
                    } else {
                        assert(walk.fills[a] == then.fills[a - n]);
                    }
                }
                taker
            } else {
                let arrival = walk_sweeps(left, rest, here.taker, prune, side, price);
                assert forall|a: int|
                    0 <= a < walk.fills.len() && (#[trigger] walk.fills[a]).price
                        == price implies levels[price].swept(arrival).fills.contains(
                    walk.fills[a],
                ) by {
                    if a < n {
                        assert(walk.fills[a] == here.fills[a]);
                    } else {
                        assert(walk.fills[a] == then.fills[a - n]);
                    }
                }
                arrival
            }
        }
    }
}

/// The queues at these prices, put in a row.
pub open spec fn in_line(levels: Map<Price, LevelView>, prices: Seq<Price>) -> Seq<Order>
    decreases prices.len(),
{
    if prices.len() == 0 {
        Seq::empty()
    } else if !levels.contains_key(prices[0]) {
        in_line(levels, prices.drop_first())
    } else {
        levels[prices[0]].orders + in_line(levels, prices.drop_first())
    }
}

/// Whether fills of an order for `quantity` go down this line of orders: the `i`-th fill is with
/// the `i`-th order, at its price, for its share; every fill but the last takes its order whole;
/// and the orders without a fill have no share.
pub open spec fn go_down(fills: Seq<Fill>, line: Seq<Order>, quantity: Quantity) -> bool {
    &&& fills.len() <= line.len()
    &&& forall|i: int|
        0 <= i < fills.len() ==> {
            &&& (#[trigger] fills[i]).maker_order_id == line[i].order_id
            &&& fills[i].price == line[i].price
            &&& fills[i].quantity == share(line, quantity, i)
            &&& i < fills.len() - 1 ==> fills[i].quantity == line[i].remaining_quantity
        }
    &&& forall|i: int|
        fills.len() <= i < line.len() ==> #[trigger] share(line, quantity, i) == 0
}

/// An order whose successor in line has a share gets all that it wants.
proof fn share_is_whole(line: Seq<Order>, quantity: Quantity, i: int)
    requires
        0 <= i < line.len() - 1,
        share(line, quantity, i + 1) > 0,
    ensures
        share(line, quantity, i) == line[i].remaining_quantity,
{
    let front = line.take(i + 1);
    assert(front =~= line.take(i) + seq![line[i]]);
    queued_adds(line.take(i), seq![line[i]]);
    reveal_with_fuel(queued, 2);
    assert(seq![line[i]].drop_first() =~= Seq::<Order>::empty());
}

/// Shares in a line made of two.
proof fn share_splits(a: Seq<Order>, b: Seq<Order>, quantity: Quantity, i: int)
    requires
        0 <= i < a.len() + b.len(),
    ensures
        i < a.len() ==> share(a + b, quantity, i) == share(a, quantity, i),
        i >= a.len() && quantity <= queued(a) ==> share(a + b, quantity, i) == 0,
        i >= a.len() && quantity > queued(a) ==> share(a + b, quantity, i) == share(
            b,
            (quantity - queued(a)) as Quantity,
            i - a.len(),
        ),
{
    if i < a.len() {
        assert((a + b).take(i) =~= a.take(i));
    } else {
        assert((a + b).take(i) =~= a + b.take(i - a.len()));
        queued_adds(a, b.take(i - a.len()));
    }
}

/// Changing a side at one price changes nothing in a line without this price.
proof fn line_elsewhere(
    a: Map<Price, LevelView>,
    b: Map<Price, LevelView>,
    prices: Seq<Price>,
    price: Price,
)
    requires
        !prices.contains(price),
        forall|p: Price|
            p != price ==> #[trigger] a.contains_key(p) == b.contains_key(p) && a[p] == b[p],
    ensures
        in_line(a, prices) == in_line(b, prices),
    decreases prices.len(),
{
    if prices.len() != 0 {
        assert(prices.contains(prices[0]));
        tail_within(prices);
        assert(a.contains_key(prices[0]) == b.contains_key(prices[0]));
        line_elsewhere(a, b, prices.drop_first(), price);
    }
}

/// Time and price priority in one: a walk trades with the orders of the levels that it comes to
/// as if they all stood in one line, level after level, each level oldest first.
pub proof fn walk_goes_down(
    levels: Map<Price, LevelView>,
    prices: Seq<Price>,
    taker: Order,
    prune: bool,
    side: Side,
)
    requires
        side_wf(levels, side),
        prices.no_duplicates(),
    ensures
        go_down(
            walked(levels, prices, taker, prune).fills,
            in_line(levels, prices),
            taker.remaining_quantity,
        ),
    decreases prices.len(),
{
    let fills = walked(levels, prices, taker, prune).fills;
    let line = in_line(levels, prices);
    let quantity = taker.remaining_quantity;
    if prices.len() != 0 && quantity != 0 {
        let price = prices[0];
        let rest = prices.drop_first();
        tail_distinct(prices);
        if !levels.contains_key(price) {
            walk_goes_down(levels, rest, taker, prune, side);
        } else {
            let level = levels[price];
            let here = level.swept(taker);
            let left = stepped(levels, price, taker, prune);
            let then = walked(left, rest, here.taker, prune);
            let behind = in_line(levels, rest);
            let n = here.fills.len() as int;
            let m = level.orders.len() as int;
            assert(level.wf(side, price));
            time_priority(level, taker, side, price);
            sweep_keeps(level, taker);
            sweep_wf(level, taker, side, price);
            step_wf(levels, price, taker, prune, side);
            line_elsewhere(levels, left, rest, price);
            walk_goes_down(left, rest, here.taker, prune, side);
            fills_stand_at(levels, prices, taker, prune, side);
            assert(line == level.orders + behind);
            assert(here.taker.remaining_quantity > 0 ==> n == m);
            assert forall|i: int| 0 <= i < fills.len() implies {
                &&& (#[trigger] fills[i]).maker_order_id == line[i].order_id
                &&& fills[i].price == line[i].price
                &&& fills[i].quantity == share(line, quantity, i)
            } by {
                share_splits(level.orders, behind, quantity, i);
                if i < n {
                    assert(fills[i] == here.fills[i]);
                    assert(line[i] == level.orders[i]);
                    assert(level.orders[i].rests_at(side, price));
                } else {
                    assert(fills[i] == then.fills[i - n]);
                    assert(line[i] == behind[i - m]);
                }
            }
            assert forall|i: int| fills.len() <= i < line.len() implies #[trigger] share(
                line,
                quantity,
                i,
            ) == 0 by {
                share_splits(level.orders, behind, quantity, i);
                if i >= m && here.taker.remaining_quantity > 0 {
                    assert(share(behind, here.taker.remaining_quantity, i - m) == 0);
                }
            }
            assert forall|i: int| 0 <= i < fills.len() - 1 implies (
            #[trigger] fills[i]).quantity == line[i].remaining_quantity by {
                assert(fills[i + 1].quantity == share(line, quantity, i + 1));
                share_is_whole(line, quantity, i);
            }
        }
    }
}

} // verus!
