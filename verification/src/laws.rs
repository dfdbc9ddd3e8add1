//! What holds of the order book as a whole.

use vstd::prelude::*;

use crate::events::Fill;
use crate::invariants::{filled, queued_adds, walk_exhausts, walk_keeps, walk_wf};
use crate::ladder::{
    as_good, best_first_lists, candidates, crosses, level_or_empty, walked, with_order,
};
use crate::level::{first_found, first_index, holds, LevelView};
use crate::model::{side_wf, BookView};
use crate::order::Order;
use crate::priority::{
    fills_all_it_can, fills_stand_at, go_down, in_line, price_priority, reachable, walk_goes_down,
};
use crate::totals::{cached, queued, resting, total_inserts, total_of, total_splits};
use crate::types::{OrderId, OrderType, Price, Quantity, Side};

verus! {

/// The other side.
pub open spec fn other(side: Side) -> Side {
    match side {
        Side::Buy => Side::Sell,
        Side::Sell => Side::Buy,
    }
}

/// An order at the back of a queue adds its remaining quantity to it.
proof fn queued_pushed(orders: Seq<Order>, order: Order)
    ensures
        queued(orders.push(order)) == queued(orders) + order.remaining_quantity,
{
    queued_adds(orders, seq![order]);
    assert(orders + seq![order] =~= orders.push(order));
    reveal_with_fuel(queued, 2);
    assert(seq![order].drop_first() =~= Seq::<Order>::empty());
}

/// The candidates of an incoming order are exactly the prices of the opposite side that it may
/// trade at, each once, best first.
pub proof fn candidates_list(levels: Map<Price, LevelView>, side: Side, limit: Option<Price>)
    requires
        levels.dom().finite(),
    ensures
        candidates(levels, side, limit).no_duplicates(),
        forall|i: int, j: int|
            #![trigger candidates(levels, side, limit)[i], candidates(levels, side, limit)[j]]
            0 <= i < j < candidates(levels, side, limit).len() ==> as_good(
                side,
                candidates(levels, side, limit)[i],
                candidates(levels, side, limit)[j],
            ),
        forall|p: Price| #[trigger]
            candidates(levels, side, limit).contains(p) <==> levels.contains_key(p) && crosses(
                side,
                limit,
                p,
            ),
{
    let wanted = levels.dom().filter(|p: Price| crosses(side, limit, p));
    let list = candidates(levels, side, limit);
    vstd::set_lib::lemma_len_subset(wanted, levels.dom());
    best_first_lists(wanted, side);
    assert forall|p: Price| #[trigger] list.contains(p) <==> levels.contains_key(p) && crosses(
        side,
        limit,
        p,
    ) by {
        assert(list.to_set().contains(p) == wanted.contains(p));
    }
}

/// An order that rests on a well-formed side keeps it well formed.
proof fn rest_wf(levels: Map<Price, LevelView>, side: Side, order: Order)
    requires
        side_wf(levels, side),
        order.price > 0,
        order.rests_at(side, order.price),
    ensures
        side_wf(with_order(levels, order.price, order), side),
{
    let level = level_or_empty(levels, order.price);
    let after = with_order(levels, order.price, order);
    queued_pushed(level.orders, order);
    assert(level.pushed(order).wf(side, order.price));
    assert(after.dom() =~= levels.dom().insert(order.price));
    assert forall|p: Price| #[trigger] after.contains_key(p) implies p > 0 && after[p].wf(
        side,
        p,
    ) by {
        if p != order.price {
            assert(levels.contains_key(p));
        }
    }
}

/// A limit order keeps the invariant of the book. In particular the book is never crossed: what
/// is left of the order rests only once nothing is left that it could trade with.
pub proof fn limit_keeps_invariant(
    book: BookView,
    side: Side,
    price: Price,
    quantity: Quantity,
    timestamp: u64,
)
    requires
        book.wf(),
        price > 0,
        quantity > 0,
    ensures
        book.limit_outcome(side, price, quantity, timestamp).book.wf(),
{
    let levels = book.opposite(side);
    let prices = candidates(levels, side, Some(price));
    let taker = Order::fresh(
        book.next_order_id,
        side,
        OrderType::Limit,
        price,
        quantity,
        timestamp,
    );
    let walk = book.limit_walk(side, price, quantity, timestamp);
    walk_keeps(levels, prices, taker, true);
    walk_wf(levels, prices, taker, true, other(side));
    assert(taker.rests_at(side, price));
    if walk.taker.remaining_quantity > 0 {
        assert(walk.taker.rests_at(side, price));
        candidates_list(levels, side, Some(price));
        walk_exhausts(levels, prices, taker, true);
        rest_wf(book.own(side), side, walk.taker);
        assert forall|p: Price| #[trigger] walk.levels.contains_key(p) implies !crosses(
            side,
            Some(price),
            p,
        ) by {
            if crosses(side, Some(price), p) {
                assert(levels.contains_key(p));
                assert(prices.contains(p));
                let i = prices.index_of(p);
                assert(prices[i] == p);
            }
        }
    }
}

/// A market order keeps the invariant of the book.
pub proof fn market_keeps_invariant(book: BookView, side: Side, quantity: Quantity)
    requires
        book.wf(),
    ensures
        book.market_outcome(side, quantity).book.wf(),
{
    let levels = book.opposite(side);
    let prices = candidates(levels, side, None);
    let taker = Order::fresh(book.next_order_id, side, OrderType::Market, 0, quantity, 0);
    walk_keeps(levels, prices, taker, false);
    walk_wf(levels, prices, taker, false, other(side));
}

/// Taking an order out of a queue takes exactly its remaining quantity out.
pub proof fn queued_without(orders: Seq<Order>, i: int)
    requires
        0 <= i < orders.len(),
    ensures
        queued(orders.remove(i)) + orders[i].remaining_quantity == queued(orders),
{
    let head = orders.take(i);
    let tail = orders.skip(i);
    assert(orders =~= head + tail);
    assert(orders.remove(i) =~= head + tail.drop_first());
    queued_adds(head, tail);
    queued_adds(head, tail.drop_first());
}

/// Cancelling an order keeps the invariant of the book.
pub proof fn cancel_keeps_invariant(book: BookView, order_id: OrderId)
    requires
        book.wf(),
        book.cancellable(order_id),
    ensures
        book.cancelled(order_id).wf(),
{
    let side = book.side_of(order_id);
    let price = book.price_of(order_id);
    let levels = book.own(side);
    let level = levels[price];
    let i = first_index(level.orders, order_id);
    first_found(level.orders, order_id);
    queued_without(level.orders, i);
    let left = level.without(i);
    assert(left.wf(side, price)) by {
        assert(level.wf(side, price));
        assert forall|j: int| 0 <= j < left.orders.len() implies (
        #[trigger] left.orders[j]).rests_at(side, price) by {
            if j < i {
                assert(left.orders[j] == level.orders[j]);
            } else {
                assert(left.orders[j] == level.orders[j + 1]);
            }
        }
    }
    let after = levels.insert(price, left);
    assert(after.dom() =~= levels.dom());
    assert(side_wf(after, side)) by {
        assert forall|p: Price| #[trigger] after.contains_key(p) implies p > 0 && after[p].wf(
            side,
            p,
        ) by {
            assert(levels.contains_key(p));
        }
    }
}

/// An incoming order as it starts its walk.
pub open spec fn incoming(
    book: BookView,
    side: Side,
    order_type: OrderType,
    price: Price,
    quantity: Quantity,
    timestamp: u64,
) -> Order {
    Order::fresh(book.next_order_id, side, order_type, price, quantity, timestamp)
}

/// Whether fills went by price priority: each is for something, within the limit, at a price of
/// the opposite side; they go from better prices to worse; and once there is one at a price,
/// nothing is left to trade with at any better price.
pub open spec fn by_price_priority(
    before: Map<Price, LevelView>,
    after: Map<Price, LevelView>,
    fills: Seq<Fill>,
    side: Side,
    limit: Option<Price>,
) -> bool {
    &&& forall|a: int|
        0 <= a < fills.len() ==> {
            &&& before.contains_key((#[trigger] fills[a]).price)
            &&& crosses(side, limit, fills[a].price)
            &&& fills[a].quantity > 0
        }
    &&& forall|a: int, b: int|
        #![trigger fills[a], fills[b]]
        0 <= a < b < fills.len() ==> as_good(side, fills[a].price, fills[b].price)
    &&& forall|a: int, p: Price|
        #![trigger fills[a], after.contains_key(p)]
        0 <= a < fills.len() && after.contains_key(p) && p != fills[a].price && as_good(
            side,
            p,
            fills[a].price,
        ) ==> after[p].orders.len() == 0
}

/// Walking along the candidates goes by price priority.
pub proof fn walk_by_price_priority(
    levels: Map<Price, LevelView>,
    taker: Order,
    prune: bool,
    side: Side,
    limit: Option<Price>,
    resting_side: Side,
)
    requires
        side_wf(levels, resting_side),
    ensures
        by_price_priority(
            levels,
            walked(levels, candidates(levels, side, limit), taker, prune).levels,
            walked(levels, candidates(levels, side, limit), taker, prune).fills,
            side,
            limit,
        ),
{
    let prices = candidates(levels, side, limit);
    let walk = walked(levels, prices, taker, prune);
    candidates_list(levels, side, limit);
    fills_stand_at(levels, prices, taker, prune, resting_side);
    price_priority(levels, prices, taker, prune, side, resting_side);
    walk_keeps(levels, prices, taker, prune);
    assert forall|a: int, p: Price|
        #![trigger walk.fills[a], walk.levels.contains_key(p)]
        0 <= a < walk.fills.len() && walk.levels.contains_key(p) && p != walk.fills[a].price
            && as_good(side, p, walk.fills[a].price) implies walk.levels[p].orders.len() == 0 by {
        let q = walk.fills[a].price;
        assert(prices.contains(q));
        assert(crosses(side, limit, p));
        assert(prices.contains(p));
        let i = prices.index_of(p);
        let j = prices.index_of(q);
        assert(prices[i] == p && prices[j] == q);
        if j < i {
            assert(as_good(side, prices[j], prices[i]));
        }
    }
}

/// Price priority of limit orders: better prices trade first, and never at a price worse than
/// the limit.
pub proof fn limit_price_priority(
    book: BookView,
    side: Side,
    price: Price,
    quantity: Quantity,
    timestamp: u64,
)
    requires
        book.wf(),
    ensures
        by_price_priority(
            book.opposite(side),
            book.limit_outcome(side, price, quantity, timestamp).book.opposite(side),
            book.limit_outcome(side, price, quantity, timestamp).fills,
            side,
            Some(price),
        ),
{
    let taker = incoming(book, side, OrderType::Limit, price, quantity, timestamp);
    let resting_side = other(side);
    walk_keeps(
        book.opposite(side),
        candidates(book.opposite(side), side, Some(price)),
        taker,
        true,
    );
    walk_by_price_priority(book.opposite(side), taker, true, side, Some(price), resting_side);
}

/// Price priority of market orders: better prices trade first.
pub proof fn market_price_priority(book: BookView, side: Side, quantity: Quantity)
    requires
        book.wf(),
    ensures
        by_price_priority(
            book.opposite(side),
            book.market_outcome(side, quantity).book.opposite(side),
            book.market_outcome(side, quantity).fills,
            side,
            None,
        ),
{
    let taker = incoming(book, side, OrderType::Market, 0, quantity, 0);
    walk_by_price_priority(book.opposite(side), taker, false, side, None, other(side));
}

/// A limit order goes down the line of all orders within its limit, best price first and oldest
/// first: its `i`-th fill is with the `i`-th of them, and every fill but the last takes an order
/// whole.
pub proof fn limit_goes_down_the_line(
    book: BookView,
    side: Side,
    price: Price,
    quantity: Quantity,
    timestamp: u64,
)
    requires
        book.wf(),
    ensures
        go_down(
            book.limit_outcome(side, price, quantity, timestamp).fills,
            in_line(
                book.opposite(side),
                candidates(book.opposite(side), side, Some(price)),
            ),
            quantity,
        ),
{
    let taker = incoming(book, side, OrderType::Limit, price, quantity, timestamp);
    let levels = book.opposite(side);
    candidates_list(levels, side, Some(price));
    walk_goes_down(levels, candidates(levels, side, Some(price)), taker, true, other(side));
}

/// A market order goes down the line of all orders of the opposite side, best price first and
/// oldest first: its `i`-th fill is with the `i`-th of them, and every fill but the last takes an
/// order whole.
pub proof fn market_goes_down_the_line(book: BookView, side: Side, quantity: Quantity)
    requires
        book.wf(),
    ensures
        go_down(
            book.market_outcome(side, quantity).fills,
            in_line(book.opposite(side), candidates(book.opposite(side), side, None)),
            quantity,
        ),
{
    let taker = incoming(book, side, OrderType::Market, 0, quantity, 0);
    let levels = book.opposite(side);
    candidates_list(levels, side, None);
    walk_goes_down(levels, candidates(levels, side, None), taker, false, other(side));
}

/// A limit order gets all that it wants or all that rests within its limit, whichever is less;
/// the rest of it is its remaining quantity.
pub proof fn limit_fills_all_it_can(
    book: BookView,
    side: Side,
    price: Price,
    quantity: Quantity,
    timestamp: u64,
)
    requires
        book.wf(),
    ensures
        ({
            let outcome = book.limit_outcome(side, price, quantity, timestamp);
            let available = total_of(
                reachable(book.opposite(side), side, Some(price)),
                resting(),
            );
            &&& filled(outcome.fills) == if quantity <= available {
                quantity as nat
            } else {
                available
            }
            &&& filled(outcome.fills) + outcome.taker.remaining_quantity == quantity
        }),
{
    let taker = incoming(book, side, OrderType::Limit, price, quantity, timestamp);
    let levels = book.opposite(side);
    fills_all_it_can(levels, taker, true, side, Some(price), other(side));
    walk_keeps(levels, candidates(levels, side, Some(price)), taker, true);
}

/// A market order gets all that it wants or all that rests on the opposite side, whichever is
/// less.
pub proof fn market_fills_all_it_can(book: BookView, side: Side, quantity: Quantity)
    requires
        book.wf(),
    ensures
        ({
            let outcome = book.market_outcome(side, quantity);
            let available = total_of(book.opposite(side), resting());
            &&& filled(outcome.fills) == if quantity <= available {
                quantity as nat
            } else {
                available
            }
            &&& filled(outcome.fills) + outcome.taker.remaining_quantity == quantity
        }),
{
    let taker = incoming(book, side, OrderType::Market, 0, quantity, 0);
    let levels = book.opposite(side);
    fills_all_it_can(levels, taker, false, side, None, other(side));
    assert(reachable(levels, side, None) =~= levels);
    walk_keeps(levels, candidates(levels, side, None), taker, false);
}

/// Conservation of quantity under limit orders: what trades leaves the opposite side, and what
/// is left of the order joins its own side.
pub proof fn limit_conserves_quantity(
    book: BookView,
    side: Side,
    price: Price,
    quantity: Quantity,
    timestamp: u64,
)
    requires
        book.wf(),
    ensures
        ({
            let outcome = book.limit_outcome(side, price, quantity, timestamp);
            &&& total_of(outcome.book.opposite(side), resting()) + filled(outcome.fills)
                == total_of(book.opposite(side), resting())
            &&& total_of(outcome.book.own(side), resting()) == total_of(book.own(side), resting())
                + outcome.taker.remaining_quantity
        }),
{
    let taker = incoming(book, side, OrderType::Limit, price, quantity, timestamp);
    let levels = book.opposite(side);
    let prices = candidates(levels, side, Some(price));
    walk_wf(levels, prices, taker, true, other(side));
    walk_keeps(levels, prices, taker, true);
    let left = walked(levels, prices, taker, true).taker;
    if left.remaining_quantity > 0 {
        let own = book.own(side);
        let level = level_or_empty(own, price);
        total_inserts(own, resting(), price, level.pushed(left));
        if own.contains_key(price) {
            total_splits(own, resting(), price);
        } else {
            assert(own.remove(price) =~= own);
        }
        queued_pushed(level.orders, left);
    }
}

/// Conservation of quantity under market orders: what trades leaves the opposite side.
pub proof fn market_conserves_quantity(book: BookView, side: Side, quantity: Quantity)
    requires
        book.wf(),
    ensures
        ({
            let outcome = book.market_outcome(side, quantity);
            &&& total_of(outcome.book.opposite(side), resting()) + filled(outcome.fills)
                == total_of(book.opposite(side), resting())
            &&& outcome.book.own(side) == book.own(side)
        }),
{
    let taker = incoming(book, side, OrderType::Market, 0, quantity, 0);
    let levels = book.opposite(side);
    walk_wf(levels, candidates(levels, side, None), taker, false, other(side));
}

/// Conservation of quantity under cancels: exactly the returned quantity leaves the order's
/// side, and nothing leaves the other.
pub proof fn cancel_conserves_quantity(book: BookView, order_id: OrderId)
    requires
        book.wf(),
        book.cancellable(order_id),
    ensures
        total_of(book.cancelled(order_id).own(book.side_of(order_id)), resting())
            + book.resting_order(order_id).remaining_quantity == total_of(
            book.own(book.side_of(order_id)),
            resting(),
        ),
        book.cancelled(order_id).opposite(book.side_of(order_id)) == book.opposite(
            book.side_of(order_id),
        ),
{
    let levels = book.own(book.side_of(order_id));
    let price = book.price_of(order_id);
    let level = book.level_of(order_id);
    let i = first_index(level.orders, order_id);
    first_found(level.orders, order_id);
    queued_without(level.orders, i);
    total_splits(levels, resting(), price);
    total_inserts(levels, resting(), price, level.without(i));
}

/// A limit order rests exactly if something is left of it: at its own price, behind every order
/// that is already there, where the book then remembers it. Otherwise its own side and what the
/// book remembers stay as they are.
pub proof fn limit_rests_with_what_is_left(
    book: BookView,
    side: Side,
    price: Price,
    quantity: Quantity,
    timestamp: u64,
)
    ensures
        ({
            let outcome = book.limit_outcome(side, price, quantity, timestamp);
            let after = outcome.book;
            if outcome.taker.remaining_quantity > 0 {
                &&& after.own(side).contains_key(price)
                &&& after.own(side)[price].orders == level_or_empty(
                    book.own(side),
                    price,
                ).orders.push(outcome.taker)
                &&& after.lookup == book.lookup.insert(book.next_order_id, (side, price))
                &&& forall|p: Price|
                    p != price ==> #[trigger] after.own(side).contains_key(p) == book.own(
                        side,
                    ).contains_key(p) && after.own(side)[p] == book.own(side)[p]
            } else {
                after.own(side) == book.own(side) && after.lookup == book.lookup
            }
        }),
{
    let taker = incoming(book, side, OrderType::Limit, price, quantity, timestamp);
    walk_keeps(
        book.opposite(side),
        candidates(book.opposite(side), side, Some(price)),
        taker,
        true,
    );
}

/// A market order never enters the book: its own side and what the book remembers stay as they
/// are, and no new level appears on the opposite side.
pub proof fn market_never_rests(book: BookView, side: Side, quantity: Quantity)
    ensures
        ({
            let after = book.market_outcome(side, quantity).book;
            &&& after.own(side) == book.own(side)
            &&& after.lookup == book.lookup
            &&& after.opposite(side).dom() == book.opposite(side).dom()
        }),
{
    let taker = incoming(book, side, OrderType::Market, 0, quantity, 0);
    walk_keeps(book.opposite(side), candidates(book.opposite(side), side, None), taker, false);
}

/// The cached total of a side is what really rests there, as long as no level holds more than a
/// `Quantity` can say.
pub proof fn cached_totals_are_true(levels: Map<Price, LevelView>, side: Side)
    requires
        side_wf(levels, side),
        forall|p: Price| #[trigger]
            levels.contains_key(p) ==> queued(levels[p].orders) <= Quantity::MAX,
    ensures
        total_of(levels, cached()) == total_of(levels, resting()),
    decreases levels.dom().len(),
{
    if levels.dom().len() != 0 {
        let price = levels.dom().choose();
        assert(levels.contains_key(price));
        let fewer = levels.remove(price);
        assert(fewer.dom() =~= levels.dom().remove(price));
        assert forall|p: Price| #[trigger] fewer.contains_key(p) implies p > 0 && fewer[p].wf(
            side,
            p,
        ) && queued(fewer[p].orders) <= Quantity::MAX by {
            assert(levels.contains_key(p));
        }
        cached_totals_are_true(fewer, side);
    }
}

/// First in, first out: an order that joins a queue leaves it after those that are already there.
pub proof fn first_in_first_out(level: LevelView, order: Order)
    ensures
        level.orders.len() == 0 ==> level.pushed(order).orders[0] == order,
        level.orders.len() > 0 ==> {
            &&& level.pushed(order).orders[0] == level.orders[0]
            &&& level.pushed(order).popped() == level.popped().pushed(order)
        },
{
    if level.orders.len() > 0 {
        assert(level.pushed(order).popped() =~= level.popped().pushed(order));
    }
}

/// Removing an order that has just joined a level leaves the level as it was.
pub proof fn push_then_remove(level: LevelView, order: Order)
    requires
        !holds(level.orders, order.order_id),
    ensures
        ({
            let pushed = level.pushed(order);
            let i = first_index(pushed.orders, order.order_id);
            &&& holds(pushed.orders, order.order_id)
            &&& pushed.orders[i] == order
            &&& pushed.without(i) == level
        }),
{
    let orders = level.orders.push(order);
    let last = level.orders.len() as int;
    assert(orders[last] == order);
    first_found(orders, order.order_id);
    let i = first_index(orders, order.order_id);
    if i < last {
        assert(level.orders[i] == orders[i]);
    }
    assert(orders.remove(last) =~= level.orders);
    assert(level.pushed(order).without(last) =~= level);
}

/// Adding an order to a level and removing one keep the cached total true: it is what really
/// rests there, modulo the range of a `u64`.
pub proof fn cached_total_stays_true(level: LevelView, order: Order, i: int)
    requires
        level.total_quantity == queued(level.orders) % 0x1_0000_0000_0000_0000,
    ensures
        level.pushed(order).total_quantity == queued(level.pushed(order).orders)
            % 0x1_0000_0000_0000_0000,
        0 <= i < level.orders.len() ==> level.without(i).total_quantity == queued(
            level.without(i).orders,
        ) % 0x1_0000_0000_0000_0000,
{
    queued_pushed(level.orders, order);
    if 0 <= i < level.orders.len() {
        queued_without(level.orders, i);
    }
}

} // verus!
