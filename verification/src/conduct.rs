//! What submitting an order does, in plain numbers, sequences and maps.

use vstd::prelude::*;

use crate::events::Fill;
use crate::invariants::{
    filled, filled_adds, queued_adds, step_wf, sweep_keeps, sweep_wf, tail_distinct,
    walk_elsewhere, walk_exhausts, walk_keeps, walk_wf,
};
use crate::ladder::{as_good, candidates, crosses, stepped, walked};
use crate::laws::{
    candidates_list, incoming, limit_goes_down_the_line, market_goes_down_the_line, other,
    walk_by_price_priority,
};
use crate::level::LevelView;
use crate::model::{side_wf, BookView};
use crate::order::Order;
use crate::priority::{fills_stand_at, go_down, in_line, share, time_priority, walk_sweeps};
use crate::totals::queued;
use crate::types::{OrderId, OrderStatus, OrderType, Price, Quantity, Side};

verus! {

/// Whether `after` is `before` once it has been served from the front: the orders that are left
/// are the last ones, in their order of arrival and untouched, but that the first of them may
/// have been filled in part.
pub open spec fn served(before: Seq<Order>, after: Seq<Order>) -> bool {
    let gone = before.len() - after.len();
    &&& 0 <= gone
    &&& forall|j: int| 0 < j < after.len() ==> #[trigger] after[j] == before[j + gone]
    &&& after.len() > 0 ==> after[0] == before[gone] || {
        &&& after[0].order_id == before[gone].order_id
        &&& after[0].side == before[gone].side
        &&& after[0].order_type == before[gone].order_type
        &&& after[0].price == before[gone].price
        &&& after[0].original_quantity == before[gone].original_quantity
        &&& after[0].timestamp == before[gone].timestamp
        &&& 0 < after[0].remaining_quantity < before[gone].remaining_quantity
        &&& after[0].status == OrderStatus::PartiallyFilled
    }
}

/// The queue at a price; there is none where there is no level.
pub open spec fn queue_at(levels: Map<Price, LevelView>, price: Price) -> Seq<Order> {
    if levels.contains_key(price) {
        levels[price].orders
    } else {
        Seq::empty()
    }
}

/// Trading at a level serves its queue from the front.
proof fn sweep_serves(level: LevelView, taker: Order, side: Side, price: Price)
    requires
        level.wf(side, price),
    ensures
        served(level.orders, level.swept(taker).level.orders),
{
    let after = level.swept(taker).level.orders;
    let gone = level.orders.len() - after.len();
    time_priority(level, taker, side, price);
    sweep_wf(level, taker, side, price);
    if after.len() > 0 {
        assert(level.orders[gone].rests_at(side, price));
        assert(after[0].rests_at(side, price));
    }
}

/// Trading along a side serves every queue from the front.
proof fn walk_serves(
    levels: Map<Price, LevelView>,
    prices: Seq<Price>,
    taker: Order,
    prune: bool,
    side: Side,
    price: Price,
)
    requires
        side_wf(levels, side),
        prices.no_duplicates(),
    ensures
        served(
            queue_at(levels, price),
            queue_at(walked(levels, prices, taker, prune).levels, price),
        ),
{
    let after = walked(levels, prices, taker, prune).levels;
    walk_keeps(levels, prices, taker, prune);
    if levels.contains_key(price) {
        let arrival = walk_sweeps(levels, prices, taker, prune, side, price);
        sweep_serves(levels[price], arrival, side, price);
    }
}

/// An order that is used up at a level is filled.
proof fn sweep_finishes(level: LevelView, taker: Order)
    requires
        taker.remaining_quantity > 0,
        level.swept(taker).taker.remaining_quantity == 0,
    ensures
        level.swept(taker).taker.status == OrderStatus::Filled,
    decreases level.orders.len(),
{
    if level.orders.len() != 0 {
        let maker = level.orders[0];
        if !maker.live() {
            sweep_finishes(level.without(0), taker);
        } else if maker.remaining_quantity == 0 {
            sweep_finishes(level.popped(), taker);
        } else if level.front_left(taker).remaining_quantity == 0 {
            let next = taker.after_fill(level.front_fill(taker).quantity);
            if next.remaining_quantity > 0 {
                sweep_finishes(level.past_front(taker), next);
            } else {
                assert(level.past_front(taker).swept(next).taker == next);
            }
        }
    }
}

/// An order that is used up along a side is filled.
proof fn walk_finishes(
    levels: Map<Price, LevelView>,
    prices: Seq<Price>,
    taker: Order,
    prune: bool,
)
    requires
        taker.remaining_quantity > 0,
        walked(levels, prices, taker, prune).taker.remaining_quantity == 0,
    ensures
        walked(levels, prices, taker, prune).taker.status == OrderStatus::Filled,
    decreases prices.len(),
{
    if prices.len() != 0 {
        let price = prices[0];
        let rest = prices.drop_first();
        if !levels.contains_key(price) {
            walk_finishes(levels, rest, taker, prune);
        } else {
            let here = levels[price].swept(taker);
            if here.taker.remaining_quantity == 0 {
                sweep_finishes(levels[price], taker);
                assert(walked(
                    stepped(levels, price, taker, prune),
                    rest,
                    here.taker,
                    prune,
                ).taker == here.taker);
            } else {
                walk_finishes(stepped(levels, price, taker, prune), rest, here.taker, prune);
            }
        }
    }
}

/// With `prune`, the only levels without orders that a walk leaves are those that it did not
/// come to.
proof fn walk_prunes(levels: Map<Price, LevelView>, prices: Seq<Price>, taker: Order)
    ensures
        forall|p: Price| #[trigger]
            walked(levels, prices, taker, true).levels.contains_key(p) && walked(
                levels,
                prices,
                taker,
                true,
            ).levels[p].orders.len() == 0 ==> levels.contains_key(p) && levels[p].orders.len()
                == 0,
    decreases prices.len(),
{
    if prices.len() != 0 && taker.remaining_quantity != 0 {
        let price = prices[0];
        let rest = prices.drop_first();
        if !levels.contains_key(price) {
            walk_prunes(levels, rest, taker);
        } else {
            let left = stepped(levels, price, taker, true);
            walk_prunes(left, rest, levels[price].swept(taker).taker);
            let after = walked(left, rest, levels[price].swept(taker).taker, true).levels;
            assert(walked(levels, prices, taker, true).levels == after);
            assert forall|p: Price| #[trigger]
                after.contains_key(p) && after[p].orders.len() == 0 implies levels.contains_key(p)
                && levels[p].orders.len() == 0 by {
                assert(left.contains_key(p));
            }
        }
    }
}

/// Some fills add up to something, none to nothing.
proof fn filled_some(fills: Seq<Fill>)
    requires
        forall|a: int| 0 <= a < fills.len() ==> (#[trigger] fills[a]).quantity > 0,
    ensures
        (filled(fills) > 0) == (fills.len() > 0),
{
    if fills.len() > 0 {
        assert(fills[0].quantity > 0);
    }
}

/// What trading along the candidates of an incoming order does.
proof fn walk_means(
    levels: Map<Price, LevelView>,
    taker: Order,
    prune: bool,
    side: Side,
    limit: Option<Price>,
)
    requires
        side_wf(levels, other(side)),
        taker.status == OrderStatus::Active,
        taker.remaining_quantity == taker.original_quantity,
    ensures
        ({
            let walk = walked(levels, candidates(levels, side, limit), taker, prune);
            &&& forall|a: int|
                0 <= a < walk.fills.len() ==> {
                    &&& (#[trigger] walk.fills[a]).taker_order_id == taker.order_id
                    &&& walk.fills[a].quantity > 0
                    &&& crosses(side, limit, walk.fills[a].price)
                    &&& levels.contains_key(walk.fills[a].price)
                    &&& exists|j: int|
                        0 <= j < levels[walk.fills[a].price].orders.len() && (
                        #[trigger] levels[walk.fills[a].price].orders[j]).order_id
                            == walk.fills[a].maker_order_id
                }
            &&& forall|a: int, b: int|
                #![trigger walk.fills[a], walk.fills[b]]
                0 <= a < b < walk.fills.len() ==> as_good(
                    side,
                    walk.fills[a].price,
                    walk.fills[b].price,
                )
            &&& forall|p: Price| #[trigger] served(queue_at(levels, p), queue_at(walk.levels, p))
            &&& forall|p: Price|
                !crosses(side, limit, p) ==> #[trigger] walk.levels.contains_key(p)
                    == levels.contains_key(p) && walk.levels[p] == levels[p]
            &&& walk.taker.remaining_quantity > 0 ==> forall|p: Price|
                crosses(side, limit, p) ==> (#[trigger] queue_at(walk.levels, p)).len() == 0
            &&& filled(walk.fills) + walk.taker.remaining_quantity == taker.remaining_quantity
            &&& walk.taker == (Order {
                remaining_quantity: walk.taker.remaining_quantity,
                status: walk.taker.status,
                ..taker
            })
            &&& walk.fills.len() == 0 ==> walk.taker.remaining_quantity
                == taker.remaining_quantity
            &&& walk.fills.len() > 0 ==> walk.taker.remaining_quantity < taker.remaining_quantity
            &&& walk.taker.remaining_quantity == 0 && taker.remaining_quantity > 0
                ==> walk.taker.status == OrderStatus::Filled
            &&& walk.taker.remaining_quantity > 0 ==> walk.taker.status == (
            if walk.fills.len() == 0 {
                OrderStatus::Active
            } else {
                OrderStatus::PartiallyFilled
            })
            &&& side_wf(walk.levels, other(side))
        }),
{
    let prices = candidates(levels, side, limit);
    let walk = walked(levels, prices, taker, prune);
    candidates_list(levels, side, limit);
    walk_keeps(levels, prices, taker, prune);
    walk_wf(levels, prices, taker, prune, other(side));
    walk_by_price_priority(levels, taker, prune, side, limit, other(side));
    fills_stand_at(levels, prices, taker, prune, other(side));
    filled_some(walk.fills);
    assert forall|a: int| 0 <= a < walk.fills.len() implies exists|j: int|
        0 <= j < levels[(#[trigger] walk.fills[a]).price].orders.len() && (
        #[trigger] levels[walk.fills[a].price].orders[j]).order_id
            == walk.fills[a].maker_order_id by {
        let price = walk.fills[a].price;
        let arrival = walk_sweeps(levels, prices, taker, prune, other(side), price);
        let there = levels[price].swept(arrival);
        time_priority(levels[price], arrival, other(side), price);
        assert(there.fills.contains(walk.fills[a]));
        let k = there.fills.index_of(walk.fills[a]);
        assert(there.fills[k] == walk.fills[a]);
        assert(levels[price].orders[k].order_id == walk.fills[a].maker_order_id);
    }
    assert forall|p: Price| #[trigger] served(queue_at(levels, p), queue_at(walk.levels, p)) by {
        walk_serves(levels, prices, taker, prune, other(side), p);
    }
    assert forall|p: Price| !crosses(side, limit, p) implies #[trigger] walk.levels.contains_key(p)
        == levels.contains_key(p) && walk.levels[p] == levels[p] by {
        walk_elsewhere(levels, prices, taker, prune, p);
    }
    if walk.taker.remaining_quantity > 0 {
        walk_exhausts(levels, prices, taker, prune);
        assert forall|p: Price| crosses(side, limit, p) implies (
        #[trigger] queue_at(walk.levels, p)).len() == 0 by {
            if walk.levels.contains_key(p) {
                assert(levels.contains_key(p));
                assert(prices.contains(p));
                let i = prices.index_of(p);
                assert(prices[i] == p);
            }
        }
        walk_status(levels, prices, taker, prune);
    } else if taker.remaining_quantity > 0 {
        walk_finishes(levels, prices, taker, prune);
    }
}

/// An order with something left is filled in part exactly if a walk has filled some of it.
proof fn walk_status(levels: Map<Price, LevelView>, prices: Seq<Price>, taker: Order, prune: bool)
    requires
        walked(levels, prices, taker, prune).taker.remaining_quantity > 0,
    ensures
        ({
            let after = walked(levels, prices, taker, prune).taker;
            after.status == if after.remaining_quantity == taker.remaining_quantity {
                taker.status
            } else {
                OrderStatus::PartiallyFilled
            }
        }),
    decreases prices.len(),
{
    if prices.len() != 0 {
        let price = prices[0];
        let rest = prices.drop_first();
        walk_keeps(levels, prices, taker, prune);
        if !levels.contains_key(price) {
            walk_status(levels, rest, taker, prune);
        } else {
            let here = levels[price].swept(taker);
            let left = stepped(levels, price, taker, prune);
            walk_keeps(left, rest, here.taker, prune);
            sweep_status(levels[price], taker);
            sweep_keeps(levels[price], taker);
            walk_status(left, rest, here.taker, prune);
        }
    }
}

/// An order with something left is filled in part exactly if a level has filled some of it.
proof fn sweep_status(level: LevelView, taker: Order)
    requires
        level.swept(taker).taker.remaining_quantity > 0,
    ensures
        ({
            let after = level.swept(taker).taker;
            after.status == if after.remaining_quantity == taker.remaining_quantity {
                taker.status
            } else {
                OrderStatus::PartiallyFilled
            }
        }),
    decreases level.orders.len(),
{
    if level.orders.len() != 0 && taker.remaining_quantity != 0 {
        let maker = level.orders[0];
        if !maker.live() {
            sweep_status(level.without(0), taker);
        } else if maker.remaining_quantity == 0 {
            sweep_status(level.popped(), taker);
        } else if level.front_left(taker).remaining_quantity == 0 {
            let next = taker.after_fill(level.front_fill(taker).quantity);
            sweep_keeps(level.past_front(taker), next);
            sweep_status(level.past_front(taker), next);
        }
    }
}

/// A limit buy never trades above its limit, a limit sell never below. Where every ask is above
/// a buyer's limit, or every bid below a seller's, there is no fill at all.
pub proof fn limit_is_never_exceeded(
    book: BookView,
    price: Price,
    quantity: Quantity,
    timestamp: u64,
)
    requires
        book.wf(),
    ensures
        forall|a: int|
            0 <= a < book.limit_outcome(Side::Buy, price, quantity, timestamp).fills.len() ==> (
            #[trigger] book.limit_outcome(
                Side::Buy,
                price,
                quantity,
                timestamp,
            ).fills[a]).price <= price,
        forall|a: int|
            0 <= a < book.limit_outcome(Side::Sell, price, quantity, timestamp).fills.len() ==> (
            #[trigger] book.limit_outcome(
                Side::Sell,
                price,
                quantity,
                timestamp,
            ).fills[a]).price >= price,
        (forall|p: Price| #[trigger] book.asks.contains_key(p) ==> p > price)
            ==> book.limit_outcome(Side::Buy, price, quantity, timestamp).fills.len() == 0,
        (forall|p: Price| #[trigger] book.bids.contains_key(p) ==> p < price)
            ==> book.limit_outcome(Side::Sell, price, quantity, timestamp).fills.len() == 0,
{
    limit_means(book, Side::Buy, price, quantity, timestamp);
    limit_means(book, Side::Sell, price, quantity, timestamp);
    let buys = book.limit_outcome(Side::Buy, price, quantity, timestamp).fills;
    let sells = book.limit_outcome(Side::Sell, price, quantity, timestamp).fills;
    if buys.len() > 0 {
        assert(book.asks.contains_key(buys[0].price) && buys[0].price <= price);
    }
    if sells.len() > 0 {
        assert(book.bids.contains_key(sells[0].price) && sells[0].price >= price);
    }
}

/// Whether `p` is within the limit `price` of an incoming order: at or below it for a buyer, at
/// or above it for a seller.
pub open spec fn within(buys: bool, price: Price, p: Price) -> bool {
    if buys {
        p <= price
    } else {
        p >= price
    }
}

/// Whether these are proper fills of the order with identifier `id` with the orders in `before`,
/// of which `after` is left: they carry its identifier, are for something, are with an order that
/// rests at the price of the fill, and go from better prices to worse; and every queue has been
/// served from the front.
pub open spec fn proper(
    before: Map<Price, LevelView>,
    after: Map<Price, LevelView>,
    fills: Seq<Fill>,
    buys: bool,
    id: OrderId,
) -> bool {
    &&& forall|a: int|
        0 <= a < fills.len() ==> {
            &&& (#[trigger] fills[a]).taker_order_id == id
            &&& fills[a].quantity > 0
            &&& before.contains_key(fills[a].price)
            &&& exists|j: int|
                0 <= j < before[fills[a].price].orders.len() && (
                #[trigger] before[fills[a].price].orders[j]).order_id == fills[a].maker_order_id
        }
    &&& forall|a: int, b: int|
        #![trigger fills[a], fills[b]]
        0 <= a < b < fills.len() && buys ==> fills[a].price <= fills[b].price
    &&& forall|a: int, b: int|
        #![trigger fills[a], fills[b]]
        0 <= a < b < fills.len() && !buys ==> fills[a].price >= fills[b].price
    &&& forall|p: Price| #[trigger] served(queue_at(before, p), queue_at(after, p))
}

/// Whether a limit order of which `left` is left has kept within its limit: so have its fills,
/// levels beyond it are not touched, nothing within it is left if something of the order is, and
/// no level has been left behind empty.
pub open spec fn kept_within(
    before: Map<Price, LevelView>,
    after: Map<Price, LevelView>,
    fills: Seq<Fill>,
    buys: bool,
    price: Price,
    left: Quantity,
) -> bool {
    &&& forall|a: int| 0 <= a < fills.len() ==> within(buys, price, (#[trigger] fills[a]).price)
    &&& forall|p: Price|
        !within(buys, price, p) ==> #[trigger] after.contains_key(p) == before.contains_key(p)
            && after[p] == before[p]
    &&& left > 0 ==> forall|p: Price|
        within(buys, price, p) ==> (#[trigger] queue_at(after, p)).len() == 0
    &&& forall|p: Price| #[trigger]
        after.contains_key(p) ==> before.contains_key(p) && (after[p].orders.len() == 0
            ==> before[p].orders.len() == 0)
}

/// Whether what is left of an order has gone behind the queue at its price, or, if nothing is
/// left of it, nowhere.
pub open spec fn joined(
    before: Map<Price, LevelView>,
    after: Map<Price, LevelView>,
    order: Order,
) -> bool {
    if order.remaining_quantity == 0 {
        after == before
    } else {
        &&& after.contains_key(order.price)
        &&& after[order.price].price == order.price
        &&& after[order.price].orders == queue_at(before, order.price).push(order)
        &&& forall|p: Price|
            p != order.price ==> #[trigger] after.contains_key(p) == before.contains_key(p)
                && after[p] == before[p]
    }
}

/// What submitting a limit order does.
///
/// It trades properly with the opposite side and keeps within its limit. What is left of it, with
/// a status to match, goes behind the queue at its price on its own side, and the book remembers
/// that place; if nothing is left, its own side and what the book remembers stay as they are.
pub proof fn limit_means(
    book: BookView,
    side: Side,
    price: Price,
    quantity: Quantity,
    timestamp: u64,
)
    requires
        book.wf(),
    ensures
        ({
            let outcome = book.limit_outcome(side, price, quantity, timestamp);
            let fills = outcome.fills;
            let taker = outcome.taker;
            let left = taker.remaining_quantity;
            &&& side == Side::Buy ==> {
                &&& proper(book.asks, outcome.book.asks, fills, true, book.next_order_id)
                &&& kept_within(book.asks, outcome.book.asks, fills, true, price, left)
                &&& joined(book.bids, outcome.book.bids, taker)
            }
            &&& side == Side::Sell ==> {
                &&& proper(book.bids, outcome.book.bids, fills, false, book.next_order_id)
                &&& kept_within(book.bids, outcome.book.bids, fills, false, price, left)
                &&& joined(book.asks, outcome.book.asks, taker)
            }
            &&& taker.order_id == book.next_order_id
            &&& taker.side == side
            &&& taker.order_type == OrderType::Limit
            &&& taker.price == price
            &&& taker.original_quantity == quantity
            &&& left + filled(fills) == quantity
            &&& taker.timestamp == timestamp
            &&& left > 0 && fills.len() == 0 ==> taker.status == OrderStatus::Active
            &&& left > 0 && fills.len() > 0 ==> taker.status == OrderStatus::PartiallyFilled
            &&& left == 0 && quantity > 0 ==> taker.status == OrderStatus::Filled
            &&& left == 0 ==> outcome.book.lookup == book.lookup
            &&& left > 0 ==> outcome.book.lookup == book.lookup.insert(
                book.next_order_id,
                (side, price),
            )
            &&& outcome.book.next_order_id == (book.next_order_id + 1) % 0x1_0000_0000_0000_0000
        }),
{
    let taker = incoming(book, side, OrderType::Limit, price, quantity, timestamp);
    let levels = book.opposite(side);
    let prices = candidates(levels, side, Some(price));
    let outcome = book.limit_outcome(side, price, quantity, timestamp);
    let after = walked(levels, prices, taker, true).levels;
    walk_means(levels, taker, true, side, Some(price));
    walk_keeps(levels, prices, taker, true);
    walk_prunes(levels, prices, taker);
    assert(outcome.book.opposite(side) == after);
    assert(forall|p: Price|
        crosses(side, Some(price), p) == within(side == Side::Buy, price, p));
    assert(proper(levels, after, outcome.fills, side == Side::Buy, book.next_order_id));
    assert(kept_within(
        levels,
        after,
        outcome.fills,
        side == Side::Buy,
        price,
        outcome.taker.remaining_quantity,
    ));
    if book.own(side).contains_key(price) {
        assert(book.own(side)[price].wf(side, price));
    }
    assert(joined(book.own(side), outcome.book.own(side), outcome.taker));
}

/// What submitting a market order does.
///
/// It trades properly with the opposite side, and if something of it is left, no order is. Its
/// own side, what the book remembers and the levels of the opposite side stay.
pub proof fn market_means(book: BookView, side: Side, quantity: Quantity)
    requires
        book.wf(),
    ensures
        ({
            let outcome = book.market_outcome(side, quantity);
            let fills = outcome.fills;
            let taker = outcome.taker;
            &&& side == Side::Buy ==> {
                &&& proper(book.asks, outcome.book.asks, fills, true, book.next_order_id)
                &&& taker.remaining_quantity > 0 ==> forall|p: Price|
                    (#[trigger] queue_at(outcome.book.asks, p)).len() == 0
                &&& outcome.book.asks.dom() == book.asks.dom()
                &&& outcome.book.bids == book.bids
            }
            &&& side == Side::Sell ==> {
                &&& proper(book.bids, outcome.book.bids, fills, false, book.next_order_id)
                &&& taker.remaining_quantity > 0 ==> forall|p: Price|
                    (#[trigger] queue_at(outcome.book.bids, p)).len() == 0
                &&& outcome.book.bids.dom() == book.bids.dom()
                &&& outcome.book.asks == book.asks
            }
            &&& taker.order_id == book.next_order_id
            &&& taker.remaining_quantity + filled(fills) == quantity
            &&& outcome.book.lookup == book.lookup
            &&& outcome.book.next_order_id == (book.next_order_id + 1) % 0x1_0000_0000_0000_0000
        }),
{
    let taker = incoming(book, side, OrderType::Market, 0, quantity, 0);
    let levels = book.opposite(side);
    let prices = candidates(levels, side, None);
    let outcome = book.market_outcome(side, quantity);
    walk_means(levels, taker, false, side, None);
    walk_keeps(levels, prices, taker, false);
    assert(proper(
        levels,
        walked(levels, prices, taker, false).levels,
        outcome.fills,
        side == Side::Buy,
        book.next_order_id,
    ));
}

/// Shares add up to all that is wanted or all that stands in line so far, whichever is less.
proof fn shares_add_up(fills: Seq<Fill>, line: Seq<Order>, quantity: Quantity, k: int)
    requires
        0 <= k <= fills.len() <= line.len(),
        forall|i: int|
            0 <= i < fills.len() ==> (#[trigger] fills[i]).quantity == share(line, quantity, i),
    ensures
        filled(fills.take(k)) == if quantity <= queued(line.take(k)) {
            quantity as nat
        } else {
            queued(line.take(k))
        },
    decreases k,
{
    if k > 0 {
        shares_add_up(fills, line, quantity, k - 1);
        assert(fills.take(k) =~= fills.take(k - 1) + seq![fills[k - 1]]);
        assert(line.take(k) =~= line.take(k - 1) + seq![line[k - 1]]);
        filled_adds(fills.take(k - 1), seq![fills[k - 1]]);
        queued_adds(line.take(k - 1), seq![line[k - 1]]);
        reveal_with_fuel(filled, 2);
        reveal_with_fuel(queued, 2);
        assert(seq![fills[k - 1]].drop_first() =~= Seq::<Fill>::empty());
        assert(seq![line[k - 1]].drop_first() =~= Seq::<Order>::empty());
        assert(fills[k - 1].quantity == share(line, quantity, k - 1));
    }
}

/// Every order in line has something left.
proof fn line_is_live(levels: Map<Price, LevelView>, prices: Seq<Price>, side: Side)
    requires
        side_wf(levels, side),
    ensures
        forall|i: int|
            0 <= i < in_line(levels, prices).len() ==> (
            #[trigger] in_line(levels, prices)[i]).remaining_quantity > 0,
    decreases prices.len(),
{
    if prices.len() != 0 {
        line_is_live(levels, prices.drop_first(), side);
        let rest = in_line(levels, prices.drop_first());
        if levels.contains_key(prices[0]) {
            let here = levels[prices[0]].orders;
            assert(levels[prices[0]].wf(side, prices[0]));
            assert forall|i: int| 0 <= i < (here + rest).len() implies (#[trigger] (here
                + rest)[i]).remaining_quantity > 0 by {
                if i < here.len() {
                    assert(here[i].rests_at(side, prices[0]));
                } else {
                    assert((here + rest)[i] == rest[i - here.len()]);
                }
            }
        }
    }
}

/// Whether fills use a line of orders up from its front: the `i`-th fill is with the `i`-th
/// order, at its price; all fills but the last take what their order has left, and the last takes
/// no more than that; and if `left` of the incoming order is something, then the whole line is
/// used up.
pub open spec fn uses_up(fills: Seq<Fill>, line: Seq<Order>, left: Quantity) -> bool {
    &&& fills.len() <= line.len()
    &&& forall|i: int|
        0 <= i < fills.len() ==> {
            &&& (#[trigger] fills[i]).maker_order_id == line[i].order_id
            &&& fills[i].price == line[i].price
            &&& 0 < fills[i].quantity <= line[i].remaining_quantity
            &&& i + 1 < fills.len() ==> fills[i].quantity == line[i].remaining_quantity
            &&& left > 0 ==> fills[i].quantity == line[i].remaining_quantity
        }
    &&& left > 0 ==> fills.len() == line.len()
}

/// Going down a line by shares uses it up from its front.
proof fn shares_use_up(fills: Seq<Fill>, line: Seq<Order>, quantity: Quantity, left: Quantity)
    requires
        go_down(fills, line, quantity),
        filled(fills) + left == quantity,
        forall|i: int| 0 <= i < line.len() ==> (#[trigger] line[i]).remaining_quantity > 0,
        forall|i: int| 0 <= i < fills.len() ==> (#[trigger] fills[i]).quantity > 0,
    ensures
        uses_up(fills, line, left),
{
    let k = fills.len() as int;
    shares_add_up(fills, line, quantity, k);
    assert(fills.take(k) =~= fills);
    if left > 0 {
        assert(quantity > queued(line.take(k)));
        if k < line.len() {
            assert(share(line, quantity, k) == 0);
            assert(line[k].remaining_quantity > 0);
        }
        if k > 0 {
            assert(line.take(k) =~= line.take(k - 1) + seq![line[k - 1]]);
            queued_adds(line.take(k - 1), seq![line[k - 1]]);
            reveal_with_fuel(queued, 2);
            assert(seq![line[k - 1]].drop_first() =~= Seq::<Order>::empty());
            assert(fills[k - 1].quantity == share(line, quantity, k - 1));
        }
    }
}

/// A limit order uses up the line of all orders within its limit, best price first and oldest
/// first, until it is used up itself.
pub proof fn limit_uses_up_the_line(
    book: BookView,
    side: Side,
    price: Price,
    quantity: Quantity,
    timestamp: u64,
)
    requires
        book.wf(),
    ensures
        side == Side::Buy ==> uses_up(
            book.limit_outcome(side, price, quantity, timestamp).fills,
            in_line(book.asks, candidates(book.asks, Side::Buy, Some(price))),
            book.limit_outcome(side, price, quantity, timestamp).taker.remaining_quantity,
        ),
        side == Side::Sell ==> uses_up(
            book.limit_outcome(side, price, quantity, timestamp).fills,
            in_line(book.bids, candidates(book.bids, Side::Sell, Some(price))),
            book.limit_outcome(side, price, quantity, timestamp).taker.remaining_quantity,
        ),
{
    let outcome = book.limit_outcome(side, price, quantity, timestamp);
    let levels = book.opposite(side);
    let prices = candidates(levels, side, Some(price));
    limit_means(book, side, price, quantity, timestamp);
    limit_goes_down_the_line(book, side, price, quantity, timestamp);
    line_is_live(levels, prices, other(side));
    shares_use_up(
        outcome.fills,
        in_line(levels, prices),
        quantity,
        outcome.taker.remaining_quantity,
    );
}

/// A market order uses up the line of all orders of the opposite side, best price first and
/// oldest first, until it is used up itself.
pub proof fn market_uses_up_the_line(book: BookView, side: Side, quantity: Quantity)
    requires
        book.wf(),
    ensures
        side == Side::Buy ==> uses_up(
            book.market_outcome(side, quantity).fills,
            in_line(book.asks, candidates(book.asks, Side::Buy, None)),
            book.market_outcome(side, quantity).taker.remaining_quantity,
        ),
        side == Side::Sell ==> uses_up(
            book.market_outcome(side, quantity).fills,
            in_line(book.bids, candidates(book.bids, Side::Sell, None)),
            book.market_outcome(side, quantity).taker.remaining_quantity,
        ),
{
    let outcome = book.market_outcome(side, quantity);
    let levels = book.opposite(side);
    let prices = candidates(levels, side, None);
    market_means(book, side, quantity);
    market_goes_down_the_line(book, side, quantity);
    line_is_live(levels, prices, other(side));
    shares_use_up(
        outcome.fills,
        in_line(levels, prices),
        quantity,
        outcome.taker.remaining_quantity,
    );
}

/// The quantities of the fills at one price, added up.
pub open spec fn filled_at(fills: Seq<Fill>, price: Price) -> nat
    decreases fills.len(),
{
    if fills.len() == 0 {
        0
    } else {
        let first: nat = if fills[0].price == price {
            fills[0].quantity as nat
        } else {
            0
        };
        first + filled_at(fills.drop_first(), price)
    }
}

/// Fills at one price add up across a concatenation.
pub proof fn filled_at_adds(a: Seq<Fill>, b: Seq<Fill>, price: Price)
    ensures
        filled_at(a + b, price) == filled_at(a, price) + filled_at(b, price),
    decreases a.len(),
{
    if a.len() == 0 {
        assert(a + b =~= b);
    } else {
        filled_at_adds(a.drop_first(), b, price);
        assert((a + b).drop_first() =~= a.drop_first() + b);
    }
}

/// Fills that all stand at one price all count at it, and those elsewhere do not.
proof fn filled_at_one(fills: Seq<Fill>, price: Price, here: bool)
    requires
        forall|a: int| 0 <= a < fills.len() ==> ((#[trigger] fills[a]).price == price) == here,
    ensures
        filled_at(fills, price) == if here {
            filled(fills)
        } else {
            0
        },
    decreases fills.len(),
{
    if fills.len() > 0 {
        let rest = fills.drop_first();
        assert forall|a: int| 0 <= a < rest.len() implies ((#[trigger] rest[a]).price == price)
            == here by {
            assert(rest[a] == fills[a + 1]);
        }
        assert((fills[0].price == price) == here);
        filled_at_one(rest, price, here);
    }
}

/// Along a side, every queue loses exactly what is filled at its price.
proof fn walk_pays_at(
    levels: Map<Price, LevelView>,
    prices: Seq<Price>,
    taker: Order,
    prune: bool,
    side: Side,
    price: Price,
)
    requires
        side_wf(levels, side),
        prices.no_duplicates(),
    ensures
        queued(queue_at(walked(levels, prices, taker, prune).levels, price)) + filled_at(
            walked(levels, prices, taker, prune).fills,
            price,
        ) == queued(queue_at(levels, price)),
    decreases prices.len(),
{
    if prices.len() != 0 && taker.remaining_quantity != 0 {
        let first = prices[0];
        let rest = prices.drop_first();
        tail_distinct(prices);
        if !levels.contains_key(first) {
            walk_pays_at(levels, rest, taker, prune, side, price);
        } else {
            let here = levels[first].swept(taker);
            let left = stepped(levels, first, taker, prune);
            let then = walked(left, rest, here.taker, prune);
            sweep_keeps(levels[first], taker);
            sweep_wf(levels[first], taker, side, first);
            step_wf(levels, first, taker, prune, side);
            walk_pays_at(left, rest, here.taker, prune, side, price);
            filled_at_adds(here.fills, then.fills, price);
            filled_at_one(here.fills, price, first == price);
        }
    }
}

/// Under a limit order, every queue of the opposite side loses exactly what is filled at its
/// price, and nothing changes in the queues that it does not trade with.
pub proof fn limit_fills_come_from_their_prices(
    book: BookView,
    side: Side,
    price: Price,
    quantity: Quantity,
    timestamp: u64,
    p: Price,
)
    requires
        book.wf(),
    ensures
        ({
            let outcome = book.limit_outcome(side, price, quantity, timestamp);
            &&& side == Side::Buy ==> queued(queue_at(outcome.book.asks, p)) + filled_at(
                outcome.fills,
                p,
            ) == queued(queue_at(book.asks, p))
            &&& side == Side::Sell ==> queued(queue_at(outcome.book.bids, p)) + filled_at(
                outcome.fills,
                p,
            ) == queued(queue_at(book.bids, p))
        }),
{
    let taker = incoming(book, side, OrderType::Limit, price, quantity, timestamp);
    let levels = book.opposite(side);
    let prices = candidates(levels, side, Some(price));
    candidates_list(levels, side, Some(price));
    walk_keeps(levels, prices, taker, true);
    walk_pays_at(levels, prices, taker, true, other(side), p);
}

/// Under a market order, every queue of the opposite side loses exactly what is filled at its
/// price.
pub proof fn market_fills_come_from_their_prices(
    book: BookView,
    side: Side,
    quantity: Quantity,
    p: Price,
)
    requires
        book.wf(),
    ensures
        ({
            let outcome = book.market_outcome(side, quantity);
            &&& side == Side::Buy ==> queued(queue_at(outcome.book.asks, p)) + filled_at(
                outcome.fills,
                p,
            ) == queued(queue_at(book.asks, p))
            &&& side == Side::Sell ==> queued(queue_at(outcome.book.bids, p)) + filled_at(
                outcome.fills,
                p,
            ) == queued(queue_at(book.bids, p))
        }),
{
    let taker = incoming(book, side, OrderType::Market, 0, quantity, 0);
    let levels = book.opposite(side);
    let prices = candidates(levels, side, None);
    candidates_list(levels, side, None);
    walk_pays_at(levels, prices, taker, false, other(side), p);
}

/// Whether an order can trade: it is active or partly filled, and something of it is left.
pub open spec fn tradable(order: Order) -> bool {
    &&& order.status == OrderStatus::Active || order.status == OrderStatus::PartiallyFilled
    &&& order.remaining_quantity > 0
}

/// The orders of a queue that can trade, oldest first.
pub open spec fn tradables(orders: Seq<Order>) -> Seq<Order> {
    orders.filter(|o: Order| tradable(o))
}

/// An order that can trade stands in front of those behind it; another one does not count.
proof fn tradables_front(orders: Seq<Order>)
    requires
        orders.len() > 0,
    ensures
        tradable(orders[0]) ==> tradables(orders) == seq![orders[0]] + tradables(
            orders.drop_first(),
        ),
        !tradable(orders[0]) ==> tradables(orders) == tradables(orders.drop_first()),
{
    let can = |o: Order| tradable(o);
    let front = seq![orders[0]];
    assert(orders =~= front + orders.drop_first());
    Seq::filter_distributes_over_add(front, orders.drop_first(), can);
    reveal_with_fuel(Seq::filter, 2);
    assert(front.drop_last() =~= Seq::<Order>::empty());
    if tradable(orders[0]) {
        assert(front.filter(can) =~= front);
    } else {
        assert(front.filter(can) =~= Seq::<Order>::empty());
        assert(Seq::<Order>::empty() + tradables(orders.drop_first()) =~= tradables(
            orders.drop_first(),
        ));
    }
}

/// Whether fills at a level take the orders of a line from its front, whole but perhaps the last,
/// and all of them whole if something of the incoming order is left.
pub open spec fn takes(fills: Seq<Fill>, line: Seq<Order>, left: Quantity) -> bool {
    &&& fills.len() <= line.len()
    &&& forall|i: int|
        0 <= i < fills.len() ==> {
            &&& (#[trigger] fills[i]).maker_order_id == line[i].order_id
            &&& 0 < fills[i].quantity <= line[i].remaining_quantity
            &&& i + 1 < fills.len() ==> fills[i].quantity == line[i].remaining_quantity
            &&& left > 0 ==> fills[i].quantity == line[i].remaining_quantity
        }
    &&& left > 0 ==> fills.len() == line.len()
}

/// Trading at a level takes the orders that can trade from the front.
proof fn sweep_takes(level: LevelView, taker: Order)
    ensures
        takes(
            level.swept(taker).fills,
            tradables(level.orders),
            level.swept(taker).taker.remaining_quantity,
        ),
    decreases level.orders.len(),
{
    let orders = level.orders;
    let sweep = level.swept(taker);
    if orders.len() == 0 {
        assert(tradables(orders) =~= Seq::<Order>::empty());
    } else if taker.remaining_quantity != 0 {
        let maker = orders[0];
        let rest = orders.drop_first();
        tradables_front(orders);
        assert(orders.remove(0) =~= rest);
        if !maker.live() {
            sweep_takes(level.without(0), taker);
        } else if maker.remaining_quantity == 0 {
            sweep_takes(level.popped(), taker);
        } else if level.front_left(taker).remaining_quantity == 0 {
            let next = taker.after_fill(level.front_fill(taker).quantity);
            let then = level.past_front(taker).swept(next);
            sweep_takes(level.past_front(taker), next);
            assert forall|i: int| 0 < i < sweep.fills.len() implies #[trigger] sweep.fills[i]
                == then.fills[i - 1] && tradables(orders)[i] == tradables(rest)[i - 1] by {}
        }
    }
}

/// Trading at a level serves its queue from the front, whatever stands in it.
proof fn sweep_serves_any(level: LevelView, taker: Order)
    ensures
        served(level.orders, level.swept(taker).level.orders),
    decreases level.orders.len(),
{
    let orders = level.orders;
    if orders.len() != 0 && taker.remaining_quantity != 0 {
        let maker = orders[0];
        assert(orders.remove(0) =~= orders.drop_first());
        if !maker.live() {
            sweep_serves_any(level.without(0), taker);
        } else if maker.remaining_quantity == 0 {
            sweep_serves_any(level.popped(), taker);
        } else if level.front_left(taker).remaining_quantity == 0 {
            let next = taker.after_fill(level.front_fill(taker).quantity);
            sweep_serves_any(level.past_front(taker), next);
        }
    }
}

/// Trading at a level keeps a true total true, whatever stands in its queue.
proof fn sweep_total(level: LevelView, taker: Order)
    requires
        level.total_quantity == queued(level.orders) % 0x1_0000_0000_0000_0000,
    ensures
        level.swept(taker).level.total_quantity == queued(level.swept(taker).level.orders)
            % 0x1_0000_0000_0000_0000,
    decreases level.orders.len(),
{
    let orders = level.orders;
    if orders.len() != 0 && taker.remaining_quantity != 0 {
        let maker = orders[0];
        assert(orders.remove(0) =~= orders.drop_first());
        if !maker.live() {
            sweep_total(level.without(0), taker);
        } else if maker.remaining_quantity == 0 {
            sweep_total(level.popped(), taker);
        } else if level.front_left(taker).remaining_quantity == 0 {
            let next = taker.after_fill(level.front_fill(taker).quantity);
            sweep_total(level.past_front(taker), next);
        } else {
            let after = seq![level.front_left(taker)] + orders.drop_first();
            assert(after.drop_first() =~= orders.drop_first());
        }
    }
}

/// What trading at any level does, whatever stands in its queue: the fills are between the
/// incoming order and the orders of the queue that can trade, from the front, each taken whole
/// but perhaps the last; orders that cannot trade are only cleared away. It goes on until the
/// incoming order or the queue is used up, what is left of the queue stays in its order, and a
/// true total stays true.
pub proof fn matching_means(level: LevelView, taker: Order)
    ensures
        ({
            let sweep = level.swept(taker);
            let line = level.orders.filter(|o: Order| tradable(o));
            let left = sweep.taker.remaining_quantity;
            &&& sweep.fills.len() <= line.len()
            &&& forall|i: int|
                0 <= i < sweep.fills.len() ==> {
                    &&& (#[trigger] sweep.fills[i]).taker_order_id == taker.order_id
                    &&& sweep.fills[i].maker_order_id == line[i].order_id
                    &&& sweep.fills[i].price == level.price
                    &&& 0 < sweep.fills[i].quantity <= line[i].remaining_quantity
                    &&& i + 1 < sweep.fills.len() ==> sweep.fills[i].quantity
                        == line[i].remaining_quantity
                    &&& left > 0 ==> sweep.fills[i].quantity == line[i].remaining_quantity
                }
            &&& left > 0 ==> sweep.fills.len() == line.len() && sweep.level.orders.len() == 0
            &&& filled(sweep.fills) + left == taker.remaining_quantity
            &&& sweep.level.price == level.price
            &&& served(level.orders, sweep.level.orders)
            &&& level.total_quantity == queued(level.orders) % 0x1_0000_0000_0000_0000
                ==> sweep.level.total_quantity == queued(sweep.level.orders)
                % 0x1_0000_0000_0000_0000
        }),
{
    sweep_keeps(level, taker);
    sweep_takes(level, taker);
    sweep_serves_any(level, taker);
    if level.total_quantity == queued(level.orders) % 0x1_0000_0000_0000_0000 {
        sweep_total(level, taker);
    }
}

/// What trading at any level makes of the incoming order: it loses what it is filled with, is
/// filled once nothing is left, and filled in part before; nothing else about it changes.
pub proof fn matched_taker_means(level: LevelView, taker: Order)
    ensures
        ({
            let after = level.swept(taker).taker;
            &&& after.remaining_quantity + filled(level.swept(taker).fills)
                == taker.remaining_quantity
            &&& after.remaining_quantity == taker.remaining_quantity ==> after.status
                == taker.status
            &&& 0 < after.remaining_quantity < taker.remaining_quantity ==> after.status
                == OrderStatus::PartiallyFilled
            &&& after.remaining_quantity == 0 < taker.remaining_quantity ==> after.status
                == OrderStatus::Filled
            &&& after.order_id == taker.order_id
            &&& after.side == taker.side
            &&& after.order_type == taker.order_type
            &&& after.price == taker.price
            &&& after.original_quantity == taker.original_quantity
            &&& after.timestamp == taker.timestamp
        }),
{
    sweep_keeps(level, taker);
    if level.swept(taker).taker.remaining_quantity > 0 {
        sweep_status(level, taker);
    } else if taker.remaining_quantity > 0 {
        sweep_finishes(level, taker);
    }
}

/// Walking along one price is trading at the level there, if there is one. With `prune`, a level
/// that is left empty goes; every other level stays as it is.
pub proof fn walk_at_one_price(
    levels: Map<Price, LevelView>,
    price: Price,
    taker: Order,
    prune: bool,
)
    ensures
        ({
            let walk = walked(levels, seq![price], taker, prune);
            let sweep = levels[price].swept(taker);
            &&& !levels.contains_key(price) || taker.remaining_quantity == 0 ==> walk.levels
                == levels && walk.taker == taker && walk.fills.len() == 0
            &&& levels.contains_key(price) && taker.remaining_quantity > 0 ==> {
                &&& walk.taker == sweep.taker
                &&& walk.fills == sweep.fills
                &&& prune && sweep.level.orders.len() == 0 ==> walk.levels == levels.remove(price)
                &&& !(prune && sweep.level.orders.len() == 0) ==> walk.levels == levels.insert(
                    price,
                    sweep.level,
                )
            }
        }),
{
    reveal_with_fuel(walked, 2);
    assert(seq![price].drop_first() =~= Seq::<Price>::empty());
    let sweep = levels[price].swept(taker);
    assert(sweep.fills + Seq::<Fill>::empty() =~= sweep.fills);
}

/// Walking along some prices and then along some more is walking along them all.
pub proof fn walk_in_turn(
    levels: Map<Price, LevelView>,
    first: Seq<Price>,
    second: Seq<Price>,
    taker: Order,
    prune: bool,
)
    ensures
        ({
            let one = walked(levels, first, taker, prune);
            let two = walked(one.levels, second, one.taker, prune);
            let both = walked(levels, first + second, taker, prune);
            &&& both.levels == two.levels
            &&& both.taker == two.taker
            &&& both.fills == one.fills + two.fills
        }),
    decreases first.len(),
{
    let both = first + second;
    if taker.remaining_quantity == 0 {
        assert(Seq::<Fill>::empty() + Seq::<Fill>::empty() =~= Seq::<Fill>::empty());
    } else if first.len() == 0 {
        assert(both =~= second);
        let two = walked(levels, second, taker, prune);
        assert(Seq::<Fill>::empty() + two.fills =~= two.fills);
    } else {
        let price = first[0];
        assert(both.drop_first() =~= first.drop_first() + second);
        if !levels.contains_key(price) {
            walk_in_turn(levels, first.drop_first(), second, taker, prune);
        } else {
            let here = levels[price].swept(taker);
            let left = stepped(levels, price, taker, prune);
            walk_in_turn(left, first.drop_first(), second, here.taker, prune);
            let one = walked(left, first.drop_first(), here.taker, prune);
            let two = walked(one.levels, second, one.taker, prune);
            assert(here.fills + (one.fills + two.fills) =~= (here.fills + one.fills) + two.fills);
        }
    }
}

} // verus!
