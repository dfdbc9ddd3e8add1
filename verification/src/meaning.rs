//! What the notions of the book come to, in plain numbers, sequences and maps.

use vstd::prelude::*;

use crate::events::{fills_of, FeedView, Fill, Trade};
use crate::identity::{filled_to, filled_to_adds};
use crate::invariants::{filled, filled_adds, queued_adds};
use crate::ladder::{
    as_good, candidates, crosses, is_best, level_or_empty, levels_view, nothing_rests, occupied,
    with_order,
};
use crate::laws::candidates_list;
use crate::level::{first_found, first_index, holds, LevelView, PriceLevel};
use crate::model::BookView;
use crate::order::Order;
use crate::priority::in_line;
use crate::totals::{cached, queued, resting, total_of, total_splits};
use crate::types::{OrderId, OrderStatus, OrderType, Price, Side};

verus! {

/// A trade and the fill that it reports agree field by field.
pub proof fn trade_means(trade: Trade)
    ensures
        trade.fill().taker_order_id == trade.taker_order_id,
        trade.fill().maker_order_id == trade.maker_order_id,
        trade.fill().price == trade.price,
        trade.fill().quantity == trade.quantity,
{
}

/// Reporting fills puts one trade per fill behind the trades reported before, with the same
/// taker, maker, price and quantity, in the same order; the earlier trades stay, and those that
/// were sent off stay sent off.
pub proof fn reporting_means(before: FeedView, after: FeedView, fills: Seq<Fill>)
    requires
        before.reports(after, fills),
    ensures
        ({
            let old_trades = before.handed + before.waiting;
            let new_trades = after.handed + after.waiting;
            &&& new_trades.len() == old_trades.len() + fills.len()
            &&& forall|i: int|
                0 <= i < old_trades.len() ==> #[trigger] new_trades[i] == old_trades[i]
            &&& forall|i: int|
                old_trades.len() <= i < new_trades.len() ==> {
                    &&& (#[trigger] new_trades[i]).taker_order_id == fills[i
                        - old_trades.len()].taker_order_id
                    &&& new_trades[i].maker_order_id == fills[i - old_trades.len()].maker_order_id
                    &&& new_trades[i].price == fills[i - old_trades.len()].price
                    &&& new_trades[i].quantity == fills[i - old_trades.len()].quantity
                }
            &&& before.handed.len() <= after.handed.len()
            &&& forall|i: int|
                0 <= i < before.handed.len() ==> #[trigger] after.handed[i] == before.handed[i]
            &&& after.unlimited == before.unlimited
        }),
{
    let old_trades = before.handed + before.waiting;
    let new_trades = after.handed + after.waiting;
    let n = old_trades.len() as int;
    let added = new_trades.skip(n);
    assert(fills_of(added).len() == added.len());
    assert forall|i: int| n <= i < new_trades.len() implies {
        &&& (#[trigger] new_trades[i]).taker_order_id == fills[i - n].taker_order_id
        &&& new_trades[i].maker_order_id == fills[i - n].maker_order_id
        &&& new_trades[i].price == fills[i - n].price
        &&& new_trades[i].quantity == fills[i - n].quantity
    } by {
        assert(added[i - n] == new_trades[i]);
        assert(fills_of(added)[i - n] == added[i - n].fill());
    }
}

/// A well-formed feed into a channel without a capacity keeps no trade waiting.
pub proof fn waiting_means(feed: FeedView)
    ensures
        feed.sent() == feed.handed + feed.waiting,
        feed.wf() && feed.unlimited ==> feed.waiting.len() == 0,
{
}

/// A buyer likes the lower of two prices, a seller the higher, and neither goes beyond its limit.
pub proof fn prices_mean(a: Price, b: Price)
    ensures
        as_good(Side::Buy, a, b) == (a <= b),
        as_good(Side::Sell, a, b) == (a >= b),
        crosses(Side::Buy, Some(b), a) == (a <= b),
        crosses(Side::Sell, Some(b), a) == (a >= b),
        crosses(Side::Buy, None, a),
        crosses(Side::Sell, None, a),
{
}

/// A buyer comes to exactly the levels at or below its limit, in ascending order of price; a
/// seller to exactly the levels at or above its limit, in descending order; without a limit, they
/// come to all levels.
pub proof fn candidates_mean(levels: Map<Price, LevelView>, limit: Price)
    requires
        levels.dom().finite(),
    ensures
        ({
            let list = candidates(levels, Side::Buy, Some(limit));
            &&& forall|i: int, j: int|
                #![trigger list[i], list[j]]
                0 <= i < j < list.len() ==> list[i] < list[j]
            &&& forall|p: Price| #[trigger]
                list.contains(p) <==> levels.contains_key(p) && p <= limit
        }),
        ({
            let list = candidates(levels, Side::Sell, Some(limit));
            &&& forall|i: int, j: int|
                #![trigger list[i], list[j]]
                0 <= i < j < list.len() ==> list[i] > list[j]
            &&& forall|p: Price| #[trigger]
                list.contains(p) <==> levels.contains_key(p) && p >= limit
        }),
        ({
            let list = candidates(levels, Side::Buy, None);
            &&& forall|i: int, j: int|
                #![trigger list[i], list[j]]
                0 <= i < j < list.len() ==> list[i] < list[j]
            &&& forall|p: Price| #[trigger] list.contains(p) <==> levels.contains_key(p)
        }),
        ({
            let list = candidates(levels, Side::Sell, None);
            &&& forall|i: int, j: int|
                #![trigger list[i], list[j]]
                0 <= i < j < list.len() ==> list[i] > list[j]
            &&& forall|p: Price| #[trigger] list.contains(p) <==> levels.contains_key(p)
        }),
{
    candidates_list(levels, Side::Buy, Some(limit));
    candidates_list(levels, Side::Sell, Some(limit));
    candidates_list(levels, Side::Buy, None);
    candidates_list(levels, Side::Sell, None);
}

/// The best price for a buyer is the lowest at which orders rest, for a seller the highest.
pub proof fn best_means(levels: Map<Price, LevelView>, price: Price)
    ensures
        is_best(levels, Side::Buy, price) <==> levels.contains_key(price)
            && levels[price].orders.len() > 0 && forall|p: Price| #[trigger]
            levels.contains_key(p) && levels[p].orders.len() > 0 ==> price <= p,
        is_best(levels, Side::Sell, price) <==> levels.contains_key(price)
            && levels[price].orders.len() > 0 && forall|p: Price| #[trigger]
            levels.contains_key(p) && levels[p].orders.len() > 0 ==> price >= p,
        occupied(levels, price) <==> levels.contains_key(price) && levels[price].orders.len() > 0,
        nothing_rests(levels) <==> forall|p: Price| #[trigger]
            levels.contains_key(p) ==> levels[p].orders.len() == 0,
{
}

/// What a level and a side of levels show is what they hold.
pub proof fn views_mean(level: PriceLevel, levels: Map<Price, PriceLevel>)
    ensures
        level@.price == level.price,
        level@.orders == level.orders@,
        level@.total_quantity == level.total_quantity,
        levels_view(levels).dom() == levels.dom(),
        forall|p: Price| #[trigger]
            levels.contains_key(p) ==> {
                &&& levels_view(levels)[p].price == levels[p].price
                &&& levels_view(levels)[p].orders == levels[p].orders@
                &&& levels_view(levels)[p].total_quantity == levels[p].total_quantity
            },
{
}

/// An order joins a queue at its back and leaves it at its front, or from where it stands, and
/// all other orders keep their order of arrival. The total counts modulo the range of a `u64`.
pub proof fn queue_changes_mean(level: LevelView, order: Order, i: int)
    ensures
        LevelView::empty(level.price).price == level.price,
        LevelView::empty(level.price).orders.len() == 0,
        LevelView::empty(level.price).total_quantity == 0,
        level.pushed(order).price == level.price,
        level.pushed(order).orders == level.orders.push(order),
        level.pushed(order).total_quantity == (level.total_quantity + order.remaining_quantity)
            % 0x1_0000_0000_0000_0000,
        level.orders.len() > 0 ==> {
            &&& level.popped().price == level.price
            &&& level.popped().orders.len() == level.orders.len() - 1
            &&& forall|j: int|
                0 <= j < level.orders.len() - 1 ==> #[trigger] level.popped().orders[j]
                    == level.orders[j + 1]
            &&& level.popped().total_quantity == level.total_quantity
        },
        0 <= i < level.orders.len() ==> {
            let left = level.without(i);
            &&& left.price == level.price
            &&& left.orders == level.orders.take(i) + level.orders.skip(i + 1)
            &&& left.total_quantity == (level.total_quantity - level.orders[i].remaining_quantity)
                % 0x1_0000_0000_0000_0000
        },
{
    if 0 <= i < level.orders.len() {
        assert(level.without(i).orders =~= level.orders.take(i) + level.orders.skip(i + 1));
    }
}

/// Taking an order out of a queue keeps time priority: of any two others, the one that stood
/// first before stands first afterwards.
pub proof fn removal_keeps_time_priority(level: LevelView, i: int, a: int, b: int)
    requires
        0 <= i < level.orders.len(),
        0 <= a < b < level.orders.len(),
        a != i,
        b != i,
    ensures
        exists|x: int, y: int|
            #![trigger level.without(i).orders[x], level.without(i).orders[y]]
            0 <= x < y < level.without(i).orders.len() && level.without(i).orders[x]
                == level.orders[a] && level.without(i).orders[y] == level.orders[b],
{
    let left = level.without(i).orders;
    let x = if a < i {
        a
    } else {
        a - 1
    };
    let y = if b < i {
        b
    } else {
        b - 1
    };
    assert(left[x] == level.orders[a] && left[y] == level.orders[b]);
}

/// A queue holds an order exactly if one of its orders has that identifier, and the first such
/// order stands before all others that have it.
pub proof fn searching_means(orders: Seq<Order>, order_id: OrderId)
    ensures
        holds(orders, order_id) <==> exists|i: int|
            0 <= i < orders.len() && (#[trigger] orders[i]).order_id == order_id,
        holds(orders, order_id) ==> {
            let k = first_index(orders, order_id);
            &&& 0 <= k < orders.len()
            &&& orders[k].order_id == order_id
            &&& forall|j: int| 0 <= j < k ==> (#[trigger] orders[j]).order_id != order_id
        },
{
    if holds(orders, order_id) {
        first_found(orders, order_id);
    }
}

/// Adding up fills, queues and the fills with one order: nothing adds up to nothing, one counts
/// for its quantity, and one after another adds up.
pub proof fn sums_mean(
    a: Seq<Fill>,
    b: Seq<Fill>,
    fill: Fill,
    p: Seq<Order>,
    q: Seq<Order>,
    order: Order,
    order_id: OrderId,
)
    ensures
        filled(Seq::<Fill>::empty()) == 0,
        filled(seq![fill]) == fill.quantity,
        filled(a + b) == filled(a) + filled(b),
        queued(Seq::<Order>::empty()) == 0,
        queued(seq![order]) == order.remaining_quantity,
        queued(p + q) == queued(p) + queued(q),
        filled_to(Seq::<Fill>::empty(), order_id) == 0,
        fill.maker_order_id == order_id ==> filled_to(seq![fill], order_id) == fill.quantity,
        fill.maker_order_id != order_id ==> filled_to(seq![fill], order_id) == 0,
        filled_to(a + b, order_id) == filled_to(a, order_id) + filled_to(b, order_id),
{
    reveal_with_fuel(filled, 2);
    reveal_with_fuel(queued, 2);
    reveal_with_fuel(filled_to, 2);
    assert(seq![fill].drop_first() =~= Seq::<Fill>::empty());
    assert(seq![order].drop_first() =~= Seq::<Order>::empty());
    filled_adds(a, b);
    queued_adds(p, q);
    filled_to_adds(a, b, order_id);
}

/// Adding up over a side: no level adds up to nothing, and any level counts for its own cached
/// total, or for what is queued there, on top of the others.
pub proof fn totals_mean(levels: Map<Price, LevelView>, price: Price)
    requires
        levels.dom().finite(),
        levels.contains_key(price),
    ensures
        total_of(Map::<Price, LevelView>::empty(), cached()) == 0,
        total_of(Map::<Price, LevelView>::empty(), resting()) == 0,
        total_of(levels, cached()) == levels[price].total_quantity + total_of(
            levels.remove(price),
            cached(),
        ),
        total_of(levels, resting()) == queued(levels[price].orders) + total_of(
            levels.remove(price),
            resting(),
        ),
{
    total_splits(levels, cached(), price);
    total_splits(levels, resting(), price);
}

/// Queues in a row: no prices make no row, and behind the queue at the first price come those at
/// the other prices.
pub proof fn line_means(levels: Map<Price, LevelView>, prices: Seq<Price>)
    ensures
        in_line(levels, Seq::<Price>::empty()).len() == 0,
        prices.len() > 0 && levels.contains_key(prices[0]) ==> in_line(levels, prices)
            == levels[prices[0]].orders + in_line(levels, prices.skip(1)),
        prices.len() > 0 && !levels.contains_key(prices[0]) ==> in_line(levels, prices) == in_line(
            levels,
            prices.skip(1),
        ),
{
    if prices.len() > 0 {
        assert(prices.skip(1) =~= prices.drop_first());
    }
}

/// The parts of a book: buy orders rest among the bids and trade with the asks, sell orders the
/// other way round.
pub proof fn sides_mean(book: BookView, levels: Map<Price, LevelView>, order: Order)
    ensures
        book.own(Side::Buy) == book.bids && book.own(Side::Sell) == book.asks,
        book.opposite(Side::Buy) == book.asks && book.opposite(Side::Sell) == book.bids,
        book.with_own(Side::Buy, levels) == (BookView { bids: levels, ..book }),
        book.with_own(Side::Sell, levels) == (BookView { asks: levels, ..book }),
        book.with_opposite(Side::Buy, levels) == (BookView { asks: levels, ..book }),
        book.with_opposite(Side::Sell, levels) == (BookView { bids: levels, ..book }),
        book.next_order_id < OrderId::MAX ==> book.issued().next_order_id == book.next_order_id
            + 1,
        book.next_order_id == OrderId::MAX ==> book.issued().next_order_id == 0,
        book.issued() == (BookView { next_order_id: book.issued().next_order_id, ..book }),
        levels.contains_key(order.price) ==> level_or_empty(levels, order.price)
            == levels[order.price] && with_order(levels, order.price, order)[order.price].orders
            == levels[order.price].orders.push(order),
        !levels.contains_key(order.price) ==> with_order(
            levels,
            order.price,
            order,
        )[order.price].orders == seq![order],
        forall|p: Price|
            p != order.price ==> #[trigger] with_order(levels, order.price, order).contains_key(p)
                == levels.contains_key(p) && with_order(levels, order.price, order)[p]
                == levels[p],
{
    assert(Seq::<Order>::empty().push(order) =~= seq![order]);
}

/// A new book is empty and counts from 1.
pub proof fn empty_means()
    ensures
        forall|p: Price| !(#[trigger] BookView::empty().bids.contains_key(p)),
        forall|p: Price| !(#[trigger] BookView::empty().asks.contains_key(p)),
        forall|id: OrderId| !(#[trigger] BookView::empty().lookup.contains_key(id)),
        BookView::empty().next_order_id == 1,
{
}

/// What the invariant says of one side.
pub open spec fn sound_side(levels: Map<Price, LevelView>, side: Side) -> bool {
    &&& forall|p: Price| #[trigger]
        levels.contains_key(p) ==> p > 0 && levels[p].price == p && levels[p].total_quantity
            == queued(levels[p].orders) % 0x1_0000_0000_0000_0000
    &&& forall|p: Price, i: int|
        #![trigger levels[p].orders[i]]
        levels.contains_key(p) && 0 <= i < levels[p].orders.len() ==> {
            let order = levels[p].orders[i];
            &&& order.side == side
            &&& order.price == p
            &&& order.order_type == OrderType::Limit
            &&& 0 < order.remaining_quantity <= order.original_quantity
            &&& order.remaining_quantity == order.original_quantity ==> order.status
                == OrderStatus::Active
            &&& order.remaining_quantity < order.original_quantity ==> order.status
                == OrderStatus::PartiallyFilled
        }
}

/// The invariant of the book: every order rests on its own side at its own price, has something
/// left, and its status tells whether it has been filled in part; the cached totals are those of
/// the queues; and every bid is below every ask.
pub proof fn invariant_means(book: BookView)
    requires
        book.wf(),
    ensures
        sound_side(book.bids, Side::Buy),
        sound_side(book.asks, Side::Sell),
        forall|b: Price, a: Price|
            #![trigger book.bids.contains_key(b), book.asks.contains_key(a)]
            book.bids.contains_key(b) && book.asks.contains_key(a) ==> b < a,
{
    assert forall|p: Price, i: int|
        #![trigger book.bids[p].orders[i]]
        book.bids.contains_key(p) && 0 <= i
            < book.bids[p].orders.len() implies book.bids[p].orders[i].rests_at(Side::Buy, p) by {}
    assert forall|p: Price, i: int|
        #![trigger book.asks[p].orders[i]]
        book.asks.contains_key(p) && 0 <= i
            < book.asks[p].orders.len() implies book.asks[p].orders[i].rests_at(Side::Sell, p) by {}
}

/// An order can be cancelled exactly if the book remembers its place, there is a level at that
/// place, and one of the orders in its queue has the identifier.
pub proof fn cancellable_means(book: BookView, order_id: OrderId)
    ensures
        book.remembers(order_id) == book.lookup.contains_key(order_id),
        book.remembers(order_id) && book.lookup[order_id].0 == Side::Buy ==> book.has_level_of(
            order_id,
        ) == book.bids.contains_key(book.lookup[order_id].1),
        book.remembers(order_id) && book.lookup[order_id].0 == Side::Sell ==> book.has_level_of(
            order_id,
        ) == book.asks.contains_key(book.lookup[order_id].1),
        book.cancellable(order_id) && book.lookup[order_id].0 == Side::Buy ==> exists|i: int|
            0 <= i < book.bids[book.lookup[order_id].1].orders.len() && (
            #[trigger] book.bids[book.lookup[order_id].1].orders[i]).order_id == order_id,
        book.cancellable(order_id) && book.lookup[order_id].0 == Side::Sell ==> exists|i: int|
            0 <= i < book.asks[book.lookup[order_id].1].orders.len() && (
            #[trigger] book.asks[book.lookup[order_id].1].orders[i]).order_id == order_id,
        forall|i: int|
            book.lookup.contains_key(order_id) && book.lookup[order_id].0 == Side::Buy
                && book.bids.contains_key(book.lookup[order_id].1) && 0 <= i
                < book.bids[book.lookup[order_id].1].orders.len() && (
            #[trigger] book.bids[book.lookup[order_id].1].orders[i]).order_id == order_id
                ==> book.cancellable(order_id),
        forall|i: int|
            book.lookup.contains_key(order_id) && book.lookup[order_id].0 == Side::Sell
                && book.asks.contains_key(book.lookup[order_id].1) && 0 <= i
                < book.asks[book.lookup[order_id].1].orders.len() && (
            #[trigger] book.asks[book.lookup[order_id].1].orders[i]).order_id == order_id
                ==> book.cancellable(order_id),
{
}

/// A cancel takes exactly one entry out of one queue, the first with this identifier, and gives
/// back what that order had left; the entries before it and those behind it stay in their order.
/// The book forgets the order's place. Every other level, every other place and the counter stay
/// as they are. `k` is where the order stood.
pub proof fn cancel_means(book: BookView, order_id: OrderId) -> (k: int)
    requires
        book.cancellable(order_id),
    ensures
        ({
            let price = book.lookup[order_id].1;
            let buys = book.lookup[order_id].0 == Side::Buy;
            let after = book.cancelled(order_id);
            let before_side = if buys {
                book.bids
            } else {
                book.asks
            };
            let after_side = if buys {
                after.bids
            } else {
                after.asks
            };
            let queue = before_side[price].orders;
            &&& 0 <= k < queue.len()
            &&& queue[k].order_id == order_id
            &&& forall|j: int| 0 <= j < k ==> (#[trigger] queue[j]).order_id != order_id
            &&& book.resting_order(order_id) == queue[k]
            &&& after_side.dom() == before_side.dom()
            &&& after_side[price].orders == queue.take(k) + queue.skip(k + 1)
            &&& after_side[price].price == before_side[price].price
            &&& after_side[price].total_quantity == (before_side[price].total_quantity
                - queue[k].remaining_quantity) % 0x1_0000_0000_0000_0000
            &&& forall|p: Price|
                p != price ==> #[trigger] after_side[p] == before_side[p]
            &&& buys ==> after.asks == book.asks
            &&& !buys ==> after.bids == book.bids
            &&& after.lookup == book.lookup.remove(order_id)
            &&& after.next_order_id == book.next_order_id
        }),
{
    let level = book.level_of(order_id);
    let k = first_index(level.orders, order_id);
    first_found(level.orders, order_id);
    queue_changes_mean(level, level.orders[k], k);
    let side = book.side_of(order_id);
    assert(book.cancelled(order_id).own(side).dom() =~= book.own(side).dom());
    k
}

/// What is left of an order is what a cancel would give back, and nothing if it cannot be
/// cancelled.
pub proof fn left_means(book: BookView, order_id: OrderId)
    ensures
        book.cancellable(order_id) ==> book.left_of(order_id) == book.resting_order(
            order_id,
        ).remaining_quantity,
        !book.cancellable(order_id) ==> book.left_of(order_id) == 0,
{
}

/// Cancelling keeps time priority: of any two other orders that rest at the same level, the one
/// that stood first before the cancel stands first after it.
pub proof fn cancel_keeps_time_priority(
    book: BookView,
    order_id: OrderId,
    side: Side,
    price: Price,
    a: int,
    b: int,
)
    requires
        book.cancellable(order_id),
        side == Side::Buy ==> book.bids.contains_key(price) && 0 <= a < b
            < book.bids[price].orders.len() && book.bids[price].orders[a].order_id != order_id
            && book.bids[price].orders[b].order_id != order_id,
        side == Side::Sell ==> book.asks.contains_key(price) && 0 <= a < b
            < book.asks[price].orders.len() && book.asks[price].orders[a].order_id != order_id
            && book.asks[price].orders[b].order_id != order_id,
    ensures
        side == Side::Buy ==> exists|x: int, y: int|
            #![trigger book.cancelled(order_id).bids[price].orders[x],
                book.cancelled(order_id).bids[price].orders[y]]
            0 <= x < y < book.cancelled(order_id).bids[price].orders.len() && book.cancelled(
                order_id,
            ).bids[price].orders[x] == book.bids[price].orders[a] && book.cancelled(
                order_id,
            ).bids[price].orders[y] == book.bids[price].orders[b],
        side == Side::Sell ==> exists|x: int, y: int|
            #![trigger book.cancelled(order_id).asks[price].orders[x],
                book.cancelled(order_id).asks[price].orders[y]]
            0 <= x < y < book.cancelled(order_id).asks[price].orders.len() && book.cancelled(
                order_id,
            ).asks[price].orders[x] == book.asks[price].orders[a] && book.cancelled(
                order_id,
            ).asks[price].orders[y] == book.asks[price].orders[b],
{
    let k = cancel_means(book, order_id);
    let before = book.own(side)[price].orders;
    let after = book.cancelled(order_id).own(side)[price].orders;
    let there = side == book.side_of(order_id) && price == book.price_of(order_id);
    let x = if there && a >= k {
        a - 1
    } else {
        a
    };
    let y = if there && b >= k {
        b - 1
    } else {
        b
    };
    assert(after[x] == before[a] && after[y] == before[b]);
}

} // verus!
