//! Order identifiers: who is who in the book, and what a cancel gives back.

use vstd::prelude::*;

use crate::events::Fill;
use crate::invariants::{front_wf, step_wf, walk_keeps};
use crate::ladder::{as_good, candidates, level_or_empty, stepped, walked, with_order};
use crate::laws::{
    candidates_list, incoming, limit_keeps_invariant, market_keeps_invariant, other,
    walk_by_price_priority,
};
use crate::level::{first_found, first_index, holds, is_first, LevelView};
use crate::lookup::Place;
use crate::model::{side_wf, BookView};
use crate::order::Order;
use crate::priority::{time_priority, walk_sweeps};
use crate::totals::{nothing_adds_up, total_inserts, total_of, total_splits};
use crate::types::{OrderId, OrderType, Price, Quantity, Side};

verus! {

/// Every order of a level has an identifier of its own that was issued before `next` and that
/// leads to this level.
pub open spec fn tidy_level(
    level: LevelView,
    place: Place,
    lookup: Map<OrderId, Place>,
    next: OrderId,
) -> bool {
    &&& forall|i: int|
        0 <= i < level.orders.len() ==> {
            &&& (#[trigger] level.orders[i]).order_id < next
            &&& lookup.contains_key(level.orders[i].order_id)
            &&& lookup[level.orders[i].order_id] == place
        }
    &&& forall|i: int, j: int|
        #![trigger level.orders[i], level.orders[j]]
        0 <= i < j < level.orders.len() ==> level.orders[i].order_id != level.orders[j].order_id
}

/// Every level of a side is tidy.
pub open spec fn tidy_side(
    levels: Map<Price, LevelView>,
    side: Side,
    lookup: Map<OrderId, Place>,
    next: OrderId,
) -> bool {
    forall|p: Price| #[trigger]
        levels.contains_key(p) ==> tidy_level(levels[p], (side, p), lookup, next)
}

impl BookView {
    /// Every resting order has an identifier of its own, by which the book finds it, and every
    /// identifier that the book remembers was issued.
    pub open spec fn tidy(self) -> bool {
        &&& tidy_side(self.bids, Side::Buy, self.lookup, self.next_order_id)
        &&& tidy_side(self.asks, Side::Sell, self.lookup, self.next_order_id)
        &&& forall|id: OrderId| #[trigger]
            self.lookup.contains_key(id) ==> id < self.next_order_id
    }

    /// Whether an order with this identifier rests at this place.
    pub open spec fn rests(self, order_id: OrderId, side: Side, price: Price) -> bool {
        self.own(side).contains_key(price) && holds(self.own(side)[price].orders, order_id)
    }

    /// What is left of the order with this identifier in the book: nothing if it does not rest.
    pub open spec fn left_of(self, order_id: OrderId) -> Quantity {
        if self.cancellable(order_id) {
            self.resting_order(order_id).remaining_quantity
        } else {
            0
        }
    }
}

/// An empty book is tidy.
pub proof fn empty_is_tidy()
    ensures
        BookView::empty().wf(),
        BookView::empty().tidy(),
{
}

/// Trading at a level keeps it tidy.
proof fn sweep_tidy(
    level: LevelView,
    taker: Order,
    place: Place,
    lookup: Map<OrderId, Place>,
    next: OrderId,
)
    requires
        level.wf(place.0, place.1),
        tidy_level(level, place, lookup, next),
    ensures
        tidy_level(level.swept(taker).level, place, lookup, next),
{
    time_priority(level, taker, place.0, place.1);
    let after = level.swept(taker).level;
    let gone = level.orders.len() - after.orders.len();
    assert forall|i: int| 0 <= i < after.orders.len() implies (#[trigger] after.orders[i]).order_id
        == level.orders[i + gone].order_id by {}
}

/// Trading along a side keeps it tidy.
proof fn walk_tidy(
    levels: Map<Price, LevelView>,
    prices: Seq<Price>,
    taker: Order,
    prune: bool,
    side: Side,
    lookup: Map<OrderId, Place>,
    next: OrderId,
)
    requires
        side_wf(levels, side),
        tidy_side(levels, side, lookup, next),
    ensures
        tidy_side(walked(levels, prices, taker, prune).levels, side, lookup, next),
    decreases prices.len(),
{
    if prices.len() != 0 && taker.remaining_quantity != 0 {
        let price = prices[0];
        let rest = prices.drop_first();
        if !levels.contains_key(price) {
            walk_tidy(levels, rest, taker, prune, side, lookup, next);
        } else {
            let here = levels[price].swept(taker);
            let left = stepped(levels, price, taker, prune);
            sweep_tidy(levels[price], taker, (side, price), lookup, next);
            step_wf(levels, price, taker, prune, side);
            assert forall|p: Price| #[trigger] left.contains_key(p) implies tidy_level(
                left[p],
                (side, p),
                lookup,
                next,
            ) by {
                assert(levels.contains_key(p));
            }
            walk_tidy(left, rest, here.taker, prune, side, lookup, next);
        }
    }
}

/// A tidy side stays tidy when the book learns of a new identifier.
proof fn learn_tidy(
    levels: Map<Price, LevelView>,
    side: Side,
    lookup: Map<OrderId, Place>,
    next: OrderId,
    place: Place,
)
    requires
        tidy_side(levels, side, lookup, next),
        next < OrderId::MAX,
    ensures
        tidy_side(levels, side, lookup, (next + 1) as OrderId),
        tidy_side(levels, side, lookup.insert(next, place), (next + 1) as OrderId),
{
    assert forall|p: Price| #[trigger] levels.contains_key(p) implies tidy_level(
        levels[p],
        (side, p),
        lookup,
        (next + 1) as OrderId,
    ) && tidy_level(
        levels[p],
        (side, p),
        lookup.insert(next, place),
        (next + 1) as OrderId,
    ) by {
        assert(tidy_level(levels[p], (side, p), lookup, next));
    }
}

/// A limit order keeps identifiers unique, as long as the counter does not run out.
pub proof fn limit_keeps_tidy(
    book: BookView,
    side: Side,
    price: Price,
    quantity: Quantity,
    timestamp: u64,
)
    requires
        book.wf(),
        book.tidy(),
        book.next_order_id < OrderId::MAX,
    ensures
        book.limit_outcome(side, price, quantity, timestamp).book.tidy(),
{
    let taker = incoming(book, side, OrderType::Limit, price, quantity, timestamp);
    let levels = book.opposite(side);
    let prices = candidates(levels, side, Some(price));
    let walk = walked(levels, prices, taker, true);
    let next = book.next_order_id;
    let after = book.limit_outcome(side, price, quantity, timestamp).book;
    walk_keeps(levels, prices, taker, true);
    walk_tidy(levels, prices, taker, true, other(side), book.lookup, next);
    learn_tidy(walk.levels, other(side), book.lookup, next, (side, price));
    learn_tidy(book.own(side), side, book.lookup, next, (side, price));
    if walk.taker.remaining_quantity > 0 {
        let level = level_or_empty(book.own(side), price);
        let own = with_order(book.own(side), price, walk.taker);
        assert forall|p: Price| #[trigger] own.contains_key(p) implies tidy_level(
            own[p],
            (side, p),
            after.lookup,
            after.next_order_id,
        ) by {
            if p == price {
                if book.own(side).contains_key(price) {
                    assert(tidy_level(level, (side, price), book.lookup, next));
                }
                let orders = level.orders.push(walk.taker);
                assert forall|i: int| 0 <= i < orders.len() implies {
                    &&& (#[trigger] orders[i]).order_id < after.next_order_id
                    &&& after.lookup.contains_key(orders[i].order_id)
                    &&& after.lookup[orders[i].order_id] == (side, price)
                } by {
                    if i < level.orders.len() {
                        assert(orders[i] == level.orders[i]);
                    }
                }
                assert forall|i: int, j: int|
                    #![trigger orders[i], orders[j]]
                    0 <= i < j < orders.len() implies orders[i].order_id
                    != orders[j].order_id by {
                    assert(orders[i] == level.orders[i]);
                    if j < level.orders.len() {
                        assert(orders[j] == level.orders[j]);
                    }
                }
            } else {
                assert(book.own(side).contains_key(p));
            }
        }
    }
}

/// A market order keeps identifiers unique, as long as the counter does not run out.
pub proof fn market_keeps_tidy(book: BookView, side: Side, quantity: Quantity)
    requires
        book.wf(),
        book.tidy(),
        book.next_order_id < OrderId::MAX,
    ensures
        book.market_outcome(side, quantity).book.tidy(),
{
    let taker = incoming(book, side, OrderType::Market, 0, quantity, 0);
    let levels = book.opposite(side);
    let prices = candidates(levels, side, None);
    let walk = walked(levels, prices, taker, false);
    let next = book.next_order_id;
    walk_tidy(levels, prices, taker, false, other(side), book.lookup, next);
    learn_tidy(walk.levels, other(side), book.lookup, next, (side, 0));
    learn_tidy(book.own(side), side, book.lookup, next, (side, 0));
}

/// Cancelling an order keeps identifiers unique.
pub proof fn cancel_keeps_tidy(book: BookView, order_id: OrderId)
    requires
        book.tidy(),
        book.cancellable(order_id),
    ensures
        book.cancelled(order_id).tidy(),
{
    let side = book.side_of(order_id);
    let price = book.price_of(order_id);
    let level = book.level_of(order_id);
    let k = first_index(level.orders, order_id);
    let after = book.cancelled(order_id);
    first_found(level.orders, order_id);
    assert(tidy_level(level, (side, price), book.lookup, book.next_order_id));
    assert forall|s: Side, p: Price| #[trigger] after.own(s).contains_key(p) implies tidy_level(
        after.own(s)[p],
        (s, p),
        after.lookup,
        after.next_order_id,
    ) by {
        assert(book.own(s).contains_key(p));
        let before = book.own(s)[p];
        assert(tidy_level(before, (s, p), book.lookup, book.next_order_id));
        let orders = after.own(s)[p].orders;
        if s == side && p == price {
            assert forall|i: int| 0 <= i < orders.len() implies (#[trigger] orders[i]).order_id
                != order_id && orders[i] == before.orders[if i < k {
                i
            } else {
                i + 1
            }] by {}
        } else {
            assert forall|i: int| 0 <= i < orders.len() implies (#[trigger] orders[i]).order_id
                != order_id by {}
        }
    }
    assert forall|p: Price| #[trigger] after.bids.contains_key(p) implies tidy_level(
        after.bids[p],
        (Side::Buy, p),
        after.lookup,
        after.next_order_id,
    ) by {
        assert(after.own(Side::Buy).contains_key(p));
    }
    assert forall|p: Price| #[trigger] after.asks.contains_key(p) implies tidy_level(
        after.asks[p],
        (Side::Sell, p),
        after.lookup,
        after.next_order_id,
    ) by {
        assert(after.own(Side::Sell).contains_key(p));
    }
}

/// In a tidy book an order rests in at most one place, and it can be cancelled exactly if it
/// rests somewhere.
pub proof fn cancellable_iff_resting(book: BookView, order_id: OrderId)
    requires
        book.tidy(),
    ensures
        book.cancellable(order_id) <==> exists|side: Side, price: Price| #[trigger]
            book.rests(order_id, side, price),
        forall|side: Side, price: Price| #[trigger]
            book.rests(order_id, side, price) ==> book.side_of(order_id) == side && book.price_of(
                order_id,
            ) == price,
{
    assert forall|side: Side, price: Price| #[trigger]
        book.rests(order_id, side, price) implies book.cancellable(order_id) && book.side_of(
        order_id,
    ) == side && book.price_of(order_id) == price by {
        let level = book.own(side)[price];
        assert(tidy_level(level, (side, price), book.lookup, book.next_order_id));
        let i = choose|i: int|
            0 <= i < level.orders.len() && (#[trigger] level.orders[i]).order_id == order_id;
        assert(level.orders[i].order_id == order_id);
    }
    if book.cancellable(order_id) {
        assert(book.rests(order_id, book.side_of(order_id), book.price_of(order_id)));
    }
}

/// What rests of a limit order can be cancelled at once, which gives exactly that back and
/// leaves the book as if the order had only traded: the queue at its price is what it was, and
/// so is what the book remembers.
pub proof fn submit_then_cancel(
    book: BookView,
    side: Side,
    price: Price,
    quantity: Quantity,
    timestamp: u64,
)
    requires
        book.wf(),
        book.tidy(),
        book.next_order_id < OrderId::MAX,
        book.limit_outcome(side, price, quantity, timestamp).taker.remaining_quantity > 0,
    ensures
        ({
            let outcome = book.limit_outcome(side, price, quantity, timestamp);
            let id = book.next_order_id;
            let level = level_or_empty(book.own(side), price);
            &&& outcome.book.cancellable(id)
            &&& outcome.book.resting_order(id) == outcome.taker
            &&& outcome.book.cancelled(id) == book.issued().with_opposite(
                side,
                outcome.book.opposite(side),
            ).with_own(side, book.own(side).insert(price, level))
        }),
{
    let outcome = book.limit_outcome(side, price, quantity, timestamp);
    let id = book.next_order_id;
    let taker = incoming(book, side, OrderType::Limit, price, quantity, timestamp);
    walk_keeps(
        book.opposite(side),
        candidates(book.opposite(side), side, Some(price)),
        taker,
        true,
    );
    let level = level_or_empty(book.own(side), price);
    let orders = level.orders.push(outcome.taker);
    let last = level.orders.len() as int;
    if book.own(side).contains_key(price) {
        assert(tidy_level(level, (side, price), book.lookup, id));
    }
    assert(outcome.book.level_of(id) == level.pushed(outcome.taker));
    assert(orders[last] == outcome.taker);
    assert forall|j: int| 0 <= j < last implies (#[trigger] orders[j]).order_id != id by {
        assert(orders[j] == level.orders[j]);
    }
    assert(is_first(orders, id, last));
    assert(holds(orders, id));
    first_found(orders, id);
    assert(first_index(orders, id) == last);
    assert(orders.remove(last) =~= level.orders);
    assert(level.pushed(outcome.taker).without(last) =~= level);
    let after = outcome.book.cancelled(id);
    assert(after.own(side) =~= book.own(side).insert(price, level));
    assert(after.lookup =~= book.lookup);
}

/// A cancelled order cannot be cancelled again: the book has forgotten it.
pub proof fn cancel_is_final(book: BookView, order_id: OrderId)
    ensures
        !book.cancelled(order_id).remembers(order_id),
        !book.cancelled(order_id).cancellable(order_id),
{
}

/// Cancelling an order leaves every other order as it is.
pub proof fn cancel_leaves_others(book: BookView, order_id: OrderId, another: OrderId)
    requires
        book.tidy(),
        book.cancellable(order_id),
        another != order_id,
    ensures
        book.cancelled(order_id).cancellable(another) == book.cancellable(another),
        book.cancellable(another) ==> book.cancelled(order_id).resting_order(another)
            == book.resting_order(another),
{
    let after = book.cancelled(order_id);
    let level = book.level_of(order_id);
    let k = first_index(level.orders, order_id);
    first_found(level.orders, order_id);
    cancel_keeps_tidy(book, order_id);
    if book.remembers(another) && book.has_level_of(another) && book.side_of(another)
        == book.side_of(order_id) && book.price_of(another) == book.price_of(order_id) {
        let left = level.orders.remove(k);
        assert(after.level_of(another).orders == left);
        if holds(level.orders, another) {
            first_found(level.orders, another);
            let i = first_index(level.orders, another);
            let j = if i < k {
                i
            } else {
                i - 1
            };
            assert(left[j] == level.orders[i]);
            assert(holds(left, another));
            assert forall|m: int| 0 <= m < j implies (#[trigger] left[m]).order_id != another by {
                assert(left[m] == level.orders[if m < k {
                    m
                } else {
                    m + 1
                }]);
            }
            assert(is_first(left, another, j));
            first_found(left, another);
        } else if holds(left, another) {
            let j = choose|j: int| 0 <= j < left.len() && (#[trigger] left[j]).order_id == another;
            assert(left[j] == level.orders[if j < k {
                j
            } else {
                j + 1
            }]);
        }
    }
}

/// The quantities of the fills with this resting order, added up.
pub open spec fn filled_to(fills: Seq<Fill>, order_id: OrderId) -> nat
    decreases fills.len(),
{
    if fills.len() == 0 {
        0
    } else {
        let first: nat = if fills[0].maker_order_id == order_id {
            fills[0].quantity as nat
        } else {
            0
        };
        first + filled_to(fills.drop_first(), order_id)
    }
}

/// The remaining quantities under one identifier in a queue, added up.
pub open spec fn queued_for(orders: Seq<Order>, order_id: OrderId) -> nat
    decreases orders.len(),
{
    if orders.len() == 0 {
        0
    } else {
        let first: nat = if orders[0].order_id == order_id {
            orders[0].remaining_quantity as nat
        } else {
            0
        };
        first + queued_for(orders.drop_first(), order_id)
    }
}

/// What rests under one identifier at a level.
pub open spec fn held_for(order_id: OrderId) -> spec_fn(LevelView) -> nat {
    |level: LevelView| queued_for(level.orders, order_id)
}

/// Fills with one order add up across a concatenation.
pub proof fn filled_to_adds(a: Seq<Fill>, b: Seq<Fill>, order_id: OrderId)
    ensures
        filled_to(a + b, order_id) == filled_to(a, order_id) + filled_to(b, order_id),
    decreases a.len(),
{
    if a.len() == 0 {
        assert(a + b =~= b);
    } else {
        filled_to_adds(a.drop_first(), b, order_id);
        assert((a + b).drop_first() =~= a.drop_first() + b);
    }
}

/// At a level, each resting order loses exactly what it is filled with.
proof fn sweep_pays(level: LevelView, taker: Order, side: Side, price: Price, order_id: OrderId)
    requires
        level.wf(side, price),
    ensures
        queued_for(level.swept(taker).level.orders, order_id) + filled_to(
            level.swept(taker).fills,
            order_id,
        ) == queued_for(level.orders, order_id),
    decreases level.orders.len(),
{
    if level.orders.len() != 0 && taker.remaining_quantity != 0 {
        let fill = level.front_fill(taker);
        let left = level.front_left(taker);
        let rest = level.past_front(taker);
        front_wf(level, taker, side, price);
        assert(seq![fill].drop_first() =~= Seq::<Fill>::empty());
        assert(filled_to(seq![fill].drop_first(), order_id) == 0);
        if left.remaining_quantity > 0 {
            assert((seq![left] + rest.orders).drop_first() =~= rest.orders);
        } else {
            let next = taker.after_fill(fill.quantity);
            sweep_pays(rest, next, side, price, order_id);
            filled_to_adds(seq![fill], rest.swept(next).fills, order_id);
        }
    }
}

/// Along a side, each resting order loses exactly what it is filled with.
pub proof fn walk_pays(
    levels: Map<Price, LevelView>,
    prices: Seq<Price>,
    taker: Order,
    prune: bool,
    side: Side,
    order_id: OrderId,
)
    requires
        side_wf(levels, side),
    ensures
        total_of(walked(levels, prices, taker, prune).levels, held_for(order_id)) + filled_to(
            walked(levels, prices, taker, prune).fills,
            order_id,
        ) == total_of(levels, held_for(order_id)),
    decreases prices.len(),
{
    if prices.len() != 0 && taker.remaining_quantity != 0 {
        let price = prices[0];
        let rest = prices.drop_first();
        if !levels.contains_key(price) {
            walk_pays(levels, rest, taker, prune, side, order_id);
        } else {
            let here = levels[price].swept(taker);
            let left = stepped(levels, price, taker, prune);
            let then = walked(left, rest, here.taker, prune);
            sweep_pays(levels[price], taker, side, price, order_id);
            step_wf(levels, price, taker, prune, side);
            total_splits(levels, held_for(order_id), price);
            total_inserts(levels, held_for(order_id), price, here.level);
            walk_pays(left, rest, here.taker, prune, side, order_id);
            filled_to_adds(here.fills, then.fills, order_id);
        }
    }
}

/// A queue that does not hold an order has nothing under its identifier.
proof fn queued_for_none(orders: Seq<Order>, order_id: OrderId)
    requires
        forall|i: int| 0 <= i < orders.len() ==> (#[trigger] orders[i]).order_id != order_id,
    ensures
        queued_for(orders, order_id) == 0,
    decreases orders.len(),
{
    if orders.len() != 0 {
        let rest = orders.drop_first();
        assert forall|i: int| 0 <= i < rest.len() implies (#[trigger] rest[i]).order_id
            != order_id by {
            assert(rest[i] == orders[i + 1]);
        }
        queued_for_none(rest, order_id);
    }
}

/// A queue that holds an order once has its remaining quantity under its identifier.
proof fn queued_for_one(orders: Seq<Order>, order_id: OrderId, i: int)
    requires
        0 <= i < orders.len(),
        orders[i].order_id == order_id,
        forall|j: int|
            0 <= j < orders.len() && j != i ==> (#[trigger] orders[j]).order_id != order_id,
    ensures
        queued_for(orders, order_id) == orders[i].remaining_quantity,
    decreases orders.len(),
{
    let rest = orders.drop_first();
    if i == 0 {
        assert forall|j: int| 0 <= j < rest.len() implies (#[trigger] rest[j]).order_id
            != order_id by {
            assert(rest[j] == orders[j + 1]);
        }
        queued_for_none(rest, order_id);
    } else {
        assert forall|j: int| 0 <= j < rest.len() && j != i - 1 implies (
        #[trigger] rest[j]).order_id != order_id by {
            assert(rest[j] == orders[j + 1]);
        }
        queued_for_one(rest, order_id, i - 1);
    }
}

/// What a side of a tidy book holds under an identifier is what is left of that order, if it
/// rests on this side, and nothing otherwise.
proof fn held_is_left(book: BookView, side: Side, order_id: OrderId)
    requires
        book.wf(),
        book.tidy(),
    ensures
        total_of(book.own(side), held_for(order_id)) == if book.cancellable(order_id)
            && book.side_of(order_id) == side {
            book.left_of(order_id) as nat
        } else {
            0
        },
{
    let levels = book.own(side);
    let measure = held_for(order_id);
    cancellable_iff_resting(book, order_id);
    assert forall|p: Price| #[trigger] levels.contains_key(p) && !holds(
        levels[p].orders,
        order_id,
    ) implies measure(levels[p]) == 0 by {
        queued_for_none(levels[p].orders, order_id);
    }
    if book.cancellable(order_id) && book.side_of(order_id) == side {
        let price = book.price_of(order_id);
        let orders = levels[price].orders;
        let i = first_index(orders, order_id);
        first_found(orders, order_id);
        assert(tidy_level(levels[price], (side, price), book.lookup, book.next_order_id));
        queued_for_one(orders, order_id, i);
        total_splits(levels, measure, price);
        let fewer = levels.remove(price);
        assert(fewer.dom() =~= levels.dom().remove(price));
        assert forall|p: Price| #[trigger] fewer.contains_key(p) implies measure(fewer[p]) == 0 by {
            assert(levels.contains_key(p));
            if holds(levels[p].orders, order_id) {
                assert(book.rests(order_id, side, p));
            }
        }
        nothing_adds_up(fewer, measure);
    } else {
        assert forall|p: Price| #[trigger] levels.contains_key(p) implies measure(levels[p])
            == 0 by {
            if holds(levels[p].orders, order_id) {
                assert(book.rests(order_id, side, p));
            }
        }
        nothing_adds_up(levels, measure);
    }
}

/// Conservation of quantity order by order: under a limit order, every order of the book loses
/// exactly what it is filled with, and one that is filled up can no longer be cancelled.
pub proof fn limit_fills_come_from_makers(
    book: BookView,
    side: Side,
    price: Price,
    quantity: Quantity,
    timestamp: u64,
    order_id: OrderId,
)
    requires
        book.wf(),
        book.tidy(),
        book.next_order_id < OrderId::MAX,
        price > 0,
        quantity > 0,
        order_id != book.next_order_id,
    ensures
        ({
            let outcome = book.limit_outcome(side, price, quantity, timestamp);
            &&& outcome.book.left_of(order_id) + filled_to(outcome.fills, order_id)
                == book.left_of(order_id)
            &&& outcome.book.cancellable(order_id) <==> outcome.book.left_of(order_id) > 0
        }),
{
    let outcome = book.limit_outcome(side, price, quantity, timestamp);
    let after = outcome.book;
    let taker = incoming(book, side, OrderType::Limit, price, quantity, timestamp);
    let levels = book.opposite(side);
    let prices = candidates(levels, side, Some(price));
    limit_keeps_invariant(book, side, price, quantity, timestamp);
    limit_keeps_tidy(book, side, price, quantity, timestamp);
    walk_keeps(levels, prices, taker, true);
    walk_pays(levels, prices, taker, true, other(side), order_id);
    held_is_left(book, side, order_id);
    held_is_left(book, other(side), order_id);
    held_is_left(after, side, order_id);
    held_is_left(after, other(side), order_id);
    assert(total_of(after.own(side), held_for(order_id)) == total_of(
        book.own(side),
        held_for(order_id),
    )) by {
        if outcome.taker.remaining_quantity > 0 {
            let own = book.own(side);
            let level = level_or_empty(own, price);
            total_inserts(own, held_for(order_id), price, level.pushed(outcome.taker));
            if own.contains_key(price) {
                total_splits(own, held_for(order_id), price);
            } else {
                assert(own.remove(price) =~= own);
            }
            queued_for_pushed(level.orders, outcome.taker, order_id);
        }
    }
    left_is_positive(after, order_id);
}

/// An order at the back of a queue changes nothing under other identifiers.
proof fn queued_for_pushed(orders: Seq<Order>, order: Order, order_id: OrderId)
    requires
        order.order_id != order_id,
    ensures
        queued_for(orders.push(order), order_id) == queued_for(orders, order_id),
    decreases orders.len(),
{
    if orders.len() == 0 {
        assert(orders.push(order).drop_first() =~= Seq::<Order>::empty());
        assert(queued_for(orders.push(order).drop_first(), order_id) == 0);
    } else {
        assert(orders.push(order).drop_first() =~= orders.drop_first().push(order));
        queued_for_pushed(orders.drop_first(), order, order_id);
    }
}

/// An order that can be cancelled has something left.
proof fn left_is_positive(book: BookView, order_id: OrderId)
    requires
        book.wf(),
    ensures
        book.cancellable(order_id) <==> book.left_of(order_id) > 0,
{
    if book.cancellable(order_id) {
        let level = book.level_of(order_id);
        first_found(level.orders, order_id);
        assert(level.wf(book.side_of(order_id), book.price_of(order_id)));
    }
}

/// Conservation of quantity order by order: under a market order, every order of the book loses
/// exactly what it is filled with, and one that is filled up can no longer be cancelled.
pub proof fn market_fills_come_from_makers(
    book: BookView,
    side: Side,
    quantity: Quantity,
    order_id: OrderId,
)
    requires
        book.wf(),
        book.tidy(),
        book.next_order_id < OrderId::MAX,
    ensures
        ({
            let outcome = book.market_outcome(side, quantity);
            &&& outcome.book.left_of(order_id) + filled_to(outcome.fills, order_id)
                == book.left_of(order_id)
            &&& outcome.book.cancellable(order_id) <==> outcome.book.left_of(order_id) > 0
        }),
{
    let outcome = book.market_outcome(side, quantity);
    let after = outcome.book;
    let taker = incoming(book, side, OrderType::Market, 0, quantity, 0);
    let levels = book.opposite(side);
    let prices = candidates(levels, side, None);
    market_keeps_invariant(book, side, quantity);
    market_keeps_tidy(book, side, quantity);
    walk_pays(levels, prices, taker, false, other(side), order_id);
    held_is_left(book, side, order_id);
    held_is_left(book, other(side), order_id);
    held_is_left(after, side, order_id);
    held_is_left(after, other(side), order_id);
    left_is_positive(after, order_id);
}

/// Whether, for an incoming order on `side`, the `i`-th order at price `p` comes before the
/// `j`-th order at price `q`: its price is better, or it is the same and the order is older.
pub open spec fn goes_first(side: Side, p: Price, i: int, q: Price, j: int) -> bool {
    if p == q {
        i < j
    } else {
        as_good(side, p, q)
    }
}

/// Something filled with an order is a fill with it.
proof fn filled_to_some(fills: Seq<Fill>, order_id: OrderId) -> (a: int)
    requires
        filled_to(fills, order_id) > 0,
    ensures
        0 <= a < fills.len(),
        fills[a].maker_order_id == order_id,
    decreases fills.len(),
{
    if fills[0].maker_order_id == order_id {
        0
    } else {
        filled_to_some(fills.drop_first(), order_id) + 1
    }
}

/// Along a side, an order is filled only once every order that goes first is used up.
proof fn walk_price_time_priority(
    levels: Map<Price, LevelView>,
    taker: Order,
    prune: bool,
    side: Side,
    limit: Option<Price>,
    lookup: Map<OrderId, Place>,
    next: OrderId,
    p: Price,
    i: int,
    q: Price,
    j: int,
)
    requires
        side_wf(levels, other(side)),
        tidy_side(levels, other(side), lookup, next),
        levels.contains_key(p) && 0 <= i < levels[p].orders.len(),
        levels.contains_key(q) && 0 <= j < levels[q].orders.len(),
        goes_first(side, p, i, q, j),
        filled_to(
            walked(levels, candidates(levels, side, limit), taker, prune).fills,
            levels[q].orders[j].order_id,
        ) > 0,
    ensures
        ({
            let after = walked(levels, candidates(levels, side, limit), taker, prune).levels;
            after.contains_key(p) ==> !holds(after[p].orders, levels[p].orders[i].order_id)
        }),
{
    let prices = candidates(levels, side, limit);
    let walk = walked(levels, prices, taker, prune);
    let late = levels[q].orders[j].order_id;
    let early = levels[p].orders[i].order_id;
    candidates_list(levels, side, limit);
    walk_by_price_priority(levels, taker, prune, side, limit, other(side));
    let a = filled_to_some(walk.fills, late);
    let price = walk.fills[a].price;
    // The fill is with an order of the level at its price; only the late one has its identifier.
    let arrival = walk_sweeps(levels, prices, taker, prune, other(side), price);
    let there = levels[price].swept(arrival);
    time_priority(levels[price], arrival, other(side), price);
    let k = there.fills.index_of(walk.fills[a]);
    assert(there.fills.contains(walk.fills[a]));
    assert(levels[price].orders[k].order_id == late);
    assert(tidy_level(levels[price], (other(side), price), lookup, next));
    assert(tidy_level(levels[q], (other(side), q), lookup, next));
    assert(lookup[late] == (other(side), price) && lookup[late] == (other(side), q));
    assert(price == q);
    assert(k == j);
    if walk.levels.contains_key(p) {
        if p == q {
            let gone = levels[q].orders.len() - there.level.orders.len();
            assert(i < gone);
            if holds(there.level.orders, early) {
                let m = choose|m: int|
                    0 <= m < there.level.orders.len() && (
                    #[trigger] there.level.orders[m]).order_id == early;
                assert(there.level.orders[m].order_id == levels[q].orders[m + gone].order_id);
            }
        } else {
            assert(walk.levels[p].orders.len() == 0);
        }
    }
}

/// Price-time priority of limit orders: no order of the book is filled at all while an order
/// that goes first, because its price is better or it is older at the same price, still has
/// something left.
pub proof fn limit_price_time_priority(
    book: BookView,
    side: Side,
    price: Price,
    quantity: Quantity,
    timestamp: u64,
    p: Price,
    i: int,
    q: Price,
    j: int,
)
    requires
        book.wf(),
        book.tidy(),
        book.next_order_id < OrderId::MAX,
        book.opposite(side).contains_key(p) && 0 <= i < book.opposite(side)[p].orders.len(),
        book.opposite(side).contains_key(q) && 0 <= j < book.opposite(side)[q].orders.len(),
        goes_first(side, p, i, q, j),
        filled_to(
            book.limit_outcome(side, price, quantity, timestamp).fills,
            book.opposite(side)[q].orders[j].order_id,
        ) > 0,
    ensures
        book.limit_outcome(side, price, quantity, timestamp).book.left_of(
            book.opposite(side)[p].orders[i].order_id,
        ) == 0,
{
    let taker = incoming(book, side, OrderType::Limit, price, quantity, timestamp);
    let levels = book.opposite(side);
    let early = levels[p].orders[i].order_id;
    let outcome = book.limit_outcome(side, price, quantity, timestamp);
    walk_price_time_priority(
        levels,
        taker,
        true,
        side,
        Some(price),
        book.lookup,
        book.next_order_id,
        p,
        i,
        q,
        j,
    );
    walk_keeps(levels, candidates(levels, side, Some(price)), taker, true);
    limit_keeps_tidy(book, side, price, quantity, timestamp);
    assert(tidy_level(levels[p], (other(side), p), book.lookup, book.next_order_id));
    assert(outcome.book.lookup[early] == (other(side), p));
}

/// Price-time priority of market orders: no order of the book is filled at all while an order
/// that goes first, because its price is better or it is older at the same price, still has
/// something left.
pub proof fn market_price_time_priority(
    book: BookView,
    side: Side,
    quantity: Quantity,
    p: Price,
    i: int,
    q: Price,
    j: int,
)
    requires
        book.wf(),
        book.tidy(),
        book.opposite(side).contains_key(p) && 0 <= i < book.opposite(side)[p].orders.len(),
        book.opposite(side).contains_key(q) && 0 <= j < book.opposite(side)[q].orders.len(),
        goes_first(side, p, i, q, j),
        filled_to(
            book.market_outcome(side, quantity).fills,
            book.opposite(side)[q].orders[j].order_id,
        ) > 0,
    ensures
        book.market_outcome(side, quantity).book.left_of(
            book.opposite(side)[p].orders[i].order_id,
        ) == 0,
{
    let taker = incoming(book, side, OrderType::Market, 0, quantity, 0);
    let levels = book.opposite(side);
    let early = levels[p].orders[i].order_id;
    walk_price_time_priority(
        levels,
        taker,
        false,
        side,
        None,
        book.lookup,
        book.next_order_id,
        p,
        i,
        q,
        j,
    );
    assert(tidy_level(levels[p], (other(side), p), book.lookup, book.next_order_id));
    assert(book.lookup[early] == (other(side), p));
}

} // verus!
