//! Market orders next to limit orders.

use vstd::prelude::*;

use crate::invariants::{step_wf, sweep_wf, walk_keeps};
use crate::ladder::{candidates, crosses, is_best, level_or_empty, occupied, stepped, walked};
use crate::laws::{incoming, other};
use crate::level::LevelView;
use crate::model::{side_wf, BookView};
use crate::order::Order;
use crate::types::{OrderType, Price, Quantity, Side};

verus! {

/// The limit that rules no price out.
pub open spec fn no_limit(side: Side) -> Price {
    match side {
        Side::Buy => Price::MAX,
        Side::Sell => 1,
    }
}

/// Whether two incoming orders trade alike: they have the same identifier and as much left.
pub open spec fn alike(a: Order, b: Order) -> bool {
    a.order_id == b.order_id && a.remaining_quantity == b.remaining_quantity
}

/// Whether the same orders rest on two sides. A level at which nothing rests is as good as none.
pub open spec fn same_queues(a: Map<Price, LevelView>, b: Map<Price, LevelView>) -> bool {
    forall|p: Price| #[trigger] level_or_empty(a, p) == level_or_empty(b, p)
}

/// Orders that trade alike do so at a level.
proof fn sweep_alike(level: LevelView, a: Order, b: Order)
    requires
        alike(a, b),
    ensures
        level.swept(a).level == level.swept(b).level,
        level.swept(a).fills == level.swept(b).fills,
        alike(level.swept(a).taker, level.swept(b).taker),
    decreases level.orders.len(),
{
    if level.orders.len() != 0 && a.remaining_quantity != 0 {
        let maker = level.orders[0];
        if !maker.live() {
            sweep_alike(level.without(0), a, b);
        } else if maker.remaining_quantity == 0 {
            sweep_alike(level.popped(), a, b);
        } else {
            let quantity = level.front_fill(a).quantity;
            assert(level.front_fill(a) == level.front_fill(b));
            sweep_alike(level.past_front(a), a.after_fill(quantity), b.after_fill(quantity));
        }
    }
}

/// Orders that trade alike do so along sides on which the same orders rest, whether or not
/// levels that they empty are taken off.
proof fn walk_alike(
    pruned: Map<Price, LevelView>,
    kept: Map<Price, LevelView>,
    prices: Seq<Price>,
    a: Order,
    b: Order,
    side: Side,
)
    requires
        same_queues(pruned, kept),
        alike(a, b),
        side_wf(kept, side),
    ensures
        same_queues(
            walked(pruned, prices, a, true).levels,
            walked(kept, prices, b, false).levels,
        ),
        walked(pruned, prices, a, true).fills == walked(kept, prices, b, false).fills,
        alike(walked(pruned, prices, a, true).taker, walked(kept, prices, b, false).taker),
    decreases prices.len(),
{
    if prices.len() != 0 && a.remaining_quantity != 0 {
        let price = prices[0];
        let rest = prices.drop_first();
        let level = level_or_empty(kept, price);
        let after = level.swept(b);
        assert(level_or_empty(pruned, price) == level);
        sweep_alike(level, a, b);
        let pruned2 = if pruned.contains_key(price) {
            stepped(pruned, price, a, true)
        } else {
            pruned
        };
        let kept2 = if kept.contains_key(price) {
            stepped(kept, price, b, false)
        } else {
            kept
        };
        if kept.contains_key(price) {
            sweep_wf(level, b, side, price);
            step_wf(kept, price, b, false, side);
        }
        assert(after.level.orders.len() == 0 ==> after.level =~= LevelView::empty(price));
        assert forall|p: Price| #[trigger]
            level_or_empty(pruned2, p) == level_or_empty(kept2, p) by {
            assert(level_or_empty(pruned, p) == level_or_empty(kept, p));
        }
        walk_alike(pruned2, kept2, rest, level.swept(a).taker, after.taker, side);
        let then = walked(kept2, rest, after.taker, false);
        assert(Seq::empty() + then.fills =~= then.fills);
    }
}

/// A market order trades exactly as a limit order without a real limit: it gets the same
/// identifier, leads to the same fills, leaves as much of itself and leaves the same orders, and
/// so the same best price, on the opposite side. They differ in that what is left of the limit
/// order rests, and what is left of the market order is dropped.
pub proof fn market_is_a_limit_order_that_never_rests(
    book: BookView,
    side: Side,
    quantity: Quantity,
    timestamp: u64,
)
    requires
        book.wf(),
    ensures
        ({
            let market = book.market_outcome(side, quantity);
            let limit = book.limit_outcome(side, no_limit(side), quantity, timestamp);
            &&& market.fills == limit.fills
            &&& market.taker.remaining_quantity == limit.taker.remaining_quantity
            &&& market.taker.order_id == limit.taker.order_id
            &&& market.book.next_order_id == limit.book.next_order_id
            &&& same_queues(limit.book.opposite(side), market.book.opposite(side))
            &&& forall|p: Price| #[trigger]
                is_best(market.book.opposite(side), side, p) == is_best(
                    limit.book.opposite(side),
                    side,
                    p,
                )
            &&& if limit.taker.remaining_quantity == 0 {
                &&& market.book.own(side) == limit.book.own(side)
                &&& market.book.lookup == limit.book.lookup
            } else {
                limit.book == market.book.with_opposite(side, limit.book.opposite(side)).rested(
                    limit.taker,
                )
            }
        }),
{
    let market = book.market_outcome(side, quantity);
    let limit = book.limit_outcome(side, no_limit(side), quantity, timestamp);
    let levels = book.opposite(side);
    let a = incoming(book, side, OrderType::Limit, no_limit(side), quantity, timestamp);
    let b = incoming(book, side, OrderType::Market, 0, quantity, 0);
    let prices = candidates(levels, side, None);
    assert(candidates(levels, side, Some(no_limit(side))) == prices) by {
        assert(levels.dom().filter(|p: Price| crosses(side, Some(no_limit(side)), p))
            =~= levels.dom().filter(|p: Price| crosses(side, None, p)));
    }
    walk_alike(levels, levels, prices, a, b, other(side));
    walk_keeps(levels, prices, a, true);
    let one = limit.book.opposite(side);
    let two = market.book.opposite(side);
    assert forall|p: Price| #[trigger] is_best(two, side, p) == is_best(one, side, p) by {
        assert forall|q: Price| #[trigger] occupied(one, q) == occupied(two, q) by {
            assert(level_or_empty(one, q) == level_or_empty(two, q));
        }
        assert(forall|q: Price| #[trigger]
            one.contains_key(q) ==> occupied(one, q) == occupied(two, q));
        assert(forall|q: Price| #[trigger]
            two.contains_key(q) ==> occupied(one, q) == occupied(two, q));
    }
}

} // verus!
