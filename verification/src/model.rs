//! The order book as a mathematical value, and what each command does to it.

use vstd::prelude::*;

use crate::events::Fill;
use crate::ladder::{candidates, walked, with_order, Walk};
use crate::level::{first_index, holds, LevelView};
use crate::lookup::Place;
use crate::order::Order;
use crate::totals::queued;
use crate::types::{OrderId, OrderStatus, OrderType, Price, Quantity, Side};

verus! {

/// What an order book holds.
#[verifier::ext_equal]
pub struct BookView {
    /// The levels of resting buy orders.
    pub bids: Map<Price, LevelView>,
    /// The levels of resting sell orders.
    pub asks: Map<Price, LevelView>,
    /// Where the orders rest that ever came to rest and were not cancelled since.
    pub lookup: Map<OrderId, Place>,
    /// The identifier of the next order.
    pub next_order_id: OrderId,
}

/// What comes of submitting an order.
#[verifier::ext_equal]
pub struct Outcome {
    /// The book afterwards.
    pub book: BookView,
    /// The submitted order afterwards.
    pub taker: Order,
    /// The fills, in the order in which they happened.
    pub fills: Seq<Fill>,
}

impl Order {
    /// Whether this is a limit order that can rest on this side at this price.
    pub open spec fn rests_at(self, side: Side, price: Price) -> bool {
        &&& self.side == side
        &&& self.price == price
        &&& self.order_type == OrderType::Limit
        &&& 0 < self.remaining_quantity <= self.original_quantity
        &&& self.status == if self.remaining_quantity == self.original_quantity {
            OrderStatus::Active
        } else {
            OrderStatus::PartiallyFilled
        }
    }
}

impl LevelView {
    /// Every order of the queue rests here, and the cached total is theirs.
    pub open spec fn wf(self, side: Side, price: Price) -> bool {
        &&& self.price == price
        &&& forall|i: int|
            0 <= i < self.orders.len() ==> (#[trigger] self.orders[i]).rests_at(side, price)
        &&& self.total_quantity == queued(self.orders) % 0x1_0000_0000_0000_0000
    }
}

/// Every level of a side is well formed and stands at a positive price.
pub open spec fn side_wf(levels: Map<Price, LevelView>, side: Side) -> bool {
    &&& levels.dom().finite()
    &&& forall|p: Price| #[trigger] levels.contains_key(p) ==> p > 0 && levels[p].wf(side, p)
}

impl BookView {
    /// A book in which nothing has happened yet.
    pub open spec fn empty() -> BookView {
        BookView {
            bids: Map::empty(),
            asks: Map::empty(),
            lookup: Map::empty(),
            next_order_id: 1,
        }
    }

    /// No level of the bids reaches a level of the asks.
    pub open spec fn uncrossed(self) -> bool {
        forall|b: Price, a: Price|
            #![trigger self.bids.contains_key(b), self.asks.contains_key(a)]
            self.bids.contains_key(b) && self.asks.contains_key(a) ==> b < a
    }

    /// The invariant of the book.
    pub open spec fn wf(self) -> bool {
        &&& side_wf(self.bids, Side::Buy)
        &&& side_wf(self.asks, Side::Sell)
        &&& self.uncrossed()
    }

    /// The side on which orders of `side` rest.
    pub open spec fn own(self, side: Side) -> Map<Price, LevelView> {
        match side {
            Side::Buy => self.bids,
            Side::Sell => self.asks,
        }
    }

    /// The side against which incoming orders of `side` trade.
    pub open spec fn opposite(self, side: Side) -> Map<Price, LevelView> {
        match side {
            Side::Buy => self.asks,
            Side::Sell => self.bids,
        }
    }

    /// The book with other levels where orders of `side` rest.
    pub open spec fn with_own(self, side: Side, levels: Map<Price, LevelView>) -> BookView {
        match side {
            Side::Buy => BookView { bids: levels, ..self },
            Side::Sell => BookView { asks: levels, ..self },
        }
    }

    /// The book with other levels where incoming orders of `side` trade.
    pub open spec fn with_opposite(self, side: Side, levels: Map<Price, LevelView>) -> BookView {
        match side {
            Side::Buy => BookView { asks: levels, ..self },
            Side::Sell => BookView { bids: levels, ..self },
        }
    }

    /// The book once the next identifier has been given away.
    pub open spec fn issued(self) -> BookView {
        BookView { next_order_id: self.next_order_id.wrapping_add(1), ..self }
    }

    /// The book with `order` at the back of the queue at its price.
    pub open spec fn rested(self, order: Order) -> BookView {
        let placed = self.with_own(
            order.side,
            with_order(self.own(order.side), order.price, order),
        );
        BookView { lookup: self.lookup.insert(order.order_id, (order.side, order.price)), ..placed }
    }

    /// How an incoming limit order trades: at its limit or better, emptying levels away.
    pub open spec fn limit_walk(
        self,
        side: Side,
        price: Price,
        quantity: Quantity,
        timestamp: u64,
    ) -> Walk {
        let levels = self.opposite(side);
        walked(
            levels,
            candidates(levels, side, Some(price)),
            Order::fresh(self.next_order_id, side, OrderType::Limit, price, quantity, timestamp),
            true,
        )
    }

    /// What comes of submitting a limit order: it trades at its limit or better, and what is
    /// left of it rests.
    pub open spec fn limit_outcome(
        self,
        side: Side,
        price: Price,
        quantity: Quantity,
        timestamp: u64,
    ) -> Outcome {
        let walk = self.limit_walk(side, price, quantity, timestamp);
        let traded = self.issued().with_opposite(side, walk.levels);
        Outcome {
            book: if walk.taker.remaining_quantity > 0 {
                traded.rested(walk.taker)
            } else {
                traded
            },
            taker: walk.taker,
            fills: walk.fills,
        }
    }

    /// How an incoming market order trades: at any price. Its time plays no part, and no part of
    /// it is kept.
    pub open spec fn market_walk(self, side: Side, quantity: Quantity) -> Walk {
        let levels = self.opposite(side);
        walked(
            levels,
            candidates(levels, side, None),
            Order::fresh(self.next_order_id, side, OrderType::Market, 0, quantity, 0),
            false,
        )
    }

    /// What comes of submitting a market order: it trades at any price, and what is left of it
    /// is dropped.
    pub open spec fn market_outcome(self, side: Side, quantity: Quantity) -> Outcome {
        let walk = self.market_walk(side, quantity);
        Outcome {
            book: self.issued().with_opposite(side, walk.levels),
            taker: walk.taker,
            fills: walk.fills,
        }
    }

    /// Whether the book remembers where this order came to rest.
    pub open spec fn remembers(self, order_id: OrderId) -> bool {
        self.lookup.contains_key(order_id)
    }

    /// The side on which a remembered order came to rest.
    pub open spec fn side_of(self, order_id: OrderId) -> Side {
        self.lookup[order_id].0
    }

    /// The price at which a remembered order came to rest.
    pub open spec fn price_of(self, order_id: OrderId) -> Price {
        self.lookup[order_id].1
    }

    /// Whether there is a level where this order came to rest.
    pub open spec fn has_level_of(self, order_id: OrderId) -> bool {
        self.own(self.side_of(order_id)).contains_key(self.price_of(order_id))
    }

    /// The level where this order came to rest.
    pub open spec fn level_of(self, order_id: OrderId) -> LevelView {
        self.own(self.side_of(order_id))[self.price_of(order_id)]
    }

    /// Whether this order can be cancelled: it came to rest and is still in its queue.
    pub open spec fn cancellable(self, order_id: OrderId) -> bool {
        &&& self.remembers(order_id)
        &&& self.has_level_of(order_id)
        &&& holds(self.level_of(order_id).orders, order_id)
    }

    /// The resting order with this identifier.
    pub open spec fn resting_order(self, order_id: OrderId) -> Order {
        self.level_of(order_id).orders[first_index(self.level_of(order_id).orders, order_id)]
    }

    /// The book without this order. Its level stays, even if nothing else rests there.
    pub open spec fn cancelled(self, order_id: OrderId) -> BookView {
        let level = self.level_of(order_id);
        let left = self.with_own(
            self.side_of(order_id),
            self.own(self.side_of(order_id)).insert(
                self.price_of(order_id),
                level.without(first_index(level.orders, order_id)),
            ),
        );
        BookView { lookup: self.lookup.remove(order_id), ..left }
    }
}

} // verus!
