//! The order book.

use dashmap::DashMap;
use std::collections::{BTreeMap, VecDeque};
use vstd::prelude::*;

use crate::clock::now_nanos;
use crate::conduct::{limit_means, market_means};
use crate::events::{FeedView, Trade, TradeFeed};
use crate::invariants::{filled, taker_time_free, walk_keeps};
use crate::ladder::{
    best_price, candidate_prices, candidates, is_best, levels_view, nothing_rests, rest_order,
    side_total, walk, withdraw_order,
};
use crate::laws::{cancel_keeps_invariant, limit_keeps_invariant, market_keeps_invariant};
use crate::level::PriceLevel;
use crate::lookup::{entries, get, insert, new_lookup, remove, Place};
use crate::meaning::reporting_means;
use crate::model::BookView;
use crate::order::Order;
use crate::totals::{cached, total_of};
use crate::types::{OrderBookError, OrderId, OrderType, Price, Quantity, Side};

verus! {

/// An order book for one instrument.
///
/// Each side holds its price levels sorted by price, and each level its orders in the order of
/// their arrival. Incoming orders trade at the best price first and with the oldest order first.
pub struct OrderBook {
    /// Buy orders by price; the highest is the best.
    bids: BTreeMap<Price, PriceLevel>,
    /// Sell orders by price; the lowest is the best.
    asks: BTreeMap<Price, PriceLevel>,
    /// Finds a resting order's side and price.
    order_lookup: DashMap<OrderId, Place>,
    /// The identifier of the next order.
    next_order_id: OrderId,
    /// Where trades are reported.
    feed: TradeFeed,
}

impl View for OrderBook {
    type V = BookView;

    closed spec fn view(&self) -> BookView {
        BookView {
            bids: levels_view(self.bids@),
            asks: levels_view(self.asks@),
            lookup: entries(self.order_lookup),
            next_order_id: self.next_order_id,
        }
    }
}

impl OrderBook {
    /// Where the reported trades are.
    pub closed spec fn feed_view(self) -> FeedView {
        self.feed@
    }

    /// The invariant of the book.
    pub open spec fn wf(self) -> bool {
        self@.wf() && self.feed_view().wf()
    }

    /// Creates an empty book that nobody listens to.
    pub fn new() -> (r: OrderBook)
        ensures
            r.wf(),
            r@ == BookView::empty(),
            r.feed_view().sent() == Seq::<Trade>::empty(),
            r.feed_view().unlimited,
    {
        OrderBook::with_trade_feed(TradeFeed::silent())
    }

    /// Creates an empty book that reports its trades to `feed`.
    pub fn with_trade_feed(feed: TradeFeed) -> (r: OrderBook)
        requires
            feed.wf(),
        ensures
            r.wf(),
            r@ == BookView::empty(),
            r.feed_view() == feed@,
    {
        let r = OrderBook {
            bids: BTreeMap::new(),
            asks: BTreeMap::new(),
            order_lookup: new_lookup(),
            next_order_id: 1,
            feed,
        };
        assert(r@ =~= BookView::empty());
        r
    }

    /// Offers the trades that wait for room to the channel once more, oldest first, until it is
    /// full. Gives whether none is left waiting.
    ///
    /// There are none unless the channel has a capacity.
    pub fn deliver_trades(&mut self) -> (done: bool)
        requires
            old(self).wf(),
        ensures
            final(self).wf(),
            final(self)@ == old(self)@,
            final(self).feed_view().sent() == old(self).feed_view().sent(),
            old(self).feed_view().handed.is_prefix_of(final(self).feed_view().handed),
            final(self).feed_view().unlimited == old(self).feed_view().unlimited,
            done == (final(self).feed_view().waiting.len() == 0),
    {
        self.feed.deliver()
    }

    /// Takes the trades out that wait for room in the channel, oldest first.
    ///
    /// There are none unless the channel has a capacity.
    pub fn take_waiting_trades(&mut self) -> (r: VecDeque<Trade>)
        requires
            old(self).wf(),
        ensures
            final(self).wf(),
            r@ == old(self).feed_view().waiting,
            final(self).feed_view() == (FeedView {
                waiting: Seq::empty(),
                ..old(self).feed_view()
            }),
            final(self)@ == old(self)@,
    {
        self.feed.take_waiting()
    }

    /// Generates an order identifier.
    pub fn generate_order_id(&mut self) -> (r: OrderId)
        requires
            old(self).wf(),
        ensures
            final(self).wf(),
            r == old(self)@.next_order_id,
            final(self)@ == old(self)@.issued(),
            final(self)@.next_order_id == (old(self)@.next_order_id + 1)
                % 0x1_0000_0000_0000_0000,
            final(self)@.bids == old(self)@.bids,
            final(self)@.asks == old(self)@.asks,
            final(self)@.lookup == old(self)@.lookup,
            final(self).feed_view() == old(self).feed_view(),
    {
        let order_id = self.next_order_id;
        self.next_order_id = order_id.wrapping_add(1);
        order_id
    }

    /// Gets the best bid price: the highest one at which a buy order rests.
    pub fn best_bid(&self) -> (r: Option<Price>)
        ensures
            match r {
                Some(price) => is_best(self@.bids, Side::Sell, price),
                None => nothing_rests(self@.bids),
            },
            match r {
                Some(price) => self@.bids.contains_key(price) && self@.bids[price].orders.len() > 0
                    && forall|p: Price| #[trigger]
                    self@.bids.contains_key(p) && self@.bids[p].orders.len() > 0 ==> p <= price,
                None => forall|p: Price| #[trigger]
                    self@.bids.contains_key(p) ==> self@.bids[p].orders.len() == 0,
            },
    {
        best_price(&self.bids, Side::Sell)
    }

    /// Gets the best ask price: the lowest one at which a sell order rests.
    pub fn best_ask(&self) -> (r: Option<Price>)
        ensures
            match r {
                Some(price) => is_best(self@.asks, Side::Buy, price),
                None => nothing_rests(self@.asks),
            },
            match r {
                Some(price) => self@.asks.contains_key(price) && self@.asks[price].orders.len() > 0
                    && forall|p: Price| #[trigger]
                    self@.asks.contains_key(p) && self@.asks[p].orders.len() > 0 ==> p >= price,
                None => forall|p: Price| #[trigger]
                    self@.asks.contains_key(p) ==> self@.asks[p].orders.len() == 0,
            },
    {
        best_price(&self.asks, Side::Buy)
    }

    /// Gets the current spread: how far the best ask is above the best bid, if there are both.
    pub fn spread(&self) -> (r: Option<Price>)
        requires
            self.wf(),
        ensures
            match r {
                Some(spread) => exists|bid: Price, ask: Price|
                    #[trigger] is_best(self@.bids, Side::Sell, bid) && #[trigger] is_best(
                        self@.asks,
                        Side::Buy,
                        ask,
                    )
                        && spread == ask - bid && spread > 0,
                None => nothing_rests(self@.bids) || nothing_rests(self@.asks),
            },
    {
        match (self.best_bid(), self.best_ask()) {
            (Some(bid), Some(ask)) => {
                assert(self@.bids.contains_key(bid) && self@.asks.contains_key(ask));
                Some(ask.saturating_sub(bid))
            },
            _ => None,
        }
    }

    /// Adds up the quantity at all levels on which orders of `side` rest, which can be more than
    /// a `Quantity` holds.
    pub fn depth(&self, side: Side) -> (r: u128)
        ensures
            r == total_of(self@.own(side), cached()),
    {
        match side {
            Side::Buy => side_total(&self.bids),
            Side::Sell => side_total(&self.asks),
        }
    }

    /// Gets the total quantity at all bid levels.
    pub fn total_bid_quantity(&self) -> (r: Quantity)
        requires
            total_of(self@.bids, cached()) <= Quantity::MAX,
        ensures
            r == total_of(self@.bids, cached()),
    {
        self.depth(Side::Buy) as Quantity
    }

    /// Gets the total quantity at all ask levels.
    pub fn total_ask_quantity(&self) -> (r: Quantity)
        requires
            total_of(self@.asks, cached()) <= Quantity::MAX,
        ensures
            r == total_of(self@.asks, cached()),
    {
        self.depth(Side::Sell) as Quantity
    }

    /// Gets the total quantity at all levels, bids and asks.
    pub fn total_quantity(&self) -> (r: Quantity)
        requires
            total_of(self@.bids, cached()) + total_of(self@.asks, cached()) <= Quantity::MAX,
        ensures
            r == total_of(self@.bids, cached()) + total_of(self@.asks, cached()),
    {
        self.total_bid_quantity() + self.total_ask_quantity()
    }

    /// Submits a limit order.
    ///
    /// It trades at its limit or better, best price first and oldest order first. What is left of
    /// it rests, stamped with the time of the call.
    pub fn submit_limit_order(
        &mut self,
        side: Side,
        price: Price,
        quantity: Quantity,
    ) -> (r: Result<OrderId, OrderBookError>)
        requires
            old(self).wf(),
        ensures
            final(self).wf(),
            r == (if price == 0 {
                Err(OrderBookError::InvalidPrice(price))
            } else if quantity == 0 {
                Err(OrderBookError::InvalidQuantity(quantity))
            } else {
                Ok(old(self)@.next_order_id)
            }),
            r is Err ==> final(self)@ == old(self)@ && final(self).feed_view() == old(
                self,
            ).feed_view(),
            r is Ok ==> exists|timestamp: u64|
                {
                    let outcome = #[trigger] old(self)@.limit_outcome(
                        side,
                        price,
                        quantity,
                        timestamp,
                    );
                    &&& final(self)@ == outcome.book
                    &&& old(self).feed_view().reports(final(self).feed_view(), outcome.fills)
                },
            r matches Ok(id) ==> {
                let before = old(self).feed_view().handed + old(self).feed_view().waiting;
                let after = final(self).feed_view().handed + final(self).feed_view().waiting;
                &&& before.len() <= after.len()
                &&& forall|i: int|
                    0 <= i < before.len() ==> #[trigger] after[i] == before[i]
                &&& forall|i: int|
                    before.len() <= i < after.len() ==> {
                        &&& (#[trigger] after[i]).taker_order_id == id
                        &&& after[i].quantity > 0
                        &&& side == Side::Buy ==> after[i].price <= price
                        &&& side == Side::Sell ==> after[i].price >= price
                    }
            },
    {
        self.submit_limit_order_at(side, price, quantity, now_nanos())
    }

    /// Submits a limit order with a given timestamp.
    pub fn submit_limit_order_at(
        &mut self,
        side: Side,
        price: Price,
        quantity: Quantity,
        timestamp: u64,
    ) -> (r: Result<OrderId, OrderBookError>)
        requires
            old(self).wf(),
        ensures
            final(self).wf(),
            r == (if price == 0 {
                Err(OrderBookError::InvalidPrice(price))
            } else if quantity == 0 {
                Err(OrderBookError::InvalidQuantity(quantity))
            } else {
                Ok(old(self)@.next_order_id)
            }),
            r is Err ==> final(self)@ == old(self)@ && final(self).feed_view() == old(
                self,
            ).feed_view(),
            r is Ok ==> {
                let outcome = old(self)@.limit_outcome(side, price, quantity, timestamp);
                &&& final(self)@ == outcome.book
                &&& old(self).feed_view().reports(final(self).feed_view(), outcome.fills)
            },
            r matches Ok(id) ==> {
                let before = old(self).feed_view().handed + old(self).feed_view().waiting;
                let after = final(self).feed_view().handed + final(self).feed_view().waiting;
                &&& before.len() <= after.len()
                &&& forall|i: int|
                    0 <= i < before.len() ==> #[trigger] after[i] == before[i]
                &&& forall|i: int|
                    before.len() <= i < after.len() ==> {
                        &&& (#[trigger] after[i]).taker_order_id == id
                        &&& after[i].quantity > 0
                        &&& side == Side::Buy ==> after[i].price <= price
                        &&& side == Side::Sell ==> after[i].price >= price
                    }
            },
    {
        if price == 0 {
            return Err(OrderBookError::InvalidPrice(price));
        }
        if quantity == 0 {
            return Err(OrderBookError::InvalidQuantity(quantity));
        }
        proof {
            limit_keeps_invariant(self@, side, price, quantity, timestamp);
            walk_keeps(
                self@.opposite(side),
                candidates(self@.opposite(side), side, Some(price)),
                Order::fresh(
                    self@.next_order_id,
                    side,
                    OrderType::Limit,
                    price,
                    quantity,
                    timestamp,
                ),
                true,
            );
        }
        let order_id = self.generate_order_id();
        let mut order = Order::created_at(
            order_id,
            side,
            OrderType::Limit,
            price,
            quantity,
            timestamp,
        );
        match side {
            Side::Buy => {
                let prices = candidate_prices(&self.asks, side, Some(price));
                walk(&mut self.asks, &prices, &mut order, true, &mut self.feed);
                if order.get_remaining_quantity() > 0 {
                    rest_order(&mut self.bids, price, order);
                    insert(&mut self.order_lookup, order_id, (side, price));
                }
            },
            Side::Sell => {
                let prices = candidate_prices(&self.bids, side, Some(price));
                walk(&mut self.bids, &prices, &mut order, true, &mut self.feed);
                if order.get_remaining_quantity() > 0 {
                    rest_order(&mut self.asks, price, order);
                    insert(&mut self.order_lookup, order_id, (side, price));
                }
            },
        }
        assert(self@ =~= old(self)@.limit_outcome(side, price, quantity, timestamp).book);
        proof {
            let fills = old(self)@.limit_outcome(side, price, quantity, timestamp).fills;
            limit_means(old(self)@, side, price, quantity, timestamp);
            reporting_means(old(self).feed_view(), self.feed_view(), fills);
        }
        Ok(order_id)
    }

    /// Submits a market order and returns its identifier and the quantity actually filled.
    ///
    /// It trades at the best available prices until it is filled or nothing is left, and never
    /// enters the book.
    pub fn submit_market_order(
        &mut self,
        side: Side,
        quantity: Quantity,
    ) -> (r: Result<(OrderId, Quantity), OrderBookError>)
        requires
            old(self).wf(),
        ensures
            final(self).wf(),
            quantity == 0 ==> {
                &&& r == Err::<(OrderId, Quantity), OrderBookError>(
                    OrderBookError::InvalidQuantity(quantity),
                )
                &&& final(self)@ == old(self)@
                &&& final(self).feed_view() == old(self).feed_view()
            },
            quantity > 0 ==> {
                let outcome = old(self)@.market_outcome(side, quantity);
                &&& r matches Ok((order_id, filled_total))
                &&& order_id == old(self)@.next_order_id
                &&& filled_total == filled(outcome.fills)
                &&& filled_total <= quantity
                &&& final(self)@ == outcome.book
                &&& old(self).feed_view().reports(final(self).feed_view(), outcome.fills)
            },
            r matches Ok((id, _)) ==> {
                let before = old(self).feed_view().handed + old(self).feed_view().waiting;
                let after = final(self).feed_view().handed + final(self).feed_view().waiting;
                &&& before.len() <= after.len()
                &&& forall|i: int|
                    0 <= i < before.len() ==> #[trigger] after[i] == before[i]
                &&& forall|i: int|
                    before.len() <= i < after.len() ==> {
                        &&& (#[trigger] after[i]).taker_order_id == id
                        &&& after[i].quantity > 0
                    }
            },
    {
        if quantity == 0 {
            return Err(OrderBookError::InvalidQuantity(quantity));
        }
        let order_id = self.generate_order_id();
        let mut order = Order::new(order_id, side, OrderType::Market, 0, quantity);
        proof {
            let book = old(self)@;
            let levels = book.opposite(side);
            let prices = candidates(levels, side, None);
            let taker = Order::fresh(book.next_order_id, side, OrderType::Market, 0, quantity, 0);
            market_keeps_invariant(book, side, quantity);
            assert(order == taker.stamped(order.timestamp));
            taker_time_free(levels, prices, taker, false, order.timestamp);
            walk_keeps(levels, prices, taker, false);
        }
        match side {
            Side::Buy => {
                let prices = candidate_prices(&self.asks, side, None);
                walk(&mut self.asks, &prices, &mut order, false, &mut self.feed);
            },
            Side::Sell => {
                let prices = candidate_prices(&self.bids, side, None);
                walk(&mut self.bids, &prices, &mut order, false, &mut self.feed);
            },
        }
        assert(self@ =~= old(self)@.market_outcome(side, quantity).book);
        proof {
            let fills = old(self)@.market_outcome(side, quantity).fills;
            market_means(old(self)@, side, quantity);
            reporting_means(old(self).feed_view(), self.feed_view(), fills);
        }
        let filled_total = quantity - order.get_remaining_quantity();
        Ok((order_id, filled_total))
    }

    /// Cancels an order and returns its remaining quantity; fails if it is not found or already
    /// filled.
    pub fn cancel_order(&mut self, order_id: OrderId) -> (r: Result<Quantity, String>)
        requires
            old(self).wf(),
        ensures
            final(self).wf(),
            final(self).feed_view() == old(self).feed_view(),
            match r {
                Ok(quantity) => {
                    &&& old(self)@.cancellable(order_id)
                    &&& quantity == old(self)@.resting_order(order_id).remaining_quantity
                    &&& final(self)@ == old(self)@.cancelled(order_id)
                },
                Err(reason) => {
                    &&& !old(self)@.cancellable(order_id)
                    &&& reason@ == (if !old(self)@.remembers(order_id) {
                        "Order not found"@
                    } else if !old(self)@.has_level_of(order_id) {
                        "Price level not found"@
                    } else {
                        "Order not found in price level queue (maybe already matched)"@
                    })
                    &&& final(self)@ == old(self)@
                },
            },
    {
        let (side, price) = match get(&self.order_lookup, order_id) {
            Some(place) => place,
            None => return Err("Order not found".to_string()),
        };
        proof {
            if self@.cancellable(order_id) {
                cancel_keeps_invariant(self@, order_id);
            }
        }
        let removed = match side {
            Side::Buy => withdraw_order(&mut self.bids, price, order_id),
            Side::Sell => withdraw_order(&mut self.asks, price, order_id),
        };
        match removed {
            None => Err("Price level not found".to_string()),
            Some(None) => Err(
                "Order not found in price level queue (maybe already matched)".to_string(),
            ),
            Some(Some(quantity)) => {
                remove(&mut self.order_lookup, order_id);
                assert(self@ =~= old(self)@.cancelled(order_id));
                Ok(quantity)
            },
        }
    }
}

/// What a book shows is what it holds.
proof fn view_means(book: OrderBook)
    ensures
        book@.bids.dom() == book.bids@.dom(),
        book@.asks.dom() == book.asks@.dom(),
        forall|p: Price| #[trigger]
            book.bids@.contains_key(p) ==> book@.bids[p].price == book.bids@[p].price
                && book@.bids[p].orders == book.bids@[p].orders@ && book@.bids[p].total_quantity
                == book.bids@[p].total_quantity,
        forall|p: Price| #[trigger]
            book.asks@.contains_key(p) ==> book@.asks[p].price == book.asks@[p].price
                && book@.asks[p].orders == book.asks@[p].orders@ && book@.asks[p].total_quantity
                == book.asks@[p].total_quantity,
        book@.lookup == entries(book.order_lookup),
        book@.next_order_id == book.next_order_id,
        book.feed_view() == book.feed@,
{
}

} // verus!
