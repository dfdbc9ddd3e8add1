//! A single order and what can happen to it.

use vstd::prelude::*;

use crate::clock::now_nanos;
use crate::types::{OrderId, OrderStatus, OrderType, Price, Quantity, Side};

verus! {

/// An order.
///
/// Its identity, side, type, price, original quantity and timestamp never change;
/// fills and cancels change the remaining quantity and the status.
#[derive(Debug)]
pub struct Order {
    /// Unique order identifier.
    pub order_id: OrderId,
    /// Buy or sell.
    pub side: Side,
    /// Limit or market.
    pub order_type: OrderType,
    /// Price level (0 for market orders).
    pub price: Price,
    /// Quantity when the order was created.
    pub original_quantity: Quantity,
    /// Quantity that is still to be filled.
    pub remaining_quantity: Quantity,
    /// Current status.
    pub status: OrderStatus,
    /// Time of creation, in nanoseconds since the Unix epoch.
    pub timestamp: u64,
}

impl Order {
    /// How much of `quantity` this order can take.
    pub open spec fn fill_amount(self, quantity: Quantity) -> Quantity {
        if self.remaining_quantity <= quantity {
            self.remaining_quantity
        } else {
            quantity
        }
    }

    /// This order once `quantity` has been offered to it.
    pub open spec fn after_fill(self, quantity: Quantity) -> Order {
        if self.remaining_quantity == 0 {
            self
        } else {
            let left = (self.remaining_quantity - self.fill_amount(quantity)) as Quantity;
            Order {
                remaining_quantity: left,
                status: if left == 0 {
                    OrderStatus::Filled
                } else {
                    OrderStatus::PartiallyFilled
                },
                ..self
            }
        }
    }

    /// Whether this order may still trade: neither filled nor cancelled.
    pub open spec fn live(self) -> bool {
        self.status == OrderStatus::Active || self.status == OrderStatus::PartiallyFilled
    }

    /// Whether this order can be cancelled: it is neither filled nor cancelled already.
    pub open spec fn can_cancel(self) -> bool {
        self.status != OrderStatus::Filled && self.status != OrderStatus::Cancelled
    }

    /// This order once a cancel has been tried.
    pub open spec fn after_cancel(self) -> Order {
        if self.can_cancel() {
            Order { status: OrderStatus::Cancelled, ..self }
        } else {
            self
        }
    }

    /// A newly created order.
    pub open spec fn fresh(
        order_id: OrderId,
        side: Side,
        order_type: OrderType,
        price: Price,
        quantity: Quantity,
        timestamp: u64,
    ) -> Order {
        Order {
            order_id,
            side,
            order_type,
            price,
            original_quantity: quantity,
            remaining_quantity: quantity,
            status: OrderStatus::Active,
            timestamp,
        }
    }

    /// Creates an order as of now.
    ///
    /// The timestamp is the time of the call; the rest of the order is fixed.
    pub fn new(
        order_id: OrderId,
        side: Side,
        order_type: OrderType,
        price: Price,
        quantity: Quantity,
    ) -> (r: Order)
        ensures
            r == Order::fresh(order_id, side, order_type, price, quantity, r.timestamp),
            r.order_id == order_id,
            r.side == side,
            r.order_type == order_type,
            r.price == price,
            r.original_quantity == quantity,
            r.remaining_quantity == quantity,
            r.status == OrderStatus::Active,
    {
        Order::created_at(order_id, side, order_type, price, quantity, now_nanos())
    }

    /// Creates an order with a given timestamp.
    pub fn created_at(
        order_id: OrderId,
        side: Side,
        order_type: OrderType,
        price: Price,
        quantity: Quantity,
        timestamp: u64,
    ) -> (r: Order)
        ensures
            r == Order::fresh(order_id, side, order_type, price, quantity, timestamp),
            r.order_id == order_id,
            r.side == side,
            r.order_type == order_type,
            r.price == price,
            r.original_quantity == quantity,
            r.remaining_quantity == quantity,
            r.status == OrderStatus::Active,
            r.timestamp == timestamp,
    {
        Order {
            order_id,
            side,
            order_type,
            price,
            original_quantity: quantity,
            remaining_quantity: quantity,
            status: OrderStatus::Active,
            timestamp,
        }
    }

    /// Gets the current remaining quantity.
    pub fn get_remaining_quantity(&self) -> (r: Quantity)
        ensures
            r == self.remaining_quantity,
    {
        self.remaining_quantity
    }

    /// Gets the current status.
    pub fn get_status(&self) -> (r: OrderStatus)
        ensures
            r == self.status,
    {
        self.status
    }

    /// Fills a portion or all of the order.
    ///
    /// Returns the quantity actually filled, which can be less than requested.
    pub fn fill(&mut self, quantity: Quantity) -> (r: Quantity)
        ensures
            r == old(self).fill_amount(quantity),
            *final(self) == old(self).after_fill(quantity),
            r <= quantity,
            r == quantity || r == old(self).remaining_quantity,
            final(self).remaining_quantity == old(self).remaining_quantity - r,
            old(self).remaining_quantity == 0 ==> final(self).status == old(self).status,
            old(self).remaining_quantity > 0 && final(self).remaining_quantity == 0
                ==> final(self).status == OrderStatus::Filled,
            final(self).remaining_quantity > 0 ==> final(self).status
                == OrderStatus::PartiallyFilled,
    {
        let current = self.remaining_quantity;
        if current == 0 {
            return 0;
        }
        let fill_amount: Quantity = if current <= quantity {
            current
        } else {
            quantity
        };
        let new_remaining = current - fill_amount;
        self.remaining_quantity = new_remaining;
        if new_remaining == 0 {
            self.status = OrderStatus::Filled;
        } else {
            self.status = OrderStatus::PartiallyFilled;
        }
        fill_amount
    }

    /// Cancels the order.
    ///
    /// Returns `true` if this cancelled it, `false` if it was already filled or cancelled.
    pub fn cancel(&mut self) -> (r: bool)
        ensures
            r == old(self).can_cancel(),
            *final(self) == old(self).after_cancel(),
            r == (old(self).status == OrderStatus::Active || old(self).status
                == OrderStatus::PartiallyFilled),
            r ==> final(self).status == OrderStatus::Cancelled,
            !r ==> final(self).status == old(self).status,
            final(self).remaining_quantity == old(self).remaining_quantity,
    {
        if self.status == OrderStatus::Filled || self.status == OrderStatus::Cancelled {
            return false;
        }
        self.status = OrderStatus::Cancelled;
        true
    }

    /// Checks if the order is still active (not filled or cancelled).
    pub fn is_active(&self) -> (r: bool)
        ensures
            r == self.live(),
            r == (self.status == OrderStatus::Active || self.status
                == OrderStatus::PartiallyFilled),
    {
        let status = self.get_status();
        status == OrderStatus::Active || status == OrderStatus::PartiallyFilled
    }
}

/// A fill takes no more than is offered and no more than is left, what it takes is exactly what
/// the order loses, and an order never has more left than it started with. All else about the
/// order but its status stays as it is.
pub proof fn fill_conserves_quantity(order: Order, quantity: Quantity)
    ensures
        order.fill_amount(quantity) <= quantity,
        order.after_fill(quantity).remaining_quantity + order.fill_amount(quantity)
            == order.remaining_quantity,
        order.remaining_quantity <= order.original_quantity ==> order.after_fill(
            quantity,
        ).remaining_quantity <= order.original_quantity,
        order.after_fill(quantity) == (Order {
            remaining_quantity: order.after_fill(quantity).remaining_quantity,
            status: order.after_fill(quantity).status,
            ..order
        }),
{
}

/// Filling an order in two goes is filling it in one.
pub proof fn fill_in_two_goes(order: Order, first: Quantity, second: Quantity)
    requires
        first + second <= Quantity::MAX,
    ensures
        order.fill_amount(first) + order.after_fill(first).fill_amount(second)
            == order.fill_amount((first + second) as Quantity),
        order.after_fill(first).after_fill(second) == order.after_fill(
            (first + second) as Quantity,
        ),
{
}

/// An order that has been filled up takes no more, is not active and cannot be cancelled.
pub proof fn filled_is_final(order: Order, quantity: Quantity, more: Quantity)
    requires
        0 < order.remaining_quantity <= quantity,
    ensures
        order.after_fill(quantity).status == OrderStatus::Filled,
        order.after_fill(quantity).fill_amount(more) == 0,
        order.after_fill(quantity).after_fill(more) == order.after_fill(quantity),
        !order.after_fill(quantity).live(),
        !order.after_fill(quantity).can_cancel(),
{
}

/// What creating an order gives: everything as asked for, nothing filled yet.
pub proof fn creating_means(
    order_id: OrderId,
    side: Side,
    order_type: OrderType,
    price: Price,
    quantity: Quantity,
    timestamp: u64,
)
    ensures
        ({
            let order = Order::fresh(order_id, side, order_type, price, quantity, timestamp);
            &&& order.order_id == order_id
            &&& order.side == side
            &&& order.order_type == order_type
            &&& order.price == price
            &&& order.original_quantity == quantity
            &&& order.remaining_quantity == quantity
            &&& order.status == OrderStatus::Active
            &&& order.timestamp == timestamp
        }),
{
}

/// What filling an order does: it takes all that is offered or all that is left, whichever is
/// less, and is filled once nothing is left, and filled in part before. An order with nothing
/// left stays as it is.
pub proof fn filling_means(order: Order, quantity: Quantity)
    ensures
        ({
            let taken = order.fill_amount(quantity);
            let after = order.after_fill(quantity);
            &&& taken <= quantity
            &&& taken <= order.remaining_quantity
            &&& taken == quantity || taken == order.remaining_quantity
            &&& after.remaining_quantity == order.remaining_quantity - taken
            &&& order.remaining_quantity == 0 ==> after.status == order.status
            &&& order.remaining_quantity > 0 && after.remaining_quantity == 0 ==> after.status
                == OrderStatus::Filled
            &&& after.remaining_quantity > 0 ==> after.status == OrderStatus::PartiallyFilled
            &&& after.order_id == order.order_id
            &&& after.side == order.side
            &&& after.order_type == order.order_type
            &&& after.price == order.price
            &&& after.original_quantity == order.original_quantity
            &&& after.timestamp == order.timestamp
        }),
{
}

/// What cancelling an order does: an active or partly filled one becomes cancelled, and a filled
/// or cancelled one stays so. Nothing but the status ever changes.
pub proof fn cancelling_means(order: Order)
    ensures
        ({
            let after = order.after_cancel();
            &&& order.can_cancel() <==> order.status == OrderStatus::Active || order.status
                == OrderStatus::PartiallyFilled
            &&& order.live() <==> order.status == OrderStatus::Active || order.status
                == OrderStatus::PartiallyFilled
            &&& order.status == OrderStatus::Active ==> after.status == OrderStatus::Cancelled
            &&& order.status == OrderStatus::PartiallyFilled ==> after.status
                == OrderStatus::Cancelled
            &&& order.status == OrderStatus::Filled ==> after.status == OrderStatus::Filled
            &&& order.status == OrderStatus::Cancelled ==> after.status == OrderStatus::Cancelled
            &&& after.order_id == order.order_id
            &&& after.side == order.side
            &&& after.order_type == order.order_type
            &&& after.price == order.price
            &&& after.original_quantity == order.original_quantity
            &&& after.remaining_quantity == order.remaining_quantity
            &&& after.timestamp == order.timestamp
        }),
{
}

/// A cancel works once, and a cancelled order is not active.
pub proof fn cancel_works_once(order: Order)
    ensures
        !order.after_cancel().can_cancel(),
        !order.after_cancel().live(),
        order.after_cancel().after_cancel() == order.after_cancel(),
{
}

} // verus!
