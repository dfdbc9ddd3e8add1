//! The vocabulary of the order book.

use vstd::prelude::*;

verus! {

/// Identifies an order; issued by the book, counting up from 1.
pub type OrderId = u64;

/// A price in fixed-point units chosen by the caller.
pub type Price = u64;

/// A quantity in fixed-point units chosen by the caller.
pub type Quantity = u64;

/// Which side of the book an order belongs to.
#[derive(Clone, Copy, Debug, PartialEq, Eq, Structural)]
pub enum Side {
    /// A bid: buys at its price or lower.
    Buy,
    /// An ask: sells at its price or higher.
    Sell,
}

/// How an order wants to trade.
#[derive(Clone, Copy, Debug, PartialEq, Eq, Structural)]
pub enum OrderType {
    /// Trades at its own price or better and rests with what is left.
    Limit,
    /// Trades at the best available prices and never rests.
    Market,
}

/// Where an order stands in its life.
#[derive(Clone, Copy, Debug, PartialEq, Eq, Structural)]
pub enum OrderStatus {
    /// Nothing of it has been filled yet.
    Active,
    /// Some of it has been filled and some is left.
    PartiallyFilled,
    /// Nothing of it is left.
    Filled,
    /// Withdrawn.
    Cancelled,
}

/// Why a submission is refused.
#[derive(Clone, Copy, Debug, PartialEq, Eq, Structural)]
pub enum OrderBookError {
    /// A limit order at a price of zero.
    InvalidPrice(Price),
    /// An order for nothing.
    InvalidQuantity(Quantity),
}

} // verus!
