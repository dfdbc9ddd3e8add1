//! A matching engine for one instrument: a limit order book with price-time priority.

pub mod book;
pub mod clock;
pub mod conduct;
pub mod events;
pub mod identity;
pub mod invariants;
pub mod ladder;
pub mod laws;
pub mod level;
pub mod lookup;
pub mod market;
pub mod meaning;
pub mod model;
pub mod order;
pub mod priority;
pub mod replay;
pub mod totals;
pub mod types;
