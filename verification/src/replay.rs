//! Sequences of commands: every book they lead to, and that they always lead to the same one.

use vstd::prelude::*;

use crate::events::Fill;
use crate::identity::{cancel_keeps_tidy, limit_keeps_tidy, market_keeps_tidy};
use crate::invariants::{filled, filled_adds, restamped, walk_keeps, walk_timeless};
use crate::ladder::{candidates, level_or_empty, with_order};
use crate::laws::{
    cancel_conserves_quantity, cancel_keeps_invariant, incoming, limit_conserves_quantity,
    limit_fills_all_it_can, limit_keeps_invariant, market_conserves_quantity,
    market_keeps_invariant,
};
use crate::level::{first_found, first_index, holds, is_first, LevelView};
use crate::model::BookView;
use crate::order::Order;
use crate::totals::{resting, total_of};
use crate::types::{OrderId, OrderType, Price, Quantity, Side};

verus! {

/// Something that a caller asks of the book.
pub enum Command {
    /// Submits a limit order.
    Limit {
        /// Its side.
        side: Side,
        /// Its limit.
        price: Price,
        /// Its quantity.
        quantity: Quantity,
    },
    /// Submits a market order.
    Market {
        /// Its side.
        side: Side,
        /// Its quantity.
        quantity: Quantity,
    },
    /// Cancels an order.
    Cancel {
        /// Its identifier.
        order_id: OrderId,
    },
}

impl Command {
    /// Whether this is a submission that the book does not refuse.
    pub open spec fn accepted(self) -> bool {
        match self {
            Command::Limit { price, quantity, .. } => price > 0 && quantity > 0,
            Command::Market { quantity, .. } => quantity > 0,
            Command::Cancel { .. } => false,
        }
    }
}

/// How many of these commands are submissions that the book does not refuse.
pub open spec fn accepted(commands: Seq<Command>) -> nat
    decreases commands.len(),
{
    if commands.len() == 0 {
        0
    } else {
        accepted(commands.drop_last()) + if commands.last().accepted() {
            1nat
        } else {
            0
        }
    }
}

/// Where the quantities of some commands went.
pub struct Tally {
    /// What the accepted limit orders were for.
    pub submitted: nat,
    /// What limit orders traded as they came in.
    pub limit_traded: nat,
    /// What market orders traded.
    pub market_traded: nat,
    /// What cancels gave back.
    pub withdrawn: nat,
}

impl Tally {
    /// Nothing at all.
    pub open spec fn nothing() -> Tally {
        Tally { submitted: 0, limit_traded: 0, market_traded: 0, withdrawn: 0 }
    }

    /// Both together.
    pub open spec fn plus(self, more: Tally) -> Tally {
        Tally {
            submitted: self.submitted + more.submitted,
            limit_traded: self.limit_traded + more.limit_traded,
            market_traded: self.market_traded + more.market_traded,
            withdrawn: self.withdrawn + more.withdrawn,
        }
    }
}

impl BookView {
    /// What is left to fill in the whole book.
    pub open spec fn resting_quantity(self) -> nat {
        total_of(self.bids, resting()) + total_of(self.asks, resting())
    }

    /// Where the quantity of a command given at `timestamp` goes.
    pub open spec fn step_tally(self, command: Command, timestamp: u64) -> Tally {
        let traded = filled(self.step(command, timestamp).1);
        match command {
            Command::Limit { quantity, .. } => if command.accepted() {
                Tally { submitted: quantity as nat, limit_traded: traded, ..Tally::nothing() }
            } else {
                Tally::nothing()
            },
            Command::Market { .. } => Tally { market_traded: traded, ..Tally::nothing() },
            Command::Cancel { order_id } => if self.cancellable(order_id) {
                Tally {
                    withdrawn: self.resting_order(order_id).remaining_quantity as nat,
                    ..Tally::nothing()
                }
            } else {
                Tally::nothing()
            },
        }
    }

    /// Where the quantities of some commands go, the `i`-th given at the `i`-th time.
    pub open spec fn tally(self, commands: Seq<Command>, times: Seq<u64>) -> Tally
        decreases commands.len(),
    {
        if commands.len() == 0 {
            Tally::nothing()
        } else {
            let before = self.replay(commands.drop_last(), times.drop_last()).0;
            self.tally(commands.drop_last(), times.drop_last()).plus(
                before.step_tally(commands.last(), times.last()),
            )
        }
    }

    /// The book after a command given at `timestamp`, and the fills that it leads to. A refused
    /// command changes nothing.
    pub open spec fn step(self, command: Command, timestamp: u64) -> (BookView, Seq<Fill>) {
        match command {
            Command::Limit { side, price, quantity } => if price == 0 || quantity == 0 {
                (self, Seq::empty())
            } else {
                let outcome = self.limit_outcome(side, price, quantity, timestamp);
                (outcome.book, outcome.fills)
            },
            Command::Market { side, quantity } => if quantity == 0 {
                (self, Seq::empty())
            } else {
                let outcome = self.market_outcome(side, quantity);
                (outcome.book, outcome.fills)
            },
            Command::Cancel { order_id } => if self.cancellable(order_id) {
                (self.cancelled(order_id), Seq::empty())
            } else {
                (self, Seq::empty())
            },
        }
    }

    /// The book after some commands, the `i`-th given at the `i`-th time, and all fills that they
    /// lead to.
    pub open spec fn replay(self, commands: Seq<Command>, times: Seq<u64>) -> (BookView, Seq<Fill>)
        decreases commands.len(),
    {
        if commands.len() == 0 {
            (self, Seq::empty())
        } else {
            let (book, fills) = self.replay(commands.drop_last(), times.drop_last());
            let (after, more) = book.step(commands.last(), times.last());
            (after, fills + more)
        }
    }

    /// The book with all timestamps wiped out.
    pub open spec fn undated(self) -> BookView {
        BookView {
            bids: restamped(self.bids, wiped()),
            asks: restamped(self.asks, wiped()),
            ..self
        }
    }
}

/// Wipes a timestamp out.
pub open spec fn wiped() -> spec_fn(u64) -> u64 {
    |t: u64| 0u64
}

/// Every command keeps the invariant of the book; and as long as the counter does not run out,
/// it keeps identifiers unique and counts one up exactly for an accepted submission.
pub proof fn step_keeps_invariant(book: BookView, command: Command, timestamp: u64)
    requires
        book.wf(),
    ensures
        book.step(command, timestamp).0.wf(),
        book.tidy() && (command.accepted() ==> book.next_order_id < OrderId::MAX) ==> {
            let after = book.step(command, timestamp).0;
            &&& after.tidy()
            &&& after.next_order_id == book.next_order_id + if command.accepted() {
                1int
            } else {
                0
            }
        },
{
    let fresh = book.tidy() && (command.accepted() ==> book.next_order_id < OrderId::MAX);
    match command {
        Command::Limit { side, price, quantity } => {
            if price > 0 && quantity > 0 {
                limit_keeps_invariant(book, side, price, quantity, timestamp);
                if fresh {
                    limit_keeps_tidy(book, side, price, quantity, timestamp);
                }
            }
        },
        Command::Market { side, quantity } => {
            if quantity > 0 {
                market_keeps_invariant(book, side, quantity);
                if fresh {
                    market_keeps_tidy(book, side, quantity);
                }
            }
        },
        Command::Cancel { order_id } => {
            if book.cancellable(order_id) {
                cancel_keeps_invariant(book, order_id);
                if fresh {
                    cancel_keeps_tidy(book, order_id);
                }
            }
        },
    }
}

/// Every book that commands lead to from an empty one satisfies the invariant: in particular it
/// is never crossed, and every resting order has something left, no more than it started with.
/// As long as the counter does not run out, its identifiers are unique, and the next one is one
/// more than the number of accepted submissions.
pub proof fn every_reachable_book(commands: Seq<Command>, times: Seq<u64>)
    requires
        times.len() == commands.len(),
    ensures
        BookView::empty().replay(commands, times).0.wf(),
        accepted(commands) < OrderId::MAX ==> {
            let after = BookView::empty().replay(commands, times).0;
            after.tidy() && after.next_order_id == 1 + accepted(commands)
        },
    decreases commands.len(),
{
    if commands.len() != 0 {
        every_reachable_book(commands.drop_last(), times.drop_last());
        let (book, fills) = BookView::empty().replay(commands.drop_last(), times.drop_last());
        step_keeps_invariant(book, commands.last(), times.last());
    }
}

/// Conservation of quantity under one command.
proof fn step_conserves(book: BookView, command: Command, timestamp: u64)
    requires
        book.wf(),
    ensures
        ({
            let tally = book.step_tally(command, timestamp);
            book.resting_quantity() + tally.submitted == book.step(
                command,
                timestamp,
            ).0.resting_quantity() + 2 * tally.limit_traded + tally.market_traded
                + tally.withdrawn
        }),
{
    match command {
        Command::Limit { side, price, quantity } => {
            limit_conserves_quantity(book, side, price, quantity, timestamp);
            limit_fills_all_it_can(book, side, price, quantity, timestamp);
        },
        Command::Market { side, quantity } => {
            market_conserves_quantity(book, side, quantity);
        },
        Command::Cancel { order_id } => {
            if book.cancellable(order_id) {
                cancel_conserves_quantity(book, order_id);
            }
        },
    }
}

/// Conservation of quantity over any commands: what rested and what limit orders were submitted
/// for is what rests in the end, plus twice what limit orders traded as they came in, since each
/// such trade uses up quantity on both sides, plus what market orders traded, plus what cancels
/// gave back. From an empty book, nothing rested.
pub proof fn replay_conserves_quantity(book: BookView, commands: Seq<Command>, times: Seq<u64>)
    requires
        book.wf(),
        times.len() == commands.len(),
    ensures
        ({
            let after = book.replay(commands, times).0;
            let tally = book.tally(commands, times);
            &&& after.wf()
            &&& book.resting_quantity() + tally.submitted == after.resting_quantity() + 2
                * tally.limit_traded + tally.market_traded + tally.withdrawn
        }),
        BookView::empty().resting_quantity() == 0,
    decreases commands.len(),
{
    if commands.len() != 0 {
        replay_conserves_quantity(book, commands.drop_last(), times.drop_last());
        let before = book.replay(commands.drop_last(), times.drop_last()).0;
        step_conserves(before, commands.last(), times.last());
        step_keeps_invariant(before, commands.last(), times.last());
    }
}

/// A tally counts every fill of the commands, and nothing else, as traded.
pub proof fn tally_counts_every_fill(book: BookView, commands: Seq<Command>, times: Seq<u64>)
    ensures
        filled(book.replay(commands, times).1) == book.tally(commands, times).limit_traded
            + book.tally(commands, times).market_traded,
    decreases commands.len(),
{
    if commands.len() != 0 {
        let fewer = commands.drop_last();
        let earlier = times.drop_last();
        tally_counts_every_fill(book, fewer, earlier);
        let (before, fills) = book.replay(fewer, earlier);
        filled_adds(fills, before.step(commands.last(), times.last()).1);
    }
}

/// Wiping timestamps out of a queue leaves its identifiers alone.
proof fn wiped_first(level: LevelView, order_id: OrderId)
    ensures
        holds(level.restamped(wiped()).orders, order_id) == holds(level.orders, order_id),
        holds(level.orders, order_id) ==> first_index(level.restamped(wiped()).orders, order_id)
            == first_index(level.orders, order_id) && is_first(
            level.orders,
            order_id,
            first_index(level.orders, order_id),
        ),
{
    let a = level.orders;
    let b = level.restamped(wiped()).orders;
    assert forall|i: int| 0 <= i < a.len() implies (#[trigger] a[i]).order_id == (
    #[trigger] b[i]).order_id by {}
    if holds(a, order_id) {
        let i = choose|i: int| 0 <= i < a.len() && (#[trigger] a[i]).order_id == order_id;
        assert(b[i].order_id == order_id);
        first_found(a, order_id);
        first_found(b, order_id);
        let x = first_index(a, order_id);
        let y = first_index(b, order_id);
        assert(a[x].order_id == b[x].order_id);
        assert(a[y].order_id == b[y].order_id);
    }
    if holds(b, order_id) {
        let i = choose|i: int| 0 <= i < b.len() && (#[trigger] b[i]).order_id == order_id;
        assert(a[i].order_id == order_id);
    }
}

/// Timestamps play no part in what a command does.
proof fn step_timeless(book: BookView, command: Command, timestamp: u64)
    ensures
        book.undated().step(command, 0).0 == book.step(command, timestamp).0.undated(),
        book.undated().step(command, 0).1 == book.step(command, timestamp).1,
{
    let plain = book.undated();
    match command {
        Command::Limit { side, price, quantity } => {
            let levels = book.opposite(side);
            let taker = incoming(book, side, OrderType::Limit, price, quantity, timestamp);
            assert(plain.opposite(side).dom() =~= levels.dom());
            let prices = candidates(levels, side, Some(price));
            walk_timeless(levels, prices, taker, true, wiped(), 0);
            walk_keeps(levels, prices, taker, true);
            let left = book.limit_walk(side, price, quantity, timestamp).taker;
            let own = book.own(side);
            let level = level_or_empty(own, price);
            assert(level.orders.push(left).map_values(
                |o: Order| o.stamped(wiped()(o.timestamp)),
            ) =~= level.restamped(wiped()).orders.push(left.stamped(0)));
            assert(level_or_empty(restamped(own, wiped()), price) =~= level.restamped(wiped()));
            assert(restamped(with_order(own, price, left), wiped()) =~= with_order(
                restamped(own, wiped()),
                price,
                left.stamped(0),
            ));
            assert(plain.step(command, 0).0 =~= book.step(command, timestamp).0.undated());
        },
        Command::Market { side, quantity } => {
            let levels = book.opposite(side);
            let taker = incoming(book, side, OrderType::Market, 0, quantity, 0);
            assert(plain.opposite(side).dom() =~= levels.dom());
            walk_timeless(levels, candidates(levels, side, None), taker, false, wiped(), 0);
            assert(plain.step(command, 0).0 =~= book.step(command, timestamp).0.undated());
        },
        Command::Cancel { order_id } => {
            let level = book.level_of(order_id);
            wiped_first(level, order_id);
            assert(plain.remembers(order_id) ==> plain.has_level_of(order_id)
                == book.has_level_of(order_id));
            if book.cancellable(order_id) {
                let i = first_index(level.orders, order_id);
                assert(plain.level_of(order_id) == level.restamped(wiped()));
                assert(level.without(i).restamped(wiped()) =~= level.restamped(wiped()).without(i))
                    by {
                    assert(level.restamped(wiped()).orders[i].remaining_quantity
                        == level.orders[i].remaining_quantity);
                    assert(level.orders.remove(i).map_values(
                        |o: Order| o.stamped(wiped()(o.timestamp)),
                    ) =~= level.restamped(wiped()).orders.remove(i));
                }
                let own = book.own(book.side_of(order_id));
                assert(restamped(
                    own.insert(book.price_of(order_id), level.without(i)),
                    wiped(),
                ) =~= restamped(own, wiped()).insert(
                    book.price_of(order_id),
                    level.restamped(wiped()).without(i),
                ));
                assert(plain.step(command, 0).0 =~= book.step(command, timestamp).0.undated());
            }
        },
    }
}

/// Matching is deterministic: the same commands lead to the same fills and, but for timestamps,
/// to the same book, whenever they are given.
pub proof fn replay_is_deterministic(
    book: BookView,
    commands: Seq<Command>,
    times: Seq<u64>,
    other_times: Seq<u64>,
)
    requires
        times.len() == commands.len(),
        other_times.len() == commands.len(),
    ensures
        book.replay(commands, times).0.undated() == book.replay(commands, other_times).0.undated(),
        book.replay(commands, times).1 == book.replay(commands, other_times).1,
    decreases commands.len(),
{
    if commands.len() != 0 {
        let fewer = commands.drop_last();
        replay_is_deterministic(book, fewer, times.drop_last(), other_times.drop_last());
        let (a, _) = book.replay(fewer, times.drop_last());
        let (b, _) = book.replay(fewer, other_times.drop_last());
        step_timeless(a, commands.last(), times.last());
        step_timeless(b, commands.last(), other_times.last());
    }
}

} // verus!
