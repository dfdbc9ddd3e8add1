//! Trades, and the channel on which the book reports them.

use crossbeam_channel::Sender;
use std::collections::VecDeque;
use vstd::prelude::*;

use crate::clock::now_millis;
use crate::types::{OrderId, Price, Quantity};

verus! {

/// A match between an incoming order and a resting one.
#[derive(Clone, Copy, Debug, PartialEq, Eq, Structural)]
pub struct Fill {
    /// The incoming order.
    pub taker_order_id: OrderId,
    /// The resting order.
    pub maker_order_id: OrderId,
    /// The price of the level at which they met.
    pub price: Price,
    /// The quantity that changed hands.
    pub quantity: Quantity,
}

/// A fill as it is reported: with the time at which it happened.
#[derive(Clone, Copy, Debug, PartialEq, Eq, Structural)]
pub struct Trade {
    /// The incoming order.
    pub taker_order_id: OrderId,
    /// The resting order.
    pub maker_order_id: OrderId,
    /// The price of the level at which they met.
    pub price: Price,
    /// The quantity that changed hands.
    pub quantity: Quantity,
    /// Time of the trade, in milliseconds since the Unix epoch.
    pub timestamp: u64,
}

impl Trade {
    /// The fill that this trade reports.
    pub open spec fn fill(self) -> Fill {
        Fill {
            taker_order_id: self.taker_order_id,
            maker_order_id: self.maker_order_id,
            price: self.price,
            quantity: self.quantity,
        }
    }

    /// Reports `fill` as having happened at `timestamp`.
    pub fn at(fill: Fill, timestamp: u64) -> (r: Trade)
        ensures
            r.fill() == fill,
            r.taker_order_id == fill.taker_order_id,
            r.maker_order_id == fill.maker_order_id,
            r.price == fill.price,
            r.quantity == fill.quantity,
            r.timestamp == timestamp,
    {
        Trade {
            taker_order_id: fill.taker_order_id,
            maker_order_id: fill.maker_order_id,
            price: fill.price,
            quantity: fill.quantity,
            timestamp,
        }
    }
}

/// The fills that a sequence of trades reports.
pub open spec fn fills_of(trades: Seq<Trade>) -> Seq<Fill> {
    trades.map_values(|t: Trade| t.fill())
}

/// `after` is `before` with trades appended that report exactly `fills`, in order.
pub open spec fn reported(before: Seq<Trade>, after: Seq<Trade>, fills: Seq<Fill>) -> bool {
    &&& before.is_prefix_of(after)
    &&& fills_of(after.skip(before.len() as int)) == fills
}

/// `crossbeam_channel::Sender`, the sending side of a channel.
#[verifier::external_type_specification]
#[verifier::external_body]
#[verifier::reject_recursive_types(T)]
pub struct ExSender<T>(crossbeam_channel::Sender<T>);

/// The trades that this handle has sent off, oldest first: those that the channel took, and those
/// that it refused because its last receiver was gone.
pub uninterp spec fn sent_trades(tx: Sender<Trade>) -> Seq<Trade>;

/// Whether the channel behind this handle was made without a capacity, so that `send` on it
/// never waits.
pub uninterp spec fn never_full(tx: Sender<Trade>) -> bool;

/// Makes a channel with `crossbeam_channel::unbounded` and keeps its sending side alone.
///
/// Claimed: the channel has no capacity limit, and nothing has been sent on the new handle.
#[verifier::external_body]
fn unheard_sender() -> (tx: Sender<Trade>)
    ensures
        never_full(tx),
        sent_trades(tx) == Seq::<Trade>::empty(),
{
    crossbeam_channel::unbounded().0
}

/// Asks for a channel's capacity with `crossbeam_channel::Sender::capacity`.
///
/// Claimed: there is none exactly for the channels on which `send` never waits.
#[verifier::external_body]
fn capacity(tx: &Sender<Trade>) -> (r: Option<usize>)
    ensures
        r is None <==> never_full(*tx),
{
    tx.capacity()
}

/// Sends a trade off with `crossbeam_channel::Sender::send`.
///
/// Claimed: the trade is the next one sent off on this handle, and the channel stays without a
/// capacity limit. The result says whether the channel took the trade; that is left open, since
/// it refuses every trade once its last receiver is gone. A channel with a capacity is left out,
/// because there `send` can wait forever.
#[verifier::external_body]
fn send(tx: &mut Sender<Trade>, trade: Trade) -> (taken: bool)
    requires
        never_full(*old(tx)),
    ensures
        never_full(*final(tx)),
        sent_trades(*final(tx)) == sent_trades(*old(tx)).push(trade),
{
    tx.send(trade).is_ok()
}

/// Offers a trade to a channel with `crossbeam_channel::Sender::try_send`, which never waits.
///
/// Claimed: the channel keeps the capacity that it was made with; if the answer is that it is
/// full, nothing was sent off, and otherwise the trade is the next one sent off on this handle.
/// Which answer comes is left open, since it rests on what the receivers do.
#[verifier::external_body]
fn try_send(tx: &mut Sender<Trade>, trade: Trade) -> (full: bool)
    ensures
        never_full(*final(tx)) == never_full(*old(tx)),
        full ==> sent_trades(*final(tx)) == sent_trades(*old(tx)),
        !full ==> sent_trades(*final(tx)) == sent_trades(*old(tx)).push(trade),
{
    match tx.try_send(trade) {
        Ok(()) => false,
        Err(crossbeam_channel::TrySendError::Full(_)) => true,
        Err(crossbeam_channel::TrySendError::Disconnected(_)) => false,
    }
}

/// Where reported trades are.
#[verifier::ext_equal]
pub struct FeedView {
    /// The trades sent off, oldest first.
    pub handed: Seq<Trade>,
    /// The trades that wait for room in the channel, oldest first.
    pub waiting: Seq<Trade>,
    /// Whether the channel has room for any number of trades.
    pub unlimited: bool,
}

impl FeedView {
    /// All trades reported, oldest first.
    pub open spec fn sent(self) -> Seq<Trade> {
        self.handed + self.waiting
    }

    /// Trades wait only for a channel with a capacity.
    pub open spec fn wf(self) -> bool {
        self.unlimited ==> self.waiting.len() == 0
    }

    /// `after` is this feed once trades have been reported that tell of exactly `fills`, in
    /// order. What was sent off stays sent off.
    pub open spec fn reports(self, after: FeedView, fills: Seq<Fill>) -> bool {
        &&& reported(self.sent(), after.sent(), fills)
        &&& self.handed.is_prefix_of(after.handed)
        &&& after.unlimited == self.unlimited
    }
}

/// Notes what a channel answered to the trade that has waited longest: if it is full, the trade
/// goes on waiting, and otherwise it is off. Gives whether it makes sense to offer another one.
pub fn answered(waiting: &mut VecDeque<Trade>, full: bool) -> (more: bool)
    ensures
        more == !full,
        final(waiting)@ == (if full || old(waiting)@.len() == 0 {
            old(waiting)@
        } else {
            old(waiting)@.drop_first()
        }),
{
    if !full {
        let _ = waiting.pop_front();
    }
    !full
}

/// Where the trades go: the sending side of a channel.
///
/// Reporting a trade never waits. A trade for which a channel with a capacity has no room is
/// kept back, and those after it behind it, until there is room when the next one is reported,
/// or until somebody takes them. Nobody has to be listening. A trade that no receiver can get any
/// more is dropped.
pub struct TradeFeed {
    tx: Sender<Trade>,
    waiting: VecDeque<Trade>,
}

impl View for TradeFeed {
    type V = FeedView;

    closed spec fn view(&self) -> FeedView {
        FeedView {
            handed: sent_trades(self.tx),
            waiting: self.waiting@,
            unlimited: never_full(self.tx),
        }
    }
}

impl TradeFeed {
    /// Trades wait only for a channel with a capacity.
    pub open spec fn wf(self) -> bool {
        self@.wf()
    }

    /// A feed that nobody listens to.
    pub fn silent() -> (r: TradeFeed)
        ensures
            r.wf(),
            r@ == (FeedView {
                handed: Seq::empty(),
                waiting: Seq::empty(),
                unlimited: true,
            }),
    {
        TradeFeed { tx: unheard_sender(), waiting: VecDeque::new() }
    }

    /// A feed into a channel.
    pub fn to(trade_tx: Sender<Trade>) -> (r: TradeFeed)
        ensures
            r.wf(),
            r@ == (FeedView {
                handed: sent_trades(trade_tx),
                waiting: Seq::empty(),
                unlimited: never_full(trade_tx),
            }),
    {
        TradeFeed { tx: trade_tx, waiting: VecDeque::new() }
    }

    /// Reports a fill, stamped with the current time.
    ///
    /// On a channel without a capacity the trade is sent off at once. On one with a capacity,
    /// trades are sent off in order as long as it has room.
    pub fn report(&mut self, fill: Fill)
        requires
            old(self).wf(),
        ensures
            final(self).wf(),
            old(self)@.reports(final(self)@, seq![fill]),
            ({
                let before = old(self)@.handed + old(self)@.waiting;
                let after = final(self)@.handed + final(self)@.waiting;
                &&& after.len() == before.len() + 1
                &&& after.drop_last() == before
                &&& after.last().taker_order_id == fill.taker_order_id
                &&& after.last().maker_order_id == fill.maker_order_id
                &&& after.last().price == fill.price
                &&& after.last().quantity == fill.quantity
            }),
    {
        let trade = Trade::at(fill, now_millis());
        let ghost before = self@;
        let ghost goal = before.sent().push(trade);
        if capacity(&self.tx).is_none() {
            let _ = send(&mut self.tx, trade);
            assert(self@.sent() =~= goal);
        } else {
            self.waiting.push_back(trade);
            assert(self@.sent() =~= goal);
            let _ = self.deliver();
        }
        assert(goal.drop_last() =~= before.sent());
        assert(before.sent().is_prefix_of(goal));
        assert(fills_of(goal.skip(before.sent().len() as int)) =~= seq![fill]);
    }

    /// Offers the waiting trades to the channel, oldest first, until it is full. Gives whether
    /// none is left waiting.
    ///
    /// How many the channel takes is left open, since it rests on what the receivers do;
    /// `answered` says what comes of each answer.
    pub fn deliver(&mut self) -> (done: bool)
        requires
            old(self).wf(),
        ensures
            final(self).wf(),
            final(self)@.sent() == old(self)@.sent(),
            old(self)@.handed.is_prefix_of(final(self)@.handed),
            final(self)@.unlimited == old(self)@.unlimited,
            done == (final(self)@.waiting.len() == 0),
    {
        while self.waiting.len() > 0
            invariant
                self.wf(),
                self@.sent() == old(self)@.sent(),
                old(self)@.handed.is_prefix_of(self@.handed),
                self@.unlimited == old(self)@.unlimited,
            ensures
                self.wf(),
                self@.sent() == old(self)@.sent(),
                old(self)@.handed.is_prefix_of(self@.handed),
                self@.unlimited == old(self)@.unlimited,
            decreases self.waiting@.len(),
        {
            let ghost before = self@;
            let trade = self.waiting[0];
            let full = try_send(&mut self.tx, trade);
            let more = answered(&mut self.waiting, full);
            assert(self@.sent() =~= before.sent());
            if !more {
                break;
            }
        }
        self.waiting.len() == 0
    }

    /// Takes the trades out that wait for room, oldest first.
    pub fn take_waiting(&mut self) -> (r: VecDeque<Trade>)
        requires
            old(self).wf(),
        ensures
            final(self).wf(),
            r@ == old(self)@.waiting,
            final(self)@ == (FeedView { waiting: Seq::empty(), ..old(self)@ }),
    {
        let mut r: VecDeque<Trade> = VecDeque::new();
        std::mem::swap(&mut r, &mut self.waiting);
        r
    }
}

/// What a feed shows is what it holds.
proof fn feed_view_means(feed: TradeFeed)
    ensures
        feed@.handed == sent_trades(feed.tx),
        feed@.waiting == feed.waiting@,
        feed@.unlimited == never_full(feed.tx),
{
}

/// Reporting some fills and then some more is reporting them all.
pub proof fn reported_in_turn(
    a: FeedView,
    b: FeedView,
    c: FeedView,
    first: Seq<Fill>,
    second: Seq<Fill>,
)
    requires
        a.reports(b, first),
        b.reports(c, second),
    ensures
        a.reports(c, first + second),
{
    let n = a.sent().len() as int;
    let m = b.sent().len() as int;
    let added = c.sent().skip(n);
    assert forall|i: int| 0 <= i < added.len() implies fills_of(added)[i] == (first
        + second)[i] by {
        if i < m - n {
            assert(b.sent().skip(n)[i] == added[i]);
            assert(first[i] == b.sent().skip(n)[i].fill());
        } else {
            let j = i - (m - n);
            assert(c.sent().skip(m)[j] == added[i]);
            assert(second[j] == c.sent().skip(m)[j].fill());
        }
    }
    assert(fills_of(added) =~= first + second);
}

/// Reporting nothing changes nothing.
pub proof fn reported_nothing(a: FeedView)
    ensures
        a.reports(a, Seq::<Fill>::empty()),
{
    assert(fills_of(a.sent().skip(a.sent().len() as int)) =~= Seq::<Fill>::empty());
}

/// On a channel without a capacity every reported trade has been sent off.
pub proof fn unlimited_never_waits(feed: FeedView)
    requires
        feed.wf(),
        feed.unlimited,
    ensures
        feed.handed == feed.sent(),
{
    assert(feed.sent() =~= feed.handed);
}

} // verus!
