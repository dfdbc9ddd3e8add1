//! One price level: the orders that rest at one price, in the order of their arrival.

use std::collections::VecDeque;
use vstd::prelude::*;

use crate::events::{reported_in_turn, reported_nothing, Fill, TradeFeed};
use crate::order::Order;
use crate::types::{OrderId, Price, Quantity};

verus! {

/// What a price level holds.
#[verifier::ext_equal]
pub struct LevelView {
    /// The price of the level.
    pub price: Price,
    /// The resting orders, oldest first.
    pub orders: Seq<Order>,
    /// The cached total quantity.
    pub total_quantity: Quantity,
}

/// What is left once an incoming order has traded at one level.
#[verifier::ext_equal]
pub struct Sweep {
    /// The level afterwards.
    pub level: LevelView,
    /// The incoming order afterwards.
    pub taker: Order,
    /// The fills, in the order in which they happened.
    pub fills: Seq<Fill>,
}

impl LevelView {
    /// A level at which nothing rests.
    pub open spec fn empty(price: Price) -> LevelView {
        LevelView { price, orders: Seq::empty(), total_quantity: 0 }
    }

    /// The level with `order` at the back of the queue.
    pub open spec fn pushed(self, order: Order) -> LevelView {
        LevelView {
            orders: self.orders.push(order),
            total_quantity: self.total_quantity.wrapping_add(order.remaining_quantity),
            ..self
        }
    }

    /// The level without the oldest order, whatever its cached total says.
    pub open spec fn popped(self) -> LevelView {
        LevelView { orders: self.orders.drop_first(), ..self }
    }

    /// The level without its `i`-th order, whose remaining quantity leaves the cached total.
    pub open spec fn without(self, i: int) -> LevelView {
        LevelView {
            orders: self.orders.remove(i),
            total_quantity: self.total_quantity.wrapping_sub(self.orders[i].remaining_quantity),
            ..self
        }
    }

    /// The fill between an incoming order and the oldest order.
    pub open spec fn front_fill(self, taker: Order) -> Fill {
        Fill {
            taker_order_id: taker.order_id,
            maker_order_id: self.orders[0].order_id,
            price: self.price,
            quantity: self.orders[0].fill_amount(taker.remaining_quantity),
        }
    }

    /// The oldest order once an incoming order has traded with it.
    pub open spec fn front_left(self, taker: Order) -> Order {
        self.orders[0].after_fill(self.front_fill(taker).quantity)
    }

    /// The level behind the oldest order, once an incoming order has traded with that one.
    pub open spec fn past_front(self, taker: Order) -> LevelView {
        LevelView {
            orders: self.orders.drop_first(),
            total_quantity: self.total_quantity.wrapping_sub(self.front_fill(taker).quantity),
            ..self
        }
    }

    /// An incoming order trades with the queue from the front until either is used up.
    ///
    /// Orders that may no longer trade are dropped on the way, and what they still had leaves
    /// the cached total; so are orders that have nothing left.
    pub open spec fn swept(self, taker: Order) -> Sweep
        decreases self.orders.len(),
    {
        if self.orders.len() == 0 || taker.remaining_quantity == 0 {
            Sweep { level: self, taker, fills: Seq::empty() }
        } else {
            let maker = self.orders[0];
            if !maker.live() {
                self.without(0).swept(taker)
            } else if maker.remaining_quantity == 0 {
                self.popped().swept(taker)
            } else {
                let fill = self.front_fill(taker);
                let left = self.front_left(taker);
                let rest = self.past_front(taker);
                if left.remaining_quantity > 0 {
                    Sweep {
                        level: LevelView { orders: seq![left] + rest.orders, ..rest },
                        taker: taker.after_fill(fill.quantity),
                        fills: seq![fill],
                    }
                } else {
                    let then = rest.swept(taker.after_fill(fill.quantity));
                    Sweep { fills: seq![fill] + then.fills, ..then }
                }
            }
        }
    }
}

/// Whether an order with this identifier is in the queue.
pub open spec fn holds(orders: Seq<Order>, order_id: OrderId) -> bool {
    exists|i: int| 0 <= i < orders.len() && (#[trigger] orders[i]).order_id == order_id
}

/// Whether the `i`-th order is the oldest one with this identifier.
pub open spec fn is_first(orders: Seq<Order>, order_id: OrderId, i: int) -> bool {
    &&& 0 <= i < orders.len()
    &&& orders[i].order_id == order_id
    &&& forall|j: int| 0 <= j < i ==> (#[trigger] orders[j]).order_id != order_id
}

/// Where the oldest order with this identifier stands in the queue.
pub open spec fn first_index(orders: Seq<Order>, order_id: OrderId) -> int {
    choose|i: int| is_first(orders, order_id, i)
}

/// Below any order with this identifier there is an oldest one.
proof fn first_below(orders: Seq<Order>, order_id: OrderId, i: int)
    requires
        0 <= i < orders.len(),
        orders[i].order_id == order_id,
    ensures
        exists|k: int| is_first(orders, order_id, k),
    decreases i,
{
    if exists|j: int| 0 <= j < i && (#[trigger] orders[j]).order_id == order_id {
        let j = choose|j: int| 0 <= j < i && (#[trigger] orders[j]).order_id == order_id;
        first_below(orders, order_id, j);
    } else {
        assert(is_first(orders, order_id, i));
    }
}

/// A queue that holds an order with this identifier holds an oldest one.
pub proof fn first_found(orders: Seq<Order>, order_id: OrderId)
    requires
        holds(orders, order_id),
    ensures
        is_first(orders, order_id, first_index(orders, order_id)),
{
    let i = choose|i: int| 0 <= i < orders.len() && (#[trigger] orders[i]).order_id == order_id;
    first_below(orders, order_id, i);
}

/// All orders at one price.
///
/// A first-in, first-out queue gives time priority. The total quantity is cached.
pub struct PriceLevel {
    /// The price of the level.
    pub price: Price,
    /// The resting orders, oldest first.
    pub orders: VecDeque<Order>,
    /// Cached total quantity at this level, modulo the range of a `u64`.
    pub total_quantity: Quantity,
}

impl View for PriceLevel {
    type V = LevelView;

    open spec fn view(&self) -> LevelView {
        LevelView {
            price: self.price,
            orders: self.orders@,
            total_quantity: self.total_quantity,
        }
    }
}

impl PriceLevel {
    /// Creates an empty level.
    pub fn new(price: Price) -> (r: PriceLevel)
        ensures
            r@ == LevelView::empty(price),
            r.price == price,
            r.orders@.len() == 0,
            r.total_quantity == 0,
    {
        PriceLevel { price, orders: VecDeque::new(), total_quantity: 0 }
    }

    /// Adds an order at the back of the queue.
    pub fn push_order(&mut self, order: Order)
        ensures
            final(self)@ == old(self)@.pushed(order),
            final(self).price == old(self).price,
            final(self).orders@ == old(self).orders@.push(order),
    {
        let quantity = order.get_remaining_quantity();
        self.orders.push_back(order);
        self.total_quantity = self.total_quantity.wrapping_add(quantity);
    }

    /// Takes the oldest order out of the queue. The cached total keeps its value.
    pub fn pop_front(&mut self) -> (r: Option<Order>)
        ensures
            match r {
                Some(order) => old(self)@.orders.len() > 0 && order == old(self)@.orders[0]
                    && final(self)@ == old(self)@.popped(),
                None => old(self)@.orders.len() == 0 && final(self)@ == old(self)@,
            },
            r is Some ==> old(self).orders@ == seq![r->0] + final(self).orders@,
            r is None ==> old(self).orders@.len() == 0,
            final(self).price == old(self).price,
            final(self).total_quantity == old(self).total_quantity,
    {
        assert(old(self).orders@.len() > 0 ==> old(self).orders@ =~= seq![old(self).orders@[0]]
            + old(self).orders@.drop_first());
        self.orders.pop_front()
    }

    /// Removes the oldest order with this identifier and returns its remaining quantity.
    pub fn remove_order(&mut self, order_id: OrderId) -> (r: Option<Quantity>)
        ensures
            holds(old(self)@.orders, order_id) ==> {
                let i = first_index(old(self)@.orders, order_id);
                &&& r == Some(old(self)@.orders[i].remaining_quantity)
                &&& final(self)@ == old(self)@.without(i)
            },
            !holds(old(self)@.orders, order_id) ==> r is None && final(self)@ == old(self)@,
            match r {
                Some(quantity) => exists|k: int|
                    {
                        &&& 0 <= k < old(self).orders@.len()
                        &&& (#[trigger] old(self).orders@[k]).order_id == order_id
                        &&& forall|j: int|
                            0 <= j < k ==> (#[trigger] old(self).orders@[j]).order_id != order_id
                        &&& quantity == old(self).orders@[k].remaining_quantity
                        &&& final(self).orders@ == old(self).orders@.take(k) + old(
                            self,
                        ).orders@.skip(k + 1)
                    },
                None => final(self).orders@ == old(self).orders@ && forall|j: int|
                    0 <= j < old(self).orders@.len() ==> (
                    #[trigger] old(self).orders@[j]).order_id != order_id,
            },
            final(self).price == old(self).price,
    {
        let mut i: usize = 0;
        while i < self.orders.len()
            invariant
                self@ == old(self)@,
                i <= self.orders@.len(),
                forall|j: int| 0 <= j < i ==> (#[trigger] self.orders@[j]).order_id != order_id,
            decreases self.orders@.len() - i,
        {
            if self.orders[i].order_id == order_id {
                assert(is_first(self.orders@, order_id, i as int));
                if let Some(order) = self.orders.remove(i) {
                    let remaining = order.get_remaining_quantity();
                    self.total_quantity = self.total_quantity.wrapping_sub(remaining);
                    assert(self.orders@ =~= old(self).orders@.take(i as int) + old(
                        self,
                    ).orders@.skip(i + 1));
                    assert(old(self).orders@[i as int].order_id == order_id);
                    return Some(remaining);
                }
            }
            i += 1;
        }
        None
    }

    /// Gets the cached total quantity.
    pub fn get_total_quantity(&self) -> (r: Quantity)
        ensures
            r == self@.total_quantity,
            r == self.total_quantity,
    {
        self.total_quantity
    }

    /// Whether nothing rests at this level.
    pub fn is_empty(&self) -> (r: bool)
        ensures
            r == (self@.orders.len() == 0),
            r == (self.orders@.len() == 0),
    {
        self.orders.len() == 0
    }

    /// Lets an incoming order trade with the queue from the front until either is used up,
    /// reporting each fill.
    pub fn match_order(&mut self, taker: &mut Order, feed: &mut TradeFeed)
        requires
            old(feed).wf(),
        ensures
            final(self)@ == old(self)@.swept(*old(taker)).level,
            *final(taker) == old(self)@.swept(*old(taker)).taker,
            final(feed).wf(),
            old(feed)@.reports(final(feed)@, old(self)@.swept(*old(taker)).fills),
    {
        let ghost goal = self@.swept(*taker);
        let ghost mut done: Seq<Fill> = Seq::empty();
        proof {
            reported_nothing(feed@);
            assert(done + goal.fills =~= goal.fills);
        }
        while taker.get_remaining_quantity() > 0
            invariant
                goal == old(self)@.swept(*old(taker)),
                feed.wf(),
                old(feed)@.reports(feed@, done),
                goal.level == self@.swept(*taker).level,
                goal.taker == self@.swept(*taker).taker,
                goal.fills == done + self@.swept(*taker).fills,
            ensures
                self@.orders.len() == 0 || taker.remaining_quantity == 0,
            decreases self@.orders.len(), taker.remaining_quantity,
        {
            let ghost before = self@;
            let mut maker = match self.pop_front() {
                Some(order) => order,
                None => break,
            };
            // An order that may no longer trade is only now taken off the books.
            if !maker.is_active() {
                let remaining = maker.get_remaining_quantity();
                self.total_quantity = self.total_quantity.wrapping_sub(remaining);
                assert(before.orders.remove(0) =~= before.orders.drop_first());
                continue;
            }
            let taker_left = taker.get_remaining_quantity();
            let maker_left = maker.get_remaining_quantity();
            let requested: Quantity = if taker_left <= maker_left {
                taker_left
            } else {
                maker_left
            };
            if requested == 0 {
                continue;
            }
            let filled_maker = maker.fill(requested);
            self.total_quantity = self.total_quantity.wrapping_sub(filled_maker);
            let filled_taker = taker.fill(filled_maker);
            let fill = Fill {
                taker_order_id: taker.order_id,
                maker_order_id: maker.order_id,
                price: self.price,
                quantity: filled_taker,
            };
            let ghost sent = feed@;
            feed.report(fill);
            proof {
                reported_in_turn(old(feed)@, sent, feed@, done, seq![fill]);
                done = done + seq![fill];
            }
            if maker.get_remaining_quantity() > 0 {
                self.orders.push_front(maker);
            }
        }
        assert(done + Seq::<Fill>::empty() =~= done);
    }
}

} // verus!
