//! What trading keeps: identities, quantities and the invariant of the book.

use vstd::prelude::*;

use crate::events::Fill;
use crate::ladder::{stepped, walked};
use crate::level::LevelView;
use crate::model::side_wf;
use crate::order::Order;
use crate::totals::{queued, resting, total_inserts, total_of, total_splits};
use crate::types::{Price, Side};

verus! {

/// The quantities of some fills, added up.
pub open spec fn filled(fills: Seq<Fill>) -> nat
    decreases fills.len(),
{
    if fills.len() == 0 {
        0
    } else {
        fills[0].quantity as nat + filled(fills.drop_first())
    }
}

/// Fills add up across a concatenation.
pub proof fn filled_adds(a: Seq<Fill>, b: Seq<Fill>)
    ensures
        filled(a + b) == filled(a) + filled(b),
    decreases a.len(),
{
    if a.len() == 0 {
        assert(a + b =~= b);
    } else {
        filled_adds(a.drop_first(), b);
        assert((a + b).drop_first() =~= a.drop_first() + b);
    }
}

/// A single fill adds up to its quantity.
proof fn filled_single(fill: Fill)
    ensures
        filled(seq![fill]) == fill.quantity,
{
    reveal_with_fuel(filled, 2);
    assert(seq![fill].drop_first() =~= Seq::<Fill>::empty());
}

/// The order in front of a queue adds its remaining quantity to it.
pub proof fn queued_front(order: Order, orders: Seq<Order>)
    ensures
        queued(seq![order] + orders) == order.remaining_quantity + queued(orders),
{
    assert((seq![order] + orders).drop_first() =~= orders);
}

/// Queued quantities add up across a concatenation.
pub proof fn queued_adds(a: Seq<Order>, b: Seq<Order>)
    ensures
        queued(a + b) == queued(a) + queued(b),
    decreases a.len(),
{
    if a.len() == 0 {
        assert(a + b =~= b);
    } else {
        queued_adds(a.drop_first(), b);
        assert((a + b).drop_first() =~= a.drop_first() + b);
    }
}

/// Whether two orders differ at most in what fills change.
pub open spec fn same_order(a: Order, b: Order) -> bool {
    a == (Order { remaining_quantity: a.remaining_quantity, status: a.status, ..b })
}

/// Whether these are fills of `taker` at `price`, each for something.
pub open spec fn fills_at(fills: Seq<Fill>, taker: Order, price: Price) -> bool {
    forall|i: int|
        0 <= i < fills.len() ==> {
            &&& (#[trigger] fills[i]).taker_order_id == taker.order_id
            &&& fills[i].price == price
            &&& fills[i].quantity > 0
        }
}

/// What trading at one level keeps, whatever rests there.
pub proof fn sweep_keeps(level: LevelView, taker: Order)
    ensures
        level.swept(taker).level.price == level.price,
        same_order(level.swept(taker).taker, taker),
        filled(level.swept(taker).fills) + level.swept(taker).taker.remaining_quantity
            == taker.remaining_quantity,
        level.swept(taker).taker.remaining_quantity > 0 ==> level.swept(taker).level.orders.len()
            == 0,
        level.swept(taker).taker.remaining_quantity > 0 ==> forall|side: Side, price: Price|
            taker.rests_at(side, price) ==> #[trigger] level.swept(taker).taker.rests_at(
                side,
                price,
            ),
        fills_at(level.swept(taker).fills, taker, level.price),
    decreases level.orders.len(),
{
    if level.orders.len() != 0 && taker.remaining_quantity != 0 {
        let maker = level.orders[0];
        if !maker.live() {
            sweep_keeps(level.without(0), taker);
        } else if maker.remaining_quantity == 0 {
            sweep_keeps(level.popped(), taker);
        } else {
            let fill = level.front_fill(taker);
            filled_single(fill);
            if level.front_left(taker).remaining_quantity == 0 {
                let next = taker.after_fill(fill.quantity);
                let then = level.past_front(taker).swept(next);
                sweep_keeps(level.past_front(taker), next);
                filled_adds(seq![fill], then.fills);
                assert forall|i: int|
                    0 <= i < (seq![fill] + then.fills).len() implies (#[trigger] (seq![fill]
                    + then.fills)[i]).taker_order_id == taker.order_id && (seq![fill]
                    + then.fills)[i].price == level.price && (seq![fill] + then.fills)[i].quantity
                    > 0 by {
                    if i > 0 {
                        assert((seq![fill] + then.fills)[i] == then.fills[i - 1]);
                    }
                }
            }
        }
    }
}

/// The oldest order of a well-formed level rests there, and once it is used up, what is behind
/// it is a well-formed level.
pub proof fn front_wf(level: LevelView, taker: Order, side: Side, price: Price)
    requires
        level.wf(side, price),
        level.orders.len() > 0,
    ensures
        level.orders[0].rests_at(side, price),
        level.front_left(taker).remaining_quantity == 0 ==> level.past_front(taker).wf(side, price),
{
    let rest = level.past_front(taker);
    assert(level.orders[0].rests_at(side, price));
    assert forall|i: int| 0 <= i < rest.orders.len() implies (#[trigger] rest.orders[i]).rests_at(
        side,
        price,
    ) by {
        assert(rest.orders[i] == level.orders[i + 1]);
    }
}

/// A well-formed level stays well formed, and loses exactly what trades.
pub proof fn sweep_wf(level: LevelView, taker: Order, side: Side, price: Price)
    requires
        level.wf(side, price),
    ensures
        level.swept(taker).level.wf(side, price),
        queued(level.swept(taker).level.orders) + filled(level.swept(taker).fills) == queued(
            level.orders,
        ),
    decreases level.orders.len(),
{
    if level.orders.len() != 0 && taker.remaining_quantity != 0 {
        let fill = level.front_fill(taker);
        let left = level.front_left(taker);
        let rest = level.past_front(taker);
        front_wf(level, taker, side, price);
        filled_single(fill);
        if left.remaining_quantity > 0 {
            queued_front(left, rest.orders);
            let after = seq![left] + rest.orders;
            assert forall|i: int| 0 <= i < after.len() implies (#[trigger] after[i]).rests_at(
                side,
                price,
            ) by {
                if i > 0 {
                    assert(after[i] == level.orders[i]);
                }
            }
        } else {
            let next = taker.after_fill(fill.quantity);
            sweep_wf(rest, next, side, price);
            filled_adds(seq![fill], rest.swept(next).fills);
        }
    }
}

/// Behind the first of some distinct prices stand distinct prices, and the first is not among
/// them.
pub proof fn tail_distinct(prices: Seq<Price>)
    requires
        prices.no_duplicates(),
        prices.len() > 0,
    ensures
        prices.drop_first().no_duplicates(),
        !prices.drop_first().contains(prices[0]),
{
    let rest = prices.drop_first();
    assert forall|i: int, j: int|
        0 <= i < rest.len() && 0 <= j < rest.len() && i != j implies rest[i] != rest[j] by {
        assert(prices[i + 1] != prices[j + 1]);
    }
    if rest.contains(prices[0]) {
        let i = rest.index_of(prices[0]);
        assert(prices[i + 1] == prices[0]);
    }
}

/// What stands behind the first of some prices stands among them.
pub proof fn tail_within(prices: Seq<Price>)
    requires
        prices.len() > 0,
    ensures
        forall|p: Price| #[trigger] prices.drop_first().contains(p) ==> prices.contains(p),
{
    let rest = prices.drop_first();
    assert forall|p: Price| #[trigger] rest.contains(p) implies prices.contains(p) by {
        let i = rest.index_of(p);
        assert(prices[i + 1] == p);
    }
}

/// One step of a walk keeps a side well formed.
pub proof fn step_wf(
    levels: Map<Price, LevelView>,
    price: Price,
    taker: Order,
    prune: bool,
    side: Side,
)
    requires
        side_wf(levels, side),
        levels.contains_key(price),
    ensures
        side_wf(stepped(levels, price, taker, prune), side),
{
    let left = stepped(levels, price, taker, prune);
    sweep_wf(levels[price], taker, side, price);
    assert(levels.remove(price).dom() =~= levels.dom().remove(price));
    assert(levels.insert(price, levels[price].swept(taker).level).dom() =~= levels.dom().insert(
        price,
    ));
    assert forall|p: Price| #[trigger] left.contains_key(p) implies p > 0 && left[p].wf(
        side,
        p,
    ) by {
        assert(levels.contains_key(p));
    }
}

/// What trading along a side keeps, whatever rests there.
pub proof fn walk_keeps(
    levels: Map<Price, LevelView>,
    prices: Seq<Price>,
    taker: Order,
    prune: bool,
)
    ensures
        same_order(walked(levels, prices, taker, prune).taker, taker),
        filled(walked(levels, prices, taker, prune).fills) + walked(
            levels,
            prices,
            taker,
            prune,
        ).taker.remaining_quantity == taker.remaining_quantity,
        walked(levels, prices, taker, prune).taker.remaining_quantity > 0 ==> forall|
            side: Side,
            price: Price,
        |
            taker.rests_at(side, price) ==> #[trigger] walked(
                levels,
                prices,
                taker,
                prune,
            ).taker.rests_at(side, price),
        forall|p: Price| #[trigger]
            walked(levels, prices, taker, prune).levels.contains_key(p) ==> levels.contains_key(p),
        !prune ==> walked(levels, prices, taker, prune).levels.dom() == levels.dom(),
    decreases prices.len(),
{
    if prices.len() != 0 && taker.remaining_quantity != 0 {
        let price = prices[0];
        let rest = prices.drop_first();
        if !levels.contains_key(price) {
            walk_keeps(levels, rest, taker, prune);
        } else {
            let here = levels[price].swept(taker);
            sweep_keeps(levels[price], taker);
            let left = stepped(levels, price, taker, prune);
            let then = walked(left, rest, here.taker, prune);
            walk_keeps(left, rest, here.taker, prune);
            filled_adds(here.fills, then.fills);
            assert forall|p: Price| #[trigger]
                walked(levels, prices, taker, prune).levels.contains_key(
                    p,
                ) implies levels.contains_key(p) by {
                assert(left.contains_key(p));
            }
            if !prune {
                assert(left.dom() =~= levels.dom());
            }
            if then.taker.remaining_quantity > 0 {
                assert forall|s: Side, q: Price| taker.rests_at(s, q) implies #[trigger] walked(
                    levels,
                    prices,
                    taker,
                    prune,
                ).taker.rests_at(s, q) by {
                    assert(here.taker.rests_at(s, q));
                    assert(then.taker.rests_at(s, q));
                }
            }
        }
    }
}

/// Trading along some prices leaves the levels at all other prices alone.
pub proof fn walk_elsewhere(
    levels: Map<Price, LevelView>,
    prices: Seq<Price>,
    taker: Order,
    prune: bool,
    price: Price,
)
    requires
        !prices.contains(price),
    ensures
        walked(levels, prices, taker, prune).levels.contains_key(price) == levels.contains_key(
            price,
        ),
        walked(levels, prices, taker, prune).levels[price] == levels[price],
    decreases prices.len(),
{
    if prices.len() != 0 && taker.remaining_quantity != 0 {
        let rest = prices.drop_first();
        assert(prices.contains(prices[0]));
        tail_within(prices);
        if !levels.contains_key(prices[0]) {
            walk_elsewhere(levels, rest, taker, prune, price);
        } else {
            let here = levels[prices[0]].swept(taker);
            let left = stepped(levels, prices[0], taker, prune);
            walk_elsewhere(left, rest, here.taker, prune, price);
        }
    }
}

/// An order that is not used up has emptied every level that it came to; with `prune`, they are
/// all gone.
pub proof fn walk_exhausts(
    levels: Map<Price, LevelView>,
    prices: Seq<Price>,
    taker: Order,
    prune: bool,
)
    requires
        prices.no_duplicates(),
        walked(levels, prices, taker, prune).taker.remaining_quantity > 0,
    ensures
        forall|i: int|
            0 <= i < prices.len() && walked(levels, prices, taker, prune).levels.contains_key(
                #[trigger] prices[i],
            ) ==> !prune && walked(levels, prices, taker, prune).levels[prices[i]].orders.len()
                == 0,
    decreases prices.len(),
{
    walk_keeps(levels, prices, taker, prune);
    if prices.len() != 0 {
        let after = walked(levels, prices, taker, prune);
        let price = prices[0];
        let rest = prices.drop_first();
        tail_distinct(prices);
        if !levels.contains_key(price) {
            walk_exhausts(levels, rest, taker, prune);
            walk_elsewhere(levels, rest, taker, prune, price);
        } else {
            let here = levels[price].swept(taker);
            sweep_keeps(levels[price], taker);
            let left = stepped(levels, price, taker, prune);
            walk_keeps(left, rest, here.taker, prune);
            walk_exhausts(left, rest, here.taker, prune);
            walk_elsewhere(left, rest, here.taker, prune, price);
        }
        assert forall|i: int|
            0 <= i < prices.len() && after.levels.contains_key(
                #[trigger] prices[i],
            ) implies !prune && after.levels[prices[i]].orders.len() == 0 by {
            if i > 0 {
                assert(rest[i - 1] == prices[i]);
            }
        }
    }
}

/// A well-formed side stays well formed, and loses exactly what trades.
pub proof fn walk_wf(
    levels: Map<Price, LevelView>,
    prices: Seq<Price>,
    taker: Order,
    prune: bool,
    side: Side,
)
    requires
        side_wf(levels, side),
    ensures
        side_wf(walked(levels, prices, taker, prune).levels, side),
        total_of(walked(levels, prices, taker, prune).levels, resting()) + filled(
            walked(levels, prices, taker, prune).fills,
        ) == total_of(levels, resting()),
    decreases prices.len(),
{
    if prices.len() != 0 && taker.remaining_quantity != 0 {
        let price = prices[0];
        let rest = prices.drop_first();
        if !levels.contains_key(price) {
            walk_wf(levels, rest, taker, prune, side);
        } else {
            let here = levels[price].swept(taker);
            sweep_wf(levels[price], taker, side, price);
            let left = stepped(levels, price, taker, prune);
            step_wf(levels, price, taker, prune, side);
            total_splits(levels, resting(), price);
            total_inserts(levels, resting(), price, here.level);
            let then = walked(left, rest, here.taker, prune);
            walk_wf(left, rest, here.taker, prune, side);
            filled_adds(here.fills, then.fills);
        }
    }
}

impl Order {
    /// The order with another timestamp.
    pub open spec fn stamped(self, timestamp: u64) -> Order {
        Order { timestamp, ..self }
    }
}

impl LevelView {
    /// The level with the timestamps of its orders changed.
    pub open spec fn restamped(self, change: spec_fn(u64) -> u64) -> LevelView {
        LevelView {
            orders: self.orders.map_values(|o: Order| o.stamped(change(o.timestamp))),
            ..self
        }
    }
}

/// The side with the timestamps of its orders changed.
pub open spec fn restamped(
    levels: Map<Price, LevelView>,
    change: spec_fn(u64) -> u64,
) -> Map<Price, LevelView> {
    levels.map_values(|level: LevelView| level.restamped(change))
}

/// Timestamps play no part in trading at a level.
pub proof fn sweep_timeless(
    level: LevelView,
    taker: Order,
    change: spec_fn(u64) -> u64,
    timestamp: u64,
)
    ensures
        level.restamped(change).swept(taker.stamped(timestamp)).level == level.swept(
            taker,
        ).level.restamped(change),
        level.restamped(change).swept(taker.stamped(timestamp)).taker == level.swept(
            taker,
        ).taker.stamped(timestamp),
        level.restamped(change).swept(taker.stamped(timestamp)).fills == level.swept(taker).fills,
    decreases level.orders.len(),
{
    let level2 = level.restamped(change);
    let taker2 = taker.stamped(timestamp);
    if level.orders.len() != 0 && taker.remaining_quantity != 0 {
        let maker = level.orders[0];
        let maker2 = level2.orders[0];
        assert(maker2 == maker.stamped(change(maker.timestamp)));
        assert(level2.orders.drop_first() =~= level.popped().restamped(change).orders);
        assert(level.orders.remove(0) =~= level.orders.drop_first());
        assert(level2.orders.remove(0) =~= level2.orders.drop_first());
        if !maker.live() {
            assert(level2.without(0) =~= level.without(0).restamped(change));
            sweep_timeless(level.without(0), taker, change, timestamp);
        } else if maker.remaining_quantity == 0 {
            assert(level2.popped() =~= level.popped().restamped(change));
            sweep_timeless(level.popped(), taker, change, timestamp);
        } else {
            let left = level.front_left(taker);
            let rest = level.past_front(taker);
            let rest2 = level2.past_front(taker2);
            assert(rest2 =~= rest.restamped(change));
            if left.remaining_quantity > 0 {
                let kept = LevelView { orders: seq![left] + rest.orders, ..rest };
                let left2 = level2.front_left(taker2);
                assert(seq![left2] + rest2.orders =~= kept.restamped(change).orders);
            } else {
                let next = taker.after_fill(level.front_fill(taker).quantity);
                sweep_timeless(rest, next, change, timestamp);
            }
        }
    }
}

/// Timestamps play no part in trading along a side.
pub proof fn walk_timeless(
    levels: Map<Price, LevelView>,
    prices: Seq<Price>,
    taker: Order,
    prune: bool,
    change: spec_fn(u64) -> u64,
    timestamp: u64,
)
    ensures
        walked(restamped(levels, change), prices, taker.stamped(timestamp), prune).levels
            == restamped(walked(levels, prices, taker, prune).levels, change),
        walked(restamped(levels, change), prices, taker.stamped(timestamp), prune).taker == walked(
            levels,
            prices,
            taker,
            prune,
        ).taker.stamped(timestamp),
        walked(restamped(levels, change), prices, taker.stamped(timestamp), prune).fills == walked(
            levels,
            prices,
            taker,
            prune,
        ).fills,
    decreases prices.len(),
{
    let levels2 = restamped(levels, change);
    if prices.len() != 0 && taker.remaining_quantity != 0 {
        let price = prices[0];
        let rest = prices.drop_first();
        if !levels.contains_key(price) {
            walk_timeless(levels, rest, taker, prune, change, timestamp);
        } else {
            let here = levels[price].swept(taker);
            sweep_timeless(levels[price], taker, change, timestamp);
            let left = stepped(levels, price, taker, prune);
            assert(restamped(levels.remove(price), change) =~= levels2.remove(price));
            assert(restamped(levels.insert(price, here.level), change) =~= levels2.insert(
                price,
                here.level.restamped(change),
            ));
            walk_timeless(left, rest, here.taker, prune, change, timestamp);
        }
    }
}

/// The time of an incoming order plays no part in trading along a side.
pub proof fn taker_time_free(
    levels: Map<Price, LevelView>,
    prices: Seq<Price>,
    taker: Order,
    prune: bool,
    timestamp: u64,
)
    ensures
        walked(levels, prices, taker.stamped(timestamp), prune).levels == walked(
            levels,
            prices,
            taker,
            prune,
        ).levels,
        walked(levels, prices, taker.stamped(timestamp), prune).taker == walked(
            levels,
            prices,
            taker,
            prune,
        ).taker.stamped(timestamp),
        walked(levels, prices, taker.stamped(timestamp), prune).fills == walked(
            levels,
            prices,
            taker,
            prune,
        ).fills,
{
    let same = |t: u64| t;
    assert forall|m: Map<Price, LevelView>| #[trigger] restamped(m, same) == m by {
        assert forall|p: Price| m.contains_key(p) implies m[p].restamped(same) == m[p] by {
            assert(m[p].restamped(same).orders =~= m[p].orders);
        }
        assert(restamped(m, same) =~= m);
    }
    walk_timeless(levels, prices, taker, prune, same, timestamp);
}

} // verus!
