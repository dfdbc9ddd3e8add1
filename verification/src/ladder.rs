//! One side of the book: price levels by price, and an incoming order's walk along them.

use std::collections::BTreeMap;
use vstd::prelude::*;
use vstd::relations::{sorted_by, total_ordering};

use crate::events::{reported_in_turn, reported_nothing, Fill, TradeFeed};
use crate::laws::candidates_list;
use crate::level::{first_index, holds, LevelView, PriceLevel};
use crate::order::Order;
use crate::totals::{cached, total_inserts, total_of};
use crate::types::{OrderId, Price, Quantity, Side};

verus! {

/// Whether an incoming order on `side` likes price `a` at least as much as price `b`: a buyer
/// the lower one, a seller the higher one.
pub open spec fn as_good(side: Side, a: Price, b: Price) -> bool {
    match side {
        Side::Buy => a <= b,
        Side::Sell => a >= b,
    }
}

/// Whether an incoming order on `side` may trade at `price`. A market order has no limit.
pub open spec fn crosses(side: Side, limit: Option<Price>, price: Price) -> bool {
    match limit {
        Some(l) => as_good(side, price, l),
        None => true,
    }
}

/// The prices, from the one that an incoming order on `side` likes best to the worst.
pub open spec fn best_first(prices: Set<Price>, side: Side) -> Seq<Price> {
    prices.to_sorted_seq(|a: Price, b: Price| as_good(side, a, b))
}

/// The prices at which an incoming order on `side` may trade, best first.
pub open spec fn candidates(
    levels: Map<Price, LevelView>,
    side: Side,
    limit: Option<Price>,
) -> Seq<Price> {
    best_first(levels.dom().filter(|p: Price| crosses(side, limit, p)), side)
}

/// Whether each price is strictly better than the ones after it.
pub open spec fn worsening(prices: Seq<Price>, side: Side) -> bool {
    forall|i: int, j: int|
        #![trigger prices[i], prices[j]]
        0 <= i < j < prices.len() ==> prices[i] != prices[j] && as_good(side, prices[i], prices[j])
}

/// Listing a finite set names each element once.
proof fn to_seq_no_duplicates(prices: Set<Price>)
    requires
        prices.finite(),
    ensures
        prices.to_seq().no_duplicates(),
        prices.to_seq().to_set() =~= prices,
    decreases prices.len(),
{
    prices.lemma_to_seq_to_set_id();
    if prices.len() != 0 {
        let x = prices.choose();
        let rest = prices.remove(x);
        to_seq_no_duplicates(rest);
        assert(!rest.to_seq().to_set().contains(x));
        assert(prices.to_seq() =~= seq![x] + rest.to_seq());
        assert forall|i: int, j: int|
            0 <= i < prices.to_seq().len() && 0 <= j < prices.to_seq().len() && i
                != j implies prices.to_seq()[i] != prices.to_seq()[j] by {
            if i == 0 {
                assert(rest.to_seq().to_set().contains(rest.to_seq()[j - 1]));
            } else if j == 0 {
                assert(rest.to_seq().to_set().contains(rest.to_seq()[i - 1]));
            } else {
                assert(rest.to_seq()[i - 1] != rest.to_seq()[j - 1]);
            }
        }
    }
}

/// `best_first` lists exactly the given prices, each once, best first.
pub proof fn best_first_lists(prices: Set<Price>, side: Side)
    requires
        prices.finite(),
    ensures
        worsening(best_first(prices, side), side),
        best_first(prices, side).to_set() =~= prices,
{
    let leq = |a: Price, b: Price| as_good(side, a, b);
    let listed = prices.to_seq();
    let sorted = best_first(prices, side);
    assert(total_ordering(leq));
    listed.lemma_sort_by_ensures(leq);
    to_seq_no_duplicates(prices);
    listed.lemma_multiset_has_no_duplicates();
    sorted.lemma_multiset_has_no_duplicates_conv();
    assert forall|p: Price| sorted.to_set().contains(p) <==> prices.contains(p) by {
        broadcast use vstd::seq_lib::group_to_multiset_ensures;

        assert(sorted.contains(p) <==> sorted.to_multiset().count(p) > 0);
        assert(listed.contains(p) <==> listed.to_multiset().count(p) > 0);
        assert(listed.to_set().contains(p) <==> prices.contains(p));
    }
    assert forall|i: int, j: int| 0 <= i < j < sorted.len() implies sorted[i] != sorted[j]
        && as_good(side, sorted[i], sorted[j]) by {
        assert(leq(sorted[i], sorted[j]));
    }
}

/// No other listing does.
pub proof fn best_first_unique(s: Seq<Price>, prices: Set<Price>, side: Side)
    requires
        prices.finite(),
        worsening(s, side),
        s.to_set() =~= prices,
    ensures
        s == best_first(prices, side),
{
    let leq = |a: Price, b: Price| as_good(side, a, b);
    let t = best_first(prices, side);
    best_first_lists(prices, side);
    assert(s.no_duplicates());
    assert(t.no_duplicates());
    s.lemma_multiset_has_no_duplicates();
    t.lemma_multiset_has_no_duplicates();
    assert(s.to_multiset() =~= t.to_multiset()) by {
        broadcast use vstd::seq_lib::group_to_multiset_ensures;

        assert forall|p: Price| s.to_multiset().count(p) == t.to_multiset().count(p) by {
            assert(s.contains(p) <==> s.to_set().contains(p));
            assert(t.contains(p) <==> t.to_set().contains(p));
            assert(s.contains(p) <==> s.to_multiset().count(p) > 0);
            assert(t.contains(p) <==> t.to_multiset().count(p) > 0);
        }
    }
    assert(sorted_by(s, leq));
    assert(sorted_by(t, leq));
    assert(total_ordering(leq));
    vstd::seq_lib::lemma_sorted_unique(s, t, leq);
}

/// What each level of a side holds.
pub open spec fn levels_view(levels: Map<Price, PriceLevel>) -> Map<Price, LevelView> {
    levels.map_values(|level: PriceLevel| level@)
}

/// A sequence that the standard library lists in increasing order worsens for a buyer.
proof fn increasing_worsens(keys: Seq<&Price>)
    requires
        vstd::std_specs::btree::increasing_seq(keys),
    ensures
        worsening(keys.unref(), Side::Buy),
{
    broadcast use vstd::laws_cmp::group_laws_cmp;
    broadcast use vstd::std_specs::btree::group_btree_axioms;

    assert(vstd::laws_cmp::obeys_cmp::<&Price>());
    let prices = keys.unref();
    assert forall|i: int, j: int| 0 <= i < j < prices.len() implies prices[i] != prices[j]
        && as_good(Side::Buy, #[trigger] prices[i], #[trigger] prices[j]) by {
        assert(vstd::std_specs::cmp::OrdSpec::cmp_spec(&keys[i], &keys[j]) is Less);
    }
}

/// Lists the prices of a side in ascending order.
fn ascending_prices(levels: &BTreeMap<Price, PriceLevel>) -> (r: Vec<Price>)
    ensures
        worsening(r@, Side::Buy),
        r@.to_set() =~= levels@.dom(),
{
    broadcast use vstd::laws_cmp::group_laws_cmp;
    broadcast use vstd::std_specs::btree::group_btree_axioms;

    let ghost keys = vstd::std_specs::iter::IteratorSpec::remaining(
        &vstd::std_specs::btree::spec_keys_iter(levels),
    );
    let mut r: Vec<Price> = Vec::new();
    for price in it: levels.keys()
        invariant
            it.seq() == keys,
            r@ =~= keys.unref().take(it.index()),
    {
        r.push(*price);
    }
    assert(r@ =~= keys.unref());
    proof {
        increasing_worsens(keys);
    }
    r
}

/// Lists the prices at which an incoming order on `side` may trade, best first.
pub fn candidate_prices(
    levels: &BTreeMap<Price, PriceLevel>,
    side: Side,
    limit: Option<Price>,
) -> (r: Vec<Price>)
    ensures
        r@ == candidates(levels_view(levels@), side, limit),
{
    let all = ascending_prices(levels);
    let n = all.len();
    let ghost ranked = match side {
        Side::Buy => all@,
        Side::Sell => all@.reverse(),
    };
    let ghost wanted = levels@.dom().filter(|p: Price| crosses(side, limit, p));
    assert(worsening(ranked, side));
    assert forall|p: Price| ranked.contains(p) == levels@.dom().contains(p) by {
        assert(all@.to_set().contains(p) == levels@.dom().contains(p));
        if all@.contains(p) {
            let k = all@.index_of(p);
            assert(all@[k] == p);
            assert(all@.reverse()[n - 1 - k] == p);
        }
        if all@.reverse().contains(p) {
            let k = all@.reverse().index_of(p);
            assert(all@[n - 1 - k] == p);
        }
    }
    let mut r: Vec<Price> = Vec::new();
    let mut i: usize = 0;
    while i < n
        invariant
            i <= n,
            n == all@.len(),
            n == ranked.len(),
            ranked == (match side {
                Side::Buy => all@,
                Side::Sell => all@.reverse(),
            }),
            worsening(ranked, side),
            worsening(r@, side),
            forall|k: int| 0 <= k < r@.len() ==> ranked.take(i as int).contains(#[trigger] r@[k]),
            forall|k: int| 0 <= k < r@.len() ==> crosses(side, limit, #[trigger] r@[k]),
            forall|j: int|
                0 <= j < i && crosses(side, limit, #[trigger] ranked[j]) ==> r@.contains(ranked[j]),
        decreases n - i,
    {
        let price = match side {
            Side::Buy => all[i],
            Side::Sell => all[n - 1 - i],
        };
        assert(price == ranked[i as int]);
        let wants = match limit {
            Some(l) => match side {
                Side::Buy => price <= l,
                Side::Sell => price >= l,
            },
            None => true,
        };
        let ghost before = r@;
        assert forall|k: int| 0 <= k < before.len() implies #[trigger] before[k] != price
            && as_good(side, before[k], price) by {
            let seen = ranked.take(i as int);
            let j = seen.index_of(before[k]);
            assert(seen.contains(before[k]));
            assert(seen[j] == before[k]);
            assert(ranked[j] == before[k]);
        }
        if wants {
            r.push(price);
        }
        proof {
            let seen = ranked.take(i as int);
            let now = ranked.take(i + 1);
            assert(now =~= seen.push(price));
            assert forall|k: int| 0 <= k < r@.len() implies now.contains(#[trigger] r@[k]) by {
                if k < before.len() {
                    assert(seen.contains(before[k]));
                    let j = seen.index_of(before[k]);
                    assert(now[j] == before[k]);
                } else {
                    assert(now[i as int] == price);
                }
            }
            assert forall|j: int|
                0 <= j < i + 1 && crosses(side, limit, #[trigger] ranked[j]) implies r@.contains(
                ranked[j],
            ) by {
                if j < i {
                    let k = before.index_of(ranked[j]);
                    assert(before.contains(ranked[j]));
                    assert(r@[k] == ranked[j]);
                } else {
                    assert(r@[r@.len() - 1] == price);
                }
            }
        }
        i += 1;
    }
    proof {
        assert(ranked.take(n as int) =~= ranked);
        assert(levels_view(levels@).dom() =~= levels@.dom());
        assert forall|p: Price| r@.to_set().contains(p) <==> wanted.contains(p) by {
            if r@.contains(p) {
                let k = r@.index_of(p);
                assert(ranked.take(n as int).contains(r@[k]));
                assert(ranked.contains(p));
            }
            if wanted.contains(p) {
                assert(ranked.contains(p));
                let j = ranked.index_of(p);
                assert(crosses(side, limit, ranked[j]));
            }
        }
        assert(r@.to_set() =~= wanted);
        vstd::std_specs::btree::axiom_btree_map_view_finite_dom(*levels);
        best_first_unique(r@, wanted, side);
    }
    r
}

/// What is left once an incoming order has walked along one side.
#[verifier::ext_equal]
pub struct Walk {
    /// The side afterwards.
    pub levels: Map<Price, LevelView>,
    /// The incoming order afterwards.
    pub taker: Order,
    /// The fills, in the order in which they happened.
    pub fills: Seq<Fill>,
}

/// The side once an incoming order has traded at the level at `price`. With `prune`, a level
/// that it leaves empty is taken off the side.
pub open spec fn stepped(
    levels: Map<Price, LevelView>,
    price: Price,
    taker: Order,
    prune: bool,
) -> Map<Price, LevelView> {
    let level = levels[price].swept(taker).level;
    if prune && level.orders.len() == 0 {
        levels.remove(price)
    } else {
        levels.insert(price, level)
    }
}

/// An incoming order trades at each of these prices in turn until it is used up. With `prune`,
/// a level that it leaves empty is taken off the side.
pub open spec fn walked(
    levels: Map<Price, LevelView>,
    prices: Seq<Price>,
    taker: Order,
    prune: bool,
) -> Walk
    decreases prices.len(),
{
    if prices.len() == 0 || taker.remaining_quantity == 0 {
        Walk { levels, taker, fills: Seq::empty() }
    } else if !levels.contains_key(prices[0]) {
        walked(levels, prices.drop_first(), taker, prune)
    } else {
        let price = prices[0];
        let here = levels[price].swept(taker);
        let left = stepped(levels, price, taker, prune);
        let then = walked(left, prices.drop_first(), here.taker, prune);
        Walk { fills: here.fills + then.fills, ..then }
    }
}

/// Takes a level off the side.
fn take_level(levels: &mut BTreeMap<Price, PriceLevel>, price: Price) -> (r: Option<PriceLevel>)
    ensures
        match r {
            Some(level) => {
                &&& levels_view(old(levels)@).contains_key(price)
                &&& level@ == levels_view(old(levels)@)[price]
                &&& levels_view(final(levels)@) == levels_view(old(levels)@).remove(price)
            },
            None => {
                &&& !levels_view(old(levels)@).contains_key(price)
                &&& levels_view(final(levels)@) == levels_view(old(levels)@)
            },
        },
{
    broadcast use vstd::laws_cmp::group_laws_cmp;
    broadcast use vstd::std_specs::btree::group_btree_axioms;

    let r = levels.remove(&price);
    proof {
        let before = levels_view(old(levels)@);
        assert(levels_view(levels@) =~= before.remove(price));
        if !before.contains_key(price) {
            assert(before.remove(price) =~= before);
        }
    }
    r
}

/// Puts a level onto the side.
fn put_level(levels: &mut BTreeMap<Price, PriceLevel>, price: Price, level: PriceLevel)
    ensures
        levels_view(final(levels)@) == levels_view(old(levels)@).insert(price, level@),
{
    broadcast use vstd::laws_cmp::group_laws_cmp;
    broadcast use vstd::std_specs::btree::group_btree_axioms;

    levels.insert(price, level);
    assert(levels_view(levels@) =~= levels_view(old(levels)@).insert(price, level@));
}

/// Lets an incoming order trade at each of these prices in turn until it is used up, reporting
/// each fill. With `prune`, a level that it leaves empty is taken off the side.
pub fn walk(
    levels: &mut BTreeMap<Price, PriceLevel>,
    prices: &Vec<Price>,
    taker: &mut Order,
    prune: bool,
    feed: &mut TradeFeed,
)
    requires
        old(feed).wf(),
    ensures
        ({
            let goal = walked(levels_view(old(levels)@), prices@, *old(taker), prune);
            &&& levels_view(final(levels)@) == goal.levels
            &&& *final(taker) == goal.taker
            &&& old(feed)@.reports(final(feed)@, goal.fills)
        }),
        final(feed).wf(),
{
    let ghost goal = walked(levels_view(levels@), prices@, *taker, prune);
    let ghost mut done: Seq<Fill> = Seq::empty();
    let mut i: usize = 0;
    proof {
        reported_nothing(feed@);
        assert(done + goal.fills =~= goal.fills);
        assert(prices@.skip(0) =~= prices@);
    }
    while i < prices.len() && taker.get_remaining_quantity() > 0
        invariant
            i <= prices@.len(),
            goal == walked(levels_view(old(levels)@), prices@, *old(taker), prune),
            feed.wf(),
            old(feed)@.reports(feed@, done),
            ({
                let rest = walked(levels_view(levels@), prices@.skip(i as int), *taker, prune);
                &&& goal.levels == rest.levels
                &&& goal.taker == rest.taker
                &&& goal.fills == done + rest.fills
            }),
        decreases prices@.len() - i,
    {
        let price = prices[i];
        let ghost before = levels@;
        let ghost rest = walked(levels_view(before), prices@.skip(i as int), *taker, prune);
        assert(prices@.skip(i as int).drop_first() =~= prices@.skip(i + 1));
        i += 1;
        let mut level = match take_level(levels, price) {
            Some(level) => level,
            None => continue,
        };
        let ghost here = level@.swept(*taker);
        let ghost sent = feed@;
        level.match_order(taker, feed);
        if !(prune && level.is_empty()) {
            put_level(levels, price, level);
            assert(levels_view(levels@) =~= levels_view(before).insert(price, here.level));
        }
        proof {
            reported_in_turn(old(feed)@, sent, feed@, done, here.fills);
            let then = walked(levels_view(levels@), prices@.skip(i as int), *taker, prune);
            assert(rest.fills == here.fills + then.fills);
            assert(done + rest.fills =~= (done + here.fills) + then.fills);
            done = done + here.fills;
        }
    }
    assert(done + Seq::<Fill>::empty() =~= done);
}

/// The side with `order` at the back of the queue at `price`.
pub open spec fn with_order(
    levels: Map<Price, LevelView>,
    price: Price,
    order: Order,
) -> Map<Price, LevelView> {
    levels.insert(price, level_or_empty(levels, price).pushed(order))
}

/// The level at `price`, or an empty one.
pub open spec fn level_or_empty(levels: Map<Price, LevelView>, price: Price) -> LevelView {
    if levels.contains_key(price) {
        levels[price]
    } else {
        LevelView::empty(price)
    }
}

/// Gets hold of the level at `price`, making an empty one if there is none. The level is off
/// the side until it is put back.
fn get_or_create_level(levels: &mut BTreeMap<Price, PriceLevel>, price: Price) -> (r: PriceLevel)
    ensures
        r@ == level_or_empty(levels_view(old(levels)@), price),
        levels_view(final(levels)@) == levels_view(old(levels)@).remove(price),
{
    match take_level(levels, price) {
        Some(level) => level,
        None => {
            assert(levels_view(levels@) =~= levels_view(levels@).remove(price));
            PriceLevel::new(price)
        },
    }
}

/// Lets an order rest at `price`, behind the orders that are already there.
pub fn rest_order(levels: &mut BTreeMap<Price, PriceLevel>, price: Price, order: Order)
    ensures
        levels_view(final(levels)@) == with_order(levels_view(old(levels)@), price, order),
{
    let mut level = get_or_create_level(levels, price);
    level.push_order(order);
    put_level(levels, price, level);
    assert(levels_view(levels@) =~= with_order(levels_view(old(levels)@), price, order));
}

/// Removes the oldest order with this identifier from the level at `price`.
///
/// Gives `None` if there is no such level, else the removed order's remaining quantity, which
/// is `None` if no such order is in the queue.
pub fn withdraw_order(
    levels: &mut BTreeMap<Price, PriceLevel>,
    price: Price,
    order_id: OrderId,
) -> (r: Option<Option<Quantity>>)
    ensures
        ({
            let before = levels_view(old(levels)@);
            let after = levels_view(final(levels)@);
            match r {
                None => !before.contains_key(price) && after == before,
                Some(removed) => {
                    let orders = before[price].orders;
                    let i = first_index(orders, order_id);
                    &&& before.contains_key(price)
                    &&& holds(orders, order_id) ==> removed == Some(orders[i].remaining_quantity)
                        && after == before.insert(price, before[price].without(i))
                    &&& !holds(orders, order_id) ==> removed is None && after == before
                },
            }
        }),
{
    let mut level = match take_level(levels, price) {
        Some(level) => level,
        None => return None,
    };
    let removed = level.remove_order(order_id);
    put_level(levels, price, level);
    proof {
        let before = levels_view(old(levels)@);
        assert(levels_view(levels@) =~= before.insert(price, level@));
        if removed is None {
            assert(levels_view(levels@) =~= before);
        }
    }
    Some(removed)
}

/// Whether some order rests at `price`.
pub open spec fn occupied(levels: Map<Price, LevelView>, price: Price) -> bool {
    levels.contains_key(price) && levels[price].orders.len() > 0
}

/// Whether no order rests on a side, at whatever levels.
pub open spec fn nothing_rests(levels: Map<Price, LevelView>) -> bool {
    forall|p: Price| #[trigger] levels.contains_key(p) ==> levels[p].orders.len() == 0
}

/// Whether `price` is the one that an incoming order on `side` likes best of all prices at which
/// orders rest.
pub open spec fn is_best(levels: Map<Price, LevelView>, side: Side, price: Price) -> bool {
    &&& occupied(levels, price)
    &&& forall|p: Price| #[trigger]
        levels.contains_key(p) && levels[p].orders.len() > 0 ==> as_good(side, price, p)
}

/// Checks if some order rests at `price`.
fn is_occupied(levels: &BTreeMap<Price, PriceLevel>, price: Price) -> (r: bool)
    ensures
        r == occupied(levels_view(levels@), price),
{
    broadcast use vstd::laws_cmp::group_laws_cmp;
    broadcast use vstd::std_specs::btree::group_btree_axioms;

    match levels.get(&price) {
        Some(level) => !level.is_empty(),
        None => false,
    }
}

/// Finds the price that an incoming order on `side` likes best of all prices at which orders
/// rest. Levels at which nothing rests do not count.
pub fn best_price(levels: &BTreeMap<Price, PriceLevel>, side: Side) -> (r: Option<Price>)
    ensures
        match r {
            Some(price) => is_best(levels_view(levels@), side, price),
            None => nothing_rests(levels_view(levels@)),
        },
{
    let prices = candidate_prices(levels, side, None);
    let ghost view = levels_view(levels@);
    let mut i: usize = 0;
    proof {
        vstd::std_specs::btree::axiom_btree_map_view_finite_dom(*levels);
        assert(view.dom() =~= levels@.dom());
        candidates_list(view, side, None);
    }
    while i < prices.len()
        invariant
            i <= prices@.len(),
            view == levels_view(levels@),
            view.dom().finite(),
            prices@ == candidates(view, side, None),
            forall|j: int| 0 <= j < i ==> !occupied(view, #[trigger] prices@[j]),
        decreases prices@.len() - i,
    {
        let price = prices[i];
        if is_occupied(levels, price) {
            proof {
                candidates_list(view, side, None);
                assert forall|p: Price| #[trigger]
                    view.contains_key(p) && view[p].orders.len() > 0 implies as_good(
                    side,
                    price,
                    p,
                ) by {
                    assert(prices@.contains(p));
                    let j = prices@.index_of(p);
                    assert(prices@[j] == p);
                }
            }
            return Some(price);
        }
        i += 1;
    }
    proof {
        candidates_list(view, side, None);
        assert forall|p: Price| #[trigger] view.contains_key(p) implies view[p].orders.len()
            == 0 by {
            assert(prices@.contains(p));
            let j = prices@.index_of(p);
            assert(!occupied(view, prices@[j]));
        }
    }
    None
}

/// Reads the cached total of a level.
fn cached_total(levels: &BTreeMap<Price, PriceLevel>, price: Price) -> (r: Quantity)
    requires
        levels_view(levels@).contains_key(price),
    ensures
        r == levels_view(levels@)[price].total_quantity,
{
    broadcast use vstd::laws_cmp::group_laws_cmp;
    broadcast use vstd::std_specs::btree::group_btree_axioms;

    match levels.get(&price) {
        Some(level) => level.get_total_quantity(),
        None => 0,
    }
}

/// Adds up the cached totals of a side.
pub fn side_total(levels: &BTreeMap<Price, PriceLevel>) -> (r: u128)
    ensures
        r == total_of(levels_view(levels@), cached()),
{
    let prices = ascending_prices(levels);
    let ghost view = levels_view(levels@);
    let mut sum: u128 = 0;
    let mut i: usize = 0;
    proof {
        vstd::std_specs::btree::axiom_btree_map_view_finite_dom(*levels);
        assert(view.dom() =~= levels@.dom());
        assert(view.restrict(prices@.take(0).to_set()).dom() =~= Set::<Price>::empty());
    }
    while i < prices.len()
        invariant
            i <= prices@.len(),
            view == levels_view(levels@),
            view.dom().finite(),
            worsening(prices@, Side::Buy),
            prices@.to_set() =~= view.dom(),
            sum == total_of(view.restrict(prices@.take(i as int).to_set()), cached()),
            sum <= i * u64::MAX,
        decreases prices@.len() - i,
    {
        let price = prices[i];
        proof {
            assert(prices@.contains(price));
            assert(prices@.to_set().contains(price));
            let seen = prices@.take(i as int);
            let now = prices@.take(i + 1);
            assert(now =~= seen.push(price));
            assert(!seen.to_set().contains(price)) by {
                if seen.contains(price) {
                    let j = seen.index_of(price);
                    assert(prices@[j] == prices@[i as int]);
                }
            }
            seen.lemma_push_to_set_commute(price);
            let part = view.restrict(seen.to_set());
            assert(part.dom() =~= view.dom().intersect(seen.to_set()));
            assert(view.restrict(now.to_set()) =~= part.insert(price, view[price]));
            assert(part.remove(price) =~= part);
            total_inserts(part, cached(), price, view[price]);
            assert((i + 1) * u64::MAX == i * u64::MAX + u64::MAX) by (nonlinear_arith);
            assert(i * u64::MAX <= usize::MAX * u64::MAX) by (nonlinear_arith)
                requires
                    i <= usize::MAX,
            ;
        }
        sum = sum + cached_total(levels, price) as u128;
        i += 1;
    }
    proof {
        assert(prices@.take(i as int) =~= prices@);
        assert(view.restrict(prices@.to_set()) =~= view);
    }
    sum
}

} // verus!
