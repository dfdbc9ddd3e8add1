//! The registry that finds a resting order's side and price by its identifier.

use dashmap::DashMap;
use vstd::prelude::*;

use crate::types::{OrderId, Price, Side};

verus! {

/// Where an order rests: its side of the book and its price level.
pub type Place = (Side, Price);

/// `dashmap::DashMap`, a concurrent hash map.
#[verifier::external_type_specification]
#[verifier::external_body]
#[verifier::reject_recursive_types(K)]
#[verifier::reject_recursive_types(V)]
#[verifier::reject_recursive_types(S)]
pub struct ExDashMap<K, V, S>(dashmap::DashMap<K, V, S>);

/// The entries of a registry.
pub uninterp spec fn entries(map: DashMap<OrderId, Place>) -> Map<OrderId, Place>;

/// Makes a registry with `dashmap::DashMap::new`. Claimed: it has no entries.
#[verifier::external_body]
pub(crate) fn new_lookup() -> (r: DashMap<OrderId, Place>)
    ensures
        (entries(r) == Map::<OrderId, Place>::empty()),
{
    DashMap::new()
}

/// Adds an entry with `dashmap::DashMap::insert`. Claimed: the identifier now leads to the given
/// place, in place of the one it led to before, which is returned; other entries are as before.
#[verifier::external_body]
pub(crate) fn insert(
    map: &mut DashMap<OrderId, Place>,
    order_id: OrderId,
    place: Place,
) -> (r: Option<Place>)
    ensures
        entries(*final(map)) == entries(*old(map)).insert(order_id, place),
        r == (if entries(*old(map)).contains_key(order_id) {
            Some(entries(*old(map))[order_id])
        } else {
            None
        }),
{
    map.insert(order_id, place)
}

/// Copies an entry's value out with `dashmap::DashMap::get`, holding no reference into the map
/// afterwards. Claimed: it is the value under this identifier, if there is one.
#[verifier::external_body]
pub(crate) fn get(map: &DashMap<OrderId, Place>, order_id: OrderId) -> (r: Option<Place>)
    ensures
        r == (if entries(*map).contains_key(order_id) {
            Some(entries(*map)[order_id])
        } else {
            None
        }),
{
    map.get(&order_id).map(|entry| *entry.value())
}

/// Deletes an entry with `dashmap::DashMap::remove`. Claimed: the identifier leads nowhere
/// afterwards, other entries are as before, and the deleted entry is returned, if there was one.
#[verifier::external_body]
pub(crate) fn remove(
    map: &mut DashMap<OrderId, Place>,
    order_id: OrderId,
) -> (r: Option<(OrderId, Place)>)
    ensures
        entries(*final(map)) == entries(*old(map)).remove(order_id),
        r == (if entries(*old(map)).contains_key(order_id) {
            Some((order_id, entries(*old(map))[order_id]))
        } else {
            None
        }),
{
    map.remove(&order_id)
}

} // verus!
