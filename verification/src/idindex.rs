use vstd::prelude::*;

use crate::decimal::Decimal;
use crate::order::OrderSide;

verus! {

/// Where a resting order stands: the side selects the ladder, the price the
/// level within it.
#[derive(Clone, Copy, Debug, PartialEq, Eq, Structural)]
pub struct OrderLocation {
    pub side: OrderSide,
    pub price: Decimal,
}

#[verifier::external_type_specification]
#[verifier::external_body]
#[verifier::reject_recursive_types(K)]
#[verifier::reject_recursive_types(V)]
#[verifier::reject_recursive_types(S)]
pub struct ExIndexMap<K, V, S>(indexmap::IndexMap<K, V, S>);

/// The id index of a book, held in an insertion-ordered map.
pub type IdIndexMap = indexmap::IndexMap<u64, OrderLocation>;

/// The entries of the id index, as a map from order id to location.
pub uninterp spec fn id_index_view(m: IdIndexMap) -> Map<u64, OrderLocation>;

/// The map of a book with nothing resting.
pub open spec fn empty_id_index() -> Map<u64, OrderLocation> {
    Map::empty()
}

/// Relies on indexmap::IndexMap::new: creates an empty map.
#[verifier::external_body]
pub fn id_index_new() -> (r: IdIndexMap)
    ensures
        id_index_view(r) == empty_id_index(),
        id_index_view(r).dom().finite(),
{
    indexmap::IndexMap::new()
}

/// Relies on indexmap::IndexMap::len: the number of entries.
#[verifier::external_body]
pub fn id_index_len(m: &IdIndexMap) -> (r: usize)
    requires
        id_index_view(*m).dom().finite(),
    ensures
        r == id_index_view(*m).dom().len(),
{
    m.len()
}

/// Relies on indexmap::IndexMap::contains_key: whether an entry with the
/// key exists.
#[verifier::external_body]
pub fn id_index_contains(m: &IdIndexMap, key: u64) -> (r: bool)
    ensures
        r == id_index_view(*m).contains_key(key),
{
    m.contains_key(&key)
}

/// Relies on indexmap::IndexMap::get: the value stored under the key, if
/// any.
#[verifier::external_body]
pub fn id_index_get(m: &IdIndexMap, key: u64) -> (r: Option<OrderLocation>)
    ensures
        r == if id_index_view(*m).contains_key(key) {
            Some(id_index_view(*m)[key])
        } else {
            None::<OrderLocation>
        },
{
    m.get(&key).copied()
}

/// Relies on indexmap::IndexMap::insert: stores the value under the key,
/// replacing and returning any previous value for an equivalent key.
#[verifier::external_body]
pub fn id_index_insert(m: &mut IdIndexMap, key: u64, value: OrderLocation) -> (r: Option<
    OrderLocation,
>)
    ensures
        id_index_view(*final(m)) == id_index_view(*old(m)).insert(key, value),
        r == if id_index_view(*old(m)).contains_key(key) {
            Some(id_index_view(*old(m))[key])
        } else {
            None::<OrderLocation>
        },
        id_index_view(*old(m)).dom().finite() ==> id_index_view(*final(m)).dom().finite(),
{
    m.insert(key, value)
}

/// Relies on indexmap::IndexMap::swap_remove: removes the entry with the
/// key, returning its value; the order of other entries may change, which
/// the map view does not record.
#[verifier::external_body]
pub fn id_index_remove(m: &mut IdIndexMap, key: u64) -> (r: Option<OrderLocation>)
    ensures
        id_index_view(*final(m)) == id_index_view(*old(m)).remove(key),
        r == if id_index_view(*old(m)).contains_key(key) {
            Some(id_index_view(*old(m))[key])
        } else {
            None::<OrderLocation>
        },
        id_index_view(*old(m)).dom().finite() ==> id_index_view(*final(m)).dom().finite(),
{
    m.swap_remove(&key)
}

} // verus!
