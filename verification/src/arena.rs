//! The two key arenas of the graph, kept in `slotmap::SlotMap`.
//!
//! Nothing in this file is proved. Each function makes one call into the slot
//! map and states what that call does over two descriptions of an arena: the
//! entries it holds, as a map from key handles to values, and the order in
//! which it walks them. The rest of the crate is verified against these
//! statements alone.
//!
//! A third description keeps track of the keys that are spent. A slot's
//! version goes up by one whenever the slot is filled or emptied, so the keys
//! that a slot has had are those with an odd version below the slot's own.
//! The version has 32 bits and wraps when a slot with the last version is
//! emptied; the statements on spent keys leave that one removal out.
//!
//! A key handle is what `KeyData::as_ffi` returns: the slot index in the low
//! half and the slot's version in the high half. The version of an occupied
//! slot is odd and `KeyData::from_ffi` makes any version odd, so the functions
//! that take a handle ask for one with an odd version: for those, converting
//! to a key and back gives the handle again.

use crate::edge::Edge;
use crate::node::Node;
use slotmap::{DefaultKey, Key, KeyData, SlotMap};
use vstd::prelude::*;

verus! {

/// The most entries an arena may hold before another is inserted. A slot map
/// refuses to grow past `u32::MAX` slots, one of which it keeps for itself.
pub const ARENA_MAX: usize = 4_294_967_294;

/// Whether `raw` has the shape of a handle of a live key: an odd version.
pub open spec fn is_slot_key(raw: u64) -> bool {
    raw & 0x1_0000_0000 == 0x1_0000_0000
}

/// A slot map with the default key type.
#[verifier::external_body]
#[verifier::reject_recursive_types(V)]
pub struct Arena<V> {
    inner: SlotMap<DefaultKey, V>,
}

/// Whether `raw` carries the last version that a slot can have.
pub open spec fn is_last_version(raw: u64) -> bool {
    raw >> 32 == 0xffff_ffff
}

/// The nodes that the arena holds, by the handle of their key.
pub uninterp spec fn node_slots(a: Arena<Node>) -> Map<u64, Node>;

/// The handles of the keys of the arena's nodes, in the order in which the
/// arena walks them.
pub uninterp spec fn node_order(a: Arena<Node>) -> Seq<u64>;

/// The handles of the spent keys of the arena's nodes: for each slot, those
/// at that slot with an odd version below the slot's version.
pub uninterp spec fn node_spent(a: Arena<Node>) -> Set<u64>;

/// The edges that the arena holds, by the handle of their key.
pub uninterp spec fn edge_slots(a: Arena<Edge>) -> Map<u64, Edge>;

/// The handles of the keys of the arena's edges, in the order in which the
/// arena walks them.
pub uninterp spec fn edge_order(a: Arena<Edge>) -> Seq<u64>;

/// The handles of the spent keys of the arena's edges: for each slot, those
/// at that slot with an odd version below the slot's version.
pub uninterp spec fn edge_spent(a: Arena<Edge>) -> Set<u64>;

/// `SlotMap::with_key`: a new slot map holds nothing and has no slot that a
/// key could have been spent at.
#[verifier::external_body]
pub(crate) fn nodes_new() -> (a: Arena<Node>)
    ensures
        node_slots(a) == (Map::<u64, Node>::empty()),
        node_order(a) == Seq::<u64>::empty(),
        node_spent(a) == Set::<u64>::empty(),
{
    Arena { inner: SlotMap::with_key() }
}

/// `SlotMap::len`: the number of entries, which is the number of keys that a
/// walk yields.
#[verifier::external_body]
pub(crate) fn nodes_len(a: &Arena<Node>) -> (n: usize)
    ensures
        n == node_order(*a).len(),
{
    a.inner.len()
}

/// `SlotMap::insert`: stores `node` in a vacant slot, or in a new last slot
/// when none is vacant, and returns that slot's key. The key has an odd
/// version and was not live before; the walk, which goes by slot index, meets
/// it somewhere among the keys it met before. The key's version is the
/// slot's version made odd, which is above every version the slot has had,
/// so the key is not spent, and the keys that are spent stay the same. The
/// call panics only when no slot is vacant and the map has `u32::MAX` slots,
/// which takes `u32::MAX - 1` entries since this crate never detaches a slot.
#[verifier::external_body]
pub(crate) fn nodes_insert(a: &mut Arena<Node>, node: Node) -> (k: u64)
    requires
        node_order(*old(a)).len() < ARENA_MAX,
    ensures
        is_slot_key(k),
        !node_slots(*old(a)).contains_key(k),
        !node_spent(*old(a)).contains(k),
        node_spent(*final(a)) == node_spent(*old(a)),
        node_slots(*final(a)) == node_slots(*old(a)).insert(k, node),
        exists|i: int|
            0 <= i <= node_order(*old(a)).len() && node_order(*final(a)) == node_order(
                *old(a),
            ).insert(i, k),
{
    a.inner.insert(node).data().as_ffi()
}

/// `SlotMap::remove`: takes the entry of a live key out and returns its
/// value; the other entries stay, in the order they had. The slot's version
/// goes up by one, so the key is spent from then on, unless it had the last
/// version, after which the slot starts over and has no spent keys. For a
/// key that is not live it returns `None` and changes nothing.
#[verifier::external_body]
pub(crate) fn nodes_remove(a: &mut Arena<Node>, k: u64) -> (r: Option<Node>)
    requires
        is_slot_key(k),
    ensures
        match r {
            Some(v) => node_slots(*old(a)).contains_key(k) && v == node_slots(*old(a))[k] && (
            !is_last_version(k) ==> node_spent(*final(a)) == node_spent(*old(a)).insert(k))
                && node_spent(*final(a)).subset_of(node_spent(*old(a)).insert(k)),
            None => !node_slots(*old(a)).contains_key(k) && node_spent(*final(a)) == node_spent(
                *old(a),
            ),
        },
        node_slots(*final(a)) == node_slots(*old(a)).remove(k),
        node_order(*final(a)) == node_order(*old(a)).remove_value(k),
{
    a.inner.remove(DefaultKey::from(KeyData::from_ffi(k)))
}

/// `SlotMap::get`: the value of a live key, `None` for any other.
#[verifier::external_body]
pub(crate) fn nodes_get(a: &Arena<Node>, k: u64) -> (r: Option<&Node>)
    requires
        is_slot_key(k),
    ensures
        match r {
            Some(v) => node_slots(*a).contains_key(k) && *v == node_slots(*a)[k],
            None => !node_slots(*a).contains_key(k),
        },
{
    a.inner.get(DefaultKey::from(KeyData::from_ffi(k)))
}

/// `SlotMap::get_mut`: the value of a live key, to be changed in place,
/// `None` for any other. The keys, their order and the versions of the slots
/// stay as they are.
#[verifier::external_body]
pub(crate) fn nodes_get_mut(a: &mut Arena<Node>, k: u64) -> (r: Option<&mut Node>)
    requires
        is_slot_key(k),
    ensures
        match r {
            Some(v) => node_slots(*old(a)).contains_key(k) && *v == node_slots(*old(a))[k]
                && node_slots(*final(a)) == node_slots(*old(a)).insert(k, *final(v)),
            None => !node_slots(*old(a)).contains_key(k) && node_slots(*final(a)) == node_slots(
                *old(a),
            ),
        },
        node_order(*final(a)) == node_order(*old(a)),
        node_spent(*final(a)) == node_spent(*old(a)),
{
    a.inner.get_mut(DefaultKey::from(KeyData::from_ffi(k)))
}

/// `SlotMap::keys`: the keys of the entries in walking order, each as its
/// handle.
#[verifier::external_body]
pub(crate) fn nodes_keys(a: &Arena<Node>) -> (r: Vec<u64>)
    ensures
        r@ == node_order(*a),
{
    a.inner.keys().map(|k| k.data().as_ffi()).collect()
}

/// `SlotMap::with_key`: a new slot map holds nothing and has no slot that a
/// key could have been spent at.
#[verifier::external_body]
pub(crate) fn edges_new() -> (a: Arena<Edge>)
    ensures
        edge_slots(a) == (Map::<u64, Edge>::empty()),
        edge_order(a) == Seq::<u64>::empty(),
        edge_spent(a) == Set::<u64>::empty(),
{
    Arena { inner: SlotMap::with_key() }
}

/// `SlotMap::len`: the number of entries, which is the number of keys that a
/// walk yields.
#[verifier::external_body]
pub(crate) fn edges_len(a: &Arena<Edge>) -> (n: usize)
    ensures
        n == edge_order(*a).len(),
{
    a.inner.len()
}

/// `SlotMap::insert`: stores `edge` in a vacant slot, or in a new last slot
/// when none is vacant, and returns that slot's key. The key has an odd
/// version and was not live before; the walk, which goes by slot index, meets
/// it somewhere among the keys it met before. The key's version is the
/// slot's version made odd, which is above every version the slot has had,
/// so the key is not spent, and the keys that are spent stay the same. The
/// call panics only when no slot is vacant and the map has `u32::MAX` slots,
/// which takes `u32::MAX - 1` entries since this crate never detaches a slot.
#[verifier::external_body]
pub(crate) fn edges_insert(a: &mut Arena<Edge>, edge: Edge) -> (k: u64)
    requires
        edge_order(*old(a)).len() < ARENA_MAX,
    ensures
        is_slot_key(k),
        !edge_slots(*old(a)).contains_key(k),
        !edge_spent(*old(a)).contains(k),
        edge_spent(*final(a)) == edge_spent(*old(a)),
        edge_slots(*final(a)) == edge_slots(*old(a)).insert(k, edge),
        exists|i: int|
            0 <= i <= edge_order(*old(a)).len() && edge_order(*final(a)) == edge_order(
                *old(a),
            ).insert(i, k),
{
    a.inner.insert(edge).data().as_ffi()
}

/// `SlotMap::remove`: takes the entry of a live key out and returns its
/// value; the other entries stay, in the order they had. The slot's version
/// goes up by one, so the key is spent from then on, unless it had the last
/// version, after which the slot starts over and has no spent keys. For a
/// key that is not live it returns `None` and changes nothing.
#[verifier::external_body]
pub(crate) fn edges_remove(a: &mut Arena<Edge>, k: u64) -> (r: Option<Edge>)
    requires
        is_slot_key(k),
    ensures
        match r {
            Some(v) => edge_slots(*old(a)).contains_key(k) && v == edge_slots(*old(a))[k] && (
            !is_last_version(k) ==> edge_spent(*final(a)) == edge_spent(*old(a)).insert(k))
                && edge_spent(*final(a)).subset_of(edge_spent(*old(a)).insert(k)),
            None => !edge_slots(*old(a)).contains_key(k) && edge_spent(*final(a)) == edge_spent(
                *old(a),
            ),
        },
        edge_slots(*final(a)) == edge_slots(*old(a)).remove(k),
        edge_order(*final(a)) == edge_order(*old(a)).remove_value(k),
{
    a.inner.remove(DefaultKey::from(KeyData::from_ffi(k)))
}

/// `SlotMap::get`: the value of a live key, `None` for any other.
#[verifier::external_body]
pub(crate) fn edges_get(a: &Arena<Edge>, k: u64) -> (r: Option<&Edge>)
    requires
        is_slot_key(k),
    ensures
        match r {
            Some(v) => edge_slots(*a).contains_key(k) && *v == edge_slots(*a)[k],
            None => !edge_slots(*a).contains_key(k),
        },
{
    a.inner.get(DefaultKey::from(KeyData::from_ffi(k)))
}

/// `SlotMap::get_mut`: the value of a live key, to be changed in place,
/// `None` for any other. The keys, their order and the versions of the slots
/// stay as they are.
#[verifier::external_body]
pub(crate) fn edges_get_mut(a: &mut Arena<Edge>, k: u64) -> (r: Option<&mut Edge>)
    requires
        is_slot_key(k),
    ensures
        match r {
            Some(v) => edge_slots(*old(a)).contains_key(k) && *v == edge_slots(*old(a))[k]
                && edge_slots(*final(a)) == edge_slots(*old(a)).insert(k, *final(v)),
            None => !edge_slots(*old(a)).contains_key(k) && edge_slots(*final(a)) == edge_slots(
                *old(a),
            ),
        },
        edge_order(*final(a)) == edge_order(*old(a)),
        edge_spent(*final(a)) == edge_spent(*old(a)),
{
    a.inner.get_mut(DefaultKey::from(KeyData::from_ffi(k)))
}

/// `SlotMap::keys`: the keys of the entries in walking order, each as its
/// handle.
#[verifier::external_body]
pub(crate) fn edges_keys(a: &Arena<Edge>) -> (r: Vec<u64>)
    ensures
        r@ == edge_order(*a),
{
    a.inner.keys().map(|k| k.data().as_ffi()).collect()
}

} // verus!
