//! The persistent hash map of the `im` crate, holding narrow-waist packets
//! under integer keys.

use crate::packets::NarrowWaistPacket;
use vstd::prelude::*;

verus! {

/// `im::HashMap`, as an opaque type.
#[verifier::external_type_specification]
#[verifier::external_body]
#[verifier::reject_recursive_types(K)]
#[verifier::reject_recursive_types(V)]
#[verifier::reject_recursive_types(S)]
pub struct ExImHashMap<K, V, S>(im::HashMap<K, V, S>);

/// The key of a map of packets: three 64-bit words.
pub type PacketKey = (u64, u64, u64);

/// What a map of packets holds.
pub uninterp spec fn packet_map_contents(
    map: im::HashMap<PacketKey, NarrowWaistPacket>,
) -> Map<PacketKey, NarrowWaistPacket>;

/// Calls `im::HashMap::new`: a map that holds nothing.
#[verifier::external_body]
pub(crate) fn packet_map_new() -> (fresh: im::HashMap<PacketKey, NarrowWaistPacket>)
    ensures
        forall|key: PacketKey| !packet_map_contents(fresh).contains_key(key),
{
    im::HashMap::new()
}

/// Calls `im::HashMap::get` and copies the value out: the value held under
/// `key`, or `None` when the map holds none there.
#[verifier::external_body]
pub(crate) fn packet_map_get(
    map: &im::HashMap<PacketKey, NarrowWaistPacket>,
    key: &PacketKey,
) -> (value: Option<NarrowWaistPacket>)
    ensures
        value == if packet_map_contents(*map).contains_key(*key) {
            Some(packet_map_contents(*map)[*key])
        } else {
            None
        },
{
    map.get(key).copied()
}

/// Calls `im::HashMap::insert`: afterwards the map holds `value` under
/// `key`, in place of what it held there, and everything else as before.
#[verifier::external_body]
pub(crate) fn packet_map_insert(
    map: &mut im::HashMap<PacketKey, NarrowWaistPacket>,
    key: PacketKey,
    value: NarrowWaistPacket,
)
    ensures
        packet_map_contents(*final(map)) == packet_map_contents(*old(map)).insert(key, value),
{
    map.insert(key, value);
}

/// Calls `im::HashMap::remove`: afterwards the map holds nothing under
/// `key`, and everything else as before.
#[verifier::external_body]
pub(crate) fn packet_map_remove(
    map: &mut im::HashMap<PacketKey, NarrowWaistPacket>,
    key: &PacketKey,
)
    ensures
        packet_map_contents(*final(map)) == packet_map_contents(*old(map)).remove(*key),
{
    map.remove(key);
}

/// Calls `im::HashMap::is_empty`: whether the map holds nothing.
#[verifier::external_body]
pub(crate) fn packet_map_is_empty(map: &im::HashMap<PacketKey, NarrowWaistPacket>) -> (empty:
    bool)
    ensures
        empty == (forall|key: PacketKey| !packet_map_contents(*map).contains_key(key)),
{
    map.is_empty()
}

} // verus!
