//! The insertion-ordered hash map that holds the displayed tiles, and what the
//! cache relies on it to do.

use vstd::prelude::*;
use ordered_hash_map::OrderedHashMap;
use crate::layer::displayed::{DisplayedTile, Entry, TileKey};

verus! {

/// `ordered_hash_map::OrderedHashMap`: a hash map that hands its entries out in
/// the order of their insertion. Nothing inside it is visible here.
#[verifier::external_type_specification]
#[verifier::external_body]
#[verifier::reject_recursive_types(K)]
#[verifier::reject_recursive_types(V)]
#[verifier::reject_recursive_types(S)]
pub struct ExOrderedHashMap<K, V, S>(OrderedHashMap<K, V, S>);

/// `ordered_hash_map::ordered_map::DefaultHashBuilder`: the hasher that a map
/// made by `OrderedHashMap::new` uses.
#[verifier::external_type_specification]
#[verifier::external_body]
pub struct ExDefaultHashBuilder(ordered_hash_map::ordered_map::DefaultHashBuilder);

/// The entries of a map, oldest insertion first: the order in which the map
/// hands them out. In a map no two entries share a key.
pub uninterp spec fn map_entries(map: OrderedHashMap<TileKey, DisplayedTile>) -> Seq<Entry>;

/// Whether some entry has the key.
pub open spec fn has_key(entries: Seq<Entry>, key: TileKey) -> bool {
    exists|i: int| 0 <= i < entries.len() && (#[trigger] entries[i]).0 == key
}

/// Position of an entry with the key.
pub open spec fn position_of(entries: Seq<Entry>, key: TileKey) -> int {
    choose|i: int| 0 <= i < entries.len() && (#[trigger] entries[i]).0 == key
}

/// The tile stored under the key.
pub open spec fn value_of(entries: Seq<Entry>, key: TileKey) -> Option<DisplayedTile> {
    if has_key(entries, key) {
        Some(entries[position_of(entries, key)].1)
    } else {
        None
    }
}

/// The entries without the one stored under the key; the others keep their order.
pub open spec fn remove_key(entries: Seq<Entry>, key: TileKey) -> Seq<Entry> {
    if has_key(entries, key) {
        entries.remove(position_of(entries, key))
    } else {
        entries
    }
}

/// The entries after storing `tile` under `key`: an earlier entry with that
/// key is gone, and the new entry is the last one.
pub open spec fn put(entries: Seq<Entry>, key: TileKey, tile: DisplayedTile) -> Seq<Entry> {
    remove_key(entries, key).push((key, tile))
}

/// The keys of the entries, in their order.
pub open spec fn keys_of(entries: Seq<Entry>) -> Seq<TileKey> {
    Seq::new(entries.len(), |i: int| entries[i].0)
}

/// The tiles of the entries, in their order.
pub open spec fn tiles_of(entries: Seq<Entry>) -> Seq<DisplayedTile> {
    Seq::new(entries.len(), |i: int| entries[i].1)
}

/// `OrderedHashMap::new`: a map without entries.
#[verifier::external_body]
pub(crate) fn map_new() -> (map: OrderedHashMap<TileKey, DisplayedTile>)
    ensures
        map_entries(map) == Seq::<Entry>::empty(),
{
    OrderedHashMap::new()
}

/// `OrderedHashMap::len`: the number of entries.
#[verifier::external_body]
pub(crate) fn map_len(map: &OrderedHashMap<TileKey, DisplayedTile>) -> (len: usize)
    ensures
        len == map_entries(*map).len(),
{
    map.len()
}

/// `OrderedHashMap::remove`: takes the entry with the key out of the map and
/// returns its tile, or returns `None` and leaves the map as it is where no
/// entry has the key. The other entries keep their order.
#[verifier::external_body]
pub(crate) fn map_remove(map: &mut OrderedHashMap<TileKey, DisplayedTile>, key: &TileKey) -> (found:
    Option<DisplayedTile>)
    ensures
        found == value_of(map_entries(*old(map)), *key),
        map_entries(*final(map)) == remove_key(map_entries(*old(map)), *key),
{
    map.remove(key)
}

/// `OrderedHashMap::insert`: stores the tile under the key as the newest
/// entry. Where the key was present, its entry leaves its old place, and the
/// tile it held is returned.
#[verifier::external_body]
pub(crate) fn map_insert(
    map: &mut OrderedHashMap<TileKey, DisplayedTile>,
    key: TileKey,
    tile: DisplayedTile,
) -> (replaced: Option<DisplayedTile>)
    ensures
        replaced == value_of(map_entries(*old(map)), key),
        map_entries(*final(map)) == put(map_entries(*old(map)), key, tile),
{
    map.insert(key, tile)
}

/// `OrderedHashMap::keys`: the keys, oldest insertion first.
#[verifier::external_body]
pub(crate) fn map_keys(map: &OrderedHashMap<TileKey, DisplayedTile>) -> (keys: Vec<TileKey>)
    ensures
        keys@ == keys_of(map_entries(*map)),
{
    map.keys().copied().collect()
}

/// `OrderedHashMap::values`: the tiles, oldest insertion first.
#[verifier::external_body]
pub(crate) fn map_values(map: &OrderedHashMap<TileKey, DisplayedTile>) -> (tiles: Vec<
    DisplayedTile,
>)
    ensures
        tiles@ == tiles_of(map_entries(*map)),
{
    map.values().copied().collect()
}

} // verus!
