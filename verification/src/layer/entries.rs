//! Facts about sequences of cache entries: what removing and storing a key
//! does to the keys, the tiles and their order.

use vstd::prelude::*;
use crate::layer::displayed::{DisplayedTile, Entry, TileKey, OPACITY_FULL};
use crate::layer::ordered::{has_key, position_of, put, remove_key, value_of};

verus! {

/// No two entries share a key.
pub open spec fn distinct_keys(entries: Seq<Entry>) -> bool {
    forall|i: int, j: int|
        0 <= i < j < entries.len() ==> (#[trigger] entries[i]).0 != (#[trigger] entries[j]).0
}

/// Every entry is stored under the key of its tile.
pub open spec fn keyed(entries: Seq<Entry>) -> bool {
    forall|i: int| 0 <= i < entries.len() ==> (#[trigger] entries[i]).0 == entries[i].1.key()
}

/// No opacity exceeds full opacity.
pub open spec fn bounded(entries: Seq<Entry>) -> bool {
    forall|i: int| 0 <= i < entries.len() ==> (#[trigger] entries[i]).1.opacity <= OPACITY_FULL
}

/// What holds of the entries of every cache.
pub open spec fn well_formed(entries: Seq<Entry>) -> bool {
    distinct_keys(entries) && keyed(entries) && bounded(entries)
}

/// Every entry of `part` is an entry of `whole`.
pub open spec fn within(part: Seq<Entry>, whole: Seq<Entry>) -> bool {
    forall|i: int| 0 <= i < part.len() ==> whole.contains(#[trigger] part[i])
}

/// Among distinct keys, the entry at `i` is the one that its key finds.
pub proof fn lemma_found_at(entries: Seq<Entry>, i: int)
    requires
        distinct_keys(entries),
        0 <= i < entries.len(),
    ensures
        has_key(entries, entries[i].0),
        position_of(entries, entries[i].0) == i,
        value_of(entries, entries[i].0) == Some(entries[i].1),
        remove_key(entries, entries[i].0) == entries.remove(i),
{
    let key = entries[i].0;
    assert(has_key(entries, key));
    let p = position_of(entries, key);
    assert(0 <= p < entries.len() && entries[p].0 == key);
    if p < i {
        assert(entries[p].0 != entries[i].0);
    } else if i < p {
        assert(entries[i].0 != entries[p].0);
    }
}

/// An entry that the key finds is an entry of the sequence, stored under that key.
pub proof fn lemma_value_is_entry(entries: Seq<Entry>, key: TileKey)
    requires
        has_key(entries, key),
    ensures
        0 <= position_of(entries, key) < entries.len(),
        entries[position_of(entries, key)].0 == key,
        value_of(entries, key) == Some(entries[position_of(entries, key)].1),
        entries.contains((key, value_of(entries, key).unwrap())),
{
    let p = position_of(entries, key);
    assert(entries[p] == (key, entries[p].1));
}

/// Removing a key takes exactly that key away and leaves every other key with
/// its tile.
pub proof fn lemma_remove_key(entries: Seq<Entry>, key: TileKey)
    requires
        distinct_keys(entries),
    ensures
        distinct_keys(remove_key(entries, key)),
        !has_key(remove_key(entries, key), key),
        within(remove_key(entries, key), entries),
        forall|other: TileKey|
            other != key ==> (#[trigger] has_key(remove_key(entries, key), other) <==> has_key(
                entries,
                other,
            )),
        forall|other: TileKey|
            other != key ==> #[trigger] value_of(remove_key(entries, key), other) == value_of(
                entries,
                other,
            ),
        has_key(entries, key) ==> remove_key(entries, key).len() == entries.len() - 1,
        !has_key(entries, key) ==> remove_key(entries, key) == entries,
{
    let rest = remove_key(entries, key);
    if has_key(entries, key) {
        let p = position_of(entries, key);
        assert(rest == entries.remove(p));
        assert forall|a: int| 0 <= a < rest.len() implies #[trigger] rest[a] == entries[if a
            < p {
            a
        } else {
            a + 1
        }] by {}
        assert(distinct_keys(rest)) by {
            assert forall|i: int, j: int| 0 <= i < j < rest.len() implies (#[trigger] rest[i]).0
                != (#[trigger] rest[j]).0 by {
                let si = if i < p {
                    i
                } else {
                    i + 1
                };
                let sj = if j < p {
                    j
                } else {
                    j + 1
                };
                assert(entries[si].0 != entries[sj].0);
            }
        }
        assert(!has_key(rest, key)) by {
            if has_key(rest, key) {
                let a = position_of(rest, key);
                let sa = if a < p {
                    a
                } else {
                    a + 1
                };
                if sa < p {
                    assert(entries[sa].0 != entries[p].0);
                } else {
                    assert(entries[p].0 != entries[sa].0);
                }
            }
        }
        assert(within(rest, entries)) by {
            assert forall|a: int| 0 <= a < rest.len() implies entries.contains(
                #[trigger] rest[a],
            ) by {
                let sa = if a < p {
                    a
                } else {
                    a + 1
                };
                assert(entries[sa] == rest[a]);
            }
        }
        assert forall|other: TileKey| other != key implies (#[trigger] has_key(rest, other)
            <==> has_key(entries, other)) && value_of(rest, other) == value_of(entries, other) by {
            if has_key(rest, other) {
                let a = position_of(rest, other);
                let sa = if a < p {
                    a
                } else {
                    a + 1
                };
                assert(entries[sa].0 == other);
                lemma_found_at(entries, sa);
                lemma_found_at(rest, a);
            }
            if has_key(entries, other) {
                let s = position_of(entries, other);
                let a = if s < p {
                    s
                } else {
                    s - 1
                };
                assert(rest[a] == entries[s]);
                lemma_found_at(entries, s);
                lemma_found_at(rest, a);
            }
        }
    } else {
        assert(within(rest, entries)) by {
            assert forall|a: int| 0 <= a < rest.len() implies entries.contains(
                #[trigger] rest[a],
            ) by {
                assert(entries[a] == rest[a]);
            }
        }
    }
}

/// Storing a tile under a key makes it the last entry, and leaves every other
/// key with its tile.
pub proof fn lemma_put(entries: Seq<Entry>, key: TileKey, tile: DisplayedTile)
    requires
        distinct_keys(entries),
    ensures
        distinct_keys(put(entries, key, tile)),
        has_key(put(entries, key, tile), key),
        value_of(put(entries, key, tile), key) == Some(tile),
        put(entries, key, tile).last() == (key, tile),
        forall|other: TileKey|
            other != key ==> (#[trigger] has_key(put(entries, key, tile), other) <==> has_key(
                entries,
                other,
            )),
        forall|other: TileKey|
            other != key ==> #[trigger] value_of(put(entries, key, tile), other) == value_of(
                entries,
                other,
            ),
        !has_key(entries, key) ==> put(entries, key, tile) == entries.push((key, tile)),
        forall|i: int|
            0 <= i < put(entries, key, tile).len() ==> (#[trigger] put(entries, key, tile)[i] == (
                key,
                tile,
            ) || entries.contains(put(entries, key, tile)[i])),
{
    lemma_remove_key(entries, key);
    let rest = remove_key(entries, key);
    let stored = put(entries, key, tile);
    assert(stored == rest.push((key, tile)));
    let n = rest.len() as int;
    assert(stored[n] == (key, tile));
    assert(distinct_keys(stored)) by {
        assert forall|i: int, j: int| 0 <= i < j < stored.len() implies (#[trigger] stored[i]).0
            != (#[trigger] stored[j]).0 by {
            if j < n {
                assert(rest[i].0 != rest[j].0);
            } else {
                assert(rest[i].0 == stored[i].0);
                if rest[i].0 == key {
                    assert(has_key(rest, key));
                }
            }
        }
    }
    lemma_found_at(stored, n);
    assert forall|other: TileKey| other != key implies (#[trigger] has_key(stored, other)
        <==> has_key(entries, other)) && value_of(stored, other) == value_of(entries, other) by {
        if has_key(stored, other) {
            let a = position_of(stored, other);
            assert(a < n);
            assert(rest[a].0 == other);
            lemma_found_at(stored, a);
            lemma_found_at(rest, a);
        }
        if has_key(rest, other) {
            let a = position_of(rest, other);
            assert(stored[a] == rest[a]);
            lemma_found_at(stored, a);
            lemma_found_at(rest, a);
        }
    }
    assert forall|i: int| 0 <= i < stored.len() implies (#[trigger] stored[i] == (key, tile)
        || entries.contains(stored[i])) by {
        if i < n {
            assert(stored[i] == rest[i]);
            assert(entries.contains(rest[i]));
        }
    }
}

/// Removing a key keeps the entries well formed.
pub proof fn lemma_remove_key_well_formed(entries: Seq<Entry>, key: TileKey)
    requires
        well_formed(entries),
    ensures
        well_formed(remove_key(entries, key)),
{
    lemma_remove_key(entries, key);
    let rest = remove_key(entries, key);
    assert forall|i: int| 0 <= i < rest.len() implies (#[trigger] rest[i]).0 == rest[i].1.key()
        && rest[i].1.opacity <= OPACITY_FULL by {
        assert(entries.contains(rest[i]));
        let s = choose|s: int| 0 <= s < entries.len() && entries[s] == rest[i];
        assert(entries[s].0 == entries[s].1.key());
    }
}

/// Storing a tile under its own key keeps the entries well formed.
pub proof fn lemma_put_well_formed(entries: Seq<Entry>, tile: DisplayedTile)
    requires
        well_formed(entries),
        tile.opacity <= OPACITY_FULL,
    ensures
        well_formed(put(entries, tile.key(), tile)),
{
    lemma_put(entries, tile.key(), tile);
    let stored = put(entries, tile.key(), tile);
    assert forall|i: int| 0 <= i < stored.len() implies (#[trigger] stored[i]).0
        == stored[i].1.key() && stored[i].1.opacity <= OPACITY_FULL by {
        if stored[i] != (tile.key(), tile) {
            assert(entries.contains(stored[i]));
            let s = choose|s: int| 0 <= s < entries.len() && entries[s] == stored[i];
            assert(entries[s].0 == entries[s].1.key());
        }
    }
}

} // verus!
