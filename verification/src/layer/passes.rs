//! What each pass of an update does to the keys and the tiles of the cache.

use vstd::prelude::*;
use crate::geometry::Rect;
use crate::layer::displayed::{DisplayedTile, Entry, TileKey};
use crate::layer::entries::{
    distinct_keys,
    lemma_found_at,
    lemma_put,
    lemma_remove_key,
    lemma_value_is_entry,
};
use crate::layer::ordered::{has_key, keys_of, position_of, remove_key, value_of};
use crate::layer::rebuild::{installed, moved, substituted, touches, touching, touching_keys};
use crate::tile_schema::schema::TileSchema;

verus! {

/// No key is on both sides.
pub open spec fn disjoint(first: Seq<Entry>, second: Seq<Entry>) -> bool {
    forall|key: TileKey| !(#[trigger] has_key(first, key) && has_key(second, key))
}

/// Whether the key is one of the first `n` keys.
pub open spec fn among(keys: Seq<TileKey>, n: nat, key: TileKey) -> bool {
    exists|t: int| 0 <= t < n && #[trigger] keys[t] == key
}

/// Whether one of the first `n` regions touches the tile stored under the key.
pub open spec fn claimed(schema: TileSchema, regions: Seq<Rect>, n: nat, key: TileKey) -> bool {
    exists|j: int| 0 <= j < n && touches(schema, key, #[trigger] regions[j])
}

/// Whether one of the first `n` wanted tiles has the key.
pub open spec fn wanted_among(wanted: Seq<DisplayedTile>, n: nat, key: TileKey) -> bool {
    exists|i: int| 0 <= i < n && (#[trigger] wanted[i]).key() == key
}

/// The wanted tiles as cache entries, each under its own key.
pub open spec fn as_entries(wanted: Seq<DisplayedTile>, n: nat) -> Seq<Entry> {
    Seq::new(n, |i: int| (wanted[i].key(), wanted[i]))
}

/// The keys that touch a region are the keys of the entries that touch it.
pub proof fn lemma_touching_keys(schema: TileSchema, entries: Seq<Entry>, region: Rect)
    ensures
        forall|key: TileKey|
            #![trigger touching_keys(schema, entries, region).contains(key)]
            touching_keys(schema, entries, region).contains(key) <==> (has_key(entries, key)
                && touches(schema, key, region)),
{
    let keys = keys_of(entries);
    let pred = touching(schema, region);
    let picked = touching_keys(schema, entries, region);
    assert forall|key: TileKey| #![trigger picked.contains(key)] picked.contains(key) <==> (
    has_key(entries, key) && touches(schema, key, region)) by {
        if picked.contains(key) {
            keys.lemma_filter_contains_rev(pred, key);
            let i = choose|i: int| 0 <= i < keys.len() && keys[i] == key;
            assert(entries[i].0 == key);
        }
        if has_key(entries, key) && touches(schema, key, region) {
            let i = position_of(entries, key);
            assert(keys[i] == key);
            assert(pred(keys[i]));
            keys.lemma_filter_contains(pred, i);
        }
    }
}

/// Moving keys takes exactly the listed keys from the remaining entries to the
/// kept ones, each with its tile.
pub proof fn lemma_moved(kept: Seq<Entry>, remaining: Seq<Entry>, keys: Seq<TileKey>, n: nat)
    requires
        distinct_keys(kept),
        distinct_keys(remaining),
        disjoint(kept, remaining),
        n <= keys.len(),
    ensures
        distinct_keys(moved(kept, remaining, keys, n).0),
        distinct_keys(moved(kept, remaining, keys, n).1),
        disjoint(moved(kept, remaining, keys, n).0, moved(kept, remaining, keys, n).1),
        forall|key: TileKey|
            #![trigger has_key(moved(kept, remaining, keys, n).1, key)]
            has_key(moved(kept, remaining, keys, n).1, key) <==> (has_key(remaining, key)
                && !among(keys, n, key)),
        forall|key: TileKey|
            #![trigger has_key(moved(kept, remaining, keys, n).0, key)]
            has_key(moved(kept, remaining, keys, n).0, key) <==> (has_key(kept, key) || (has_key(
                remaining,
                key,
            ) && among(keys, n, key))),
        forall|key: TileKey|
            #![trigger value_of(moved(kept, remaining, keys, n).1, key)]
            has_key(moved(kept, remaining, keys, n).1, key) ==> value_of(
                moved(kept, remaining, keys, n).1,
                key,
            ) == value_of(remaining, key),
        forall|key: TileKey|
            #![trigger value_of(moved(kept, remaining, keys, n).0, key)]
            has_key(moved(kept, remaining, keys, n).0, key) ==> value_of(
                moved(kept, remaining, keys, n).0,
                key,
            ) == if has_key(kept, key) {
                value_of(kept, key)
            } else {
                value_of(remaining, key)
            },
    decreases n,
{
    if n > 0 {
        lemma_moved(kept, remaining, keys, (n - 1) as nat);
        let before = moved(kept, remaining, keys, (n - 1) as nat);
        let after = moved(kept, remaining, keys, n);
        let moving = keys[n - 1];
        assert forall|key: TileKey| among(keys, n, key) <==> (among(keys, (n - 1) as nat, key)
            || key == moving) by {
            if among(keys, n, key) {
                let t = choose|t: int| 0 <= t < n && #[trigger] keys[t] == key;
                if t < n - 1 {
                    assert(among(keys, (n - 1) as nat, key));
                }
            }
            if among(keys, (n - 1) as nat, key) {
                let t = choose|t: int| 0 <= t < n - 1 && #[trigger] keys[t] == key;
                assert(0 <= t < n && keys[t] == key);
            }
            if key == moving {
                assert(keys[n - 1] == key);
            }
        }
        match value_of(before.1, moving) {
            Some(tile) => {
                lemma_put(before.0, moving, tile);
                lemma_remove_key(before.1, moving);
                assert(has_key(before.1, moving));
                assert(!has_key(before.0, moving));
                assert(has_key(remaining, moving));
                assert(!has_key(kept, moving));
                assert forall|key: TileKey| !(#[trigger] has_key(after.0, key) && has_key(
                    after.1,
                    key,
                )) by {
                    if key != moving {
                        assert(has_key(after.0, key) == has_key(before.0, key));
                        assert(has_key(after.1, key) == has_key(before.1, key));
                    }
                }
                assert forall|key: TileKey| #![trigger has_key(after.1, key)] has_key(after.1, key)
                    <==> (has_key(remaining, key) && !among(keys, n, key)) by {
                    if key != moving {
                        assert(has_key(after.1, key) == has_key(before.1, key));
                    }
                }
                assert forall|key: TileKey| #![trigger has_key(after.0, key)] has_key(after.0, key)
                    <==> (has_key(kept, key) || (has_key(remaining, key) && among(keys, n, key))) by {
                    if key != moving {
                        assert(has_key(after.0, key) == has_key(before.0, key));
                    }
                }
                assert forall|key: TileKey| #![trigger value_of(after.1, key)] has_key(
                    after.1,
                    key,
                ) implies value_of(after.1, key) == value_of(remaining, key) by {
                    assert(key != moving);
                    assert(value_of(after.1, key) == value_of(before.1, key));
                    assert(has_key(before.1, key));
                }
                assert forall|key: TileKey| #![trigger value_of(after.0, key)] has_key(
                    after.0,
                    key,
                ) implies value_of(after.0, key) == if has_key(kept, key) {
                    value_of(kept, key)
                } else {
                    value_of(remaining, key)
                } by {
                    if key != moving {
                        assert(value_of(after.0, key) == value_of(before.0, key));
                        assert(has_key(before.0, key));
                    } else {
                        assert(value_of(before.1, moving) == value_of(remaining, moving));
                    }
                }
            },
            None => {
                assert(!has_key(before.1, moving));
            },
        }
    }
}

/// The regions claim exactly the remaining entries that one of them touches;
/// every entry keeps its tile.
pub proof fn lemma_substituted(
    remaining: Seq<Entry>,
    schema: TileSchema,
    regions: Seq<Rect>,
    n: nat,
)
    requires
        distinct_keys(remaining),
        n <= regions.len(),
    ensures
        distinct_keys(substituted(remaining, schema, regions, n).0),
        distinct_keys(substituted(remaining, schema, regions, n).1),
        disjoint(
            substituted(remaining, schema, regions, n).0,
            substituted(remaining, schema, regions, n).1,
        ),
        forall|key: TileKey|
            #![trigger has_key(substituted(remaining, schema, regions, n).0, key)]
            has_key(substituted(remaining, schema, regions, n).0, key) <==> (has_key(
                remaining,
                key,
            ) && claimed(schema, regions, n, key)),
        forall|key: TileKey|
            #![trigger has_key(substituted(remaining, schema, regions, n).1, key)]
            has_key(substituted(remaining, schema, regions, n).1, key) <==> (has_key(
                remaining,
                key,
            ) && !claimed(schema, regions, n, key)),
        forall|key: TileKey|
            #![trigger value_of(substituted(remaining, schema, regions, n).0, key)]
            has_key(substituted(remaining, schema, regions, n).0, key) ==> value_of(
                substituted(remaining, schema, regions, n).0,
                key,
            ) == value_of(remaining, key),
        forall|key: TileKey|
            #![trigger value_of(substituted(remaining, schema, regions, n).1, key)]
            has_key(substituted(remaining, schema, regions, n).1, key) ==> value_of(
                substituted(remaining, schema, regions, n).1,
                key,
            ) == value_of(remaining, key),
    decreases n,
{
    let now = substituted(remaining, schema, regions, n);
    if n == 0 {
        assert forall|key: TileKey| !has_key(now.0, key) by {
            if has_key(now.0, key) {
                let i = position_of(now.0, key);
                assert(0 <= i < now.0.len());
            }
        }
        assert forall|key: TileKey| !claimed(schema, regions, 0, key) by {}
    } else {
        lemma_substituted(remaining, schema, regions, (n - 1) as nat);
        let before = substituted(remaining, schema, regions, (n - 1) as nat);
        let region = regions[n - 1];
        let keys = touching_keys(schema, before.1, region);
        lemma_touching_keys(schema, before.1, region);
        lemma_moved(before.0, before.1, keys, keys.len());
        assert(now == moved(before.0, before.1, keys, keys.len()));
        assert forall|key: TileKey| among(keys, keys.len(), key) <==> keys.contains(key) by {
            if among(keys, keys.len(), key) {
                let t = choose|t: int| 0 <= t < keys.len() && #[trigger] keys[t] == key;
                assert(keys.contains(key));
            }
            if keys.contains(key) {
                let t = choose|t: int| 0 <= t < keys.len() && keys[t] == key;
                assert(0 <= t < keys.len() && keys[t] == key);
            }
        }
        assert forall|key: TileKey| claimed(schema, regions, n, key) <==> (claimed(
            schema,
            regions,
            (n - 1) as nat,
            key,
        ) || touches(schema, key, region)) by {
            if claimed(schema, regions, n, key) {
                let j = choose|j: int| 0 <= j < n && touches(schema, key, #[trigger] regions[j]);
                if j < n - 1 {
                    assert(claimed(schema, regions, (n - 1) as nat, key));
                }
            }
            if claimed(schema, regions, (n - 1) as nat, key) {
                let j = choose|j: int|
                    0 <= j < n - 1 && touches(schema, key, #[trigger] regions[j]);
                assert(0 <= j < n && touches(schema, key, regions[j]));
            }
            if touches(schema, key, region) {
                assert(touches(schema, key, regions[n - 1]));
            }
        }
        assert forall|key: TileKey| #![trigger has_key(now.0, key)] has_key(now.0, key) <==> (
        has_key(remaining, key) && claimed(schema, regions, n, key)) by {
            assert(keys.contains(key) <==> (has_key(before.1, key) && touches(
                schema,
                key,
                region,
            )));
            assert(has_key(before.0, key) <==> (has_key(remaining, key) && claimed(
                schema,
                regions,
                (n - 1) as nat,
                key,
            )));
            assert(has_key(before.1, key) <==> (has_key(remaining, key) && !claimed(
                schema,
                regions,
                (n - 1) as nat,
                key,
            )));
        }
        assert forall|key: TileKey| #![trigger has_key(now.1, key)] has_key(now.1, key) <==> (
        has_key(remaining, key) && !claimed(schema, regions, n, key)) by {
            assert(keys.contains(key) <==> (has_key(before.1, key) && touches(
                schema,
                key,
                region,
            )));
            assert(has_key(before.1, key) <==> (has_key(remaining, key) && !claimed(
                schema,
                regions,
                (n - 1) as nat,
                key,
            )));
        }
        assert forall|key: TileKey| #![trigger value_of(now.0, key)] has_key(
            now.0,
            key,
        ) implies value_of(now.0, key) == value_of(remaining, key) by {
            if has_key(before.0, key) {
                assert(value_of(before.0, key) == value_of(remaining, key));
            } else {
                assert(has_key(before.1, key));
                assert(value_of(before.1, key) == value_of(remaining, key));
            }
        }
        assert forall|key: TileKey| #![trigger value_of(now.1, key)] has_key(
            now.1,
            key,
        ) implies value_of(now.1, key) == value_of(remaining, key) by {
            assert(has_key(before.1, key));
            assert(value_of(before.1, key) == value_of(remaining, key));
        }
    }
}

/// Storing the wanted tiles adds exactly their keys. A key that several wanted
/// tiles share holds one of them; every other key keeps its tile.
pub proof fn lemma_installed(kept: Seq<Entry>, wanted: Seq<DisplayedTile>, n: nat)
    requires
        distinct_keys(kept),
        n <= wanted.len(),
    ensures
        distinct_keys(installed(kept, wanted, n)),
        forall|key: TileKey|
            #![trigger has_key(installed(kept, wanted, n), key)]
            has_key(installed(kept, wanted, n), key) <==> (has_key(kept, key) || wanted_among(
                wanted,
                n,
                key,
            )),
        forall|key: TileKey|
            #![trigger value_of(installed(kept, wanted, n), key)]
            has_key(installed(kept, wanted, n), key) && !wanted_among(wanted, n, key)
                ==> value_of(installed(kept, wanted, n), key) == value_of(kept, key),
        forall|key: TileKey|
            #![trigger value_of(installed(kept, wanted, n), key)]
            wanted_among(wanted, n, key) ==> exists|i: int|
                0 <= i < n && (#[trigger] wanted[i]).key() == key && value_of(
                    installed(kept, wanted, n),
                    key,
                ) == Some(wanted[i]),
    decreases n,
{
    let now = installed(kept, wanted, n);
    if n == 0 {
        assert forall|key: TileKey| !wanted_among(wanted, 0, key) by {}
    } else {
        lemma_installed(kept, wanted, (n - 1) as nat);
        let before = installed(kept, wanted, (n - 1) as nat);
        let tile = wanted[n - 1];
        lemma_put(before, tile.key(), tile);
        assert forall|key: TileKey| wanted_among(wanted, n, key) <==> (wanted_among(
            wanted,
            (n - 1) as nat,
            key,
        ) || tile.key() == key) by {
            if wanted_among(wanted, n, key) {
                let i = choose|i: int| 0 <= i < n && (#[trigger] wanted[i]).key() == key;
                if i < n - 1 {
                    assert(wanted_among(wanted, (n - 1) as nat, key));
                }
            }
            if wanted_among(wanted, (n - 1) as nat, key) {
                let i = choose|i: int| 0 <= i < n - 1 && (#[trigger] wanted[i]).key() == key;
                assert(0 <= i < n && wanted[i].key() == key);
            }
            if tile.key() == key {
                assert(wanted[n - 1].key() == key);
            }
        }
        assert forall|key: TileKey| #![trigger has_key(now, key)] has_key(now, key) <==> (
        has_key(kept, key) || wanted_among(wanted, n, key)) by {
            if key != tile.key() {
                assert(has_key(now, key) == has_key(before, key));
            }
        }
        assert forall|key: TileKey| #![trigger value_of(now, key)] has_key(now, key)
            && !wanted_among(wanted, n, key) implies value_of(now, key) == value_of(kept, key) by {
            assert(key != tile.key());
            assert(value_of(now, key) == value_of(before, key));
            assert(has_key(before, key));
        }
        assert forall|key: TileKey| #![trigger value_of(now, key)] wanted_among(
            wanted,
            n,
            key,
        ) implies exists|i: int|
            0 <= i < n && (#[trigger] wanted[i]).key() == key && value_of(now, key) == Some(
                wanted[i],
            ) by {
            if key == tile.key() {
                assert(wanted[n - 1].key() == key && value_of(now, key) == Some(wanted[n - 1]));
            } else {
                assert(value_of(now, key) == value_of(before, key));
                let i = choose|i: int|
                    0 <= i < n - 1 && (#[trigger] wanted[i]).key() == key && value_of(
                        before,
                        key,
                    ) == Some(wanted[i]);
                assert(0 <= i < n && wanted[i].key() == key && value_of(now, key) == Some(
                    wanted[i],
                ));
            }
        }
    }
}

/// Wanted tiles with keys of their own, none of them kept, are stored after
/// the kept entries in the order in which they are wanted.
pub proof fn lemma_installed_in_order(kept: Seq<Entry>, wanted: Seq<DisplayedTile>, n: nat)
    requires
        distinct_keys(kept),
        n <= wanted.len(),
        forall|i: int| 0 <= i < n ==> !has_key(kept, (#[trigger] wanted[i]).key()),
        forall|i: int, j: int|
            0 <= i < j < n ==> (#[trigger] wanted[i]).key() != (#[trigger] wanted[j]).key(),
    ensures
        installed(kept, wanted, n) == kept + as_entries(wanted, n),
    decreases n,
{
    if n == 0 {
        assert(kept + as_entries(wanted, 0) == kept);
    } else {
        lemma_installed_in_order(kept, wanted, (n - 1) as nat);
        lemma_installed(kept, wanted, (n - 1) as nat);
        let before = installed(kept, wanted, (n - 1) as nat);
        let tile = wanted[n - 1];
        assert(!has_key(before, tile.key())) by {
            if wanted_among(wanted, (n - 1) as nat, tile.key()) {
                let i = choose|i: int|
                    0 <= i < n - 1 && (#[trigger] wanted[i]).key() == tile.key();
                assert(wanted[i].key() != wanted[n - 1].key());
            }
        }
        lemma_put(before, tile.key(), tile);
        assert(installed(kept, wanted, n) == before.push((tile.key(), tile)));
        assert(before.push((tile.key(), tile)) == kept + as_entries(wanted, n));
    }
}

/// What a key finds among entries made of wanted tiles with keys of their own.
pub proof fn lemma_as_entries(wanted: Seq<DisplayedTile>, n: nat, i: int)
    requires
        n <= wanted.len(),
        0 <= i < n,
        forall|a: int, b: int|
            0 <= a < b < n ==> (#[trigger] wanted[a]).key() != (#[trigger] wanted[b]).key(),
    ensures
        distinct_keys(as_entries(wanted, n)),
        has_key(as_entries(wanted, n), wanted[i].key()),
        value_of(as_entries(wanted, n), wanted[i].key()) == Some(wanted[i]),
{
    let entries = as_entries(wanted, n);
    assert forall|a: int, b: int| 0 <= a < b < entries.len() implies (#[trigger] entries[a]).0 != (
    #[trigger] entries[b]).0 by {
        assert(wanted[a].key() != wanted[b].key());
    }
    assert(entries[i] == (wanted[i].key(), wanted[i]));
    lemma_found_at(entries, i);
    lemma_value_is_entry(entries, wanted[i].key());
}

/// Removing a key that the first part does not hold leaves the first part as
/// it is.
pub proof fn lemma_remove_key_from_tail(first: Seq<Entry>, second: Seq<Entry>, key: TileKey)
    requires
        distinct_keys(first + second),
        !has_key(first, key),
    ensures
        remove_key(first + second, key) == first + remove_key(second, key),
{
    let whole = first + second;
    if has_key(second, key) {
        let p = position_of(second, key);
        assert(whole[first.len() + p] == second[p]);
        lemma_found_at(whole, first.len() + p);
        assert(whole.remove(first.len() + p) =~= first + second.remove(p));
    } else {
        if has_key(whole, key) {
            let p = position_of(whole, key);
            if p < first.len() {
                assert(first[p].0 == key);
            } else {
                assert(second[p - first.len()].0 == key);
            }
        }
    }
}

/// Wanted tiles whose keys are not kept are stored behind the kept entries,
/// which stay as they are.
pub proof fn lemma_installed_behind(kept: Seq<Entry>, wanted: Seq<DisplayedTile>, n: nat)
    requires
        distinct_keys(kept),
        n <= wanted.len(),
        forall|i: int| 0 <= i < n ==> !has_key(kept, (#[trigger] wanted[i]).key()),
    ensures
        installed(kept, wanted, n) == kept + installed(Seq::empty(), wanted, n),
    decreases n,
{
    let empty = Seq::<Entry>::empty();
    if n == 0 {
        assert(kept + empty == kept);
    } else {
        lemma_installed_behind(kept, wanted, (n - 1) as nat);
        lemma_installed(kept, wanted, (n - 1) as nat);
        let tail = installed(empty, wanted, (n - 1) as nat);
        let tile = wanted[n - 1];
        lemma_remove_key_from_tail(kept, tail, tile.key());
        assert((kept + remove_key(tail, tile.key())).push((tile.key(), tile)) == kept + remove_key(
            tail,
            tile.key(),
        ).push((tile.key(), tile)));
    }
}

} // verus!
