//! Ordered entries with a key each: the mathematics of the cache and of the lock queue.

use vstd::prelude::*;

verus! {

/// Entry `i` is there and has this key.
pub open spec fn is_at<K, V>(entries: Seq<(K, V)>, i: int, key: K) -> bool {
    0 <= i < entries.len() && entries[i].0 == key
}

/// There is an entry with this key.
pub open spec fn holds_key<K, V>(entries: Seq<(K, V)>, key: K) -> bool {
    exists|i: int| is_at(entries, i, key)
}

/// Where the entry with this key stands.
pub open spec fn position<K, V>(entries: Seq<(K, V)>, key: K) -> int {
    choose|i: int| is_at(entries, i, key)
}

/// The value of the entry with this key.
pub open spec fn found<K, V>(entries: Seq<(K, V)>, key: K) -> Option<V> {
    if holds_key(entries, key) {
        Some(entries[position(entries, key)].1)
    } else {
        None
    }
}

/// The entries but for the one with this key; the others keep their order.
pub open spec fn without<K, V>(entries: Seq<(K, V)>, key: K) -> Seq<(K, V)> {
    if holds_key(entries, key) {
        entries.remove(position(entries, key))
    } else {
        entries
    }
}

/// The entries with the one of this key moved to the end; the others keep their order.
pub open spec fn refreshed<K, V>(entries: Seq<(K, V)>, key: K) -> Seq<(K, V)> {
    match found(entries, key) {
        Some(value) => without(entries, key).push((key, value)),
        None => entries,
    }
}

/// The entries with this key and value at the end, in the place of an earlier entry with that
/// key; where they are then more than `limit`, the first one goes.
pub open spec fn inserted<K, V>(entries: Seq<(K, V)>, limit: nat, key: K, value: V) -> Seq<
    (K, V),
> {
    let all = without(entries, key).push((key, value));
    if all.len() > limit {
        all.drop_first()
    } else {
        all
    }
}

/// No two entries have the same key.
pub open spec fn keys_distinct<K, V>(entries: Seq<(K, V)>) -> bool {
    forall|i: int, j: int|
        0 <= i < j < entries.len() ==> (#[trigger] entries[i]).0 != (#[trigger] entries[j]).0
}

/// Where keys are distinct, an entry is found by its key.
pub proof fn lemma_found_at<K, V>(entries: Seq<(K, V)>, i: int)
    requires
        keys_distinct(entries),
        0 <= i < entries.len(),
    ensures
        holds_key(entries, entries[i].0),
        position(entries, entries[i].0) == i,
        found(entries, entries[i].0) == Some(entries[i].1),
{
    let key = entries[i].0;
    assert(is_at(entries, i, key));
    let p = position(entries, key);
    assert(is_at(entries, p, key));
    if p < i {
        assert(entries[p].0 != entries[i].0);
    } else if i < p {
        assert(entries[i].0 != entries[p].0);
    }
}

/// Where a key is not held, no entry has it.
pub proof fn lemma_key_not_held<K, V>(entries: Seq<(K, V)>, key: K)
    requires
        !holds_key(entries, key),
    ensures
        forall|i: int| 0 <= i < entries.len() ==> (#[trigger] entries[i]).0 != key,
{
    assert forall|i: int| 0 <= i < entries.len() implies (#[trigger] entries[i]).0 != key by {
        assert(!is_at(entries, i, key));
    }
}

/// Two entry sequences with distinct keys that have the same entries of the key `other` find the
/// same value for it.
proof fn lemma_found_same<K, V>(a: Seq<(K, V)>, b: Seq<(K, V)>, other: K)
    requires
        keys_distinct(a),
        keys_distinct(b),
        forall|i: int| is_at(a, i, other) ==> exists|j: int| 0 <= j < b.len() && b[j] == a[i],
        forall|j: int| is_at(b, j, other) ==> exists|i: int| 0 <= i < a.len() && a[i] == b[j],
    ensures
        found(a, other) == found(b, other),
{
    if holds_key(a, other) {
        let i = position(a, other);
        assert(is_at(a, i, other));
        let j = choose|j: int| 0 <= j < b.len() && b[j] == a[i];
        lemma_found_at(a, i);
        lemma_found_at(b, j);
    } else if holds_key(b, other) {
        let j = position(b, other);
        assert(is_at(b, j, other));
        let i = choose|i: int| 0 <= i < a.len() && a[i] == b[j];
        lemma_found_at(a, i);
        assert(false);
    }
}

/// Taking an entry out leaves the others as they are.
pub proof fn lemma_without<K, V>(entries: Seq<(K, V)>, key: K)
    requires
        keys_distinct(entries),
    ensures
        keys_distinct(without(entries, key)),
        !holds_key(without(entries, key), key),
        without(entries, key).len() == if holds_key(entries, key) {
            entries.len() - 1
        } else {
            entries.len() as int
        },
        forall|other: K|
            other != key ==> #[trigger] found(without(entries, key), other) == found(
                entries,
                other,
            ),
{
    let rest = without(entries, key);
    if holds_key(entries, key) {
        let p = position(entries, key);
        assert(is_at(entries, p, key));
        entries.remove_ensures(p);
        let from = |i: int| if i < p { i } else { i + 1 };
        assert forall|i: int| 0 <= i < rest.len() implies rest[i] == entries[from(i)] by {}
        assert forall|i: int, j: int| 0 <= i < j < rest.len() implies (#[trigger] rest[i]).0 != (
        #[trigger] rest[j]).0 by {
            assert(entries[from(i)].0 != entries[from(j)].0);
        }
        if holds_key(rest, key) {
            let q = position(rest, key);
            assert(is_at(rest, q, key));
            if q < p {
                assert(entries[q].0 != entries[p].0);
            } else {
                assert(entries[p].0 != entries[q + 1].0);
            }
        }
        assert forall|other: K| other != key implies #[trigger] found(rest, other) == found(
            entries,
            other,
        ) by {
            assert forall|i: int| is_at(rest, i, other) implies exists|j: int|
                0 <= j < entries.len() && entries[j] == rest[i] by {
                assert(entries[from(i)] == rest[i]);
            }
            assert forall|j: int| is_at(entries, j, other) implies exists|i: int|
                0 <= i < rest.len() && rest[i] == entries[j] by {
                if j < p {
                    assert(rest[j] == entries[j]);
                } else {
                    assert(rest[j - 1] == entries[j]);
                }
            }
            lemma_found_same(rest, entries, other);
        }
    }
}

/// A new key at the end is found, and the others as before.
pub proof fn lemma_pushed<K, V>(entries: Seq<(K, V)>, key: K, value: V)
    requires
        keys_distinct(entries),
        !holds_key(entries, key),
    ensures
        keys_distinct(entries.push((key, value))),
        found(entries.push((key, value)), key) == Some(value),
        forall|other: K|
            other != key ==> #[trigger] found(entries.push((key, value)), other) == found(
                entries,
                other,
            ),
{
    let all = entries.push((key, value));
    assert forall|i: int, j: int| 0 <= i < j < all.len() implies (#[trigger] all[i]).0 != (
    #[trigger] all[j]).0 by {
        if j == entries.len() {
            if all[i].0 == key {
                assert(is_at(entries, i, key));
            }
        } else {
            assert(entries[i].0 != entries[j].0);
        }
    }
    lemma_found_at(all, entries.len() as int);
    assert forall|other: K| other != key implies #[trigger] found(all, other) == found(
        entries,
        other,
    ) by {
        assert forall|i: int| is_at(all, i, other) implies exists|j: int|
            0 <= j < entries.len() && entries[j] == all[i] by {
            assert(entries[i] == all[i]);
        }
        assert forall|j: int| is_at(entries, j, other) implies exists|i: int|
            0 <= i < all.len() && all[i] == entries[j] by {
            assert(all[j] == entries[j]);
        }
        lemma_found_same(all, entries, other);
    }
}

/// Without the first entry its key is not found, and the others as before.
proof fn lemma_first_dropped<K, V>(entries: Seq<(K, V)>)
    requires
        keys_distinct(entries),
        entries.len() > 0,
    ensures
        keys_distinct(entries.drop_first()),
        found(entries.drop_first(), entries[0].0) is None,
        forall|other: K|
            other != entries[0].0 ==> #[trigger] found(entries.drop_first(), other) == found(
                entries,
                other,
            ),
{
    let rest = entries.drop_first();
    assert forall|i: int, j: int| 0 <= i < j < rest.len() implies (#[trigger] rest[i]).0 != (
    #[trigger] rest[j]).0 by {
        assert(entries[i + 1].0 != entries[j + 1].0);
    }
    if holds_key(rest, entries[0].0) {
        let q = position(rest, entries[0].0);
        assert(is_at(rest, q, entries[0].0));
        assert(entries[0].0 != entries[q + 1].0);
    }
    assert forall|other: K| other != entries[0].0 implies #[trigger] found(rest, other) == found(
        entries,
        other,
    ) by {
        assert forall|i: int| is_at(rest, i, other) implies exists|j: int|
            0 <= j < entries.len() && entries[j] == rest[i] by {
            assert(entries[i + 1] == rest[i]);
        }
        assert forall|j: int| is_at(entries, j, other) implies exists|i: int|
            0 <= i < rest.len() && rest[i] == entries[j] by {
            assert(rest[j - 1] == entries[j]);
        }
        lemma_found_same(rest, entries, other);
    }
}

/// Moving an entry to the end changes the order and nothing else.
pub proof fn lemma_refreshed<K, V>(entries: Seq<(K, V)>, key: K)
    requires
        keys_distinct(entries),
    ensures
        keys_distinct(refreshed(entries, key)),
        refreshed(entries, key).len() == entries.len(),
        forall|any: K| #[trigger] found(refreshed(entries, key), any) == found(entries, any),
        found(entries, key) matches Some(value) ==> refreshed(entries, key).last() == (key, value),
{
    lemma_without(entries, key);
    if let Some(value) = found(entries, key) {
        lemma_pushed(without(entries, key), key, value);
        assert forall|any: K| #[trigger] found(refreshed(entries, key), any) == found(
            entries,
            any,
        ) by {
            if any != key {
                assert(found(without(entries, key), any) == found(entries, any));
            }
        }
    }
}

/// Inserting puts the entry at the end; only the first entry can go for it, and only where the
/// key is new and the limit is reached.
pub proof fn lemma_inserted<K, V>(entries: Seq<(K, V)>, limit: nat, key: K, value: V)
    requires
        keys_distinct(entries),
        entries.len() <= limit,
    ensures
        keys_distinct(inserted(entries, limit, key, value)),
        inserted(entries, limit, key, value).len() <= limit,
        limit > 0 ==> {
            &&& found(inserted(entries, limit, key, value), key) == Some(value)
            &&& inserted(entries, limit, key, value).last() == (key, value)
        },
        forall|other: K|
            other != key ==> #[trigger] found(inserted(entries, limit, key, value), other) == if 0
                < entries.len() == limit && !holds_key(entries, key) && entries[0].0 == other {
                None
            } else {
                found(entries, other)
            },
{
    lemma_without(entries, key);
    let rest = without(entries, key);
    lemma_pushed(rest, key, value);
    let all = rest.push((key, value));
    let result = inserted(entries, limit, key, value);
    if all.len() > limit {
        lemma_first_dropped(all);
        assert(rest == entries);
        assert(result == all.drop_first());
        if limit > 0 {
            assert(all[0] == entries[0]);
            lemma_found_at(entries, 0);
            assert(entries[0].0 != key);
            assert(found(all.drop_first(), key) == found(all, key));
        }
    }
    assert forall|other: K| other != key implies #[trigger] found(result, other) == if 0
        < entries.len() == limit && !holds_key(entries, key) && entries[0].0 == other {
        None
    } else {
        found(entries, other)
    } by {
        assert(found(all, other) == found(rest, other));
        assert(found(rest, other) == found(entries, other));
        if all.len() > limit {
            if other == all[0].0 {
                assert(found(result, other) is None);
            } else {
                assert(found(all.drop_first(), other) == found(all, other));
            }
        }
    }
}

/// The keys of the entries after the one with this key.
pub open spec fn keys_after<K, V>(entries: Seq<(K, V)>, key: K) -> Set<K> {
    Set::new(|k: K| exists|j: int| position(entries, key) < j && #[trigger] is_at(entries, j, k))
}

/// There are as many keys after an entry as there are entries.
pub proof fn lemma_keys_after_count<K, V>(entries: Seq<(K, V)>, key: K)
    requires
        keys_distinct(entries),
        holds_key(entries, key),
    ensures
        keys_after(entries, key).finite(),
        keys_after(entries, key).len() == entries.len() - 1 - position(entries, key),
{
    let p = position(entries, key);
    assert(is_at(entries, p, key));
    let later = Seq::new((entries.len() - 1 - p) as nat, |i: int| entries[p + 1 + i].0);
    assert forall|i: int, j: int|
        0 <= i < later.len() && 0 <= j < later.len() && i != j implies later[i] != later[j] by {
        if i < j {
            assert(entries[p + 1 + i].0 != entries[p + 1 + j].0);
        } else {
            assert(entries[p + 1 + j].0 != entries[p + 1 + i].0);
        }
    }
    later.unique_seq_to_set();
    vstd::seq_lib::seq_to_set_is_finite(later);
    assert forall|k: K| later.to_set().contains(k) == keys_after(entries, key).contains(k) by {
        if later.to_set().contains(k) {
            let i = choose|i: int| 0 <= i < later.len() && later[i] == k;
            assert(is_at(entries, p + 1 + i, k));
        }
        if keys_after(entries, key).contains(k) {
            let j = choose|j: int| p < j && #[trigger] is_at(entries, j, k);
            assert(later[j - p - 1] == k);
        }
    }
    assert(later.to_set() =~= keys_after(entries, key));
}

/// Taking out the entry of another key takes that key out.
proof fn lemma_keys_after_without<K, V>(entries: Seq<(K, V)>, key: K, used: K)
    requires
        keys_distinct(entries),
        holds_key(entries, key),
        used != key,
    ensures
        holds_key(without(entries, used), key),
        keys_after(without(entries, used), key) == keys_after(entries, key).remove(used),
{
    let p = position(entries, key);
    assert(is_at(entries, p, key));
    let rest = without(entries, used);
    lemma_without(entries, used);
    if holds_key(entries, used) {
        let q = position(entries, used);
        assert(is_at(entries, q, used));
        entries.remove_ensures(q);
        let p2 = if q < p { p - 1 } else { p };
        assert(rest[p2] == entries[p]);
        lemma_found_at(rest, p2);
        assert forall|k: K|
            keys_after(rest, key).contains(k) == keys_after(entries, key).remove(used).contains(
                k,
            ) by {
            if keys_after(rest, key).contains(k) {
                let j = choose|j: int| p2 < j && #[trigger] is_at(rest, j, k);
                if j < q {
                    assert(is_at(entries, j, k));
                } else {
                    assert(is_at(entries, j + 1, k));
                }
                if k == used {
                    assert(holds_key(rest, used));
                }
            }
            if keys_after(entries, key).remove(used).contains(k) {
                let j = choose|j: int| p < j && #[trigger] is_at(entries, j, k);
                if j < q {
                    assert(is_at(rest, j, k));
                } else {
                    assert(is_at(rest, j - 1, k));
                }
            }
        }
    } else {
        assert forall|k: K| #[trigger] keys_after(entries, key).contains(k) implies k != used by {
            let j = choose|j: int| p < j && #[trigger] is_at(entries, j, k);
            if k == used {
                assert(holds_key(entries, used));
            }
        }
    }
    assert(keys_after(rest, key) =~= keys_after(entries, key).remove(used));
}

/// A new entry at the end adds its key; after its own entry there is none.
proof fn lemma_keys_after_push<K, V>(entries: Seq<(K, V)>, key: K, used: K, value: V)
    requires
        keys_distinct(entries),
        !holds_key(entries, used),
        holds_key(entries, key) || used == key,
    ensures
        holds_key(entries.push((used, value)), key),
        keys_after(entries.push((used, value)), key) == if used == key {
            Set::empty()
        } else {
            keys_after(entries, key).insert(used)
        },
{
    let all = entries.push((used, value));
    let end = entries.len() as int;
    lemma_pushed(entries, used, value);
    if used == key {
        lemma_found_at(all, end);
        assert(keys_after(all, key) =~= Set::empty());
    } else {
        let p = position(entries, key);
        assert(is_at(entries, p, key));
        assert(all[p] == entries[p]);
        lemma_found_at(all, p);
        assert forall|k: K|
            keys_after(all, key).contains(k) == keys_after(entries, key).insert(used).contains(
                k,
            ) by {
            if keys_after(all, key).contains(k) {
                let j = choose|j: int| p < j && #[trigger] is_at(all, j, k);
                if j < end {
                    assert(is_at(entries, j, k));
                }
            }
            if keys_after(entries, key).contains(k) {
                let j = choose|j: int| p < j && #[trigger] is_at(entries, j, k);
                assert(is_at(all, j, k));
            }
            assert(is_at(all, end, used));
        }
        assert(keys_after(all, key) =~= keys_after(entries, key).insert(used));
    }
}

/// Moving an entry to the end puts its key behind the others; a key that is not there changes
/// nothing.
pub proof fn lemma_keys_after_refresh<K, V>(entries: Seq<(K, V)>, key: K, used: K)
    requires
        keys_distinct(entries),
        holds_key(entries, key),
    ensures
        holds_key(refreshed(entries, used), key),
        keys_after(refreshed(entries, used), key) == if used == key {
            Set::empty()
        } else if holds_key(entries, used) {
            keys_after(entries, key).insert(used)
        } else {
            keys_after(entries, key)
        },
{
    if let Some(value) = found(entries, used) {
        lemma_without(entries, used);
        if used != key {
            lemma_keys_after_without(entries, key, used);
        }
        lemma_keys_after_push(without(entries, used), key, used, value);
        assert(keys_after(entries, key).remove(used).insert(used) =~= keys_after(
            entries,
            key,
        ).insert(used));
    }
}

/// Inserting puts a key behind the others, and drops the entry of `key` only where as many other
/// keys as the limit came behind it.
pub proof fn lemma_keys_after_insert<K, V>(
    entries: Seq<(K, V)>,
    limit: nat,
    key: K,
    used: K,
    value: V,
)
    requires
        keys_distinct(entries),
        entries.len() <= limit,
        holds_key(entries, key),
        used != key,
    ensures
        holds_key(inserted(entries, limit, used, value), key) ==> keys_after(
            inserted(entries, limit, used, value),
            key,
        ) == keys_after(entries, key).insert(used),
        !holds_key(inserted(entries, limit, used, value), key) ==> {
            &&& keys_after(entries, key).insert(used).finite()
            &&& keys_after(entries, key).insert(used).len() >= limit
        },
{
    let rest = without(entries, used);
    lemma_without(entries, used);
    lemma_keys_after_without(entries, key, used);
    lemma_pushed(rest, used, value);
    lemma_keys_after_push(rest, key, used, value);
    let all = rest.push((used, value));
    assert(keys_after(entries, key).remove(used).insert(used) =~= keys_after(entries, key).insert(
        used,
    ));
    if all.len() > limit {
        let p = position(all, key);
        assert(is_at(all, p, key));
        lemma_keys_after_count(all, key);
        let result = all.drop_first();
        lemma_first_dropped(all);
        if p > 0 {
            assert(result[p - 1] == all[p]);
            lemma_found_at(result, p - 1);
            assert forall|k: K|
                keys_after(result, key).contains(k) == keys_after(all, key).contains(k) by {
                if keys_after(result, key).contains(k) {
                    let j = choose|j: int| p - 1 < j && #[trigger] is_at(result, j, k);
                    assert(is_at(all, j + 1, k));
                }
                if keys_after(all, key).contains(k) {
                    let j = choose|j: int| p < j && #[trigger] is_at(all, j, k);
                    assert(is_at(result, j - 1, k));
                }
            }
            assert(keys_after(result, key) =~= keys_after(all, key));
        } else {
            assert(all[0].0 == key);
            assert(found(all.drop_first(), key) is None);
        }
    }
}

} // verus!
