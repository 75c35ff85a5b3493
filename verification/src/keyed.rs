//! Sequences of entries keyed by a challenge id, with at most one entry per key:
//! the arena's maps, held in the order in which their keys first appeared.
use vstd::prelude::*;

verus! {

/// Entries keyed by a challenge id.
pub type Keyed<V> = Seq<(Seq<char>, V)>;

/// Some entry of `entries` has key `id`.
pub open spec fn has_key<V>(entries: Keyed<V>, id: Seq<char>) -> bool {
    exists|i: int| 0 <= i < entries.len() && (#[trigger] entries[i]).0 == id
}

/// The position of the entry with key `id` (meaningful when there is one).
pub open spec fn key_index<V>(entries: Keyed<V>, id: Seq<char>) -> int {
    choose|i: int| 0 <= i < entries.len() && (#[trigger] entries[i]).0 == id
}

/// The value stored under `id`, if any.
pub open spec fn lookup<V>(entries: Keyed<V>, id: Seq<char>) -> Option<V> {
    if has_key(entries, id) {
        Some(entries[key_index(entries, id)].1)
    } else {
        None
    }
}

/// The sequence stored under `id`, or the empty sequence.
pub open spec fn lookup_or_empty<V>(entries: Keyed<Seq<V>>, id: Seq<char>) -> Seq<V> {
    if has_key(entries, id) {
        entries[key_index(entries, id)].1
    } else {
        Seq::empty()
    }
}

/// `entries` with the value under `id` set to `v`: the entry is replaced where
/// it stands, or added at the end.
pub open spec fn upsert<V>(entries: Keyed<V>, id: Seq<char>, v: V) -> Keyed<V> {
    if has_key(entries, id) {
        entries.update(key_index(entries, id), (id, v))
    } else {
        entries.push((id, v))
    }
}

/// No two entries share a key.
pub open spec fn distinct_keys<V>(entries: Keyed<V>) -> bool {
    forall|i: int, j: int|
        0 <= i < j < entries.len() ==> (#[trigger] entries[i]).0 != (#[trigger] entries[j]).0
}

/// With distinct keys, the entry found at `i` is the one that `lookup` names.
pub proof fn lemma_key_at<V>(entries: Keyed<V>, i: int)
    requires
        distinct_keys(entries),
        0 <= i < entries.len(),
    ensures
        has_key(entries, entries[i].0),
        key_index(entries, entries[i].0) == i,
        lookup(entries, entries[i].0) == Some(entries[i].1),
{
    assert(has_key(entries, entries[i].0));
    let k = key_index(entries, entries[i].0);
    if k != i {
        if k < i {
            assert(entries[k].0 != entries[i].0);
        } else {
            assert(entries[i].0 != entries[k].0);
        }
    }
}

/// Setting the value under `id` keeps keys distinct, gives `v` back under
/// `id`, and leaves every other key as it was.
pub proof fn lemma_upsert<V>(e: Keyed<V>, id: Seq<char>, v: V)
    requires
        distinct_keys(e),
    ensures
        distinct_keys(upsert(e, id, v)),
        forall|k: Seq<char>| #[trigger]
            lookup(upsert(e, id, v), k) == (if k == id {
                Some(v)
            } else {
                lookup(e, k)
            }),
        forall|k: Seq<char>| #[trigger] has_key(upsert(e, id, v), k) <==> (has_key(e, k) || k == id),
{
    let u = upsert(e, id, v);
    if has_key(e, id) {
        let i = key_index(e, id);
        assert forall|x: int| 0 <= x < u.len() implies (#[trigger] u[x]).0 == e[x].0 by {}
        assert(u[i].0 == id);
    } else {
        assert forall|x: int| 0 <= x < e.len() implies (#[trigger] u[x]) == e[x] by {}
        assert(u[e.len() as int].0 == id);
        assert forall|a: int, b: int| 0 <= a < b < u.len() implies (#[trigger] u[a]).0 != (#[trigger] u[b]).0 by {
            if b == e.len() {
                assert(e[a].0 != id);
            }
        }
    }
    assert forall|k: Seq<char>| has_key(u, k) <==> (has_key(e, k) || k == id) by {
        if has_key(e, k) {
            let j = choose|j: int| 0 <= j < e.len() && (#[trigger] e[j]).0 == k;
            assert(u[j].0 == k);
        }
        if has_key(u, k) && k != id {
            let j = choose|j: int| 0 <= j < u.len() && (#[trigger] u[j]).0 == k;
            assert(e[j].0 == k);
        }
    }
    assert forall|k: Seq<char>| #[trigger]
        lookup(u, k) == (if k == id {
            Some(v)
        } else {
            lookup(e, k)
        }) by {
        if has_key(u, k) {
            let j = choose|j: int| 0 <= j < u.len() && (#[trigger] u[j]).0 == k;
            lemma_key_at(u, j);
            if k != id {
                assert(e[j] == u[j]);
                lemma_key_at(e, j);
            } else {
                if has_key(e, id) {
                    lemma_key_at(e, key_index(e, id));
                }
            }
        }
    }
}

/// Setting a key twice keeps only the second value.
pub proof fn lemma_upsert_twice<V>(e: Keyed<V>, id: Seq<char>, x: V, y: V)
    requires
        distinct_keys(e),
    ensures
        upsert(upsert(e, id, x), id, y) == upsert(e, id, y),
{
    let u = upsert(e, id, x);
    lemma_upsert(e, id, x);
    if has_key(e, id) {
        let i = key_index(e, id);
        assert(u[i].0 == id);
        lemma_key_at(u, i);
        assert(upsert(u, id, y) =~= upsert(e, id, y));
    } else {
        assert(u[e.len() as int].0 == id);
        lemma_key_at(u, e.len() as int);
        assert(upsert(u, id, y) =~= upsert(e, id, y));
    }
}

} // verus!
