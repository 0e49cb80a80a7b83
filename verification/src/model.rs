//! The contents of a store as mathematics: a sequence of entries, each a key
//! with its value, in which no key occurs twice.

use vstd::prelude::*;
use crate::value::Scalar;

verus! {

/// Where the first entry with `key` stands; the number of entries where
/// there is none.
pub open spec fn key_index(entries: Seq<(Seq<char>, Scalar)>, key: Seq<char>) -> int
    decreases entries.len(),
{
    if entries.len() == 0 {
        0
    } else if entries[0].0 == key {
        0
    } else {
        1 + key_index(entries.drop_first(), key)
    }
}

/// Some entry has `key`.
pub open spec fn has_key(entries: Seq<(Seq<char>, Scalar)>, key: Seq<char>) -> bool {
    key_index(entries, key) < entries.len()
}

/// No two entries share a key.
pub open spec fn distinct_keys(entries: Seq<(Seq<char>, Scalar)>) -> bool {
    forall|i: int, j: int|
        0 <= i < j < entries.len() ==> (#[trigger] entries[i]).0 != (#[trigger] entries[j]).0
}

/// The entries after `key` is bound to `value`: the entry with that key is
/// replaced where it stands, and a new key goes to the end.
pub open spec fn put(entries: Seq<(Seq<char>, Scalar)>, key: Seq<char>, value: Scalar) -> Seq<
    (Seq<char>, Scalar),
> {
    if has_key(entries, key) {
        entries.update(key_index(entries, key), (key, value))
    } else {
        entries.push((key, value))
    }
}

/// The entries without the one that has `key`; all of them where none has.
pub open spec fn take_out(entries: Seq<(Seq<char>, Scalar)>, key: Seq<char>) -> Seq<
    (Seq<char>, Scalar),
> {
    if has_key(entries, key) {
        entries.remove(key_index(entries, key))
    } else {
        entries
    }
}

/// The mapping that the entries stand for: each key to the value of the
/// first entry that has it.
pub open spec fn to_map(entries: Seq<(Seq<char>, Scalar)>) -> Map<Seq<char>, Scalar> {
    Map::new(
        |key: Seq<char>| has_key(entries, key),
        |key: Seq<char>| entries[key_index(entries, key)].1,
    )
}

/// `key_index` is the least index of an entry with the key.
pub proof fn lemma_key_index(entries: Seq<(Seq<char>, Scalar)>, key: Seq<char>)
    ensures
        0 <= key_index(entries, key) <= entries.len(),
        has_key(entries, key) ==> entries[key_index(entries, key)].0 == key,
        forall|j: int| 0 <= j < key_index(entries, key) ==> (#[trigger] entries[j]).0 != key,
    decreases entries.len(),
{
    if entries.len() > 0 && entries[0].0 != key {
        let rest = entries.drop_first();
        lemma_key_index(rest, key);
        assert forall|j: int| 0 <= j < key_index(entries, key) implies (#[trigger] entries[j]).0
            != key by {
            if j > 0 {
                assert(entries[j] == rest[j - 1]);
            }
        }
    }
}

/// An index with the key, before which no entry has it, is the `key_index`.
pub proof fn lemma_key_index_is(entries: Seq<(Seq<char>, Scalar)>, key: Seq<char>, at: int)
    requires
        0 <= at <= entries.len(),
        at < entries.len() ==> entries[at].0 == key,
        forall|j: int| 0 <= j < at ==> (#[trigger] entries[j]).0 != key,
    ensures
        key_index(entries, key) == at,
{
    lemma_key_index(entries, key);
    let found = key_index(entries, key);
    if found < at {
        assert(entries[found].0 != key);
    }
}

/// Binding a key keeps the keys distinct and binds it in the mapping.
pub proof fn lemma_put(entries: Seq<(Seq<char>, Scalar)>, key: Seq<char>, value: Scalar)
    ensures
        distinct_keys(entries) ==> distinct_keys(put(entries, key, value)),
        to_map(put(entries, key, value)) == to_map(entries).insert(key, value),
        key_index(put(entries, key, value), key) == key_index(entries, key),
{
    let after = put(entries, key, value);
    let at = key_index(entries, key);
    lemma_key_index(entries, key);
    lemma_key_index_is(after, key, at);
    assert forall|other: Seq<char>| other != key implies {
        &&& has_key(after, other) == has_key(entries, other)
        &&& has_key(entries, other) ==> after[key_index(after, other)] == entries[key_index(
            entries,
            other,
        )]
    } by {
        lemma_key_index(entries, other);
        let found = key_index(entries, other);
        assert forall|j: int| 0 <= j < after.len() && j < found implies (#[trigger] after[j]).0
            != other by {
            if j < entries.len() {
                assert(entries[j].0 != other);
            }
        }
        if found < entries.len() {
            assert(after[found] == entries[found]);
            lemma_key_index_is(after, other, found);
        } else {
            lemma_key_index_is(after, other, after.len() as int);
        }
    }
    assert(to_map(after) =~= to_map(entries).insert(key, value));
    if distinct_keys(entries) {
        assert forall|i: int, j: int| 0 <= i < j < after.len() implies (#[trigger] after[i]).0 != (
        #[trigger] after[j]).0 by {
            if i < entries.len() && j < entries.len() {
                assert(entries[i].0 != entries[j].0);
            }
        }
    }
}

/// Taking a key out of distinct keys keeps them distinct and removes the
/// key from the mapping.
pub proof fn lemma_take_out(entries: Seq<(Seq<char>, Scalar)>, key: Seq<char>)
    requires
        distinct_keys(entries),
    ensures
        distinct_keys(take_out(entries, key)),
        to_map(take_out(entries, key)) == to_map(entries).remove(key),
        !has_key(take_out(entries, key), key),
{
    let after = take_out(entries, key);
    let at = key_index(entries, key);
    lemma_key_index(entries, key);
    if has_key(entries, key) {
        assert forall|j: int| 0 <= j < after.len() implies (#[trigger] after[j]).0 != key by {
            if j < at {
                assert(entries[j].0 != key);
            } else {
                assert(entries[at].0 != entries[j + 1].0);
            }
        }
        lemma_key_index_is(after, key, after.len() as int);
        assert forall|i: int, j: int| 0 <= i < j < after.len() implies (#[trigger] after[i]).0 != (
        #[trigger] after[j]).0 by {
            let from_i = if i < at {
                i
            } else {
                i + 1
            };
            let from_j = if j < at {
                j
            } else {
                j + 1
            };
            assert(entries[from_i].0 != entries[from_j].0);
        }
        assert forall|other: Seq<char>| other != key implies {
            &&& has_key(after, other) == has_key(entries, other)
            &&& has_key(entries, other) ==> after[key_index(after, other)] == entries[key_index(
                entries,
                other,
            )]
        } by {
            lemma_key_index(entries, other);
            let found = key_index(entries, other);
            let moved = if found < at {
                found
            } else {
                found - 1
            };
            assert forall|j: int| 0 <= j < moved implies (#[trigger] after[j]).0 != other by {
                if j < at {
                    assert(entries[j].0 != other);
                } else {
                    assert(entries[j + 1].0 != other);
                }
            }
            lemma_key_index_is(after, other, moved);
        }
    }
    assert(to_map(after) =~= to_map(entries).remove(key));
}

/// Distinct keys make a finite mapping with one key for each entry.
pub proof fn lemma_to_map_len(entries: Seq<(Seq<char>, Scalar)>)
    requires
        distinct_keys(entries),
    ensures
        to_map(entries).dom().finite(),
        to_map(entries).len() == entries.len(),
    decreases entries.len(),
{
    if entries.len() == 0 {
        assert(to_map(entries) =~= Map::empty());
    } else {
        let front = entries.drop_last();
        let last = entries.last();
        assert forall|i: int, j: int| 0 <= i < j < front.len() implies (#[trigger] front[i]).0 != (
        #[trigger] front[j]).0 by {
            assert(entries[i].0 != entries[j].0);
        }
        lemma_to_map_len(front);
        assert forall|j: int| 0 <= j < front.len() implies (#[trigger] front[j]).0 != last.0 by {
            assert(entries[j].0 != entries[entries.len() - 1].0);
        }
        lemma_key_index_is(front, last.0, front.len() as int);
        assert(put(front, last.0, last.1) == entries);
        lemma_put(front, last.0, last.1);
        assert(to_map(entries).dom() =~= to_map(front).dom().insert(last.0));
    }
}

} // verus!
