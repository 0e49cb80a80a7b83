//! What holds of every store, whatever its contents.

use vstd::prelude::*;
use crate::codec::{
    encode_entries, lemma_load_encoded, lemma_load_fails, occurrences, parse_line, parse_text,
    plain_entry, split_lines,
};
use crate::model::{has_key, key_index, lemma_key_index, lemma_put, lemma_take_out, put, take_out};
use crate::store::KeyValueStore;
use crate::value::Scalar;

verus! {

/// Writing and reading back gives the same store. Where every key of a store
/// is free of `'='` and of line feeds, and every text value is free of them
/// too, does not end in a carriage return and spells neither a truth value
/// nor a number that fits `usize`, the text written for the store stands for
/// the entries of the store, in their order, and so for the same mapping.
pub proof fn law_round_trip(store: KeyValueStore)
    requires
        store.wf(),
        forall|i: int|
            0 <= i < store.entries().len() ==> plain_entry(
                (#[trigger] store.entries()[i]).0,
                store.entries()[i].1,
            ),
    ensures
        parse_text(encode_entries(store.entries())) == Some(store.entries()),
{
    let entries = store.entries();
    store.lemma_entries_representable();
    assert(Seq::<(Seq<char>, Scalar)>::empty() + entries == entries);
    lemma_load_encoded(Seq::empty(), entries);
}

/// Binding a key to a value a second time changes nothing: neither the
/// entries nor the mapping.
pub proof fn law_insert_twice(store: KeyValueStore, key: Seq<char>, value: Scalar)
    ensures
        put(put(store.entries(), key, value), key, value) == put(store.entries(), key, value),
        store@.insert(key, value).insert(key, value) == store@.insert(key, value),
{
    let entries = store.entries();
    let once = put(entries, key, value);
    lemma_key_index(entries, key);
    lemma_put(entries, key, value);
    assert(has_key(once, key));
    assert(once[key_index(once, key)] == (key, value));
    assert(put(once, key, value) =~= once);
    assert(store@.insert(key, value).insert(key, value) =~= store@.insert(key, value));
}

/// Unbinding a key that is not bound changes nothing, and unbinding a key a
/// second time changes nothing either.
pub proof fn law_remove_absent(store: KeyValueStore, key: Seq<char>)
    requires
        store.wf(),
    ensures
        !store@.contains_key(key) ==> take_out(store.entries(), key) == store.entries()
            && store@.remove(key) == store@,
        take_out(take_out(store.entries(), key), key) == take_out(store.entries(), key),
        store@.remove(key).remove(key) == store@.remove(key),
{
    lemma_take_out(store.entries(), key);
    if !store@.contains_key(key) {
        assert(store@.remove(key) =~= store@);
    }
    assert(store@.remove(key).remove(key) =~= store@.remove(key));
}

/// A store without entries holds no key, and the text written for it stands
/// for a store without entries again.
pub proof fn law_empty_reloads_empty(store: KeyValueStore)
    requires
        store.entries() == Seq::<(Seq<char>, Scalar)>::empty(),
    ensures
        store@ == Map::<Seq<char>, Scalar>::empty(),
        store@.len() == 0,
        parse_text(encode_entries(store.entries())) == Some(store.entries()),
{
    assert(store@ =~= Map::empty());
}

/// A text stands for no store exactly where one of its lines holds no
/// `'='`, or more than one.
pub proof fn law_malformed_line_rejected(text: Seq<char>)
    ensures
        parse_text(text) is None <==> exists|i: int|
            0 <= i < split_lines(text).len() && occurrences(
                #[trigger] split_lines(text)[i],
                '=',
            ) != 1,
{
    let lines = split_lines(text);
    lemma_load_fails(Seq::empty(), lines);
    if parse_text(text) is None {
        let i = choose|i: int| 0 <= i < lines.len() && parse_line(#[trigger] lines[i]) is None;
        assert(occurrences(lines[i], '=') != 1);
    }
    if exists|i: int| 0 <= i < lines.len() && occurrences(#[trigger] lines[i], '=') != 1 {
        let i = choose|i: int| 0 <= i < lines.len() && occurrences(#[trigger] lines[i], '=') != 1;
        assert(parse_line(lines[i]) is None);
    }
}

} // verus!
