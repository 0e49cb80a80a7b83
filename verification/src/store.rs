//! The store: keys bound to values, and the file path it is mirrored to.

use vstd::prelude::*;
use vstd::string::StringExecFns;
use crate::codec::{
    encode_entries, encode_entry, find, load_lines, parse_text, read_entry, split_lines,
    strip_cr,
};
use crate::model::{
    distinct_keys, key_index, lemma_key_index_is, lemma_put, lemma_take_out, lemma_to_map_len,
    put, take_out, to_map,
};
use crate::text::to_chars;
use crate::value::{KvEnum, Scalar};

verus! {

/// What `insert` reports.
#[derive(Debug, PartialEq, Eq, Structural)]
pub enum InsertResult {
    Inserted,
}

/// What `remove` reports, whether or not the key was bound.
#[derive(Debug, PartialEq, Eq, Structural)]
pub enum RemoveResult {
    Removed,
}

/// Why a store could not be built from a text.
#[derive(Debug, PartialEq, Eq, Structural)]
pub enum KvError {
    /// A line of the text does not hold exactly one `'='`.
    MalformedFileError,
}

/// Keys bound to values, held in memory, with the path of the file that
/// mirrors them.
#[derive(Debug)]
pub struct KeyValueStore {
    store: Vec<(String, KvEnum)>,
    file_path: String,
}

impl View for KeyValueStore {
    type V = Map<Seq<char>, Scalar>;

    open spec fn view(&self) -> Map<Seq<char>, Scalar> {
        to_map(self.entries())
    }
}

/// What a vector of keys and values stands for.
spec fn model_of(held: Seq<(String, KvEnum)>) -> Seq<(Seq<char>, Scalar)> {
    Seq::new(held.len(), |i: int| (held[i].0@, held[i].1@))
}

/// Where the entry with `key` stands in `held`; the number of entries where
/// there is none.
fn position(held: &Vec<(String, KvEnum)>, key: &String) -> (at: usize)
    ensures
        at == key_index(model_of(held@), key@),
        at <= held@.len(),
{
    let mut at: usize = 0;
    while at < held.len() && !(held[at].0 == *key)
        invariant
            at <= held@.len(),
            forall|j: int| 0 <= j < at ==> (#[trigger] model_of(held@)[j]).0 != key@,
        decreases held@.len() - at,
    {
        at = at + 1;
    }
    proof {
        lemma_key_index_is(model_of(held@), key@, at as int);
    }
    at
}

impl KeyValueStore {
    /// The entries of the store, in the order in which their keys were
    /// first bound.
    pub closed spec fn entries(&self) -> Seq<(Seq<char>, Scalar)> {
        model_of(self.store@)
    }

    /// The path of the file that mirrors the store.
    pub closed spec fn path(&self) -> Seq<char> {
        self.file_path@
    }

    /// No key is bound twice.
    #[verifier::type_invariant]
    pub open spec fn wf(&self) -> bool {
        distinct_keys(self.entries())
    }

    /// Every value of the store is one that a `KvEnum` can hold.
    pub proof fn lemma_entries_representable(&self)
        ensures
            forall|i: int|
                0 <= i < self.entries().len() ==> (#[trigger] self.entries()[i]).1.representable(),
    {
    }

    /// Builds the store that is mirrored to the file at `file_path`, from
    /// what that file holds: `None` where there is no such file, which gives
    /// an empty store. A text is read line by line, each line binding its
    /// key; one line without exactly one `'='` fails the whole text.
    pub fn new(file_path: &str, contents: Option<&str>) -> (made: Result<KeyValueStore, KvError>)
        ensures
            match contents {
                None => made matches Ok(store) && store.entries() == Seq::<
                    (Seq<char>, Scalar),
                >::empty() && store@ == Map::<Seq<char>, Scalar>::empty() && store.path()
                    == file_path@,
                Some(text) => match parse_text(text@) {
                    Some(entries) => made matches Ok(store) && store.entries() == entries
                        && store.path() == file_path@,
                    None => made == Err::<KeyValueStore, KvError>(KvError::MalformedFileError),
                },
            },
    {
        let mut store = KeyValueStore { store: Vec::new(), file_path: file_path.to_owned() };
        assert(store.entries() =~= Seq::empty());
        assert(store@ =~= Map::empty());
        let text = match contents {
            Some(text) => text,
            None => {
                return Ok(store);
            },
        };
        let chars = to_chars(text);
        let n: usize = chars.len();
        let mut from: usize = 0;
        assert(chars@.subrange(0, n as int) == text@);
        while from < n
            invariant
                from <= n == chars.len(),
                contents == Some(text),
                store.path() == file_path@,
                parse_text(text@) == load_lines(
                    store.entries(),
                    split_lines(chars@.subrange(from as int, n as int)),
                ),
            decreases n - from,
        {
            let ghost rest = chars@.subrange(from as int, n as int);
            let feed = find(&chars, from, n, '\n');
            let to: usize = if feed < n && from < feed && chars[feed - 1] == '\r' {
                feed - 1
            } else {
                feed
            };
            let next: usize = if feed < n {
                feed + 1
            } else {
                n
            };
            proof {
                let line = chars@.subrange(from as int, to as int);
                let later = chars@.subrange(next as int, n as int);
                if feed < n {
                    let whole = rest.subrange(0, feed - from);
                    assert(whole == chars@.subrange(from as int, feed as int));
                    assert(line == strip_cr(whole));
                    assert(rest.subrange(feed - from + 1, rest.len() as int) == later);
                } else {
                    assert(line == rest);
                    assert(split_lines(later) == Seq::<Seq<char>>::empty());
                }
                let lines = split_lines(rest);
                assert(lines == seq![line] + split_lines(later));
                assert(lines[0] == line);
                assert(lines.drop_first() == split_lines(later));
            }
            match read_entry(&chars, from, to) {
                Some((key, value)) => {
                    store.insert(key, value);
                },
                None => {
                    return Err(KvError::MalformedFileError);
                },
            }
            from = next;
        }
        assert(chars@.subrange(n as int, n as int).len() == 0);
        Ok(store)
    }

    /// Binds `key` to `value`, in place of the value it was bound to, if any.
    pub fn insert(&mut self, key: String, value: KvEnum) -> (done: InsertResult)
        ensures
            final(self).entries() == put(old(self).entries(), key@, value@),
            final(self)@ == old(self)@.insert(key@, value@),
            final(self).path() == old(self).path(),
            done == InsertResult::Inserted,
    {
        proof {
            use_type_invariant(&*self);
            lemma_put(self.entries(), key@, value@);
        }
        // The entries leave the store while they change: the store is
        // valid at every step.
        let mut held: Vec<(String, KvEnum)> = Vec::new();
        std::mem::swap(&mut held, &mut self.store);
        let at = position(&held, &key);
        if at < held.len() {
            held.set(at, (key, value));
        } else {
            held.push((key, value));
        }
        assert(model_of(held@) =~= put(old(self).entries(), key@, value@));
        self.store = held;
        InsertResult::Inserted
    }

    /// The value that `key` is bound to, if it is bound.
    pub fn get(&self, key: &str) -> (found: Option<KvEnum>)
        ensures
            match found {
                Some(value) => self@.contains_key(key@) && value@ == self@[key@],
                None => !self@.contains_key(key@),
            },
    {
        let key = key.to_owned();
        let at = position(&self.store, &key);
        if at < self.store.len() {
            Some(self.store[at].1.clone())
        } else {
            None
        }
    }

    /// Unbinds `key`. A key that is not bound leaves the store as it is.
    pub fn remove(&mut self, key: &str) -> (done: RemoveResult)
        ensures
            final(self).entries() == take_out(old(self).entries(), key@),
            final(self)@ == old(self)@.remove(key@),
            final(self).path() == old(self).path(),
            done == RemoveResult::Removed,
    {
        proof {
            use_type_invariant(&*self);
            lemma_take_out(self.entries(), key@);
        }
        let key = key.to_owned();
        let mut held: Vec<(String, KvEnum)> = Vec::new();
        std::mem::swap(&mut held, &mut self.store);
        let at = position(&held, &key);
        if at < held.len() {
            held.remove(at);
        }
        assert(model_of(held@) =~= take_out(old(self).entries(), key@));
        self.store = held;
        RemoveResult::Removed
    }

    /// The number of keys that are bound.
    pub fn len(&self) -> (n: usize)
        ensures
            n == self.entries().len(),
            n == self@.len(),
    {
        proof {
            use_type_invariant(self);
            lemma_to_map_len(self.entries());
        }
        self.store.len()
    }

    /// Whether no key is bound.
    pub fn is_empty(&self) -> (empty: bool)
        ensures
            empty == (self.entries().len() == 0),
            empty == (self@.len() == 0),
    {
        proof {
            use_type_invariant(self);
            lemma_to_map_len(self.entries());
        }
        self.store.len() == 0
    }

    /// Unbinds every key.
    pub fn clear(&mut self)
        ensures
            final(self).entries() == Seq::<(Seq<char>, Scalar)>::empty(),
            final(self)@ == Map::<Seq<char>, Scalar>::empty(),
            final(self).path() == old(self).path(),
    {
        self.store = Vec::new();
        assert(self.entries() =~= Seq::empty());
        assert(self@ =~= Map::empty());
    }

    /// The path of the file that mirrors the store.
    pub fn file_path(&self) -> (path: &str)
        ensures
            path@ == self.path(),
    {
        self.file_path.as_str()
    }

    /// Copies of the keys and values, entry by entry.
    pub fn list(&self) -> (listed: Vec<(String, KvEnum)>)
        ensures
            listed@.len() == self.entries().len(),
            forall|i: int|
                0 <= i < listed@.len() ==> (#[trigger] listed@[i]).0@ == self.entries()[i].0
                    && listed@[i].1@ == self.entries()[i].1,
    {
        let mut listed: Vec<(String, KvEnum)> = Vec::new();
        let mut i: usize = 0;
        while i < self.store.len()
            invariant
                i <= self.store@.len(),
                listed@.len() == i,
                forall|j: int|
                    0 <= j < i ==> (#[trigger] listed@[j]).0@ == self.entries()[j].0
                        && listed@[j].1@ == self.entries()[j].1,
            decreases self.store@.len() - i,
        {
            listed.push((self.store[i].0.clone(), self.store[i].1.clone()));
            i = i + 1;
        }
        listed
    }

    /// The text that mirrors the store: the line of each entry in turn. It
    /// is what the file at `file_path` is to hold after every change.
    pub fn encode(&self) -> (text: String)
        ensures
            text@ == encode_entries(self.entries()),
    {
        let ghost entries = self.entries();
        let mut text = String::new();
        let mut i: usize = 0;
        assert(entries.skip(0) == entries);
        while i < self.store.len()
            invariant
                i <= self.store@.len(),
                entries == self.entries(),
                text@ + encode_entries(entries.skip(i as int)) == encode_entries(entries),
            decreases self.store@.len() - i,
        {
            let ghost before = text@;
            let ghost later = entries.skip(i as int);
            assert(later[0] == entries[i as int]);
            assert(later.drop_first() == entries.skip(i + 1));
            text.append(self.store[i].0.as_str());
            text.push('=');
            self.store[i].1.push_text(&mut text);
            text.push('\n');
            assert(text@ =~= before + encode_entry(entries[i as int].0, entries[i as int].1));
            assert(text@ + encode_entries(entries.skip(i + 1)) =~= before + encode_entries(later));
            i = i + 1;
        }
        assert(entries.skip(i as int).len() == 0);
        assert(text@ + Seq::<char>::empty() =~= text@);
        text
    }
}

} // verus!
