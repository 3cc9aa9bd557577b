//! The dictionary of a Bencode value: an `indexmap::IndexMap` from keys to
//! values, which keeps its entries in the order of their insertion.

use crate::bencode::{BencodeDictValues, DictValueView};
use indexmap::IndexMap;
use vstd::prelude::*;

verus! {

/// A dictionary that remembers the order in which its keys came: an
/// `indexmap::IndexMap` from strings to dictionary values, of which only
/// what the functions below say is known here.
#[verifier::external_body]
#[derive(Debug, PartialEq, Eq)]
pub struct BencodeDict {
    map: IndexMap<String, BencodeDictValues>,
}

/// The entries of a dictionary, key and value, in the order of insertion.
pub uninterp spec fn dict_entries(d: BencodeDict) -> Seq<(Seq<char>, DictValueView)>;

/// The index of the first entry with the key, or the number of entries if
/// none has it.
pub open spec fn position(entries: Seq<(Seq<char>, DictValueView)>, key: Seq<char>) -> int
    decreases entries.len(),
{
    if entries.len() == 0 {
        0
    } else if entries[0].0 == key {
        0
    } else {
        1 + position(entries.drop_first(), key)
    }
}

/// The value of the first entry with the key.
pub open spec fn lookup(entries: Seq<(Seq<char>, DictValueView)>, key: Seq<char>) -> Option<
    DictValueView,
> {
    let i = position(entries, key);
    if i < entries.len() {
        Some(entries[i].1)
    } else {
        None
    }
}

/// The entries after `key` was given `value`: where an entry has the key it
/// keeps its place and takes the value; else a new entry comes last.
pub open spec fn insert_entry(
    entries: Seq<(Seq<char>, DictValueView)>,
    key: Seq<char>,
    value: DictValueView,
) -> Seq<(Seq<char>, DictValueView)> {
    let i = position(entries, key);
    if i < entries.len() {
        entries.update(i, (entries[i].0, value))
    } else {
        entries.push((key, value))
    }
}

/// No two entries have the same key.
pub open spec fn distinct_keys(entries: Seq<(Seq<char>, DictValueView)>) -> bool {
    forall|i: int, j: int|
        0 <= i < j < entries.len() ==> (#[trigger] entries[i]).0 != (#[trigger] entries[j]).0
}

/// `position` finds the first entry with the key, if there is one.
pub proof fn lemma_position(entries: Seq<(Seq<char>, DictValueView)>, key: Seq<char>)
    ensures
        0 <= position(entries, key) <= entries.len(),
        position(entries, key) < entries.len() ==> entries[position(entries, key)].0 == key,
        forall|j: int| 0 <= j < position(entries, key) ==> (#[trigger] entries[j]).0 != key,
    decreases entries.len(),
{
    if entries.len() > 0 && entries[0].0 != key {
        let rest = entries.drop_first();
        lemma_position(rest, key);
        assert forall|j: int| 0 <= j < position(entries, key) implies (#[trigger] entries[j]).0
            != key by {
            if j > 0 {
                assert(entries[j] == rest[j - 1]);
            }
        }
    }
}

/// Giving a key a value leaves no key twice where none was twice before.
pub proof fn lemma_insert_keeps_distinct(
    entries: Seq<(Seq<char>, DictValueView)>,
    key: Seq<char>,
    value: DictValueView,
)
    requires
        distinct_keys(entries),
    ensures
        distinct_keys(insert_entry(entries, key, value)),
{
    lemma_position(entries, key);
    let after = insert_entry(entries, key, value);
    let at = position(entries, key);
    assert forall|i: int, j: int| 0 <= i < j < after.len() implies (#[trigger] after[i]).0 != (
    #[trigger] after[j]).0 by {
        if at < entries.len() {
            assert(after[i].0 == entries[i].0);
            assert(after[j].0 == entries[j].0);
        } else if j == entries.len() {
            assert(after[i] == entries[i]);
        } else {
            assert(after[i] == entries[i]);
            assert(after[j] == entries[j]);
        }
    }
}

/// `IndexMap::new`: a map without entries.
#[verifier::external_body]
fn map_new() -> (d: BencodeDict)
    ensures
        dict_entries(d) == Seq::<(Seq<char>, DictValueView)>::empty(),
{
    BencodeDict { map: IndexMap::new() }
}

/// `IndexMap::len`: the number of entries.
#[verifier::external_body]
fn map_len(d: &BencodeDict) -> (n: usize)
    ensures
        n == dict_entries(*d).len(),
{
    d.map.len()
}

/// `IndexMap::insert`: where the map has an equal key, that entry keeps its
/// key and its place and takes the new value; where it has none, the pair
/// becomes the last entry.
#[verifier::external_body]
fn map_insert(d: &mut BencodeDict, key: String, value: BencodeDictValues)
    ensures
        dict_entries(*final(d)) == insert_entry(dict_entries(*old(d)), key@, value@),
{
    d.map.insert(key, value);
}

/// `IndexMap::get`: the value stored under an equal key, if there is one.
#[verifier::external_body]
fn map_get<'a>(d: &'a BencodeDict, key: &str) -> (r: Option<&'a BencodeDictValues>)
    ensures
        match r {
            Some(value) => lookup(dict_entries(*d), key@) == Some(value@),
            None => lookup(dict_entries(*d), key@) is None,
        },
{
    d.map.get(key)
}

/// `IndexMap::get_index`: the entry at a place in the order of insertion, if
/// the map has that many entries.
#[verifier::external_body]
fn map_get_index<'a>(d: &'a BencodeDict, index: usize) -> (r: Option<
    (&'a String, &'a BencodeDictValues),
>)
    ensures
        match r {
            Some((key, value)) => index < dict_entries(*d).len() && dict_entries(*d)[index as int]
                == (key@, value@),
            None => index >= dict_entries(*d).len(),
        },
{
    d.map.get_index(index)
}

impl BencodeDict {
    /// A dictionary without entries.
    pub fn new() -> (d: BencodeDict)
        ensures
            dict_entries(d) == Seq::<(Seq<char>, DictValueView)>::empty(),
    {
        map_new()
    }

    /// The number of entries.
    pub fn len(&self) -> (n: usize)
        ensures
            n == dict_entries(*self).len(),
    {
        map_len(self)
    }

    /// Gives `key` the value `value`. A key that the dictionary has keeps its
    /// place; a new key comes last.
    pub fn insert(&mut self, key: String, value: BencodeDictValues)
        ensures
            dict_entries(*final(self)) == insert_entry(dict_entries(*old(self)), key@, value@),
    {
        map_insert(self, key, value)
    }

    /// The value under `key`, if the dictionary has the key.
    pub fn get(&self, key: &str) -> (r: Option<&BencodeDictValues>)
        ensures
            match r {
                Some(value) => lookup(dict_entries(*self), key@) == Some(value@),
                None => lookup(dict_entries(*self), key@) is None,
            },
    {
        map_get(self, key)
    }

    /// The entry at `index` in the order of insertion, if there are that many.
    pub fn get_index(&self, index: usize) -> (r: Option<(&String, &BencodeDictValues)>)
        ensures
            match r {
                Some((key, value)) => index < dict_entries(*self).len() && dict_entries(
                    *self,
                )[index as int] == (key@, value@),
                None => index >= dict_entries(*self).len(),
            },
    {
        map_get_index(self, index)
    }
}

} // verus!
