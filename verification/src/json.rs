//! A document as the recipe reader sees it, and the few questions the reader
//! asks of it.

use vstd::prelude::*;

verus! {

/// A parsed document. A number keeps no value: no recipe reads one.
#[derive(Debug)]
pub enum Json {
    Null,
    Bool(bool),
    Number,
    Text(String),
    Array(Vec<Json>),
    Object(Vec<(String, Json)>),
}

/// Calls `str`'s `==`. Two strings are equal when they hold the same
/// characters.
#[verifier::external_body]
pub(crate) fn same_text(a: &str, b: &str) -> (same: bool)
    ensures
        same == (a@ == b@),
{
    a == b
}

/// The position of the first of the first `n` entries that has the key, or
/// `n` if none has it.
pub open spec fn entry_at(entries: Seq<(String, Json)>, key: Seq<char>, n: int) -> int
    decreases n,
{
    if n <= 0 {
        0
    } else {
        let before = entry_at(entries, key, n - 1);
        if before < n - 1 || entries[n - 1].0@ == key {
            before
        } else {
            n
        }
    }
}

/// The value of the first entry that has the key.
pub open spec fn entry_value(entries: Seq<(String, Json)>, key: Seq<char>) -> Option<Json> {
    let at = entry_at(entries, key, entries.len() as int);
    if at < entries.len() {
        Some(entries[at].1)
    } else {
        None
    }
}

/// The value of the first entry of an object that has the key.
pub open spec fn member(json: Json, key: Seq<char>) -> Option<Json> {
    match json {
        Json::Object(entries) => entry_value(entries@, key),
        _ => None,
    }
}

/// The items of an array.
pub open spec fn items_of(json: Json) -> Option<Seq<Json>> {
    match json {
        Json::Array(items) => Some(items@),
        _ => None,
    }
}

/// The value of the first entry that has the key, if there is one.
pub fn lookup<'a>(entries: &'a Vec<(String, Json)>, key: &str) -> (value: Option<&'a Json>)
    ensures
        match value {
            Some(found) => entry_value(entries@, key@) == Some(*found),
            None => entry_value(entries@, key@) is None,
        },
{
    let mut n: usize = 0;
    while n < entries.len()
        invariant
            n <= entries.len(),
            entry_at(entries@, key@, n as int) == n,
        decreases entries.len() - n,
    {
        if same_text(entries[n].0.as_str(), key) {
            proof {
                lemma_entry_found(entries@, key@, n as int, entries@.len() as int);
            }
            return Some(&entries[n].1);
        }
        n += 1;
    }
    None
}

/// The characters of a text.
pub open spec fn text_of(json: Json) -> Option<Seq<char>> {
    match json {
        Json::Text(text) => Some(text@),
        _ => None,
    }
}

/// Whether `text` begins with `prefix`.
pub open spec fn has_prefix(text: Seq<char>, prefix: Seq<char>) -> bool {
    prefix.len() <= text.len() && text.subrange(0, prefix.len() as int) == prefix
}

impl Json {
    /// The value of the first entry that has the key, if this is an object
    /// with such an entry.
    pub fn get(&self, key: &str) -> (value: Option<&Json>)
        ensures
            match value {
                Some(found) => member(*self, key@) == Some(*found),
                None => member(*self, key@) is None,
            },
    {
        match self {
            Json::Object(entries) => lookup(entries, key),
            _ => None,
        }
    }

    /// The items, if this is an array.
    pub fn as_array(&self) -> (items: Option<&Vec<Json>>)
        ensures
            match items {
                Some(found) => items_of(*self) == Some(found@) && *self == Json::Array(*found),
                None => items_of(*self) is None,
            },
    {
        match self {
            Json::Array(items) => Some(items),
            _ => None,
        }
    }

    /// The text, if this is a text.
    pub fn as_str(&self) -> (text: Option<&str>)
        ensures
            match text {
                Some(found) => text_of(*self) == Some(found@),
                None => text_of(*self) is None,
            },
    {
        match self {
            Json::Text(text) => Some(text.as_str()),
            _ => None,
        }
    }
}

/// Once an entry with the key is found, later entries do not matter.
proof fn lemma_entry_found(entries: Seq<(String, Json)>, key: Seq<char>, at: int, n: int)
    requires
        0 <= at < n,
        entry_at(entries, key, at) == at,
        entries[at].0@ == key,
    ensures
        entry_at(entries, key, n) == at,
    decreases n,
{
    if n > at + 1 {
        lemma_entry_found(entries, key, at, n - 1);
    }
}

/// Whether `text` begins with `prefix`.
pub fn starts_with(text: &str, prefix: &str) -> (holds: bool)
    ensures
        holds == has_prefix(text@, prefix@),
{
    let needed = prefix.unicode_len();
    if text.unicode_len() < needed {
        return false;
    }
    let mut i: usize = 0;
    while i < needed
        invariant
            i <= needed,
            needed == prefix@.len(),
            needed <= text@.len(),
            forall|k: int| 0 <= k < i ==> text@[k] == prefix@[k],
        decreases needed - i,
    {
        if text.get_char(i) != prefix.get_char(i) {
            assert(text@.subrange(0, needed as int)[i as int] != prefix@[i as int]);
            return false;
        }
        i += 1;
    }
    assert(text@.subrange(0, needed as int) =~= prefix@);
    true
}

/// The rest of `text` after its first `count` characters.
pub fn after_prefix<'a>(text: &'a str, count: usize) -> (rest: &'a str)
    requires
        count <= text@.len(),
    ensures
        rest@ == text@.skip(count as int),
{
    let rest = text.substring_char(count, text.unicode_len());
    assert(text@.subrange(count as int, text@.len() as int) =~= text@.skip(count as int));
    rest
}

} // verus!
