//! A key/value store that keeps its string pairs in memory only.

use vstd::prelude::*;
use vstd::hash_map::StringHashMap;
use crate::engines::KvsEngine;
use crate::error::{KvsError, Result};

verus! {

/// The contents after setting `key` to `value` in `m`.
pub open spec fn store_set(m: Map<Seq<char>, Seq<char>>, key: Seq<char>, value: Seq<char>) -> Map<
    Seq<char>,
    Seq<char>,
> {
    m.insert(key, value)
}

/// The contents after removing `key` from `m`.
pub open spec fn store_remove(m: Map<Seq<char>, Seq<char>>, key: Seq<char>) -> Map<
    Seq<char>,
    Seq<char>,
> {
    m.remove(key)
}

/// What getting `key` from `m` yields.
pub open spec fn store_get(m: Map<Seq<char>, Seq<char>>, key: Seq<char>) -> Option<Seq<char>> {
    if m.contains_key(key) {
        Some(m[key])
    } else {
        None
    }
}

/// The text an optional string holds, if any.
pub open spec fn opt_view(o: Option<String>) -> Option<Seq<char>> {
    match o {
        Some(s) => Some(s@),
        None => None,
    }
}

/// The `KvStore` stores string key/value pairs in memory; nothing is
/// persisted.
pub struct KvStore {
    hashmap: StringHashMap<String>,
}

impl View for KvStore {
    type V = Map<Seq<char>, Seq<char>>;

    closed spec fn view(&self) -> Map<Seq<char>, Seq<char>> {
        self.hashmap@.map_values(|v: String| v@)
    }
}

impl KvStore {
    /// Creates an empty `KvStore`.
    pub fn new() -> (s: KvStore)
        ensures
            s@ == Map::<Seq<char>, Seq<char>>::empty(),
    {
        let s = KvStore { hashmap: StringHashMap::new() };
        assert(s@ =~= Map::<Seq<char>, Seq<char>>::empty());
        s
    }

    /// Sets the value of the string key to a string. If the key already
    /// exists, the previous value is overwritten.
    pub fn set(&mut self, key: String, value: String)
        ensures
            final(self)@ == store_set(old(self)@, key@, value@),
    {
        self.hashmap.insert(key, value);
        assert(self@ =~= store_set(old(self)@, key@, value@));
    }

    /// Gets the string value of a given string key; `None` if the key does
    /// not exist.
    pub fn get(&self, key: String) -> (r: Option<String>)
        ensures
            opt_view(r) == store_get(self@, key@),
    {
        match self.hashmap.get(key.as_str()) {
            Some(v) => Some(v.clone()),
            None => None,
        }
    }

    /// Removes a given key.
    pub fn remove(&mut self, key: String)
        ensures
            final(self)@ == store_remove(old(self)@, key@),
    {
        self.hashmap.remove(key.as_str());
        assert(self@ =~= store_remove(old(self)@, key@));
    }
}

impl Default for KvStore {
    fn default() -> (s: KvStore)
        ensures
            s@ == Map::<Seq<char>, Seq<char>>::empty(),
    {
        KvStore::new()
    }
}

/// The in-memory store serves as an engine too: a set always succeeds, a
/// get yields the value, and a remove of an absent key fails with
/// `KeyNotFound`.
impl KvsEngine for KvStore {
    open spec fn set_ensures(
        pre: KvStore,
        key: Seq<char>,
        value: Seq<char>,
        r: Result<()>,
        post: KvStore,
    ) -> bool {
        r is Ok && post@ == store_set(pre@, key, value)
    }

    open spec fn get_ensures(
        pre: KvStore,
        key: Seq<char>,
        r: Result<Option<String>>,
        post: KvStore,
    ) -> bool {
        &&& post@ == pre@
        &&& r matches Ok(v) && opt_view(v) == store_get(pre@, key)
    }

    open spec fn remove_ensures(pre: KvStore, key: Seq<char>, r: Result<()>, post: KvStore) -> bool {
        if pre@.contains_key(key) {
            r is Ok && post@ == store_remove(pre@, key)
        } else {
            r matches Err(KvsError::KeyNotFound) && post@ == pre@
        }
    }

    fn set(&mut self, key: String, value: String) -> (r: Result<()>) {
        KvStore::set(self, key, value);
        Ok(())
    }

    fn get(&mut self, key: String) -> (r: Result<Option<String>>) {
        Ok(KvStore::get(self, key))
    }

    fn remove(&mut self, key: String) -> (r: Result<()>) {
        if self.hashmap.contains_key(key.as_str()) {
            KvStore::remove(self, key);
            Ok(())
        } else {
            Err(KvsError::KeyNotFound)
        }
    }
}

/// The contents after a history of calls on `m`: each call names a key
/// and carries `Some(value)` for a set or `None` for a remove.
pub open spec fn apply_history(
    m: Map<Seq<char>, Seq<char>>,
    calls: Seq<(Seq<char>, Option<Seq<char>>)>,
) -> Map<Seq<char>, Seq<char>>
    decreases calls.len(),
{
    if calls.len() == 0 {
        m
    } else {
        let before = apply_history(m, calls.drop_last());
        match calls.last().1 {
            Some(v) => store_set(before, calls.last().0, v),
            None => store_remove(before, calls.last().0),
        }
    }
}

/// The last call of `calls` on `key`, if any: `Some(Some(v))` for a set
/// of `v`, `Some(None)` for a remove.
pub open spec fn last_call(calls: Seq<(Seq<char>, Option<Seq<char>>)>, key: Seq<char>) -> Option<
    Option<Seq<char>>,
>
    decreases calls.len(),
{
    if calls.len() == 0 {
        None
    } else if calls.last().0 == key {
        Some(calls.last().1)
    } else {
        last_call(calls.drop_last(), key)
    }
}

/// A get yields the value of the last set of the key, or nothing if the
/// key's last call was a remove; a key that no call names yields what it
/// did before (nothing, on a new store).
pub proof fn law_get_after_history(
    m: Map<Seq<char>, Seq<char>>,
    calls: Seq<(Seq<char>, Option<Seq<char>>)>,
    key: Seq<char>,
)
    ensures
        store_get(apply_history(m, calls), key) == match last_call(calls, key) {
            Some(o) => o,
            None => store_get(m, key),
        },
    decreases calls.len(),
{
    if calls.len() > 0 {
        law_get_after_history(m, calls.drop_last(), key);
    }
}

/// A get after a set of the same key yields the value that was set.
pub proof fn law_get_after_set(m: Map<Seq<char>, Seq<char>>, key: Seq<char>, value: Seq<char>)
    ensures
        store_get(store_set(m, key, value), key) == Some(value),
{
}

/// A get after a remove of the same key yields nothing.
pub proof fn law_get_after_remove(m: Map<Seq<char>, Seq<char>>, key: Seq<char>)
    ensures
        store_get(store_remove(m, key), key) == None::<Seq<char>>,
{
}

/// Setting or removing one key leaves what the others yield unchanged.
pub proof fn law_other_keys_unchanged(
    m: Map<Seq<char>, Seq<char>>,
    key: Seq<char>,
    other: Seq<char>,
    value: Seq<char>,
)
    requires
        key != other,
    ensures
        store_get(store_set(m, key, value), other) == store_get(m, other),
        store_get(store_remove(m, key), other) == store_get(m, other),
{
}

/// A second set of a key overrides the first.
pub proof fn law_set_overwrites(
    m: Map<Seq<char>, Seq<char>>,
    key: Seq<char>,
    first: Seq<char>,
    second: Seq<char>,
)
    ensures
        store_set(store_set(m, key, first), key, second) == store_set(m, key, second),
{
    assert(store_set(store_set(m, key, first), key, second) =~= store_set(m, key, second));
}

/// Removing a key that is absent changes nothing.
pub proof fn law_remove_absent(m: Map<Seq<char>, Seq<char>>, key: Seq<char>)
    requires
        !m.contains_key(key),
    ensures
        store_remove(m, key) == m,
{
    assert(store_remove(m, key) =~= m);
}

} // verus!
