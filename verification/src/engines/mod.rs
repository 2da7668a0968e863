//! Storage engines of the key/value store.

pub mod index;
pub mod keyorder;
pub mod kvs;
pub mod logfiles;
pub mod model;

use vstd::prelude::*;
use crate::error::Result;

verus! {

/// The operations that a storage engine offers the server. Each engine
/// says, through the three relations below, what its operations do: which
/// results an operation may give for a key (and value), and how it leaves
/// the engine. An engine that does not define a relation promises nothing
/// about that operation.
pub trait KvsEngine: Sized {
    /// What `set(key, value)` on `pre` may give back and leave as `post`.
    open spec fn set_ensures(
        pre: Self,
        key: Seq<char>,
        value: Seq<char>,
        r: Result<()>,
        post: Self,
    ) -> bool {
        true
    }

    /// What `get(key)` on `pre` may give back and leave as `post`.
    open spec fn get_ensures(pre: Self, key: Seq<char>, r: Result<Option<String>>, post: Self) -> bool {
        true
    }

    /// What `remove(key)` on `pre` may give back and leave as `post`.
    open spec fn remove_ensures(pre: Self, key: Seq<char>, r: Result<()>, post: Self) -> bool {
        true
    }

    /// Sets a value of a string key.
    fn set(&mut self, key: String, value: String) -> (r: Result<()>)
        ensures
            Self::set_ensures(*old(self), key@, value@, r, *final(self)),
    ;

    /// Gets a value of a string key.
    fn get(&mut self, key: String) -> (r: Result<Option<String>>)
        ensures
            Self::get_ensures(*old(self), key@, r, *final(self)),
    ;

    /// Removes a value of a string key.
    fn remove(&mut self, key: String) -> (r: Result<()>)
        ensures
            Self::remove_ensures(*old(self), key@, r, *final(self)),
    ;
}

} // verus!
