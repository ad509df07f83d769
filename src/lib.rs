//! An embeddable key-value store built on an append-only, segmented log.

pub mod client;
pub mod kv;
pub mod server;
pub mod util;

pub use kv::command;
pub use kv::{KVError, KvStore, Result};

use vstd::prelude::*;
use crate::kv::{lookup, opt_view};

verus! {

/// What every storage engine offers: a name, and `get`, `set` and `remove`
/// over a map from keys to values. A miss is `None` for `get` and a
/// `KeyNotFound` error for `remove`.
pub trait KvsEngine {
    /// What the engine keeps true between calls.
    open spec fn inv(&self) -> bool {
        true
    }

    /// Whether the engine states its contents through `model`. The clauses
    /// over `model` bind only an engine that does; one that keeps this
    /// default promises nothing of its contents.
    open spec fn models(&self) -> bool {
        false
    }

    /// The live keys and their values, where `models` holds.
    open spec fn model(&self) -> Map<Seq<char>, Seq<char>> {
        Map::empty()
    }

    fn name(&self) -> String;

    fn set(&mut self, key: String, value: String) -> (r: Result<()>)
        requires
            old(self).inv(),
        ensures
            final(self).inv(),
            final(self).models() == old(self).models(),
            old(self).models() ==> (r is Ok ==> final(self).model() == old(self).model().insert(
                key@,
                value@,
            )),
            old(self).models() ==> (r is Err ==> final(self).model() == old(self).model()),
    ;

    fn get(&mut self, key: String) -> (r: Result<Option<String>>)
        requires
            old(self).inv(),
        ensures
            final(self).inv(),
            final(self).models() == old(self).models(),
            old(self).models() ==> final(self).model() == old(self).model(),
            old(self).models() ==> (r matches Ok(o) ==> opt_view(o) == lookup(
                old(self).model(),
                key@,
            )),
    ;

    fn remove(&mut self, key: String) -> (r: Result<()>)
        requires
            old(self).inv(),
        ensures
            final(self).inv(),
            final(self).models() == old(self).models(),
            old(self).models() ==> (r is Ok ==> old(self).model().contains_key(key@)
                && final(self).model() == old(self).model().remove(key@)),
            old(self).models() ==> (r is Err ==> final(self).model() == old(self).model()),
            old(self).models() ==> (r matches Err(KVError::KeyNotFound(_)) ==> !old(
                self,
            ).model().contains_key(key@)),
    ;
}

} // verus!
