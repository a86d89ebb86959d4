//! A log-structured key-value store.
//!
//! The engine keeps the bytes of its log and an index from each key to the
//! offset of the latest record that mentions it. Every operation is a
//! function from the log to the log, so that a caller can persist the log
//! however it likes.

use vstd::prelude::*;

pub mod client;
pub mod command;
pub mod compaction;
pub mod error;
pub mod json;
pub mod log_file;
pub mod network;
pub mod record;
pub mod server;
pub mod sled;
pub mod store;
pub mod thread_pool;

pub use crate::error::{KvStoreError, Result};
pub use crate::store::KvStore;

verus! {

/// The storage interface that the server works against.
///
/// An engine says in three relations what its operations may give; the
/// server's own contracts are stated over them.
pub trait KvsEngine: Sized {
    /// The engine is in a state in which it can be used.
    spec fn valid(&self) -> bool;

    /// `got` is an outcome that `get` may have for `key`.
    spec fn may_get(&self, key: Seq<char>, got: Result<Option<String>>) -> bool;

    /// `done` is an outcome that `set` may have for `key` and `value`, with
    /// `after` the engine that it leaves.
    spec fn may_set(&self, key: Seq<char>, value: Seq<char>, after: Self, done: Result<()>) -> bool;

    /// `done` is an outcome that `remove` may have for `key`, with `after`
    /// the engine that it leaves.
    spec fn may_remove(&self, key: Seq<char>, after: Self, done: Result<()>) -> bool;

    /// Sets the value of the given key.
    fn set(&mut self, key: String, value: String) -> (done: Result<()>)
        requires
            old(self).valid(),
        ensures
            final(self).valid(),
            old(self).may_set(key@, value@, *final(self), done),
    ;

    /// Gets the value of the given key.
    fn get(&self, key: String) -> (got: Result<Option<String>>)
        requires
            self.valid(),
        ensures
            self.may_get(key@, got),
    ;

    /// Removes the given key.
    fn remove(&mut self, key: String) -> (done: Result<()>)
        requires
            old(self).valid(),
        ensures
            final(self).valid(),
            old(self).may_remove(key@, *final(self), done),
    ;
}

} // verus!
