//! The alternative engine: an adapter for the `sled` database.
//!
//! The database is a map from keys to values, both of them bytes. The
//! adapter is the only holder of its handle, so nothing but the adapter's
//! own calls changes that map. Whether a call succeeds is the database's
//! affair: the contracts say what holds of the map when it does.

use vstd::prelude::*;
use vstd::utf8::{
    decode_utf8, encode_utf8, encode_utf8_decode_utf8, encode_utf8_valid_utf8, valid_utf8,
};
use crate::error::{KvStoreError, Result};
use crate::KvsEngine;

verus! {

/// The handle of a `sled` database, `sled::Db`: a value that is carried
/// along, of whose inside nothing is known here.
#[verifier::external_type_specification]
#[verifier::external_body]
pub struct ExSledDb(::sled::Db);

/// The keys that the database holds, each with its value.
pub uninterp spec fn db_contents(tree: ::sled::Db) -> Map<Seq<u8>, Seq<u8>>;

/// Calls `sled::open`, which opens the database in the directory `path` and
/// creates it if there is none. Nothing is claimed of the outcome, nor of
/// what an opened database holds; `None` stands for an error of the
/// database.
#[verifier::external_body]
fn db_open(path: &str) -> (opened: Option<::sled::Db>) {
    ::sled::open(path).ok()
}

/// Calls `sled::Tree::flush` on the database and says whether it succeeded.
/// Nothing is claimed of the outcome. What the database holds is the same
/// before and after, which the shared borrow already says.
#[verifier::external_body]
fn db_flush(tree: &::sled::Db) -> (flushed: bool) {
    tree.flush().is_ok()
}

/// Calls `sled::Tree::insert` on the database and says whether it
/// succeeded. The contract claims what sled documents: after a success the
/// key has the new value, and every other key what it had. Of a failure
/// nothing is claimed.
#[verifier::external_body]
fn db_insert(tree: &mut ::sled::Db, key: &[u8], value: &[u8]) -> (inserted: bool)
    ensures
        inserted ==> db_contents(*final(tree)) == db_contents(*old(tree)).insert(key@, value@),
{
    tree.insert(key, value).is_ok()
}

/// Calls `sled::Tree::get` on the database and hands on the bytes that it
/// found. The contract claims what sled documents: a success gives the value
/// of the key if the database holds the key, and nothing if it does not. The
/// outer `None` stands for an error of the database, of which nothing is
/// claimed.
#[verifier::external_body]
fn db_get(tree: &::sled::Db, key: &[u8]) -> (found: Option<Option<Vec<u8>>>)
    ensures
        found matches Some(value) ==> match value {
            Some(bytes) => db_contents(*tree).contains_key(key@) && db_contents(*tree)[key@]
                == bytes@,
            None => !db_contents(*tree).contains_key(key@),
        },
{
    match tree.get(key) {
        Ok(Some(bytes)) => Some(Some(bytes.to_vec())),
        Ok(None) => Some(None),
        Err(_) => None,
    }
}

/// Calls `sled::Tree::remove` on the database and hands on the bytes that
/// the key had. The contract claims what sled documents: after a success the
/// key is gone, every other key has what it had, and what is handed on is
/// the value that the key had, if it had one. The outer `None` stands for an
/// error of the database, of which nothing is claimed.
#[verifier::external_body]
fn db_remove(tree: &mut ::sled::Db, key: &[u8]) -> (removed: Option<Option<Vec<u8>>>)
    ensures
        removed matches Some(previous) ==> {
            &&& db_contents(*final(tree)) == db_contents(*old(tree)).remove(key@)
            &&& match previous {
                Some(bytes) => db_contents(*old(tree)).contains_key(key@) && db_contents(
                    *old(tree),
                )[key@] == bytes@,
                None => !db_contents(*old(tree)).contains_key(key@),
            }
        },
{
    match tree.remove(key) {
        Ok(Some(bytes)) => Some(Some(bytes.to_vec())),
        Ok(None) => Some(None),
        Err(_) => None,
    }
}

/// Calls `String::from_utf8`: the string that the bytes encode, if they are
/// valid UTF-8, and `None` if they are not.
#[verifier::external_body]
fn string_from_utf8(bytes: Vec<u8>) -> (text: Option<String>)
    ensures
        match text {
            Some(s) => valid_utf8(bytes@) && s@ == decode_utf8(bytes@),
            None => !valid_utf8(bytes@),
        },
{
    String::from_utf8(bytes).ok()
}

/// What `get` makes of the bytes that the database found: no bytes are no
/// value, valid UTF-8 is the value that it encodes, and anything else is
/// `DeserializationFailure`.
pub fn value_of_bytes(found: Option<Vec<u8>>) -> (got: Result<Option<String>>)
    ensures
        match found {
            None => got == Ok::<Option<String>, KvStoreError>(None),
            Some(bytes) => if valid_utf8(bytes@) {
                got matches Ok(Some(s)) && s@ == decode_utf8(bytes@)
            } else {
                got == Err::<Option<String>, KvStoreError>(KvStoreError::DeserializationFailure)
            },
        },
{
    match found {
        None => Ok(None),
        Some(bytes) => match string_from_utf8(bytes) {
            Some(s) => Ok(Some(s)),
            None => Err(KvStoreError::DeserializationFailure),
        },
    }
}

/// What `remove` makes of the bytes that the key had: a key that had none
/// was not there, which is `KeyNotFound`.
pub fn removal_of(previous: Option<Vec<u8>>) -> (done: Result<()>)
    ensures
        done == match previous {
            Some(_) => Ok::<(), KvStoreError>(()),
            None => Err::<(), KvStoreError>(KvStoreError::KeyNotFound),
        },
{
    match previous {
        Some(_) => Ok(()),
        None => Err(KvStoreError::KeyNotFound),
    }
}

/// Adapter for the sled database.
pub struct SledKvsEngine {
    tree: ::sled::Db,
}

impl View for SledKvsEngine {
    type V = Map<Seq<u8>, Seq<u8>>;

    /// What the database holds.
    closed spec fn view(&self) -> Map<Seq<u8>, Seq<u8>> {
        db_contents(self.tree)
    }
}

impl SledKvsEngine {
    /// The string that the engine has for `key`: that which its bytes in the
    /// database encode. `None` where the database does not hold the key;
    /// `DeserializationFailure` where what it holds is not UTF-8.
    pub open spec fn value_of(&self, key: Seq<char>) -> core::result::Result<
        Option<Seq<char>>,
        KvStoreError,
    > {
        if !self@.contains_key(encode_utf8(key)) {
            Ok(None)
        } else if valid_utf8(self@[encode_utf8(key)]) {
            Ok(Some(decode_utf8(self@[encode_utf8(key)])))
        } else {
            Err(KvStoreError::DeserializationFailure)
        }
    }

    /// What `get` gives for `key`: the error of the database, or else what
    /// the engine has for the key.
    pub open spec fn get_gives(&self, key: Seq<char>, got: Result<Option<String>>) -> bool {
        got == Err::<Option<String>, KvStoreError>(KvStoreError::PageCache) || match got {
            Ok(Some(s)) => self.value_of(key) == Ok::<Option<Seq<char>>, KvStoreError>(
                Some(s@),
            ),
            Ok(None) => self.value_of(key) == Ok::<Option<Seq<char>>, KvStoreError>(None),
            Err(e) => self.value_of(key) == Err::<Option<Seq<char>>, KvStoreError>(e),
        }
    }

    /// What `set` makes of the engine, and what it reports: a success, after
    /// which the database holds the bytes of the value for the bytes of the
    /// key and is otherwise as it was, or the error of the database.
    pub open spec fn set_gives(
        &self,
        key: Seq<char>,
        value: Seq<char>,
        after: SledKvsEngine,
        done: Result<()>,
    ) -> bool {
        match done {
            Ok(_) => after@ == self@.insert(encode_utf8(key), encode_utf8(value)),
            Err(e) => e == KvStoreError::PageCache,
        }
    }

    /// What `remove` makes of the engine, and what it reports: a success,
    /// for a key that the database held and holds no longer, with everything
    /// else as it was; `KeyNotFound`, for a key that the database does not
    /// hold, with nothing changed; or the error of the database.
    pub open spec fn remove_gives(
        &self,
        key: Seq<char>,
        after: SledKvsEngine,
        done: Result<()>,
    ) -> bool {
        match done {
            Ok(_) => self@.contains_key(encode_utf8(key)) && after@ == self@.remove(
                encode_utf8(key),
            ),
            Err(KvStoreError::KeyNotFound) => !self@.contains_key(encode_utf8(key)) && after@
                == self@,
            Err(e) => e == KvStoreError::PageCache,
        }
    }

    /// The engine is the adapter of the database `tree`.
    pub closed spec fn is_over(&self, tree: ::sled::Db) -> bool {
        self.tree == tree
    }

    /// What `open` makes of what the database gave: the adapter of the
    /// database that was opened, which holds what that database holds, or
    /// `PageCache` where none was.
    pub fn engine_of(opened: Option<::sled::Db>) -> (engine: Result<SledKvsEngine>)
        ensures
            match opened {
                Some(tree) => engine is Ok && engine.unwrap().is_over(tree) && engine.unwrap()@
                    == db_contents(tree),
                None => engine == Err::<SledKvsEngine, KvStoreError>(KvStoreError::PageCache),
            },
    {
        match opened {
            Some(tree) => Ok(SledKvsEngine { tree }),
            None => Err(KvStoreError::PageCache),
        }
    }

    /// What `flush` and `set` make of what the database said of a call:
    /// success, or `PageCache`.
    pub fn outcome_of(succeeded: bool) -> (done: Result<()>)
        ensures
            done == if succeeded {
                Ok::<(), KvStoreError>(())
            } else {
                Err::<(), KvStoreError>(KvStoreError::PageCache)
            },
    {
        if succeeded {
            Ok(())
        } else {
            Err(KvStoreError::PageCache)
        }
    }

    /// Opens a sled database in the given directory.
    ///
    /// Succeeds exactly when the database does, as `engine_of` says;
    /// whatever the database reports as an error is `PageCache`.
    pub fn open(path: &str) -> (opened: Result<SledKvsEngine>)
        ensures
            opened matches Err(e) ==> e == KvStoreError::PageCache,
    {
        SledKvsEngine::engine_of(db_open(path))
    }

    /// Flushes dirty pages to disk. What the database holds stays as it is.
    ///
    /// Succeeds exactly when the database does, as `outcome_of` says;
    /// whatever the database reports as an error is `PageCache`.
    pub fn flush(&mut self) -> (flushed: Result<()>)
        ensures
            final(self)@ == old(self)@,
            flushed matches Err(e) ==> e == KvStoreError::PageCache,
    {
        SledKvsEngine::outcome_of(db_flush(&self.tree))
    }
}

impl KvsEngine for SledKvsEngine {
    open spec fn valid(&self) -> bool {
        true
    }

    open spec fn may_get(&self, key: Seq<char>, got: Result<Option<String>>) -> bool {
        self.get_gives(key, got)
    }

    open spec fn may_set(
        &self,
        key: Seq<char>,
        value: Seq<char>,
        after: SledKvsEngine,
        done: Result<()>,
    ) -> bool {
        self.set_gives(key, value, after, done)
    }

    open spec fn may_remove(&self, key: Seq<char>, after: SledKvsEngine, done: Result<()>) -> bool {
        self.remove_gives(key, after, done)
    }

    /// Sets the value of the given key, and flushes.
    fn set(&mut self, key: String, value: String) -> (done: Result<()>) {
        let inserted = db_insert(
            &mut self.tree,
            key.as_str().as_bytes(),
            value.as_str().as_bytes(),
        );
        match SledKvsEngine::outcome_of(inserted) {
            Ok(()) => self.flush(),
            Err(e) => Err(e),
        }
    }

    /// Gets the value of the given key.
    fn get(&self, key: String) -> (got: Result<Option<String>>) {
        match db_get(&self.tree, key.as_str().as_bytes()) {
            Some(found) => value_of_bytes(found),
            None => Err(KvStoreError::PageCache),
        }
    }

    /// Removes the given key, and flushes.
    fn remove(&mut self, key: String) -> (done: Result<()>) {
        let previous = match db_remove(&mut self.tree, key.as_str().as_bytes()) {
            Some(previous) => previous,
            None => { return Err(KvStoreError::PageCache); },
        };
        proof {
            if !old(self)@.contains_key(encode_utf8(key@)) {
                assert(old(self)@.remove(encode_utf8(key@)) =~= old(self)@);
            }
        }
        match removal_of(previous) {
            Ok(()) => {},
            Err(e) => { return Err(e); },
        }
        self.flush()
    }
}

/// Read your writes: after a `set` that succeeded, a `get` of the same key
/// that is not stopped by an error of the database gives the value that was
/// set.
pub proof fn lemma_sled_reads_its_writes(
    before: SledKvsEngine,
    key: Seq<char>,
    value: Seq<char>,
    after: SledKvsEngine,
    done: Result<()>,
    got: Result<Option<String>>,
)
    requires
        before.set_gives(key, value, after, done),
        done is Ok,
        after.get_gives(key, got),
        got != Err::<Option<String>, KvStoreError>(KvStoreError::PageCache),
    ensures
        got matches Ok(Some(s)) && s@ == value,
{
    encode_utf8_valid_utf8(value);
    encode_utf8_decode_utf8(value);
}

/// Tombstone visibility: after a `remove` that succeeded, a `get` of the
/// same key that is not stopped by an error of the database gives no value.
pub proof fn lemma_sled_forgets_what_it_removed(
    before: SledKvsEngine,
    key: Seq<char>,
    after: SledKvsEngine,
    done: Result<()>,
    got: Result<Option<String>>,
)
    requires
        before.remove_gives(key, after, done),
        done is Ok,
        after.get_gives(key, got),
        got != Err::<Option<String>, KvStoreError>(KvStoreError::PageCache),
    ensures
        got == Ok::<Option<String>, KvStoreError>(None),
{
}

} // verus!
