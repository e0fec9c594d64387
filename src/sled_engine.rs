//! An engine over the embedded B-tree database `sled`.

use vstd::prelude::*;
use vstd::utf8::{decode_utf8, valid_utf8};
use crate::codec::string_from_utf8;
use crate::engine::KvsEngine;
use crate::error::{ErrorKind, Result};

verus! {

#[verifier::external_type_specification]
#[verifier::external_body]
pub struct ExSledDb(sled::Db);

/// Relies on `sled::open`, on the directory `dir` joined with `name`.
#[verifier::external_body]
fn open_db(dir: &str, name: &str) -> (r: core::result::Result<sled::Db, sled::Error>) {
    sled::open(std::path::Path::new(dir).join(name))
}

/// Relies on `sled::Tree::insert`, with the value's UTF-8 bytes.
#[verifier::external_body]
fn db_insert(db: &sled::Db, key: &str, val: &str) -> (r: core::result::Result<(), sled::Error>) {
    db.insert(key, val.as_bytes()).map(|_| ())
}

/// Relies on `sled::Tree::get`: the bytes stored under the key, if any.
#[verifier::external_body]
fn db_get(db: &sled::Db, key: &str) -> (r: core::result::Result<Option<Vec<u8>>, sled::Error>) {
    db.get(key).map(|v| v.map(|b| b.to_vec()))
}

/// Relies on `sled::Tree::remove`: the bytes that were stored under the key,
/// if any.
#[verifier::external_body]
fn db_remove(db: &sled::Db, key: &str) -> (r: core::result::Result<Option<Vec<u8>>, sled::Error>) {
    db.remove(key).map(|v| v.map(|b| b.to_vec()))
}

/// Relies on `sled::Tree::flush`.
#[verifier::external_body]
fn db_flush(db: &sled::Db) -> (r: core::result::Result<(), sled::Error>) {
    db.flush().map(|_| ())
}

/// A storage engine kept in a `sled` database.
pub struct SledKvsEngine(sled::Db);

/// What a `get` returns for the bytes the database held under the key.
pub fn value_from_bytes(found: Option<Vec<u8>>) -> (r: Result<Option<String>>)
    ensures
        found is None ==> r matches Ok(None),
        found is Some ==> (valid_utf8(found->0@) <==> r is Ok),
        found is Some && valid_utf8(found->0@) ==> (r matches Ok(Some(s)) && s@ == decode_utf8(
            found->0@,
        )),
        r matches Err(e) ==> e is String,
{
    match found {
        None => Ok(None),
        Some(b) => match string_from_utf8(b) {
            Ok(s) => Ok(Some(s)),
            Err(e) => Err(ErrorKind::String(e)),
        },
    }
}

/// What a `remove` returns for the bytes the database held under the key.
pub fn removal_outcome(found: Option<Vec<u8>>) -> (r: Result<()>)
    ensures
        found is Some <==> r is Ok,
        found is None ==> r matches Err(ErrorKind::KeyNotFound),
{
    match found {
        Some(_) => Ok(()),
        None => Err(ErrorKind::KeyNotFound),
    }
}

impl SledKvsEngine {
    /// Opens (or creates) the database kept under the directory `path`.
    pub fn open(path: &str) -> (r: Result<SledKvsEngine>)
        ensures
            r matches Err(e) ==> e is Sled,
    {
        match open_db(path, "sled-db") {
            Ok(db) => Ok(SledKvsEngine(db)),
            Err(e) => Err(ErrorKind::Sled(e)),
        }
    }
}

impl KvsEngine for SledKvsEngine {
    fn set(&self, key: String, value: String) -> (r: Result<()>)
        ensures
            r matches Err(e) ==> e is Sled,
    {
        match db_insert(&self.0, key.as_str(), value.as_str()) {
            Ok(()) => {},
            Err(e) => return Err(ErrorKind::Sled(e)),
        }
        match db_flush(&self.0) {
            Ok(()) => Ok(()),
            Err(e) => Err(ErrorKind::Sled(e)),
        }
    }

    fn get(&self, key: String) -> (r: Result<Option<String>>)
        ensures
            r matches Err(e) ==> e is Sled || e is String,
    {
        match db_get(&self.0, key.as_str()) {
            Ok(found) => value_from_bytes(found),
            Err(e) => Err(ErrorKind::Sled(e)),
        }
    }

    fn remove(&self, key: String) -> (r: Result<()>)
        ensures
            r matches Err(e) ==> e is Sled || e is KeyNotFound,
    {
        let found = match db_remove(&self.0, key.as_str()) {
            Ok(found) => found,
            Err(e) => return Err(ErrorKind::Sled(e)),
        };
        match removal_outcome(found) {
            Ok(()) => {},
            Err(e) => return Err(e),
        }
        match db_flush(&self.0) {
            Ok(()) => Ok(()),
            Err(e) => Err(ErrorKind::Sled(e)),
        }
    }
}

} // verus!
