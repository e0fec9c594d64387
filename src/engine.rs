//! What every storage engine offers, and the messages a server answers.

use vstd::prelude::*;
use crate::error::{ErrorKind, Result};

verus! {

/// A key/value storage engine that can be shared between threads.
pub trait KvsEngine: Send + 'static {
    /// Sets the value of a key, replacing any earlier one.
    fn set(&self, key: String, value: String) -> Result<()>;

    /// The value of a key; `None` where it has none.
    fn get(&self, key: String) -> Result<Option<String>>;

    /// Removes a key; fails with `KeyNotFound` where it has no value.
    fn remove(&self, key: String) -> Result<()>;
}

/// A request from a client to a server.
#[derive(Debug)]
pub enum Message {
    /// Read the value of `key`.
    Get { key: String },
    /// Set `key` to `val`.
    Put { key: String, val: String },
    /// Remove `key`.
    Rm { key: String },
}

/// The server's answer to a `Get`: the value, or `Key not found`.
pub fn get_reply(found: Option<String>) -> (r: String)
    ensures
        found matches Some(v) ==> r@ == v@,
        found is None ==> r@ == "Key not found"@,
{
    match found {
        Some(v) => v,
        None => "Key not found".to_owned(),
    }
}

/// The server's answer to an `Rm`: nothing on success, `Key not found` where
/// the key was absent; any other failure is passed on.
pub fn remove_reply(outcome: Result<()>) -> (r: Result<String>)
    ensures
        outcome is Ok ==> (r matches Ok(s) && s@.len() == 0),
        outcome matches Err(ErrorKind::KeyNotFound) ==> (r matches Ok(s) && s@ == "Key not found"@),
        outcome is Err && !(outcome->Err_0 is KeyNotFound) ==> (r is Err && r->Err_0 == outcome->Err_0),
{
    match outcome {
        Ok(()) => Ok(String::new()),
        Err(ErrorKind::KeyNotFound) => Ok("Key not found".to_owned()),
        Err(e) => Err(e),
    }
}

} // verus!
