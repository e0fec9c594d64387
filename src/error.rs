use vstd::prelude::*;

verus! {

#[verifier::external_type_specification]
#[verifier::external_body]
pub struct ExIoError(std::io::Error);

#[verifier::external_type_specification]
#[verifier::external_body]
pub struct ExJsonError(serde_json::Error);

#[verifier::external_type_specification]
#[verifier::external_body]
pub struct ExSledError(sled::Error);

#[verifier::external_type_specification]
#[verifier::external_body]
pub struct ExUtf8Error(std::str::Utf8Error);

#[verifier::external_type_specification]
#[verifier::external_body]
pub struct ExFromUtf8Error(std::string::FromUtf8Error);

/// What can go wrong in a store operation.
#[derive(Debug)]
pub enum ErrorKind {
    /// A file or socket operation failed.
    Io(std::io::Error),
    /// A message could not be encoded or decoded.
    Serde(serde_json::Error),
    /// The embedded B-tree engine failed.
    Sled(sled::Error),
    /// Bytes that should hold text were not UTF-8 (borrowed form).
    Str(std::str::Utf8Error),
    /// Bytes that should hold text were not UTF-8 (owned form).
    String(std::string::FromUtf8Error),
    /// The bytes at an index pointer did not decode to the expected record.
    ReadFail,
    /// `remove` was asked for a key that the store does not hold.
    KeyNotFound,
    /// Any other failure, described in words.
    Other(String),
}

/// The result of a store operation.
pub type Result<T> = core::result::Result<T, ErrorKind>;

impl From<std::io::Error> for ErrorKind {
    fn from(err: std::io::Error) -> (r: ErrorKind)
        ensures
            r == ErrorKind::Io(err),
    {
        ErrorKind::Io(err)
    }
}

impl vstd::std_specs::convert::FromSpecImpl<std::io::Error> for ErrorKind {
    open spec fn obeys_from_spec() -> bool {
        true
    }

    open spec fn from_spec(err: std::io::Error) -> ErrorKind {
        ErrorKind::Io(err)
    }
}

impl From<serde_json::Error> for ErrorKind {
    fn from(err: serde_json::Error) -> (r: ErrorKind)
        ensures
            r == ErrorKind::Serde(err),
    {
        ErrorKind::Serde(err)
    }
}

impl vstd::std_specs::convert::FromSpecImpl<serde_json::Error> for ErrorKind {
    open spec fn obeys_from_spec() -> bool {
        true
    }

    open spec fn from_spec(err: serde_json::Error) -> ErrorKind {
        ErrorKind::Serde(err)
    }
}

impl From<sled::Error> for ErrorKind {
    fn from(err: sled::Error) -> (r: ErrorKind)
        ensures
            r == ErrorKind::Sled(err),
    {
        ErrorKind::Sled(err)
    }
}

impl vstd::std_specs::convert::FromSpecImpl<sled::Error> for ErrorKind {
    open spec fn obeys_from_spec() -> bool {
        true
    }

    open spec fn from_spec(err: sled::Error) -> ErrorKind {
        ErrorKind::Sled(err)
    }
}

impl From<std::str::Utf8Error> for ErrorKind {
    fn from(err: std::str::Utf8Error) -> (r: ErrorKind)
        ensures
            r == ErrorKind::Str(err),
    {
        ErrorKind::Str(err)
    }
}

impl vstd::std_specs::convert::FromSpecImpl<std::str::Utf8Error> for ErrorKind {
    open spec fn obeys_from_spec() -> bool {
        true
    }

    open spec fn from_spec(err: std::str::Utf8Error) -> ErrorKind {
        ErrorKind::Str(err)
    }
}

impl From<std::string::FromUtf8Error> for ErrorKind {
    fn from(err: std::string::FromUtf8Error) -> (r: ErrorKind)
        ensures
            r == ErrorKind::String(err),
    {
        ErrorKind::String(err)
    }
}

impl vstd::std_specs::convert::FromSpecImpl<std::string::FromUtf8Error> for ErrorKind {
    open spec fn obeys_from_spec() -> bool {
        true
    }

    open spec fn from_spec(err: std::string::FromUtf8Error) -> ErrorKind {
        ErrorKind::String(err)
    }
}

} // verus!
