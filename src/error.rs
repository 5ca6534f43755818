use vstd::prelude::*;

verus! {

/// Declares `std::io::Error`, carried by [`KvsError::Io`].
#[verifier::external_type_specification]
#[verifier::external_body]
pub struct ExIoError(std::io::Error);

/// Declares `serde_json::Error`, carried by [`KvsError::Serde`].
#[verifier::external_type_specification]
#[verifier::external_body]
pub struct ExJsonError(serde_json::Error);

/// Declares `std::string::FromUtf8Error`, carried by [`KvsError::Utf8`].
#[verifier::external_type_specification]
#[verifier::external_body]
pub struct ExFromUtf8Error(std::string::FromUtf8Error);

/// The failures that the store reports to its callers.
#[derive(Debug)]
pub enum KvsError {
    /// IO error
    Io(std::io::Error),
    /// serialization or deserialization error
    Serde(serde_json::Error),
    /// error reported by a delegated storage backend
    Sled(String),
    /// Removing non-existent key error
    KeyNotFound,
    /// Unexpected command type error.
    /// It indicated a corrupted log or a program bug.
    UnexpectedCommandType,
    /// Key or value is invalid UTF-8 sequence
    Utf8(std::string::FromUtf8Error),
    /// Error with a string message
    StringError(String),
}

impl KvsError {
    /// A short text that describes the error.
    pub fn message(&self) -> (r: String)
        ensures
            match self {
                KvsError::Io(_) => r@ == "IO error"@,
                KvsError::Serde(_) => r@ == "serde_json error"@,
                KvsError::Sled(m) => r@ == m@,
                KvsError::KeyNotFound => r@ == "Key not found"@,
                KvsError::UnexpectedCommandType => r@ == "Unexpected command type"@,
                KvsError::Utf8(_) => r@ == "UTF-8 error"@,
                KvsError::StringError(m) => r@ == m@,
            },
    {
        match self {
            KvsError::Io(_) => String::from_str("IO error"),
            KvsError::Serde(_) => String::from_str("serde_json error"),
            KvsError::Sled(m) => m.clone(),
            KvsError::KeyNotFound => String::from_str("Key not found"),
            KvsError::UnexpectedCommandType => String::from_str("Unexpected command type"),
            KvsError::Utf8(_) => String::from_str("UTF-8 error"),
            KvsError::StringError(m) => m.clone(),
        }
    }
}

impl From<std::io::Error> for KvsError {
    fn from(err: std::io::Error) -> (r: KvsError) {
        KvsError::Io(err)
    }
}

impl vstd::std_specs::convert::FromSpecImpl<std::io::Error> for KvsError {
    open spec fn obeys_from_spec() -> bool {
        true
    }

    open spec fn from_spec(v: std::io::Error) -> KvsError {
        KvsError::Io(v)
    }
}

impl From<serde_json::Error> for KvsError {
    fn from(err: serde_json::Error) -> (r: KvsError) {
        KvsError::Serde(err)
    }
}

impl vstd::std_specs::convert::FromSpecImpl<serde_json::Error> for KvsError {
    open spec fn obeys_from_spec() -> bool {
        true
    }

    open spec fn from_spec(v: serde_json::Error) -> KvsError {
        KvsError::Serde(v)
    }
}

impl From<std::string::FromUtf8Error> for KvsError {
    fn from(err: std::string::FromUtf8Error) -> (r: KvsError) {
        KvsError::Utf8(err)
    }
}

impl vstd::std_specs::convert::FromSpecImpl<std::string::FromUtf8Error> for KvsError {
    open spec fn obeys_from_spec() -> bool {
        true
    }

    open spec fn from_spec(v: std::string::FromUtf8Error) -> KvsError {
        KvsError::Utf8(v)
    }
}

/// The result type of the store's operations.
pub type Result<T> = std::result::Result<T, KvsError>;

} // verus!
