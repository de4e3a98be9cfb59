//! The error type shared by every storage component.

use vstd::prelude::*;
use vstd::string::*;

use crate::text::{decimal, decimal_digits};

verus! {

/// The failures that storage operations report.
#[derive(Debug)]
pub enum Error {
    /// An input or output failure, carried as its message.
    Io(String),
    /// A serialization or deserialization failure.
    Serialization(String),
    /// The requested key was not found.
    KeyNotFound,
    /// Data corruption was detected.
    Corruption(String),
    /// An invalid operation was attempted.
    InvalidOperation(String),
    /// A storage engine failure, such as a full log file.
    StorageEngine(String),
    /// The in-memory table is full and needs to be flushed.
    MemTableFull,
    /// Invalid file or data format.
    InvalidFormat(String),
    /// A key or value exceeds the maximum allowed size.
    EntrySizeExceeded { size: usize, max_size: usize },
    /// A resource was used after it had been consumed or finished.
    ResourceConsumed(String),
    /// An operation was finished without any data.
    EmptyOperation(String),
    /// Keys were not supplied in the required sorted order.
    KeyOrderingViolation { last_key: String, new_key: String },
    /// A transaction failure.
    Transaction(String),
}

/// The message that describes an error.
pub open spec fn error_text(e: Error) -> Seq<char> {
    match e {
        Error::Io(msg) => "IO error: "@ + msg@,
        Error::Serialization(msg) => "Serialization error: "@ + msg@,
        Error::KeyNotFound => "Key not found"@,
        Error::Corruption(msg) => "Corruption detected: "@ + msg@,
        Error::InvalidOperation(msg) => "Invalid operation: "@ + msg@,
        Error::StorageEngine(msg) => "Storage engine error: "@ + msg@,
        Error::MemTableFull => "MemTable is full"@,
        Error::InvalidFormat(msg) => "Invalid format: "@ + msg@,
        Error::EntrySizeExceeded { size, max_size } => "Entry size exceeds maximum: "@
            + decimal_digits(size as nat) + " > "@ + decimal_digits(max_size as nat),
        Error::ResourceConsumed(msg) => "Resource already consumed: "@ + msg@,
        Error::EmptyOperation(msg) => "Operation has no data: "@ + msg@,
        Error::KeyOrderingViolation { last_key, new_key } =>
            "Key ordering violation: expected key > "@ + last_key@ + ", got "@ + new_key@,
        Error::Transaction(msg) => "Transaction error: "@ + msg@,
    }
}

/// Starts a message with `prefix` and goes on with `detail`.
fn prefixed(prefix: &str, detail: &String) -> (s: String)
    ensures
        s@ == prefix@ + detail@,
{
    let mut s = String::from_str(prefix);
    s.append(detail.as_str());
    s
}

impl Error {
    /// Describes the error in words.
    pub fn to_string(&self) -> (s: String)
        ensures
            s@ == error_text(*self),
    {
        match self {
            Error::Io(msg) => prefixed("IO error: ", msg),
            Error::Serialization(msg) => prefixed("Serialization error: ", msg),
            Error::KeyNotFound => String::from_str("Key not found"),
            Error::Corruption(msg) => prefixed("Corruption detected: ", msg),
            Error::InvalidOperation(msg) => prefixed("Invalid operation: ", msg),
            Error::StorageEngine(msg) => prefixed("Storage engine error: ", msg),
            Error::MemTableFull => String::from_str("MemTable is full"),
            Error::InvalidFormat(msg) => prefixed("Invalid format: ", msg),
            Error::EntrySizeExceeded { size, max_size } => {
                let mut s = String::from_str("Entry size exceeds maximum: ");
                let first = decimal(*size as u64);
                s.append(first.as_str());
                s.append(" > ");
                let second = decimal(*max_size as u64);
                s.append(second.as_str());
                s
            },
            Error::ResourceConsumed(msg) => prefixed("Resource already consumed: ", msg),
            Error::EmptyOperation(msg) => prefixed("Operation has no data: ", msg),
            Error::KeyOrderingViolation { last_key, new_key } => {
                let mut s = String::from_str("Key ordering violation: expected key > ");
                s.append(last_key.as_str());
                s.append(", got ");
                s.append(new_key.as_str());
                s
            },
            Error::Transaction(msg) => prefixed("Transaction error: ", msg),
        }
    }
}

/// The result type of storage operations.
pub type Result<T> = core::result::Result<T, Error>;

} // verus!
