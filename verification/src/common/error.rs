//! The errors of the store.

use vstd::prelude::*;

verus! {

#[derive(Debug, Clone, PartialEq, Eq)]
pub enum Error {
    Io(String),
    Corruption(String),
    KeyNotFound,
    TransactionConflict,
    TransactionAborted,
    InvalidArgument(String),
    LockTimeout,
    Deadlock,
    LockConflict,
    WriteSkew,
    PhantomRead,
    SerializableConflict,
}

/// An error with its text as a sequence of characters.
pub enum Fault {
    Io(Seq<char>),
    Corruption(Seq<char>),
    KeyNotFound,
    TransactionConflict,
    TransactionAborted,
    InvalidArgument(Seq<char>),
    LockTimeout,
    Deadlock,
    LockConflict,
    WriteSkew,
    PhantomRead,
    SerializableConflict,
}

impl View for Error {
    type V = Fault;

    open spec fn view(&self) -> Fault {
        match self {
            Error::Io(e) => Fault::Io(e@),
            Error::Corruption(msg) => Fault::Corruption(msg@),
            Error::KeyNotFound => Fault::KeyNotFound,
            Error::TransactionConflict => Fault::TransactionConflict,
            Error::TransactionAborted => Fault::TransactionAborted,
            Error::InvalidArgument(msg) => Fault::InvalidArgument(msg@),
            Error::LockTimeout => Fault::LockTimeout,
            Error::Deadlock => Fault::Deadlock,
            Error::LockConflict => Fault::LockConflict,
            Error::WriteSkew => Fault::WriteSkew,
            Error::PhantomRead => Fault::PhantomRead,
            Error::SerializableConflict => Fault::SerializableConflict,
        }
    }
}

impl Fault {
    /// The text that describes the error.
    pub open spec fn text(self) -> Seq<char> {
        match self {
            Fault::Io(e) => "I/O error: "@ + e,
            Fault::Corruption(msg) => "Corruption: "@ + msg,
            Fault::KeyNotFound => "Key not found"@,
            Fault::TransactionConflict => "Transaction conflict"@,
            Fault::TransactionAborted => "Transaction aborted"@,
            Fault::InvalidArgument(msg) => "Invalid argument: "@ + msg,
            Fault::LockTimeout => "Lock acquisition timed out"@,
            Fault::Deadlock => "Deadlock detected"@,
            Fault::LockConflict => "Lock conflict"@,
            Fault::WriteSkew => "Write skew detected (serializable violation)"@,
            Fault::PhantomRead => "Phantom read detected (serializable violation)"@,
            Fault::SerializableConflict => {
                "Serializable conflict (dangerous structure detected)"@
            },
        }
    }
}

impl Error {
    /// A corruption error with the given text.
    pub fn corruption(text: &str) -> (e: Error)
        ensures
            e@ == Fault::Corruption(text@),
    {
        Error::Corruption(text.to_owned())
    }

    /// The text that describes the error.
    pub fn message(&self) -> (text: String)
        ensures
            text@ == self@.text(),
    {
        match self {
            Error::Io(e) => "I/O error: ".to_owned().concat(e.as_str()),
            Error::Corruption(msg) => "Corruption: ".to_owned().concat(msg.as_str()),
            Error::KeyNotFound => "Key not found".to_owned(),
            Error::TransactionConflict => "Transaction conflict".to_owned(),
            Error::TransactionAborted => "Transaction aborted".to_owned(),
            Error::InvalidArgument(msg) => "Invalid argument: ".to_owned().concat(msg.as_str()),
            Error::LockTimeout => "Lock acquisition timed out".to_owned(),
            Error::Deadlock => "Deadlock detected".to_owned(),
            Error::LockConflict => "Lock conflict".to_owned(),
            Error::WriteSkew => "Write skew detected (serializable violation)".to_owned(),
            Error::PhantomRead => "Phantom read detected (serializable violation)".to_owned(),
            Error::SerializableConflict => {
                "Serializable conflict (dangerous structure detected)".to_owned()
            },
        }
    }
}

} // verus!
