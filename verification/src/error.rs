//! The error of the whole program, with a description of each failure.

use vstd::prelude::*;
use vstd::string::StringExecFns;
use crate::codec::DecodeError;
use crate::ingest::IngestError;
use crate::query::QueryError;
use crate::store::StoreError;

verus! {

/// A failure of the program. A failure that came from outside this library
/// holds the description that came with it.
#[derive(Debug)]
pub enum Error {
    /// Input or output failed.
    Io(String),
    /// The feed client failed.
    Rumqtt(String),
    /// A variable of the environment is missing or is no text.
    Var(String),
    /// The durable store failed.
    Rusqlite(String),
    /// The HTTP server failed.
    Hyper(String),
    /// A value that had to be there was absent.
    Missing,
    /// Text that had to be an integer was none.
    ParseInt(String),
    /// Text that had to be a number was none.
    ParseFloat(String),
    /// Bytes that had to be UTF-8 were not.
    FromUtf8(String),
    /// A value was not of the form that it had to have.
    InvalidValue,
}

/// The description of a store failure.
pub open spec fn store_text(e: StoreError) -> Seq<char> {
    match e {
        StoreError::Connection => "the store could not be reached"@,
        StoreError::Statement => "the store refused the statement"@,
        StoreError::Conflict => "the series holds a reading of that timestamp"@,
    }
}

impl Error {
    /// The description of the failure.
    pub open spec fn text(&self) -> Seq<char> {
        match self {
            Error::Io(description) => description@,
            Error::Rumqtt(description) => description@,
            Error::Var(description) => description@,
            Error::Rusqlite(description) => description@,
            Error::Hyper(description) => description@,
            Error::Missing => "std::option::Option value not present"@,
            Error::ParseInt(description) => description@,
            Error::ParseFloat(description) => description@,
            Error::FromUtf8(description) => description@,
            Error::InvalidValue => "given data value is invalid"@,
        }
    }

    /// The description of the failure.
    pub fn description(&self) -> (text: String)
        ensures
            text@ == self.text(),
    {
        match self {
            Error::Io(description) => description.clone(),
            Error::Rumqtt(description) => description.clone(),
            Error::Var(description) => description.clone(),
            Error::Rusqlite(description) => description.clone(),
            Error::Hyper(description) => description.clone(),
            Error::Missing => String::from_str("std::option::Option value not present"),
            Error::ParseInt(description) => description.clone(),
            Error::ParseFloat(description) => description.clone(),
            Error::FromUtf8(description) => description.clone(),
            Error::InvalidValue => String::from_str("given data value is invalid"),
        }
    }

    /// The failure that a payload which was not decoded stands for.
    pub fn from_decode(e: DecodeError) -> (error: Error)
        ensures
            e == DecodeError::MalformedBinary ==> error is InvalidValue,
            e == DecodeError::MalformedText ==> error is ParseFloat && error.text()
                == "invalid float literal"@,
            e == DecodeError::Encoding ==> error is FromUtf8 && error.text() == "invalid utf-8"@,
    {
        match e {
            DecodeError::MalformedBinary => Error::InvalidValue,
            DecodeError::MalformedText => Error::ParseFloat(String::from_str("invalid float literal")),
            DecodeError::Encoding => Error::FromUtf8(String::from_str("invalid utf-8")),
        }
    }

    /// The failure that a failure of the store stands for.
    pub fn from_store(e: StoreError) -> (error: Error)
        ensures
            error is Rusqlite,
            error.text() == store_text(e),
    {
        match e {
            StoreError::Connection => Error::Rusqlite(
                String::from_str("the store could not be reached"),
            ),
            StoreError::Statement => Error::Rusqlite(
                String::from_str("the store refused the statement"),
            ),
            StoreError::Conflict => Error::Rusqlite(
                String::from_str("the series holds a reading of that timestamp"),
            ),
        }
    }

    /// The failure that a query which was not answered stands for.
    pub fn from_query(e: QueryError) -> (error: Error)
        ensures
            e == QueryError::UnknownTopic ==> error is InvalidValue,
            e == QueryError::MissingFrom ==> error is Missing,
            e == QueryError::MalformedTo ==> error is ParseInt && error.text()
                == "invalid digit found in string"@,
            e matches QueryError::Store(s) ==> error is Rusqlite && error.text() == store_text(s),
    {
        match e {
            QueryError::UnknownTopic => Error::InvalidValue,
            QueryError::MissingFrom => Error::Missing,
            QueryError::MalformedTo => Error::ParseInt(
                String::from_str("invalid digit found in string"),
            ),
            QueryError::Store(s) => Error::from_store(s),
        }
    }

    /// The failure that a message which was not ingested stands for.
    pub fn from_ingest(e: IngestError) -> (error: Error)
        ensures
            e == IngestError::UnknownTopic ==> error is InvalidValue,
            e matches IngestError::Decode(d) ==> error.text() == Error::decode_text(d),
            e matches IngestError::Store(s) ==> error is Rusqlite && error.text() == store_text(s),
    {
        match e {
            IngestError::UnknownTopic => Error::InvalidValue,
            IngestError::Decode(d) => Error::from_decode(d),
            IngestError::Store(s) => Error::from_store(s),
        }
    }

    /// The description of a payload that was not decoded.
    pub open spec fn decode_text(e: DecodeError) -> Seq<char> {
        match e {
            DecodeError::MalformedBinary => "given data value is invalid"@,
            DecodeError::MalformedText => "invalid float literal"@,
            DecodeError::Encoding => "invalid utf-8"@,
        }
    }
}

} // verus!
