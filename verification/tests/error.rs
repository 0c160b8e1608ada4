use subscriber::codec::DecodeError;
use subscriber::error::Error;
use subscriber::ingest::IngestError;
use subscriber::query::QueryError;
use subscriber::store::StoreError;

#[test]
fn outside_failures_keep_their_description() {
    assert_eq!(Error::Io("broken pipe".to_string()).description(), "broken pipe");
    assert_eq!(Error::Rumqtt("connection refused".to_string()).description(), "connection refused");
    assert_eq!(Error::Var("environment variable not found".to_string()).description(), "environment variable not found");
    assert_eq!(Error::Rusqlite("no such table".to_string()).description(), "no such table");
    assert_eq!(Error::Hyper("invalid URI".to_string()).description(), "invalid URI");
    assert_eq!(Error::ParseInt("x".to_string()).description(), "x");
    assert_eq!(Error::ParseFloat("y".to_string()).description(), "y");
    assert_eq!(Error::FromUtf8("z".to_string()).description(), "z");
    assert_eq!(Error::Io(String::new()).description(), "");
}

#[test]
fn inside_failures_have_a_fixed_description() {
    assert_eq!(Error::Missing.description(), "std::option::Option value not present");
    assert_eq!(Error::InvalidValue.description(), "given data value is invalid");
}

#[test]
fn decode_failures_are_described() {
    assert_eq!(Error::from_decode(DecodeError::MalformedBinary).description(), "given data value is invalid");
    assert_eq!(Error::from_decode(DecodeError::MalformedText).description(), "invalid float literal");
    assert_eq!(Error::from_decode(DecodeError::Encoding).description(), "invalid utf-8");
    assert!(matches!(Error::from_decode(DecodeError::MalformedText), Error::ParseFloat(_)));
    assert!(matches!(Error::from_decode(DecodeError::Encoding), Error::FromUtf8(_)));
}

#[test]
fn store_failures_are_described() {
    assert_eq!(Error::from_store(StoreError::Connection).description(), "the store could not be reached");
    assert_eq!(Error::from_store(StoreError::Statement).description(), "the store refused the statement");
    assert_eq!(
        Error::from_store(StoreError::Conflict).description(),
        "the series holds a reading of that timestamp"
    );
    assert!(matches!(Error::from_store(StoreError::Conflict), Error::Rusqlite(_)));
}

#[test]
fn query_failures_are_described() {
    assert!(matches!(Error::from_query(QueryError::UnknownTopic), Error::InvalidValue));
    assert!(matches!(Error::from_query(QueryError::MissingFrom), Error::Missing));
    assert_eq!(Error::from_query(QueryError::MalformedTo).description(), "invalid digit found in string");
    assert_eq!(
        Error::from_query(QueryError::Store(StoreError::Statement)).description(),
        "the store refused the statement"
    );
}

#[test]
fn ingest_failures_are_described() {
    assert!(matches!(Error::from_ingest(IngestError::UnknownTopic), Error::InvalidValue));
    assert_eq!(
        Error::from_ingest(IngestError::Decode(DecodeError::Encoding)).description(),
        "invalid utf-8"
    );
    assert_eq!(
        Error::from_ingest(IngestError::Store(StoreError::Conflict)).description(),
        "the series holds a reading of that timestamp"
    );
}
