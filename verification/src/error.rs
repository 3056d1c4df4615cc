//! The error type of the graph operations and algorithms.
use vstd::prelude::*;

verus! {

/// Why a graph operation or algorithm could not give a result.
#[derive(Debug)]
pub enum SqliteGraphError {
    /// A node or entity that the operation names does not exist.
    NotFound(String),
    /// An argument is outside what the operation accepts.
    InvalidInput(String),
    /// A query over the graph could not be answered.
    Query(String),
    /// The graph does not have a property that the operation needs.
    Validation(String),
}

impl SqliteGraphError {
    /// A `NotFound` error with the given message.
    pub fn not_found(msg: String) -> (e: SqliteGraphError)
        ensures
            e == SqliteGraphError::NotFound(msg),
    {
        SqliteGraphError::NotFound(msg)
    }

    /// An `InvalidInput` error with the given message.
    pub fn invalid_input(msg: String) -> (e: SqliteGraphError)
        ensures
            e == SqliteGraphError::InvalidInput(msg),
    {
        SqliteGraphError::InvalidInput(msg)
    }

    /// A `Query` error with the given message.
    pub fn query(msg: String) -> (e: SqliteGraphError)
        ensures
            e == SqliteGraphError::Query(msg),
    {
        SqliteGraphError::Query(msg)
    }

    /// A `Validation` error with the given message.
    pub fn validation(msg: String) -> (e: SqliteGraphError)
        ensures
            e == SqliteGraphError::Validation(msg),
    {
        SqliteGraphError::Validation(msg)
    }

    /// The message that the error carries.
    pub fn message(&self) -> (m: &String)
        ensures
            m == match self {
                SqliteGraphError::NotFound(s) => s,
                SqliteGraphError::InvalidInput(s) => s,
                SqliteGraphError::Query(s) => s,
                SqliteGraphError::Validation(s) => s,
            },
    {
        match self {
            SqliteGraphError::NotFound(s) => s,
            SqliteGraphError::InvalidInput(s) => s,
            SqliteGraphError::Query(s) => s,
            SqliteGraphError::Validation(s) => s,
        }
    }
}

} // verus!
