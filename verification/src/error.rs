//! The library's error type.
use vstd::prelude::*;
use crate::text::{chars_of, push_str, string_of};

verus! {

/// Errors reported by CassetteDB operations.
#[derive(Debug)]
pub enum CassetteError {
    /// An I/O failure, with the system's message.
    Io(String),
    /// A (de)serialization failure, with the parser's message.
    Serialization(String),
    /// Stored data that cannot be read back.
    Corrupt(String),
    /// A query string that does not parse.
    InvalidQuery(String),
    /// A document that does not exist.
    NotFound(String),
    /// A transaction conflict.
    Conflict,
    /// A write-ahead-log failure.
    Wal(String),
    /// An index failure.
    Index(String),
    /// A cluster operation refused by the cluster's state.
    Cluster(String),
    /// A distributed-transaction operation refused by the transaction's state.
    DistTx(String),
    /// A sharding failure.
    Shard(String),
}

/// The message of an error: a prefix naming its kind, then its detail.
pub open spec fn error_message(e: CassetteError) -> Seq<char> {
    match e {
        CassetteError::Io(m) => "IO error: "@ + m@,
        CassetteError::Serialization(m) => "Serialization error: "@ + m@,
        CassetteError::Corrupt(m) => "Corrupt database: "@ + m@,
        CassetteError::InvalidQuery(m) => "Invalid query: "@ + m@,
        CassetteError::NotFound(m) => "Document not found: "@ + m@,
        CassetteError::Conflict => "Transaction conflict"@,
        CassetteError::Wal(m) => "Wal error: "@ + m@,
        CassetteError::Index(m) => "Index error: "@ + m@,
        CassetteError::Cluster(m) => "Cluster error: "@ + m@,
        CassetteError::DistTx(m) => "Distributed transaction error: "@ + m@,
        CassetteError::Shard(m) => "Shard error: "@ + m@,
    }
}

impl CassetteError {
    /// The error's message (see `error_message`).
    pub fn to_text(&self) -> (r: String)
        ensures
            r@ == error_message(*self),
    {
        let (prefix, detail): (&str, &str) = match self {
            CassetteError::Io(m) => ("IO error: ", m.as_str()),
            CassetteError::Serialization(m) => ("Serialization error: ", m.as_str()),
            CassetteError::Corrupt(m) => ("Corrupt database: ", m.as_str()),
            CassetteError::InvalidQuery(m) => ("Invalid query: ", m.as_str()),
            CassetteError::NotFound(m) => ("Document not found: ", m.as_str()),
            CassetteError::Conflict => ("Transaction conflict", ""),
            CassetteError::Wal(m) => ("Wal error: ", m.as_str()),
            CassetteError::Index(m) => ("Index error: ", m.as_str()),
            CassetteError::Cluster(m) => ("Cluster error: ", m.as_str()),
            CassetteError::DistTx(m) => ("Distributed transaction error: ", m.as_str()),
            CassetteError::Shard(m) => ("Shard error: ", m.as_str()),
        };
        let mut out = chars_of(prefix);
        push_str(&mut out, detail);
        proof {
            if *self is Conflict {
                reveal_strlit("");
                assert(out@ =~= "Transaction conflict"@);
            }
        }
        string_of(out.as_slice())
    }
}

} // verus!
