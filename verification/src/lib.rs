//! CassetteDB: a single-file JSON document database with Raft-based clustering.
pub mod assoc;
pub mod backup;
pub mod bytes;
pub mod cluster;
pub mod config;
pub mod db;
pub mod dist_tx;
pub mod engine;
pub mod document;
pub mod error;
pub mod feedback;
pub mod index;
pub mod json;
pub mod literal;
pub mod path_check;
pub mod query;
pub mod raft;
pub mod repl;
pub mod replication;
pub mod seqs;
pub mod server;
pub mod shard;
pub mod storage;
pub mod sync;
pub mod text;
pub mod transaction;
pub mod time;
pub mod wal;
