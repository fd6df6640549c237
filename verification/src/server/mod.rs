//! Server mode: the request handling that the TCP and HTTP servers share.
//!
//! The servers' sockets, tasks and JSON encoding live with the caller; what
//! is decided about a request (who may make it, where it goes, what it asks)
//! is decided here.
pub mod auth;
pub mod http;
pub mod tcp;

use vstd::prelude::*;
use crate::text::opt_view;

verus! {

/// The envelope of every server response.
#[derive(Debug)]
pub struct ServerResponse<T> {
    pub success: bool,
    pub data: Option<T>,
    pub error: Option<String>,
}

impl<T> ServerResponse<T> {
    /// A successful response carrying `data`.
    pub fn ok(data: T) -> (r: Self)
        ensures
            r.success,
            r.data == Some(data),
            r.error is None,
    {
        ServerResponse { success: true, data: Some(data), error: None }
    }

    /// A failed response carrying the message `msg`.
    pub fn err(msg: &str) -> (r: Self)
        ensures
            !r.success,
            r.data is None,
            opt_view(r.error) == Some(msg@),
    {
        ServerResponse { success: false, data: None, error: Some(msg.to_owned()) }
    }
}

/// Settings shared by the servers.
#[derive(Debug)]
pub struct ServerConfig {
    pub bind_addr: String,
    pub db_dir: String,
    pub auth_token: Option<String>,
    pub pool_size: usize,
    pub max_connections: usize,
}

impl Default for ServerConfig {
    /// Bind to `127.0.0.1:0`, databases under `./databases`, no
    /// authentication, ten pooled engines per database, a hundred connections.
    fn default() -> (r: Self)
        ensures
            r.bind_addr@ == "127.0.0.1:0"@,
            r.db_dir@ == "./databases"@,
            r.auth_token is None,
            r.pool_size == 10,
            r.max_connections == 100,
    {
        ServerConfig {
            bind_addr: "127.0.0.1:0".to_owned(),
            db_dir: "./databases".to_owned(),
            auth_token: None,
            pool_size: 10,
            max_connections: 100,
        }
    }
}

} // verus!
