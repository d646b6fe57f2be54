//! Server settings.
use vstd::prelude::*;

verus! {

/// The connection limit used when the configured one is 0.
pub const DEFAULT_MAX_CONNECTIONS: usize = 1000;

/// Where to listen, how many connections to serve at once, and how long to
/// wait for a request before closing a connection.
pub struct Config {
    pub addr: String,
    pub max_connections: usize,
    pub read_timeout_ms: u64,
}

impl Default for Config {
    /// `127.0.0.1:1234`, 1000 connections, 30 seconds.
    fn default() -> (c: Self)
        ensures
            c.addr@ == "127.0.0.1:1234"@,
            c.max_connections == 1000,
            c.read_timeout_ms == 30_000,
    {
        Config { addr: "127.0.0.1:1234".to_owned(), max_connections: 1000, read_timeout_ms: 30_000 }
    }
}

impl Config {
    /// How many connections the server serves at once: the configured number,
    /// or 1000 when that is 0.
    pub fn connection_limit(&self) -> (n: usize)
        ensures
            n == if self.max_connections == 0 {
                DEFAULT_MAX_CONNECTIONS
            } else {
                self.max_connections
            },
    {
        if self.max_connections == 0 {
            DEFAULT_MAX_CONNECTIONS
        } else {
            self.max_connections
        }
    }
}

} // verus!
