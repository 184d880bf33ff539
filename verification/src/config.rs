//! Static configuration: connection values and the numeric knobs of the
//! crawl, with their defaults and the bounds the workers rely on.

use vstd::prelude::*;

verus! {

/// All configuration of a manager or feeder process.
pub struct Config {
    pub neo4j_uri: String,
    pub neo4j_username: String,
    pub neo4j_password: String,
    pub http_timeout_secs: u64,
    pub max_attempts: i64,
    pub max_dns_depth: usize,
    pub poll_min_ms: u64,
    pub poll_max_ms: u64,
    pub stale_timeout_minutes: i64,
    pub server_port: u16,
}

impl Config {
    /// The bounds the workers rely on: at least one attempt, a sane backoff
    /// window, a non-negative stale timeout, and a DNS depth a probe counter
    /// can hold.
    pub open spec fn wf(self) -> bool {
        &&& self.max_attempts >= 1
        &&& 1 <= self.poll_min_ms <= self.poll_max_ms
        &&& self.stale_timeout_minutes >= 0
        &&& self.max_dns_depth <= 0xffff_ffff
    }

    /// A configuration with every knob at its default, around the given
    /// connection values.
    pub fn with_defaults(neo4j_uri: String, neo4j_username: String, neo4j_password: String) -> (r:
        Config)
        ensures
            r.wf(),
            r.neo4j_uri == neo4j_uri,
            r.neo4j_username == neo4j_username,
            r.neo4j_password == neo4j_password,
            r.http_timeout_secs == 10,
            r.max_attempts == 3,
            r.max_dns_depth == 5,
            r.poll_min_ms == 100,
            r.poll_max_ms == 30000,
            r.stale_timeout_minutes == 1,
            r.server_port == 8080,
    {
        Config {
            neo4j_uri,
            neo4j_username,
            neo4j_password,
            http_timeout_secs: 10,
            max_attempts: 3,
            max_dns_depth: 5,
            poll_min_ms: 100,
            poll_max_ms: 30000,
            stale_timeout_minutes: 1,
            server_port: 8080,
        }
    }
}

} // verus!
