//! The error kinds a crawl distinguishes, and the policy mappings over them:
//! which HTTP status a manager answers with, and which failures a feeder
//! retries.

use vstd::prelude::*;

verus! {

/// Everything that can go wrong with one job or one request.
#[derive(Debug)]
pub enum CrawlerError {
    /// The graph store could not be reached.
    Neo4jConnection { message: String },
    /// No candidate suffix of the host answered with an IPv4 address.
    DnsResolution { domain: String, attempts: u32 },
    /// The HTTP request failed in transport, before any response.
    HttpRequest { url: String },
    /// The server answered with a non-success status.
    HttpStatus { url: String, status: u16 },
    /// The HTTP request ran into the process-wide timeout.
    HttpTimeout { url: String },
    /// The response arrived but its body could not be read.
    HttpBodyRead { url: String },
    /// A graph store query failed.
    Neo4jQuery { message: String },
}

/// A permanent client-side rejection: HTTP status 4xx. Retrying cannot help.
pub open spec fn is_client_error(e: CrawlerError) -> bool {
    e matches CrawlerError::HttpStatus { status, .. } && 400 <= status < 500
}

/// The HTTP status code the manager answers a failed crawl request with:
/// 504 for a fetch timeout, 404 when the seed page itself was not found,
/// 502 for other fetch or DNS failures, 500 for store failures.
pub open spec fn status_for(e: CrawlerError) -> u16 {
    match e {
        CrawlerError::HttpTimeout { .. } => 504,
        CrawlerError::HttpStatus { status, .. } => if status == 404 {
            404
        } else {
            502
        },
        CrawlerError::HttpRequest { .. } => 502,
        CrawlerError::HttpBodyRead { .. } => 502,
        CrawlerError::DnsResolution { .. } => 502,
        CrawlerError::Neo4jConnection { .. } => 500,
        CrawlerError::Neo4jQuery { .. } => 500,
    }
}

/// Map an error to the HTTP status code of the manager's answer, as
/// `status_for` says.
pub fn crawler_error_to_status(err: &CrawlerError) -> (r: u16)
    ensures
        r == status_for(*err),
{
    match err {
        CrawlerError::HttpTimeout { .. } => 504,
        CrawlerError::HttpStatus { status, .. } => {
            if *status == 404 {
                404
            } else {
                502
            }
        },
        CrawlerError::HttpRequest { .. } => 502,
        CrawlerError::HttpBodyRead { .. } => 502,
        CrawlerError::DnsResolution { .. } => 502,
        CrawlerError::Neo4jConnection { .. } => 500,
        CrawlerError::Neo4jQuery { .. } => 500,
    }
}

/// A 4xx answer, as `is_client_error` says.
pub fn client_error(err: &CrawlerError) -> (r: bool)
    ensures
        r == is_client_error(*err),
{
    match err {
        CrawlerError::HttpStatus { status, .. } => *status >= 400 && *status < 500,
        _ => false,
    }
}

} // verus!
