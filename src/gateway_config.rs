//! Settings of the gateway ingester: sharding and the API client.

use vstd::prelude::*;
use crate::interval::Interval;

verus! {

/// Which shards to run.
#[derive(Debug, Clone, Copy, PartialEq, Eq, Structural)]
pub enum Shards {
    /// One bucket of shards.
    Bucket { bucket_id: u64, concurrency: u64, total: u64 },
    /// The shards `from` up to, not including, `to`, of `total`.
    Range { from: u64, to: u64, total: u64 },
    /// As many as the service recommends.
    Recommended,
}

impl Default for Shards {
    fn default() -> (r: Shards)
        ensures
            r == Shards::Recommended,
    {
        Shards::Recommended
    }
}

/// Where the API is, when not the public one.
#[derive(Debug)]
pub struct ApiBase {
    pub url: String,
    pub use_http: bool,
}

/// The API client's settings.
#[derive(Debug)]
pub struct Api {
    /// The API version; never zero.
    pub version: Option<usize>,
    pub base: Option<ApiBase>,
    /// How long a request may take.
    pub timeout: Interval,
}

impl Api {
    /// The version is not zero and the timeout is well formed.
    pub open spec fn wf(&self) -> bool {
        (self.version matches Some(v) ==> v > 0) && self.timeout.wf()
    }

    /// The request timeout when none is given: ten seconds.
    pub fn default_timeout() -> (r: Interval)
        ensures
            r.wf(),
            r.secs == 10,
            r.nanos == 0,
    {
        Interval::from_secs(10)
    }
}

impl Default for Api {
    fn default() -> (r: Api)
        ensures
            r.wf(),
            r.version is None,
            r.base is None,
            r.timeout.secs == 10 && r.timeout.nanos == 0,
    {
        Api { version: None, base: None, timeout: Api::default_timeout() }
    }
}

} // verus!
