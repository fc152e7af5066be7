//! Settings of the stream-store relay: where the store is, the group, and the streams.

use vstd::prelude::*;

verus! {

/// The relay's settings.
#[derive(Debug)]
pub struct Config {
    /// A file to read the settings from instead.
    pub config_file: Option<String>,
    /// The store's address, `host:port`.
    pub address: String,
    /// The consumer group.
    pub group: String,
    /// The streams to consume.
    pub events: Vec<String>,
}

/// The settings as a file holds them.
#[derive(Debug)]
pub struct Opt {
    pub address: String,
    pub group: String,
    pub events: Vec<String>,
}

impl Config {
    /// The store's address when none is given: `localhost:6379`.
    pub fn default_address() -> (r: String)
        ensures
            r@ == "localhost:6379"@,
    {
        "localhost:6379".to_owned()
    }

    /// The streams consumed when none are given: none.
    pub fn default_events() -> (r: Vec<String>)
        ensures
            r@.len() == 0,
    {
        Vec::new()
    }
}

} // verus!
