//! Configuration shape: the polling interval that parameterizes the merge
//! threshold, and the set of probed websites. Reading the file and parsing
//! it belong to the process bootstrap, outside this library.

use vstd::prelude::*;

verus! {

/// One probed endpoint: a unique name and its URL.
#[derive(Debug)]
pub struct WebsiteConfig {
    pub name: String,
    pub url: String,
}

/// Process configuration. `interval_seconds` is the probe tick period and
/// directly parameterizes the merge threshold of the compaction rule.
#[derive(Debug)]
pub struct Config {
    pub interval_seconds: u64,
    pub websites: Vec<WebsiteConfig>,
    pub db_url: String,
}

/// Storage location used when the configuration does not name one.
pub fn default_db_url() -> (r: String)
    ensures
        r@ == "uptime.db"@,
{
    "uptime.db".to_owned()
}

} // verus!
