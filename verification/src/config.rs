//! The proxy's configuration, as the TOML file gives it.

use vstd::prelude::*;

use crate::error::SniProxyError;
use crate::router::{
    RouteTable, distinct_names, option_view, pairs_view, spec_from_config, table_outcome,
};

verus! {

/// Top-level configuration for `hickory-sni-proxy`.
///
/// The TOML tables `[backends]` and `[routes]` are held as lists of
/// `(key, value)` pairs in the order in which they were read.
#[derive(Debug, Clone)]
pub struct Config {
    /// Address to listen on, e.g. `0.0.0.0:443`.
    pub listen: String,
    /// Named upstream backends (`host:port`).
    pub backends: Vec<(String, String)>,
    /// SNI pattern → backend name.
    pub routes: Vec<(String, String)>,
    /// Backend used when no route matches.
    pub default_backend: Option<String>,
    /// Milliseconds to wait for a complete ClientHello (default 5000).
    pub peek_timeout_ms: u64,
}

/// The ClientHello wait when the configuration names none.
pub fn default_peek_timeout_ms() -> (ms: u64)
    ensures
        ms == 5000,
{
    5000
}

impl Config {
    /// The route table that this configuration describes. Route patterns and
    /// backend names are table keys, so each occurs once.
    pub fn route_table(&self) -> (res: Result<RouteTable, SniProxyError>)
        requires
            distinct_names(pairs_view(self.routes@)),
            distinct_names(pairs_view(self.backends@)),
        ensures
            table_outcome(res) == spec_from_config(
                pairs_view(self.routes@),
                pairs_view(self.backends@),
                option_view(self.default_backend),
            ),
            res matches Ok(t) ==> t@.wf(),
    {
        let default_backend = match &self.default_backend {
            Some(name) => Some(name.clone()),
            None => None,
        };
        RouteTable::from_config(self.routes.as_slice(), self.backends.as_slice(), default_backend)
    }
}

} // verus!
