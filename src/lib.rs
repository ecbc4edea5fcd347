//! Declarative DNS reconciliation: tinydns parsing, resource indexing and
//! the three-way comparison of local, state and remote record sets.
pub mod text;
pub mod tinydns;
pub mod parser;
pub mod resource;
pub mod compare;
pub mod state;
pub mod tidy;
pub mod driver;
pub mod clock;

use std::collections::HashMap;
use vstd::prelude::*;

verus! {

/// Everything a run is configured with.
pub struct MacrotisConfig {
    pub provider: MacrotisProviderConfig,
    pub statefile: MacrotisStateConfig,
    pub zones: Vec<Zone>,
}

/// How to reach the DNS provider; `role_arn` is needed when `assume_role` is set.
pub struct MacrotisProviderConfig {
    pub name: String,
    pub region: Option<String>,
    pub assume_role: bool,
    pub role_arn: Option<String>,
    pub session_name: Option<String>,
}

/// Where the state snapshot lives: `filename` for the local backend,
/// `bucket` and `key` (and optionally the rest) for the object store.
pub struct MacrotisStateConfig {
    pub backend: String,
    pub filename: Option<String>,
    pub bucket: Option<String>,
    pub key: Option<String>,
    pub region: Option<String>,
    pub role_arn: Option<String>,
    pub tags: Option<HashMap<String, String>>,
    pub session_name: Option<String>,
}

/// One hosted zone: records whose name holds `domain` belong to zone `id`.
pub struct Zone {
    pub name: String,
    pub domain: String,
    pub id: String,
}

} // verus!
