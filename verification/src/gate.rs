//! Data describing the model-serving control plane: connection settings,
//! health, registered models, routes and policies.
//!
//! The HTTP client that fills these records lives outside this library.
use vstd::prelude::*;

verus! {

/// Connection settings for the control plane.
pub struct GateConfig {
    pub base_url: String,
}

impl Default for GateConfig {
    fn default() -> (r: Self)
        ensures
            r.base_url@ == "http://localhost:8080"@,
    {
        GateConfig { base_url: "http://localhost:8080".to_owned() }
    }
}

/// Health of a control-plane instance.
pub struct GateStatus {
    pub healthy: bool,
    pub url: String,
    pub version: Option<String>,
    pub models_loaded: Option<usize>,
}

/// A registered model.
pub struct ModelInfo {
    pub name: String,
    pub path: String,
    pub format: String,
    pub loaded: bool,
    pub hash: Option<String>,
}

/// One routing table entry.
pub struct RouteEntry {
    pub model: String,
    pub endpoint: String,
    pub active: bool,
}

/// Security policy summary.
pub struct PolicyInfo {
    pub mode: String,
    pub labels_count: usize,
    pub boundaries_count: usize,
    pub whitelist_count: usize,
}

/// One trust boundary.
pub struct BoundaryInfo {
    pub name: String,
    pub classification: String,
    pub integrity: String,
    pub has_cedar_rules: bool,
    pub has_formal_proofs: bool,
}

} // verus!
