//! The names of the observations.
use vstd::prelude::*;

verus! {

/// Upstream latencies of recorded requests, in milliseconds.
pub const MOCK_FIDELITY_MS: &'static str = "gostly_mock_fidelity_ms";

} // verus!
