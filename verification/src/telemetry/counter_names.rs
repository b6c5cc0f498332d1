//! The names of the counters.
use vstd::prelude::*;

verus! {

pub const AGENT_BOOTS_TOTAL: &'static str = "gostly_agent_boots_total";

pub const FIRST_REQUEST_PROXIED_TOTAL: &'static str = "gostly_first_request_proxied_total";

pub const FIRST_MOCK_RECORDED_TOTAL: &'static str = "gostly_first_mock_recorded_total";

pub const FIRST_MOCK_SERVED_TOTAL: &'static str = "gostly_first_mock_served_total";

} // verus!
