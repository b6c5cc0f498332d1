//! The core of a recording HTTP proxy: the mock library, the match pipeline,
//! chaos injection, captured resources and the decisions around them.
#![allow(unused_imports)]

pub mod chaos;
pub mod chars;
pub mod cli;
pub mod dup;
pub mod faults;
pub mod files;
pub mod headers;
pub mod io;
pub mod json;
pub mod markov_chaos;
pub mod matcher;
pub mod numbers;
pub mod ordmap;
pub mod proxy;
pub mod recording;
pub mod resource_store;
pub mod responses;
pub mod routing;
pub mod statechart;
pub mod substitute;
pub mod telemetry;
pub mod text;
pub mod timestamps;
pub mod types;
pub mod uri;
pub mod watch;
pub mod wide_events;
pub mod workload_class;
