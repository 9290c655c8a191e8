//! Verified core of a distributed-systems animation tool: the dependency-graph
//! text format, the YAML import/preset resolution rules and file checks,
//! node template parameter substitution, runtime topology edits made by node
//! scripts, message routing along connectors and travel time, the narration
//! queue, the random draws scripts use, and the ranking and grid stages of
//! the layouts.
use vstd::prelude::*;

pub mod text;
pub mod graph;
pub mod layering;
pub mod layout;
pub mod grid;
pub mod template;
pub mod topology;
pub mod narration;
pub mod imports;
pub mod logging;
pub mod rhai_lib;
pub mod chance;
pub mod schema;
pub mod connectors;
pub mod dispatch;
pub mod ingest;
pub mod flight;

verus! {

} // verus!
