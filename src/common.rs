//! Names and markers that the log format and the sampler share.
use vstd::prelude::*;

verus! {

/// The index-node status API logs its requests under this subgraph name.
pub const INDEX_NODE_SUBGRAPH: &'static str = "indexnode";

/// The subgraph of subgraphs logs its requests under this name.
pub const SUBGRAPHS_SUBGRAPH: &'static str = "subgraphs";

/// A log line that holds this text is about a GraphQL query.
pub const GQL_MARKER: &'static str = "Query timing (GraphQL)";

/// A log line that holds this text is about a SQL query.
pub const SQL_MARKER: &'static str = "Query timing (SQL)";

/// The log service puts this before a line that it shortened.
pub const TRIMMED: &'static str = "[Trimmed]";

} // verus!
