//! Analytics over GraphQL query logs: parsing log lines into records,
//! grouping records by query shape, keeping per-group statistics that merge
//! across shards, and sampling distinct queries per subgraph.

pub mod aggregate;
pub mod common;
pub mod entry;
pub mod extract;
pub mod key;
pub mod number;
pub mod sampler;
pub mod stats;
pub mod text;

pub use aggregate::{combine, Aggregator, Overflow};
pub use entry::{field, rfield, Entry, EntryParser, TextEntryParser};
pub use extract::{classify_payload, stamped_text, JsonlWriter, PayloadKind, TextWriter};
pub use key::{group_key, key_for, source_from, KeySource, ShapeFingerprint};
pub use sampler::{Sample, Sampler};
pub use stats::{sort_queries, zero, QueryInfo, SortKey, SLOW_THRESHOLD};
