//! Backend engine of a sampling profiler's visualizer: it ingests batches
//! of captured stack traces, folds them into bucketed utilization
//! statistics, and answers flame-graph and point queries over the stored
//! log. Transport, asset serving, and thread plumbing live outside this
//! crate; everything here is the logic those layers call into.

pub mod flame;
pub mod query;
pub mod stats;
pub mod store;
pub mod trace;
pub mod worker;

pub use flame::aggregate_traces;
pub use flame::FrameNode;
pub use flame::NodeLabel;
pub use query::resolve_index;
pub use query::QueryError;
pub use stats::Fraction;
pub use stats::Statistics;
pub use stats::ThreadSeries;
pub use store::Store;
pub use trace::Frame;
pub use trace::StackTrace;
pub use worker::Message;
pub use worker::Worker;
pub use worker::BUCKET_MS;
