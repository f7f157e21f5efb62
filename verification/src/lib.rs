//! Aggregation of sampled call-stack traces into folded-stack frequency
//! tables, in the line-oriented text format that flame-graph renderers read.
//!
//! Each sampled [`trace::StackTrace`] is folded into a single byte key by
//! rendering its frames from the innermost (last sampled) to the outermost.
//! An [`aggregator::Flamegraph`] counts how often each key occurs, both over
//! all samples and over the samples taken while the global interpreter lock
//! was held, and serializes either table one `key count` line at a time.

pub mod aggregator;
pub mod encode;
pub mod serialize;
pub mod table;
pub mod trace;

pub use aggregator::Flamegraph;
pub use table::CountTable;
pub use trace::Frame;
pub use trace::StackTrace;
