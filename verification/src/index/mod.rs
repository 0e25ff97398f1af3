//! Indexing: from source text to bound, fingerprinted symbols.

pub mod accounts;
pub mod discovery;
pub mod extractors;
pub mod fingerprint;
pub mod incremental;
pub mod listed;
pub mod listing;
pub mod named;
pub mod node_id;
pub mod parser;
pub mod progress;
pub mod qualified_name;
pub mod reading;
pub mod resolve;
pub mod run;
pub mod source;
pub mod syntax;
pub mod tier;

pub use discovery::{Discovery, DiscoveryStrategy};
pub use progress::{progress_tick_due, Progress, ProgressStyle};
pub use run::{IndexConfig, IndexResult};
pub use tier::IndexingTier;
