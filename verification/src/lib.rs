//! Core of a client driver for a clustered, partitioned key-value store:
//! partition-aware batch routing with a configurable concurrency plan, and a
//! two-pass (size-estimate / write) binary encoder for nested data-type
//! operations.

pub mod batch;
pub mod cdt;
pub mod cluster;
pub mod errors;
pub mod key;
pub mod laws;
pub mod lemmas;
pub mod value;

pub use batch::BatchExecutor;
pub use batch::BatchRead;
pub use batch::Concurrency;
pub use cdt::Buffer;
pub use cdt::CdtArgument;
pub use cdt::CdtContext;
pub use cdt::CdtOperation;
pub use cluster::ClusterView;
pub use key::Key;
pub use key::PARTITION_COUNT;
pub use key::partition_of;
pub use value::Value;
