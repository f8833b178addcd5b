//! An event-ingestion and query library: clients push timestamped,
//! account/application-scoped events and later retrieve them by filter.
//!
//! The core is the storage capability and its two backends — an in-memory
//! store and a partitioned append-only file store — together with the
//! binary-safe record codec that writes one event per line of compact
//! JSON text and recovers it byte-exactly.

use vstd::prelude::*;

mod foreign;

pub mod codec;
pub mod event;
pub mod file_storage;
pub mod memory_storage;
pub mod server;
pub mod storage;
pub mod text;

pub use event::Additional;
pub use event::ErrorDetails;
pub use event::Event;
pub use event::EventsFilter;
pub use event::Timestamp;
pub use event::Timezone;
pub use file_storage::AddPlan;
pub use file_storage::FileStorage;
pub use foreign::b64_of;
pub use foreign::sanitized_of;
pub use foreign::ClockInstant;
pub use memory_storage::MemoryStorage;
pub use server::MyServer;
pub use storage::EventStorage;

verus! {

} // verus!
