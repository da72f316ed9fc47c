//! An in-memory priority queue with additive scores and first-come-first-served
//! order inside a score tier, together with the line protocol of the service
//! that exposes it over a byte stream.

pub mod clock;
pub mod framer;
pub mod index;
pub mod laws;
pub mod model;
pub mod protocol;
pub mod queue;
pub mod server;
pub mod shared;
pub mod stats;
pub mod text;

pub use framer::LineFramer;
pub use model::UpdateError;
pub use protocol::{Command, Response};
pub use queue::PriorityQueue;
pub use server::{answer_request, process_command, Connection, Exchange};
pub use shared::{PQueue, PQueueOperations};
pub use stats::{PQueueStats, PQueueStatsTracker, VERSION};
