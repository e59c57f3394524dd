pub mod chunks;
pub mod dirty;
pub mod light;
pub mod meshing;
pub mod repository;
pub mod scenes;
pub mod saving;
pub mod session;
pub mod simulation;
pub mod snapshot;
pub mod streaming;
pub mod world;

pub use repository::{InvalidWorldEntry, RepositoryError, WorldCatalog, WorldId, WorldSummary};
pub use saving::{SaveCompletion, SaveCoordinator, SaveDecision, SaveDestination, SaveTicket, SaveVersion};
pub use session::{PendingWorld, SessionInstanceCounter, SessionInstanceId, WorldSession};
pub use snapshot::{blank_snapshot, validate_snapshot, ChunkSnapshot, PlayerSnapshot, SnapshotError, WorldSnapshot};
pub use streaming::{
    plan_generation_requests, GenerationIdentity, GenerationRequest, GenerationResult, StreamConfig,
    StreamWindow,
};
