pub mod clock;
pub mod queue;
pub mod region;

pub use clock::{SimulationClock, MAX_STEPS_PER_FRAME, SIMULATION_TICKS_PER_SECOND};
pub use queue::{ScheduledTickQueue, MAX_SCHEDULED_PER_CHUNK_PER_TICK};
pub use region::{SimulationRegionProvider, TickingArea};
