//! Time-Absence State Machine: a deterministic ledger core that tracks
//! collateral-backed, deadline-bound commitments (Intents) and irrevocably
//! penalizes (crystallizes into an Absence) any commitment whose deadline
//! elapses unfulfilled, with a gap-independent catch-up sweep.
pub mod engine;
pub mod laws;
pub mod memory;
pub mod model;
pub mod registry;

pub use engine::AbsenceEngine;
pub use model::Absence;
pub use model::Intent;
pub use model::IntentId;
pub use model::Slot;
