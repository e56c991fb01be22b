pub mod consolidation;
pub mod natural;
pub mod dream_cycle;
pub mod dream_journal;
pub mod dream_scheduler;
pub mod experience;
pub mod generation;
pub mod nightmare;
pub mod order;
pub mod replay;
pub mod text;
pub mod tile;

pub use consolidation::ConsolidationEngine;
pub use dream_cycle::{DreamCycle, DreamType, Ratio};
pub use dream_journal::DreamJournal;
pub use dream_scheduler::DreamScheduler;
pub use experience::Experience;
pub use generation::GenerationEngine;
pub use nightmare::NightmareEngine;
pub use replay::ReplayEngine;
pub use tile::DreamTile;
