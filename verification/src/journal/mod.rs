//! The crash-safe apply engine and its no-loss invariants.
//!
//! - [`record`]: the append-only journal (records, sinks, replay).
//! - [`engine`]: [`engine::apply_plan`] drives a mover over a plan, journaling each step
//!   so that an interrupted run resumes idempotently.
//! - [`verify`]: the message-conservation and exactly-once invariants.

pub mod engine;
pub mod laws;
pub mod record;
pub mod reporting;
pub mod verify;

pub use engine::{apply_plan, ApplyReport};
pub use record::{completed_actions, record_lines, JournalRecord, RecordSink, Tee, VecSink};
