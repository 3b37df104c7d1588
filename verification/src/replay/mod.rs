//! Replay: from a recorded log back to its happens-before order, to one canonical timeline,
//! and to a re-execution of the actors that is held against the recording.

pub mod build_laws;
pub mod course_laws;
pub mod engine;
pub mod error;
pub mod extension;
pub mod fidelity;
pub mod index;
pub mod lines;
pub mod order_laws;
pub mod outcome;
pub mod poset;
pub mod poset_laws;
pub mod recording;
pub mod reexec;
pub mod report_laws;
pub mod rewriting;
pub mod stage;
pub mod timeline_laws;
