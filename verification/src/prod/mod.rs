//! The production executor: everything of it that decides, apart from the tasks that run it.

pub mod channel;
pub mod delivery;
pub mod dispatch;
pub mod ledger;
pub mod mailbox;
pub mod quiescence;
pub mod shared;
pub mod task;
pub mod writer;
