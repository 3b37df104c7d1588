//! Causal observability for actors: vector clocks, the causal event log, the
//! stamping rules of a running actor, and deterministic replay of a recorded log.
//!
//! Where a handler, a mailbox or shared state decides what happens, contracts say
//! `call_ensures(f, args, r)`: `r` is a result that calling `f` with `args` may give. Nothing is
//! known of those functions that would prove it otherwise, so it is evidence that the call was
//! made. Where it matters how often something is done, and in which order, it is listed: a
//! backend lists its calls and its steps on shared state, and an actor what it was run for.

pub mod actor;
pub mod addr;
pub mod calls;
pub mod causality;
pub mod clock;
pub mod clock_map;
pub mod context;
pub mod dispatch;
pub mod envelope;
pub mod event;
pub mod log;
pub mod mailbox;
pub mod prod;
pub mod replay;
pub mod text;
