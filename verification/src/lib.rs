//! Scope-bound asynchronous task supervision, verified.
//!
//! A reactive ownership graph spawns fire-and-forget tasks whose lifetime is
//! bounded by a dynamic scope: when the scope is torn down, every task spawned
//! against it (or against one of its descendants) is aborted before it can run
//! another step. Tasks execute on single-threaded cooperative domains; a
//! domain entered around a root computation acts as a barrier and is only
//! exited once every task it drives has reached a terminal state.
//!
//! [`model`] holds the mathematical state of the supervisor and its transition
//! relation, [`supervisor`] the executable state tracker proved against it,
//! and [`laws`] the proved global properties (abort on teardown, idempotent
//! abort, no cross-domain execution, the exit barrier, registration before
//! execution).

pub mod laws;
pub mod model;
pub mod supervisor;
