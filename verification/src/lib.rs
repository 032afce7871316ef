//! A pool manager for short-lived, isolated code-execution sandboxes.
//!
//! The pool owns a fixed number of sandbox handles, hands out exclusive
//! access to one handle per request, arbitrates unique network ports from a
//! bounded range, and drives each handle through a
//! start / prepare / execute / restart lifecycle. All outside effects
//! (process creation and teardown, HTTP calls to the runner inside each
//! sandbox) are performed by the embedding program: this library plans the
//! calls, records their outcomes, and keeps the bookkeeping invariants.

pub mod errors;
pub mod handle;
pub mod pool;
pub mod rpc;

pub use errors::{ErrorKind, PoolError};
