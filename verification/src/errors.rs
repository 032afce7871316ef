use vstd::prelude::*;

verus! {

/// Which kind of failure an operation ran into.
///
/// Launch, teardown and control failures come from the process lifecycle
/// provider; transport failures cover both an unstarted handle (no port to
/// talk to) and a failed network call to the runner. `PortsExhausted` is the
/// documented bounded-retry-then-fail policy of the port arbiter: it is
/// reported instead of looping forever when no free port can be found.
#[derive(Clone, Copy, Debug, PartialEq, Eq, Structural)]
pub enum ErrorKind {
    ProcessLaunch,
    ProcessTeardown,
    ProcessControl,
    Transport,
    PortsExhausted,
}

/// Two failures with the same kind and the same cause.
pub open spec fn same_error(a: PoolError, b: PoolError) -> bool {
    a.kind == b.kind && a.message@ == b.message@
}

/// A descriptive failure: a kind plus a human-readable cause.
#[derive(Clone, Debug)]
pub struct PoolError {
    pub kind: ErrorKind,
    pub message: String,
}

impl PoolError {
    pub fn new(kind: ErrorKind, message: String) -> (e: PoolError)
        ensures
            e.kind == kind,
            e.message@ == message@,
    {
        PoolError { kind, message }
    }

    /// A copy that keeps the kind and the cause.
    pub fn duplicate(&self) -> (e: PoolError)
        ensures
            e.kind == self.kind,
            e.message@ == self.message@,
    {
        PoolError { kind: self.kind, message: self.message.clone() }
    }

    /// The human-readable cause carried by this failure.
    pub fn message(&self) -> (m: &String)
        ensures
            m@ == self.message@,
    {
        &self.message
    }
}

} // verus!
