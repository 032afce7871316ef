use vstd::prelude::*;

use crate::errors::{ErrorKind, PoolError};

verus! {

/// The four endpoints of the runner program that lives inside a sandbox,
/// reached at `http://<host>:<port>/<language>/<path>`.
#[derive(Clone, Copy, Debug, PartialEq, Eq, Structural)]
pub enum RpcKind {
    WritePreparation,
    WriteExecution,
    WriteCode,
    Execute,
}

impl RpcKind {
    pub open spec fn path_spec(self) -> Seq<char> {
        match self {
            RpcKind::WritePreparation => "write-prep"@,
            RpcKind::WriteExecution => "write-exec"@,
            RpcKind::WriteCode => "write-code"@,
            RpcKind::Execute => "execute"@,
        }
    }

    /// The URL path segment of this endpoint.
    pub fn path(self) -> (r: &'static str)
        ensures
            r@ == self.path_spec(),
    {
        match self {
            RpcKind::WritePreparation => "write-prep",
            RpcKind::WriteExecution => "write-exec",
            RpcKind::WriteCode => "write-code",
            RpcKind::Execute => "execute",
        }
    }
}

/// One planned call against a runner. The pool only plans these; the
/// embedding program performs them and reports an `RpcOutcome` for each.
#[derive(Debug)]
pub struct RpcRequest {
    pub port: u32,
    pub language: String,
    pub kind: RpcKind,
    pub body: String,
}

pub ghost struct RpcRequestV {
    pub port: u32,
    pub language: Seq<char>,
    pub kind: RpcKind,
    pub body: Seq<char>,
}

impl View for RpcRequest {
    type V = RpcRequestV;

    open spec fn view(&self) -> RpcRequestV {
        RpcRequestV {
            port: self.port,
            language: self.language@,
            kind: self.kind,
            body: self.body@,
        }
    }
}

/// What one call against the runner came back with: `Accepted` for a write
/// that went through, `Output` for an execution that returned captured text,
/// `Failed` for a network failure with its cause.
pub enum RpcOutcome {
    Accepted,
    Output(String),
    Failed(String),
}

pub open spec fn fail_message(o: RpcOutcome) -> Seq<char> {
    o->Failed_0@
}

pub open spec fn output_text(o: RpcOutcome) -> Seq<char> {
    match o {
        RpcOutcome::Output(s) => s@,
        _ => Seq::<char>::empty(),
    }
}

/// Position `j` holds the first failure among the first `n` planned calls.
pub open spec fn first_fail_at(outcomes: Seq<RpcOutcome>, n: int, j: int) -> bool {
    &&& 0 <= j < n
    &&& j < outcomes.len()
    &&& outcomes[j] is Failed
    &&& forall|i: int| 0 <= i < j ==> !(outcomes[i] is Failed)
}

/// None of the first `n` planned calls that were performed failed.
pub open spec fn no_fail_upto(outcomes: Seq<RpcOutcome>, n: int) -> bool {
    forall|i: int| 0 <= i < n && i < outcomes.len() ==> !(outcomes[i] is Failed)
}

/// A planned call sequence, plus the failure, if any, that cut the planning
/// itself short (a handle without a port to call).
pub struct RpcPlan {
    pub requests: Vec<RpcRequest>,
    pub halted: Option<PoolError>,
}

pub const SEQUENCE_CUT_SHORT: &'static str = "the call sequence ended before every planned call was made";

/// Folds the recorded outcomes of a planned call sequence into its result.
///
/// The first failed call decides the result and everything recorded after it
/// is ignored; a sequence with fewer outcomes than planned calls is reported
/// as a transport failure; `halted` is an error that cut the planning itself
/// short (a handle without a port) and surfaces once every planned call has
/// gone through; otherwise the last call's captured text is the result.
pub fn rpc_collect(n_requests: usize, halted: &Option<PoolError>, outcomes: &Vec<RpcOutcome>) -> (r: Result<
    String,
    PoolError,
>)
    ensures
        forall|j: int|
            first_fail_at(outcomes@, n_requests as int, j) ==> r is Err
                && (r->Err_0).kind == ErrorKind::Transport && (r->Err_0).message@ == fail_message(
                outcomes@[j],
            ),
        no_fail_upto(outcomes@, n_requests as int) ==> {
            if outcomes@.len() < n_requests as int {
                r is Err && (r->Err_0).kind == ErrorKind::Transport && (r->Err_0).message@
                    == SEQUENCE_CUT_SHORT@
            } else if halted is Some {
                r is Err && (r->Err_0).kind == (halted->0).kind && (r->Err_0).message@ == (
                halted->0).message@
            } else if n_requests == 0 {
                r is Ok && (r->Ok_0)@ == Seq::<char>::empty()
            } else {
                r is Ok && (r->Ok_0)@ == output_text(outcomes@[n_requests - 1])
            }
        },
{
    let n = if n_requests < outcomes.len() {
        n_requests
    } else {
        outcomes.len()
    };
    let mut i: usize = 0;
    while i < n
        invariant
            i <= n,
            n <= n_requests,
            n <= outcomes@.len(),
            n == if n_requests < outcomes@.len() {
                n_requests as int
            } else {
                outcomes@.len() as int
            },
            forall|k: int| 0 <= k < i ==> !(outcomes@[k] is Failed),
        decreases n - i,
    {
        match &outcomes[i] {
            RpcOutcome::Failed(m) => {
                let e = PoolError::new(ErrorKind::Transport, m.clone());
                assert(first_fail_at(outcomes@, n_requests as int, i as int));
                return Err(e);
            },
            _ => {},
        }
        i = i + 1;
    }
    if outcomes.len() < n_requests {
        return Err(PoolError::new(ErrorKind::Transport, SEQUENCE_CUT_SHORT.to_owned()));
    }
    match halted {
        Option::Some(e) => Err(e.duplicate()),
        Option::None => {
            if n_requests == 0 {
                Ok(String::new())
            } else {
                match &outcomes[n_requests - 1] {
                    RpcOutcome::Output(s) => Ok(s.clone()),
                    _ => Ok(String::new()),
                }
            }
        },
    }
}

/// First-failure short-circuit: that position `j` holds the first failure of
/// a call sequence is decided by the outcomes up to `j` alone. Outcomes
/// recorded after the first failure, or never recorded because the caller
/// stopped calling, cannot change which failure `rpc_collect` surfaces.
pub proof fn lemma_first_failure_short_circuit(
    a: Seq<RpcOutcome>,
    b: Seq<RpcOutcome>,
    n: int,
    j: int,
)
    requires
        first_fail_at(a, n, j),
        j < b.len(),
        forall|i: int| 0 <= i <= j ==> a[i] == b[i],
    ensures
        first_fail_at(b, n, j),
{
    assert forall|i: int| 0 <= i < j implies !(b[i] is Failed) by {
        assert(a[i] == b[i]);
    }
}

} // verus!
