use vstd::prelude::*;

use crate::errors::{ErrorKind, PoolError};
use crate::rpc::{RpcKind, RpcRequest, RpcRequestV};

verus! {

/// What the process lifecycle provider came back with when asked to launch a
/// runner process: the fresh process identifier, or a cause of failure.
pub enum LaunchOutcome {
    Launched(String),
    Failed(String),
}

pub open spec fn launch_ok(o: LaunchOutcome) -> bool {
    o is Launched
}

pub open spec fn launch_id(o: LaunchOutcome) -> Seq<char> {
    o->Launched_0@
}

pub open spec fn launch_msg(o: LaunchOutcome) -> Seq<char> {
    o->Failed_0@
}

/// What the provider came back with when asked to destroy, pause or unpause
/// a process.
pub enum ControlOutcome {
    Done,
    Failed(String),
}

pub open spec fn control_ok(o: ControlOutcome) -> bool {
    o is Done
}

pub open spec fn control_msg(o: ControlOutcome) -> Seq<char> {
    o->Failed_0@
}

/// Position `j` holds the first failed launch among the first `n` of a
/// sequence of launch outcomes.
pub open spec fn launch_fail_at(outcomes: Seq<LaunchOutcome>, n: int, j: int) -> bool {
    &&& 0 <= j < n
    &&& j < outcomes.len()
    &&& !launch_ok(outcomes[j])
    &&& forall|i: int| 0 <= i < j ==> launch_ok(outcomes[i])
}

/// None of the first `n` launches that were performed failed.
pub open spec fn launches_ok_upto(outcomes: Seq<LaunchOutcome>, n: int) -> bool {
    forall|i: int| 0 <= i < n && i < outcomes.len() ==> launch_ok(outcomes[i])
}

/// Position `j` holds the first failed control call among the first `n` of a
/// sequence of control outcomes.
pub open spec fn control_fail_at(outcomes: Seq<ControlOutcome>, n: int, j: int) -> bool {
    &&& 0 <= j < n
    &&& j < outcomes.len()
    &&& !control_ok(outcomes[j])
    &&& forall|i: int| 0 <= i < j ==> control_ok(outcomes[i])
}

/// None of the first `n` control calls that were performed failed.
pub open spec fn controls_ok_upto(outcomes: Seq<ControlOutcome>, n: int) -> bool {
    forall|i: int| 0 <= i < n && i < outcomes.len() ==> control_ok(outcomes[i])
}

/// The abstract state of one sandbox handle.
pub ghost struct HandleView {
    pub id: Option<Seq<char>>,
    pub port: Option<u32>,
    pub paused: bool,
}

impl HandleView {
    /// The joint invariant: a handle is started iff it holds both a process
    /// identifier and a port.
    pub open spec fn started(self) -> bool {
        self.id is Some && self.port is Some
    }

    /// Indistinguishable from a freshly constructed handle.
    pub open spec fn fresh(self) -> bool {
        self.id is None && self.port is None && !self.paused
    }
}

/// One sandbox slot: the lifecycle state of one runner process. The handle
/// itself never touches the process or the network; it decides which calls
/// the provider and the runner owe, and records their outcomes.
#[derive(Debug)]
pub struct LanguageService {
    pub id: Option<String>,
    pub port: Option<u32>,
    pub paused: bool,
}

impl View for LanguageService {
    type V = HandleView;

    open spec fn view(&self) -> HandleView {
        HandleView {
            id: match self.id {
                Option::Some(s) => Option::Some(s@),
                Option::None => Option::None,
            },
            port: self.port,
            paused: self.paused,
        }
    }
}

impl LanguageService {
    pub fn new() -> (s: LanguageService)
        ensures
            s@.fresh(),
    {
        LanguageService { id: None, port: None, paused: false }
    }

    pub fn is_started(&self) -> (r: bool)
        ensures
            r == self@.started(),
    {
        self.id.is_some() && self.port.is_some()
    }

    pub fn is_paused(&self) -> (r: bool)
        ensures
            r == self@.paused,
    {
        self.paused
    }

    /// Decision half of `start`: the port to launch a runner at, or `None`
    /// when the handle is already started and no launch is owed.
    pub fn start_plan(&self, port: u32) -> (r: Option<u32>)
        ensures
            r == (if self@.started() {
                Option::<u32>::None
            } else {
                Option::Some(port)
            }),
    {
        if self.is_started() {
            None
        } else {
            Some(port)
        }
    }

    /// Records the outcome of a launch at `port`. A no-op returning success
    /// on a handle that is already started, whatever `outcome` says: starting
    /// twice neither fails nor changes the handle.
    pub fn start(&mut self, port: u32, outcome: &LaunchOutcome) -> (r: Result<(), PoolError>)
        ensures
            old(self)@.started() ==> r is Ok && final(self)@ == old(self)@,
            !old(self)@.started() && launch_ok(*outcome) ==> r is Ok && final(self)@ == (
            HandleView {
                id: Option::Some(launch_id(*outcome)),
                port: Option::Some(port),
                paused: old(self)@.paused,
            }),
            !old(self)@.started() && !launch_ok(*outcome) ==> r is Err && final(self)@ == old(self)@ && (r->Err_0).kind == ErrorKind::ProcessLaunch && (r->Err_0).message@ == launch_msg(
                *outcome,
            ),
    {
        if self.is_started() {
            return Ok(());
        }
        match outcome {
            LaunchOutcome::Launched(id) => {
                self.id = Some(id.clone());
                self.port = Some(port);
                Ok(())
            },
            LaunchOutcome::Failed(m) => Err(PoolError::new(ErrorKind::ProcessLaunch, m.clone())),
        }
    }

    /// Decision half of `shutdown`: the process identifier the provider must
    /// destroy, or `None` when the handle is not started and no teardown is
    /// owed.
    pub fn shutdown_plan(&self) -> (r: Option<&String>)
        ensures
            self@.started() ==> r is Some && r->0@ == self@.id->0,
            !self@.started() ==> r is None,
    {
        if self.is_started() {
            self.id.as_ref()
        } else {
            None
        }
    }

    /// Records the outcome of a teardown. A no-op returning success on a
    /// handle that is not started; on success the handle is
    /// indistinguishable from a freshly constructed one.
    pub fn shutdown(&mut self, outcome: &ControlOutcome) -> (r: Result<(), PoolError>)
        ensures
            !old(self)@.started() ==> r is Ok && final(self)@ == old(self)@,
            old(self)@.started() && control_ok(*outcome) ==> r is Ok && final(self)@.fresh(),
            old(self)@.started() && !control_ok(*outcome) ==> r is Err && final(self)@ == old(self)@ && (r->Err_0).kind == ErrorKind::ProcessTeardown && (r->Err_0).message@
                == control_msg(*outcome),
    {
        if !self.is_started() {
            return Ok(());
        }
        match outcome {
            ControlOutcome::Done => {
                self.id = None;
                self.port = None;
                self.paused = false;
                Ok(())
            },
            ControlOutcome::Failed(m) => Err(
                PoolError::new(ErrorKind::ProcessTeardown, m.clone()),
            ),
        }
    }

    /// Decision half of `pause`: the process identifier to suspend, or
    /// `None` when the handle is not started or already paused.
    pub fn pause_plan(&self) -> (r: Option<&String>)
        ensures
            self@.started() && !self@.paused ==> r is Some && r->0@ == self@.id->0,
            !(self@.started() && !self@.paused) ==> r is None,
    {
        if self.is_started() && !self.paused {
            self.id.as_ref()
        } else {
            None
        }
    }

    /// Records the outcome of suspending the process in place: identifier and
    /// port are unchanged. A no-op returning success unless the handle is
    /// started and not yet paused.
    pub fn pause(&mut self, outcome: &ControlOutcome) -> (r: Result<(), PoolError>)
        ensures
            !(old(self)@.started() && !old(self)@.paused) ==> r is Ok && final(self)@ == old(self)@,
            old(self)@.started() && !old(self)@.paused && control_ok(*outcome) ==> r is Ok && final(self)@ == (HandleView { id: old(self)@.id, port: old(self)@.port, paused: true }),
            old(self)@.started() && !old(self)@.paused && !control_ok(*outcome) ==> r is Err
                && final(self)@ == old(self)@ && (r->Err_0).kind == ErrorKind::ProcessControl && (
            r->Err_0).message@ == control_msg(*outcome),
    {
        if !(self.is_started() && !self.paused) {
            return Ok(());
        }
        match outcome {
            ControlOutcome::Done => {
                self.paused = true;
                Ok(())
            },
            ControlOutcome::Failed(m) => Err(PoolError::new(ErrorKind::ProcessControl, m.clone())),
        }
    }

    /// Decision half of `unpause`: the process identifier to resume, or
    /// `None` when the handle is not started or not paused.
    pub fn unpause_plan(&self) -> (r: Option<&String>)
        ensures
            self@.started() && self@.paused ==> r is Some && r->0@ == self@.id->0,
            !(self@.started() && self@.paused) ==> r is None,
    {
        if self.is_started() && self.paused {
            self.id.as_ref()
        } else {
            None
        }
    }

    /// Records the outcome of resuming the process in place. A no-op
    /// returning success unless the handle is started and paused.
    pub fn unpause(&mut self, outcome: &ControlOutcome) -> (r: Result<(), PoolError>)
        ensures
            !(old(self)@.started() && old(self)@.paused) ==> r is Ok && final(self)@ == old(self)@,
            old(self)@.started() && old(self)@.paused && control_ok(*outcome) ==> r is Ok && final(self)@ == (HandleView { id: old(self)@.id, port: old(self)@.port, paused: false }),
            old(self)@.started() && old(self)@.paused && !control_ok(*outcome) ==> r is Err
                && final(self)@ == old(self)@ && (r->Err_0).kind == ErrorKind::ProcessControl && (
            r->Err_0).message@ == control_msg(*outcome),
    {
        if !(self.is_started() && self.paused) {
            return Ok(());
        }
        match outcome {
            ControlOutcome::Done => {
                self.paused = false;
                Ok(())
            },
            ControlOutcome::Failed(m) => Err(PoolError::new(ErrorKind::ProcessControl, m.clone())),
        }
    }

    /// Plans one call against this handle's runner, or reports a transport
    /// failure when the handle is not started and holds no port.
    fn request(&self, kind: RpcKind, language: String, body: String) -> (r: Result<
        RpcRequest,
        PoolError,
    >)
        ensures
            self@.started() ==> r is Ok && (r->Ok_0)@ == (RpcRequestV {
                port: self@.port->0,
                language: language@,
                kind: kind,
                body: body@,
            }),
            !self@.started() ==> r is Err && (r->Err_0).kind == ErrorKind::Transport,
    {
        if self.is_started() {
            let p = self.port.unwrap();
            Ok(RpcRequest { port: p, language, kind, body })
        } else {
            Err(
                PoolError::new(
                    ErrorKind::Transport,
                    "the handle is not started and holds no port".to_owned(),
                ),
            )
        }
    }

    /// Plans sending the preparation script to the runner.
    pub fn write_preparation(&self, language: String, code: String) -> (r: Result<
        RpcRequest,
        PoolError,
    >)
        ensures
            self@.started() ==> r is Ok && (r->Ok_0)@ == (RpcRequestV {
                port: self@.port->0,
                language: language@,
                kind: RpcKind::WritePreparation,
                body: code@,
            }),
            !self@.started() ==> r is Err && (r->Err_0).kind == ErrorKind::Transport,
    {
        self.request(RpcKind::WritePreparation, language, code)
    }

    /// Plans sending the execution script to the runner.
    pub fn write_execution(&self, language: String, code: String) -> (r: Result<
        RpcRequest,
        PoolError,
    >)
        ensures
            self@.started() ==> r is Ok && (r->Ok_0)@ == (RpcRequestV {
                port: self@.port->0,
                language: language@,
                kind: RpcKind::WriteExecution,
                body: code@,
            }),
            !self@.started() ==> r is Err && (r->Err_0).kind == ErrorKind::Transport,
    {
        self.request(RpcKind::WriteExecution, language, code)
    }

    /// Plans sending the user's source code to the runner.
    pub fn write_code(&self, language: String, code: String) -> (r: Result<RpcRequest, PoolError>)
        ensures
            self@.started() ==> r is Ok && (r->Ok_0)@ == (RpcRequestV {
                port: self@.port->0,
                language: language@,
                kind: RpcKind::WriteCode,
                body: code@,
            }),
            !self@.started() ==> r is Err && (r->Err_0).kind == ErrorKind::Transport,
    {
        self.request(RpcKind::WriteCode, language, code)
    }

    /// Plans triggering execution of the previously written code and scripts;
    /// the call's outcome carries the captured output.
    pub fn execute_code(&self, language: String) -> (r: Result<RpcRequest, PoolError>)
        ensures
            self@.started() ==> r is Ok && (r->Ok_0)@ == (RpcRequestV {
                port: self@.port->0,
                language: language@,
                kind: RpcKind::Execute,
                body: Seq::<char>::empty(),
            }),
            !self@.started() ==> r is Err && (r->Err_0).kind == ErrorKind::Transport,
    {
        self.request(RpcKind::Execute, language, String::new())
    }
}

} // verus!
