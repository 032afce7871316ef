use sandbox_pool::errors::ErrorKind;
use sandbox_pool::handle::{ControlOutcome, LanguageService, LaunchOutcome};
use sandbox_pool::rpc::RpcKind;

#[test]
fn fresh_handle_is_not_started() {
    let h = LanguageService::new();
    assert!(!h.is_started());
    assert!(!h.is_paused());
    assert_eq!(h.id, None);
    assert_eq!(h.port, None);
}

#[test]
fn start_records_process_and_port() {
    let mut h = LanguageService::new();
    assert_eq!(h.start_plan(5001), Some(5001));
    let r = h.start(5001, &LaunchOutcome::Launched("proc-1".to_string()));
    assert!(r.is_ok());
    assert!(h.is_started());
    assert_eq!(h.id.as_deref(), Some("proc-1"));
    assert_eq!(h.port, Some(5001));
}

#[test]
fn start_twice_is_a_no_op_returning_success() {
    let mut h = LanguageService::new();
    h.start(5001, &LaunchOutcome::Launched("proc-1".to_string()))
        .unwrap();
    // the second start succeeds, changes nothing, and needs no launch
    assert_eq!(h.start_plan(5002), None);
    let r = h.start(5002, &LaunchOutcome::Launched("proc-2".to_string()));
    assert!(r.is_ok());
    assert_eq!(h.id.as_deref(), Some("proc-1"));
    assert_eq!(h.port, Some(5001));
}

#[test]
fn failed_launch_surfaces_a_launch_error() {
    let mut h = LanguageService::new();
    let r = h.start(5001, &LaunchOutcome::Failed("spawn failed".to_string()));
    let e = r.unwrap_err();
    assert_eq!(e.kind, ErrorKind::ProcessLaunch);
    assert_eq!(e.message().as_str(), "spawn failed");
    assert!(!h.is_started());
}

#[test]
fn shutdown_clears_the_handle_and_is_idempotent() {
    let mut h = LanguageService::new();
    h.start(5001, &LaunchOutcome::Launched("proc-1".to_string()))
        .unwrap();
    assert!(h.shutdown_plan().is_some());
    h.shutdown(&ControlOutcome::Done).unwrap();
    assert!(!h.is_started());
    assert_eq!(h.id, None);
    assert_eq!(h.port, None);
    // the second shutdown is a no-op returning success
    assert!(h.shutdown_plan().is_none());
    let r = h.shutdown(&ControlOutcome::Failed("ignored".to_string()));
    assert!(r.is_ok());
}

#[test]
fn failed_teardown_keeps_the_handle_started() {
    let mut h = LanguageService::new();
    h.start(5001, &LaunchOutcome::Launched("proc-1".to_string()))
        .unwrap();
    let e = h
        .shutdown(&ControlOutcome::Failed("rm failed".to_string()))
        .unwrap_err();
    assert_eq!(e.kind, ErrorKind::ProcessTeardown);
    assert_eq!(e.message().as_str(), "rm failed");
    assert!(h.is_started());
}

#[test]
fn pause_and_unpause_toggle_in_place() {
    let mut h = LanguageService::new();
    // pausing an unstarted handle is a trivial success
    assert!(h.pause_plan().is_none());
    assert!(h.pause(&ControlOutcome::Done).is_ok());
    assert!(!h.is_paused());

    h.start(5001, &LaunchOutcome::Launched("proc-1".to_string()))
        .unwrap();
    assert!(h.pause_plan().is_some());
    h.pause(&ControlOutcome::Done).unwrap();
    assert!(h.is_paused());
    assert_eq!(h.port, Some(5001));
    // pausing an already paused handle is a trivial success
    assert!(h.pause_plan().is_none());
    assert!(h.pause(&ControlOutcome::Failed("ignored".to_string())).is_ok());

    assert!(h.unpause_plan().is_some());
    h.unpause(&ControlOutcome::Done).unwrap();
    assert!(!h.is_paused());
    assert_eq!(h.id.as_deref(), Some("proc-1"));
}

#[test]
fn failed_control_call_surfaces_a_control_error() {
    let mut h = LanguageService::new();
    h.start(5001, &LaunchOutcome::Launched("proc-1".to_string()))
        .unwrap();
    let e = h
        .pause(&ControlOutcome::Failed("pause failed".to_string()))
        .unwrap_err();
    assert_eq!(e.kind, ErrorKind::ProcessControl);
    assert!(!h.is_paused());
}

#[test]
fn write_requests_carry_port_language_and_body() {
    let mut h = LanguageService::new();
    h.start(5321, &LaunchOutcome::Launched("proc-1".to_string()))
        .unwrap();
    let req = h
        .write_preparation("python".to_string(), "import sys".to_string())
        .unwrap();
    assert_eq!(req.port, 5321);
    assert_eq!(req.language, "python");
    assert_eq!(req.kind, RpcKind::WritePreparation);
    assert_eq!(req.body, "import sys");

    let req = h
        .write_execution("python".to_string(), "run()".to_string())
        .unwrap();
    assert_eq!(req.kind, RpcKind::WriteExecution);
    let req = h.write_code("python".to_string(), "x = 1".to_string()).unwrap();
    assert_eq!(req.kind, RpcKind::WriteCode);
    let req = h.execute_code("python".to_string()).unwrap();
    assert_eq!(req.kind, RpcKind::Execute);
    assert_eq!(req.body, "");
}

#[test]
fn writes_against_an_unstarted_handle_fail_with_transport() {
    let h = LanguageService::new();
    let e = h
        .write_code("python".to_string(), "x = 1".to_string())
        .unwrap_err();
    assert_eq!(e.kind, ErrorKind::Transport);
    let e = h.execute_code("python".to_string()).unwrap_err();
    assert_eq!(e.kind, ErrorKind::Transport);
}

#[test]
fn endpoint_paths_match_the_runner_interface() {
    assert_eq!(RpcKind::WritePreparation.path(), "write-prep");
    assert_eq!(RpcKind::WriteExecution.path(), "write-exec");
    assert_eq!(RpcKind::WriteCode.path(), "write-code");
    assert_eq!(RpcKind::Execute.path(), "execute");
}
