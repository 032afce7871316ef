use sandbox_pool::errors::ErrorKind;
use sandbox_pool::handle::{ControlOutcome, LaunchOutcome};
use sandbox_pool::pool::{LanguageServicePool, PORT_MAX, PORT_MIN};
use sandbox_pool::rpc::{rpc_collect, RpcKind, RpcOutcome};

fn started_pool(n: usize, id_prefix: &str) -> LanguageServicePool {
    let mut pool = LanguageServicePool::new(n);
    let plan = pool.start_all().unwrap();
    let outcomes: Vec<LaunchOutcome> = (0..plan.len())
        .map(|k| LaunchOutcome::Launched(format!("{}-{}", id_prefix, k)))
        .collect();
    pool.start_all_apply(&plan, &outcomes).unwrap();
    pool
}

#[test]
fn prepare_all_environments_plans_two_writes_per_handle() {
    let pool = started_pool(2, "proc");
    let plan = pool.prepare_all_environments(
        "python".to_string(),
        "prep".to_string(),
        "exec".to_string(),
    );
    assert!(plan.halted.is_none());
    assert_eq!(plan.requests.len(), 4);
    assert_eq!(plan.requests[0].kind, RpcKind::WriteExecution);
    assert_eq!(plan.requests[0].body, "exec");
    assert_eq!(plan.requests[1].kind, RpcKind::WritePreparation);
    assert_eq!(plan.requests[1].body, "prep");
    assert_eq!(plan.requests[0].port, plan.requests[1].port);
    assert_ne!(plan.requests[0].port, plan.requests[2].port);
    // all writes went through: the fold reports success
    let outcomes = vec![
        RpcOutcome::Accepted,
        RpcOutcome::Accepted,
        RpcOutcome::Accepted,
        RpcOutcome::Accepted,
    ];
    assert!(rpc_collect(plan.requests.len(), &plan.halted, &outcomes).is_ok());
}

#[test]
fn prepare_all_environments_halts_at_an_unstarted_handle() {
    let pool = LanguageServicePool::new(2);
    let plan = pool.prepare_all_environments(
        "python".to_string(),
        "prep".to_string(),
        "exec".to_string(),
    );
    assert_eq!(plan.requests.len(), 0);
    let halted = plan.halted.expect("an unstarted handle must halt the plan");
    assert_eq!(halted.kind, ErrorKind::Transport);
    let outcomes: Vec<RpcOutcome> = Vec::new();
    let e = rpc_collect(plan.requests.len(), &Some(halted), &outcomes).unwrap_err();
    assert_eq!(e.kind, ErrorKind::Transport);
}

#[test]
fn rpc_collect_first_failure_decides_and_later_outcomes_cannot_change_it() {
    // the second of three writes fails: the fourth step's outcome is never
    // reached, and whatever stands after the failure is ignored
    let outcomes = vec![
        RpcOutcome::Accepted,
        RpcOutcome::Failed("connection refused".to_string()),
    ];
    let e = rpc_collect(4, &None, &outcomes).unwrap_err();
    assert_eq!(e.kind, ErrorKind::Transport);
    assert_eq!(e.message().as_str(), "connection refused");

    let longer = vec![
        RpcOutcome::Accepted,
        RpcOutcome::Failed("connection refused".to_string()),
        RpcOutcome::Output("stale".to_string()),
        RpcOutcome::Failed("other".to_string()),
    ];
    let e2 = rpc_collect(4, &None, &longer).unwrap_err();
    assert_eq!(e2.kind, ErrorKind::Transport);
    assert_eq!(e2.message().as_str(), "connection refused");
}

#[test]
fn rpc_collect_reports_a_sequence_cut_short() {
    let outcomes = vec![RpcOutcome::Accepted];
    let e = rpc_collect(2, &None, &outcomes).unwrap_err();
    assert_eq!(e.kind, ErrorKind::Transport);
}

#[test]
fn execute_code_runs_and_returns_the_captured_output() {
    let mut pool = started_pool(1, "proc");
    let run = pool
        .execute_code("python".to_string(), "print(1)".to_string(), false)
        .unwrap();
    assert_eq!(run.requests.len(), 2);
    assert_eq!(run.requests[0].kind, RpcKind::WriteCode);
    assert_eq!(run.requests[0].body, "print(1)");
    assert_eq!(run.requests[1].kind, RpcKind::Execute);
    assert!(run.halted.is_none());
    // the embedding program performs the calls and records the outcomes
    let outcomes = vec![RpcOutcome::Accepted, RpcOutcome::Output("1\n".to_string())];
    let rpc = rpc_collect(run.requests.len(), &run.halted, &outcomes);
    let mut run = run;
    // no restart asked for: no teardown, no launch
    let port = pool.restart_step(&mut run, &ControlOutcome::Done);
    assert!(port.is_none());
    let out = pool.complete(run, rpc, None).unwrap();
    assert_eq!(out, "1\n");
    // the handle went back and kept its identity
    assert_eq!(pool.available_count(), 1);
    let h = pool.assign_one().unwrap();
    assert_eq!(h.id.as_deref(), Some("proc-0"));
}

#[test]
fn restart_after_gives_the_slot_a_new_process_identity() {
    let mut pool = started_pool(1, "proc");
    let run = pool
        .execute_code("python".to_string(), "code".to_string(), true)
        .unwrap();
    let old_id = run.handle.id.clone().unwrap();
    let old_port = run.handle.port.unwrap();
    let outcomes = vec![RpcOutcome::Accepted, RpcOutcome::Output("ok".to_string())];
    let rpc = rpc_collect(run.requests.len(), &run.halted, &outcomes);
    let mut run = run;
    let port = pool
        .restart_step(&mut run, &ControlOutcome::Done)
        .expect("a restart owes a launch");
    assert!((PORT_MIN..PORT_MAX).contains(&port));
    let out = pool
        .complete(run, rpc, Some(&LaunchOutcome::Launched("proc-new".to_string())))
        .unwrap();
    assert_eq!(out, "ok");
    let h = pool.assign_one().unwrap();
    assert!(h.is_started());
    assert_ne!(h.id.as_deref().unwrap(), old_id.as_str());
    assert_eq!(h.id.as_deref(), Some("proc-new"));
    assert_eq!(h.port, Some(port));
    // the old port was reclaimed, the new one is the only allocation left
    let _ = old_port;
    assert_eq!(pool.allocated_port_count(), 1);
}

#[test]
fn prepare_and_execute_short_circuits_at_the_second_write() {
    let mut pool = started_pool(1, "proc");
    let run = pool
        .prepare_and_execute_code(
            "python".to_string(),
            "prep".to_string(),
            "exec".to_string(),
            "code".to_string(),
            false,
        )
        .unwrap();
    assert_eq!(run.requests.len(), 4);
    assert_eq!(run.requests[0].kind, RpcKind::WriteExecution);
    assert_eq!(run.requests[1].kind, RpcKind::WritePreparation);
    assert_eq!(run.requests[2].kind, RpcKind::WriteCode);
    assert_eq!(run.requests[3].kind, RpcKind::Execute);
    // the second write fails: the caller stops calling, and the surfaced
    // error is the second step's failure
    let outcomes = vec![
        RpcOutcome::Accepted,
        RpcOutcome::Failed("write-prep refused".to_string()),
    ];
    let rpc = rpc_collect(run.requests.len(), &run.halted, &outcomes);
    let mut run = run;
    let port = pool.restart_step(&mut run, &ControlOutcome::Done);
    assert!(port.is_none());
    let e = pool.complete(run, rpc, None).unwrap_err();
    assert_eq!(e.kind, ErrorKind::Transport);
    assert_eq!(e.message().as_str(), "write-prep refused");
    // the handle was returned to the pool even though the run failed
    assert_eq!(pool.available_count(), 1);
}

#[test]
fn failed_teardown_during_restart_is_surfaced_and_the_handle_returns() {
    let mut pool = started_pool(1, "proc");
    let run = pool
        .execute_code("python".to_string(), "code".to_string(), true)
        .unwrap();
    let outcomes = vec![RpcOutcome::Accepted, RpcOutcome::Output("ok".to_string())];
    let rpc = rpc_collect(run.requests.len(), &run.halted, &outcomes);
    let mut run = run;
    let port = pool.restart_step(&mut run, &ControlOutcome::Failed("rm failed".to_string()));
    assert!(port.is_none());
    let e = pool.complete(run, rpc, None).unwrap_err();
    assert_eq!(e.kind, ErrorKind::ProcessTeardown);
    assert_eq!(e.message().as_str(), "rm failed");
    // the handle kept its old identity and went back to the pool
    let h = pool.assign_one().unwrap();
    assert_eq!(h.id.as_deref(), Some("proc-0"));
}

#[test]
fn execute_against_an_unstarted_pool_fails_with_transport() {
    let mut pool = LanguageServicePool::new(1);
    let run = pool
        .execute_code("python".to_string(), "code".to_string(), false)
        .unwrap();
    assert_eq!(run.requests.len(), 0);
    assert!(run.halted.is_some());
    let outcomes: Vec<RpcOutcome> = Vec::new();
    let rpc = rpc_collect(run.requests.len(), &run.halted, &outcomes);
    let mut run = run;
    let port = pool.restart_step(&mut run, &ControlOutcome::Done);
    assert!(port.is_none());
    let e = pool.complete(run, rpc, None).unwrap_err();
    assert_eq!(e.kind, ErrorKind::Transport);
    assert_eq!(pool.available_count(), 1);
}

#[test]
fn restart_of_an_unstarted_handle_skips_the_teardown_but_launches() {
    let mut pool = LanguageServicePool::new(1);
    let run = pool
        .execute_code("python".to_string(), "code".to_string(), true)
        .unwrap();
    assert!(run.handle.shutdown_plan().is_none());
    let outcomes: Vec<RpcOutcome> = Vec::new();
    let rpc = rpc_collect(run.requests.len(), &run.halted, &outcomes);
    let mut run = run;
    // nothing to destroy, yet the restart still owes a launch
    let port = pool
        .restart_step(&mut run, &ControlOutcome::Done)
        .expect("a restart owes a launch");
    let e = pool
        .complete(run, rpc, Some(&LaunchOutcome::Launched("proc-new".to_string())))
        .unwrap_err();
    // the write against the unstarted handle is still the first failure
    assert_eq!(e.kind, ErrorKind::Transport);
    let h = pool.assign_one().unwrap();
    assert!(h.is_started());
    assert_eq!(h.port, Some(port));
}

#[test]
fn failed_relaunch_is_surfaced_and_the_handle_returns_unstarted() {
    let mut pool = started_pool(1, "proc");
    let run = pool
        .execute_code("python".to_string(), "code".to_string(), true)
        .unwrap();
    let outcomes = vec![RpcOutcome::Accepted, RpcOutcome::Output("ok".to_string())];
    let rpc = rpc_collect(run.requests.len(), &run.halted, &outcomes);
    let mut run = run;
    let _port = pool
        .restart_step(&mut run, &ControlOutcome::Done)
        .expect("a restart owes a launch");
    let e = pool
        .complete(
            run,
            rpc,
            Some(&LaunchOutcome::Failed("spawn failed".to_string())),
        )
        .unwrap_err();
    assert_eq!(e.kind, ErrorKind::ProcessLaunch);
    assert_eq!(e.message().as_str(), "spawn failed");
    let h = pool.assign_one().unwrap();
    assert!(!h.is_started());
}

#[test]
fn restart_of_a_started_handle_never_exhausts_the_range() {
    let mut pool = started_pool(1, "proc");
    // allocate every port the handle does not hold
    while pool.generate_port().is_ok() {}
    assert_eq!(pool.allocated_port_count() as u32, PORT_MAX - PORT_MIN);
    let run = pool
        .execute_code("python".to_string(), "code".to_string(), true)
        .unwrap();
    let outcomes = vec![RpcOutcome::Accepted, RpcOutcome::Output("ok".to_string())];
    let rpc = rpc_collect(run.requests.len(), &run.halted, &outcomes);
    let mut run = run;
    // the teardown frees the handle's own port, so the restart finds one
    let port = pool
        .restart_step(&mut run, &ControlOutcome::Done)
        .expect("a restart of a started handle always finds a port");
    let out = pool
        .complete(run, rpc, Some(&LaunchOutcome::Launched("proc-new".to_string())))
        .unwrap();
    assert_eq!(out, "ok");
    let h = pool.assign_one().unwrap();
    assert_eq!(h.port, Some(port));
    assert_eq!(pool.allocated_port_count() as u32, PORT_MAX - PORT_MIN);
}

#[test]
fn end_to_end_single_slot_prepare_and_execute() {
    // pool of size one; the runner evaluates the code and the execution
    // script and captures "50"; restart-after leaves one available handle
    // that is started but runs a fresh process
    let mut pool = started_pool(1, "proc");
    let run = pool
        .prepare_and_execute_code(
            "python".to_string(),
            "".to_string(),
            "write_output(str(sol(10)))".to_string(),
            "def sol(n): return n*5".to_string(),
            true,
        )
        .unwrap();
    let old_id = run.handle.id.clone().unwrap();
    let outcomes = vec![
        RpcOutcome::Accepted,
        RpcOutcome::Accepted,
        RpcOutcome::Accepted,
        RpcOutcome::Output("50".to_string()),
    ];
    let rpc = rpc_collect(run.requests.len(), &run.halted, &outcomes);
    let mut run = run;
    let port = pool
        .restart_step(&mut run, &ControlOutcome::Done)
        .expect("a restart owes a launch");
    let out = pool
        .complete(run, rpc, Some(&LaunchOutcome::Launched("proc-fresh".to_string())))
        .unwrap();
    assert_eq!(out, "50");
    assert_eq!(pool.available_count(), 1);
    let h = pool.assign_one().unwrap();
    assert!(h.is_started());
    assert_ne!(h.id.as_deref().unwrap(), old_id.as_str());
    assert_eq!(h.port, Some(port));
}
