use sandbox_pool::errors::ErrorKind;
use sandbox_pool::handle::{ControlOutcome, LanguageService, LaunchOutcome};
use sandbox_pool::pool::{LanguageServicePool, AppData, PORT_MAX, PORT_MIN};

fn started_pool(n: usize, id_prefix: &str) -> LanguageServicePool {
    let mut pool = LanguageServicePool::new(n);
    let plan = pool.start_all().unwrap();
    let outcomes: Vec<LaunchOutcome> = (0..plan.len())
        .map(|k| LaunchOutcome::Launched(format!("{}-{}", id_prefix, k)))
        .collect();
    pool.start_all_apply(&plan, &outcomes).unwrap();
    pool
}

fn drain(pool: &mut LanguageServicePool) -> Vec<LanguageService> {
    let mut out = Vec::new();
    while let Some(h) = pool.assign_one() {
        out.push(h);
    }
    out
}

#[test]
fn start_all_starts_every_handle_with_distinct_ports_in_range() {
    for n in [1usize, 2, 3, 7] {
        let mut pool = started_pool(n, "proc");
        assert_eq!(pool.available_count(), n);
        assert_eq!(pool.allocated_port_count(), n);
        let handles = drain(&mut pool);
        assert_eq!(handles.len(), n);
        let mut ports = Vec::new();
        for h in &handles {
            assert!(h.is_started());
            let p = h.port.unwrap();
            assert!((PORT_MIN..PORT_MAX).contains(&p));
            assert!(!ports.contains(&p), "port {} handed out twice", p);
            ports.push(p);
        }
    }
}

#[test]
fn start_all_short_circuits_at_the_first_failed_launch() {
    let mut pool = LanguageServicePool::new(3);
    let plan = pool.start_all().unwrap();
    assert_eq!(plan.len(), 3);
    let outcomes = vec![
        LaunchOutcome::Launched("proc-0".to_string()),
        LaunchOutcome::Failed("spawn failed".to_string()),
        LaunchOutcome::Launched("proc-2".to_string()),
    ];
    let e = pool.start_all_apply(&plan, &outcomes).unwrap_err();
    assert_eq!(e.kind, ErrorKind::ProcessLaunch);
    assert_eq!(e.message().as_str(), "spawn failed");
    // slot 0 was started, the slots from the failure on were left unstarted
    let handles = drain(&mut pool);
    assert!(handles[2].is_started());
    assert_eq!(handles[2].id.as_deref(), Some("proc-0"));
    assert!(!handles[1].is_started());
    assert!(!handles[0].is_started());
}

#[test]
fn start_all_on_a_started_pool_allocates_no_second_port() {
    let mut pool = started_pool(2, "proc");
    assert_eq!(pool.allocated_port_count(), 2);
    let plan = pool.start_all().unwrap();
    // every handle is already started: nothing to launch, nothing allocated
    assert_eq!(plan.len(), 0);
    assert_eq!(pool.allocated_port_count(), 2);
    let outcomes: Vec<LaunchOutcome> = Vec::new();
    pool.start_all_apply(&plan, &outcomes).unwrap();
    let handles = drain(&mut pool);
    assert!(handles.iter().all(|h| h.is_started()));
}

#[test]
fn shutdown_all_clears_every_handle_and_empties_the_port_set() {
    let mut pool = started_pool(3, "proc");
    let plan = pool.shutdown_all();
    assert_eq!(plan.len(), 3);
    let outcomes = vec![ControlOutcome::Done, ControlOutcome::Done, ControlOutcome::Done];
    pool.shutdown_all_apply(&plan, &outcomes).unwrap();
    assert_eq!(pool.allocated_port_count(), 0);
    let handles = drain(&mut pool);
    assert!(handles.iter().all(|h| !h.is_started()));
}

#[test]
fn shutdown_all_partial_failure_releases_no_port() {
    let mut pool = started_pool(2, "proc");
    let plan = pool.shutdown_all();
    let outcomes = vec![
        ControlOutcome::Done,
        ControlOutcome::Failed("rm failed".to_string()),
    ];
    let e = pool.shutdown_all_apply(&plan, &outcomes).unwrap_err();
    assert_eq!(e.kind, ErrorKind::ProcessTeardown);
    assert_eq!(e.message().as_str(), "rm failed");
    // the documented no-rollback policy: every port stays allocated
    assert_eq!(pool.allocated_port_count(), 2);
    let handles = drain(&mut pool);
    assert!(!handles[1].is_started());
    assert!(handles[0].is_started());
}

#[test]
fn shutdown_all_on_a_fresh_pool_plans_nothing() {
    let mut pool = LanguageServicePool::new(2);
    let plan = pool.shutdown_all();
    assert_eq!(plan.len(), 0);
    let outcomes: Vec<ControlOutcome> = Vec::new();
    pool.shutdown_all_apply(&plan, &outcomes).unwrap();
    assert_eq!(pool.allocated_port_count(), 0);
}

#[test]
fn assign_then_release_restores_the_available_count() {
    let mut pool = started_pool(3, "proc");
    assert_eq!(pool.available_count(), 3);
    let h = pool.assign_one().unwrap();
    assert_eq!(pool.available_count(), 2);
    pool.release(h);
    assert_eq!(pool.available_count(), 3);
}

#[test]
fn assigned_handles_are_exclusive_until_released() {
    let mut pool = started_pool(2, "proc");
    let a = pool.assign_one().unwrap();
    let b = pool.assign_one().unwrap();
    // both handles checked out: nothing left, and the two are distinct slots
    assert!(pool.assign_one().is_none());
    assert_ne!(a.id, b.id);
    pool.release(a);
    pool.release(b);
    assert_eq!(pool.available_count(), 2);
}

#[test]
fn generated_ports_are_unique_and_in_range() {
    let mut pool = LanguageServicePool::new(0);
    let mut seen = Vec::new();
    for _ in 0..200 {
        let p = pool.generate_port().unwrap();
        assert!((PORT_MIN..PORT_MAX).contains(&p));
        assert!(!seen.contains(&p), "port {} allocated twice", p);
        seen.push(p);
    }
    assert_eq!(pool.allocated_port_count(), 200);
    // released ports can be handed out again without ever duplicating a live one
    for p in seen.iter().take(100) {
        pool.release_port(*p);
    }
    assert_eq!(pool.allocated_port_count(), 100);
    let live: Vec<u32> = seen[100..].to_vec();
    let mut fresh = Vec::new();
    for _ in 0..100 {
        let p = pool.generate_port().unwrap();
        assert!((PORT_MIN..PORT_MAX).contains(&p));
        assert!(!live.contains(&p), "port {} handed out while live", p);
        assert!(!fresh.contains(&p), "port {} allocated twice", p);
        fresh.push(p);
    }
    assert_eq!(pool.allocated_port_count(), 200);
}

#[test]
fn port_range_exhaustion_fails_instead_of_spinning() {
    let mut pool = LanguageServicePool::new(0);
    for _ in 0..(PORT_MAX - PORT_MIN) {
        pool.generate_port().unwrap();
    }
    let e = pool.generate_port().unwrap_err();
    assert_eq!(e.kind, ErrorKind::PortsExhausted);
    // releasing one port makes allocation possible again, and it returns
    // exactly the released port
    pool.release_port(5500);
    let p = pool.generate_port().unwrap();
    assert_eq!(p, 5500);
}

#[test]
fn release_port_is_a_no_op_when_the_port_is_absent() {
    let mut pool = LanguageServicePool::new(0);
    let p = pool.generate_port().unwrap();
    pool.release_port(if p == PORT_MIN { PORT_MIN + 1 } else { PORT_MIN });
    assert_eq!(pool.allocated_port_count(), 1);
    pool.release_port(p);
    assert_eq!(pool.allocated_port_count(), 0);
}

#[test]
fn app_data_wraps_a_fresh_pool() {
    let mut data = AppData::new(3);
    assert_eq!(data.runner.available_count(), 3);
    assert_eq!(data.runner.allocated_port_count(), 0);
    let h = data.runner.assign_one().unwrap();
    assert!(!h.is_started());
}
