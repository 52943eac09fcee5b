use devspin::filter::blank;
use devspin::health::{HTTP_CHECK_DELAY_MS, PORT_CHECK_DELAY_MS};
use devspin::start::DEPENDENCY_POLL_MS;
use devspin::stop::FORCE_GRACE_MS;
use devspin::{
    project_names, sort_services_for_shutdown, ErrorKind, ExecutionMode, HealthCheck, ProcessInfo, ProcessState,
    ProcessStatus, ServiceSpec, StartAction, StartArgs, StartEvent, StartSession, StopAction, StopArgs, StopEvent,
    StopSession, ToolError,
};

fn spec(name: &str, deps: &[&str]) -> ServiceSpec {
    ServiceSpec {
        name: name.to_string(),
        command: format!("run {}", name),
        working_dir: None,
        dependencies: deps.iter().map(|d| d.to_string()).collect(),
        health_check: HealthCheck::NoCheck,
    }
}

fn start_args(only: Option<Vec<&str>>, skip: Option<Vec<&str>>) -> StartArgs {
    StartArgs {
        name: "shop".to_string(),
        env: None,
        verbose: false,
        background: false,
        dry_run: false,
        only: only.map(|v| v.iter().map(|s| s.to_string()).collect()),
        skip: skip.map(|v| v.iter().map(|s| s.to_string()).collect()),
    }
}

fn stop_args(project: Option<&str>, all: bool, force: bool) -> StopArgs {
    StopArgs {
        project_name: project.map(|p| p.to_string()),
        only: None,
        skip: None,
        force,
        all,
        timeout: 30,
        verbose: false,
        dry_run: false,
    }
}

fn record(pid: u32, service: &str, project: &str) -> ProcessInfo {
    ProcessInfo::running(pid, service.to_string(), project.to_string(), format!("run {}", service), 1_700_000_000)
}

#[test]
fn only_frontend_starts_and_registers_only_frontend() {
    let services = vec![spec("frontend", &[]), spec("database", &[])];
    let args = start_args(Some(vec!["frontend"]), None);
    let plan = args.plan(&services).unwrap();
    assert_eq!(plan, vec![0]);
    let mut registry = ProcessState::new();
    let mut session = StartSession::new("shop".to_string(), services, plan, 3);
    let a = session.step(&mut registry, StartEvent::Ready);
    assert!(matches!(a, StartAction::Spawn(0)));
    let a = session.step(&mut registry, StartEvent::Spawned { pid: 300, start_time: 5 });
    assert!(matches!(a, StartAction::AwaitHealth(0)));
    let a = session.step(&mut registry, StartEvent::HealthPassed);
    assert!(matches!(a, StartAction::Finished));
    let all = registry.get_all_processes();
    assert_eq!(all.len(), 1);
    assert_eq!(all[0].service_name, "frontend");
    assert_eq!(all[0].pid, 300);
    assert!(!all.iter().any(|p| p.service_name == "database"));
}

#[test]
fn both_filters_are_refused_before_any_work() {
    let services = vec![spec("frontend", &[]), spec("database", &[])];
    let args = start_args(Some(vec!["frontend"]), Some(vec!["database"]));
    let r = args.plan(&services);
    assert!(matches!(r, Err(ToolError::ConflictingFilters)));
    assert_eq!(r.unwrap_err().kind(), ErrorKind::Configuration);
    let mut stop = stop_args(Some("shop"), false, false);
    stop.only = Some(vec!["a".to_string()]);
    stop.skip = Some(vec!["b".to_string()]);
    assert!(matches!(stop.validate_args(), Err(ToolError::ConflictingFilters)));
}

#[test]
fn blank_filter_entry_is_a_validation_error() {
    let args = start_args(Some(vec!["api", "  "]), None);
    let r = args.validate_args();
    assert!(matches!(r, Err(ToolError::EmptyServiceName)));
    assert_eq!(r.unwrap_err().kind(), ErrorKind::Validation);
    assert!(blank(" \t"));
    assert!(blank(""));
    assert!(!blank(" a "));
    assert!(blank("\u{3000}\u{a0}\u{2028}\n"));
    assert!(!blank("\u{200b}"));
}

#[test]
fn skip_filter_leaves_service_out_of_plan() {
    let services = vec![spec("web", &["api"]), spec("api", &[]), spec("docs", &[])];
    let args = start_args(None, Some(vec!["docs"]));
    assert_eq!(args.plan(&services).unwrap(), vec![1, 0]);
    assert!(!args.should_start_service(&services[2]));
    assert!(args.should_start_service(&services[0]));
}

#[test]
fn execution_mode_follows_background_flag() {
    let mut args = start_args(None, None);
    assert_eq!(args.mode(), ExecutionMode::Foreground);
    args.background = true;
    assert_eq!(args.mode(), ExecutionMode::Background);
}

#[test]
fn dependent_waits_then_gives_up_on_missing_dependency() {
    let services = vec![spec("db", &[]), spec("api", &["db"])];
    let mut registry = ProcessState::new();
    let mut session = StartSession::new("shop".to_string(), services, vec![1], 2);
    assert!(matches!(session.step(&mut registry, StartEvent::Ready), StartAction::Sleep(ms) if ms == DEPENDENCY_POLL_MS));
    assert!(matches!(session.step(&mut registry, StartEvent::Ready), StartAction::Sleep(_)));
    match session.step(&mut registry, StartEvent::Ready) {
        StartAction::Failed(ToolError::DependencyNotReady { service, dependency }) => {
            assert_eq!(service, "api");
            assert_eq!(dependency, "db");
        }
        other => panic!("unexpected action {:?}", other),
    }
    assert_eq!(registry.process_count(), 0);
}

#[test]
fn dependency_started_earlier_lets_dependent_spawn() {
    let services = vec![spec("db", &[]), spec("api", &["db"])];
    let mut registry = ProcessState::new();
    let mut session = StartSession::new("shop".to_string(), services, vec![0, 1], 2);
    assert!(matches!(session.step(&mut registry, StartEvent::Ready), StartAction::Spawn(0)));
    session.step(&mut registry, StartEvent::Spawned { pid: 10, start_time: 1 });
    assert!(matches!(session.step(&mut registry, StartEvent::HealthPassed), StartAction::Spawn(1)));
    session.step(&mut registry, StartEvent::Spawned { pid: 11, start_time: 2 });
    assert!(matches!(session.step(&mut registry, StartEvent::HealthPassed), StartAction::Finished));
    assert!(registry.is_service_running("shop", "db"));
    assert!(registry.is_service_running("shop", "api"));
}

#[test]
fn spawn_failure_stops_sequence_and_keeps_started_services() {
    let services = vec![spec("db", &[]), spec("api", &[])];
    let mut registry = ProcessState::new();
    let mut session = StartSession::new("shop".to_string(), services, vec![0, 1], 0);
    session.step(&mut registry, StartEvent::Ready);
    session.step(&mut registry, StartEvent::Spawned { pid: 10, start_time: 1 });
    session.step(&mut registry, StartEvent::HealthPassed);
    let a = session.step(&mut registry, StartEvent::SpawnFailed);
    assert!(matches!(a, StartAction::Failed(ToolError::SpawnFailed(n)) if n == "api"));
    assert_eq!(registry.process_count(), 1);
}

#[test]
fn health_failure_is_reported_and_service_stays_registered() {
    let services = vec![spec("db", &[])];
    let mut registry = ProcessState::new();
    let mut session = StartSession::new("shop".to_string(), services, vec![0], 0);
    session.step(&mut registry, StartEvent::Ready);
    session.step(&mut registry, StartEvent::Spawned { pid: 10, start_time: 1 });
    let a = session.step(&mut registry, StartEvent::HealthFailed);
    assert!(matches!(a, StartAction::Failed(ToolError::HealthCheckFailed(n)) if n == "db"));
    assert!(registry.is_service_running("shop", "db"));
}

#[test]
fn health_check_kinds_and_delays() {
    let http = HealthCheck::from_config("http", Some("http://localhost:8080".to_string()), None).unwrap();
    assert!(matches!(&http, HealthCheck::Http(t) if t == "http://localhost:8080"));
    assert_eq!(http.delay_ms(), HTTP_CHECK_DELAY_MS);
    assert_eq!(HTTP_CHECK_DELAY_MS, 2000);
    let port = HealthCheck::from_config("port", None, Some(5432)).unwrap();
    assert!(matches!(port, HealthCheck::Port(5432)));
    assert_eq!(port.delay_ms(), PORT_CHECK_DELAY_MS);
    assert_eq!(PORT_CHECK_DELAY_MS, 1000);
    let none = HealthCheck::from_config("none", None, None).unwrap();
    assert_eq!(none.delay_ms(), 0);
    assert!(matches!(HealthCheck::from_config("port", None, None), Ok(HealthCheck::NoCheck)));
    let bad = HealthCheck::from_config("tcp", None, None);
    assert!(matches!(bad, Err(ToolError::UnknownHealthCheck(k)) if k == "tcp"));
}

#[test]
fn stop_without_force_fails_on_timeout_and_keeps_record() {
    let mut registry = ProcessState::new();
    registry.add_process(record(900, "api", "shop"));
    let args = stop_args(Some("shop"), false, false);
    let targets = args.plan_project(&registry, "shop", &vec![spec("api", &[])]).unwrap();
    let mut session = StopSession::new(targets, false, 2);
    assert!(matches!(session.step(&mut registry, StopEvent::Ready), StopAction::SendTerm(900)));
    assert!(matches!(session.step(&mut registry, StopEvent::TermSent(true)), StopAction::Poll(900)));
    assert!(matches!(
        session.step(&mut registry, StopEvent::Polled { alive: true, elapsed_ms: 1500 }),
        StopAction::Poll(900)
    ));
    let a = session.step(&mut registry, StopEvent::Polled { alive: true, elapsed_ms: 2000 });
    match a {
        StopAction::Failed(ToolError::StopTimeout { service, pid, timeout_secs }) => {
            assert_eq!(service, "api");
            assert_eq!(pid, 900);
            assert_eq!(timeout_secs, 2);
        }
        other => panic!("unexpected action {:?}", other),
    }
    let all = registry.get_all_processes();
    assert_eq!(all.len(), 1);
    assert!(matches!(all[0].status, ProcessStatus::Running));
}

#[test]
fn stop_with_force_kills_after_timeout_and_drops_record() {
    let mut registry = ProcessState::new();
    registry.add_process(record(900, "api", "shop"));
    let args = stop_args(Some("shop"), false, true);
    let targets = args.plan_project(&registry, "shop", &vec![spec("api", &[])]).unwrap();
    let mut session = StopSession::new(targets, true, 1);
    session.step(&mut registry, StopEvent::Ready);
    session.step(&mut registry, StopEvent::TermSent(true));
    let a = session.step(&mut registry, StopEvent::Polled { alive: true, elapsed_ms: 1000 });
    assert!(matches!(a, StopAction::SendKill(900)));
    let a = session.step(&mut registry, StopEvent::KillSent);
    assert!(matches!(a, StopAction::Wait(ms) if ms == FORCE_GRACE_MS));
    assert_eq!(FORCE_GRACE_MS, 500);
    let a = session.step(&mut registry, StopEvent::GraceElapsed);
    assert!(matches!(a, StopAction::Finished));
    assert_eq!(registry.process_count(), 0);
}

#[test]
fn graceful_exit_drops_records_in_reverse_start_order() {
    let mut registry = ProcessState::new();
    registry.add_process(record(1, "db", "shop"));
    registry.add_process(record(2, "api", "shop"));
    registry.add_process(record(3, "web", "blog"));
    registry.add_process(record(4, "web", "shop"));
    let args = stop_args(Some("shop"), false, false);
    let specs = vec![spec("db", &[]), spec("api", &["db"]), spec("web", &["api"])];
    let targets = args.plan_project(&registry, "shop", &specs).unwrap();
    let pids: Vec<u32> = targets.iter().map(|p| p.pid).collect();
    assert_eq!(pids, vec![4, 2, 1]);
    let mut session = StopSession::new(targets, false, 30);
    let mut action = session.step(&mut registry, StopEvent::Ready);
    let mut signalled = Vec::new();
    loop {
        match action {
            StopAction::SendTerm(pid) => {
                signalled.push(pid);
                action = session.step(&mut registry, StopEvent::TermSent(true));
            }
            StopAction::Poll(_) => {
                action = session.step(&mut registry, StopEvent::Polled { alive: false, elapsed_ms: 100 });
            }
            StopAction::Finished => break,
            other => panic!("unexpected action {:?}", other),
        }
    }
    assert_eq!(signalled, vec![4, 2, 1]);
    let left = registry.get_all_processes();
    assert_eq!(left.len(), 1);
    assert_eq!(left[0].project_name, "blog");
}

#[test]
fn failed_graceful_signal_without_force_is_a_process_error() {
    let mut registry = ProcessState::new();
    registry.add_process(record(7, "api", "shop"));
    let mut session = StopSession::new(vec![record(7, "api", "shop")], false, 30);
    session.step(&mut registry, StopEvent::Ready);
    let a = session.step(&mut registry, StopEvent::TermSent(false));
    assert!(matches!(a, StopAction::Failed(ToolError::SignalFailed { pid: 7, .. })));
    assert_eq!(registry.process_count(), 1);
}

#[test]
fn stop_arguments_need_exactly_one_target() {
    assert!(matches!(stop_args(Some("shop"), true, false).validate_args(), Err(ToolError::ConflictingTargets)));
    assert!(matches!(stop_args(None, false, false).validate_args(), Err(ToolError::MissingTarget)));
    assert!(stop_args(None, true, false).validate_args().is_ok());
    assert!(stop_args(Some("shop"), false, false).validate_args().is_ok());
}

#[test]
fn stop_filters_select_services() {
    let mut registry = ProcessState::new();
    registry.add_process(record(1, "db", "shop"));
    registry.add_process(record(2, "api", "shop"));
    let mut args = stop_args(Some("shop"), false, false);
    args.skip = Some(vec!["db".to_string()]);
    let targets = args.get_services_for_project(&registry, "shop");
    assert_eq!(targets.len(), 1);
    assert_eq!(targets[0].service_name, "api");
    assert!(!args.should_stop_service(&record(1, "db", "shop")));
}

#[test]
fn project_names_are_distinct_in_first_seen_order() {
    let mut registry = ProcessState::new();
    registry.add_process(record(1, "db", "shop"));
    registry.add_process(record(2, "web", "blog"));
    registry.add_process(record(3, "api", "shop"));
    assert_eq!(project_names(&registry), vec!["shop".to_string(), "blog".to_string()]);
    assert!(project_names(&ProcessState::new()).is_empty());
}

#[test]
fn shutdown_sort_follows_reverse_startup_order() {
    let specs = vec![spec("db", &[]), spec("api", &["db"]), spec("web", &["api"])];
    let records = vec![record(1, "db", "shop"), record(2, "api", "shop"), record(3, "web", "shop")];
    let sorted = sort_services_for_shutdown(&records, &specs).unwrap();
    let names: Vec<String> = sorted.iter().map(|p| p.service_name.clone()).collect();
    assert_eq!(names, vec!["web", "api", "db"]);
}

#[test]
fn shutdown_sort_ignores_registry_order() {
    let specs = vec![spec("db", &[]), spec("api", &["db"]), spec("web", &["api"])];
    let records = vec![record(3, "web", "shop"), record(2, "api", "shop"), record(1, "db", "shop")];
    let sorted = sort_services_for_shutdown(&records, &specs).unwrap();
    let names: Vec<String> = sorted.iter().map(|p| p.service_name.clone()).collect();
    assert_eq!(names, vec!["web", "api", "db"]);
}

#[test]
fn restarted_dependency_still_stops_last() {
    let mut registry = ProcessState::new();
    registry.add_process(record(1, "db", "shop"));
    registry.add_process(record(2, "api", "shop"));
    registry.add_process(record(3, "web", "shop"));
    registry.remove_process(1);
    registry.add_process(record(4, "db", "shop"));
    let specs = vec![spec("db", &[]), spec("api", &["db"]), spec("web", &["api"])];
    let targets = stop_args(Some("shop"), false, false).plan_project(&registry, "shop", &specs).unwrap();
    let pids: Vec<u32> = targets.iter().map(|p| p.pid).collect();
    assert_eq!(pids, vec![3, 2, 4]);
}

#[test]
fn undeclared_services_stop_first_last_started_first() {
    let specs = vec![spec("db", &[]), spec("api", &["db"])];
    let records = vec![
        record(1, "db", "shop"),
        record(2, "old-worker", "shop"),
        record(3, "api", "shop"),
        record(4, "old-cron", "shop"),
    ];
    let sorted = sort_services_for_shutdown(&records, &specs).unwrap();
    let pids: Vec<u32> = sorted.iter().map(|p| p.pid).collect();
    assert_eq!(pids, vec![4, 2, 3, 1]);
}

#[test]
fn shutdown_sort_refuses_cycle() {
    let specs = vec![spec("a", &["b"]), spec("b", &["a"])];
    let records = vec![record(1, "a", "shop")];
    assert!(matches!(sort_services_for_shutdown(&records, &specs), Err(ToolError::DependencyCycle(_))));
}
