use devspin::text::truncate;
use devspin::{
    convert_to_live_state, format_uptime, show_summary, ProcessInfo, ProcessState, ProcessStatus, ServiceHealth,
    ServiceStatus, StatusArgs,
};

fn record(pid: u32, service: &str, project: &str, status: ProcessStatus) -> ProcessInfo {
    ProcessInfo {
        pid,
        service_name: service.to_string(),
        project_name: project.to_string(),
        command: "x".to_string(),
        start_time: 100,
        status,
    }
}

fn args(project: Option<&str>, errors: bool) -> StatusArgs {
    StatusArgs {
        project_name: project.map(|p| p.to_string()),
        follow: false,
        logs: false,
        interval: 2,
        errors,
        resources: false,
        tail: 10,
    }
}

#[test]
fn running_record_is_healthy() {
    let live = convert_to_live_state(&record(5, "api", "shop", ProcessStatus::Running));
    assert_eq!(live.health, ServiceHealth::Healthy);
    assert!(matches!(live.status, ServiceStatus::Running));
    assert_eq!(live.pid, 5);
    assert_eq!(live.name, "api");
    assert_eq!(live.project, "shop");
    assert!(live.last_error.is_none());
}

#[test]
fn failed_and_stopped_records_are_unhealthy() {
    let failed = convert_to_live_state(&record(5, "api", "shop", ProcessStatus::Error("boom".to_string())));
    assert_eq!(failed.health, ServiceHealth::Unhealthy);
    assert_eq!(failed.last_error.as_deref(), Some("boom"));
    let stopped = convert_to_live_state(&record(6, "db", "shop", ProcessStatus::Stopped));
    assert_eq!(stopped.health, ServiceHealth::Unhealthy);
    assert!(matches!(stopped.status, ServiceStatus::Stopped));
}

#[test]
fn empty_registry_gives_empty_snapshot() {
    let state = ProcessState::new();
    assert!(args(None, false).get_active_services(&state).is_empty());
}

#[test]
fn snapshot_filters_by_project_and_errors() {
    let mut state = ProcessState::new();
    state.add_process(record(1, "db", "shop", ProcessStatus::Running));
    state.add_process(record(2, "api", "shop", ProcessStatus::Error("x".to_string())));
    state.add_process(record(3, "web", "blog", ProcessStatus::Running));
    let shop = args(Some("shop"), false).get_active_services(&state);
    assert_eq!(shop.iter().map(|s| s.pid).collect::<Vec<_>>(), vec![1, 2]);
    let errors = args(None, true).get_active_services(&state);
    assert_eq!(errors.iter().map(|s| s.pid).collect::<Vec<_>>(), vec![2]);
    let all = args(None, false).get_active_services(&state);
    let summary = show_summary(&all);
    assert_eq!(summary.total, 3);
    assert_eq!(summary.healthy, 2);
    assert_eq!(summary.unhealthy, 1);
    assert_eq!(summary.starting, 0);
}

#[test]
fn uptime_uses_two_largest_units() {
    assert_eq!(format_uptime(0), "0s");
    assert_eq!(format_uptime(60), "60s");
    assert_eq!(format_uptime(61), "1m 1s");
    assert_eq!(format_uptime(3600), "60m 0s");
    assert_eq!(format_uptime(3661), "1h 1m");
    assert_eq!(format_uptime(86400), "24h 0m");
    assert_eq!(format_uptime(90061), "1d 1h");
}

#[test]
fn truncate_marks_cut_text() {
    assert_eq!(truncate("hello", 10), "hello");
    assert_eq!(truncate("hello", 5), "hello");
    assert_eq!(truncate("hello world", 5), "hello...");
    assert_eq!(truncate("äöüß", 2), "äö...");
}

#[test]
fn status_labels() {
    assert_eq!(ServiceStatus::Running.label(), "Running");
    assert_eq!(ServiceStatus::Error("e".to_string()).label(), "Error");
    assert_eq!(ServiceStatus::Restarting.label(), "Restarting");
}
