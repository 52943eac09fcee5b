use devspin::registry::ProcessManager;
use devspin::{ProcessInfo, ProcessState, ProcessStatus};

fn record(pid: u32, service: &str, project: &str) -> ProcessInfo {
    ProcessInfo::running(pid, service.to_string(), project.to_string(), format!("run {}", service), 1_700_000_000)
}

#[test]
fn test_process_creation() {
    let process_state = ProcessState::new();
    assert_eq!(process_state.process_count(), 0);
}

#[test]
fn test_process_state_operations() {
    let mut process_state = ProcessState::new();

    let processes = process_state.get_all_processes();
    assert_eq!(processes.len(), 0, "New ProcessState should have no processes");

    let pid: u32 = 4242;
    process_state.add_process(ProcessInfo::running(
        pid,
        "test-service".to_string(),
        "test-project".to_string(),
        "sleep 1".to_string(),
        1_700_000_000,
    ));

    let processes = process_state.get_all_processes();
    assert_eq!(processes.len(), 1, "Should have one process after adding");

    let project_processes = process_state.get_project_processes("test-project");
    assert_eq!(project_processes.len(), 1, "Should find process by project name");

    process_state.remove_process(pid);

    let processes = process_state.get_all_processes();
    assert_eq!(processes.len(), 0, "Should have no processes after removal");
}

#[test]
fn test_process_state_persistence() {
    let mut process_state = ProcessState::new();
    let pid: u32 = 5151;
    process_state.add_process(ProcessInfo::running(
        pid,
        "persistence-service".to_string(),
        "persistence-project".to_string(),
        "sleep 1".to_string(),
        1_700_000_000,
    ));

    let processes = process_state.get_all_processes();
    assert_eq!(processes.len(), 1, "Should still have the process");
    assert_eq!(processes[0].pid, pid, "Should have same PID");
    assert_eq!(processes[0].service_name, "persistence-service");
    assert_eq!(processes[0].project_name, "persistence-project");

    process_state.remove_process(pid);
}

#[test]
fn test_process_state_error_cases() {
    let mut process_state = ProcessState::new();

    process_state.remove_process(99999);

    let processes = process_state.get_project_processes("non-existent-project");
    assert_eq!(processes.len(), 0, "Should return empty Vec for non-existent project");
}

#[test]
fn empty_registry_has_no_records() {
    let state = ProcessState::new();
    assert!(state.get_all_processes().is_empty());
    assert!(state.get_project_processes("x").is_empty());
}

#[test]
fn removing_absent_pid_keeps_size() {
    let mut state = ProcessState::new();
    state.add_process(record(1, "db", "shop"));
    state.add_process(record(2, "api", "shop"));
    state.remove_process(77);
    assert_eq!(state.process_count(), 2);
    assert_eq!(state.get_all_processes()[0].pid, 1);
    assert_eq!(state.get_all_processes()[1].pid, 2);
}

#[test]
fn add_then_remove_drops_only_that_pid() {
    let mut state = ProcessState::new();
    state.add_process(record(10, "db", "shop"));
    state.add_process(record(11, "api", "shop"));
    assert!(state.get_all_processes().iter().any(|p| p.pid == 11));
    state.remove_process(11);
    let all = state.get_all_processes();
    assert!(!all.iter().any(|p| p.pid == 11));
    assert_eq!(all.len(), 1);
    assert_eq!(all[0].pid, 10);
}

#[test]
fn adding_same_pid_replaces_record() {
    let mut state = ProcessState::new();
    state.add_process(record(10, "db", "shop"));
    state.add_process(record(11, "api", "shop"));
    state.add_process(record(10, "cache", "shop"));
    let all = state.get_all_processes();
    assert_eq!(all.len(), 2);
    assert_eq!(all[0].pid, 10);
    assert_eq!(all[0].service_name, "cache");
}

#[test]
fn project_processes_keep_running_records_of_project() {
    let mut state = ProcessState::new();
    state.add_process(record(1, "db", "shop"));
    state.add_process(record(2, "web", "blog"));
    let mut stopped = record(3, "api", "shop");
    stopped.status = ProcessStatus::Stopped;
    state.add_process(stopped);
    let mut failed = record(4, "worker", "shop");
    failed.status = ProcessStatus::Error("crashed".to_string());
    state.add_process(failed);
    state.add_process(record(5, "cache", "shop"));
    let shop = state.get_project_processes("shop");
    let pids: Vec<u32> = shop.iter().map(|p| p.pid).collect();
    assert_eq!(pids, vec![1, 5]);
}

#[test]
fn is_service_running_needs_running_match_of_both_names() {
    let mut state = ProcessState::new();
    assert!(!state.is_service_running("shop", "db"));
    state.add_process(record(1, "db", "shop"));
    let mut stopped = record(2, "api", "shop");
    stopped.status = ProcessStatus::Stopped;
    state.add_process(stopped);
    assert!(state.is_service_running("shop", "db"));
    assert!(!state.is_service_running("blog", "db"));
    assert!(!state.is_service_running("shop", "api"));
    assert!(!state.is_service_running("shop", "web"));
}

#[test]
fn manager_finds_first_record_by_service() {
    let mut state = ProcessState::new();
    state.add_process(record(1, "db", "shop"));
    state.add_process(record(2, "api", "shop"));
    state.add_process(record(3, "api", "blog"));
    let found = ProcessManager::find_service(&state, "api").unwrap();
    assert_eq!(found.pid, 2);
    assert_eq!(found.project_name, "shop");
    assert!(ProcessManager::find_service(&state, "web").is_none());
    assert!(ProcessManager::is_service_running(&state, "db"));
    assert!(!ProcessManager::is_service_running(&state, "web"));
    let all = ProcessManager::get_running_services(&state);
    assert_eq!(all.len(), 3);
    assert_eq!(all[2].project_name, "blog");
}
