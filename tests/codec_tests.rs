use devspin::{decode_record, encode_record, ProcessInfo, ProcessStatus};

fn sample(status: ProcessStatus) -> ProcessInfo {
    ProcessInfo {
        pid: 4321,
        service_name: "api".to_string(),
        project_name: "shop".to_string(),
        command: "cargo run --bin api".to_string(),
        start_time: 1_700_000_123,
        status,
    }
}

fn same(a: &ProcessInfo, b: &ProcessInfo) -> bool {
    let status_same = match (&a.status, &b.status) {
        (ProcessStatus::Running, ProcessStatus::Running) => true,
        (ProcessStatus::Stopped, ProcessStatus::Stopped) => true,
        (ProcessStatus::Error(x), ProcessStatus::Error(y)) => x == y,
        _ => false,
    };
    a.pid == b.pid
        && a.start_time == b.start_time
        && a.service_name == b.service_name
        && a.project_name == b.project_name
        && a.command == b.command
        && status_same
}

#[test]
fn running_record_round_trips() {
    let p = sample(ProcessStatus::Running);
    let back = decode_record(&encode_record(&p)).unwrap();
    assert!(same(&p, &back));
}

#[test]
fn stopped_and_failed_records_round_trip() {
    for status in [ProcessStatus::Stopped, ProcessStatus::Error("exit code 3: ü and ∑".to_string())] {
        let p = sample(status);
        let back = decode_record(&encode_record(&p)).unwrap();
        assert!(same(&p, &back));
    }
}

#[test]
fn extreme_numbers_and_empty_strings_round_trip() {
    let p = ProcessInfo {
        pid: u32::MAX,
        service_name: String::new(),
        project_name: String::new(),
        command: String::new(),
        start_time: u64::MAX,
        status: ProcessStatus::Running,
    };
    let back = decode_record(&encode_record(&p)).unwrap();
    assert!(same(&p, &back));
}

#[test]
fn encoding_has_exact_layout() {
    let p = ProcessInfo {
        pid: 7,
        service_name: "db".to_string(),
        project_name: "p".to_string(),
        command: "go".to_string(),
        start_time: 12,
        status: ProcessStatus::Running,
    };
    let expected = format!(
        "{:020}{:020}R{:020}db{:020}p{:020}go",
        7, 12, 2, 1, 2
    );
    assert_eq!(encode_record(&p), expected);
}

#[test]
fn malformed_text_is_refused() {
    assert!(decode_record("").is_none());
    assert!(decode_record("not a record").is_none());
    let good = encode_record(&sample(ProcessStatus::Running));
    assert!(decode_record(&good[..good.len() - 1]).is_none());
    assert!(decode_record(&format!("{}x", good)).is_none());
    let too_big_pid = format!("{:020}{:020}R{:020}{:020}{:020}", 5_000_000_000u64, 1, 0, 0, 0);
    assert!(decode_record(&too_big_pid).is_none());
    let bad_status = format!("{:020}{:020}X{:020}{:020}{:020}", 1, 1, 0, 0, 0);
    assert!(decode_record(&bad_status).is_none());
}
