//! Read-only projection of the registry into display records.
use vstd::prelude::*;
use crate::registry::{ProcessInfo, ProcessState, ProcessStatus, records_of};
use crate::text::{decimal_of, push_decimal, string_from_chars, text_eq};

verus! {

/// Options of a status request.
#[derive(Debug, Clone)]
pub struct StatusArgs {
    /// Show this project only.
    pub project_name: Option<String>,
    pub follow: bool,
    pub logs: bool,
    /// Seconds between refreshes in follow mode.
    pub interval: u64,
    /// Show only services with errors.
    pub errors: bool,
    pub resources: bool,
    /// Log lines to show per service.
    pub tail: usize,
}

/// Status of a service as displayed.
#[derive(Debug, Clone)]
pub enum ServiceStatus {
    Running,
    Starting,
    Stopped,
    Error(String),
    Restarting,
}

/// Health classification of a service.
#[derive(Debug, Clone, Copy, PartialEq, Eq, Structural)]
pub enum ServiceHealth {
    Healthy,
    Unhealthy,
    Starting,
    Unknown,
}

/// One displayed service.
#[derive(Debug, Clone)]
pub struct LiveServiceState {
    pub name: String,
    pub project: String,
    pub pid: u32,
    pub status: ServiceStatus,
    pub health: ServiceHealth,
    /// Seconds since the Unix epoch at which the process was started.
    pub start_time: u64,
    pub last_output: Option<String>,
    pub last_error: Option<String>,
    pub recent_logs: Vec<String>,
}

/// Counts of displayed services by health.
#[derive(Debug, Clone, Copy, PartialEq, Eq, Structural)]
pub struct StatusSummary {
    pub total: usize,
    pub healthy: usize,
    pub unhealthy: usize,
    pub starting: usize,
}

/// The health of a record of status `s`: a running one is healthy, a
/// stopped or failed one unhealthy.
pub open spec fn health_of(s: ProcessStatus) -> ServiceHealth {
    match s {
        ProcessStatus::Running => ServiceHealth::Healthy,
        ProcessStatus::Stopped => ServiceHealth::Unhealthy,
        ProcessStatus::Error(_) => ServiceHealth::Unhealthy,
    }
}

/// `l` displays record `p`.
pub open spec fn displays(l: LiveServiceState, p: ProcessInfo) -> bool {
    &&& l.name == p.service_name
    &&& l.project == p.project_name
    &&& l.pid == p.pid
    &&& l.start_time == p.start_time
    &&& l.health == health_of(p.status)
    &&& match p.status {
        ProcessStatus::Running => l.status is Running && l.last_error is None,
        ProcessStatus::Stopped => l.status is Stopped && l.last_error is None,
        ProcessStatus::Error(e) => l.status == ServiceStatus::Error(e) && l.last_error == Some(e),
    }
    &&& l.last_output is None
    &&& l.recent_logs@.len() == 0
}

/// Record `p` passes the project filter and, if asked, the errors-only filter.
pub open spec fn shown(p: ProcessInfo, project: Option<String>, errors_only: bool) -> bool {
    &&& (project matches Some(n) ==> p.project_name@ == n@)
    &&& (errors_only ==> health_of(p.status) == ServiceHealth::Unhealthy)
}

/// The records of `s` that are shown, in registry order.
pub open spec fn shown_in(s: Seq<ProcessInfo>, project: Option<String>, errors_only: bool) -> Seq<ProcessInfo>
    decreases s.len(),
{
    if s.len() == 0 {
        Seq::empty()
    } else {
        let rest = shown_in(s.drop_last(), project, errors_only);
        if shown(s.last(), project, errors_only) {
            rest.push(s.last())
        } else {
            rest
        }
    }
}

/// Number of entries of `s` with health `h`.
pub open spec fn count_health(s: Seq<LiveServiceState>, h: ServiceHealth) -> nat
    decreases s.len(),
{
    if s.len() == 0 {
        0
    } else {
        count_health(s.drop_last(), h) + if s.last().health == h { 1nat } else { 0nat }
    }
}

/// The uptime text of `secs` seconds: the two largest units among days,
/// hours, minutes and seconds.
pub open spec fn uptime_text(secs: nat) -> Seq<char> {
    if secs > 86400 {
        decimal_of(secs / 86400) + seq!['d', ' '] + decimal_of((secs % 86400) / 3600) + seq!['h']
    } else if secs > 3600 {
        decimal_of(secs / 3600) + seq!['h', ' '] + decimal_of((secs % 3600) / 60) + seq!['m']
    } else if secs > 60 {
        decimal_of(secs / 60) + seq!['m', ' '] + decimal_of(secs % 60) + seq!['s']
    } else {
        decimal_of(secs) + seq!['s']
    }
}

/// The display record of `process_info`. Every running record counts as
/// healthy; no liveness probe is made.
pub fn convert_to_live_state(process_info: &ProcessInfo) -> (r: LiveServiceState)
    ensures
        displays(r, *process_info),
{
    let (status, health, last_error) = match &process_info.status {
        ProcessStatus::Running => (ServiceStatus::Running, ServiceHealth::Healthy, None),
        ProcessStatus::Stopped => (ServiceStatus::Stopped, ServiceHealth::Unhealthy, None),
        ProcessStatus::Error(e) => (ServiceStatus::Error(e.clone()), ServiceHealth::Unhealthy, Some(e.clone())),
    };
    LiveServiceState {
        name: process_info.service_name.clone(),
        project: process_info.project_name.clone(),
        pid: process_info.pid,
        status,
        health,
        start_time: process_info.start_time,
        last_output: None,
        last_error,
        recent_logs: Vec::new(),
    }
}

impl StatusArgs {
    /// The display records of the registry that pass the filters, in
    /// registry order. An empty registry gives an empty list.
    pub fn get_active_services(&self, state: &ProcessState) -> (r: Vec<LiveServiceState>)
        ensures
            r@.len() == shown_in(state@, self.project_name, self.errors).len(),
            forall|i: int| 0 <= i < r@.len() ==> displays(#[trigger] r@[i], shown_in(state@, self.project_name, self.errors)[i]),
    {
        let records = state.get_all_processes();
        assert(records@.len() == state@.len()) by {
            assert(records_of(records@).len() == records@.len());
        }
        let mut r: Vec<LiveServiceState> = Vec::new();
        let mut i: usize = 0;
        while i < records.len()
            invariant
                i <= records.len(),
                records_of(records@) == state@,
                records@.len() == state@.len(),
                r@.len() == shown_in(state@.take(i as int), self.project_name, self.errors).len(),
                forall|k: int| 0 <= k < r@.len() ==> displays(#[trigger] r@[k], shown_in(state@.take(i as int), self.project_name, self.errors)[k]),
            decreases records.len() - i,
        {
            let p: &ProcessInfo = records[i];
            assert(*p == state@[i as int]) by {
                assert(records_of(records@)[i as int] == *records@[i as int]);
            }
            assert(state@.take(i + 1).drop_last() =~= state@.take(i as int));
            let in_project = match &self.project_name {
                Some(n) => text_eq(p.project_name.as_str(), n.as_str()),
                None => true,
            };
            let unhealthy = match p.status {
                ProcessStatus::Running => false,
                _ => true,
            };
            if in_project && (!self.errors || unhealthy) {
                r.push(convert_to_live_state(p));
            }
            i += 1;
        }
        assert(state@.take(i as int) =~= state@);
        r
    }
}

/// Counts `services` by health.
pub fn show_summary(services: &Vec<LiveServiceState>) -> (r: StatusSummary)
    ensures
        r.total == services@.len(),
        r.healthy == count_health(services@, ServiceHealth::Healthy),
        r.unhealthy == count_health(services@, ServiceHealth::Unhealthy),
        r.starting == count_health(services@, ServiceHealth::Starting),
{
    let mut healthy: usize = 0;
    let mut unhealthy: usize = 0;
    let mut starting: usize = 0;
    let mut i: usize = 0;
    while i < services.len()
        invariant
            i <= services.len(),
            healthy == count_health(services@.take(i as int), ServiceHealth::Healthy),
            unhealthy == count_health(services@.take(i as int), ServiceHealth::Unhealthy),
            starting == count_health(services@.take(i as int), ServiceHealth::Starting),
            healthy <= i && unhealthy <= i && starting <= i,
        decreases services.len() - i,
    {
        assert(services@.take(i + 1).drop_last() =~= services@.take(i as int));
        match services[i].health {
            ServiceHealth::Healthy => healthy += 1,
            ServiceHealth::Unhealthy => unhealthy += 1,
            ServiceHealth::Starting => starting += 1,
            ServiceHealth::Unknown => {},
        }
        i += 1;
    }
    assert(services@.take(i as int) =~= services@);
    StatusSummary { total: services.len(), healthy, unhealthy, starting }
}

/// The uptime of a process that has run for `secs` seconds.
pub fn format_uptime(secs: u64) -> (r: String)
    ensures
        r@ == uptime_text(secs as nat),
{
    let mut out: Vec<char> = Vec::new();
    if secs > 86400 {
        push_decimal(secs / 86400, &mut out);
        out.push('d');
        out.push(' ');
        push_decimal((secs % 86400) / 3600, &mut out);
        out.push('h');
    } else if secs > 3600 {
        push_decimal(secs / 3600, &mut out);
        out.push('h');
        out.push(' ');
        push_decimal((secs % 3600) / 60, &mut out);
        out.push('m');
    } else if secs > 60 {
        push_decimal(secs / 60, &mut out);
        out.push('m');
        out.push(' ');
        push_decimal(secs % 60, &mut out);
        out.push('s');
    } else {
        push_decimal(secs, &mut out);
        out.push('s');
    }
    assert(out@ =~= uptime_text(secs as nat));
    string_from_chars(&out)
}

impl ServiceStatus {
    /// The display word of this status.
    pub fn label(&self) -> (r: &'static str)
        ensures
            self is Running ==> r@ == "Running"@,
            self is Starting ==> r@ == "Starting"@,
            self is Stopped ==> r@ == "Stopped"@,
            self is Error ==> r@ == "Error"@,
            self is Restarting ==> r@ == "Restarting"@,
    {
        match self {
            ServiceStatus::Running => "Running",
            ServiceStatus::Starting => "Starting",
            ServiceStatus::Stopped => "Stopped",
            ServiceStatus::Error(_) => "Error",
            ServiceStatus::Restarting => "Restarting",
        }
    }
}

} // verus!
