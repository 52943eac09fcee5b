//! The process registry: one record per tracked OS process, keyed by PID.
use vstd::prelude::*;
use crate::text::text_eq;

verus! {

/// Lifecycle status of a tracked process.
#[derive(Debug, Clone)]
pub enum ProcessStatus {
    Running,
    Stopped,
    Error(String),
}

/// One tracked process.
#[derive(Debug, Clone)]
pub struct ProcessInfo {
    pub pid: u32,
    pub service_name: String,
    pub project_name: String,
    pub command: String,
    /// Seconds since the Unix epoch at which the process was started.
    pub start_time: u64,
    pub status: ProcessStatus,
}

impl ProcessStatus {
    /// A copy equal to `self`.
    pub fn copy_status(&self) -> (r: ProcessStatus)
        ensures
            r == *self,
    {
        match self {
            ProcessStatus::Running => ProcessStatus::Running,
            ProcessStatus::Stopped => ProcessStatus::Stopped,
            ProcessStatus::Error(reason) => ProcessStatus::Error(reason.clone()),
        }
    }
}

impl ProcessInfo {
    /// The record of a process that was just spawned.
    pub fn running(pid: u32, service_name: String, project_name: String, command: String, start_time: u64) -> (r: ProcessInfo)
        ensures
            r.pid == pid,
            r.service_name == service_name,
            r.project_name == project_name,
            r.command == command,
            r.start_time == start_time,
            r.status is Running,
    {
        ProcessInfo { pid, service_name, project_name, command, start_time, status: ProcessStatus::Running }
    }

    /// A copy equal to `self`.
    pub fn copy_record(&self) -> (r: ProcessInfo)
        ensures
            r == *self,
    {
        ProcessInfo {
            pid: self.pid,
            service_name: self.service_name.clone(),
            project_name: self.project_name.clone(),
            command: self.command.clone(),
            start_time: self.start_time,
            status: self.status.copy_status(),
        }
    }
}

/// The records that the references of `r` point to, in the same order.
pub open spec fn records_of(r: Seq<&ProcessInfo>) -> Seq<ProcessInfo> {
    r.map_values(|p: &ProcessInfo| *p)
}

/// `s` with the records of PID `pid` left out, order kept.
pub open spec fn without_pid(s: Seq<ProcessInfo>, pid: u32) -> Seq<ProcessInfo>
    decreases s.len(),
{
    if s.len() == 0 {
        Seq::empty()
    } else {
        let rest = without_pid(s.drop_last(), pid);
        if s.last().pid == pid {
            rest
        } else {
            rest.push(s.last())
        }
    }
}

/// Leaving out the records of a PID keeps the others, in order.
pub proof fn lemma_without_pid(s: Seq<ProcessInfo>, pid: u32)
    ensures
        without_pid(s, pid).len() <= s.len(),
        forall|k: int| 0 <= k < without_pid(s, pid).len() ==> #[trigger] without_pid(s, pid)[k].pid != pid
            && exists|j: int| 0 <= j < s.len() && s[j] == without_pid(s, pid)[k],
        !has_pid(without_pid(s, pid), pid),
        !has_pid(s, pid) ==> without_pid(s, pid) == s,
        pids_distinct(s) ==> pids_distinct(without_pid(s, pid)),
    decreases s.len(),
{
    let w = without_pid(s, pid);
    if s.len() > 0 {
        let d = s.drop_last();
        let wd = without_pid(d, pid);
        lemma_without_pid(d, pid);
        assert forall|k: int| 0 <= k < w.len() implies #[trigger] w[k].pid != pid
            && exists|j: int| 0 <= j < s.len() && s[j] == w[k] by {
            if k < wd.len() {
                assert(w[k] == wd[k]);
                let j = choose|j: int| 0 <= j < d.len() && d[j] == wd[k];
                assert(s[j] == w[k]);
            } else {
                assert(s[s.len() - 1] == w[k]);
            }
        }
        if !has_pid(s, pid) {
            assert(!has_pid(d, pid)) by {
                if has_pid(d, pid) {
                    let i = choose|i: int| 0 <= i < d.len() && (#[trigger] d[i]).pid == pid;
                    assert(s[i].pid == pid);
                }
            }
            assert(s.last().pid != pid) by {
                assert(s[s.len() - 1].pid != pid);
            }
            assert(w =~= s);
        }
        if pids_distinct(s) {
            assert(pids_distinct(d)) by {
                assert forall|a: int, b: int| 0 <= a < d.len() && 0 <= b < d.len() && a != b implies (#[trigger] d[a]).pid != (#[trigger] d[b]).pid by {
                    assert(s[a] == d[a] && s[b] == d[b]);
                }
            }
            assert forall|a: int, b: int| 0 <= a < w.len() && 0 <= b < w.len() && a != b implies (#[trigger] w[a]).pid != (#[trigger] w[b]).pid by {
                if a < wd.len() && b < wd.len() {
                    assert(w[a] == wd[a] && w[b] == wd[b]);
                } else if a < wd.len() {
                    let j = choose|j: int| 0 <= j < d.len() && d[j] == wd[a];
                    assert(s[j] == w[a]);
                    assert(w[b] == s[s.len() - 1]);
                } else {
                    let j = choose|j: int| 0 <= j < d.len() && d[j] == wd[b];
                    assert(s[j] == w[b]);
                    assert(w[a] == s[s.len() - 1]);
                }
            }
        }
        assert(!has_pid(w, pid)) by {
            if has_pid(w, pid) {
                let i = choose|i: int| 0 <= i < w.len() && (#[trigger] w[i]).pid == pid;
            }
        }
    } else {
        assert(w =~= s);
    }
}

/// `s` after tracking `r`: the record of the same PID is replaced in place,
/// or `r` is appended when there is none.
pub open spec fn put_record(s: Seq<ProcessInfo>, r: ProcessInfo) -> Seq<ProcessInfo> {
    if has_pid(s, r.pid) {
        s.update(choose|i: int| 0 <= i < s.len() && (#[trigger] s[i]).pid == r.pid, r)
    } else {
        s.push(r)
    }
}

/// True iff some record of `s` has PID `pid`.
pub open spec fn has_pid(s: Seq<ProcessInfo>, pid: u32) -> bool {
    exists|i: int| 0 <= i < s.len() && (#[trigger] s[i]).pid == pid
}

/// No two records of `s` share a PID.
pub open spec fn pids_distinct(s: Seq<ProcessInfo>) -> bool {
    forall|i: int, j: int|
        0 <= i < s.len() && 0 <= j < s.len() && i != j ==> (#[trigger] s[i]).pid != (#[trigger] s[j]).pid
}

/// `p` is a running process of project `project`.
pub open spec fn running_in(p: ProcessInfo, project: Seq<char>) -> bool {
    p.project_name@ == project && p.status is Running
}

/// The running records of project `project`, in registry order.
pub open spec fn project_running(s: Seq<ProcessInfo>, project: Seq<char>) -> Seq<ProcessInfo>
    decreases s.len(),
{
    if s.len() == 0 {
        Seq::empty()
    } else {
        let rest = project_running(s.drop_last(), project);
        if running_in(s.last(), project) {
            rest.push(s.last())
        } else {
            rest
        }
    }
}

/// Some record of `s` is a running process of service `service` in project `project`.
pub open spec fn service_running(s: Seq<ProcessInfo>, project: Seq<char>, service: Seq<char>) -> bool {
    exists|i: int| 0 <= i < s.len() && running_in(#[trigger] s[i], project) && s[i].service_name@ == service
}

/// Index of the first record of `s` whose service is named `service`, if any.
pub open spec fn first_with_service(s: Seq<ProcessInfo>, service: Seq<char>) -> Option<int>
    decreases s.len(),
{
    if s.len() == 0 {
        None
    } else {
        match first_with_service(s.drop_last(), service) {
            Some(i) => Some(i),
            None => if s.last().service_name@ == service {
                Some(s.len() - 1)
            } else {
                None
            },
        }
    }
}

/// The registry: records in the order they were added, PIDs pairwise distinct.
#[derive(Debug)]
pub struct ProcessState {
    processes: Vec<ProcessInfo>,
}

impl View for ProcessState {
    type V = Seq<ProcessInfo>;

    closed spec fn view(&self) -> Seq<ProcessInfo> {
        self.processes@
    }
}

impl ProcessState {
    pub open spec fn wf(&self) -> bool {
        pids_distinct(self@)
    }

    /// An empty registry.
    pub fn new() -> (r: ProcessState)
        ensures
            r.wf(),
            r@ == Seq::<ProcessInfo>::empty(),
    {
        ProcessState { processes: Vec::new() }
    }

    /// Number of tracked records.
    pub fn process_count(&self) -> (r: usize)
        ensures
            r == self@.len(),
    {
        self.processes.len()
    }

    /// Position of the record of `pid`, if there is one.
    fn position_of(&self, pid: u32) -> (r: Option<usize>)
        ensures
            match r {
                Some(i) => i < self@.len() && self@[i as int].pid == pid,
                None => !has_pid(self@, pid),
            },
    {
        let mut i: usize = 0;
        while i < self.processes.len()
            invariant
                i <= self.processes.len(),
                forall|k: int| 0 <= k < i ==> (#[trigger] self.processes@[k]).pid != pid,
            decreases self.processes.len() - i,
        {
            if self.processes[i].pid == pid {
                return Some(i);
            }
            i += 1;
        }
        None
    }

    /// Tracks `record` under its PID. A record already held for that PID is
    /// replaced in place; otherwise the record is appended.
    pub fn add_process(&mut self, record: ProcessInfo)
        requires
            old(self).wf(),
        ensures
            final(self).wf(),
            final(self)@ == put_record(old(self)@, record),
    {
        match self.position_of(record.pid) {
            Some(i) => {
                proof {
                    let c = choose|c: int| 0 <= c < self@.len() && (#[trigger] self@[c]).pid == record.pid;
                    assert(c == i);
                }
                self.processes.set(i, record);
            },
            None => {
                self.processes.push(record);
            },
        }
    }

    /// Removes the record of `pid`, if there is one; an absent PID is no error.
    pub fn remove_process(&mut self, pid: u32)
        requires
            old(self).wf(),
        ensures
            final(self).wf(),
            final(self)@ == without_pid(old(self)@, pid),
    {
        let mut kept: Vec<ProcessInfo> = Vec::new();
        let mut i: usize = 0;
        while i < self.processes.len()
            invariant
                i <= self.processes.len(),
                self@ == old(self)@,
                kept@ == without_pid(self@.take(i as int), pid),
            decreases self.processes.len() - i,
        {
            assert(self@.take(i + 1).drop_last() =~= self@.take(i as int));
            if self.processes[i].pid != pid {
                kept.push(self.processes[i].copy_record());
            }
            i += 1;
        }
        assert(self@.take(i as int) =~= self@);
        proof {
            lemma_without_pid(self@, pid);
        }
        self.processes = kept;
    }

    /// The running records of project `project_name`, in registry order.
    pub fn get_project_processes(&self, project_name: &str) -> (r: Vec<&ProcessInfo>)
        ensures
            records_of(r@) == project_running(self@, project_name@),
    {
        let mut r: Vec<&ProcessInfo> = Vec::new();
        let mut i: usize = 0;
        while i < self.processes.len()
            invariant
                i <= self.processes.len(),
                records_of(r@) == project_running(self@.take(i as int), project_name@),
            decreases self.processes.len() - i,
        {
            let p = &self.processes[i];
            let ghost old_r = r@;
            assert(self@.take(i + 1).drop_last() =~= self@.take(i as int));
            let is_running = match p.status {
                ProcessStatus::Running => true,
                _ => false,
            };
            if is_running && text_eq(p.project_name.as_str(), project_name) {
                r.push(p);
                assert(records_of(r@) =~= records_of(old_r).push(*p));
            }
            i += 1;
        }
        assert(self@.take(i as int) =~= self@);
        r
    }

    /// Every record, in registry order.
    pub fn get_all_processes(&self) -> (r: Vec<&ProcessInfo>)
        ensures
            records_of(r@) == self@,
    {
        let mut r: Vec<&ProcessInfo> = Vec::new();
        let mut i: usize = 0;
        while i < self.processes.len()
            invariant
                i <= self.processes.len(),
                records_of(r@) == self@.take(i as int),
            decreases self.processes.len() - i,
        {
            let ghost old_r = r@;
            r.push(&self.processes[i]);
            assert(records_of(r@) =~= records_of(old_r).push(self@[i as int]));
            assert(self@.take(i + 1) =~= self@.take(i as int).push(self@[i as int]));
            i += 1;
        }
        assert(self@.take(i as int) =~= self@);
        r
    }

    /// True iff a running record of project `project_name` has service `service_name`.
    pub fn is_service_running(&self, project_name: &str, service_name: &str) -> (r: bool)
        ensures
            r == service_running(self@, project_name@, service_name@),
    {
        let mut i: usize = 0;
        while i < self.processes.len()
            invariant
                i <= self.processes.len(),
                forall|k: int| 0 <= k < i ==> !(running_in(#[trigger] self@[k], project_name@)
                    && self@[k].service_name@ == service_name@),
            decreases self.processes.len() - i,
        {
            let p = &self.processes[i];
            let is_running = match p.status {
                ProcessStatus::Running => true,
                _ => false,
            };
            if is_running && text_eq(p.project_name.as_str(), project_name) && text_eq(p.service_name.as_str(), service_name) {
                return true;
            }
            i += 1;
        }
        false
    }
}

/// Read access to the registry by service name, across projects.
pub struct ProcessManager;

impl ProcessManager {
    /// Copies of every record of `state`, in registry order.
    pub fn get_running_services(state: &ProcessState) -> (r: Vec<ProcessInfo>)
        ensures
            r@ == state@,
    {
        let mut r: Vec<ProcessInfo> = Vec::new();
        let mut i: usize = 0;
        while i < state.processes.len()
            invariant
                i <= state.processes.len(),
                r@ == state@.take(i as int),
            decreases state.processes.len() - i,
        {
            r.push(state.processes[i].copy_record());
            assert(state@.take(i + 1) =~= state@.take(i as int).push(state@[i as int]));
            i += 1;
        }
        assert(state@.take(i as int) =~= state@);
        r
    }

    /// The first record, in registry order, whose service is named `service_name`.
    pub fn find_service(state: &ProcessState, service_name: &str) -> (r: Option<ProcessInfo>)
        ensures
            match first_with_service(state@, service_name@) {
                Some(i) => r == Some(state@[i]),
                None => r is None,
            },
    {
        let mut i: usize = 0;
        while i < state.processes.len()
            invariant
                i <= state.processes.len(),
                first_with_service(state@.take(i as int), service_name@) is None,
            decreases state.processes.len() - i,
        {
            assert(state@.take(i + 1).drop_last() =~= state@.take(i as int));
            if text_eq(state.processes[i].service_name.as_str(), service_name) {
                proof {
                    lemma_first_with_service_prefix(state@, service_name@, i + 1);
                }
                return Some(state.processes[i].copy_record());
            }
            i += 1;
        }
        assert(state@.take(i as int) =~= state@);
        None
    }

    /// True iff some record, in any project, has service `service_name`.
    pub fn is_service_running(state: &ProcessState, service_name: &str) -> (r: bool)
        ensures
            r == (first_with_service(state@, service_name@) is Some),
    {
        Self::find_service(state, service_name).is_some()
    }
}

/// Removing a PID that the registry does not hold changes nothing, its size
/// included.
pub proof fn lemma_remove_absent(s: Seq<ProcessInfo>, pid: u32)
    requires
        !has_pid(s, pid),
    ensures
        without_pid(s, pid) == s,
        without_pid(s, pid).len() == s.len(),
{
    lemma_without_pid(s, pid);
}

/// After adding a record its PID is held; after removing that PID again it
/// is not.
pub proof fn lemma_add_then_remove(s: Seq<ProcessInfo>, r: ProcessInfo)
    ensures
        has_pid(put_record(s, r), r.pid),
        !has_pid(without_pid(put_record(s, r), r.pid), r.pid),
{
    let t = put_record(s, r);
    if has_pid(s, r.pid) {
        let i = choose|i: int| 0 <= i < s.len() && (#[trigger] s[i]).pid == r.pid;
        assert(t[i].pid == r.pid);
    } else {
        assert(t[s.len() as int].pid == r.pid);
    }
    lemma_without_pid(t, r.pid);
}

/// A service with no running record in a project is not running there; in
/// particular nothing runs in an empty registry.
pub proof fn lemma_not_running_without_record(s: Seq<ProcessInfo>, project: Seq<char>, service: Seq<char>)
    requires
        forall|i: int| 0 <= i < s.len() ==> !(running_in(#[trigger] s[i], project) && s[i].service_name@ == service),
    ensures
        !service_running(s, project, service),
        !service_running(Seq::empty(), project, service),
{
}

/// Once a prefix of `s` holds a record of service `service`, the first such
/// record of `s` is the first one of that prefix.
proof fn lemma_first_with_service_prefix(s: Seq<ProcessInfo>, service: Seq<char>, n: int)
    requires
        0 <= n <= s.len(),
        first_with_service(s.take(n), service) is Some,
    ensures
        first_with_service(s, service) == first_with_service(s.take(n), service),
    decreases s.len() - n,
{
    if n < s.len() {
        assert(s.take(n + 1).drop_last() =~= s.take(n));
        lemma_first_with_service_prefix(s, service, n + 1);
    } else {
        assert(s.take(n) =~= s);
    }
}

} // verus!
