//! Shutdown: which processes to stop, in which order, and the per-process
//! escalation from a graceful signal to a forceful one.
use vstd::prelude::*;
use crate::error::ToolError;
use crate::filter::{check_filters, filter_error, passes, selected};
use crate::registry::{ProcessInfo, ProcessState, ProcessStatus, without_pid};
use crate::resolver::{
    ServiceSpec, dependents_first, depends_on, dfs_order, has_cycle, index_of_service,
    lemma_reverse_puts_dependents_first, names_distinct, shutdown_order, sort_services_by_dependencies,
};
use crate::text::text_eq;

verus! {

/// Pause between two liveness polls of a signalled process, in milliseconds.
pub const POLL_INTERVAL_MS: u64 = 100;

/// Pause after a forceful signal before the record is dropped, in milliseconds.
pub const FORCE_GRACE_MS: u64 = 500;

/// Options of a stop request.
#[derive(Debug, Clone)]
pub struct StopArgs {
    pub project_name: Option<String>,
    pub only: Option<Vec<String>>,
    pub skip: Option<Vec<String>>,
    pub force: bool,
    pub all: bool,
    /// Seconds to wait for a graceful exit.
    pub timeout: u64,
    pub verbose: bool,
    pub dry_run: bool,
}

/// The error, if any, that the options of `a` call for.
pub open spec fn stop_args_error(a: StopArgs) -> Option<ToolError> {
    if a.all && a.project_name is Some {
        Some(ToolError::ConflictingTargets)
    } else if filter_error(a.only, a.skip) is Some {
        filter_error(a.only, a.skip)
    } else if !a.all && a.project_name is None {
        Some(ToolError::MissingTarget)
    } else {
        None
    }
}

/// A stop request that gives both `only` and `skip` is refused with a
/// configuration error, before any process is signalled.
pub proof fn lemma_stop_conflicting_filters(a: StopArgs)
    requires
        a.only is Some,
        a.skip is Some,
    ensures
        stop_args_error(a) matches Some(e) && crate::error::kind_of(e) == crate::error::ErrorKind::Configuration,
{
}

/// `p` is a running process of project `project` that passes the filters.
pub open spec fn stoppable(p: ProcessInfo, project: Seq<char>, only: Option<Vec<String>>, skip: Option<Vec<String>>) -> bool {
    p.project_name@ == project && p.status is Running && selected(only, skip, p.service_name@)
}

/// The stoppable records of `s`, in registry order.
pub open spec fn stoppable_in(s: Seq<ProcessInfo>, project: Seq<char>, only: Option<Vec<String>>, skip: Option<Vec<String>>) -> Seq<ProcessInfo>
    decreases s.len(),
{
    if s.len() == 0 {
        Seq::empty()
    } else {
        let rest = stoppable_in(s.drop_last(), project, only, skip);
        if stoppable(s.last(), project, only, skip) {
            rest.push(s.last())
        } else {
            rest
        }
    }
}

/// The project names of `s`, each once, in order of first appearance.
pub open spec fn projects_of(s: Seq<ProcessInfo>) -> Seq<Seq<char>>
    decreases s.len(),
{
    if s.len() == 0 {
        Seq::empty()
    } else {
        let rest = projects_of(s.drop_last());
        if rest.contains(s.last().project_name@) {
            rest
        } else {
            rest.push(s.last().project_name@)
        }
    }
}

/// The views of a sequence of strings.
pub open spec fn views_of(v: Seq<String>) -> Seq<Seq<char>> {
    v.map_values(|x: String| x@)
}

impl StopArgs {
    /// Checks the options: a project name and "all" exclude each other, as do
    /// `only` and `skip`; filter entries may not be blank; a target is needed.
    pub fn validate_args(&self) -> (r: Result<(), ToolError>)
        ensures
            match stop_args_error(*self) {
                Some(e) => r == Err::<(), ToolError>(e),
                None => r is Ok,
            },
    {
        if self.all && self.project_name.is_some() {
            return Err(ToolError::ConflictingTargets);
        }
        check_filters(&self.only, &self.skip)?;
        if !self.all && self.project_name.is_none() {
            return Err(ToolError::MissingTarget);
        }
        Ok(())
    }

    /// True iff `service` passes the `only` and `skip` lists.
    pub fn should_stop_service(&self, service: &ProcessInfo) -> (r: bool)
        ensures
            r == selected(self.only, self.skip, service.service_name@),
    {
        passes(&self.only, &self.skip, service.service_name.as_str())
    }

    /// The running records of `project_name` that pass the filters, in
    /// registry order.
    pub fn get_services_for_project(&self, state: &ProcessState, project_name: &str) -> (r: Vec<ProcessInfo>)
        ensures
            r@ == stoppable_in(state@, project_name@, self.only, self.skip),
    {
        let records = state.get_all_processes();
        proof {
            assert(records@.len() == state@.len()) by {
                assert(crate::registry::records_of(records@).len() == records@.len());
            }
        }
        let mut r: Vec<ProcessInfo> = Vec::new();
        let mut i: usize = 0;
        while i < records.len()
            invariant
                i <= records.len(),
                crate::registry::records_of(records@) == state@,
                records@.len() == state@.len(),
                r@ == stoppable_in(state@.take(i as int), project_name@, self.only, self.skip),
            decreases records.len() - i,
        {
            let p: &ProcessInfo = records[i];
            assert(*p == state@[i as int]) by {
                assert(crate::registry::records_of(records@)[i as int] == *records@[i as int]);
            }
            assert(state@.take(i + 1).drop_last() =~= state@.take(i as int));
            let running = match p.status {
                ProcessStatus::Running => true,
                _ => false,
            };
            if running && text_eq(p.project_name.as_str(), project_name) && self.should_stop_service(p) {
                r.push(p.copy_record());
            }
            i += 1;
        }
        assert(state@.take(i as int) =~= state@);
        r
    }

    /// The records to stop for `project_name`, in shutdown order over the
    /// project's services `specs` (see `sort_services_for_shutdown`).
    pub fn plan_project(&self, state: &ProcessState, project_name: &str, specs: &Vec<ServiceSpec>) -> (r: Result<Vec<ProcessInfo>, ToolError>)
        ensures
            r is Ok <==> names_distinct(specs@) && !has_cycle(specs@),
            r matches Err(e) ==> (e is DuplicateService || e is DependencyCycle),
            r matches Ok(v) ==> (dfs_order(specs@) matches Some(o)
                && v@ == shutdown_sequence(stoppable_in(state@, project_name@, self.only, self.skip), specs@, o.reverse())),
    {
        let services = self.get_services_for_project(state, project_name);
        sort_services_for_shutdown(&services, specs)
    }
}

/// A service of `s` is named `name`.
pub open spec fn has_spec(s: Seq<ServiceSpec>, name: Seq<char>) -> bool {
    exists|j: int| 0 <= j < s.len() && (#[trigger] s[j]).name@ == name
}

/// The records of `r` whose service no entry of `s` names, in order.
pub open spec fn unnamed(r: Seq<ProcessInfo>, s: Seq<ServiceSpec>) -> Seq<ProcessInfo>
    decreases r.len(),
{
    if r.len() == 0 {
        Seq::empty()
    } else {
        let rest = unnamed(r.drop_last(), s);
        if has_spec(s, r.last().service_name@) {
            rest
        } else {
            rest.push(r.last())
        }
    }
}

/// The records of `r` of service `name`, in order.
pub open spec fn named_block(r: Seq<ProcessInfo>, name: Seq<char>) -> Seq<ProcessInfo>
    decreases r.len(),
{
    if r.len() == 0 {
        Seq::empty()
    } else {
        let rest = named_block(r.drop_last(), name);
        if r.last().service_name@ == name {
            rest.push(r.last())
        } else {
            rest
        }
    }
}

/// The records of `r` grouped by service, the groups in the order of the
/// service indices `down`.
pub open spec fn blocks(r: Seq<ProcessInfo>, s: Seq<ServiceSpec>, down: Seq<usize>) -> Seq<ProcessInfo>
    decreases down.len(),
{
    if down.len() == 0 {
        Seq::empty()
    } else {
        blocks(r, s, down.drop_last()) + named_block(r, s[down.last() as int].name@)
    }
}

/// The shutdown sequence of records `r` over services `s` stopped in the
/// order `down`: first the records of services that `s` does not declare,
/// last started first, then the records of each service in turn.
pub open spec fn shutdown_sequence(r: Seq<ProcessInfo>, s: Seq<ServiceSpec>, down: Seq<usize>) -> Seq<ProcessInfo> {
    unnamed(r, s).reverse() + blocks(r, s, down)
}

/// Orders the records `services` for shutdown: the project's services
/// `specs` are ordered as for startup, that order is reversed, and the
/// records follow it, so a service stops before every service it depends
/// on. Records of services that `specs` does not declare stop first. Fails
/// as the startup order does, on a repeated name or a dependency cycle.
pub fn sort_services_for_shutdown(services: &Vec<ProcessInfo>, specs: &Vec<ServiceSpec>) -> (r: Result<Vec<ProcessInfo>, ToolError>)
    ensures
        r is Ok <==> names_distinct(specs@) && !has_cycle(specs@),
        r matches Err(e) ==> (e is DuplicateService || e is DependencyCycle),
        r matches Ok(v) ==> (dfs_order(specs@) matches Some(o)
            && v@ == shutdown_sequence(services@, specs@, o.reverse())
            && dependents_first(specs@, o.reverse())
            && o.reverse().no_duplicates()
            && forall|k: int| 0 <= k < o.len() ==> #[trigger] o.reverse()[k] < specs@.len()),
{
    let order = sort_services_by_dependencies(specs)?;
    let down = shutdown_order(&order);
    proof {
        lemma_reverse_puts_dependents_first(specs@, order@);
        assert forall|a: int, b: int| 0 <= a < down@.len() && 0 <= b < down@.len() && a != b implies down@[a] != down@[b] by {
            assert(down@[a] == order@[order@.len() - 1 - a]);
            assert(down@[b] == order@[order@.len() - 1 - b]);
        }
        assert forall|k: int| 0 <= k < down@.len() implies #[trigger] down@[k] < specs@.len() by {
            assert(down@[k] == order@[order@.len() - 1 - k]);
        }
    }
    let loose = unnamed_records(services, specs);
    let mut r = reversed(&loose);
    let mut k: usize = 0;
    while k < down.len()
        invariant
            k <= down@.len(),
            forall|m: int| 0 <= m < down@.len() ==> #[trigger] down@[m] < specs@.len(),
            r@ == unnamed(services@, specs@).reverse() + blocks(services@, specs@, down@.take(k as int)),
        decreases down.len() - k,
    {
        let ghost before = r@;
        push_named(services, specs[down[k]].name.as_str(), &mut r);
        assert(down@.take(k + 1).drop_last() =~= down@.take(k as int));
        assert(r@ =~= unnamed(services@, specs@).reverse() + blocks(services@, specs@, down@.take(k + 1)));
        k += 1;
    }
    assert(down@.take(k as int) =~= down@);
    Ok(r)
}

/// Every record of a service's group has that service's name.
proof fn lemma_named_block(r: Seq<ProcessInfo>, name: Seq<char>)
    ensures
        forall|m: int| 0 <= m < named_block(r, name).len() ==> (#[trigger] named_block(r, name)[m]).service_name@ == name,
    decreases r.len(),
{
    if r.len() > 0 {
        lemma_named_block(r.drop_last(), name);
    }
}

/// No service of `s` declares a record left among the undeclared ones.
proof fn lemma_unnamed(r: Seq<ProcessInfo>, s: Seq<ServiceSpec>)
    ensures
        forall|m: int| 0 <= m < unnamed(r, s).len() ==> !has_spec(s, (#[trigger] unnamed(r, s)[m]).service_name@),
    decreases r.len(),
{
    if r.len() > 0 {
        lemma_unnamed(r.drop_last(), s);
    }
}

/// Where the group of the `k`-th service of `down` starts.
spec fn block_start(r: Seq<ProcessInfo>, s: Seq<ServiceSpec>, down: Seq<usize>, k: int) -> int {
    blocks(r, s, down.take(k)).len() as int
}

/// Groups start no earlier than the ones before them end.
proof fn lemma_block_start_mono(r: Seq<ProcessInfo>, s: Seq<ServiceSpec>, down: Seq<usize>, a: int, b: int)
    requires
        0 <= a <= b <= down.len(),
    ensures
        block_start(r, s, down, a) <= block_start(r, s, down, b),
    decreases b - a,
{
    if a < b {
        lemma_block_start_mono(r, s, down, a, b - 1);
        assert(down.take(b).drop_last() =~= down.take(b - 1));
    }
}

/// The group that position `p` of the grouped records falls in.
proof fn lemma_locate(r: Seq<ProcessInfo>, s: Seq<ServiceSpec>, down: Seq<usize>, p: int) -> (k: int)
    requires
        0 <= p < blocks(r, s, down).len(),
    ensures
        0 <= k < down.len(),
        block_start(r, s, down, k) <= p < block_start(r, s, down, k + 1),
        blocks(r, s, down)[p].service_name@ == s[down[k] as int].name@,
    decreases down.len(),
{
    let d = down.drop_last();
    let n = down.len() - 1;
    assert(down.take(n) =~= d);
    assert(down.take(n + 1) =~= down);
    if p < blocks(r, s, d).len() {
        let k = lemma_locate(r, s, d, p);
        assert(d.take(k) =~= down.take(k));
        assert(d.take(k + 1) =~= down.take(k + 1));
        assert(blocks(r, s, down)[p] == blocks(r, s, d)[p]);
        assert(d[k] == down[k]);
        k
    } else {
        lemma_named_block(r, s[down.last() as int].name@);
        let m = p - blocks(r, s, d).len();
        assert(blocks(r, s, down)[p] == named_block(r, s[down.last() as int].name@)[m]);
        n
    }
}

/// In a shutdown sequence, a record of a service comes before every record
/// of a service it depends on: dependents stop first.
pub proof fn lemma_shutdown_stops_dependents_first(
    r: Seq<ProcessInfo>,
    s: Seq<ServiceSpec>,
    down: Seq<usize>,
    p: int,
    q: int,
    i: int,
    j: int,
)
    requires
        names_distinct(s),
        down.no_duplicates(),
        dependents_first(s, down),
        forall|k: int| 0 <= k < down.len() ==> #[trigger] down[k] < s.len(),
        0 <= p < shutdown_sequence(r, s, down).len(),
        0 <= q < shutdown_sequence(r, s, down).len(),
        0 <= i < s.len(),
        0 <= j < s.len(),
        shutdown_sequence(r, s, down)[p].service_name@ == s[i].name@,
        shutdown_sequence(r, s, down)[q].service_name@ == s[j].name@,
        depends_on(s, i, j),
    ensures
        p < q,
{
    let u = unnamed(r, s).reverse();
    let b = blocks(r, s, down);
    let seq = shutdown_sequence(r, s, down);
    lemma_unnamed(r, s);
    assert(p >= u.len()) by {
        if p < u.len() {
            assert(seq[p] == unnamed(r, s)[unnamed(r, s).len() - 1 - p]);
            assert(has_spec(s, s[i].name@));
        }
    }
    assert(q >= u.len()) by {
        if q < u.len() {
            assert(seq[q] == unnamed(r, s)[unnamed(r, s).len() - 1 - q]);
            assert(has_spec(s, s[j].name@));
        }
    }
    let bp = p - u.len();
    let bq = q - u.len();
    assert(seq[p] == b[bp]);
    assert(seq[q] == b[bq]);
    let kp = lemma_locate(r, s, down, bp);
    let kq = lemma_locate(r, s, down, bq);
    assert(down[kp] == i) by {
        if down[kp] != i {
            assert(s[down[kp] as int].name@ != s[i].name@);
        }
    }
    assert(down[kq] == j) by {
        if down[kq] != j {
            assert(s[down[kq] as int].name@ != s[j].name@);
        }
    }
    assert(depends_on(s, down[kp] as int, j));
    let q2 = choose|q2: int| kp < q2 < down.len() && down[q2] == j;
    assert(q2 == kq);
    lemma_block_start_mono(r, s, down, kp + 1, kq);
}

/// `records` in reverse.
fn reversed(records: &Vec<ProcessInfo>) -> (r: Vec<ProcessInfo>)
    ensures
        r@ == records@.reverse(),
{
    let mut r: Vec<ProcessInfo> = Vec::new();
    let mut i: usize = records.len();
    while i > 0
        invariant
            i <= records.len(),
            r@ == records@.subrange(i as int, records@.len() as int).reverse(),
        decreases i,
    {
        i -= 1;
        r.push(records[i].copy_record());
        assert(r@ =~= records@.subrange(i as int, records@.len() as int).reverse());
    }
    assert(records@.subrange(0, records@.len() as int) =~= records@);
    r
}

/// The records of `records` whose service `specs` does not declare.
fn unnamed_records(records: &Vec<ProcessInfo>, specs: &Vec<ServiceSpec>) -> (r: Vec<ProcessInfo>)
    ensures
        r@ == unnamed(records@, specs@),
{
    let mut r: Vec<ProcessInfo> = Vec::new();
    let mut i: usize = 0;
    while i < records.len()
        invariant
            i <= records.len(),
            r@ == unnamed(records@.take(i as int), specs@),
        decreases records.len() - i,
    {
        assert(records@.take(i + 1).drop_last() =~= records@.take(i as int));
        let declared = index_of_service(specs, records[i].service_name.as_str()).is_some();
        if !declared {
            r.push(records[i].copy_record());
        }
        i += 1;
    }
    assert(records@.take(i as int) =~= records@);
    r
}

/// Appends the records of `records` of service `name`, in order.
fn push_named(records: &Vec<ProcessInfo>, name: &str, out: &mut Vec<ProcessInfo>)
    ensures
        final(out)@ == old(out)@ + named_block(records@, name@),
{
    let mut i: usize = 0;
    while i < records.len()
        invariant
            i <= records.len(),
            out@ == old(out)@ + named_block(records@.take(i as int), name@),
        decreases records.len() - i,
    {
        assert(records@.take(i + 1).drop_last() =~= records@.take(i as int));
        if text_eq(records[i].service_name.as_str(), name) {
            let ghost before = out@;
            out.push(records[i].copy_record());
            assert(out@ =~= old(out)@ + named_block(records@.take(i + 1), name@));
        } else {
            assert(out@ =~= old(out)@ + named_block(records@.take(i + 1), name@));
        }
        i += 1;
    }
    assert(records@.take(i as int) =~= records@);
}

/// The distinct project names of the registry, in order of first appearance.
pub fn project_names(state: &ProcessState) -> (r: Vec<String>)
    ensures
        views_of(r@) == projects_of(state@),
{
    let records = state.get_all_processes();
    assert(records@.len() == state@.len()) by {
        assert(crate::registry::records_of(records@).len() == records@.len());
    }
    let mut r: Vec<String> = Vec::new();
    let mut i: usize = 0;
    while i < records.len()
        invariant
            i <= records.len(),
            crate::registry::records_of(records@) == state@,
            records@.len() == state@.len(),
            views_of(r@) == projects_of(state@.take(i as int)),
        decreases records.len() - i,
    {
        let p: &ProcessInfo = records[i];
        assert(*p == state@[i as int]) by {
            assert(crate::registry::records_of(records@)[i as int] == *records@[i as int]);
        }
        assert(state@.take(i + 1).drop_last() =~= state@.take(i as int));
        let mut seen = false;
        let mut k: usize = 0;
        while k < r.len()
            invariant
                k <= r.len(),
                !seen ==> forall|m: int| 0 <= m < k ==> (#[trigger] r@[m])@ != p.project_name@,
                seen ==> views_of(r@).contains(p.project_name@),
            decreases r.len() - k,
        {
            if text_eq(r[k].as_str(), p.project_name.as_str()) {
                assert(views_of(r@)[k as int] == p.project_name@);
                seen = true;
            }
            k += 1;
        }
        if !seen {
            assert(!views_of(r@).contains(p.project_name@)) by {
                if views_of(r@).contains(p.project_name@) {
                    let m = choose|m: int| 0 <= m < views_of(r@).len() && views_of(r@)[m] == p.project_name@;
                    assert(r@[m]@ == p.project_name@);
                }
            }
            let ghost before = r@;
            r.push(p.project_name.clone());
            assert(views_of(r@) =~= views_of(before).push(p.project_name@));
        }
        i += 1;
    }
    assert(state@.take(i as int) =~= state@);
    r
}

/// Where a shutdown sequence stands.
#[derive(Debug, Clone, Copy, PartialEq, Eq, Structural)]
pub enum StopPhase {
    /// About to signal the next process, or to finish.
    Signal,
    /// The graceful signal has been asked for.
    AwaitTerm,
    /// Waiting for the process to exit.
    Polling,
    /// The forceful signal has been asked for.
    Killing,
    /// Waiting out the grace period after the forceful signal.
    Grace,
    /// Finished, or failed.
    Done,
}

/// What the caller reports back after carrying out an action.
#[derive(Debug, Clone, Copy)]
pub enum StopEvent {
    /// Go on (at the start).
    Ready,
    /// The graceful signal was sent, or could not be.
    TermSent(bool),
    /// Whether the process still runs, and the milliseconds since the
    /// graceful signal.
    Polled { alive: bool, elapsed_ms: u64 },
    /// The forceful signal was sent (its outcome is not relied on).
    KillSent,
    /// The grace period after the forceful signal is over.
    GraceElapsed,
}

/// What the caller is to do next.
#[derive(Debug, Clone)]
pub enum StopAction {
    /// Send the graceful signal to this PID.
    SendTerm(u32),
    /// Wait `POLL_INTERVAL_MS`, then report whether this PID still runs.
    Poll(u32),
    /// Send the forceful signal to this PID.
    SendKill(u32),
    /// Wait this many milliseconds.
    Wait(u64),
    /// Every process is stopped.
    Finished,
    /// The sequence stopped on this error.
    Failed(ToolError),
}

/// A shutdown sequence over a list of records.
pub struct StopSession {
    pub targets: Vec<ProcessInfo>,
    pub pos: usize,
    pub phase: StopPhase,
    pub force: bool,
    pub timeout_secs: u64,
}

/// The phase in which event `e` is expected.
pub open spec fn phase_for(e: StopEvent) -> StopPhase {
    match e {
        StopEvent::Ready => StopPhase::Signal,
        StopEvent::TermSent(_) => StopPhase::AwaitTerm,
        StopEvent::Polled { .. } => StopPhase::Polling,
        StopEvent::KillSent => StopPhase::Killing,
        StopEvent::GraceElapsed => StopPhase::Grace,
    }
}

/// A sequence that has finished or failed accepts no further event: after a
/// failure, the records not yet reached stay registered and are never
/// signalled.
pub proof fn lemma_done_accepts_nothing(e: StopEvent)
    ensures
        phase_for(e) != StopPhase::Done,
{
}

/// The graceful wait is over: `elapsed_ms` has reached `timeout_secs`.
pub open spec fn timed_out(elapsed_ms: u64, timeout_secs: u64) -> bool {
    elapsed_ms as int >= timeout_secs as int * 1000
}

impl StopSession {
    pub open spec fn wf(&self) -> bool {
        &&& self.pos <= self.targets@.len()
        &&& (self.phase != StopPhase::Signal && self.phase != StopPhase::Done) ==> self.pos < self.targets@.len()
    }

    /// The record being stopped.
    pub open spec fn current(&self) -> ProcessInfo {
        self.targets@[self.pos as int]
    }

    /// A sequence that stops `targets` in the given order.
    pub fn new(targets: Vec<ProcessInfo>, force: bool, timeout_secs: u64) -> (r: StopSession)
        ensures
            r.wf(),
            r.targets == targets,
            r.pos == 0,
            r.phase == StopPhase::Signal,
            r.force == force,
            r.timeout_secs == timeout_secs,
    {
        StopSession { targets, pos: 0, phase: StopPhase::Signal, force, timeout_secs }
    }

    /// True iff `event` is the one this sequence waits for.
    pub fn accepts(&self, event: &StopEvent) -> (r: bool)
        ensures
            r == (self.phase == phase_for(*event)),
    {
        match event {
            StopEvent::Ready => self.phase == StopPhase::Signal,
            StopEvent::TermSent(_) => self.phase == StopPhase::AwaitTerm,
            StopEvent::Polled { .. } => self.phase == StopPhase::Polling,
            StopEvent::KillSent => self.phase == StopPhase::Killing,
            StopEvent::GraceElapsed => self.phase == StopPhase::Grace,
        }
    }

    /// Moves to the next record: signals it, or finishes after the last.
    fn signal_next(&mut self) -> (r: StopAction)
        requires
            old(self).pos <= old(self).targets@.len(),
        ensures
            final(self).wf(),
            final(self).targets == old(self).targets,
            final(self).pos == old(self).pos,
            final(self).force == old(self).force,
            final(self).timeout_secs == old(self).timeout_secs,
            old(self).pos == old(self).targets@.len() ==> r is Finished && final(self).phase == StopPhase::Done,
            old(self).pos < old(self).targets@.len() ==> r == StopAction::SendTerm(old(self).targets@[old(self).pos as int].pid)
                && final(self).phase == StopPhase::AwaitTerm,
    {
        if self.pos == self.targets.len() {
            self.phase = StopPhase::Done;
            StopAction::Finished
        } else {
            self.phase = StopPhase::AwaitTerm;
            StopAction::SendTerm(self.targets[self.pos].pid)
        }
    }

    /// The graceful stop of the current record failed: escalate if forced,
    /// else fail with `err`.
    fn escalate_or_fail(&mut self, err: ToolError) -> (r: StopAction)
        requires
            old(self).wf(),
            old(self).pos < old(self).targets@.len(),
        ensures
            final(self).wf(),
            final(self).targets == old(self).targets,
            final(self).pos == old(self).pos,
            final(self).force == old(self).force,
            final(self).timeout_secs == old(self).timeout_secs,
            old(self).force ==> r == StopAction::SendKill(old(self).current().pid) && final(self).phase == StopPhase::Killing,
            !old(self).force ==> r == StopAction::Failed(err) && final(self).phase == StopPhase::Done,
    {
        if self.force {
            self.phase = StopPhase::Killing;
            StopAction::SendKill(self.targets[self.pos].pid)
        } else {
            self.phase = StopPhase::Done;
            StopAction::Failed(err)
        }
    }

    /// The current record's process is gone: drop its record and go on.
    fn finish_current(&mut self, registry: &mut ProcessState) -> (r: StopAction)
        requires
            old(self).wf(),
            old(self).pos < old(self).targets@.len(),
            old(registry).wf(),
        ensures
            final(self).wf(),
            final(registry).wf(),
            final(registry)@ == without_pid(old(registry)@, old(self).current().pid),
            final(self).targets == old(self).targets,
            final(self).pos == old(self).pos + 1,
            final(self).force == old(self).force,
            final(self).timeout_secs == old(self).timeout_secs,
            final(self).pos == final(self).targets@.len() ==> r is Finished && final(self).phase == StopPhase::Done,
            final(self).pos < final(self).targets@.len() ==> r == StopAction::SendTerm(final(self).current().pid)
                && final(self).phase == StopPhase::AwaitTerm,
    {
        registry.remove_process(self.targets[self.pos].pid);
        if self.pos < self.targets.len() {
            self.pos = self.pos + 1;
        }
        self.signal_next()
    }

    /// Takes the outcome of the last action and says what to do next.
    pub fn step(&mut self, registry: &mut ProcessState, event: StopEvent) -> (r: StopAction)
        requires
            old(self).wf(),
            old(registry).wf(),
            old(self).phase == phase_for(event),
        ensures
            final(self).wf(),
            final(registry).wf(),
            final(self).targets == old(self).targets,
            final(self).force == old(self).force,
            final(self).timeout_secs == old(self).timeout_secs,
            match event {
                StopEvent::Ready => {
                    &&& final(registry)@ == old(registry)@
                    &&& final(self).pos == old(self).pos
                    &&& old(self).pos == old(self).targets@.len() ==> r is Finished && final(self).phase == StopPhase::Done
                    &&& old(self).pos < old(self).targets@.len() ==> r == StopAction::SendTerm(old(self).current().pid)
                        && final(self).phase == StopPhase::AwaitTerm
                },
                StopEvent::TermSent(true) => {
                    &&& final(registry)@ == old(registry)@
                    &&& final(self).pos == old(self).pos
                    &&& final(self).phase == StopPhase::Polling
                    &&& r == StopAction::Poll(old(self).current().pid)
                },
                StopEvent::TermSent(false) => {
                    &&& final(registry)@ == old(registry)@
                    &&& final(self).pos == old(self).pos
                    &&& old(self).force ==> r == StopAction::SendKill(old(self).current().pid) && final(self).phase == StopPhase::Killing
                    &&& !old(self).force ==> final(self).phase == StopPhase::Done && r == StopAction::Failed(ToolError::SignalFailed {
                        service: old(self).current().service_name,
                        pid: old(self).current().pid,
                    })
                },
                StopEvent::Polled { alive: false, .. } => {
                    &&& final(registry)@ == without_pid(old(registry)@, old(self).current().pid)
                    &&& final(self).pos == old(self).pos + 1
                    &&& final(self).pos == final(self).targets@.len() ==> r is Finished
                    &&& final(self).pos < final(self).targets@.len() ==> r == StopAction::SendTerm(final(self).current().pid)
                },
                StopEvent::Polled { alive: true, elapsed_ms } => {
                    &&& final(registry)@ == old(registry)@
                    &&& final(self).pos == old(self).pos
                    &&& !timed_out(elapsed_ms, old(self).timeout_secs) ==> r == StopAction::Poll(old(self).current().pid)
                        && final(self).phase == StopPhase::Polling
                    &&& timed_out(elapsed_ms, old(self).timeout_secs) && old(self).force
                        ==> r == StopAction::SendKill(old(self).current().pid) && final(self).phase == StopPhase::Killing
                    &&& timed_out(elapsed_ms, old(self).timeout_secs) && !old(self).force
                        ==> r == StopAction::Failed(ToolError::StopTimeout {
                            service: old(self).current().service_name,
                            pid: old(self).current().pid,
                            timeout_secs: old(self).timeout_secs,
                        }) && final(self).phase == StopPhase::Done
                },
                StopEvent::KillSent => {
                    &&& final(registry)@ == old(registry)@
                    &&& final(self).pos == old(self).pos
                    &&& final(self).phase == StopPhase::Grace
                    &&& r == StopAction::Wait(FORCE_GRACE_MS)
                },
                StopEvent::GraceElapsed => {
                    &&& final(registry)@ == without_pid(old(registry)@, old(self).current().pid)
                    &&& final(self).pos == old(self).pos + 1
                    &&& final(self).pos == final(self).targets@.len() ==> r is Finished
                    &&& final(self).pos < final(self).targets@.len() ==> r == StopAction::SendTerm(final(self).current().pid)
                },
            },
    {
        match event {
            StopEvent::Ready => self.signal_next(),
            StopEvent::TermSent(sent) => {
                if sent {
                    self.phase = StopPhase::Polling;
                    StopAction::Poll(self.targets[self.pos].pid)
                } else {
                    let t = &self.targets[self.pos];
                    let err = ToolError::SignalFailed { service: t.service_name.clone(), pid: t.pid };
                    self.escalate_or_fail(err)
                }
            },
            StopEvent::Polled { alive, elapsed_ms } => {
                if !alive {
                    self.finish_current(registry)
                } else if elapsed_ms / 1000 < self.timeout_secs {
                    StopAction::Poll(self.targets[self.pos].pid)
                } else {
                    let t = &self.targets[self.pos];
                    let err = ToolError::StopTimeout {
                        service: t.service_name.clone(),
                        pid: t.pid,
                        timeout_secs: self.timeout_secs,
                    };
                    self.escalate_or_fail(err)
                }
            },
            StopEvent::KillSent => {
                self.phase = StopPhase::Grace;
                StopAction::Wait(FORCE_GRACE_MS)
            },
            StopEvent::GraceElapsed => self.finish_current(registry),
        }
    }
}

} // verus!
