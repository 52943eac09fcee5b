//! Startup: which services to start, in which order, and the per-service
//! sequence of waiting for dependencies, spawning, registering and gating.
use vstd::prelude::*;
use crate::error::ToolError;
use crate::filter::{check_filters, filter_error, passes, selected};
use crate::registry::{ProcessInfo, ProcessState, service_running};
use crate::resolver::{
    ServiceSpec, dependencies_first, dfs_order, has_cycle, index_of_service, is_arrangement, names_distinct,
    sort_services_by_dependencies,
};

verus! {

/// Pause before a service's dependencies are checked again, in milliseconds.
pub const DEPENDENCY_POLL_MS: u64 = 1000;

/// Options of a start request.
#[derive(Debug, Clone)]
pub struct StartArgs {
    /// The project's directory name.
    pub name: String,
    /// Environment file to load first.
    pub env: Option<String>,
    pub verbose: bool,
    pub background: bool,
    pub dry_run: bool,
    pub only: Option<Vec<String>>,
    pub skip: Option<Vec<String>>,
}

/// How a startup sequence runs; chosen once, before any side effect.
#[derive(Debug, Clone, Copy, PartialEq, Eq, Structural)]
pub enum ExecutionMode {
    /// The caller runs the sequence to its end.
    Foreground,
    /// The sequence is handed to a task of its own and the caller returns.
    Background,
}

/// The entries of `order` whose services pass the filters, order kept.
pub open spec fn selected_in(order: Seq<usize>, s: Seq<ServiceSpec>, only: Option<Vec<String>>, skip: Option<Vec<String>>) -> Seq<usize>
    decreases order.len(),
{
    if order.len() == 0 {
        Seq::empty()
    } else {
        let rest = selected_in(order.drop_last(), s, only, skip);
        if selected(only, skip, s[order.last() as int].name@) {
            rest.push(order.last())
        } else {
            rest
        }
    }
}

/// Every entry of a plan comes from the startup order and passes the
/// filters: a service left out by `only` or named by `skip` is never
/// planned, so never spawned or registered.
pub proof fn lemma_plan_keeps_selected_only(order: Seq<usize>, s: Seq<ServiceSpec>, only: Option<Vec<String>>, skip: Option<Vec<String>>, p: int)
    requires
        0 <= p < selected_in(order, s, only, skip).len(),
    ensures
        selected(only, skip, s[selected_in(order, s, only, skip)[p] as int].name@),
        exists|q: int| 0 <= q < order.len() && order[q] == #[trigger] selected_in(order, s, only, skip)[p],
    decreases order.len(),
{
    let rest = selected_in(order.drop_last(), s, only, skip);
    if p < rest.len() {
        lemma_plan_keeps_selected_only(order.drop_last(), s, only, skip, p);
        let q = choose|q: int| 0 <= q < order.drop_last().len() && order.drop_last()[q] == rest[p];
        assert(order[q] == selected_in(order, s, only, skip)[p]);
    } else {
        assert(order[order.len() - 1] == selected_in(order, s, only, skip)[p]);
    }
}

impl StartArgs {
    /// Checks the filters: `only` and `skip` exclude each other, and no entry
    /// may be blank.
    pub fn validate_args(&self) -> (r: Result<(), ToolError>)
        ensures
            match filter_error(self.only, self.skip) {
                Some(e) => r == Err::<(), ToolError>(e),
                None => r is Ok,
            },
    {
        check_filters(&self.only, &self.skip)
    }

    /// True iff `service` passes the `only` and `skip` lists.
    pub fn should_start_service(&self, service: &ServiceSpec) -> (r: bool)
        ensures
            r == selected(self.only, self.skip, service.name@),
    {
        passes(&self.only, &self.skip, service.name.as_str())
    }

    /// The execution mode these options ask for.
    pub fn mode(&self) -> (r: ExecutionMode)
        ensures
            r == (if self.background { ExecutionMode::Background } else { ExecutionMode::Foreground }),
    {
        if self.background {
            ExecutionMode::Background
        } else {
            ExecutionMode::Foreground
        }
    }

    /// The entries of `order` whose services pass the filters.
    pub fn select_services(&self, services: &Vec<ServiceSpec>, order: &Vec<usize>) -> (r: Vec<usize>)
        requires
            forall|p: int| 0 <= p < order@.len() ==> #[trigger] order@[p] < services@.len(),
        ensures
            r@ == selected_in(order@, services@, self.only, self.skip),
    {
        let mut r: Vec<usize> = Vec::new();
        let mut i: usize = 0;
        while i < order.len()
            invariant
                i <= order.len(),
                forall|p: int| 0 <= p < order@.len() ==> #[trigger] order@[p] < services@.len(),
                r@ == selected_in(order@.take(i as int), services@, self.only, self.skip),
            decreases order.len() - i,
        {
            assert(order@.take(i + 1).drop_last() =~= order@.take(i as int));
            let j = order[i];
            if self.should_start_service(&services[j]) {
                r.push(j);
            }
            i += 1;
        }
        assert(order@.take(i as int) =~= order@);
        r
    }

    /// The services to start, in startup order: the filters are checked
    /// first, then the services are ordered by their dependencies, then the
    /// filtered-out ones are left out. Nothing is spawned.
    pub fn plan(&self, services: &Vec<ServiceSpec>) -> (r: Result<Vec<usize>, ToolError>)
        ensures
            filter_error(self.only, self.skip) matches Some(e) ==> r == Err::<Vec<usize>, ToolError>(e),
            filter_error(self.only, self.skip) is None ==> (r is Ok <==> names_distinct(services@) && !has_cycle(services@)),
            r matches Ok(plan) ==> (dfs_order(services@) matches Some(order)
                && plan@ == selected_in(order, services@, self.only, self.skip)
                && is_arrangement(order, services@.len() as int) && dependencies_first(services@, order)),
    {
        self.validate_args()?;
        let order = sort_services_by_dependencies(services)?;
        let plan = self.select_services(services, &order);
        Ok(plan)
    }
}

/// Dependency `d` counts as ready: it names no service of `s`, or a running
/// record of `project` has that name.
pub open spec fn dependency_ready(reg: Seq<ProcessInfo>, project: Seq<char>, s: Seq<ServiceSpec>, d: Seq<char>) -> bool {
    (forall|j: int| 0 <= j < s.len() ==> (#[trigger] s[j]).name@ != d) || service_running(reg, project, d)
}

/// Every dependency of service `i` of `s` is ready.
pub open spec fn dependencies_ready(reg: Seq<ProcessInfo>, project: Seq<char>, s: Seq<ServiceSpec>, i: int) -> bool {
    forall|k: int| 0 <= k < s[i].dependencies@.len() ==> dependency_ready(reg, project, s, (#[trigger] s[i].dependencies@[k])@)
}

/// The first dependency of `service` that is not ready, if any.
fn first_unready(registry: &ProcessState, project: &str, services: &Vec<ServiceSpec>, service: usize) -> (r: Option<usize>)
    requires
        service < services@.len(),
    ensures
        r is None <==> dependencies_ready(registry@, project@, services@, service as int),
        r matches Some(k) ==> k < services@[service as int].dependencies@.len()
            && !dependency_ready(registry@, project@, services@, services@[service as int].dependencies@[k as int]@),
{
    let deps = &services[service].dependencies;
    let mut k: usize = 0;
    while k < deps.len()
        invariant
            service < services@.len(),
            deps == services@[service as int].dependencies,
            k <= deps.len(),
            forall|m: int| 0 <= m < k ==> dependency_ready(registry@, project@, services@, (#[trigger] deps@[m])@),
        decreases deps.len() - k,
    {
        let d = deps[k].as_str();
        let ready = match index_of_service(services, d) {
            None => true,
            Some(_) => registry.is_service_running(project, d),
        };
        if !ready {
            return Some(k);
        }
        k += 1;
    }
    None
}

/// Where a startup sequence stands.
#[derive(Debug, Clone, Copy, PartialEq, Eq, Structural)]
pub enum StartPhase {
    /// About to check the next service's dependencies, or to finish.
    Waiting,
    /// The service's process has been asked for.
    Spawning,
    /// The service's health gate has been asked for.
    Checking,
    /// Finished, or failed.
    Done,
}

/// What the caller reports back after carrying out an action.
#[derive(Debug, Clone, Copy)]
pub enum StartEvent {
    /// Go on (at the start, and after a pause).
    Ready,
    /// The process was spawned with this PID at this time (seconds since the
    /// Unix epoch).
    Spawned { pid: u32, start_time: u64 },
    /// The process could not be spawned.
    SpawnFailed,
    /// The health gate passed.
    HealthPassed,
    /// The health gate failed.
    HealthFailed,
}

/// What the caller is to do next.
#[derive(Debug, Clone)]
pub enum StartAction {
    /// Wait this many milliseconds, then report `Ready`.
    Sleep(u64),
    /// Spawn the service of this index.
    Spawn(usize),
    /// Run the health gate of the service of this index.
    AwaitHealth(usize),
    /// Every planned service is started.
    Finished,
    /// The sequence stopped on this error; services already started stay.
    Failed(ToolError),
}

/// The phase in which event `e` is expected.
pub open spec fn start_phase_for(e: StartEvent) -> StartPhase {
    match e {
        StartEvent::Ready => StartPhase::Waiting,
        StartEvent::Spawned { .. } => StartPhase::Spawning,
        StartEvent::SpawnFailed => StartPhase::Spawning,
        StartEvent::HealthPassed => StartPhase::Checking,
        StartEvent::HealthFailed => StartPhase::Checking,
    }
}

/// The outcome of checking the service at `pos` of `s`'s plan against the
/// registry `reg`, after `polls` earlier checks: `r` is the action and `f`
/// the sequence afterwards. Past the last service the sequence finishes; a
/// service whose dependencies are ready is spawned; otherwise the check is
/// repeated after a pause, or, once the polls are used up, the sequence
/// fails naming the service and a declared dependency that is not ready.
pub open spec fn advance_outcome(s: StartSession, pos: int, polls: int, reg: Seq<ProcessInfo>, r: StartAction, f: StartSession) -> bool {
    let svc = s.plan@[pos] as int;
    &&& f.pos == pos
    &&& pos == s.plan@.len() ==> r is Finished && f.phase == StartPhase::Done
    &&& pos < s.plan@.len() && dependencies_ready(reg, s.project@, s.services@, svc)
        ==> r == StartAction::Spawn(s.plan@[pos]) && f.phase == StartPhase::Spawning && f.polls == polls
    &&& pos < s.plan@.len() && !dependencies_ready(reg, s.project@, s.services@, svc) && polls < s.max_polls
        ==> r == StartAction::Sleep(DEPENDENCY_POLL_MS) && f.phase == StartPhase::Waiting && f.polls == polls + 1
    &&& pos < s.plan@.len() && !dependencies_ready(reg, s.project@, s.services@, svc) && polls >= s.max_polls
        ==> f.phase == StartPhase::Done && (r matches StartAction::Failed(ToolError::DependencyNotReady { service, dependency })
            && service == s.services@[svc].name
            && (exists|k: int| 0 <= k < s.services@[svc].dependencies@.len()
                && dependency == #[trigger] s.services@[svc].dependencies@[k])
            && !dependency_ready(reg, s.project@, s.services@, dependency@))
}

/// A startup sequence of one project.
pub struct StartSession {
    pub project: String,
    pub services: Vec<ServiceSpec>,
    /// Indices into `services`, in startup order.
    pub plan: Vec<usize>,
    pub pos: usize,
    pub phase: StartPhase,
    /// Dependency checks made so far for the current service.
    pub polls: u32,
    /// Dependency checks allowed per service before it fails.
    pub max_polls: u32,
}

impl StartSession {
    pub open spec fn wf(&self) -> bool {
        &&& self.pos <= self.plan@.len()
        &&& forall|p: int| 0 <= p < self.plan@.len() ==> #[trigger] self.plan@[p] < self.services@.len()
        &&& (self.phase == StartPhase::Spawning || self.phase == StartPhase::Checking) ==> self.pos < self.plan@.len()
    }

    /// The index of the service being started.
    pub open spec fn current(&self) -> int {
        self.plan@[self.pos as int] as int
    }

    /// The same sequence, with only the phase, position and poll count changed.
    pub open spec fn same_run(&self, other: &StartSession) -> bool {
        &&& self.project == other.project
        &&& self.services == other.services
        &&& self.plan == other.plan
        &&& self.max_polls == other.max_polls
    }

    /// A sequence that starts the services `plan` of `services`, in order.
    pub fn new(project: String, services: Vec<ServiceSpec>, plan: Vec<usize>, max_polls: u32) -> (r: StartSession)
        requires
            forall|p: int| 0 <= p < plan@.len() ==> #[trigger] plan@[p] < services@.len(),
        ensures
            r.wf(),
            r.project == project,
            r.services == services,
            r.plan == plan,
            r.pos == 0,
            r.phase == StartPhase::Waiting,
            r.polls == 0,
            r.max_polls == max_polls,
    {
        StartSession { project, services, plan, pos: 0, phase: StartPhase::Waiting, polls: 0, max_polls }
    }

    /// True iff `event` is the one this sequence waits for.
    pub fn accepts(&self, event: &StartEvent) -> (r: bool)
        ensures
            r == (self.phase == start_phase_for(*event)),
    {
        match event {
            StartEvent::Ready => self.phase == StartPhase::Waiting,
            StartEvent::Spawned { .. } => self.phase == StartPhase::Spawning,
            StartEvent::SpawnFailed => self.phase == StartPhase::Spawning,
            StartEvent::HealthPassed => self.phase == StartPhase::Checking,
            StartEvent::HealthFailed => self.phase == StartPhase::Checking,
        }
    }

    /// Checks the current service's dependencies: spawn it, wait once more,
    /// or give up; finishes after the last service.
    fn advance(&mut self, registry: &ProcessState) -> (r: StartAction)
        requires
            old(self).wf(),
            old(self).phase == StartPhase::Waiting,
        ensures
            final(self).wf(),
            final(self).same_run(old(self)),
            advance_outcome(*old(self), old(self).pos as int, old(self).polls as int, registry@, r, *final(self)),
    {
        if self.pos == self.plan.len() {
            self.phase = StartPhase::Done;
            return StartAction::Finished;
        }
        let svc = self.plan[self.pos];
        match first_unready(registry, self.project.as_str(), &self.services, svc) {
            None => {
                self.phase = StartPhase::Spawning;
                StartAction::Spawn(svc)
            },
            Some(k) => {
                if self.polls < self.max_polls {
                    self.polls = self.polls + 1;
                    StartAction::Sleep(DEPENDENCY_POLL_MS)
                } else {
                    self.phase = StartPhase::Done;
                    let s = &self.services[svc];
                    StartAction::Failed(ToolError::DependencyNotReady {
                        service: s.name.clone(),
                        dependency: s.dependencies[k].clone(),
                    })
                }
            },
        }
    }

    /// Takes the outcome of the last action and says what to do next. A
    /// spawned process is registered as running before its health gate.
    pub fn step(&mut self, registry: &mut ProcessState, event: StartEvent) -> (r: StartAction)
        requires
            old(self).wf(),
            old(registry).wf(),
            old(self).phase == start_phase_for(event),
        ensures
            final(self).wf(),
            final(registry).wf(),
            final(self).same_run(old(self)),
            match event {
                StartEvent::Ready => {
                    &&& final(registry)@ == old(registry)@
                    &&& advance_outcome(*old(self), old(self).pos as int, old(self).polls as int, old(registry)@, r, *final(self))
                },
                StartEvent::Spawned { pid, start_time } => {
                    &&& final(self).pos == old(self).pos
                    &&& final(self).phase == StartPhase::Checking
                    &&& r == StartAction::AwaitHealth(old(self).plan@[old(self).pos as int])
                    &&& exists|rec: ProcessInfo| {
                        &&& rec.pid == pid
                        &&& rec.start_time == start_time
                        &&& rec.status is Running
                        &&& rec.service_name == old(self).services@[old(self).current()].name
                        &&& rec.project_name == old(self).project
                        &&& rec.command == old(self).services@[old(self).current()].command
                        &&& #[trigger] crate::registry::put_record(old(registry)@, rec) == final(registry)@
                    }
                },
                StartEvent::SpawnFailed => {
                    &&& final(registry)@ == old(registry)@
                    &&& final(self).phase == StartPhase::Done
                    &&& r == StartAction::Failed(ToolError::SpawnFailed(old(self).services@[old(self).current()].name))
                },
                StartEvent::HealthPassed => {
                    &&& final(registry)@ == old(registry)@
                    &&& advance_outcome(*old(self), old(self).pos + 1, 0, old(registry)@, r, *final(self))
                },
                StartEvent::HealthFailed => {
                    &&& final(registry)@ == old(registry)@
                    &&& final(self).phase == StartPhase::Done
                    &&& r == StartAction::Failed(ToolError::HealthCheckFailed(old(self).services@[old(self).current()].name))
                },
            },
    {
        match event {
            StartEvent::Ready => self.advance(registry),
            StartEvent::Spawned { pid, start_time } => {
                let s = &self.services[self.plan[self.pos]];
                let rec = ProcessInfo::running(pid, s.name.clone(), self.project.clone(), s.command.clone(), start_time);
                registry.add_process(rec);
                self.phase = StartPhase::Checking;
                StartAction::AwaitHealth(self.plan[self.pos])
            },
            StartEvent::SpawnFailed => {
                self.phase = StartPhase::Done;
                StartAction::Failed(ToolError::SpawnFailed(self.services[self.plan[self.pos]].name.clone()))
            },
            StartEvent::HealthPassed => {
                if self.pos < self.plan.len() {
                    self.pos = self.pos + 1;
                }
                self.polls = 0;
                self.phase = StartPhase::Waiting;
                self.advance(registry)
            },
            StartEvent::HealthFailed => {
                self.phase = StartPhase::Done;
                StartAction::Failed(ToolError::HealthCheckFailed(self.services[self.plan[self.pos]].name.clone()))
            },
        }
    }
}

} // verus!
