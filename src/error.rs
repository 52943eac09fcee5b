//! Errors of the supervisor, grouped by kind.
use vstd::prelude::*;

verus! {

/// Every way an operation of the supervisor can fail.
#[derive(Debug, Clone)]
pub enum ToolError {
    /// Both `only` and `skip` were given.
    ConflictingFilters,
    /// Both a project name and "all projects" were given to stop.
    ConflictingTargets,
    /// Neither a project name nor "all projects" was given to stop.
    MissingTarget,
    /// Two services of one project share this name.
    DuplicateService(String),
    /// This service lies on a dependency cycle.
    DependencyCycle(String),
    /// A filter list holds a blank service name.
    EmptyServiceName,
    /// A health check names a kind other than `http`, `port` or `none`.
    UnknownHealthCheck(String),
    /// A service's dependency did not come up within the allowed polls.
    DependencyNotReady { service: String, dependency: String },
    /// The service's process could not be spawned.
    SpawnFailed(String),
    /// The service's health check did not pass.
    HealthCheckFailed(String),
    /// A signal could not be delivered to the process of this service.
    SignalFailed { service: String, pid: u32 },
    /// The process did not exit within `timeout_secs` of a graceful signal.
    StopTimeout { service: String, pid: u32, timeout_secs: u64 },
}

/// The three kinds of error.
#[derive(Debug, Clone, Copy, PartialEq, Eq, Structural)]
pub enum ErrorKind {
    Configuration,
    Process,
    Validation,
}

/// The kind of `e`.
pub open spec fn kind_of(e: ToolError) -> ErrorKind {
    match e {
        ToolError::ConflictingFilters => ErrorKind::Configuration,
        ToolError::ConflictingTargets => ErrorKind::Configuration,
        ToolError::MissingTarget => ErrorKind::Configuration,
        ToolError::DuplicateService(_) => ErrorKind::Configuration,
        ToolError::DependencyCycle(_) => ErrorKind::Configuration,
        ToolError::UnknownHealthCheck(_) => ErrorKind::Configuration,
        ToolError::EmptyServiceName => ErrorKind::Validation,
        ToolError::DependencyNotReady { .. } => ErrorKind::Process,
        ToolError::SpawnFailed(_) => ErrorKind::Process,
        ToolError::HealthCheckFailed(_) => ErrorKind::Process,
        ToolError::SignalFailed { .. } => ErrorKind::Process,
        ToolError::StopTimeout { .. } => ErrorKind::Process,
    }
}

impl ToolError {
    /// The kind of this error.
    pub fn kind(&self) -> (r: ErrorKind)
        ensures
            r == kind_of(*self),
    {
        match self {
            ToolError::ConflictingFilters => ErrorKind::Configuration,
            ToolError::ConflictingTargets => ErrorKind::Configuration,
            ToolError::MissingTarget => ErrorKind::Configuration,
            ToolError::DuplicateService(_) => ErrorKind::Configuration,
            ToolError::DependencyCycle(_) => ErrorKind::Configuration,
            ToolError::UnknownHealthCheck(_) => ErrorKind::Configuration,
            ToolError::EmptyServiceName => ErrorKind::Validation,
            ToolError::DependencyNotReady { .. } => ErrorKind::Process,
            ToolError::SpawnFailed(_) => ErrorKind::Process,
            ToolError::HealthCheckFailed(_) => ErrorKind::Process,
            ToolError::SignalFailed { .. } => ErrorKind::Process,
            ToolError::StopTimeout { .. } => ErrorKind::Process,
        }
    }
}

} // verus!
