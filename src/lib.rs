//! A local multi-service process supervisor: a process registry, dependency
//! ordering of services, and the decision logic of startup and shutdown.
//! Spawning, signalling, sleeping and terminal output are left to the
//! caller, which carries out the actions the state machines hand out.

pub mod codec;
pub mod error;
pub mod filter;
pub mod health;
pub mod registry;
pub mod resolver;
pub mod start;
pub mod status;
pub mod stop;
pub mod text;

pub use codec::{decode_record, encode_record};
pub use error::{ErrorKind, ToolError};
pub use registry::{ProcessInfo, ProcessManager, ProcessState, ProcessStatus};
pub use resolver::{shutdown_order, sort_services_by_dependencies, HealthCheck, ServiceSpec};
pub use start::{ExecutionMode, StartAction, StartArgs, StartEvent, StartPhase, StartSession};
pub use status::{
    convert_to_live_state, format_uptime, show_summary, LiveServiceState, ServiceHealth, ServiceStatus, StatusArgs,
    StatusSummary,
};
pub use stop::{project_names, sort_services_for_shutdown, StopAction, StopArgs, StopEvent, StopPhase, StopSession};
