//! Health checks: how a check is declared, and how long its gate holds.
use vstd::prelude::*;
use crate::error::ToolError;
use crate::resolver::HealthCheck;
use crate::text::text_eq;

verus! {

/// Observation delay of an HTTP check, in milliseconds.
pub const HTTP_CHECK_DELAY_MS: u64 = 2000;

/// Observation delay of a port check, in milliseconds.
pub const PORT_CHECK_DELAY_MS: u64 = 1000;

/// `kind` is one of the kinds a health check may declare.
pub open spec fn known_kind(kind: Seq<char>) -> bool {
    kind == "http"@ || kind == "port"@ || kind == "none"@
}

impl HealthCheck {
    /// Reads a declared check: kind `http` (with its target), `port` (with
    /// its port; without one there is nothing to probe) or `none`. Any other
    /// kind is refused.
    pub fn from_config(kind: &str, target: Option<String>, port: Option<u16>) -> (r: Result<HealthCheck, ToolError>)
        ensures
            kind@ == "http"@ ==> (r matches Ok(HealthCheck::Http(t)) && match target {
                Some(x) => t == x,
                None => t@.len() == 0,
            }),
            kind@ == "port"@ ==> match port {
                Some(p) => r == Ok::<HealthCheck, ToolError>(HealthCheck::Port(p)),
                None => r == Ok::<HealthCheck, ToolError>(HealthCheck::NoCheck),
            },
            kind@ == "none"@ ==> r == Ok::<HealthCheck, ToolError>(HealthCheck::NoCheck),
            !known_kind(kind@) ==> (r matches Err(ToolError::UnknownHealthCheck(k)) && k@ == kind@),
    {
        proof {
            reveal_strlit("http");
            reveal_strlit("port");
            reveal_strlit("none");
            assert("port"@[0] != "http"@[0]);
            assert("none"@[0] != "http"@[0]);
            assert("none"@[0] != "port"@[0]);
        }
        if text_eq(kind, "http") {
            match target {
                Some(t) => Ok(HealthCheck::Http(t)),
                None => Ok(HealthCheck::Http(String::new())),
            }
        } else if text_eq(kind, "port") {
            match port {
                Some(p) => Ok(HealthCheck::Port(p)),
                None => Ok(HealthCheck::NoCheck),
            }
        } else if text_eq(kind, "none") {
            Ok(HealthCheck::NoCheck)
        } else {
            Err(ToolError::UnknownHealthCheck(kind.to_string()))
        }
    }

    /// Milliseconds to wait on this check before dependents may start.
    pub fn delay_ms(&self) -> (r: u64)
        ensures
            self is Http ==> r == HTTP_CHECK_DELAY_MS,
            self is Port ==> r == PORT_CHECK_DELAY_MS,
            self is NoCheck ==> r == 0,
    {
        match self {
            HealthCheck::Http(_) => HTTP_CHECK_DELAY_MS,
            HealthCheck::Port(_) => PORT_CHECK_DELAY_MS,
            HealthCheck::NoCheck => 0,
        }
    }
}

} // verus!
