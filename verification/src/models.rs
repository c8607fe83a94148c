//! Plain records exchanged with the callers of the library.

use vstd::prelude::*;

verus! {

/// The view of an optional string.
pub open spec fn opt_view(o: Option<String>) -> Option<Seq<char>> {
    match o {
        Some(s) => Some(s@),
        None => None,
    }
}

/// A function defined by a script.
#[derive(Clone, Debug)]
pub struct Function {
    pub name: String,
    pub signature: Option<String>,
    pub description: Option<String>,
}

/// Where the log goes and how much of it.
#[derive(Clone, Debug)]
pub struct LoggingConfig {
    pub level: String,
    pub file: String,
}

/// The identifier and stored path of a registered script.
#[derive(Clone, Debug)]
pub struct ScriptRegistration {
    pub script_id: String,
    pub path: String,
}

/// The answer to a registration request.
#[derive(Clone, Debug)]
pub struct RegisterResponse {
    pub script_id: String,
    pub path: String,
}

impl vstd::std_specs::convert::FromSpecImpl<ScriptRegistration> for RegisterResponse {
    open spec fn obeys_from_spec() -> bool {
        true
    }

    open spec fn from_spec(v: ScriptRegistration) -> RegisterResponse {
        RegisterResponse { script_id: v.script_id, path: v.path }
    }
}

impl From<ScriptRegistration> for RegisterResponse {
    fn from(value: ScriptRegistration) -> (r: RegisterResponse) {
        RegisterResponse { script_id: value.script_id, path: value.path }
    }
}

/// The command a run would execute.
#[derive(Clone, Debug)]
pub struct RunPlan {
    pub script_id: String,
    pub command: Vec<String>,
}

/// The outcome of running a cached script.
#[derive(Clone, Debug)]
pub struct RunResult {
    pub script_id: String,
    pub command: Vec<String>,
    pub exit_code: i32,
    pub stdout: String,
    pub stderr: String,
    pub success: bool,
    pub duration_ms: i64,
}

/// A cached script as listed to users.
#[derive(Clone, Debug)]
pub struct ScriptInfo {
    pub script_id: String,
    pub path: String,
    pub description: Option<String>,
    pub tags: Vec<String>,
}

/// The outcome of deleting a script.
#[derive(Clone, Debug)]
pub struct DeleteResult {
    pub script_id: String,
    pub path: String,
    pub deleted: bool,
}

/// The outcome of updating a script's description or tags.
#[derive(Clone, Debug)]
pub struct UpdateResult {
    pub script_id: String,
    pub path: String,
    pub description: Option<String>,
    pub tags: Vec<String>,
    pub updated: bool,
}

/// Counts over the whole cache.
#[derive(Clone, Debug)]
pub struct StatsSummary {
    pub total_scripts: i64,
    pub total_tags: i64,
    pub total_dependencies: i64,
    pub total_usage_events: i64,
    pub most_used_script_id: Option<String>,
    pub most_used_count: i64,
}

/// A script selected for cleanup, with the reasons it was selected.
#[derive(Clone, Debug)]
pub struct CleanupCandidate {
    pub script_id: String,
    pub path: String,
    pub use_count: i64,
    pub created_at: String,
    pub last_used: Option<String>,
    pub reasons: Vec<String>,
}

/// The outcome of a cleanup.
#[derive(Clone, Debug)]
pub struct CleanupResult {
    pub dry_run: bool,
    pub deleted_count: usize,
    pub candidates: Vec<CleanupCandidate>,
}

} // verus!
