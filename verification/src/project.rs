//! Project configuration: the machine-local and portable settings a runa
//! project is loaded with. Reading and parsing the files is the caller's part.
use vstd::prelude::*;

use crate::forge_address::{ForgeAddressError, ForgeErrorView, ForgeProject, RawForges, opt_view,
    repository_not_selected, repository_selected};

verus! {

/// Directory of runa's project files.
pub const RUNA_DIR: &'static str = ".runa";
/// Machine-local configuration file.
pub const CONFIG_FILENAME: &'static str = "config.toml";
/// Portable project configuration file.
pub const PROJECT_FILENAME: &'static str = "project.toml";
/// Initialization metadata file.
pub const STATE_FILENAME: &'static str = "state.toml";
/// Artifact workspace directory.
pub const DEFAULT_WORKSPACE_DIR: &'static str = "workspace";
/// Artifact store directory.
pub const STORE_DIRNAME: &'static str = "store";

/// Output format for tracing events written to stderr.
#[derive(Debug, Clone, Copy, PartialEq, Eq, Structural)]
pub enum LogFormat {
    Text,
    Json,
}

impl Default for LogFormat {
    fn default() -> (r: LogFormat)
        ensures
            r == LogFormat::Text,
    {
        LogFormat::Text
    }
}

/// The `[logging]` section of the portable project file.
#[derive(Debug, Clone, PartialEq, Eq)]
pub struct LoggingConfig {
    pub format: LogFormat,
    pub filter: Option<String>,
}

impl Default for LoggingConfig {
    fn default() -> (r: LoggingConfig)
        ensures
            r.format == LogFormat::Text,
            r.filter is None,
    {
        LoggingConfig { format: LogFormat::Text, filter: None }
    }
}

/// The launch command, from `[launch]` in the portable project file.
#[derive(Debug, Clone, PartialEq, Eq)]
pub struct AgentConfig {
    pub command: Option<Vec<String>>,
}

impl Default for AgentConfig {
    fn default() -> (r: AgentConfig)
        ensures
            r.command is None,
    {
        AgentConfig { command: None }
    }
}

/// Transcript configuration: `dir` is machine-local, `redact_env` portable.
#[derive(Debug, Clone, PartialEq, Eq)]
pub struct TranscriptConfig {
    pub dir: Option<String>,
    pub redact_env: Vec<String>,
}

impl Default for TranscriptConfig {
    fn default() -> (r: TranscriptConfig)
        ensures
            r.dir is None,
            r.redact_env@.len() == 0,
    {
        TranscriptConfig { dir: None, redact_env: Vec::new() }
    }
}

/// The `[deployment]` section: the repository that identifies the deployment.
#[derive(Debug, Clone, PartialEq, Eq)]
pub struct DeploymentConfig {
    pub repository: Option<String>,
}

impl Default for DeploymentConfig {
    fn default() -> (r: DeploymentConfig)
        ensures
            r.repository is None,
    {
        DeploymentConfig { repository: None }
    }
}

/// Effective project configuration built from the local and portable files.
#[derive(Debug, Clone, PartialEq, Eq)]
pub struct Config {
    pub methodology_path: String,
    pub logging: LoggingConfig,
    pub agent: AgentConfig,
    pub transcript: TranscriptConfig,
    pub deployment: DeploymentConfig,
    pub forge: ForgeProject,
    pub project_config_path: String,
}

/// The portable project file's contents.
#[derive(Debug, Clone, PartialEq, Eq)]
pub struct PortableConfig {
    pub schema_version: u32,
    pub logging: LoggingConfig,
    pub launch: AgentConfig,
    pub transcript: PortableTranscriptConfig,
    pub deployment: DeploymentConfig,
    pub forges: RawForges,
}

/// The portable part of the transcript configuration.
#[derive(Debug, Clone, PartialEq, Eq)]
pub struct PortableTranscriptConfig {
    pub redact_env: Vec<String>,
}

/// Initialization metadata managed by runa.
#[derive(Debug, Clone, PartialEq, Eq)]
pub struct State {
    pub initialized_at: String,
    pub runa_version: String,
}

/// Check the deployment repository choice: a named repository must exist;
/// without a name, there must be at most one repository.
pub fn validate_deployment_repository(deployment: &DeploymentConfig, forge: &ForgeProject) -> (r: Result<(), ForgeAddressError>)
    ensures
        match deployment.repository {
            Some(sel) => match r {
                Ok(_) => exists|k: int| #[trigger] repository_selected(*forge, Some(sel@), k),
                Err(e) => repository_not_selected(*forge, Some(sel@), e@),
            },
            None => if forge.repositories@.len() <= 1 {
                r is Ok
            } else {
                r is Err && r->Err_0@ == ForgeErrorView::AmbiguousDeploymentRepository
            },
        },
{
    if let Some(selector) = &deployment.repository {
        return match forge.deployment_identity(Some(selector.as_str())) {
            Ok(_) => Ok(()),
            Err(e) => Err(e),
        };
    }
    if forge.repositories.len() == 0 {
        return Ok(());
    }
    if forge.repositories.len() == 1 {
        return Ok(());
    }
    Err(ForgeAddressError::AmbiguousDeploymentRepository)
}


/// The `[forge]` settings of a project: which forge hosts its work units.
#[derive(Debug, Clone, PartialEq, Eq)]
pub struct ForgeConfig {
    pub forge_type: Option<String>,
    pub owner: Option<String>,
    pub name: Option<String>,
    pub tracker_id: Option<String>,
}

impl Default for ForgeConfig {
    fn default() -> (r: ForgeConfig)
        ensures
            r.forge_type is None,
            r.owner is None,
            r.name is None,
            r.tracker_id is None,
    {
        ForgeConfig { forge_type: None, owner: None, name: None, tracker_id: None }
    }
}

} // verus!
