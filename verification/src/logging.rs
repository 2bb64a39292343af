//! Logging configuration resolution.
//!
//! The filter comes from the `RUST_LOG` environment variable when it is set
//! and non-empty, else from `[logging].filter`, else `warn`; the format comes
//! from the configuration and defaults to text. Installing the subscriber is
//! the caller's part.
use vstd::prelude::*;

use crate::project::{LogFormat, LoggingConfig};
use crate::text::owned;

verus! {

/// The filter used when none is configured.
pub const DEFAULT_FILTER: &'static str = "warn";

/// Errors from tracing subscriber installation or reconfiguration.
#[derive(Debug)]
pub enum LoggingError {
    /// Failed to set the global default subscriber.
    SetGlobalDefault(String),
    /// Failed to reload the filter on an existing subscriber.
    Reload(String),
}

impl LoggingError {
    /// Renders the error as text (the error's `Display` form): its detail.
    pub fn to_display_string(&self) -> (r: String)
        ensures
            r@ == match self {
                LoggingError::SetGlobalDefault(e) => e@,
                LoggingError::Reload(e) => e@,
            },
    {
        match self {
            LoggingError::SetGlobalDefault(e) => e.clone(),
            LoggingError::Reload(e) => e.clone(),
        }
    }
}

/// The resolved logging configuration.
#[derive(Debug, Clone, PartialEq, Eq)]
pub struct ResolvedLoggingConfig {
    pub format: LogFormat,
    pub filter: String,
}

/// The filter the precedence chain picks.
pub open spec fn resolved_filter(env_filter: Option<Seq<char>>, config: Option<LoggingConfig>) -> Seq<char> {
    if env_filter is Some && env_filter->0.len() > 0 {
        env_filter->0
    } else if config is Some && config->0.filter is Some {
        config->0.filter->0@
    } else {
        DEFAULT_FILTER@
    }
}

/// Resolve the filter and format from the `RUST_LOG` value and the
/// configuration: `RUST_LOG` (when non-empty) > `[logging].filter` > `warn`;
/// format from the configuration, text by default.
pub fn resolve_logging_config_with_env(env_filter: Option<&str>, config: Option<&LoggingConfig>) -> (r: ResolvedLoggingConfig)
    ensures
        r.filter@ == resolved_filter(
            match env_filter { Some(f) => Some(f@), None => None },
            match config { Some(c) => Some(*c), None => None },
        ),
        r.format == match config { Some(c) => c.format, None => LogFormat::Text },
{
    let filter = match env_filter {
        Some(f) if f.unicode_len() > 0 => owned(f),
        _ => match config {
            Some(c) => match &c.filter {
                Some(f) => f.clone(),
                None => owned(DEFAULT_FILTER),
            },
            None => owned(DEFAULT_FILTER),
        },
    };
    let format = match config {
        Some(c) => c.format,
        None => LogFormat::Text,
    };
    ResolvedLoggingConfig { format, filter }
}

/// The number under which the active format is kept.
pub fn format_code(format: LogFormat) -> (r: u8)
    ensures
        r == match format { LogFormat::Text => 0u8, LogFormat::Json => 1u8 },
{
    match format {
        LogFormat::Text => 0,
        LogFormat::Json => 1,
    }
}

} // verus!
