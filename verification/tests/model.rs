use libagent::model::TriggerCondition;
use libagent::project::{LogFormat, LoggingConfig};
use libagent::logging::resolve_logging_config_with_env;
use libagent::version;

#[test]
fn display_on_artifact() {
    let tc = TriggerCondition::OnArtifact { name: "constraints".into() };
    assert_eq!(tc.to_display_string(), "on_artifact(constraints)");
}

#[test]
fn display_on_change() {
    let tc = TriggerCondition::OnChange { name: "design-doc".into() };
    assert_eq!(tc.to_display_string(), "on_change(design-doc)");
}

#[test]
fn display_on_invalid() {
    let tc = TriggerCondition::OnInvalid { name: "test-evidence".into() };
    assert_eq!(tc.to_display_string(), "on_invalid(test-evidence)");
}

#[test]
fn display_nested_composite() {
    let tc = TriggerCondition::AllOf {
        conditions: vec![
            TriggerCondition::OnArtifact { name: "X".into() },
            TriggerCondition::AnyOf {
                conditions: vec![TriggerCondition::OnInvalid { name: "Z".into() }, TriggerCondition::OnArtifact { name: "Y".into() }],
            },
        ],
    };
    assert_eq!(tc.to_display_string(), "all_of(on_artifact(X), any_of(on_invalid(Z), on_artifact(Y)))");
}

#[test]
fn display_empty_composite() {
    let tc = TriggerCondition::AnyOf { conditions: vec![] };
    assert_eq!(tc.to_display_string(), "any_of()");
}

#[test]
fn version_is_set() {
    let v = version();
    assert!(!v.is_empty());
}

#[test]
fn resolve_logging_config_defaults_to_warn_text() {
    let resolved = resolve_logging_config_with_env(None, None);

    assert_eq!(resolved.format, LogFormat::Text);
    assert_eq!(resolved.filter, "warn");
}

#[test]
fn resolve_logging_config_prefers_env_over_config_filter() {
    let config = LoggingConfig { format: LogFormat::Json, filter: Some("info".to_string()) };

    let resolved = resolve_logging_config_with_env(Some("error"), Some(&config));

    assert_eq!(resolved.format, LogFormat::Json);
    assert_eq!(resolved.filter, "error");
}

#[test]
fn resolve_logging_config_ignores_empty_env_filter() {
    let config = LoggingConfig { format: LogFormat::Text, filter: Some("debug".to_string()) };

    let resolved = resolve_logging_config_with_env(Some(""), Some(&config));

    assert_eq!(resolved.filter, "debug");
}

#[test]
fn resolve_logging_config_uses_config_filter_when_env_absent() {
    let config = LoggingConfig { format: LogFormat::Text, filter: Some("trace".to_string()) };

    let resolved = resolve_logging_config_with_env(None, Some(&config));

    assert_eq!(resolved.filter, "trace");
}

#[test]
fn resolve_logging_config_falls_back_to_warn_without_any_filter() {
    let config = LoggingConfig { format: LogFormat::Json, filter: None };
    let resolved = resolve_logging_config_with_env(Some(""), Some(&config));
    assert_eq!(resolved.filter, "warn");
    assert_eq!(resolved.format, LogFormat::Json);
}
