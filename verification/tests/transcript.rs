use libagent::json::JsonValue;
use libagent::forge_address::{ForgeProject, RawForgeInstance, RawForges, RawRepository};
use libagent::project::{DeploymentConfig, TranscriptConfig};
use libagent::transcript::{
    capture_enabled_with_settings, encode_path_component, event_file_path, join_path, project_deployment_identity, redact_text,
    redact_value, resolve_transcript_settings, resolve_transcript_settings_from, transcript_env_from_settings, TranscriptEnv,
    TranscriptSettings, DEPLOYMENT_ENV, REDACT_ENV_ENV, RUN_ID_ENV, TRANSCRIPT_DIR_ENV,
};

#[test]
fn redaction_replaces_configured_secret_values_in_text() {
    let redacted = redact_text("token secret-value", &vec![("TOKEN".to_string(), "secret-value".to_string())]);

    assert_eq!(redacted, "token [REDACTED:TOKEN]");
}

#[test]
fn redaction_replaces_configured_secret_values_in_json_strings() {
    let value = JsonValue::Object(vec![("nested".to_string(), JsonValue::Array(vec![JsonValue::Str("secret-value".to_string())]))]);
    let redacted = redact_value(&value, &vec![("TOKEN".to_string(), "secret-value".to_string())]);
    assert_eq!(
        redacted,
        JsonValue::Object(vec![("nested".to_string(), JsonValue::Array(vec![JsonValue::Str("[REDACTED:TOKEN]".to_string())]))])
    );
}

#[test]
fn transcript_env_from_settings_exports_config_resolved_values() {
    let settings = TranscriptSettings {
        dir: Some("/tmp/runa-transcript".to_string()),
        redact_env: vec!["SECRET_TOKEN".to_string(), "API_KEY".to_string()],
        deployment: Some("github:tesserine/runa".to_string()),
        run_id: Some("run-1".to_string()),
    };

    let env = transcript_env_from_settings(&settings);

    assert_eq!(
        env,
        vec![
            (TRANSCRIPT_DIR_ENV.to_string(), "/tmp/runa-transcript".to_string()),
            (REDACT_ENV_ENV.to_string(), "SECRET_TOKEN,API_KEY".to_string()),
            (DEPLOYMENT_ENV.to_string(), "github:tesserine/runa".to_string()),
            (RUN_ID_ENV.to_string(), "run-1".to_string())
        ]
    );
}

#[test]
fn transcript_path_routes_by_deployment_work_unit_and_run() {
    let settings = TranscriptSettings {
        dir: Some("/tmp/runa-transcript".to_string()),
        deployment: Some("github:tesserine/runa".to_string()),
        run_id: Some("run:one".to_string()),
        ..Default::default()
    };

    let path = event_file_path(&settings, Some("work/unit:1"), "process-run").unwrap();

    assert!(path.contains("deployments/github%3Atesserine%2Fruna/"));
    assert!(path.contains("work-units/work%2Funit%3A1/"));
    assert!(path.contains("runs/run%3Aone/events.jsonl"));

    let other_run = TranscriptSettings { run_id: Some("run:two".to_string()), ..settings };
    assert_ne!(event_file_path(&other_run, Some("work/unit:1"), "process-run"), event_file_path(&other_run, Some("work/unit:2"), "process-run"));
    assert_ne!(
        event_file_path(&other_run, Some("work/unit:1"), "process-run"),
        event_file_path(&TranscriptSettings { run_id: Some("run:three".to_string()), ..other_run.clone() }, Some("work/unit:1"), "process-run")
    );
}

#[test]
fn encode_path_component_preserves_existing_encoding_and_neutralizes_traversal() {
    let cases = [
        ("", "_empty"),
        (".", "%2E"),
        ("..", "%2E%2E"),
        ("...", "%2E%2E%2E"),
        ("github:tesserine/alpha", "github%3Atesserine%2Falpha"),
        ("work.unit", "work.unit"),
        ("work/unit:1", "work%2Funit%3A1"),
    ];

    for (input, expected) in cases {
        let encoded = encode_path_component(input);
        assert_eq!(encoded, expected);
        let components = std::path::Path::new(&encoded).components().collect::<Vec<_>>();
        assert!(
            matches!(components.as_slice(), [std::path::Component::Normal(_)]),
            "encoded path component should not navigate directories: {input:?} -> {encoded:?}"
        );
    }
}

#[test]
fn capture_is_disabled_without_a_directory() {
    let settings = TranscriptSettings::default();
    assert!(!capture_enabled_with_settings(&settings));
    assert_eq!(event_file_path(&settings, None, "run"), None);
}

#[test]
fn unscoped_events_route_to_the_unscoped_component_and_process_run() {
    let settings = TranscriptSettings { dir: Some("/t".to_string()), ..Default::default() };
    let path = event_file_path(&settings, None, "proc-1").unwrap();
    assert!(path.contains("deployments/unknown/"));
    assert!(path.contains("work-units/_unscoped/"));
    assert!(path.contains("runs/proc-1/events.jsonl"));
}

#[test]
fn redaction_replaces_every_occurrence() {
    let redactions = vec![("B".to_string(), "xx".to_string())];
    assert_eq!(redact_text("xx-xx", &redactions), "[REDACTED:B]-[REDACTED:B]");
}

#[test]
fn redaction_of_an_empty_value_marks_every_boundary_as_str_replace_does() {
    let redactions = vec![("A".to_string(), "".to_string())];
    assert_eq!(redact_text("ab", &redactions), "ab".replace("", "[REDACTED:A]"));
}

fn unset_env() -> TranscriptEnv {
    TranscriptEnv { dir: None, redact_env: None, deployment: None, run_id: None }
}

#[test]
fn transcript_settings_resolve_config_values_when_environment_is_unset() {
    let working_dir = "/tmp/work/project";
    let config = TranscriptConfig { dir: Some("transcripts".to_string()), redact_env: vec!["SECRET_TOKEN".to_string()] };

    let settings = resolve_transcript_settings(&unset_env(), working_dir, working_dir, &config);

    assert_eq!(settings.dir, Some("/tmp/work/project/transcripts".to_string()));
    assert_eq!(settings.redact_env, ["SECRET_TOKEN"]);
}

#[test]
fn transcript_settings_resolve_environment_values_over_config_values() {
    let env = TranscriptEnv {
        dir: Some("/tmp/env-transcripts".to_string()),
        redact_env: Some("ENV_TOKEN".to_string()),
        deployment: Some("github:env/project".to_string()),
        run_id: Some("run-env".to_string()),
    };
    let config = TranscriptConfig { dir: Some("config-transcripts".to_string()), redact_env: vec!["CONFIG_TOKEN".to_string()] };

    let settings = resolve_transcript_settings(&env, "/tmp/work", "/tmp/work", &config);

    assert_eq!(settings.dir, Some("/tmp/env-transcripts".to_string()));
    assert_eq!(settings.redact_env, ["ENV_TOKEN"]);
    assert_eq!(settings.deployment.as_deref(), Some("github:env/project"));
    assert_eq!(settings.run_id.as_deref(), Some("run-env"));
}

#[test]
fn transcript_settings_derives_deployment_from_forge_identity() {
    let forge = ForgeProject::resolve(RawForges {
        instances: vec![RawForgeInstance {
            id: "github-com".to_string(),
            forge_type: "github".to_string(),
            host: Some("github.com".to_string()),
            git_host: None,
            tracker_host: None,
        }],
        repositories: vec![RawRepository {
            id: "runa".to_string(),
            instance: "github-com".to_string(),
            owner: "tesserine".to_string(),
            name: "runa".to_string(),
        }],
        trackers: Vec::new(),
    })
    .unwrap();
    let settings = resolve_transcript_settings_from(
        &unset_env(),
        "/tmp/work",
        "/tmp/work",
        &TranscriptConfig::default(),
        &DeploymentConfig::default(),
        &forge,
    );

    assert_eq!(settings.deployment.as_deref(), Some("github@github.com/repo/tesserine/runa"));
}

#[test]
fn project_deployment_identity_hashes_the_canonical_directory() {
    let settings = resolve_transcript_settings(&unset_env(), "/tmp/work/./p", "/tmp/work/p", &TranscriptConfig::default());
    let identity = settings.deployment.unwrap();
    assert_eq!(identity, project_deployment_identity("/tmp/work/p"));
    assert!(identity.starts_with("project:sha256:"));
    assert_eq!(identity.len(), "project:sha256:".len() + 64);
    assert_eq!(settings.dir, None);
    assert_eq!(settings.run_id, None);
}

#[test]
fn redaction_names_are_split_on_commas_and_trimmed() {
    let env = TranscriptEnv { dir: None, redact_env: Some(" A , ,B,".to_string()), deployment: Some("".to_string()), run_id: Some("".to_string()) };
    let config = TranscriptConfig { dir: Some("   ".to_string()), redact_env: vec!["IGNORED".to_string()] };

    let settings = resolve_transcript_settings(&env, "/w", "/w", &config);

    assert_eq!(settings.redact_env, ["A", "B"]);
    assert_eq!(settings.dir, None);
    assert!(settings.deployment.unwrap().starts_with("project:"));
    assert_eq!(settings.run_id, None);
}

#[test]
fn configured_directories_join_like_paths() {
    assert_eq!(join_path("/w/", "t"), "/w/t");
    assert_eq!(join_path("/w", "/abs"), "/abs");
    assert_eq!(join_path("", "t"), "t");
}
