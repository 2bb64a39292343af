use libagent::json::JsonValue;
use libagent::manifest::{instruction_path, is_layout_name, schema_path, validate_manifest, ManifestError};
use libagent::model::{ArtifactType, Manifest, ProtocolDeclaration, TriggerCondition};

fn protocol(name: &str) -> ProtocolDeclaration {
    ProtocolDeclaration {
        name: name.to_string(),
        requires: Vec::new(),
        accepts: Vec::new(),
        produces: vec!["report".to_string()],
        may_produce: Vec::new(),
        scoped: false,
        trigger: TriggerCondition::OnChange { name: "report".to_string() },
        instructions: None,
    }
}

fn manifest(types: &[&str], protocols: &[&str]) -> Manifest {
    Manifest {
        name: "methodology".to_string(),
        artifact_types: types.iter().map(|t| ArtifactType { name: t.to_string(), schema: JsonValue::Null }).collect(),
        protocols: protocols.iter().map(|p| protocol(p)).collect(),
    }
}

#[test]
fn valid_names_pass() {
    assert_eq!(validate_manifest(&manifest(&["constraints", "design-doc"], &["ground", "design"])), Ok(()));
}

#[test]
fn duplicate_artifact_type_is_reported() {
    let err = validate_manifest(&manifest(&["x", "y", "x"], &["p"])).unwrap_err();
    assert_eq!(err, ManifestError::DuplicateArtifactType("x".to_string()));
    assert_eq!(err.to_display_string(), "duplicate artifact type name: x");
}

#[test]
fn duplicate_protocol_name_is_reported() {
    let err = validate_manifest(&manifest(&["x"], &["do-thing", "do-thing"])).unwrap_err();
    assert_eq!(err, ManifestError::DuplicateProtocolName("do-thing".to_string()));
}

#[test]
fn unsafe_artifact_type_names_are_rejected() {
    for invalid_name in ["foo/bar", r"foo\bar", "foo..bar"] {
        let err = validate_manifest(&manifest(&[invalid_name], &["generate"])).unwrap_err();
        assert!(err.to_display_string().contains("artifact type name"));
        assert!(err.to_display_string().contains(invalid_name));
    }
}

#[test]
fn unsafe_protocol_names_are_rejected() {
    for invalid_name in ["", ".", "foo/bar", r"foo\bar", "foo..bar"] {
        let err = validate_manifest(&manifest(&["report"], &[invalid_name])).unwrap_err();
        assert_eq!(err, ManifestError::InvalidProtocolName(invalid_name.to_string()));
        assert!(err.to_display_string().contains("protocol name"));
    }
}

#[test]
fn artifact_types_are_checked_before_protocols() {
    let err = validate_manifest(&manifest(&["a/b"], &["x", "x"])).unwrap_err();
    assert_eq!(err, ManifestError::InvalidArtifactTypeName("a/b".to_string()));
    assert_eq!(
        err.to_display_string(),
        "invalid artifact type name 'a/b': names must not contain '/', '\\', or '..'"
    );
}

#[test]
fn layout_names_allow_single_dots() {
    assert!(is_layout_name("v1.2"));
    assert!(is_layout_name(".hidden"));
    assert!(!is_layout_name(".."));
    assert!(!is_layout_name("."));
}

#[test]
fn layout_paths_follow_the_convention() {
    assert_eq!(schema_path("/m", "report"), "/m/schemas/report.schema.json");
    assert_eq!(instruction_path("/m/", "ground"), "/m/protocols/ground/PROTOCOL.md");
    assert_eq!(
        ManifestError::SchemaNotFound { artifact_type: "report".into(), expected_path: "/m/schemas/report.schema.json".into() }
            .to_display_string(),
        "schema file not found for artifact type 'report' at expected location: /m/schemas/report.schema.json"
    );
}

// --- The parse cases of the original whose outcome is decided by validation;
// the TOML text of each case is written here as the manifest it maps onto. ---

fn protocol_on(name: &str, produces: &[&str], on_change: &str) -> ProtocolDeclaration {
    ProtocolDeclaration {
        name: name.to_string(),
        requires: Vec::new(),
        accepts: Vec::new(),
        produces: produces.iter().map(|s| s.to_string()).collect(),
        may_produce: Vec::new(),
        scoped: false,
        trigger: TriggerCondition::OnChange { name: on_change.to_string() },
        instructions: None,
    }
}

fn manifest_of(name: &str, types: &[&str], protocols: Vec<ProtocolDeclaration>) -> Manifest {
    Manifest {
        name: name.to_string(),
        artifact_types: types.iter().map(|t| ArtifactType { name: t.to_string(), schema: JsonValue::Null }).collect(),
        protocols,
    }
}

#[test]
fn parse_duplicate_artifact_type_names() {
    let m = manifest_of("dupes", &["report", "report"], vec![protocol_on("gen", &[], "report")]);
    match validate_manifest(&m).unwrap_err() {
        ManifestError::DuplicateArtifactType(name) => assert_eq!(name, "report"),
        other => panic!("expected DuplicateArtifactType, got: {}", other.to_display_string()),
    }
}

#[test]
fn parse_duplicate_protocol_names() {
    let m = manifest_of(
        "dupes",
        &["x"],
        vec![protocol_on("do-thing", &[], "report"), protocol_on("do-thing", &[], "x")],
    );
    match validate_manifest(&m).unwrap_err() {
        ManifestError::DuplicateProtocolName(name) => assert_eq!(name, "do-thing"),
        other => panic!("expected DuplicateProtocolName, got: {}", other.to_display_string()),
    }
}

#[test]
fn parse_rejects_artifact_type_names_with_unsafe_path_components() {
    for invalid_name in ["foo/bar", r"foo\bar", "foo..bar"] {
        let m = manifest_of(
            "unsafe-artifact",
            &[invalid_name],
            vec![protocol_on("generate", &["safe-output"], "safe-output")],
        );
        let err = validate_manifest(&m).unwrap_err().to_display_string();
        assert!(err.contains("artifact type name"), "expected artifact type name validation error for {invalid_name:?}, got: {err}");
        assert!(err.contains(invalid_name), "expected invalid artifact type name in error for {invalid_name:?}, got: {err}");
    }
}

#[test]
fn parse_rejects_protocol_names_with_unsafe_path_components() {
    for invalid_name in ["", ".", "foo/bar", r"foo\bar", "foo..bar"] {
        let m = manifest_of("unsafe-protocol", &["report"], vec![protocol_on(invalid_name, &["report"], "report")]);
        let err = validate_manifest(&m).unwrap_err().to_display_string();
        assert!(err.contains("protocol name"), "expected protocol name validation error for {invalid_name:?}, got: {err}");
        assert!(err.contains(invalid_name), "expected invalid protocol name in error for {invalid_name:?}, got: {err}");
    }
}
