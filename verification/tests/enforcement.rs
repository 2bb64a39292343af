use libagent::enforcement::{enforce_postconditions, enforce_preconditions, ArtifactFailure, EnforcementError, Phase, Relationship};
use libagent::json::JsonValue;
use libagent::model::{ArtifactType, ProtocolDeclaration, TriggerCondition};
use libagent::store::{ArtifactState, ArtifactStore, ValidationStatus};
use libagent::validation::{ValidationError, Violation};

fn store_with(types: &[&str]) -> ArtifactStore {
    ArtifactStore::new(types.iter().map(|t| ArtifactType { name: t.to_string(), schema: JsonValue::Null }).collect())
}

fn state(status: ValidationStatus, work_unit: Option<&str>) -> ArtifactState {
    ArtifactState {
        path: "x.json".into(),
        status,
        last_modified_ms: 1,
        content_hash: "sha256:c".into(),
        schema_hash: "sha256:s".into(),
        work_unit: work_unit.map(|w| w.to_string()),
    }
}

fn protocol(requires: &[&str], produces: &[&str], may_produce: &[&str]) -> ProtocolDeclaration {
    ProtocolDeclaration {
        name: "design".into(),
        requires: requires.iter().map(|s| s.to_string()).collect(),
        accepts: vec![],
        produces: produces.iter().map(|s| s.to_string()).collect(),
        may_produce: may_produce.iter().map(|s| s.to_string()).collect(),
        scoped: false,
        trigger: TriggerCondition::OnArtifact { name: "constraints".into() },
        instructions: None,
    }
}

#[test]
fn error_display_pre_missing() {
    let err = EnforcementError {
        skill_name: "design".into(),
        phase: Phase::Pre,
        failures: vec![ArtifactFailure::Missing { artifact_type: "constraints".into(), relationship: Relationship::Requires }],
    };
    let msg = err.to_display_string();
    assert!(msg.contains("enforcement failed for skill 'design' (pre-execution):"));
    assert!(msg.contains("requires artifact type 'constraints' which is missing"));
}

#[test]
fn error_display_post_missing() {
    let err = EnforcementError {
        skill_name: "design".into(),
        phase: Phase::Post,
        failures: vec![ArtifactFailure::Missing { artifact_type: "doc".into(), relationship: Relationship::Produces }],
    };
    let msg = err.to_display_string();
    assert!(msg.contains("(post-execution):"));
    assert!(msg.contains("declares it produces artifact type 'doc' which is missing after execution"));
}

#[test]
fn error_display_invalid_with_violations() {
    let err = EnforcementError {
        skill_name: "design".into(),
        phase: Phase::Pre,
        failures: vec![ArtifactFailure::Invalid {
            artifact_type: "doc".into(),
            relationship: Relationship::Requires,
            violations: vec![Violation {
                artifact_type: "doc".into(),
                description: "expected string, got integer".into(),
                schema_path: "/properties/title/type".into(),
                instance_path: "/title".into(),
            }],
        }],
    };
    let msg = err.to_display_string();
    assert!(msg.contains("requires artifact type 'doc' which exists but fails validation"));
    assert!(msg.contains("/properties/title/type: expected string, got integer"));
}

#[test]
fn error_display_stale() {
    let err = EnforcementError {
        skill_name: "design".into(),
        phase: Phase::Pre,
        failures: vec![ArtifactFailure::Stale { artifact_type: "doc".into(), relationship: Relationship::Requires, stale_count: 2 }],
    };
    let msg = err.to_display_string();
    assert!(msg.contains("requires artifact type 'doc' which is stale"));
    assert!(msg.contains("2 instances need revalidation"));
}

#[test]
fn preconditions_pass_when_required_types_are_valid() {
    let mut store = store_with(&["constraints"]);
    store.record_state("constraints", "spec", state(ValidationStatus::Valid, None)).unwrap();
    assert!(enforce_preconditions(&protocol(&["constraints"], &[], &[]), &store, None).is_ok());
}

#[test]
fn preconditions_report_missing_required_type() {
    let store = store_with(&["constraints"]);
    let err = enforce_preconditions(&protocol(&["constraints"], &[], &[]), &store, None).err().unwrap();
    assert_eq!(err.phase, Phase::Pre);
    assert_eq!(err.skill_name, "design");
    assert_eq!(
        err.failures,
        vec![ArtifactFailure::Missing { artifact_type: "constraints".into(), relationship: Relationship::Requires }]
    );
}

#[test]
fn preconditions_report_invalid_and_stale_instances() {
    let mut store = store_with(&["a", "b"]);
    let violation = Violation {
        artifact_type: "a".into(),
        description: "bad".into(),
        schema_path: "/type".into(),
        instance_path: "".into(),
    };
    store.record_state("a", "one", state(ValidationStatus::Invalid(vec![violation.clone()]), None)).unwrap();
    store.record_state("b", "one", state(ValidationStatus::Stale, None)).unwrap();
    store.record_state("b", "two", state(ValidationStatus::Stale, None)).unwrap();
    let err = enforce_preconditions(&protocol(&["a", "b"], &[], &[]), &store, None).err().unwrap();
    assert_eq!(
        err.failures,
        vec![
            ArtifactFailure::Invalid { artifact_type: "a".into(), relationship: Relationship::Requires, violations: vec![violation] },
            ArtifactFailure::Stale { artifact_type: "b".into(), relationship: Relationship::Requires, stale_count: 2 },
        ]
    );
}

#[test]
fn preconditions_are_scoped_to_work_unit() {
    let mut store = store_with(&["constraints"]);
    store.record_state("constraints", "a1", state(ValidationStatus::Valid, Some("wu-a"))).unwrap();
    let p = protocol(&["constraints"], &[], &[]);
    assert!(enforce_preconditions(&p, &store, Some("wu-a")).is_ok());
    assert!(enforce_preconditions(&p, &store, Some("wu-b")).is_err());
}

#[test]
fn postconditions_ignore_absent_optional_outputs() {
    let mut store = store_with(&["doc", "notes"]);
    store.record_state("doc", "d", state(ValidationStatus::Valid, None)).unwrap();
    assert!(enforce_postconditions(&protocol(&[], &["doc"], &["notes"]), &store, None).is_ok());
}

#[test]
fn postconditions_report_invalid_optional_output() {
    let mut store = store_with(&["doc", "notes"]);
    store.record_state("doc", "d", state(ValidationStatus::Valid, None)).unwrap();
    store.record_state("notes", "n", state(ValidationStatus::Malformed("oops".into()), None)).unwrap();
    let err = enforce_postconditions(&protocol(&[], &["doc"], &["notes"]), &store, None).err().unwrap();
    assert_eq!(err.phase, Phase::Post);
    assert_eq!(err.failures.len(), 1);
    assert!(matches!(&err.failures[0], ArtifactFailure::Invalid { artifact_type, relationship: Relationship::MayProduce, .. } if artifact_type == "notes"));
}

#[test]
fn postconditions_report_missing_produced_type() {
    let store = store_with(&["doc"]);
    let err = enforce_postconditions(&protocol(&[], &["doc"], &[]), &store, None).err().unwrap();
    assert_eq!(err.failures, vec![ArtifactFailure::Missing { artifact_type: "doc".into(), relationship: Relationship::Produces }]);
}

// --- Ported cases, with documents validated against a schema that requires a
// string `title`. ---

fn title_schema() -> JsonValue {
    JsonValue::Object(vec![
        ("type".to_string(), JsonValue::Str("object".to_string())),
        ("required".to_string(), JsonValue::Array(vec![JsonValue::Str("title".to_string())])),
    ])
}

fn make_store(types: Vec<&str>) -> ArtifactStore {
    ArtifactStore::new(types.into_iter().map(|t| ArtifactType { name: t.to_string(), schema: title_schema() }).collect())
}

fn validate(t: &str, data: &JsonValue) -> Result<(), ValidationError> {
    let ok = match data {
        JsonValue::Object(members) => members.iter().any(|(k, v)| k == "title" && matches!(v, JsonValue::Str(_))),
        _ => false,
    };
    if ok {
        Ok(())
    } else {
        Err(ValidationError::InvalidArtifact {
            artifact_type: t.to_string(),
            violations: vec![Violation {
                artifact_type: t.to_string(),
                description: "\"title\" is a required property".to_string(),
                schema_path: "/required".to_string(),
                instance_path: "".to_string(),
            }],
        })
    }
}

fn record(store: &mut ArtifactStore, t: &str, id: &str, path: &str, data: JsonValue) {
    let v = validate(t, &data);
    store.record(t, id, path, &data, v).unwrap();
}

fn titled(title: &str) -> JsonValue {
    JsonValue::Object(vec![("title".to_string(), JsonValue::Str(title.to_string()))])
}

fn bad() -> JsonValue {
    JsonValue::Object(vec![("bad".to_string(), JsonValue::Bool(true))])
}

fn make_skill(name: &str, requires: &[&str], accepts: &[&str], produces: &[&str], may_produce: &[&str]) -> ProtocolDeclaration {
    ProtocolDeclaration {
        name: name.into(),
        requires: requires.iter().map(|s| s.to_string()).collect(),
        accepts: accepts.iter().map(|s| s.to_string()).collect(),
        produces: produces.iter().map(|s| s.to_string()).collect(),
        may_produce: may_produce.iter().map(|s| s.to_string()).collect(),
        scoped: false,
        trigger: TriggerCondition::OnArtifact { name: "manual".into() },
        instructions: None,
    }
}

// --- Pre-execution: enforce_preconditions ---

#[test]
fn preconditions_met() {
    let mut store = make_store(vec!["doc"]);
    record(&mut store, "doc", "a", "a.json", titled("A"));

    let skill = make_skill("design", &["doc"], &[], &[], &[]);
    assert!(enforce_preconditions(&skill, &store, None).is_ok());
}

#[test]
fn preconditions_missing_requires() {
    let store = make_store(vec!["doc"]);

    let skill = make_skill("design", &["doc"], &[], &[], &[]);
    let err = enforce_preconditions(&skill, &store, None).unwrap_err();
    assert_eq!(err.skill_name, "design");
    assert_eq!(err.phase, Phase::Pre);
    assert_eq!(err.failures.len(), 1);
    assert!(matches!(
        &err.failures[0],
        ArtifactFailure::Missing { artifact_type, relationship: Relationship::Requires }
        if artifact_type == "doc"
    ));
}

#[test]
fn preconditions_invalid_requires() {
    let mut store = make_store(vec!["doc"]);
    record(&mut store, "doc", "bad", "b.json", bad());

    let skill = make_skill("design", &["doc"], &[], &[], &[]);
    let err = enforce_preconditions(&skill, &store, None).unwrap_err();
    assert_eq!(err.failures.len(), 1);
    assert!(matches!(
        &err.failures[0],
        ArtifactFailure::Invalid { artifact_type, relationship: Relationship::Requires, violations }
        if artifact_type == "doc" && !violations.is_empty()
    ));
}

#[test]
fn preconditions_stale_requires() {
    let mut store = make_store(vec!["doc"]);
    record(&mut store, "doc", "a", "a.json", titled("A"));
    store.invalidate("doc", "a");

    let skill = make_skill("design", &["doc"], &[], &[], &[]);
    let err = enforce_preconditions(&skill, &store, None).unwrap_err();
    assert_eq!(err.failures.len(), 1);
    assert!(matches!(
        &err.failures[0],
        ArtifactFailure::Stale { artifact_type, relationship: Relationship::Requires, stale_count: 1 }
        if artifact_type == "doc"
    ));
}

#[test]
fn preconditions_empty_requires() {
    let store = make_store(vec!["doc"]);

    let skill = make_skill("design", &[], &[], &[], &[]);
    assert!(enforce_preconditions(&skill, &store, None).is_ok());
}

#[test]
fn preconditions_ignores_accepts() {
    let store = make_store(vec!["doc", "notes"]);

    // "notes" is in accepts and is missing — should not cause failure.
    let skill = make_skill("design", &[], &["notes"], &[], &[]);
    assert!(enforce_preconditions(&skill, &store, None).is_ok());
}

#[test]
fn preconditions_collects_all_failures() {
    let store = make_store(vec!["doc", "spec"]);

    let skill = make_skill("design", &["doc", "spec"], &[], &[], &[]);
    let err = enforce_preconditions(&skill, &store, None).unwrap_err();
    assert_eq!(err.failures.len(), 2);
    // Both should be Missing.
    for failure in &err.failures {
        assert!(matches!(failure, ArtifactFailure::Missing { .. }));
    }
}

#[test]
fn mixed_invalid_and_stale_instances() {
    let mut store = make_store(vec!["doc"]);
    // One invalid instance (missing required "title").
    record(&mut store, "doc", "bad", "b.json", bad());
    // One valid instance, then mark it stale.
    record(&mut store, "doc", "ok", "ok.json", titled("ok"));
    store.invalidate("doc", "ok");

    let skill = make_skill("design", &["doc"], &[], &[], &[]);
    let err = enforce_preconditions(&skill, &store, None).unwrap_err();
    assert_eq!(err.failures.len(), 1);
    // Invalid takes precedence over Stale.
    assert!(matches!(
        &err.failures[0],
        ArtifactFailure::Invalid { artifact_type, relationship: Relationship::Requires, violations }
        if artifact_type == "doc" && !violations.is_empty()
    ));
}

// --- Post-execution: enforce_postconditions ---

#[test]
fn postconditions_met() {
    let mut store = make_store(vec!["doc"]);
    record(&mut store, "doc", "a", "a.json", titled("A"));

    let skill = make_skill("design", &[], &[], &["doc"], &[]);
    assert!(enforce_postconditions(&skill, &store, None).is_ok());
}

#[test]
fn postconditions_missing_produces() {
    let store = make_store(vec!["doc"]);

    let skill = make_skill("design", &[], &[], &["doc"], &[]);
    let err = enforce_postconditions(&skill, &store, None).unwrap_err();
    assert_eq!(err.phase, Phase::Post);
    assert_eq!(err.failures.len(), 1);
    assert!(matches!(
        &err.failures[0],
        ArtifactFailure::Missing { artifact_type, relationship: Relationship::Produces }
        if artifact_type == "doc"
    ));
}

#[test]
fn postconditions_invalid_produces() {
    let mut store = make_store(vec!["doc"]);
    record(&mut store, "doc", "bad", "b.json", bad());

    let skill = make_skill("design", &[], &[], &["doc"], &[]);
    let err = enforce_postconditions(&skill, &store, None).unwrap_err();
    assert_eq!(err.failures.len(), 1);
    assert!(matches!(&err.failures[0], ArtifactFailure::Invalid { relationship: Relationship::Produces, .. }));
}

#[test]
fn postconditions_stale_produces() {
    let mut store = make_store(vec!["doc"]);
    record(&mut store, "doc", "a", "a.json", titled("A"));
    store.invalidate("doc", "a");

    let skill = make_skill("design", &[], &[], &["doc"], &[]);
    let err = enforce_postconditions(&skill, &store, None).unwrap_err();
    assert_eq!(err.failures.len(), 1);
    assert!(matches!(
        &err.failures[0],
        ArtifactFailure::Stale { artifact_type, relationship: Relationship::Produces, stale_count: 1 }
        if artifact_type == "doc"
    ));
}

#[test]
fn postconditions_may_produce_valid() {
    let mut store = make_store(vec!["doc", "notes"]);
    record(&mut store, "doc", "a", "a.json", titled("A"));
    record(&mut store, "notes", "n1", "n.json", titled("N"));

    let skill = make_skill("design", &[], &[], &["doc"], &["notes"]);
    assert!(enforce_postconditions(&skill, &store, None).is_ok());
}

#[test]
fn postconditions_may_produce_invalid() {
    let mut store = make_store(vec!["doc", "notes"]);
    record(&mut store, "doc", "a", "a.json", titled("A"));
    record(&mut store, "notes", "bad", "n.json", bad());

    let skill = make_skill("design", &[], &[], &["doc"], &["notes"]);
    let err = enforce_postconditions(&skill, &store, None).unwrap_err();
    assert_eq!(err.failures.len(), 1);
    assert!(matches!(
        &err.failures[0],
        ArtifactFailure::Invalid { artifact_type, relationship: Relationship::MayProduce, .. }
        if artifact_type == "notes"
    ));
}

#[test]
fn postconditions_may_produce_stale() {
    let mut store = make_store(vec!["doc", "notes"]);
    record(&mut store, "doc", "a", "a.json", titled("A"));
    record(&mut store, "notes", "n1", "n.json", titled("N"));
    store.invalidate("notes", "n1");

    let skill = make_skill("design", &[], &[], &["doc"], &["notes"]);
    let err = enforce_postconditions(&skill, &store, None).unwrap_err();
    assert_eq!(err.failures.len(), 1);
    assert!(matches!(
        &err.failures[0],
        ArtifactFailure::Stale { artifact_type, relationship: Relationship::MayProduce, stale_count: 1 }
        if artifact_type == "notes"
    ));
}

#[test]
fn postconditions_may_produce_absent() {
    let mut store = make_store(vec!["doc", "notes"]);
    record(&mut store, "doc", "a", "a.json", titled("A"));

    // "notes" has no instances — may_produce should not fail.
    let skill = make_skill("design", &[], &[], &["doc"], &["notes"]);
    assert!(enforce_postconditions(&skill, &store, None).is_ok());
}

#[test]
fn postconditions_empty() {
    let store = make_store(vec!["doc"]);

    let skill = make_skill("design", &[], &[], &[], &[]);
    assert!(enforce_postconditions(&skill, &store, None).is_ok());
}

#[test]
fn postconditions_ignores_accepts() {
    let mut store = make_store(vec!["doc", "context"]);
    record(&mut store, "doc", "a", "a.json", titled("A"));
    // "context" is in accepts and is missing — should not cause failure.

    let skill = make_skill("design", &[], &["context"], &["doc"], &[]);
    assert!(enforce_postconditions(&skill, &store, None).is_ok());
}
