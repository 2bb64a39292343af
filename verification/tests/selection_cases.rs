use libagent::json::JsonValue;
use libagent::model::{ArtifactType, ProtocolDeclaration, TriggerCondition};
use libagent::selection::{
    classify_candidates, discover_ready_candidates as discover, Candidate, CandidateStatus, ClassifiedCandidate, EvaluationScope,
};
use libagent::store::ArtifactStore;
use libagent::validation::{ValidationError, Violation};

fn s(v: &str) -> JsonValue {
    JsonValue::Str(v.to_string())
}

fn obj(members: Vec<(&str, JsonValue)>) -> JsonValue {
    JsonValue::Object(members.into_iter().map(|(k, v)| (k.to_string(), v)).collect())
}

/// A document with a title and, optionally, a work unit.
fn doc(title: &str, work_unit: Option<&str>) -> JsonValue {
    let mut members = vec![("title", s(title))];
    if let Some(wu) = work_unit {
        members.push(("work_unit", s(wu)));
    }
    obj(members)
}

/// A document with no title: invalid against the schema below.
fn untitled(work_unit: &str) -> JsonValue {
    obj(vec![("work_unit", s(work_unit))])
}

fn simple_schema() -> JsonValue {
    obj(vec![("type", s("object")), ("required", JsonValue::Array(vec![s("title")]))])
}

fn make_store(types: Vec<&str>) -> ArtifactStore {
    ArtifactStore::new(types.into_iter().map(|name| ArtifactType { name: name.into(), schema: simple_schema() }).collect())
}

/// The outcome of validating `data` against `simple_schema`.
fn validate(artifact_type: &str, data: &JsonValue) -> Result<(), ValidationError> {
    let has_title = match data {
        JsonValue::Object(members) => members.iter().any(|(k, v)| k == "title" && matches!(v, JsonValue::Str(_))),
        _ => false,
    };
    if has_title {
        Ok(())
    } else {
        Err(ValidationError::InvalidArtifact {
            artifact_type: artifact_type.to_string(),
            violations: vec![Violation {
                artifact_type: artifact_type.to_string(),
                description: "\"title\" is a required property".to_string(),
                schema_path: "/required".to_string(),
                instance_path: "".to_string(),
            }],
        })
    }
}

fn record(store: &mut ArtifactStore, t: &str, id: &str, path: &str, data: JsonValue) {
    let v = validate(t, &data);
    store.record(t, id, path, &data, v).unwrap();
}

fn record_at(store: &mut ArtifactStore, t: &str, id: &str, path: &str, data: JsonValue, ms: u64) {
    let v = validate(t, &data);
    store.record_with_timestamp(t, id, path, &data, v, ms).unwrap();
}

fn make_protocol(
    name: &str,
    requires: &[&str],
    accepts: &[&str],
    produces: &[&str],
    may_produce: &[&str],
    trigger: TriggerCondition,
) -> ProtocolDeclaration {
    ProtocolDeclaration {
        name: name.into(),
        requires: requires.iter().map(|s| s.to_string()).collect(),
        accepts: accepts.iter().map(|s| s.to_string()).collect(),
        produces: produces.iter().map(|s| s.to_string()).collect(),
        may_produce: may_produce.iter().map(|s| s.to_string()).collect(),
        scoped: false,
        trigger,
        instructions: None,
    }
}

fn scoped(mut protocol: ProtocolDeclaration) -> ProtocolDeclaration {
    protocol.scoped = true;
    protocol
}

fn on_artifact(name: &str) -> TriggerCondition {
    TriggerCondition::OnArtifact { name: name.into() }
}

fn on_change(name: &str) -> TriggerCondition {
    TriggerCondition::OnChange { name: name.into() }
}

fn discover_ready_candidates(
    protocols: &[ProtocolDeclaration],
    store: &ArtifactStore,
    order: &[&str],
    partials: &Vec<String>,
) -> Vec<Candidate> {
    discover(protocols, store, order, partials, EvaluationScope::Unscoped)
}

fn discover_ready_candidates_scoped(
    protocols: &[ProtocolDeclaration],
    store: &ArtifactStore,
    order: &[&str],
    partials: &Vec<String>,
    work_unit: &str,
) -> Vec<Candidate> {
    discover(protocols, store, order, partials, EvaluationScope::Scoped(work_unit))
}

fn classify_candidates_scoped(
    protocols: &[ProtocolDeclaration],
    store: &ArtifactStore,
    order: &[&str],
    partials: &Vec<String>,
    work_unit: &str,
) -> Vec<ClassifiedCandidate> {
    classify_candidates(protocols, store, order, partials, EvaluationScope::Scoped(work_unit))
}

fn none() -> Vec<String> {
    Vec::new()
}

fn implement(trigger: TriggerCondition) -> ProtocolDeclaration {
    make_protocol("implement", &["constraints"], &[], &["implementation"], &[], trigger)
}

#[test]
fn artifact_only_protocol_evaluated_once_unscoped() {
    let mut store = make_store(vec!["doc"]);
    record(&mut store, "doc", "d1", "d1.json", doc("D", None));

    let protocol = make_protocol("ground", &[], &[], &[], &[], on_artifact("doc"));

    let candidates = discover_ready_candidates(&[protocol], &store, &["ground"], &none());

    assert_eq!(candidates.len(), 1);
    assert_eq!(candidates[0].protocol_name, "ground");
    assert_eq!(candidates[0].work_unit, None);
}

#[test]
fn artifact_trigger_discovers_work_units() {
    let mut store = make_store(vec!["constraints", "implementation"]);
    record(&mut store, "constraints", "a1", "a1.json", doc("A", Some("wu-a")));
    record(&mut store, "constraints", "b1", "b1.json", doc("B", Some("wu-b")));

    let protocol = scoped(implement(on_artifact("constraints")));

    let wu_a = discover_ready_candidates_scoped(std::slice::from_ref(&protocol), &store, &["implement"], &none(), "wu-a");
    let wu_b = discover_ready_candidates_scoped(&[protocol], &store, &["implement"], &none(), "wu-b");

    assert_eq!(wu_a.len(), 1);
    assert_eq!(wu_a[0].protocol_name, "implement");
    assert_eq!(wu_a[0].work_unit, Some("wu-a".into()));
    assert_eq!(wu_b.len(), 1);
    assert_eq!(wu_b[0].work_unit, Some("wu-b".into()));
}

#[test]
fn completed_suppression_skips_activated_with_passing_postconditions() {
    let mut store = make_store(vec!["constraints", "implementation"]);
    record(&mut store, "constraints", "a1", "a1.json", doc("A", Some("wu-a")));
    record(&mut store, "implementation", "a1", "impl-a1.json", doc("impl-A", Some("wu-a")));

    let protocol = scoped(implement(on_artifact("constraints")));

    let candidates = discover_ready_candidates_scoped(&[protocol], &store, &["implement"], &none(), "wu-a");

    assert!(candidates.is_empty());
}

#[test]
fn discover_ready_candidates_keeps_on_change_freshness_per_work_unit() {
    let mut store = make_store(vec!["constraints", "implementation"]);
    record_at(&mut store, "constraints", "a1", "a1.json", doc("A", Some("wu-a")), 2000);
    record_at(&mut store, "constraints", "b1", "b1.json", doc("B", Some("wu-b")), 1000);
    record_at(&mut store, "implementation", "a1", "impl-a1.json", doc("impl-A", Some("wu-a")), 1000);
    record_at(&mut store, "implementation", "b1", "impl-b1.json", doc("impl-B", Some("wu-b")), 2000);

    let protocol = scoped(implement(on_change("constraints")));

    let candidates = discover_ready_candidates_scoped(&[protocol], &store, &["implement"], &none(), "wu-a");

    assert_eq!(candidates.len(), 1);
    assert_eq!(candidates[0].protocol_name, "implement");
    assert_eq!(candidates[0].work_unit, Some("wu-a".into()));
}

#[test]
fn accepts_artifacts_do_not_affect_currentness() {
    let mut store = make_store(vec!["constraints", "prior-art", "implementation"]);
    record_at(&mut store, "constraints", "a1", "constraints-a1.json", doc("A", Some("wu-a")), 1000);
    record_at(&mut store, "prior-art", "a1", "prior-art-a1.json", doc("optional", Some("wu-a")), 3000);
    record_at(&mut store, "implementation", "a1", "impl-a1.json", doc("impl-A", Some("wu-a")), 2000);

    let protocol = make_protocol("implement", &["constraints"], &["prior-art"], &["implementation"], &[], on_artifact("constraints"));

    let candidates = discover_ready_candidates(&[protocol], &store, &["implement"], &none());

    assert!(candidates.is_empty());
}

#[test]
fn may_produce_only_protocols_are_not_suppressed() {
    let mut store = make_store(vec!["constraints", "notes"]);
    record_at(&mut store, "constraints", "a1", "a1.json", doc("A", Some("wu-a")), 2000);
    record_at(&mut store, "notes", "old-note", "note.json", doc("old", Some("wu-a")), 500);

    let protocol = scoped(make_protocol("implement", &["constraints"], &[], &[], &["notes"], on_artifact("constraints")));

    let candidates = discover_ready_candidates_scoped(&[protocol], &store, &["implement"], &none(), "wu-a");

    assert_eq!(candidates.len(), 1);
    assert_eq!(candidates[0].protocol_name, "implement");
    assert_eq!(candidates[0].work_unit, Some("wu-a".into()));
}

#[test]
fn activated_but_postconditions_fail_still_candidate() {
    let mut store = make_store(vec!["constraints", "implementation"]);
    record(&mut store, "constraints", "a1", "a1.json", doc("A", Some("wu-a")));
    // No implementation artifact → postconditions fail → not suppressed.

    let protocol = implement(on_artifact("constraints"));

    let candidates = discover_ready_candidates(&[protocol], &store, &["implement"], &none());

    assert_eq!(candidates.len(), 1);
}

#[test]
fn on_change_trigger_not_suppressed_even_when_postconditions_pass() {
    let mut store = make_store(vec!["constraints", "implementation"]);
    // Constraints modified at timestamp 2000 (after completion at 1000).
    record_at(&mut store, "constraints", "a1", "a1.json", doc("A", Some("wu-a")), 2000);
    // Implementation still valid from prior run.
    record_at(&mut store, "implementation", "a1", "impl-a1.json", doc("impl-A", Some("wu-a")), 1000);

    let protocol = implement(on_change("constraints"));

    let candidates = discover_ready_candidates(&[protocol], &store, &["implement"], &none());

    // Must NOT be suppressed: on_change was satisfied because input changed.
    assert_eq!(candidates.len(), 1);
    assert_eq!(candidates[0].protocol_name, "implement");
}

#[test]
fn on_change_in_all_of_not_suppressed() {
    let mut store = make_store(vec!["constraints", "implementation"]);
    record_at(&mut store, "constraints", "a1", "a1.json", doc("A", Some("wu-a")), 2000);
    record_at(&mut store, "implementation", "a1", "impl-a1.json", doc("impl-A", Some("wu-a")), 1000);

    // on_change nested inside all_of: still should not be suppressed.
    let protocol = implement(TriggerCondition::AllOf { conditions: vec![on_change("constraints"), on_artifact("constraints")] });

    let candidates = discover_ready_candidates(&[protocol], &store, &["implement"], &none());

    assert_eq!(candidates.len(), 1);
}

#[test]
fn any_of_with_on_change_suppressed_when_change_not_satisfied() {
    let mut store = make_store(vec!["constraints", "implementation"]);
    // Constraints recorded BEFORE completion — on_change will not fire.
    record_at(&mut store, "constraints", "a1", "a1.json", doc("A", Some("wu-a")), 500);
    // Implementation still valid from prior run.
    record(&mut store, "implementation", "a1", "impl-a1.json", doc("impl-A", Some("wu-a")));

    let protocol = implement(TriggerCondition::AnyOf { conditions: vec![on_artifact("constraints"), on_change("constraints")] });

    let candidates = discover_ready_candidates(&[protocol], &store, &["implement"], &none());

    // Must be suppressed: on_change was NOT satisfied, prior outputs valid.
    assert!(candidates.is_empty());
}

#[test]
fn any_of_on_change_in_unsatisfied_branch_suppressed() {
    let mut store = make_store(vec!["constraints", "implementation"]);
    record_at(&mut store, "constraints", "a1", "a1.json", doc("A", Some("wu-a")), 2000);
    record(&mut store, "implementation", "a1", "impl-a1.json", doc("impl-A", Some("wu-a")));

    let protocol = implement(TriggerCondition::AnyOf {
        conditions: vec![
            TriggerCondition::AllOf {
                conditions: vec![on_change("constraints"), TriggerCondition::OnInvalid { name: "constraints".into() }],
            },
            on_artifact("constraints"),
        ],
    });

    let candidates = discover_ready_candidates(&[protocol], &store, &["implement"], &none());

    // Must be suppressed: the on_change is in an unsatisfied branch.
    assert!(candidates.is_empty());
}

#[test]
fn partially_scanned_type_in_requires_skips() {
    let mut store = make_store(vec!["constraints"]);
    record(&mut store, "constraints", "a1", "a1.json", doc("A", Some("wu-a")));

    let partial = vec!["constraints".to_string()];

    let protocol = make_protocol("implement", &["constraints"], &[], &[], &[], on_artifact("constraints"));

    let candidates = discover_ready_candidates(&[protocol], &store, &["implement"], &partial);

    assert!(candidates.is_empty());
}

#[test]
fn partially_scanned_trigger_type_not_in_requires_skips() {
    let mut store = make_store(vec!["lint"]);
    record(&mut store, "lint", "a1", "a1.json", doc("A", Some("wu-a")));

    let partial = vec!["lint".to_string()];

    // lint is only referenced by the trigger, not in requires.
    let protocol = make_protocol("fix-lint", &[], &[], &[], &[], on_artifact("lint"));

    let candidates = discover_ready_candidates(&[protocol], &store, &["fix-lint"], &partial);

    assert!(candidates.is_empty());
}

#[test]
fn partially_scanned_output_type_does_not_globally_skip_candidate_discovery() {
    let mut store = make_store(vec!["constraints", "implementation"]);
    record(&mut store, "constraints", "a1", "a1.json", doc("A", Some("wu-a")));
    record(&mut store, "constraints", "b1", "b1.json", doc("B", Some("wu-b")));
    record(&mut store, "implementation", "a1", "impl-a1.json", doc("impl-A", Some("wu-a")));
    record(&mut store, "implementation", "b1", "impl-b1.json", doc("impl-B", Some("wu-b")));

    let partial = vec!["implementation".to_string()];

    let protocol = scoped(implement(on_artifact("constraints")));

    let wu_a = discover_ready_candidates_scoped(std::slice::from_ref(&protocol), &store, &["implement"], &partial, "wu-a");
    let wu_b = discover_ready_candidates_scoped(&[protocol], &store, &["implement"], &partial, "wu-b");

    assert_eq!(wu_a.len(), 1);
    assert_eq!(wu_a[0].work_unit, Some("wu-a".into()));
    assert_eq!(wu_b.len(), 1);
    assert_eq!(wu_b[0].work_unit, Some("wu-b".into()));
}

#[test]
fn partially_scanned_output_type_does_not_affect_non_on_change_trigger_gate() {
    let mut store = make_store(vec!["constraints", "implementation"]);
    record(&mut store, "constraints", "a1", "a1.json", doc("A", Some("wu-a")));

    let partial = vec!["implementation".to_string()];
    let protocol = scoped(implement(on_artifact("constraints")));

    let candidates = discover_ready_candidates_scoped(&[protocol], &store, &["implement"], &partial, "wu-a");

    assert_eq!(candidates.len(), 1);
    assert_eq!(candidates[0].protocol_name, "implement");
    assert_eq!(candidates[0].work_unit, Some("wu-a".into()));
}

#[test]
fn partially_scanned_on_change_output_stays_ready() {
    let mut store = make_store(vec!["doc", "reviewed"]);
    record(&mut store, "doc", "draft", "draft.json", doc("Draft", None));
    record_at(&mut store, "reviewed", "done", "done.json", doc("Done", None), 2000);

    let partial = vec!["reviewed".to_string()];
    let protocol = make_protocol("review", &[], &[], &["reviewed"], &[], on_change("doc"));

    let classified = classify_candidates(std::slice::from_ref(&protocol), &store, &["review"], &partial, EvaluationScope::Unscoped);

    assert_eq!(classified.len(), 1);
    assert!(matches!(classified[0].status, CandidateStatus::Ready));
    assert!(classified[0].trigger_satisfied);
    assert!(classified[0].scan_trust.trusted);
    assert!(classified[0].scan_trust.incomplete_types.is_empty());

    let candidates = discover_ready_candidates(&[protocol], &store, &["review"], &partial);
    assert_eq!(candidates.len(), 1);
    assert_eq!(candidates[0].protocol_name, "review");
    assert_eq!(candidates[0].work_unit, None);
}

#[test]
fn partially_scanned_on_change_output_unsuppresses_all_work_units() {
    let mut store = make_store(vec!["doc", "reviewed"]);
    record_at(&mut store, "doc", "a", "doc-a.json", doc("Draft A", Some("wu-a")), 1000);
    record_at(&mut store, "doc", "b", "doc-b.json", doc("Draft B", Some("wu-b")), 1000);
    record_at(&mut store, "reviewed", "a", "reviewed-a.json", doc("Done A", Some("wu-a")), 2000);
    record_at(&mut store, "reviewed", "b", "reviewed-b.json", doc("Done B", Some("wu-b")), 2000);
    store.mark_instance_scan_gap("reviewed", "a");

    let partial = vec!["reviewed".to_string()];
    let protocol = scoped(make_protocol("review", &[], &[], &["reviewed"], &[], on_change("doc")));

    let classified_a = classify_candidates_scoped(std::slice::from_ref(&protocol), &store, &["review"], &partial, "wu-a");
    let classified_b = classify_candidates_scoped(std::slice::from_ref(&protocol), &store, &["review"], &partial, "wu-b");

    assert_eq!(classified_a.len(), 1);
    assert!(matches!(classified_a[0].status, CandidateStatus::Ready));
    assert_eq!(classified_b.len(), 1);
    assert!(matches!(classified_b[0].status, CandidateStatus::Ready));

    let wu_a = discover_ready_candidates_scoped(std::slice::from_ref(&protocol), &store, &["review"], &partial, "wu-a");
    let wu_b = discover_ready_candidates_scoped(&[protocol], &store, &["review"], &partial, "wu-b");
    assert_eq!(wu_a.len(), 1);
    assert_eq!(wu_a[0].work_unit, Some("wu-a".into()));
    assert_eq!(wu_b.len(), 1);
    assert_eq!(wu_b[0].work_unit, Some("wu-b".into()));
}

#[test]
fn partially_scanned_optional_output_does_not_skip_completed_suppression() {
    let mut store = make_store(vec!["constraints", "implementation", "notes"]);
    record(&mut store, "constraints", "a1", "a1.json", doc("A", Some("wu-a")));
    record(&mut store, "implementation", "a1", "impl-a1.json", doc("impl-A", Some("wu-a")));

    let partial = vec!["notes".to_string()];

    let protocol = scoped(make_protocol("implement", &["constraints"], &[], &["implementation"], &["notes"], on_artifact("constraints")));

    let candidates = discover_ready_candidates_scoped(&[protocol], &store, &["implement"], &partial, "wu-a");

    assert!(candidates.is_empty());
}

#[test]
fn present_partially_scanned_optional_output_skips_completed_suppression() {
    let mut store = make_store(vec!["constraints", "implementation", "notes"]);
    record(&mut store, "constraints", "a1", "a1.json", doc("A", Some("wu-a")));
    record(&mut store, "implementation", "a1", "impl-a1.json", doc("impl-A", Some("wu-a")));
    record(&mut store, "notes", "a1", "notes-a1.json", doc("optional", Some("wu-a")));

    let partial = vec!["notes".to_string()];
    let protocol = scoped(make_protocol("implement", &["constraints"], &[], &["implementation"], &["notes"], on_artifact("constraints")));

    let candidates = discover_ready_candidates_scoped(&[protocol], &store, &["implement"], &partial, "wu-a");

    assert_eq!(candidates.len(), 1);
    assert_eq!(candidates[0].protocol_name, "implement");
    assert_eq!(candidates[0].work_unit, Some("wu-a".into()));
}

#[test]
fn unsatisfied_trigger_not_candidate() {
    let store = make_store(vec!["doc", "missing"]);

    let protocol = make_protocol("ground", &[], &[], &["doc"], &[], on_artifact("missing"));

    let candidates = discover_ready_candidates(&[protocol], &store, &["ground"], &none());

    assert!(candidates.is_empty());
}

#[test]
fn preconditions_fail_not_candidate() {
    let mut store = make_store(vec!["constraints", "implementation"]);
    // constraints is required but missing — only an implementation instance exists.
    record(&mut store, "implementation", "a1", "impl-a1.json", doc("impl-A", None));

    let protocol = implement(on_artifact("implementation"));

    let candidates = discover_ready_candidates(&[protocol], &store, &["implement"], &none());

    assert!(candidates.is_empty());
}

#[test]
fn stale_shared_outputs_keep_scoped_work_runnable() {
    let mut store = make_store(vec!["constraints", "implementation", "summary"]);
    record_at(&mut store, "constraints", "a1", "constraints-a1.json", doc("A", Some("wu-a")), 1500);
    record_at(&mut store, "implementation", "a1", "impl-a1.json", doc("impl-A", Some("wu-a")), 2000);
    record_at(&mut store, "summary", "shared", "summary.json", doc("summary", None), 1000);

    let protocol = scoped(make_protocol(
        "implement",
        &["constraints"],
        &[],
        &["implementation", "summary"],
        &[],
        on_change("constraints"),
    ));

    let candidates = discover_ready_candidates_scoped(&[protocol], &store, &["implement"], &none(), "wu-a");

    assert_eq!(candidates.len(), 1);
    assert_eq!(candidates[0].protocol_name, "implement");
    assert_eq!(candidates[0].work_unit, Some("wu-a".into()));
}
