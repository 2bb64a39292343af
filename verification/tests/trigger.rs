use libagent::json::JsonValue;
use libagent::model::{ArtifactType, ProtocolDeclaration, TriggerCondition};
use libagent::store::ArtifactStore;
use libagent::trigger::{derived_completion_timestamp, evaluate as evaluate_trigger, TriggerContext, TriggerResult};
use libagent::validation::{ValidationError, Violation};

fn s(v: &str) -> JsonValue {
    JsonValue::Str(v.to_string())
}

fn obj(members: Vec<(&str, JsonValue)>) -> JsonValue {
    JsonValue::Object(members.into_iter().map(|(k, v)| (k.to_string(), v)).collect())
}

/// An object schema that requires a string `title`.
fn simple_schema() -> JsonValue {
    obj(vec![
        ("type", s("object")),
        ("properties", obj(vec![("title", obj(vec![("type", s("string"))]))])),
        ("required", JsonValue::Array(vec![s("title")])),
    ])
}

fn make_store(types: Vec<&str>) -> ArtifactStore {
    ArtifactStore::new(types.into_iter().map(|name| ArtifactType { name: name.into(), schema: simple_schema() }).collect())
}

/// The outcome of validating `data` against `simple_schema`.
fn validate(artifact_type: &str, data: &JsonValue) -> Result<(), ValidationError> {
    let has_title = match data {
        JsonValue::Object(members) => members.iter().any(|(k, v)| k == "title" && matches!(v, JsonValue::Str(_))),
        _ => false,
    };
    if has_title {
        Ok(())
    } else {
        Err(ValidationError::InvalidArtifact {
            artifact_type: artifact_type.to_string(),
            violations: vec![Violation {
                artifact_type: artifact_type.to_string(),
                description: "\"title\" is a required property".to_string(),
                schema_path: "/required".to_string(),
                instance_path: "".to_string(),
            }],
        })
    }
}

fn record(store: &mut ArtifactStore, t: &str, id: &str, path: &str, data: &JsonValue) {
    store.record(t, id, path, data, validate(t, data)).unwrap();
}

fn record_at(store: &mut ArtifactStore, t: &str, id: &str, path: &str, data: &JsonValue, ms: u64) {
    store.record_with_timestamp(t, id, path, data, validate(t, data), ms).unwrap();
}

fn title(t: &str) -> JsonValue {
    obj(vec![("title", s(t))])
}

fn make_protocol(trigger: TriggerCondition, produces: &[&str], may_produce: &[&str]) -> ProtocolDeclaration {
    ProtocolDeclaration {
        name: "protocol".into(),
        requires: Vec::new(),
        accepts: Vec::new(),
        produces: produces.iter().map(|s| s.to_string()).collect(),
        may_produce: may_produce.iter().map(|s| s.to_string()).collect(),
        scoped: false,
        trigger,
        instructions: None,
    }
}

fn ctx<'a>(store: &'a ArtifactStore, work_unit: Option<&'a str>, partials: &'a Vec<String>) -> TriggerContext<'a> {
    TriggerContext { store, work_unit, partially_scanned_types: partials }
}

/// Evaluate `condition` for a protocol that produces nothing.
fn evaluate(condition: &TriggerCondition, context: &TriggerContext<'_>, _name: &str) -> TriggerResult {
    let protocol = make_protocol(dup(condition), &[], &[]);
    evaluate_trigger(condition, &protocol, context)
}

fn on_artifact(name: &str) -> TriggerCondition {
    TriggerCondition::OnArtifact { name: name.into() }
}

fn no_partials() -> Vec<String> {
    Vec::new()
}

// --- OnArtifact ---

#[test]
fn on_artifact_satisfied_when_all_valid() {
    let mut store = make_store(vec!["doc"]);
    record(&mut store, "doc", "a", "a.json", &title("A"));

    let partials = no_partials();
    let c = ctx(&store, None, &partials);
    assert_eq!(evaluate(&on_artifact("doc"), &c, "protocol"), TriggerResult::Satisfied);
}

#[test]
fn on_artifact_not_satisfied_when_invalid_instance() {
    let mut store = make_store(vec!["doc"]);
    record(&mut store, "doc", "a", "a.json", &title("A"));
    record(&mut store, "doc", "b", "b.json", &obj(vec![("bad", JsonValue::Bool(true))]));

    let partials = no_partials();
    let c = ctx(&store, None, &partials);
    assert!(matches!(evaluate(&on_artifact("doc"), &c, "protocol"), TriggerResult::NotSatisfied(_)));
}

#[test]
fn on_artifact_mentions_malformed_instances_in_failure_reason() {
    let mut store = make_store(vec!["doc"]);
    store.record_malformed("doc", "bad", "bad.json", br#"{"title":"A""#, "eof".to_string()).unwrap();

    let partials = no_partials();
    let c = ctx(&store, None, &partials);
    assert_eq!(
        evaluate(&on_artifact("doc"), &c, "protocol"),
        TriggerResult::NotSatisfied("artifact type 'doc' has invalid, malformed, or stale instances".into())
    );
}

#[test]
fn on_artifact_not_satisfied_when_no_instances() {
    let store = make_store(vec!["doc"]);

    let partials = no_partials();
    let c = ctx(&store, None, &partials);
    assert!(matches!(evaluate(&on_artifact("doc"), &c, "protocol"), TriggerResult::NotSatisfied(_)));
}

#[test]
fn on_artifact_not_satisfied_when_stale() {
    let mut store = make_store(vec!["doc"]);
    record(&mut store, "doc", "a", "a.json", &title("A"));
    store.invalidate("doc", "a");

    let partials = no_partials();
    let c = ctx(&store, None, &partials);
    assert!(matches!(evaluate(&on_artifact("doc"), &c, "protocol"), TriggerResult::NotSatisfied(_)));
}

// --- OnChange ---

#[test]
fn on_change_satisfied_when_no_output_evidence() {
    let mut store = make_store(vec!["doc", "implementation"]);
    record_at(&mut store, "doc", "a", "a.json", &title("A"), 1000);

    let partials = no_partials();
    let c = ctx(&store, None, &partials);
    let cond = TriggerCondition::OnChange { name: "doc".into() };
    let protocol = make_protocol(dup(&cond), &["implementation"], &[]);
    assert_eq!(evaluate_trigger(&cond, &protocol, &c), TriggerResult::Satisfied);
}

#[test]
fn on_change_satisfied_when_input_newer_than_output() {
    let mut store = make_store(vec!["doc", "implementation"]);
    record_at(&mut store, "doc", "a", "a.json", &title("A"), 2000);
    record_at(&mut store, "implementation", "a", "impl.json", &title("done"), 1000);

    let partials = no_partials();
    let c = ctx(&store, None, &partials);
    let cond = TriggerCondition::OnChange { name: "doc".into() };
    let protocol = make_protocol(dup(&cond), &["implementation"], &[]);
    assert_eq!(evaluate_trigger(&cond, &protocol, &c), TriggerResult::Satisfied);
}

#[test]
fn on_change_not_satisfied_when_output_newer_than_input() {
    let mut store = make_store(vec!["doc", "implementation"]);
    record_at(&mut store, "doc", "a", "a.json", &title("A"), 1000);
    record_at(&mut store, "implementation", "a", "impl.json", &title("done"), 2000);

    let partials = no_partials();
    let c = ctx(&store, None, &partials);
    let cond = TriggerCondition::OnChange { name: "doc".into() };
    let protocol = make_protocol(dup(&cond), &["implementation"], &[]);
    assert!(matches!(evaluate_trigger(&cond, &protocol, &c), TriggerResult::NotSatisfied(_)));
}

#[test]
fn on_change_not_satisfied_when_no_instances() {
    let store = make_store(vec!["doc"]);

    let partials = no_partials();
    let c = ctx(&store, None, &partials);
    let cond = TriggerCondition::OnChange { name: "doc".into() };
    assert!(matches!(evaluate(&cond, &c, "protocol"), TriggerResult::NotSatisfied(_)));
}

#[test]
fn on_change_not_satisfied_when_same_timestamp() {
    let mut store = make_store(vec!["doc", "implementation"]);
    record_at(&mut store, "doc", "a", "a.json", &title("A"), 1000);
    record_at(&mut store, "implementation", "a", "impl.json", &title("done"), 1000);

    let partials = no_partials();
    let c = ctx(&store, None, &partials);
    let cond = TriggerCondition::OnChange { name: "doc".into() };
    let protocol = make_protocol(dup(&cond), &["implementation"], &[]);
    assert!(matches!(evaluate_trigger(&cond, &protocol, &c), TriggerResult::NotSatisfied(_)));
}

#[test]
fn on_change_uses_newest_matching_output_timestamp_per_type() {
    let mut store = make_store(vec!["doc", "implementation"]);
    record_at(&mut store, "doc", "a", "a.json", &title("new"), 1500);
    record_at(&mut store, "implementation", "old-output", "old-output.json", &title("old"), 1000);
    record_at(&mut store, "implementation", "new-output", "new-output.json", &title("new"), 2500);

    let partials = no_partials();
    let c = ctx(&store, None, &partials);
    let cond = TriggerCondition::OnChange { name: "doc".into() };
    let protocol = make_protocol(dup(&cond), &["implementation"], &[]);
    assert!(matches!(evaluate_trigger(&cond, &protocol, &c), TriggerResult::NotSatisfied(_)));
}

#[test]
fn on_change_ignores_stale_may_produce_timestamps() {
    let mut store = make_store(vec!["doc", "implementation", "notes"]);
    record_at(&mut store, "doc", "a", "a.json", &title("current"), 1500);
    record_at(&mut store, "implementation", "impl", "impl.json", &title("done"), 2000);
    record_at(&mut store, "notes", "old-note", "notes.json", &title("old"), 500);

    let partials = no_partials();
    let c = ctx(&store, None, &partials);
    let cond = TriggerCondition::OnChange { name: "doc".into() };
    let protocol = make_protocol(dup(&cond), &["implementation"], &["notes"]);
    assert!(matches!(evaluate_trigger(&cond, &protocol, &c), TriggerResult::NotSatisfied(_)));
}

#[test]
fn derived_completion_timestamp_is_none_for_may_produce_only_protocols() {
    let mut store = make_store(vec!["notes"]);
    record_at(&mut store, "notes", "note", "note.json", &title("optional"), 1000);

    let protocol = make_protocol(TriggerCondition::OnChange { name: "unused".into() }, &[], &["notes"]);
    assert_eq!(derived_completion_timestamp(&protocol, &store, None, &Vec::new()), None);
}

#[test]
fn derived_completion_timestamp_is_none_when_produces_type_is_partially_scanned() {
    let mut store = make_store(vec!["implementation"]);
    record_at(&mut store, "implementation", "impl", "impl.json", &title("done"), 1000);

    let partial = vec!["implementation".to_string()];
    let protocol = make_protocol(TriggerCondition::OnChange { name: "unused".into() }, &["implementation"], &[]);

    assert_eq!(derived_completion_timestamp(&protocol, &store, None, &partial), None);
}

#[test]
fn derived_completion_timestamp_includes_unscoped_outputs_for_scoped_work_unit() {
    let mut store = make_store(vec!["implementation", "summary"]);
    record_at(&mut store, "summary", "shared", "shared.json", &title("shared"), 1000);
    record_at(
        &mut store,
        "implementation",
        "wu-a",
        "wu-a.json",
        &obj(vec![("title", s("scoped")), ("work_unit", s("wu-a"))]),
        2000,
    );

    let protocol = make_protocol(
        TriggerCondition::OnChange { name: "unused".into() },
        &["implementation", "summary"],
        &[],
    );

    assert_eq!(derived_completion_timestamp(&protocol, &store, Some("wu-a"), &Vec::new()), Some(1000));
}

#[test]
fn derived_completion_timestamp_uses_newest_unscoped_output_for_unscoped_work() {
    let mut store = make_store(vec!["implementation"]);
    record_at(&mut store, "implementation", "shared-old", "shared-old.json", &title("old"), 1000);
    record_at(&mut store, "implementation", "shared-new", "shared-new.json", &title("new"), 2000);

    let protocol = make_protocol(TriggerCondition::OnChange { name: "unused".into() }, &["implementation"], &[]);

    assert_eq!(derived_completion_timestamp(&protocol, &store, None, &Vec::new()), Some(2000));
}

#[test]
fn derived_completion_timestamp_uses_oldest_per_type_maximum() {
    let mut store = make_store(vec!["implementation", "review"]);
    record_at(&mut store, "implementation", "impl-old", "impl-old.json", &title("old"), 1000);
    record_at(&mut store, "implementation", "impl-new", "impl-new.json", &title("new"), 2500);
    record_at(&mut store, "review", "review-current", "review.json", &title("review"), 2000);

    let protocol = make_protocol(
        TriggerCondition::OnChange { name: "unused".into() },
        &["implementation", "review"],
        &[],
    );

    assert_eq!(derived_completion_timestamp(&protocol, &store, None, &Vec::new()), Some(2000));
}

#[test]
fn on_change_satisfied_when_required_outputs_are_partially_scanned() {
    let mut store = make_store(vec!["doc", "implementation"]);
    record_at(&mut store, "doc", "a", "a.json", &title("A"), 1000);
    record_at(&mut store, "implementation", "a", "impl.json", &title("done"), 2000);

    let partial = vec!["implementation".to_string()];
    let c = ctx(&store, None, &partial);
    let cond = TriggerCondition::OnChange { name: "doc".into() };
    let protocol = make_protocol(dup(&cond), &["implementation"], &[]);
    assert_eq!(evaluate_trigger(&cond, &protocol, &c), TriggerResult::Satisfied);
}

// --- OnInvalid ---

#[test]
fn on_invalid_satisfied_with_invalid_instance() {
    let mut store = make_store(vec!["doc"]);
    record(&mut store, "doc", "bad", "b.json", &obj(vec![("bad", JsonValue::Bool(true))]));

    let partials = no_partials();
    let c = ctx(&store, None, &partials);
    let cond = TriggerCondition::OnInvalid { name: "doc".into() };
    assert_eq!(evaluate(&cond, &c, "protocol"), TriggerResult::Satisfied);
}

#[test]
fn on_invalid_satisfied_with_malformed_instance() {
    let mut store = make_store(vec!["doc"]);
    store.record_malformed("doc", "bad", "b.json", b"not json", "expected value".to_string()).unwrap();

    let partials = no_partials();
    let c = ctx(&store, None, &partials);
    let cond = TriggerCondition::OnInvalid { name: "doc".into() };
    assert_eq!(evaluate(&cond, &c, "protocol"), TriggerResult::Satisfied);
}

#[test]
fn on_invalid_not_satisfied_when_all_valid() {
    let mut store = make_store(vec!["doc"]);
    record(&mut store, "doc", "a", "a.json", &title("A"));

    let partials = no_partials();
    let c = ctx(&store, None, &partials);
    let cond = TriggerCondition::OnInvalid { name: "doc".into() };
    assert!(matches!(evaluate(&cond, &c, "protocol"), TriggerResult::NotSatisfied(_)));
}

#[test]
fn on_invalid_not_satisfied_when_no_instances() {
    let store = make_store(vec!["doc"]);

    let partials = no_partials();
    let c = ctx(&store, None, &partials);
    let cond = TriggerCondition::OnInvalid { name: "doc".into() };
    assert!(matches!(evaluate(&cond, &c, "protocol"), TriggerResult::NotSatisfied(_)));
}

#[test]
fn on_invalid_not_satisfied_when_stale() {
    let mut store = make_store(vec!["doc"]);
    record(&mut store, "doc", "a", "a.json", &title("A"));
    store.invalidate("doc", "a");

    let partials = no_partials();
    let c = ctx(&store, None, &partials);
    let cond = TriggerCondition::OnInvalid { name: "doc".into() };
    // Stale is not Invalid — should not satisfy on_invalid.
    assert!(matches!(evaluate(&cond, &c, "protocol"), TriggerResult::NotSatisfied(_)));
}

// --- AllOf ---

#[test]
fn all_of_satisfied_when_all_children_satisfied() {
    let mut store = make_store(vec!["doc", "review"]);
    record(&mut store, "doc", "a", "a.json", &title("A"));
    record(&mut store, "review", "a", "r.json", &title("R"));

    let partials = no_partials();
    let c = ctx(&store, None, &partials);
    let cond = TriggerCondition::AllOf { conditions: vec![on_artifact("doc"), on_artifact("review")] };
    assert_eq!(evaluate(&cond, &c, "protocol"), TriggerResult::Satisfied);
}

#[test]
fn all_of_not_satisfied_when_one_child_fails() {
    let mut store = make_store(vec!["doc", "review"]);
    record(&mut store, "doc", "a", "a.json", &title("A"));

    let partials = no_partials();
    let c = ctx(&store, None, &partials);
    let cond = TriggerCondition::AllOf { conditions: vec![on_artifact("doc"), on_artifact("review")] };
    assert!(matches!(evaluate(&cond, &c, "protocol"), TriggerResult::NotSatisfied(_)));
}

#[test]
fn all_of_empty_is_satisfied() {
    let store = make_store(vec!["doc"]);
    let partials = no_partials();
    let c = ctx(&store, None, &partials);

    let cond = TriggerCondition::AllOf { conditions: vec![] };
    assert_eq!(evaluate(&cond, &c, "protocol"), TriggerResult::Satisfied);
}

// --- AnyOf ---

#[test]
fn any_of_satisfied_when_one_child_satisfied() {
    let mut store = make_store(vec!["doc", "review"]);
    record(&mut store, "doc", "a", "a.json", &title("A"));

    let partials = no_partials();
    let c = ctx(&store, None, &partials);
    let cond = TriggerCondition::AnyOf { conditions: vec![on_artifact("doc"), on_artifact("review")] };
    assert_eq!(evaluate(&cond, &c, "protocol"), TriggerResult::Satisfied);
}

#[test]
fn any_of_not_satisfied_when_all_children_fail() {
    let store = make_store(vec!["doc", "review"]);
    let partials = no_partials();
    let c = ctx(&store, None, &partials);

    let cond = TriggerCondition::AnyOf { conditions: vec![on_artifact("doc"), on_artifact("review")] };
    assert!(matches!(evaluate(&cond, &c, "protocol"), TriggerResult::NotSatisfied(_)));
}

#[test]
fn any_of_empty_is_not_satisfied() {
    let store = make_store(vec!["doc"]);
    let partials = no_partials();
    let c = ctx(&store, None, &partials);

    let cond = TriggerCondition::AnyOf { conditions: vec![] };
    assert!(matches!(evaluate(&cond, &c, "protocol"), TriggerResult::NotSatisfied(_)));
}

// --- Nested composition ---

#[test]
fn nested_all_of_with_any_of() {
    let mut store = make_store(vec!["doc", "approval", "review"]);
    record(&mut store, "doc", "a", "a.json", &title("A"));
    record(&mut store, "review", "a", "r.json", &title("R"));
    // "approval" has no instances — OnArtifact for it would fail.

    let partials = no_partials();
    let c = ctx(&store, None, &partials);

    // AllOf(OnArtifact("doc"), AnyOf(OnArtifact("review"), OnArtifact("approval")))
    let cond = TriggerCondition::AllOf {
        conditions: vec![
            on_artifact("doc"),
            TriggerCondition::AnyOf { conditions: vec![on_artifact("review"), on_artifact("approval")] },
        ],
    };
    assert_eq!(evaluate(&cond, &c, "protocol"), TriggerResult::Satisfied);
}

#[test]
fn nested_all_of_with_any_of_not_satisfied() {
    let mut store = make_store(vec!["doc", "approval", "review"]);
    record(&mut store, "doc", "a", "a.json", &title("A"));

    let partials = no_partials();
    let c = ctx(&store, None, &partials);

    // doc is valid but neither review nor approval exists → not satisfied.
    let cond = TriggerCondition::AllOf {
        conditions: vec![
            on_artifact("doc"),
            TriggerCondition::AnyOf { conditions: vec![on_artifact("review"), on_artifact("approval")] },
        ],
    };
    assert!(matches!(evaluate(&cond, &c, "protocol"), TriggerResult::NotSatisfied(_)));
}

// --- Work unit scoping ---

#[test]
fn on_artifact_scoped() {
    let mut store = make_store(vec!["doc"]);
    record(&mut store, "doc", "a", "a.json", &obj(vec![("title", s("A")), ("work_unit", s("wu-a"))]));
    record(&mut store, "doc", "b", "b.json", &obj(vec![("bad", JsonValue::Bool(true)), ("work_unit", s("wu-b"))]));

    let partials = no_partials();
    // Scoped to WU-A: only valid instance visible → satisfied.
    let ctx_a = ctx(&store, Some("wu-a"), &partials);
    let cond = on_artifact("doc");
    assert_eq!(evaluate(&cond, &ctx_a, "protocol"), TriggerResult::Satisfied);

    // Scoped to WU-B: only invalid instance visible → not satisfied.
    let ctx_b = ctx(&store, Some("wu-b"), &partials);
    assert!(matches!(evaluate(&cond, &ctx_b, "protocol"), TriggerResult::NotSatisfied(_)));
}

#[test]
fn unpartitioned_visible_to_scoped_trigger() {
    let mut store = make_store(vec!["doc"]);
    // Unpartitioned valid instance.
    record(&mut store, "doc", "shared", "s.json", &title("S"));

    let partials = no_partials();
    let c = ctx(&store, Some("wu-x"), &partials);
    assert_eq!(evaluate(&on_artifact("doc"), &c, "protocol"), TriggerResult::Satisfied);
}

#[test]
fn any_of_reason_joins_child_reasons() {
    let store = make_store(vec!["doc"]);
    let partials = no_partials();
    let c = ctx(&store, None, &partials);

    let cond = TriggerCondition::AnyOf { conditions: vec![on_artifact("doc"), TriggerCondition::OnInvalid { name: "doc".into() }] };
    assert_eq!(
        evaluate(&cond, &c, "protocol"),
        TriggerResult::NotSatisfied(
            "none satisfied: no valid instances of artifact type 'doc' exist; no invalid instances of artifact type 'doc'".into()
        )
    );
}

/// A copy of a trigger condition, node by node.
fn dup(c: &TriggerCondition) -> TriggerCondition {
    match c {
        TriggerCondition::OnArtifact { name } => TriggerCondition::OnArtifact { name: name.clone() },
        TriggerCondition::OnChange { name } => TriggerCondition::OnChange { name: name.clone() },
        TriggerCondition::OnInvalid { name } => TriggerCondition::OnInvalid { name: name.clone() },
        TriggerCondition::AllOf { conditions } => TriggerCondition::AllOf { conditions: conditions.iter().map(dup).collect() },
        TriggerCondition::AnyOf { conditions } => TriggerCondition::AnyOf { conditions: conditions.iter().map(dup).collect() },
    }
}
