use libagent::hash::raw_content_hash;
use libagent::json::{canonical_json, JsonValue};
use libagent::model::ArtifactType;
use libagent::store::{content_hash, ArtifactStore, StoreError, ValidationStatus};
use libagent::validation::{ValidationError, Violation};

fn s(v: &str) -> JsonValue {
    JsonValue::Str(v.to_string())
}

fn n(v: i64) -> JsonValue {
    JsonValue::Number(v.to_string())
}

fn obj(members: Vec<(&str, JsonValue)>) -> JsonValue {
    JsonValue::Object(members.into_iter().map(|(k, v)| (k.to_string(), v)).collect())
}

/// An object schema that requires a string `title`.
fn simple_schema() -> JsonValue {
    obj(vec![
        ("type", s("object")),
        ("properties", obj(vec![("title", obj(vec![("type", s("string"))]))])),
        ("required", JsonValue::Array(vec![s("title")])),
    ])
}

fn make_artifact_type(name: &str, schema: JsonValue) -> ArtifactType {
    ArtifactType { name: name.into(), schema }
}

fn make_store(types: Vec<&str>) -> ArtifactStore {
    ArtifactStore::new(types.into_iter().map(|name| make_artifact_type(name, simple_schema())).collect())
}

/// The outcome of validating `data` against `simple_schema`: it must be an
/// object with a string `title`.
fn validate(artifact_type: &str, data: &JsonValue) -> Result<(), ValidationError> {
    let has_title = match data {
        JsonValue::Object(members) => members.iter().any(|(k, v)| k == "title" && matches!(v, JsonValue::Str(_))),
        _ => false,
    };
    if has_title {
        Ok(())
    } else {
        Err(ValidationError::InvalidArtifact {
            artifact_type: artifact_type.to_string(),
            violations: vec![Violation {
                artifact_type: artifact_type.to_string(),
                description: "\"title\" is a required property".to_string(),
                schema_path: "/required".to_string(),
                instance_path: "".to_string(),
            }],
        })
    }
}

fn record(store: &mut ArtifactStore, t: &str, id: &str, path: &str, data: &JsonValue) -> Result<(), StoreError> {
    store.record(t, id, path, data, validate(t, data))
}

fn record_at(store: &mut ArtifactStore, t: &str, id: &str, path: &str, data: &JsonValue, ms: u64) -> Result<(), StoreError> {
    store.record_with_timestamp(t, id, path, data, validate(t, data), ms)
}

#[test]
fn record_valid_artifact() {
    let mut store = make_store(vec!["report"]);

    let data = obj(vec![("title", s("Q1")), ("score", n(95))]);
    let path = "reports/q1.json";
    record(&mut store, "report", "q1", path, &data).unwrap();

    let state = store.get("report", "q1").unwrap();
    assert_eq!(state.status, ValidationStatus::Valid);
    assert_eq!(state.path, path);
    assert!(state.content_hash.starts_with("sha256:"));
    assert_eq!(state.schema_hash, content_hash(&simple_schema()));
    assert!(state.last_modified_ms > 0);
}

#[test]
fn record_invalid_artifact() {
    let mut store = make_store(vec!["report"]);

    let data = obj(vec![("score", n(42))]); // missing required "title"
    record(&mut store, "report", "bad", "r.json", &data).unwrap();

    let state = store.get("report", "bad").unwrap();
    match &state.status {
        ValidationStatus::Invalid(violations) => {
            assert!(!violations.is_empty());
        }
        other => panic!("expected Invalid, got: {other:?}"),
    }
}

#[test]
fn record_malformed_artifact() {
    let mut store = make_store(vec!["report"]);

    store
        .record_malformed("report", "bad", "bad.json", br#"{ not json }"#, "expected value".to_string())
        .unwrap();

    let state = store.get("report", "bad").unwrap();
    assert_eq!(state.status, ValidationStatus::Malformed("expected value".to_string()));
    assert_eq!(state.content_hash, raw_content_hash(br#"{ not json }"#));
    assert_eq!(state.schema_hash, content_hash(&simple_schema()));
}

#[test]
fn unknown_artifact_type_errors() {
    let mut store = make_store(vec!["report"]);

    let result = record(&mut store, "nonexistent", "x", "x.json", &obj(vec![]));
    assert!(matches!(
        result,
        Err(StoreError::UnknownArtifactType(ref name)) if name == "nonexistent"
    ));
}

#[test]
fn is_valid_true_for_valid_false_for_invalid_malformed_stale_missing() {
    let mut store = make_store(vec!["report"]);

    // No instances recorded — false.
    assert!(!store.is_valid("report", None));

    // Record valid instance.
    record(&mut store, "report", "good", "g.json", &obj(vec![("title", s("ok"))])).unwrap();
    assert!(store.is_valid("report", None));

    // Invalid, in a second store.
    let mut store2 = ArtifactStore::new(vec![make_artifact_type("report", simple_schema())]);
    record(&mut store2, "report", "bad", "b.json", &obj(vec![("score", n(1))])).unwrap();
    assert!(!store2.is_valid("report", None));

    // Malformed.
    let mut store4 = make_store(vec!["report"]);
    store4.record_malformed("report", "m", "m.json", b"not json", "expected value".to_string()).unwrap();
    assert!(!store4.is_valid("report", None));

    // Stale.
    let mut store3 = make_store(vec!["report"]);
    record(&mut store3, "report", "s", "s.json", &obj(vec![("title", s("ok"))])).unwrap();
    store3.invalidate("report", "s");
    assert!(!store3.is_valid("report", None));

    // Missing type entirely.
    assert!(!store.is_valid("nonexistent", None));
}

#[test]
fn invalidate_marks_stale() {
    let mut store = make_store(vec!["report"]);

    record(&mut store, "report", "r1", "r1.json", &obj(vec![("title", s("ok"))])).unwrap();
    assert_eq!(store.get("report", "r1").unwrap().status, ValidationStatus::Valid);

    store.invalidate("report", "r1");
    assert_eq!(store.get("report", "r1").unwrap().status, ValidationStatus::Stale);
}

#[test]
fn canonical_json_deterministic() {
    // Nested objects — canonical_json must sort keys at every level.
    let val1 = obj(vec![("z", n(1)), ("a", obj(vec![("y", n(2)), ("x", n(1))]))]);
    let val2 = obj(vec![("a", obj(vec![("x", n(1)), ("y", n(2))])), ("z", n(1))]);
    assert_eq!(canonical_json(&val1), canonical_json(&val2));

    // Verify the actual format: sorted keys, no whitespace.
    assert_eq!(canonical_json(&val1), r#"{"a":{"x":1,"y":2},"z":1}"#);
}

#[test]
fn content_hash_changes_on_different_data() {
    let mut store = make_store(vec!["report"]);

    let data1 = obj(vec![("title", s("first"))]);
    let data2 = obj(vec![("title", s("second"))]);

    record(&mut store, "report", "r1", "r1.json", &data1).unwrap();
    record(&mut store, "report", "r2", "r2.json", &data2).unwrap();

    let hash1 = &store.get("report", "r1").unwrap().content_hash;
    let hash2 = &store.get("report", "r2").unwrap().content_hash;
    assert_ne!(hash1, hash2);
}

#[test]
fn invalidate_noop_on_missing() {
    let mut store = make_store(vec!["report"]);

    // No panic and no change for unrecorded instances.
    store.invalidate("report", "nonexistent");
    store.invalidate("nonexistent", "anything");
    assert!(store.all_instance_keys().is_empty());
}

#[test]
fn multiple_instances_of_same_type() {
    let mut store = make_store(vec!["report"]);

    record(&mut store, "report", "alpha", "a.json", &obj(vec![("title", s("A"))])).unwrap();
    record(&mut store, "report", "beta", "b.json", &obj(vec![("title", s("B"))])).unwrap();

    let a = store.get("report", "alpha").unwrap();
    let b = store.get("report", "beta").unwrap();
    assert_eq!(a.path, "a.json");
    assert_eq!(b.path, "b.json");
    assert_ne!(a.content_hash, b.content_hash);
}

#[test]
fn is_valid_checks_all_instances() {
    let mut store = make_store(vec!["report"]);

    // One valid instance.
    record(&mut store, "report", "good", "g.json", &obj(vec![("title", s("ok"))])).unwrap();
    assert!(store.is_valid("report", None));

    // Add one invalid instance — is_valid must now be false.
    record(&mut store, "report", "bad", "b.json", &obj(vec![("score", n(1))])).unwrap();
    assert!(!store.is_valid("report", None));
}

#[test]
fn has_any_invalid_true_with_invalid_instance() {
    let mut store = make_store(vec!["report"]);

    record(&mut store, "report", "bad", "b.json", &obj(vec![("score", n(1))])).unwrap();
    assert!(store.has_any_invalid("report", None));
}

#[test]
fn has_any_invalid_true_with_malformed_instance() {
    let mut store = make_store(vec!["report"]);

    store.record_malformed("report", "bad", "b.json", b"not json", "oops".to_string()).unwrap();
    assert!(store.has_any_invalid("report", None));
}

#[test]
fn has_any_invalid_false_when_all_valid() {
    let mut store = make_store(vec!["report"]);

    record(&mut store, "report", "good", "g.json", &obj(vec![("title", s("ok"))])).unwrap();
    assert!(!store.has_any_invalid("report", None));
}

#[test]
fn has_any_invalid_false_with_no_instances() {
    let store = make_store(vec!["report"]);

    assert!(!store.has_any_invalid("report", None));
}

#[test]
fn latest_modification_ms_returns_max() {
    let mut store = make_store(vec!["report"]);

    record_at(&mut store, "report", "old", "old.json", &obj(vec![("title", s("old"))]), 1000).unwrap();
    record_at(&mut store, "report", "new", "new.json", &obj(vec![("title", s("new"))]), 2000).unwrap();
    assert_eq!(store.latest_modification_ms("report", None), Some(2000));
}

#[test]
fn latest_modification_ms_none_for_missing_type() {
    let store = make_store(vec!["report"]);

    assert_eq!(store.latest_modification_ms("report", None), None);
    assert_eq!(store.latest_modification_ms("nonexistent", None), None);
}

#[test]
fn artifact_type_names_returns_sorted() {
    let store = ArtifactStore::new(vec![
        make_artifact_type("zebra", obj(vec![("type", s("object"))])),
        make_artifact_type("alpha", obj(vec![("type", s("object"))])),
        make_artifact_type("middle", obj(vec![("type", s("object"))])),
    ]);

    assert_eq!(store.artifact_type_names(), vec!["alpha", "middle", "zebra"]);
}

#[test]
fn artifact_type_names_empty_store() {
    let store = ArtifactStore::new(vec![]);

    let names: Vec<String> = store.artifact_type_names();
    assert!(names.is_empty());
}

#[test]
fn artifact_type_names_lists_a_repeated_registration_once() {
    let store = ArtifactStore::new(vec![
        make_artifact_type("report", simple_schema()),
        make_artifact_type("alpha", simple_schema()),
        make_artifact_type("report", obj(vec![("type", s("object"))])),
    ]);

    assert_eq!(store.artifact_type_names(), vec!["alpha", "report"]);
}

#[test]
fn instances_of_returns_sorted_pairs() {
    let mut store = make_store(vec!["report"]);

    record(&mut store, "report", "charlie", "c.json", &obj(vec![("title", s("C"))])).unwrap();
    record(&mut store, "report", "alpha", "a.json", &obj(vec![("title", s("A"))])).unwrap();
    record(&mut store, "report", "bravo", "b.json", &obj(vec![("title", s("B"))])).unwrap();

    let instances = store.instances_of("report", None);
    let ids: Vec<&str> = instances.iter().map(|(id, _)| *id).collect();
    assert_eq!(ids, vec!["alpha", "bravo", "charlie"]);

    // Verify state is accessible.
    assert_eq!(instances[0].1.path, "a.json");
    assert_eq!(instances[1].1.path, "b.json");
    assert_eq!(instances[2].1.path, "c.json");
}

#[test]
fn instances_of_unknown_type_returns_empty() {
    let store = make_store(vec!["report"]);

    assert!(store.instances_of("nonexistent", None).is_empty());
}

#[test]
fn instances_of_mixed_valid_invalid() {
    let mut store = make_store(vec!["report"]);

    // Valid instance.
    record(&mut store, "report", "good", "g.json", &obj(vec![("title", s("ok"))])).unwrap();
    // Invalid instance (missing required "title").
    record(&mut store, "report", "bad", "b.json", &obj(vec![("score", n(1))])).unwrap();

    let instances = store.instances_of("report", None);
    assert_eq!(instances.len(), 2);

    // Sorted: "bad" before "good".
    assert_eq!(instances[0].0, "bad");
    assert!(matches!(instances[0].1.status, ValidationStatus::Invalid(_)));

    assert_eq!(instances[1].0, "good");
    assert_eq!(instances[1].1.status, ValidationStatus::Valid);
}

#[test]
fn all_instance_keys_returns_sorted_keys() {
    let mut store = make_store(vec!["a", "b"]);

    record(&mut store, "b", "two", "b2.json", &obj(vec![("title", s("B"))])).unwrap();
    record(&mut store, "a", "one", "a1.json", &obj(vec![("title", s("A"))])).unwrap();

    assert_eq!(
        store.all_instance_keys(),
        vec![("a".to_string(), "one".to_string()), ("b".to_string(), "two".to_string())]
    );
}

#[test]
fn update_path_changes_only_the_path() {
    let mut store = make_store(vec!["report"]);

    record(&mut store, "report", "item", "old/item.json", &obj(vec![("title", s("ok"))])).unwrap();

    let before = store.get("report", "item").unwrap().clone();
    store.update_path("report", "item", "new/item.json");

    let after = store.get("report", "item").unwrap();
    assert_eq!(after.path, "new/item.json");
    assert_eq!(after.status, before.status);
    assert_eq!(after.content_hash, before.content_hash);
    assert_eq!(after.schema_hash, before.schema_hash);
    assert_eq!(after.last_modified_ms, before.last_modified_ms);
}

#[test]
fn remove_deletes_the_recorded_state() {
    let mut store = make_store(vec!["report"]);

    record(&mut store, "report", "gone", "gone.json", &obj(vec![("title", s("gone"))])).unwrap();
    store.remove("report", "gone");

    assert!(store.get("report", "gone").is_none());
    assert!(!store.is_valid("report", None));
    assert!(!store.has_any_invalid("report", None));
    assert!(store.instances_of("report", None).is_empty());
}

// --- Work unit scoping ---

#[test]
fn record_extracts_work_unit_from_json() {
    let mut store = make_store(vec!["report"]);

    record(&mut store, "report", "r1", "r1.json", &obj(vec![("title", s("ok")), ("work_unit", s("wu-1"))])).unwrap();

    assert_eq!(store.get("report", "r1").unwrap().work_unit, Some("wu-1".to_string()));
}

#[test]
fn scan_gap_without_store_record_affects_all_scoped_work_units() {
    let mut store = make_store(vec!["report"]);

    store.mark_instance_scan_gap("report", "hidden");

    assert!(store.scan_gap_affects_work_unit("report", Some("wu-a")));
    assert!(store.scan_gap_affects_work_unit("report", Some("wu-b")));
}

#[test]
fn record_sets_none_when_work_unit_absent() {
    let mut store = make_store(vec!["report"]);

    record(&mut store, "report", "r1", "r1.json", &obj(vec![("title", s("ok"))])).unwrap();

    assert_eq!(store.get("report", "r1").unwrap().work_unit, None);
}

#[test]
fn record_malformed_sets_none_work_unit() {
    let mut store = make_store(vec!["report"]);

    store.record_malformed("report", "bad", "b.json", b"not json", "oops".to_string()).unwrap();

    assert_eq!(store.get("report", "bad").unwrap().work_unit, None);
}

#[test]
fn is_valid_scoped() {
    let mut store = make_store(vec!["report"]);

    // Valid in WU-A.
    record(&mut store, "report", "a1", "a1.json", &obj(vec![("title", s("ok")), ("work_unit", s("wu-a"))])).unwrap();
    // Invalid in WU-B.
    record(&mut store, "report", "b1", "b1.json", &obj(vec![("score", n(1)), ("work_unit", s("wu-b"))])).unwrap();

    // Scoped to WU-A: only sees the valid instance.
    assert!(store.is_valid("report", Some("wu-a")));
    // Scoped to WU-B: only sees the invalid instance.
    assert!(!store.is_valid("report", Some("wu-b")));
    // Unscoped: sees both, invalid blocks.
    assert!(!store.is_valid("report", None));
}

#[test]
fn instances_of_scoped_includes_unpartitioned() {
    let mut store = make_store(vec!["report"]);

    // Unpartitioned instance (no work_unit).
    record(&mut store, "report", "shared", "shared.json", &obj(vec![("title", s("shared"))])).unwrap();
    // WU-A instance.
    record(&mut store, "report", "a1", "a1.json", &obj(vec![("title", s("A")), ("work_unit", s("wu-a"))])).unwrap();

    let scoped = store.instances_of("report", Some("wu-a"));
    let ids: Vec<&str> = scoped.iter().map(|(id, _)| *id).collect();
    assert_eq!(ids, vec!["a1", "shared"]);
}

#[test]
fn instances_of_scoped_excludes_other() {
    let mut store = make_store(vec!["report"]);

    record(&mut store, "report", "a1", "a1.json", &obj(vec![("title", s("A")), ("work_unit", s("wu-a"))])).unwrap();
    record(&mut store, "report", "b1", "b1.json", &obj(vec![("title", s("B")), ("work_unit", s("wu-b"))])).unwrap();

    let scoped = store.instances_of("report", Some("wu-b"));
    let ids: Vec<&str> = scoped.iter().map(|(id, _)| *id).collect();
    assert_eq!(ids, vec!["b1"]);
}

#[test]
fn has_any_invalid_scoped() {
    let mut store = make_store(vec!["report"]);

    // Invalid in WU-A.
    record(&mut store, "report", "bad", "bad.json", &obj(vec![("score", n(1)), ("work_unit", s("wu-a"))])).unwrap();
    // Valid in WU-B.
    record(&mut store, "report", "good", "good.json", &obj(vec![("title", s("ok")), ("work_unit", s("wu-b"))])).unwrap();

    assert!(store.has_any_invalid("report", Some("wu-a")));
    assert!(!store.has_any_invalid("report", Some("wu-b")));
}

#[test]
fn latest_modification_ms_scoped() {
    let mut store = make_store(vec!["report"]);

    record_at(&mut store, "report", "a1", "a1.json", &obj(vec![("title", s("A")), ("work_unit", s("wu-a"))]), 1000).unwrap();
    record_at(&mut store, "report", "b1", "b1.json", &obj(vec![("title", s("B")), ("work_unit", s("wu-b"))]), 2000).unwrap();

    assert_eq!(store.latest_modification_ms("report", Some("wu-a")), Some(1000));
    assert_eq!(store.latest_modification_ms("report", Some("wu-b")), Some(2000));
    assert_eq!(store.latest_modification_ms("report", None), Some(2000));
}

#[test]
fn store_malformed_preserves_previous_work_unit() {
    let mut store = make_store(vec!["report"]);

    // Record valid artifact with work_unit.
    record(&mut store, "report", "r1", "r1.json", &obj(vec![("title", s("ok")), ("work_unit", s("wu-1"))])).unwrap();
    assert_eq!(store.get("report", "r1").unwrap().work_unit, Some("wu-1".to_string()));

    // Now record it as malformed, passing previous work_unit.
    store
        .record_malformed_with_timestamp("report", "r1", "r1.json", b"{ nope }", "parse error".to_string(), 2000, Some("wu-1".to_string()))
        .unwrap();

    let state = store.get("report", "r1").unwrap();
    assert!(matches!(state.status, ValidationStatus::Malformed(_)));
    assert_eq!(state.work_unit, Some("wu-1".to_string()));
}

#[test]
fn store_malformed_without_prior_state_gets_none() {
    let mut store = make_store(vec!["report"]);

    store.record_malformed("report", "r1", "r1.json", b"{ nope }", "oops".to_string()).unwrap();

    assert_eq!(store.get("report", "r1").unwrap().work_unit, None);
}

#[test]
fn store_has_any_invalid_scoped_with_malformed() {
    let mut store = make_store(vec!["report"]);

    // Malformed artifact scoped to wu-b.
    store
        .record_malformed_with_timestamp("report", "bad", "bad.json", b"{ nope }", "oops".to_string(), 1000, Some("wu-b".to_string()))
        .unwrap();

    // Not visible to wu-a.
    assert!(!store.has_any_invalid("report", Some("wu-a")));
    // Visible to wu-b.
    assert!(store.has_any_invalid("report", Some("wu-b")));
    // Visible unscoped.
    assert!(store.has_any_invalid("report", None));
}

#[test]
fn invalid_schema_outcome_records_nothing() {
    let mut store = make_store(vec!["report"]);

    let result = store.record_with_timestamp(
        "report",
        "r1",
        "r1.json",
        &obj(vec![("title", s("ok"))]),
        Err(ValidationError::InvalidSchema { artifact_type: "report".to_string(), detail: "bad schema".to_string() }),
        1000,
    );
    assert!(matches!(
        result,
        Err(StoreError::InvalidSchema { ref artifact_type, ref detail }) if artifact_type == "report" && detail == "bad schema"
    ));
    assert!(store.get("report", "r1").is_none());
}
