use libagent::json::JsonValue;
use libagent::model::ArtifactType;
use libagent::scan::{
    instance_id_of, scan, scan_at, FileContent, PartiallyScannedType, ScanError, ScanResult, TypeDirEntry, TypeDirListing,
    UnreadableArtifact, Workspace, WorkspaceDir,
};
use libagent::store::{content_hash, ArtifactState, ArtifactStore, ValidationStatus};
use libagent::validation::{ValidationError, Violation};

const WS: &str = "/tmp/work/workspace";

fn title_schema() -> JsonValue {
    JsonValue::Object(vec![
        ("type".to_string(), JsonValue::Str("object".to_string())),
        (
            "required".to_string(),
            JsonValue::Array(vec![JsonValue::Str("title".to_string())]),
        ),
    ])
}

fn title_status_schema() -> JsonValue {
    JsonValue::Object(vec![
        ("type".to_string(), JsonValue::Str("object".to_string())),
        (
            "required".to_string(),
            JsonValue::Array(vec![
                JsonValue::Str("title".to_string()),
                JsonValue::Str("status".to_string()),
            ]),
        ),
    ])
}

fn make_store(types: &[&str]) -> ArtifactStore {
    ArtifactStore::new(
        types
            .iter()
            .map(|t| ArtifactType { name: t.to_string(), schema: title_schema() })
            .collect(),
    )
}

fn doc(title: &str, work_unit: Option<&str>) -> JsonValue {
    let mut members = vec![("title".to_string(), JsonValue::Str(title.to_string()))];
    if let Some(wu) = work_unit {
        members.push(("work_unit".to_string(), JsonValue::Str(wu.to_string())));
    }
    JsonValue::Object(members)
}

fn path_of(t: &str, id: &str) -> String {
    format!("{WS}/{t}/{id}.json")
}

fn parsed(t: &str, id: &str, data: JsonValue) -> TypeDirEntry {
    TypeDirEntry::File {
        path: path_of(t, id),
        file_name: format!("{id}.json"),
        content: FileContent::Parsed { data, validation: Ok(()) },
    }
}

fn invalid(t: &str, id: &str, data: JsonValue) -> TypeDirEntry {
    TypeDirEntry::File {
        path: path_of(t, id),
        file_name: format!("{id}.json"),
        content: FileContent::Parsed {
            data,
            validation: Err(ValidationError::InvalidArtifact {
                artifact_type: t.to_string(),
                violations: vec![Violation {
                    artifact_type: t.to_string(),
                    description: "\"title\" is a required property".to_string(),
                    schema_path: "/required".to_string(),
                    instance_path: "".to_string(),
                }],
            }),
        },
    }
}

fn malformed(t: &str, id: &str) -> TypeDirEntry {
    TypeDirEntry::File {
        path: path_of(t, id),
        file_name: format!("{id}.json"),
        content: FileContent::Malformed {
            bytes: b"{ nope }".to_vec(),
            error: "key must be a string at line 1 column 3".to_string(),
        },
    }
}

fn unreadable_file(t: &str, id: &str) -> TypeDirEntry {
    TypeDirEntry::File {
        path: path_of(t, id),
        file_name: format!("{id}.json"),
        content: FileContent::Unreadable("Permission denied (os error 13)".to_string()),
    }
}

fn dir(name: &str, entries: Vec<TypeDirEntry>) -> WorkspaceDir {
    WorkspaceDir {
        name: name.to_string(),
        path: format!("{WS}/{name}"),
        listing: TypeDirListing::Entries(entries),
    }
}

fn workspace(dirs: Vec<WorkspaceDir>) -> Workspace {
    Workspace::Dirs(dirs)
}

fn record(store: &mut ArtifactStore, t: &str, id: &str, path: &str, data: &JsonValue, ms: u64) {
    store.record_with_timestamp(t, id, path, data, Ok(()), ms).unwrap();
}

#[test]
fn missing_workspace_is_empty_only_for_fresh_store() {
    let mut store = make_store(&["report"]);

    let result = scan(Workspace::Missing(WS.to_string()), &mut store).unwrap();

    assert_eq!(result, ScanResult::default());
}

#[test]
fn missing_workspace_with_existing_state_errors() {
    let mut store = make_store(&["report"]);
    record(&mut store, "report", "alpha", "report/alpha.json", &doc("ok", None), 10);

    let err = scan(Workspace::Missing(WS.to_string()), &mut store).unwrap_err();

    assert!(matches!(err, ScanError::WorkspaceMissing(_)));
    assert_eq!(err.to_display_string(), format!("workspace directory is missing: {WS}"));
    assert!(store.get("report", "alpha").is_some());
}

#[test]
fn schema_change_revalidates_unchanged_file() {
    let artifact_path = path_of("report", "alpha");
    let mut old_store = make_store(&["report"]);
    record(&mut old_store, "report", "alpha", &artifact_path, &doc("ok", None), 1234);
    let mut new_store =
        ArtifactStore::new(vec![ArtifactType { name: "report".to_string(), schema: title_status_schema() }]);
    new_store
        .record_state("report", "alpha", old_store.get("report", "alpha").unwrap().clone())
        .unwrap();

    let result = scan(
        workspace(vec![dir("report", vec![invalid("report", "alpha", doc("ok", None))])]),
        &mut new_store,
    )
    .unwrap();

    assert!(result.new.is_empty());
    assert!(result.modified.is_empty());
    assert_eq!(result.revalidated.len(), 1);
    assert_eq!(new_store.get("report", "alpha").unwrap().last_modified_ms, 1234);
    assert!(matches!(
        new_store.get("report", "alpha").unwrap().status,
        ValidationStatus::Invalid(_)
    ));
}

#[test]
fn empty_dir_returns_empty_result() {
    let mut store = make_store(&["report"]);

    let result = scan(workspace(vec![]), &mut store).unwrap();

    assert_eq!(result, ScanResult::default());
}

#[test]
fn valid_artifact_is_recorded_as_new() {
    let mut store = make_store(&["report"]);

    let result = scan(
        workspace(vec![dir("report", vec![parsed("report", "alpha", doc("ok", None))])]),
        &mut store,
    )
    .unwrap();

    assert_eq!(result.new.len(), 1);
    assert!(result.modified.is_empty());
    assert!(result.revalidated.is_empty());
    assert!(result.invalid.is_empty());
    assert!(result.malformed.is_empty());
    assert_eq!(store.get("report", "alpha").unwrap().status, ValidationStatus::Valid);
}

#[test]
fn invalid_artifact_is_reported_and_recorded() {
    let mut store = make_store(&["report"]);
    let score = JsonValue::Object(vec![("score".to_string(), JsonValue::Number("1".to_string()))]);

    let result = scan(workspace(vec![dir("report", vec![invalid("report", "bad", score)])]), &mut store).unwrap();

    assert_eq!(result.new.len(), 1);
    assert!(result.revalidated.is_empty());
    assert_eq!(result.invalid.len(), 1);
    assert!(matches!(
        store.get("report", "bad").unwrap().status,
        ValidationStatus::Invalid(_)
    ));
}

#[test]
fn malformed_artifact_is_reported_and_recorded() {
    let mut store = make_store(&["report"]);

    let result = scan(workspace(vec![dir("report", vec![malformed("report", "bad")])]), &mut store).unwrap();

    assert_eq!(result.new.len(), 1);
    assert!(result.revalidated.is_empty());
    assert_eq!(result.malformed.len(), 1);
    assert!(matches!(
        store.get("report", "bad").unwrap().status,
        ValidationStatus::Malformed(_)
    ));
}

#[test]
fn modified_artifact_updates_timestamp_and_reports_modified() {
    let mut store = make_store(&["report"]);
    record(&mut store, "report", "item", &path_of("report", "item"), &doc("old", None), 1000);

    let result = scan(
        workspace(vec![dir("report", vec![parsed("report", "item", doc("first", None))])]),
        &mut store,
    )
    .unwrap();

    assert_eq!(result.modified.len(), 1);
    assert!(result.revalidated.is_empty());
    assert!(store.get("report", "item").unwrap().last_modified_ms > 1000);
}

#[test]
fn unrecognized_dir_is_reported() {
    let mut store = make_store(&["report"]);

    let result = scan(workspace(vec![dir("unknown", vec![])]), &mut store).unwrap();

    assert_eq!(result.unrecognized_dirs, vec!["unknown".to_string()]);
}

#[test]
fn removed_artifact_is_deleted_from_store() {
    let mut store = make_store(&["report"]);
    record(&mut store, "report", "old", "report/old.json", &doc("old", None), 10);

    let result = scan(workspace(vec![]), &mut store).unwrap();

    assert_eq!(result.removed.len(), 1);
    assert_eq!(result.removed[0].path, "report/old.json");
    assert!(store.get("report", "old").is_none());
}

#[test]
fn idempotent_scan_has_no_changes_on_second_run() {
    let mut store = make_store(&["report"]);
    let observe = || workspace(vec![dir("report", vec![parsed("report", "alpha", doc("ok", None))])]);

    let first = scan(observe(), &mut store).unwrap();
    let before = store.get("report", "alpha").unwrap().last_modified_ms;
    let second = scan(observe(), &mut store).unwrap();
    let after = store.get("report", "alpha").unwrap().last_modified_ms;

    assert_eq!(first.new.len(), 1);
    assert_eq!(second, ScanResult::default());
    assert_eq!(before, after);
}

#[test]
fn non_json_files_are_ignored() {
    let mut store = make_store(&["report"]);
    let readme = TypeDirEntry::File {
        path: format!("{WS}/report/readme.txt"),
        file_name: "readme.txt".to_string(),
        content: FileContent::Malformed { bytes: b"ignore".to_vec(), error: "not JSON".to_string() },
    };

    let result = scan(workspace(vec![dir("report", vec![readme])]), &mut store).unwrap();

    assert_eq!(result, ScanResult::default());
}

#[test]
fn unchanged_artifact_refreshes_stored_path_when_workspace_moves() {
    let old_path = "/tmp/work/old-workspace/report/item.json";
    let new_path = path_of("report", "item");
    let mut store = make_store(&["report"]);
    record(&mut store, "report", "item", old_path, &doc("ok", None), 1234);

    let result = scan(
        workspace(vec![dir("report", vec![parsed("report", "item", doc("ok", None))])]),
        &mut store,
    )
    .unwrap();
    let state = store.get("report", "item").unwrap();

    assert_eq!(result, ScanResult::default());
    assert_eq!(state.path, new_path);
    assert_eq!(state.last_modified_ms, 1234);
}

#[test]
fn unreadable_file_is_reported_and_affects_all_work_units() {
    let mut store = make_store(&["report"]);
    scan(
        workspace(vec![dir("report", vec![parsed("report", "item", doc("ok", Some("wu-a")))])]),
        &mut store,
    )
    .unwrap();
    let original_state = store.get("report", "item").unwrap().clone();

    let result = scan(workspace(vec![dir("report", vec![unreadable_file("report", "item")])]), &mut store).unwrap();
    let state = store.get("report", "item").unwrap();

    assert_eq!(result.unreadable.len(), 1);
    assert_eq!(result.unreadable[0].path, path_of("report", "item"));
    assert_eq!(
        result.partially_scanned_types,
        vec![PartiallyScannedType { artifact_type: "report".to_string(), unreadable_entries: 1 }]
    );
    assert_eq!(state.path, original_state.path);
    assert_eq!(state.last_modified_ms, original_state.last_modified_ms);
    assert!(store.scan_gap_affects_work_unit("report", Some("wu-a")));
    assert!(store.scan_gap_affects_work_unit("report", Some("wu-b")));
}

#[test]
fn partially_scanned_type_suppresses_removals() {
    let mut store = make_store(&["report"]);
    record(&mut store, "report", "gone", &path_of("report", "gone"), &doc("keep", None), 1234);

    let result = scan(workspace(vec![dir("report", vec![unreadable_file("report", "item")])]), &mut store).unwrap();

    assert!(result.removed.is_empty());
    assert_eq!(
        result.partially_scanned_types,
        vec![PartiallyScannedType { artifact_type: "report".to_string(), unreadable_entries: 1 }]
    );
    assert!(store.get("report", "gone").is_some());
}

#[test]
fn unchanged_artifact_backfills_work_unit() {
    let artifact_path = path_of("report", "item");
    let data = doc("ok", Some("wu-1"));
    let mut store = make_store(&["report"]);
    let schema_hash = store.schema_hash_for("report").unwrap();
    store
        .record_state(
            "report",
            "item",
            ArtifactState {
                path: artifact_path.clone(),
                status: ValidationStatus::Valid,
                last_modified_ms: 1234,
                content_hash: content_hash(&data),
                schema_hash,
                work_unit: None,
            },
        )
        .unwrap();
    assert_eq!(store.get("report", "item").unwrap().work_unit, None);

    let _result = scan(workspace(vec![dir("report", vec![parsed("report", "item", data)])]), &mut store).unwrap();

    assert_eq!(store.get("report", "item").unwrap().work_unit, Some("wu-1".to_string()));
    assert_eq!(store.get("report", "item").unwrap().last_modified_ms, 1234);
}

#[test]
fn unchanged_artifact_without_work_unit_stays_none() {
    let mut store = make_store(&["report"]);
    record(&mut store, "report", "item", &path_of("report", "item"), &doc("ok", None), 1234);
    assert_eq!(store.get("report", "item").unwrap().work_unit, None);

    let result = scan(
        workspace(vec![dir("report", vec![parsed("report", "item", doc("ok", None))])]),
        &mut store,
    )
    .unwrap();

    assert!(result.new.is_empty());
    assert!(result.modified.is_empty());
    assert!(result.revalidated.is_empty());
    assert_eq!(store.get("report", "item").unwrap().work_unit, None);
    assert_eq!(store.get("report", "item").unwrap().last_modified_ms, 1234);
}

#[test]
fn unchanged_artifact_with_work_unit_not_re_recorded() {
    let mut store = make_store(&["report"]);
    record(&mut store, "report", "item", &path_of("report", "item"), &doc("ok", Some("wu-1")), 1234);
    assert_eq!(store.get("report", "item").unwrap().work_unit, Some("wu-1".to_string()));

    let result = scan(
        workspace(vec![dir("report", vec![parsed("report", "item", doc("ok", Some("wu-1")))])]),
        &mut store,
    )
    .unwrap();

    assert!(result.new.is_empty());
    assert!(result.modified.is_empty());
    assert!(result.revalidated.is_empty());
    assert_eq!(store.get("report", "item").unwrap().last_modified_ms, 1234);
}

#[test]
fn malformed_preserves_previous_work_unit() {
    let mut store = make_store(&["report"]);
    scan(
        workspace(vec![dir("report", vec![parsed("report", "item", doc("ok", Some("wu-1")))])]),
        &mut store,
    )
    .unwrap();
    assert_eq!(store.get("report", "item").unwrap().work_unit, Some("wu-1".to_string()));

    scan(workspace(vec![dir("report", vec![malformed("report", "item")])]), &mut store).unwrap();

    let state = store.get("report", "item").unwrap();
    assert!(matches!(state.status, ValidationStatus::Malformed(_)));
    assert_eq!(state.work_unit, Some("wu-1".to_string()));
}

#[test]
fn malformed_without_prior_state_gets_none() {
    let mut store = make_store(&["report"]);

    scan(workspace(vec![dir("report", vec![malformed("report", "item")])]), &mut store).unwrap();

    let state = store.get("report", "item").unwrap();
    assert!(matches!(state.status, ValidationStatus::Malformed(_)));
    assert_eq!(state.work_unit, None);
}

#[test]
fn has_any_invalid_scoped_with_malformed() {
    let mut store = make_store(&["report"]);
    scan(
        workspace(vec![dir(
            "report",
            vec![
                parsed("report", "good", doc("ok", Some("wu-a"))),
                parsed("report", "bad", doc("ok", Some("wu-b"))),
            ],
        )]),
        &mut store,
    )
    .unwrap();
    assert_eq!(store.get("report", "bad").unwrap().work_unit, Some("wu-b".to_string()));

    scan(
        workspace(vec![dir(
            "report",
            vec![parsed("report", "good", doc("ok", Some("wu-a"))), malformed("report", "bad")],
        )]),
        &mut store,
    )
    .unwrap();

    assert!(!store.has_any_invalid("report", Some("wu-a")));
    assert!(store.has_any_invalid("report", Some("wu-b")));
}

#[test]
fn instance_ids_come_from_json_file_names() {
    assert_eq!(instance_id_of("alpha.json"), Some("alpha".to_string()));
    assert_eq!(instance_id_of("a.b.json"), Some("a.b".to_string()));
    assert_eq!(instance_id_of(".json"), None);
    assert_eq!(instance_id_of("alpha.JSON"), None);
    assert_eq!(instance_id_of("alpha.json.bak"), None);
    assert_eq!(instance_id_of("json"), None);
}

#[test]
fn reports_are_ordered_by_name_path_and_key() {
    let mut store = make_store(&["report", "plan"]);
    record(&mut store, "report", "zeta", "report/zeta.json", &doc("z", None), 1);
    record(&mut store, "plan", "beta", "plan/beta.json", &doc("b", None), 1);
    record(&mut store, "report", "alpha", "report/alpha.json", &doc("a", None), 1);
    let report = WorkspaceDir {
        name: "report".to_string(),
        path: format!("{WS}/report"),
        listing: TypeDirListing::Entries(vec![]),
    };
    let dirs = vec![
        dir("zz-notes", vec![]),
        report,
        dir("aa-notes", vec![]),
        dir("plan", vec![]),
    ];

    let result = scan_at(workspace(dirs), &mut store, 99).unwrap();

    assert_eq!(result.unrecognized_dirs, vec!["aa-notes".to_string(), "zz-notes".to_string()]);
    let removed: Vec<(String, String)> =
        result.removed.iter().map(|r| (r.artifact_type.clone(), r.instance_id.clone())).collect();
    assert_eq!(
        removed,
        vec![
            ("plan".to_string(), "beta".to_string()),
            ("report".to_string(), "alpha".to_string()),
            ("report".to_string(), "zeta".to_string()),
        ]
    );
    assert!(store.get("report", "alpha").is_none());
}

#[test]
fn unreadable_entries_are_sorted_by_path_and_counted_per_type() {
    let mut store = make_store(&["report", "plan"]);
    let plan = WorkspaceDir {
        name: "plan".to_string(),
        path: format!("{WS}/plan"),
        listing: TypeDirListing::Unreadable("Permission denied (os error 13)".to_string()),
    };
    let report = dir(
        "report",
        vec![
            unreadable_file("report", "b"),
            TypeDirEntry::Unreadable { path: format!("{WS}/report/a"), error: "stale handle".to_string() },
            parsed("report", "c", doc("ok", None)),
        ],
    );

    let result = scan_at(workspace(vec![report, plan]), &mut store, 5).unwrap();

    assert_eq!(
        result.unreadable,
        vec![
            UnreadableArtifact {
                path: format!("{WS}/plan"),
                error: "Permission denied (os error 13)".to_string()
            },
            UnreadableArtifact { path: format!("{WS}/report/a"), error: "stale handle".to_string() },
            UnreadableArtifact {
                path: path_of("report", "b"),
                error: "Permission denied (os error 13)".to_string()
            },
        ]
    );
    assert_eq!(
        result.partially_scanned_types,
        vec![
            PartiallyScannedType { artifact_type: "plan".to_string(), unreadable_entries: 1 },
            PartiallyScannedType { artifact_type: "report".to_string(), unreadable_entries: 2 },
        ]
    );
    assert_eq!(result.new.len(), 1);
    assert_eq!(store.get("report", "c").unwrap().last_modified_ms, 5);
    assert!(store.scan_gap_affects_work_unit("plan", None));
    assert!(!store.scan_gap_affects_work_unit("other", None));
}

#[test]
fn invalid_schema_fails_the_scan() {
    let mut store = make_store(&["report"]);
    let entry = TypeDirEntry::File {
        path: path_of("report", "alpha"),
        file_name: "alpha.json".to_string(),
        content: FileContent::Parsed {
            data: doc("ok", None),
            validation: Err(ValidationError::InvalidSchema {
                artifact_type: "report".to_string(),
                detail: "bad schema".to_string(),
            }),
        },
    };

    let err = scan_at(workspace(vec![dir("report", vec![entry])]), &mut store, 5).unwrap_err();

    assert!(matches!(err, ScanError::Store(_)));
    assert!(store.get("report", "alpha").is_none());
}

// --- Malformed work_unit preservation ---

#[test]
fn scan_malformed_preserves_previous_work_unit() {
    let mut store = make_store(&["report"]);

    // First, record a valid artifact with work_unit.
    scan(workspace(vec![dir("report", vec![parsed("report", "item", doc("ok", Some("wu-1")))])]), &mut store).unwrap();
    assert_eq!(store.get("report", "item").unwrap().work_unit, Some("wu-1".to_string()));

    // Now make it malformed.
    scan(workspace(vec![dir("report", vec![malformed("report", "item")])]), &mut store).unwrap();

    let state = store.get("report", "item").unwrap();
    assert!(matches!(state.status, ValidationStatus::Malformed(_)));
    assert_eq!(state.work_unit, Some("wu-1".to_string()));
}

#[test]
fn scan_malformed_without_prior_state_gets_none() {
    let mut store = make_store(&["report"]);

    scan(workspace(vec![dir("report", vec![malformed("report", "item")])]), &mut store).unwrap();

    let state = store.get("report", "item").unwrap();
    assert!(matches!(state.status, ValidationStatus::Malformed(_)));
    assert_eq!(state.work_unit, None);
}

#[test]
fn scan_has_any_invalid_scoped_with_malformed() {
    let mut store = make_store(&["report"]);

    // Valid artifacts in wu-a and wu-b.
    scan(
        workspace(vec![dir(
            "report",
            vec![parsed("report", "bad", doc("ok", Some("wu-b"))), parsed("report", "good", doc("ok", Some("wu-a")))],
        )]),
        &mut store,
    )
    .unwrap();
    assert_eq!(store.get("report", "bad").unwrap().work_unit, Some("wu-b".to_string()));

    // Now corrupt the wu-b artifact.
    scan(
        workspace(vec![dir("report", vec![malformed("report", "bad"), parsed("report", "good", doc("ok", Some("wu-a")))])]),
        &mut store,
    )
    .unwrap();

    // Malformed in wu-b is NOT visible to wu-a query.
    assert!(!store.has_any_invalid("report", Some("wu-a")));
    // But IS visible to wu-b query.
    assert!(store.has_any_invalid("report", Some("wu-b")));
}
