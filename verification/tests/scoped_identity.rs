use libagent::entry::{resolve_promise, TicketRef};
use libagent::forge_address::{
    forge_type_from_handle, tracker_identity_from_handle, work_unit_identity_from_handle, ForgeAddressError, ForgeProject,
    ForgeType, RawForgeInstance, RawForges, RawRepository,
};
use libagent::json::JsonValue;
use libagent::model::ArtifactType;
use libagent::scoped_identity::{
    find_work_unit_by_tracker_identity, instance_work_unit_number, validate_deployment_identity, validate_scoped_work_unit,
    validate_scoped_work_unit_with_project, validate_tracker_consistency, work_unit_sources, ScopedWorkUnitError, WorkUnitDocument,
};
use libagent::store::{ArtifactStore, ValidationStatus};

fn work_unit_store() -> ArtifactStore {
    ArtifactStore::new(vec![ArtifactType { name: "work-unit".to_string(), schema: JsonValue::Null }])
}

fn github_project() -> ForgeProject {
    ForgeProject::resolve(RawForges {
        instances: vec![RawForgeInstance {
            id: "github-com".to_string(),
            forge_type: "github".to_string(),
            host: Some("github.com".to_string()),
            git_host: None,
            tracker_host: None,
        }],
        repositories: vec![RawRepository {
            id: "runa".to_string(),
            instance: "github-com".to_string(),
            owner: "tesserine".to_string(),
            name: "runa".to_string(),
        }],
        trackers: Vec::new(),
    })
    .unwrap()
}

fn s(v: &str) -> JsonValue {
    JsonValue::Str(v.to_string())
}

fn handle(forge_tag: &str, tracker_identity: &str, work_unit_identity: Option<&str>, number: u64) -> JsonValue {
    let mut members = vec![
        ("forge_tag".to_string(), s(forge_tag)),
        ("tracker_identity".to_string(), s(tracker_identity)),
    ];
    if let Some(w) = work_unit_identity {
        members.push(("work_unit_identity".to_string(), s(w)));
    }
    members.push(("number".to_string(), JsonValue::Number(number.to_string())));
    JsonValue::Object(members)
}

fn work_unit(forge_tag: &str, number: u64, tracker_identity: &str, work_unit_identity: &str) -> JsonValue {
    JsonValue::Object(vec![
        ("title".to_string(), s("Canonical scope")),
        ("description".to_string(), s("Validate canonical scoped identity")),
        ("acceptance_criteria".to_string(), JsonValue::Array(vec![s("Reject mismatched handles")])),
        ("handle".to_string(), handle(forge_tag, tracker_identity, Some(work_unit_identity), number)),
    ])
}

/// Record the instances and read them back as the caller would: the
/// documents of the valid work-unit instances in id order.
fn record_and_read(store: &mut ArtifactStore, instances: &[(&str, fn() -> JsonValue)]) -> Vec<WorkUnitDocument> {
    for (id, make) in instances {
        store
            .record_with_timestamp("work-unit", id, &format!("/ws/work-unit/{id}.json"), &make(), Ok(()), 1)
            .unwrap();
    }
    work_unit_sources(store)
        .into_iter()
        .map(|(id, path)| {
            let data = instances.iter().find(|(i, _)| format!("/ws/work-unit/{i}.json") == path).map(|(_, make)| make());
            WorkUnitDocument { instance_id: id, data }
        })
        .collect()
}

fn wu_163() -> JsonValue {
    work_unit("github", 163, "github@github.com/tracker/tesserine/runa", "github@github.com/tracker/tesserine/runa#163")
}

#[test]
fn exact_work_unit_id_accepts_matching_full_tracker_identity() {
    let mut store = work_unit_store();
    let docs = record_and_read(&mut store, &[("work-unit-163", wu_163)]);

    let result = validate_scoped_work_unit_with_project(&store, "work-unit-163", &github_project(), &docs);

    assert_eq!(result, Ok(()));
}

#[test]
fn handle_read_rejects_unsupported_forge_type_with_shared_error() {
    fn gitlab() -> JsonValue {
        work_unit("gitlab", 9, "gitlab@example/tracker/tesserine/runa", "gitlab@example/tracker/tesserine/runa#9")
    }
    let mut store = work_unit_store();
    let docs = record_and_read(&mut store, &[("work-unit-9", gitlab)]);

    let error = validate_scoped_work_unit_with_project(&store, "work-unit-9", &github_project(), &docs).unwrap_err();

    assert!(matches!(
        error,
        ScopedWorkUnitError::ForgeAddress(ForgeAddressError::UnsupportedForgeType { forge_type })
            if forge_type == "gitlab"
    ));
}

#[test]
fn exact_work_unit_id_rejects_duplicate_tracker_roots() {
    let mut store = work_unit_store();
    let docs = record_and_read(&mut store, &[("work-unit-163-a", wu_163), ("work-unit-163-b", wu_163)]);

    let error = validate_scoped_work_unit_with_project(&store, "work-unit-163-a", &github_project(), &docs).unwrap_err();

    assert!(matches!(
        error,
        ScopedWorkUnitError::DuplicateTrackerRoots { tracker_identity, .. }
            if tracker_identity == "github@github.com/tracker/tesserine/runa#163"
    ));
}

#[test]
fn exact_work_unit_id_rejects_explicit_identity_that_disagrees_with_handle_number() {
    fn disagreeing() -> JsonValue {
        work_unit("github", 163, "github@github.com/tracker/tesserine/runa", "github@github.com/tracker/tesserine/runa#164")
    }
    let mut store = work_unit_store();
    let docs = record_and_read(&mut store, &[("work-unit-163", disagreeing)]);

    let error = validate_scoped_work_unit_with_project(&store, "work-unit-163", &github_project(), &docs).unwrap_err();

    assert!(matches!(
        error,
        ScopedWorkUnitError::ForgeAddress(ForgeAddressError::MalformedPayload(detail))
            if detail.contains("work_unit_identity")
                && detail.contains("github@github.com/tracker/tesserine/runa#164")
                && detail.contains("github@github.com/tracker/tesserine/runa#163")
    ));
}

#[test]
fn unknown_scoped_work_unit_lists_the_recorded_ids() {
    let mut store = work_unit_store();
    let docs = record_and_read(&mut store, &[("work-unit-163", wu_163)]);

    let error = validate_scoped_work_unit(&store, "work-unit-7", &docs).unwrap_err();

    assert_eq!(
        error,
        ScopedWorkUnitError::NonCanonical { supplied: "work-unit-7".to_string(), available: vec!["work-unit-163".to_string()] }
    );
    assert!(validate_scoped_work_unit(&work_unit_store(), "anything", &Vec::new()).is_ok());
}

#[test]
fn tracker_numbers_come_from_instance_ids() {
    assert_eq!(instance_work_unit_number("work-unit-163"), Some(163));
    assert_eq!(instance_work_unit_number("work-unit-163-a"), Some(163));
    assert_eq!(instance_work_unit_number("work-unit-"), None);
    assert_eq!(instance_work_unit_number("unit-163"), None);
    assert_eq!(instance_work_unit_number("work-unit-x1"), None);

    fn misnumbered() -> JsonValue {
        work_unit("github", 163, "github@github.com/tracker/tesserine/runa", "github@github.com/tracker/tesserine/runa#163")
    }
    let mut store = work_unit_store();
    let docs = record_and_read(&mut store, &[("work-unit-164", misnumbered)]);
    assert_eq!(
        validate_tracker_consistency(&docs, &github_project()),
        Err(ScopedWorkUnitError::TrackerNumberDisagreement { instance_id: "work-unit-164".to_string(), handle_number: 163 })
    );
    let docs = record_and_read(&mut work_unit_store(), &[("legacy", misnumbered)]);
    assert_eq!(
        validate_tracker_consistency(&docs, &github_project()),
        Err(ScopedWorkUnitError::TrackerNumberParseFailure { instance_id: "legacy".to_string() })
    );
}

#[test]
fn handles_yield_their_identities() {
    let h = handle("github", "github@github.com/tracker/o/r", None, 5);
    assert_eq!(forge_type_from_handle(&h), Ok(Some(ForgeType::Github)));
    assert_eq!(tracker_identity_from_handle(&h), Ok(Some("github@github.com/tracker/o/r".to_string())));
    assert_eq!(work_unit_identity_from_handle(&h), Ok(Some("github@github.com/tracker/o/r#5".to_string())));
    let untagged = JsonValue::Object(vec![("number".to_string(), JsonValue::Number("5".to_string()))]);
    assert_eq!(forge_type_from_handle(&untagged), Ok(None));
    assert_eq!(work_unit_identity_from_handle(&untagged), Ok(None));
}

#[test]
fn deployment_identity_must_be_a_configured_tracker() {
    let project = github_project();
    assert_eq!(validate_deployment_identity("work-unit-1", "github@github.com/tracker/tesserine/runa", &project), Ok(()));
    let err = validate_deployment_identity("work-unit-1", "github@github.com/tracker/other/repo", &project).unwrap_err();
    assert_eq!(
        err.to_display_string(),
        "work-unit instance 'work-unit-1' belongs to github@github.com/tracker/other/repo, which does not resolve to a configured tracker identity (configured: github@github.com/tracker/tesserine/runa)"
    );
    assert_eq!(validate_deployment_identity("work-unit-1", "anything", &ForgeProject::default()), Ok(()));
}

#[test]
fn promise_resolves_to_the_work_unit_with_the_tickets_identity() {
    let mut store = work_unit_store();
    let docs = record_and_read(&mut store, &[("work-unit-163", wu_163)]);
    let ticket = TicketRef {
        number: 163,
        tracker_identity: "github@github.com/tracker/tesserine/runa".to_string(),
        work_unit_identity: "github@github.com/tracker/tesserine/runa#163".to_string(),
        display: "runa#163".to_string(),
    };

    assert_eq!(resolve_promise(&store, &github_project(), &ticket, &docs), Ok(Some("work-unit-163".to_string())));
    assert_eq!(
        find_work_unit_by_tracker_identity(&docs, "github@github.com/tracker/tesserine/runa#163"),
        Some("work-unit-163".to_string())
    );

    let other = TicketRef { work_unit_identity: "github@github.com/tracker/tesserine/runa#9".to_string(), ..ticket };
    assert_eq!(resolve_promise(&store, &github_project(), &other, &docs), Ok(None));
    store.mark_type_scan_gap("work-unit");
    assert_eq!(
        resolve_promise(&store, &github_project(), &other, &docs),
        Err(ScopedWorkUnitError::WorkUnitScanIncomplete)
    );
}

#[test]
fn only_valid_work_units_are_sources() {
    let mut store = work_unit_store();
    store
        .record_state(
            "work-unit",
            "work-unit-2",
            libagent::store::ArtifactState {
                path: "/ws/work-unit/work-unit-2.json".to_string(),
                status: ValidationStatus::Malformed("bad".to_string()),
                last_modified_ms: 1,
                content_hash: "sha256:x".to_string(),
                schema_hash: "sha256:y".to_string(),
                work_unit: None,
            },
        )
        .unwrap();
    let docs = record_and_read(&mut store, &[("work-unit-163", wu_163)]);
    assert_eq!(docs.len(), 1);
    assert_eq!(docs[0].instance_id, "work-unit-163");
}
