use libagent::entry::{
    check_acquisition_admissible, discover_acquisition_surface, resolve_ticket_reference, AcquisitionBlock, EntryError,
};
use libagent::forge_address::{ForgeAddressError, ForgeProject, RawForgeInstance, RawForges, RawRepository, RawTracker};
use libagent::json::JsonValue;
use libagent::model::{ArtifactType, ProtocolDeclaration, TriggerCondition};
use libagent::store::{ArtifactState, ArtifactStore, ValidationStatus};

fn project(trackers: Vec<RawTracker>) -> ForgeProject {
    ForgeProject::resolve(RawForges {
        instances: vec![
            RawForgeInstance {
                id: "github-com".to_string(),
                forge_type: "github".to_string(),
                host: Some("github.com".to_string()),
                git_host: None,
                tracker_host: None,
            },
            RawForgeInstance {
                id: "weforge".to_string(),
                forge_type: "sourcehut".to_string(),
                host: None,
                git_host: Some("git.weforge.build".to_string()),
                tracker_host: Some("todo.weforge.build".to_string()),
            },
        ],
        repositories: vec![RawRepository {
            id: "runa".to_string(),
            instance: "github-com".to_string(),
            owner: "tesserine".to_string(),
            name: "runa".to_string(),
        }],
        trackers,
    })
    .unwrap()
}

fn weforge_tracker() -> RawTracker {
    RawTracker {
        id: "weforge".to_string(),
        instance: "weforge".to_string(),
        owner: "operator".to_string(),
        name: "weforge".to_string(),
        tracker_id: Some("4".to_string()),
    }
}

fn protocol(name: &str, requires: &[&str], produces: &[&str], may_produce: &[&str], scoped: bool) -> ProtocolDeclaration {
    ProtocolDeclaration {
        name: name.into(),
        requires: requires.iter().map(|s| s.to_string()).collect(),
        accepts: vec![],
        produces: produces.iter().map(|s| s.to_string()).collect(),
        may_produce: may_produce.iter().map(|s| s.to_string()).collect(),
        scoped,
        trigger: TriggerCondition::OnArtifact { name: "request".into() },
        instructions: None,
    }
}

#[test]
fn bare_ticket_reference_resolves_through_one_configured_tracker() {
    let ticket = resolve_ticket_reference("#14", &project(Vec::new())).unwrap();

    assert_eq!(ticket.number, 14);
    assert_eq!(ticket.tracker_identity, "github@github.com/tracker/tesserine/runa");
    assert_eq!(ticket.work_unit_identity, "github@github.com/tracker/tesserine/runa#14");
    assert_eq!(ticket.display, "runa#14");
}

#[test]
fn bare_ticket_reference_is_rejected_when_multiple_trackers_exist() {
    let error = resolve_ticket_reference("14", &project(vec![weforge_tracker()])).unwrap_err();

    assert!(matches!(error, EntryError::ForgeAddress(ForgeAddressError::AmbiguousBareTrackerReference)));
}

#[test]
fn qualified_ticket_reference_selects_configured_tracker() {
    let ticket = resolve_ticket_reference("weforge#9", &project(vec![weforge_tracker()])).unwrap();

    assert_eq!(
        ticket.tracker_identity,
        "sourcehut@git=git.weforge.build,tracker=todo.weforge.build/tracker/~operator/weforge/4"
    );
    assert_eq!(
        ticket.work_unit_identity,
        "sourcehut@git=git.weforge.build,tracker=todo.weforge.build/tracker/~operator/weforge/4#9"
    );
}

#[test]
fn malformed_references_are_invalid() {
    for raw in ["", "#", "abc", "#0x1", "runa#", "a/b#3", "#-1"] {
        let error = resolve_ticket_reference(raw, &project(Vec::new())).unwrap_err();
        assert!(matches!(&error, EntryError::InvalidReference { supplied } if supplied == raw), "{raw}");
    }
}

#[test]
fn unknown_tracker_selector_is_a_forge_address_error() {
    let error = resolve_ticket_reference("nowhere#3", &project(Vec::new())).unwrap_err();
    assert!(matches!(error, EntryError::ForgeAddress(ForgeAddressError::UnknownTrackerSelector(_))));
}

#[test]
fn entry_error_messages() {
    assert_eq!(
        EntryError::InvalidReference { supplied: "x".into() }.to_display_string(),
        "'x' is not a recognized forge ticket reference; expected a ticket number, '#N', or '<tracker>#N'"
    );
    assert_eq!(
        EntryError::NoAcquisitionSurface { scoped_producers: vec![] }.to_display_string(),
        "methodology declares no unscoped producer of 'work-unit'; cold-start ticket entry is unavailable"
    );
    assert_eq!(
        EntryError::NoAcquisitionSurface { scoped_producers: vec!["a".into(), "b".into()] }.to_display_string(),
        "methodology declares no unscoped producer of 'work-unit'; cold-start ticket entry is unavailable (scoped producers: a, b)"
    );
    assert_eq!(
        EntryError::AmbiguousAcquisitionSurface { candidates: vec!["a".into(), "b".into()] }.to_display_string(),
        "more than one unscoped protocol produces 'work-unit' (a, b); cold-start ticket entry requires a single acquisition surface"
    );
    assert_eq!(
        EntryError::Unresolved { reference: "runa#4".into() }.to_display_string(),
        "acquisition from ticket runa#4 completed but produced no 'work-unit' matching the reference"
    );
}

#[test]
fn acquisition_surface_is_the_single_unscoped_producer() {
    let protocols = vec![
        protocol("take", &[], &["work-unit"], &[], false),
        protocol("rescope", &[], &["work-unit"], &[], true),
        protocol("review", &["work-unit"], &["review"], &[], true),
    ];
    let surface = discover_acquisition_surface(&protocols).unwrap();
    assert_eq!(surface.name, "take");
}

#[test]
fn acquisition_surface_errors_name_the_producers() {
    let none = vec![protocol("rescope", &[], &[], &["work-unit"], true)];
    assert!(matches!(
        discover_acquisition_surface(&none).unwrap_err(),
        EntryError::NoAcquisitionSurface { scoped_producers } if scoped_producers == vec!["rescope".to_string()]
    ));
    let many = vec![protocol("a", &[], &["work-unit"], &[], false), protocol("b", &[], &[], &["work-unit"], false)];
    assert!(matches!(
        discover_acquisition_surface(&many).unwrap_err(),
        EntryError::AmbiguousAcquisitionSurface { candidates } if candidates == vec!["a".to_string(), "b".to_string()]
    ));
}

#[test]
fn acquisition_admission_checks_preconditions_then_scan_trust() {
    let mut store = ArtifactStore::new(vec![ArtifactType { name: "request".into(), schema: JsonValue::Null }]);
    let take = protocol("take", &["request"], &["work-unit"], &[], false);
    assert!(matches!(check_acquisition_admissible(&take, &store, &vec![]), Err(AcquisitionBlock::Precondition(_))));

    store
        .record_state(
            "request",
            "r1",
            ArtifactState {
                path: "request/r1.json".into(),
                status: ValidationStatus::Valid,
                last_modified_ms: 1,
                content_hash: "sha256:a".into(),
                schema_hash: "sha256:b".into(),
                work_unit: None,
            },
        )
        .unwrap();
    assert!(check_acquisition_admissible(&take, &store, &vec![]).is_ok());
    // A partial scan of a trigger-only type is ignored; one of a required type blocks.
    assert!(check_acquisition_admissible(&take, &store, &vec!["other".to_string()]).is_ok());
    let blocked = check_acquisition_admissible(&take, &store, &vec!["request".to_string()]).unwrap_err();
    assert!(matches!(&blocked, AcquisitionBlock::ScanIncomplete(types) if types == &vec!["request".to_string()]));
    assert_eq!(blocked.to_display_string(), "acquisition input artifact type(s) request were only partially scanned");
}
