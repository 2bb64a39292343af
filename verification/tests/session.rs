use libagent::entry::{EntryError, TicketRef};
use libagent::forge_address::{ForgeProject, RawForgeInstance, RawForges, RawRepository};
use libagent::json::JsonValue;
use libagent::model::{ArtifactType, ProtocolDeclaration, TriggerCondition};
use libagent::selection::EvaluationTopology;
use libagent::session::{
    current_step_changed, ensure_current_step_can_complete, refresh_exhaustion, select_next, CurrentStep, SessionError, SessionState,
};
use libagent::status::{EvaluatedProtocols, ProtocolEntry, ProtocolStatus, TriggerState};
use libagent::store::ArtifactStore;

fn protocol(name: &str, produces: &[&str]) -> ProtocolDeclaration {
    ProtocolDeclaration {
        name: name.into(),
        requires: Vec::new(),
        accepts: Vec::new(),
        produces: produces.iter().map(|s| s.to_string()).collect(),
        may_produce: Vec::new(),
        scoped: true,
        trigger: TriggerCondition::OnArtifact { name: "constraints".into() },
        instructions: None,
    }
}

fn entry(name: &str, wu: &str, status: ProtocolStatus, trigger: TriggerState, conditions: &[&str]) -> ProtocolEntry {
    ProtocolEntry {
        name: name.into(),
        work_unit: Some(wu.into()),
        status,
        trigger,
        inputs: Vec::new(),
        precondition_failures: Vec::new(),
        unsatisfied_conditions: conditions.iter().map(|s| s.to_string()).collect(),
    }
}

fn ready(name: &str, wu: &str) -> ProtocolEntry {
    entry(name, wu, ProtocolStatus::Ready, TriggerState::Satisfied, &[])
}

fn evaluated(ready: Vec<ProtocolEntry>, waiting: Vec<ProtocolEntry>) -> EvaluatedProtocols {
    EvaluatedProtocols {
        topology: EvaluationTopology { status_order: Vec::new(), execution_order: Vec::new(), cycle: None },
        cycle: None,
        ready,
        blocked: Vec::new(),
        waiting,
    }
}

fn step(name: &str, wu: &str) -> CurrentStep {
    CurrentStep { protocol: name.into(), work_unit: Some(wu.into()) }
}

fn store_with(types: &[&str]) -> ArtifactStore {
    ArtifactStore::new(types.iter().map(|t| ArtifactType { name: t.to_string(), schema: JsonValue::Null }).collect())
}

fn title(t: &str) -> JsonValue {
    JsonValue::Object(vec![("title".to_string(), JsonValue::Str(t.to_string())), ("work_unit".to_string(), JsonValue::Str("wu-a".to_string()))])
}

#[test]
fn select_next_skips_exhausted_steps() {
    let protocols = vec![protocol("design", &[]), protocol("build", &[])];
    let ready = vec![ready("design", "wu-a"), ready("build", "wu-a")];

    assert_eq!(select_next(&protocols, &ready, &vec![]), Ok(Some(step("design", "wu-a"))));
    assert_eq!(select_next(&protocols, &ready, &vec![step("design", "wu-a")]), Ok(Some(step("build", "wu-a"))));
    assert_eq!(select_next(&protocols, &ready, &vec![step("design", "wu-a"), step("build", "wu-a")]), Ok(None));
}

#[test]
fn select_next_reports_a_protocol_missing_from_the_manifest() {
    let protocols = vec![protocol("design", &[])];
    let ready = vec![ready("gone", "wu-a")];

    assert_eq!(select_next(&protocols, &ready, &vec![]), Err(SessionError::CurrentStepMissing("gone".into())));
}

#[test]
fn current_step_may_complete_when_ready_or_outputs_current() {
    let s = step("design", "wu-a");
    assert_eq!(ensure_current_step_can_complete(&s, &evaluated(vec![ready("design", "wu-a")], vec![])), Ok(()));
    let current = entry("design", "wu-a", ProtocolStatus::Waiting, TriggerState::Satisfied, &["outputs are current"]);
    assert_eq!(ensure_current_step_can_complete(&s, &evaluated(vec![], vec![current])), Ok(()));
    let untriggered = entry("design", "wu-a", ProtocolStatus::Waiting, TriggerState::NotSatisfied, &["no valid instances"]);
    assert_eq!(
        ensure_current_step_can_complete(&s, &evaluated(vec![], vec![untriggered])),
        Err(SessionError::CurrentStepNotReady("design".into()))
    );
    assert_eq!(
        ensure_current_step_can_complete(&s, &evaluated(vec![ready("design", "wu-b")], vec![])),
        Err(SessionError::CurrentStepNotReady("design".into()))
    );
}

#[test]
fn refresh_exhaustion_adds_or_releases_the_step() {
    let mut exhausted = vec![step("design", "wu-a")];
    refresh_exhaustion(&mut exhausted, &step("build", "wu-a"), true);
    assert_eq!(exhausted.len(), 2);
    refresh_exhaustion(&mut exhausted, &step("design", "wu-a"), false);
    assert_eq!(exhausted, vec![step("build", "wu-a")]);
    refresh_exhaustion(&mut exhausted, &step("build", "wu-a"), true);
    assert_eq!(exhausted, vec![step("build", "wu-a")]);
}

#[test]
fn step_change_compares_protocol_and_work_unit() {
    assert!(!current_step_changed(&None, &None));
    assert!(current_step_changed(&Some(step("a", "wu")), &None));
    assert!(!current_step_changed(&Some(step("a", "wu")), &Some(step("a", "wu"))));
    assert!(current_step_changed(&Some(step("a", "wu")), &Some(step("a", "other"))));
}

#[test]
fn open_requires_a_work_unit() {
    let store = store_with(&[]);
    let r = SessionState::open_with_validator("m".into(), vec![], None, &store, &evaluated(vec![], vec![]), |_p, _s| Ok(()));
    assert!(matches!(r, Err(SessionError::MissingWorkUnit)));
}

#[test]
fn open_selects_first_ready_step_and_honours_the_check() {
    let store = store_with(&[]);
    let ev = evaluated(vec![ready("design", "wu-a")], vec![]);
    let session =
        SessionState::open_with_validator("m".into(), vec![protocol("design", &[])], Some("wu-a".into()), &store, &ev, |p, _s| {
            assert_eq!(p.map(|p| p.name.as_str()), Some("design"));
            Ok(())
        })
        .unwrap();
    assert_eq!(session.current_step(), Some(&step("design", "wu-a")));
    assert_eq!(session.current_protocol().unwrap().name, "design");

    let refused = SessionState::open_with_validator("m".into(), vec![protocol("design", &[])], Some("wu-a".into()), &store, &ev, |_p, _s| {
        Err("no agent".to_string())
    });
    assert!(matches!(refused, Err(SessionError::CurrentStepUnservable(m)) if m == "no agent"));
}

#[test]
fn advance_enforces_postconditions_and_moves_on() {
    let mut store = store_with(&["design-doc"]);
    let protocols = vec![protocol("design", &["design-doc"]), protocol("build", &[])];
    let ev = evaluated(vec![ready("design", "wu-a"), ready("build", "wu-a")], vec![]);
    let mut session = SessionState::open_with_validator("m".into(), protocols, Some("wu-a".into()), &store, &ev, |_p, _s| Ok(())).unwrap();

    // The produced document is missing: the session stays on its step.
    let err = session.advance_with_validator(&store, &ev, vec![], true, |_p, _s| Ok(())).unwrap_err();
    assert!(matches!(err, SessionError::Postcondition(_)));
    assert_eq!(session.current_step(), Some(&step("design", "wu-a")));

    store.record_with_timestamp("design-doc", "d", "d.json", &title("doc"), Ok(()), 10).unwrap();
    let waiting = entry("design", "wu-a", ProtocolStatus::Waiting, TriggerState::Satisfied, &["outputs are current"]);
    let after = evaluated(vec![ready("build", "wu-a")], vec![waiting]);
    let t = session.advance_with_validator(&store, &after, vec!["w".into()], true, |_p, _s| Ok(())).unwrap();
    assert_eq!(t.payload.completed_step, step("design", "wu-a"));
    assert_eq!(t.payload.next_step, Some(step("build", "wu-a")));
    assert!(t.current_step_changed);
    assert_eq!(t.payload.readiness.scan_warnings, vec!["w".to_string()]);
    assert_eq!(t.payload.readiness.protocols.len(), 2);
    assert_eq!(session.current_step(), Some(&step("build", "wu-a")));
}

#[test]
fn advance_refused_by_the_check_leaves_the_session_unchanged() {
    let store = store_with(&[]);
    let protocols = vec![protocol("design", &[]), protocol("build", &[])];
    let ev = evaluated(vec![ready("design", "wu-a"), ready("build", "wu-a")], vec![]);
    let mut session = SessionState::open_with_validator("m".into(), protocols, Some("wu-a".into()), &store, &ev, |_p, _s| Ok(())).unwrap();

    let err = session.advance_with_validator(&store, &ev, vec![], true, |_p, _s| Err("busy".into())).unwrap_err();
    assert!(matches!(err, SessionError::CurrentStepUnservable(_)));
    assert_eq!(session.current_step(), Some(&step("design", "wu-a")));
}

#[test]
fn readiness_fills_an_empty_session_and_keeps_a_held_step() {
    let store = store_with(&[]);
    let protocols = vec![protocol("design", &[]), protocol("build", &[])];
    let empty = evaluated(vec![], vec![]);
    let mut session = SessionState::open_with_validator("m".into(), protocols, Some("wu-a".into()), &store, &empty, |_p, _s| Ok(())).unwrap();
    assert_eq!(session.current_step(), None);

    let ev = evaluated(vec![ready("build", "wu-a")], vec![]);
    let t = session.readiness(&store, &ev, vec![], |_p, _s| Ok(())).unwrap();
    assert!(t.current_step_changed);
    assert_eq!(t.payload.version, 1);
    assert_eq!(t.payload.methodology, "m");
    assert_eq!(t.payload.current_step, Some(step("build", "wu-a")));

    let ev2 = evaluated(vec![ready("design", "wu-a")], vec![]);
    let t2 = session.readiness(&store, &ev2, vec![], |_p, _s| Ok(())).unwrap();
    assert!(!t2.current_step_changed);
    assert_eq!(session.current_step(), Some(&step("build", "wu-a")));
}

#[test]
fn next_context_is_built_for_the_session_work_unit() {
    let store = store_with(&[]);
    let mut design = protocol("design", &["design-doc"]);
    design.instructions = Some("# design\n".into());
    let ev = evaluated(vec![ready("design", "wu-a")], vec![]);
    let session = SessionState::open_with_validator("m".into(), vec![design], Some("wu-a".into()), &store, &ev, |_p, _s| Ok(())).unwrap();

    let context = session.next_context(&store, &ev).unwrap();
    assert_eq!(context.protocol, "design");
    assert_eq!(context.work_unit.as_deref(), Some("wu-a"));
    assert_eq!(context.instructions, "# design\n");
    assert_eq!(context.expected_outputs.produces, vec!["design-doc".to_string()]);

    let gone = evaluated(vec![], vec![]);
    assert_eq!(session.next_context(&store, &gone), Err(SessionError::CurrentStepNotReady("design".into())));
}

fn ticket() -> TicketRef {
    TicketRef {
        number: 7,
        tracker_identity: "github.com/tesserine/runa".to_string(),
        work_unit_identity: "github.com/tesserine/runa#7".to_string(),
        display: "tesserine/runa#7".to_string(),
    }
}

fn forge_project() -> ForgeProject {
    ForgeProject::resolve(RawForges {
        instances: vec![RawForgeInstance {
            id: "github-com".to_string(),
            forge_type: "github".to_string(),
            host: Some("github.com".to_string()),
            git_host: None,
            tracker_host: None,
        }],
        repositories: vec![RawRepository {
            id: "runa".to_string(),
            instance: "github-com".to_string(),
            owner: "tesserine".to_string(),
            name: "runa".to_string(),
        }],
        trackers: vec![],
    })
    .unwrap()
}

fn unscoped(mut p: ProtocolDeclaration) -> ProtocolDeclaration {
    p.scoped = false;
    p
}

#[test]
fn promised_entry_starts_at_the_acquisition_surface() {
    let store = store_with(&["work-unit"]);
    let protocols = vec![protocol("design", &[]), unscoped(protocol("acquire", &["work-unit"]))];
    let session = SessionState::open_entry_with_validator("m".into(), protocols, ticket(), &store, &Vec::new(), |p, _s| {
        assert_eq!(p.map(|p| p.name.as_str()), Some("acquire"));
        Ok(())
    })
    .unwrap();
    assert_eq!(session.current_step(), Some(&CurrentStep { protocol: "acquire".into(), work_unit: None }));
}

#[test]
fn promised_entry_needs_exactly_one_acquisition_surface() {
    let store = store_with(&["work-unit"]);
    let none = SessionState::open_entry_with_validator("m".into(), vec![protocol("design", &[])], ticket(), &store, &Vec::new(), |_p, _s| Ok(()));
    assert!(matches!(none, Err(SessionError::Entry(EntryError::NoAcquisitionSurface { .. }))));
    let two = vec![unscoped(protocol("a", &["work-unit"])), unscoped(protocol("b", &["work-unit"]))];
    let ambiguous = SessionState::open_entry_with_validator("m".into(), two, ticket(), &store, &Vec::new(), |_p, _s| Ok(()));
    assert!(matches!(ambiguous, Err(SessionError::Entry(EntryError::AmbiguousAcquisitionSurface { .. }))));
}

#[test]
fn unresolved_promise_stays_promised() {
    let store = store_with(&["work-unit"]);
    let protocols = vec![unscoped(protocol("acquire", &["work-unit"]))];
    let mut session = SessionState::open_entry_with_validator("m".into(), protocols, ticket(), &store, &Vec::new(), |_p, _s| Ok(())).unwrap();
    let r = session.bind_promise(&store, &forge_project(), &Vec::new());
    assert!(matches!(r, Err(SessionError::Entry(EntryError::Unresolved { reference })) if reference == "tesserine/runa#7"));
    let again = session.bind_promise(&store, &forge_project(), &Vec::new());
    assert!(again.is_err());
    assert_eq!(session.current_step(), Some(&CurrentStep { protocol: "acquire".into(), work_unit: None }));
}

#[test]
fn bound_session_needs_no_binding() {
    let store = store_with(&[]);
    let ev = evaluated(vec![ready("design", "wu-a")], vec![]);
    let mut session =
        SessionState::open_with_validator("m".into(), vec![protocol("design", &[])], Some("wu-a".into()), &store, &ev, |_p, _s| Ok(()))
            .unwrap();
    assert!(session.bind_promise(&store, &forge_project(), &Vec::new()).is_ok());
    assert_eq!(session.current_step(), Some(&step("design", "wu-a")));
}
