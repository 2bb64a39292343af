use libagent::enforcement::{ArtifactFailure, Relationship};
use libagent::graph::{CycleError, DependencyGraph};
use libagent::json::JsonValue;
use libagent::model::{ArtifactType, ProtocolDeclaration, TriggerCondition};
use libagent::scan::{PartiallyScannedType, ScanResult, UnreadableArtifact};
use libagent::selection::{resolve_evaluation_topology, EvaluationScope, EvaluationTopology};
use libagent::status::{
    artifact_type_from_path, collect_inputs, collect_scan_findings, display_path, evaluate_protocols, evaluate_protocols_with_topology, failure_entry,
    first_path_component, protocol_json, ProtocolEntry, ProtocolStatus, ScanFindings, TriggerState,
};
use libagent::store::{ArtifactState, ArtifactStore, ValidationStatus};

fn make_protocol(name: &str, requires: &[&str], accepts: &[&str], produces: &[&str], trigger: TriggerCondition) -> ProtocolDeclaration {
    ProtocolDeclaration {
        name: name.into(),
        requires: requires.iter().map(|s| s.to_string()).collect(),
        accepts: accepts.iter().map(|s| s.to_string()).collect(),
        produces: produces.iter().map(|s| s.to_string()).collect(),
        may_produce: Vec::new(),
        scoped: false,
        trigger,
        instructions: None,
    }
}

fn store_with(types: &[&str]) -> ArtifactStore {
    ArtifactStore::new(types.iter().map(|t| ArtifactType { name: t.to_string(), schema: JsonValue::Null }).collect())
}

fn record(store: &mut ArtifactStore, t: &str, id: &str, status: ValidationStatus, ms: u64) {
    store
        .record_state(
            t,
            id,
            ArtifactState {
                path: format!("/home/me/project/.runa/workspace/{t}/{id}.json"),
                status,
                last_modified_ms: ms,
                content_hash: "sha256:c".into(),
                schema_hash: "sha256:s".into(),
                work_unit: None,
            },
        )
        .unwrap();
}

fn topology(order: &[&str], cycle: Option<Vec<&str>>) -> EvaluationTopology {
    EvaluationTopology {
        status_order: order.iter().map(|s| s.to_string()).collect(),
        execution_order: order.iter().map(|s| s.to_string()).collect(),
        cycle: cycle.map(|path| CycleError { path: path.iter().map(|s| s.to_string()).collect() }),
    }
}

fn no_findings() -> ScanFindings {
    ScanFindings { affected_types: Vec::new(), warnings: Vec::new() }
}

#[test]
fn findings_warn_per_partially_scanned_type() {
    let mut result = ScanResult::default();
    result.partially_scanned_types = vec![
        PartiallyScannedType { artifact_type: "plan".into(), unreadable_entries: 1 },
        PartiallyScannedType { artifact_type: "report".into(), unreadable_entries: 3 },
    ];
    result.unreadable = vec![
        UnreadableArtifact { path: "/ws/spec/a.json".into(), error: "denied".into() },
        UnreadableArtifact { path: "/elsewhere/x.json".into(), error: "denied".into() },
    ];

    let findings = collect_scan_findings(&result, "/ws");

    assert_eq!(findings.affected_types, vec!["plan".to_string(), "report".to_string(), "spec".to_string()]);
    assert_eq!(
        findings.warnings,
        vec![
            "artifact type 'plan' was only partially scanned: 1 unreadable entry".to_string(),
            "artifact type 'report' was only partially scanned: 3 unreadable entries".to_string(),
        ]
    );
}

#[test]
fn paths_are_shown_relative_to_the_working_directory() {
    assert_eq!(display_path("/home/me/project/a/b.json", "/home/me/project"), "a/b.json");
    assert_eq!(display_path("/other/b.json", "/home/me/project"), "/other/b.json");
    assert_eq!(artifact_type_from_path("/ws/report/x.json", "/ws"), Some("report".to_string()));
    assert_eq!(artifact_type_from_path("/ws", "/ws"), None);
    assert_eq!(artifact_type_from_path("/other/report/x.json", "/ws"), None);
    assert_eq!(first_path_component("report/x.json"), Some("report".to_string()));
    assert_eq!(first_path_component(""), None);
}

#[test]
fn failure_entries_name_their_reason() {
    let missing = failure_entry(&ArtifactFailure::Missing { artifact_type: "spec".into(), relationship: Relationship::Requires });
    let stale = failure_entry(&ArtifactFailure::Stale {
        artifact_type: "plan".into(),
        relationship: Relationship::Requires,
        stale_count: 2,
    });
    assert_eq!((missing.artifact_type.as_str(), missing.reason.as_str()), ("spec", "missing"));
    assert_eq!((stale.artifact_type.as_str(), stale.reason.as_str()), ("plan", "stale"));
}

#[test]
fn ready_candidate_lists_valid_inputs() {
    let mut store = store_with(&["constraints", "notes", "implementation"]);
    record(&mut store, "constraints", "b", ValidationStatus::Valid, 10);
    record(&mut store, "constraints", "a", ValidationStatus::Valid, 10);
    record(&mut store, "notes", "n1", ValidationStatus::Valid, 10);
    record(&mut store, "notes", "n2", ValidationStatus::Malformed("bad".into()), 10);
    let protocols = vec![make_protocol(
        "implement",
        &["constraints"],
        &["notes"],
        &["implementation"],
        TriggerCondition::OnArtifact { name: "constraints".into() },
    )];

    let evaluated = evaluate_protocols_with_topology(
        &protocols,
        &store,
        "/home/me/project",
        &no_findings(),
        EvaluationScope::Unscoped,
        topology(&["implement"], None),
    );

    assert_eq!(evaluated.ready.len(), 1);
    assert!(evaluated.blocked.is_empty() && evaluated.waiting.is_empty());
    let entry = &evaluated.ready[0];
    assert_eq!(entry.status, ProtocolStatus::Ready);
    assert_eq!(entry.trigger, TriggerState::Satisfied);
    let inputs: Vec<(&str, &str, &str, &str)> = entry
        .inputs
        .iter()
        .map(|i| (i.artifact_type.as_str(), i.instance_id.as_str(), i.path.as_str(), i.relationship.as_str()))
        .collect();
    assert_eq!(
        inputs,
        vec![
            ("constraints", "a", ".runa/workspace/constraints/a.json", "requires"),
            ("constraints", "b", ".runa/workspace/constraints/b.json", "requires"),
            ("notes", "n1", ".runa/workspace/notes/n1.json", "accepts"),
        ]
    );
    let json = evaluated.json_protocols();
    assert_eq!(json.len(), 1);
    assert_eq!(json[0].inputs.as_ref().map(|v| v.len()), Some(3));
    assert!(json[0].precondition_failures.is_none());
    assert!(json[0].unsatisfied_conditions.is_none());
}

#[test]
fn affected_types_contribute_no_inputs() {
    let mut store = store_with(&["constraints", "notes"]);
    record(&mut store, "notes", "n1", ValidationStatus::Valid, 10);
    let protocol = make_protocol("p", &[], &["notes"], &[], TriggerCondition::OnArtifact { name: "notes".into() });

    let inputs = collect_inputs(&protocol, &store, "/", &vec!["notes".to_string()], None);
    assert!(inputs.is_empty());
    let inputs = collect_inputs(&protocol, &store, "/", &Vec::new(), None);
    assert_eq!(inputs.len(), 1);
}

#[test]
fn blocked_candidate_lists_scan_incomplete_then_precondition_failures() {
    let mut store = store_with(&["constraints", "spec", "implementation"]);
    record(&mut store, "constraints", "a", ValidationStatus::Valid, 10);
    let protocols = vec![make_protocol(
        "implement",
        &["constraints", "spec"],
        &[],
        &["implementation"],
        TriggerCondition::OnArtifact { name: "constraints".into() },
    )];

    let evaluated = evaluate_protocols_with_topology(
        &protocols,
        &store,
        "/",
        &no_findings(),
        EvaluationScope::Unscoped,
        topology(&["implement"], None),
    );

    assert_eq!(evaluated.blocked.len(), 1);
    let failures: Vec<(&str, &str)> = evaluated.blocked[0]
        .precondition_failures
        .iter()
        .map(|f| (f.artifact_type.as_str(), f.reason.as_str()))
        .collect();
    assert_eq!(failures, vec![("spec", "missing")]);
    assert_eq!(evaluated.blocked[0].status, ProtocolStatus::Blocked);
}

#[test]
fn ready_candidate_on_a_cycle_waits_on_the_cycle() {
    let mut store = store_with(&["constraints", "out"]);
    record(&mut store, "constraints", "a", ValidationStatus::Valid, 10);
    let protocols = vec![
        make_protocol("a", &[], &[], &["out"], TriggerCondition::OnArtifact { name: "constraints".into() }),
        make_protocol("b", &[], &[], &[], TriggerCondition::OnArtifact { name: "missing".into() }),
    ];

    let evaluated = evaluate_protocols_with_topology(
        &protocols,
        &store,
        "/",
        &no_findings(),
        EvaluationScope::Unscoped,
        topology(&["a", "b"], Some(vec!["a", "b"])),
    );

    assert!(evaluated.ready.is_empty());
    assert_eq!(evaluated.waiting.len(), 2);
    let cycle = "dependency cycle detected: a -> b".to_string();
    assert_eq!(evaluated.waiting[0].name, "a");
    assert_eq!(evaluated.waiting[0].unsatisfied_conditions, vec![cycle.clone()]);
    assert_eq!(evaluated.waiting[1].name, "b");
    assert_eq!(evaluated.waiting[1].unsatisfied_conditions.last(), Some(&cycle));
    assert_eq!(evaluated.waiting[1].trigger, TriggerState::NotSatisfied);
    let ordered = evaluated.ordered_entries();
    assert_eq!(ordered.len(), 2);
}

#[test]
fn report_leaves_out_empty_lists() {
    let entry = ProtocolEntry {
        name: "p".into(),
        work_unit: Some("wu".into()),
        status: ProtocolStatus::Waiting,
        trigger: TriggerState::NotSatisfied,
        inputs: Vec::new(),
        precondition_failures: Vec::new(),
        unsatisfied_conditions: vec!["outputs are current".into()],
    };

    let json = protocol_json(&entry);

    assert_eq!(json.name, "p");
    assert_eq!(json.work_unit, Some("wu".to_string()));
    assert!(json.inputs.is_none());
    assert!(json.precondition_failures.is_none());
    assert_eq!(json.unsatisfied_conditions, Some(vec!["outputs are current".to_string()]));
}

fn scoped(mut p: ProtocolDeclaration) -> ProtocolDeclaration {
    p.scoped = true;
    p
}

#[test]
fn topology_without_cycle_orders_producers_first_for_status_and_execution() {
    let protocols = vec![
        make_protocol("consume", &["x"], &[], &[], TriggerCondition::OnArtifact { name: "x".into() }),
        make_protocol("produce", &[], &[], &["x"], TriggerCondition::OnArtifact { name: "seed".into() }),
    ];
    let graph = DependencyGraph::build(&protocols).ok().unwrap();
    let topology = resolve_evaluation_topology(&protocols, &graph, EvaluationScope::Unscoped);
    assert_eq!(topology.cycle, None);
    assert_eq!(topology.execution_order, vec!["produce".to_string(), "consume".to_string()]);
    assert_eq!(topology.status_order, topology.execution_order);
}

#[test]
fn topology_leaves_out_protocols_outside_the_scope() {
    let protocols = vec![
        make_protocol("plain", &[], &[], &["x"], TriggerCondition::OnArtifact { name: "seed".into() }),
        scoped(make_protocol("per_unit", &["x"], &[], &[], TriggerCondition::OnArtifact { name: "x".into() })),
    ];
    let graph = DependencyGraph::build(&protocols).ok().unwrap();
    let unscoped = resolve_evaluation_topology(&protocols, &graph, EvaluationScope::Unscoped);
    assert_eq!(unscoped.status_order, vec!["plain".to_string()]);
    assert_eq!(unscoped.execution_order, vec!["plain".to_string()]);
    let scoped_topology = resolve_evaluation_topology(&protocols, &graph, EvaluationScope::Scoped("unit-1"));
    assert_eq!(scoped_topology.status_order, vec!["per_unit".to_string()]);
    assert_eq!(scoped_topology.cycle, None);
}

#[test]
fn topology_with_cycle_reports_its_members_after_the_rest() {
    let protocols = vec![
        make_protocol("a", &["y"], &[], &["x"], TriggerCondition::OnArtifact { name: "y".into() }),
        make_protocol("independent", &[], &[], &["z"], TriggerCondition::OnArtifact { name: "seed".into() }),
        make_protocol("b", &["x"], &[], &["y"], TriggerCondition::OnArtifact { name: "x".into() }),
    ];
    let graph = DependencyGraph::build(&protocols).ok().unwrap();
    let topology = resolve_evaluation_topology(&protocols, &graph, EvaluationScope::Unscoped);
    let cycle = topology.cycle.clone().unwrap();
    assert_eq!(cycle.path.len(), 2);
    assert!(cycle.path.contains(&"a".to_string()) && cycle.path.contains(&"b".to_string()));
    assert_eq!(topology.execution_order, vec!["independent".to_string()]);
    assert_eq!(topology.status_order, vec!["independent".to_string(), "a".to_string(), "b".to_string()]);
}

#[test]
fn evaluation_through_the_graph_makes_cycle_members_wait() {
    let mut store = store_with(&["x", "y", "z", "seed"]);
    record(&mut store, "seed", "s", ValidationStatus::Valid, 10);
    let protocols = vec![
        make_protocol("a", &["y"], &[], &["x"], TriggerCondition::OnArtifact { name: "y".into() }),
        make_protocol("independent", &[], &[], &["z"], TriggerCondition::OnArtifact { name: "seed".into() }),
        make_protocol("b", &["x"], &[], &["y"], TriggerCondition::OnArtifact { name: "x".into() }),
    ];
    let graph = DependencyGraph::build(&protocols).ok().unwrap();
    let evaluated = evaluate_protocols(&protocols, &graph, &store, "/", &no_findings(), EvaluationScope::Unscoped);
    assert!(evaluated.cycle.is_some());
    assert_eq!(evaluated.ready.len(), 1);
    assert_eq!(evaluated.ready[0].name, "independent");
    let names: Vec<&str> = evaluated.blocked.iter().chain(evaluated.waiting.iter()).map(|e| e.name.as_str()).collect();
    assert_eq!(names.len(), 2);
    assert!(names.contains(&"a") && names.contains(&"b"));
}
