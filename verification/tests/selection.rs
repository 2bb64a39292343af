use libagent::enforcement::{ArtifactFailure, Relationship};
use libagent::json::JsonValue;
use libagent::model::{ArtifactType, ProtocolDeclaration, TriggerCondition};
use libagent::scan::{ArtifactRef, InvalidArtifact, MalformedArtifact, ScanResult};
use libagent::selection::{
    classify_candidates, collect_unsatisfied_conditions, discover_ready_candidates, precondition_scan_incomplete_types,
    protocol_freshness_inputs, protocol_relevant_input_types, protocol_relevant_inputs_changed, protocol_scan_incomplete_types,
    trigger_artifact_types, CandidateStatus, EvaluationScope, FreshnessInputMode,
};
use libagent::store::{ArtifactState, ArtifactStore, ValidationStatus};
use libagent::trigger::TriggerContext;

fn make_protocol(
    name: &str,
    requires: &[&str],
    accepts: &[&str],
    produces: &[&str],
    may_produce: &[&str],
    trigger: TriggerCondition,
) -> ProtocolDeclaration {
    ProtocolDeclaration {
        name: name.into(),
        requires: requires.iter().map(|s| s.to_string()).collect(),
        accepts: accepts.iter().map(|s| s.to_string()).collect(),
        produces: produces.iter().map(|s| s.to_string()).collect(),
        may_produce: may_produce.iter().map(|s| s.to_string()).collect(),
        scoped: false,
        trigger,
        instructions: None,
    }
}

fn store_with(types: &[&str]) -> ArtifactStore {
    ArtifactStore::new(types.iter().map(|t| ArtifactType { name: t.to_string(), schema: JsonValue::Null }).collect())
}

fn record(store: &mut ArtifactStore, t: &str, id: &str, status: ValidationStatus, ms: u64, wu: Option<&str>) {
    store
        .record_state(
            t,
            id,
            ArtifactState {
                path: format!("{t}/{id}.json"),
                status,
                last_modified_ms: ms,
                content_hash: "sha256:c".into(),
                schema_hash: "sha256:s".into(),
                work_unit: wu.map(|w| w.to_string()),
            },
        )
        .unwrap();
}

#[test]
fn trigger_artifact_types_collects_from_tree() {
    let trigger = TriggerCondition::AllOf {
        conditions: vec![
            TriggerCondition::OnArtifact { name: "constraints".into() },
            TriggerCondition::AnyOf {
                conditions: vec![TriggerCondition::OnChange { name: "spec".into() }, TriggerCondition::OnInvalid { name: "report".into() }],
            },
        ],
    };

    let mut types = Vec::new();
    trigger_artifact_types(&trigger, &mut types);
    assert_eq!(types.len(), 3);
    assert!(types.contains(&"constraints".to_string()));
    assert!(types.contains(&"spec".to_string()));
    assert!(types.contains(&"report".to_string()));
}

#[test]
fn protocol_relevant_input_types_collects_requires_and_trigger_types() {
    let protocol = make_protocol(
        "implement",
        &["constraints"],
        &["prior-art"],
        &["implementation"],
        &[],
        TriggerCondition::AnyOf {
            conditions: vec![TriggerCondition::OnArtifact { name: "constraints".into() }, TriggerCondition::OnChange { name: "review".into() }],
        },
    );

    let types = protocol_relevant_input_types(&protocol);
    assert_eq!(types.len(), 2);
    assert!(types.contains(&"constraints".to_string()));
    assert!(types.contains(&"review".to_string()));
    assert!(!types.contains(&"prior-art".to_string()));
}

fn mode_of(inputs: &[(String, FreshnessInputMode)], name: &str) -> Option<FreshnessInputMode> {
    inputs.iter().find(|(t, _)| t == name).map(|(_, m)| *m)
}

#[test]
fn protocol_freshness_inputs_keep_change_semantics_when_type_is_also_required() {
    let protocol = make_protocol("repair", &["report"], &[], &["findings"], &[], TriggerCondition::OnChange { name: "report".into() });

    let inputs = protocol_freshness_inputs(&protocol);

    assert_eq!(mode_of(&inputs, "report"), Some(FreshnessInputMode::AnyRecorded));
}

#[test]
fn protocol_freshness_inputs_use_any_recorded_for_artifact_and_requires() {
    let protocol = make_protocol("publish", &["request"], &[], &["published"], &[], TriggerCondition::OnArtifact { name: "request".into() });

    let inputs = protocol_freshness_inputs(&protocol);

    assert_eq!(mode_of(&inputs, "request"), Some(FreshnessInputMode::AnyRecorded));
    assert_eq!(inputs.len(), 1);
}

#[test]
fn protocol_relevant_inputs_changed_ignores_other_work_units() {
    let protocol = make_protocol("review", &["doc"], &[], &[], &[], TriggerCondition::OnArtifact { name: "doc".into() });
    let scan_result = ScanResult {
        modified: vec![ArtifactRef {
            artifact_type: "doc".into(),
            instance_id: "b".into(),
            path: "doc/b.json".into(),
            work_unit: Some("wu-b".into()),
        }],
        ..Default::default()
    };

    assert!(!protocol_relevant_inputs_changed(&protocol, Some("wu-a"), &scan_result));
    assert!(protocol_relevant_inputs_changed(&protocol, Some("wu-b"), &scan_result));
    assert!(protocol_relevant_inputs_changed(&protocol, None, &scan_result));
}

#[test]
fn protocol_relevant_inputs_changed_counts_invalid_and_malformed_observations() {
    let protocol = make_protocol("repair", &[], &[], &[], &[], TriggerCondition::OnInvalid { name: "report".into() });
    let invalid_scan = ScanResult {
        invalid: vec![InvalidArtifact {
            artifact_type: "report".into(),
            instance_id: "bad".into(),
            path: "report/bad.json".into(),
            work_unit: Some("wu-a".into()),
            violations: Vec::new(),
        }],
        ..Default::default()
    };
    let malformed_scan = ScanResult {
        malformed: vec![MalformedArtifact {
            artifact_type: "report".into(),
            instance_id: "bad".into(),
            path: "report/bad.json".into(),
            work_unit: None,
            error: "oops".into(),
        }],
        ..Default::default()
    };

    assert!(protocol_relevant_inputs_changed(&protocol, Some("wu-a"), &invalid_scan));
    assert!(protocol_relevant_inputs_changed(&protocol, Some("wu-a"), &malformed_scan));
}

#[test]
fn unrelated_scan_changes_do_not_count() {
    let protocol = make_protocol("repair", &["report"], &[], &[], &[], TriggerCondition::OnInvalid { name: "report".into() });
    let scan = ScanResult {
        new: vec![ArtifactRef { artifact_type: "other".into(), instance_id: "x".into(), path: "other/x.json".into(), work_unit: None }],
        unrecognized_dirs: vec!["junk".into()],
        ..Default::default()
    };
    assert!(!protocol_relevant_inputs_changed(&protocol, None, &scan));
}

#[test]
fn scan_incomplete_types_list_requires_then_sorted_trigger_types() {
    let protocol = make_protocol(
        "p",
        &["zeta", "alpha", "zeta"],
        &[],
        &[],
        &[],
        TriggerCondition::AllOf {
            conditions: vec![
                TriggerCondition::OnArtifact { name: "mid".into() },
                TriggerCondition::OnChange { name: "beta".into() },
                TriggerCondition::OnArtifact { name: "alpha".into() },
            ],
        },
    );
    let partial = vec!["alpha".to_string(), "beta".to_string(), "mid".to_string(), "zeta".to_string()];
    assert_eq!(protocol_scan_incomplete_types(&protocol, &partial), vec!["zeta", "alpha", "beta", "mid"]);
    assert_eq!(precondition_scan_incomplete_types(&protocol, &partial), vec!["zeta", "alpha"]);
    assert!(protocol_scan_incomplete_types(&protocol, &Vec::new()).is_empty());
}

fn implement() -> ProtocolDeclaration {
    make_protocol("implement", &["constraints"], &[], &["implementation"], &[], TriggerCondition::OnArtifact { name: "constraints".into() })
}

#[test]
fn classify_ready_candidate() {
    let mut store = store_with(&["constraints", "implementation"]);
    record(&mut store, "constraints", "a1", ValidationStatus::Valid, 1000, None);
    let protocols = vec![implement()];
    let classified = classify_candidates(&protocols, &store, &["implement"], &Vec::new(), EvaluationScope::Unscoped);
    assert_eq!(classified.len(), 1);
    assert_eq!(classified[0].protocol_name, "implement");
    assert_eq!(classified[0].work_unit, None);
    assert_eq!(classified[0].status, CandidateStatus::Ready);
    assert!(classified[0].trigger_satisfied);
    assert!(classified[0].scan_trust.trusted);
}

#[test]
fn classify_waiting_outputs_current() {
    let mut store = store_with(&["constraints", "implementation"]);
    record(&mut store, "constraints", "a1", ValidationStatus::Valid, 1000, None);
    record(&mut store, "implementation", "impl-a1", ValidationStatus::Valid, 2000, None);
    let protocols = vec![implement()];
    let classified = classify_candidates(&protocols, &store, &["implement"], &Vec::new(), EvaluationScope::Unscoped);
    assert_eq!(classified[0].status, CandidateStatus::Waiting { unsatisfied_conditions: vec!["outputs are current".to_string()] });
    assert!(discover_ready_candidates(&protocols, &store, &["implement"], &Vec::new(), EvaluationScope::Unscoped).is_empty());
}

#[test]
fn stale_outputs_do_not_suppress_candidates() {
    let mut store = store_with(&["constraints", "implementation"]);
    record(&mut store, "constraints", "a1", ValidationStatus::Valid, 2000, None);
    record(&mut store, "implementation", "impl-a1", ValidationStatus::Valid, 1000, None);
    let protocols = vec![implement()];
    let ready = discover_ready_candidates(&protocols, &store, &["implement"], &Vec::new(), EvaluationScope::Unscoped);
    assert_eq!(ready.len(), 1);
    assert_eq!(ready[0].protocol_name, "implement");
}

#[test]
fn classify_waiting_trigger_not_satisfied() {
    let store = store_with(&["doc"]);
    let protocols = vec![make_protocol("ground", &[], &[], &[], &[], TriggerCondition::OnArtifact { name: "missing".into() })];
    let classified = classify_candidates(&protocols, &store, &["ground"], &Vec::new(), EvaluationScope::Unscoped);
    assert_eq!(classified.len(), 1);
    assert!(!classified[0].trigger_satisfied);
    assert_eq!(
        classified[0].status,
        CandidateStatus::Waiting {
            unsatisfied_conditions: vec!["on_artifact(missing): no valid instances of artifact type 'missing' exist".to_string()]
        }
    );
}

#[test]
fn classify_blocked_precondition_fails() {
    let mut store = store_with(&["constraints", "implementation"]);
    record(&mut store, "implementation", "impl-a1", ValidationStatus::Valid, 1000, None);
    let protocols = vec![make_protocol(
        "implement",
        &["constraints"],
        &[],
        &["implementation"],
        &[],
        TriggerCondition::OnArtifact { name: "implementation".into() },
    )];
    let classified = classify_candidates(&protocols, &store, &["implement"], &Vec::new(), EvaluationScope::Unscoped);
    assert!(classified[0].trigger_satisfied);
    assert_eq!(
        classified[0].status,
        CandidateStatus::Blocked {
            precondition_failures: vec![ArtifactFailure::Missing { artifact_type: "constraints".into(), relationship: Relationship::Requires }],
            scan_incomplete_types: vec![],
        }
    );
}

#[test]
fn stale_instances_do_not_satisfy_on_invalid() {
    let mut store = store_with(&["constraints"]);
    record(&mut store, "constraints", "a1", ValidationStatus::Stale, 1000, None);
    let protocols = vec![make_protocol("fix", &[], &[], &[], &[], TriggerCondition::OnInvalid { name: "constraints".into() })];
    let classified = classify_candidates(&protocols, &store, &["fix"], &Vec::new(), EvaluationScope::Unscoped);
    assert!(!classified[0].trigger_satisfied);
}

#[test]
fn classify_blocked_scan_incomplete() {
    let mut store = store_with(&["constraints", "implementation"]);
    record(&mut store, "constraints", "a1", ValidationStatus::Valid, 1000, None);
    let protocols = vec![implement()];
    let partial = vec!["constraints".to_string()];
    let classified = classify_candidates(&protocols, &store, &["implement"], &partial, EvaluationScope::Unscoped);
    assert!(classified[0].trigger_satisfied);
    assert!(!classified[0].scan_trust.trusted);
    assert_eq!(classified[0].scan_trust.incomplete_types, vec!["constraints"]);
    assert_eq!(
        classified[0].status,
        CandidateStatus::Blocked { precondition_failures: vec![], scan_incomplete_types: vec!["constraints".to_string()] }
    );
}

#[test]
fn classify_candidates_respects_declared_scope_boundary() {
    let mut store = store_with(&["constraints", "implementation"]);
    record(&mut store, "constraints", "a1", ValidationStatus::Valid, 1000, Some("wu-a"));
    let mut scoped = implement();
    scoped.scoped = true;
    let unscoped = make_protocol("ground", &[], &[], &["constraints"], &[], TriggerCondition::AnyOf { conditions: vec![] });
    let protocols = vec![scoped, unscoped];
    let order = ["ground", "implement"];

    let in_scope = classify_candidates(&protocols, &store, &order, &Vec::new(), EvaluationScope::Scoped("wu-a"));
    assert_eq!(in_scope.len(), 1);
    assert_eq!(in_scope[0].protocol_name, "implement");
    assert_eq!(in_scope[0].work_unit.as_deref(), Some("wu-a"));
    assert_eq!(in_scope[0].status, CandidateStatus::Ready);

    let outside = classify_candidates(&protocols, &store, &order, &Vec::new(), EvaluationScope::Unscoped);
    assert_eq!(outside.len(), 1);
    assert_eq!(outside[0].protocol_name, "ground");
    assert_eq!(
        outside[0].status,
        CandidateStatus::Waiting { unsatisfied_conditions: vec!["any_of(): any_of with no conditions".to_string()] }
    );
}

#[test]
fn topological_order_determines_candidate_order() {
    let mut store = store_with(&["a", "b"]);
    record(&mut store, "a", "a", ValidationStatus::Valid, 1, None);
    record(&mut store, "b", "b", ValidationStatus::Valid, 1, None);
    let protocols = vec![
        make_protocol("alpha", &[], &[], &[], &[], TriggerCondition::OnArtifact { name: "a".into() }),
        make_protocol("beta", &[], &[], &[], &[], TriggerCondition::OnArtifact { name: "b".into() }),
    ];
    let ready = discover_ready_candidates(&protocols, &store, &["beta", "alpha", "unknown"], &Vec::new(), EvaluationScope::Unscoped);
    let names: Vec<&str> = ready.iter().map(|c| c.protocol_name.as_str()).collect();
    assert_eq!(names, vec!["beta", "alpha"]);
}

#[test]
fn classify_and_discover_agree_on_ready() {
    let mut store = store_with(&["constraints", "implementation"]);
    record(&mut store, "constraints", "a1", ValidationStatus::Valid, 1000, Some("wu-a"));
    record(&mut store, "constraints", "b1", ValidationStatus::Valid, 2000, Some("wu-b"));
    record(&mut store, "implementation", "impl-a1", ValidationStatus::Valid, 3000, Some("wu-a"));
    let mut scoped = implement();
    scoped.scoped = true;
    let protocols = vec![scoped];
    for wu in ["wu-a", "wu-b"] {
        let classified = classify_candidates(&protocols, &store, &["implement"], &Vec::new(), EvaluationScope::Scoped(wu));
        let ready = discover_ready_candidates(&protocols, &store, &["implement"], &Vec::new(), EvaluationScope::Scoped(wu));
        let classified_ready: Vec<(String, Option<String>)> = classified
            .into_iter()
            .filter(|c| c.status == CandidateStatus::Ready)
            .map(|c| (c.protocol_name, c.work_unit))
            .collect();
        let discovered: Vec<(String, Option<String>)> = ready.into_iter().map(|c| (c.protocol_name, c.work_unit)).collect();
        assert_eq!(classified_ready, discovered);
    }
}

#[test]
fn unsatisfied_conditions_list_each_failing_leaf() {
    let store = store_with(&["a", "b"]);
    let trigger = || TriggerCondition::AllOf {
        conditions: vec![TriggerCondition::OnArtifact { name: "a".into() }, TriggerCondition::OnInvalid { name: "b".into() }],
    };
    let protocol = make_protocol("p", &[], &[], &[], &[], trigger());
    let trigger = trigger();
    let partial = Vec::new();
    let context = TriggerContext { store: &store, work_unit: None, partially_scanned_types: &partial };
    let reasons = collect_unsatisfied_conditions(&trigger, &protocol, &context);
    assert_eq!(
        reasons,
        vec![
            "on_artifact(a): no valid instances of artifact type 'a' exist".to_string(),
            "on_invalid(b): no invalid instances of artifact type 'b'".to_string()
        ]
    );
}
