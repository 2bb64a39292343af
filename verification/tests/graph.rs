use libagent::graph::{CycleError, DependencyGraph, GraphError};
use libagent::model::{ProtocolDeclaration, TriggerCondition};

fn strings(items: &[&str]) -> Vec<String> {
    items.iter().map(|s| s.to_string()).collect()
}

fn manual() -> TriggerCondition {
    TriggerCondition::OnArtifact { name: "manual".into() }
}

fn skill(name: &str, requires: &[&str], produces: &[&str]) -> ProtocolDeclaration {
    ProtocolDeclaration {
        name: name.into(),
        requires: strings(requires),
        accepts: vec![],
        produces: strings(produces),
        may_produce: vec![],
        scoped: false,
        trigger: manual(),
        instructions: None,
    }
}

fn skill_with_may(name: &str, requires: &[&str], produces: &[&str], may_produce: &[&str]) -> ProtocolDeclaration {
    ProtocolDeclaration {
        name: name.into(),
        requires: strings(requires),
        accepts: vec![],
        produces: strings(produces),
        may_produce: strings(may_produce),
        scoped: false,
        trigger: manual(),
        instructions: None,
    }
}

fn skill_with_accepts(name: &str, requires: &[&str], accepts: &[&str], produces: &[&str]) -> ProtocolDeclaration {
    ProtocolDeclaration {
        name: name.into(),
        requires: strings(requires),
        accepts: strings(accepts),
        produces: strings(produces),
        may_produce: vec![],
        scoped: false,
        trigger: manual(),
        instructions: None,
    }
}

fn assert_before(order: &[String], before: &str, after: &str) {
    let pos_before = order.iter().position(|s| s == before).unwrap_or_else(|| panic!("'{before}' not found in order: {order:?}"));
    let pos_after = order.iter().position(|s| s == after).unwrap_or_else(|| panic!("'{after}' not found in order: {order:?}"));
    assert!(pos_before < pos_after, "expected '{before}' before '{after}', got order: {order:?}");
}

fn order_of(skills: &Vec<ProtocolDeclaration>) -> Vec<String> {
    let graph = DependencyGraph::build(skills).ok().unwrap();
    graph.topological_order().ok().unwrap()
}

#[test]
fn linear_chain() {
    let skills = vec![skill("A", &[], &["X"]), skill("B", &["X"], &["Y"]), skill("C", &["Y"], &[])];
    let order = order_of(&skills);
    assert_eq!(order.len(), 3);
    assert_before(&order, "A", "B");
    assert_before(&order, "B", "C");
}

#[test]
fn fan_out() {
    let skills = vec![skill("A", &[], &["X", "Y"]), skill("B", &["X"], &[]), skill("C", &["Y"], &[])];
    let order = order_of(&skills);
    assert_eq!(order.len(), 3);
    assert_before(&order, "A", "B");
    assert_before(&order, "A", "C");
}

#[test]
fn fan_in() {
    let skills = vec![skill("A", &[], &["X"]), skill("B", &[], &["Y"]), skill("C", &["X", "Y"], &[])];
    let order = order_of(&skills);
    assert_eq!(order.len(), 3);
    assert_before(&order, "A", "C");
    assert_before(&order, "B", "C");
}

#[test]
fn diamond_dependency() {
    let skills = vec![
        skill("A", &[], &["X"]),
        skill("B", &["X"], &["Y"]),
        skill("C", &["X"], &["Z"]),
        skill("D", &["Y", "Z"], &[]),
    ];
    let order = order_of(&skills);
    assert_eq!(order.len(), 4);
    assert_before(&order, "A", "B");
    assert_before(&order, "A", "C");
    assert_before(&order, "B", "D");
    assert_before(&order, "C", "D");
}

#[test]
fn isolated_skill() {
    let skills = vec![skill("A", &[], &["X"]), skill("B", &["X"], &[]), skill("isolated", &[], &[])];
    let order = order_of(&skills);
    assert_eq!(order.len(), 3);
    assert_before(&order, "A", "B");
    assert!(order.contains(&"isolated".to_string()));
}

#[test]
fn self_referencing_skill() {
    let skills = vec![skill("A", &["X"], &["X"])];
    let graph = DependencyGraph::build(&skills).ok().unwrap();
    let order = graph.topological_order().ok().unwrap();
    assert_eq!(order, vec!["A"]);
    assert!(graph.dependencies_of("A").is_empty());
    assert!(graph.dependents_of("A").is_empty());
}

#[test]
fn cycle_detection() {
    let skills = vec![skill("A", &["Y"], &["X"]), skill("B", &["X"], &["Y"])];
    let graph = DependencyGraph::build(&skills).ok().unwrap();
    let err = graph.topological_order().err().unwrap();
    assert!(err.path.contains(&"A".to_string()));
    assert!(err.path.contains(&"B".to_string()));
}

#[test]
fn may_produce_creates_soft_ordering() {
    let skills = vec![skill_with_may("A", &[], &[], &["X"]), skill("B", &["X"], &[])];
    let order = order_of(&skills);
    assert_eq!(order.len(), 2);
    assert_before(&order, "A", "B");
}

#[test]
fn may_produce_cycle_does_not_cause_error() {
    let skills = vec![skill_with_may("A", &["Y"], &[], &["X"]), skill("B", &["X"], &["Y"])];
    let order = order_of(&skills);
    assert_eq!(order.len(), 2);
    assert_before(&order, "B", "A");
}

#[test]
fn accepts_creates_soft_ordering() {
    let skills = vec![skill("A", &[], &["X"]), skill_with_accepts("B", &[], &["X"], &[])];
    let order = order_of(&skills);
    assert_eq!(order.len(), 2);
    assert_before(&order, "A", "B");
}

#[test]
fn accepts_does_not_block() {
    let skills = vec![skill_with_accepts("B", &[], &["X"], &[])];
    let order = order_of(&skills);
    assert_eq!(order, vec!["B"]);
}

#[test]
fn accepts_not_in_blocked_skills() {
    let skills = vec![skill("A", &[], &["X"]), skill_with_accepts("B", &[], &["X"], &[])];
    let graph = DependencyGraph::build(&skills).ok().unwrap();
    let blocked = graph.blocked_skills(&Vec::new());
    assert!(!blocked.contains(&"B".to_string()));
    assert!(!blocked.contains(&"A".to_string()));
}

#[test]
fn blocked_skills_with_partial_artifacts() {
    let skills = vec![skill("A", &[], &["X"]), skill("B", &["X"], &["Y"]), skill("C", &["X", "Y"], &[])];
    let graph = DependencyGraph::build(&skills).ok().unwrap();

    let available = strings(&["X"]);
    let blocked = graph.blocked_skills(&available);
    assert!(!blocked.contains(&"A".to_string()));
    assert!(!blocked.contains(&"B".to_string()));
    assert!(blocked.contains(&"C".to_string()));

    let available = strings(&["X", "Y"]);
    let blocked = graph.blocked_skills(&available);
    assert!(blocked.is_empty());
}

#[test]
fn dependencies_and_dependents_diamond() {
    let skills = vec![
        skill("A", &[], &["X"]),
        skill("B", &["X"], &["Y"]),
        skill("C", &["X"], &["Z"]),
        skill("D", &["Y", "Z"], &[]),
    ];
    let graph = DependencyGraph::build(&skills).ok().unwrap();

    assert!(graph.dependencies_of("A").is_empty());
    assert_eq!(graph.dependencies_of("B"), vec!["A"]);
    assert_eq!(graph.dependencies_of("C"), vec!["A"]);

    let mut d_deps = graph.dependencies_of("D");
    d_deps.sort();
    assert_eq!(d_deps, vec!["B", "C"]);

    let mut a_dependents = graph.dependents_of("A");
    a_dependents.sort();
    assert_eq!(a_dependents, vec!["B", "C"]);

    assert_eq!(graph.dependents_of("D"), Vec::<String>::new());
}

#[test]
fn unknown_skill_returns_empty() {
    let skills = vec![skill("A", &[], &["X"])];
    let graph = DependencyGraph::build(&skills).ok().unwrap();
    assert!(graph.dependencies_of("nonexistent").is_empty());
    assert!(graph.dependents_of("nonexistent").is_empty());
}

#[test]
fn duplicate_skill_name() {
    let skills = vec![skill("A", &[], &["X"]), skill("A", &[], &["Y"])];
    let err = DependencyGraph::build(&skills).err().unwrap();
    assert_eq!(err, GraphError::DuplicateSkill("A".into()));
}

#[test]
fn conflicting_producers() {
    let skills = vec![skill("A", &[], &["X"]), skill("B", &[], &["X"])];
    let err = DependencyGraph::build(&skills).err().unwrap();
    assert!(matches!(err, GraphError::ConflictingProducers { artifact_type, .. } if artifact_type == "X"));
}

#[test]
fn may_produce_does_not_conflict_with_produces() {
    let skills = vec![skill("A", &[], &["X"]), skill_with_may("B", &[], &[], &["X"])];
    assert!(DependencyGraph::build(&skills).is_ok());
}

#[test]
fn may_produce_does_not_conflict_with_may_produce() {
    let skills = vec![skill_with_may("A", &[], &[], &["X"]), skill_with_may("B", &[], &[], &["X"])];
    assert!(DependencyGraph::build(&skills).is_ok());
}

#[test]
fn external_dependency_builds_successfully() {
    let skills = vec![skill("A", &["X"], &[])];
    let graph = DependencyGraph::build(&skills).ok().unwrap();
    let order = graph.topological_order().ok().unwrap();
    assert_eq!(order, vec!["A"]);
    assert!(graph.dependencies_of("A").is_empty());
}

#[test]
fn external_dependency_reported_as_blocked() {
    let skills = vec![skill("A", &["X"], &[])];
    let graph = DependencyGraph::build(&skills).ok().unwrap();
    let blocked = graph.blocked_skills(&Vec::new());
    assert_eq!(blocked, vec!["A"]);
    let available = strings(&["X"]);
    let blocked = graph.blocked_skills(&available);
    assert!(blocked.is_empty());
}

#[test]
fn multiple_may_produce_creates_soft_edges_to_all() {
    let skills = vec![
        skill_with_may("A", &[], &[], &["X"]),
        skill_with_may("B", &[], &[], &["X"]),
        skill("C", &["X"], &[]),
    ];
    let order = order_of(&skills);
    assert_eq!(order.len(), 3);
    assert_before(&order, "A", "C");
    assert_before(&order, "B", "C");
}

#[test]
fn blocked_with_reasons_all_requires_met() {
    let skills = vec![skill("A", &[], &["X"]), skill("B", &["X"], &["Y"]), skill("C", &["X", "Y"], &[])];
    let graph = DependencyGraph::build(&skills).ok().unwrap();
    let available = strings(&["X", "Y"]);
    let result = graph.blocked_skills_with_reasons(&available);
    assert!(result.is_empty());
}

#[test]
fn blocked_with_reasons_some_missing() {
    let skills = vec![skill("A", &[], &["X", "Y"]), skill("B", &["X", "Y"], &[])];
    let graph = DependencyGraph::build(&skills).ok().unwrap();
    let available = strings(&["X"]);
    let result = graph.blocked_skills_with_reasons(&available);
    assert_eq!(result.len(), 1);
    assert_eq!(result[0].0, "B");
    assert_eq!(result[0].1, vec!["Y"]);
}

#[test]
fn blocked_with_reasons_multiple_skills_partial_overlap() {
    let skills = vec![skill("A", &[], &["X"]), skill("B", &["X", "Y"], &["Y"]), skill("C", &["Y", "Z"], &["Z"])];
    let graph = DependencyGraph::build(&skills).ok().unwrap();
    let result = graph.blocked_skills_with_reasons(&Vec::new());
    assert_eq!(result.len(), 2);
    assert_eq!(result[0].0, "B");
    assert_eq!(result[0].1, vec!["X", "Y"]);
    assert_eq!(result[1].0, "C");
    assert_eq!(result[1].1, vec!["Y", "Z"]);
}

#[test]
fn blocked_with_reasons_no_skills_have_requires() {
    let skills = vec![skill("A", &[], &["X"]), skill("B", &[], &["Y"])];
    let graph = DependencyGraph::build(&skills).ok().unwrap();
    let result = graph.blocked_skills_with_reasons(&Vec::new());
    assert!(result.is_empty());
}

#[test]
fn error_display_messages() {
    let err = GraphError::DuplicateSkill("test".into());
    assert_eq!(err.to_display_string(), "duplicate skill name 'test'");

    let err = GraphError::ConflictingProducers { artifact_type: "X".into(), first: "A".into(), second: "B".into() };
    assert_eq!(err.to_display_string(), "artifact type 'X' is produced by both 'A' and 'B'");

    let err = CycleError { path: vec!["A".into(), "B".into()] };
    assert_eq!(err.to_display_string(), "dependency cycle detected: A -> B");
}

#[test]
fn cycle_path_names_each_participant_once_and_in_dependency_order() {
    let skills = vec![skill("A", &["Z"], &["X"]), skill("B", &["X"], &["Y"]), skill("C", &["Y"], &["Z"])];
    let graph = DependencyGraph::build(&skills).ok().unwrap();
    let err = graph.topological_order().err().unwrap();
    assert_eq!(err.path.len(), 3);
    // Each entry depends on the next, the last on the first.
    for k in 0..err.path.len() {
        let from = &err.path[k];
        let to = &err.path[(k + 1) % err.path.len()];
        assert!(graph.dependencies_of(from).contains(to), "{from} should depend on {to}");
    }
}

#[test]
fn dependencies_mirror_dependents_on_chain() {
    let skills = vec![skill("A", &[], &["X"]), skill("B", &["X"], &["Y"]), skill("C", &["Y"], &[])];
    let graph = DependencyGraph::build(&skills).ok().unwrap();
    for name in ["A", "B", "C"] {
        for dep in graph.dependencies_of(name) {
            assert!(graph.dependents_of(&dep).contains(&name.to_string()));
        }
    }
}

#[test]
fn blocked_skills_are_the_names_of_the_blocked_entries() {
    let skills = vec![skill("zeta", &["x"], &[]), skill("alpha", &["y", "x"], &[]), skill("free", &[], &["x"])];
    let graph = DependencyGraph::build(&skills).ok().unwrap();
    let available = vec!["y".to_string()];
    let names: Vec<String> = graph.blocked_skills_with_reasons(&available).into_iter().map(|(n, _)| n).collect();
    assert_eq!(graph.blocked_skills(&available), names);
    assert_eq!(names, vec!["alpha".to_string(), "zeta".to_string()]);
}
