use libagent::context::{
    build_context, humanize_key, json_to_prose, render_context_prompt, ArtifactBody, ArtifactRef, ArtifactRelationship, ContextInjection,
    ExpectedOutputs,
};
use libagent::json::JsonValue;
use libagent::model::{ArtifactType, ProtocolDeclaration, TriggerCondition};
use libagent::store::{ArtifactState, ArtifactStore, ValidationStatus};
use libagent::validation::{ValidationError, Violation};

fn s(v: &str) -> JsonValue {
    JsonValue::Str(v.to_string())
}

fn state(path: &str, status: ValidationStatus, work_unit: Option<&str>) -> ArtifactState {
    ArtifactState {
        path: path.into(),
        status,
        last_modified_ms: 1,
        content_hash: format!("sha256:{path}"),
        schema_hash: "sha256:s".into(),
        work_unit: work_unit.map(|w| w.to_string()),
    }
}

#[test]
fn humanize_key_snake_case() {
    assert_eq!(humanize_key("work_unit"), "Work unit");
    assert_eq!(humanize_key("acceptance_criteria"), "Acceptance criteria");
    assert_eq!(humanize_key("title"), "Title");
}

#[test]
fn humanize_key_keeps_non_letters_and_empty_keys() {
    assert_eq!(humanize_key(""), "");
    assert_eq!(humanize_key("_private"), " private");
    assert_eq!(humanize_key("Already"), "Already");
    assert_eq!(humanize_key("état"), "état");
}

#[test]
fn json_to_prose_formats_nested_values() {
    let val = JsonValue::Object(vec![
        ("details".to_string(), JsonValue::Object(vec![("author".to_string(), s("agent")), ("priority".to_string(), s("high"))])),
        (
            "scenarios".to_string(),
            JsonValue::Array(vec![JsonValue::Object(vec![
                ("criterion".to_string(), s("returns 400")),
                ("name".to_string(), s("reject-missing-field")),
            ])]),
        ),
        ("title".to_string(), s("Test")),
    ]);

    let prose = json_to_prose(&val, 0);
    assert!(prose.contains("**Title:** Test"));
    assert!(prose.contains("**Details:**"));
    assert!(prose.contains("  **Author:** agent"));
    assert!(prose.contains("**Scenarios:**"));
    assert!(prose.contains("1."));
    assert!(prose.contains("**Criterion:** returns 400"));
    assert_eq!(
        prose,
        "**Details:**\n  **Author:** agent\n  **Priority:** high\n**Scenarios:**\n  1.\n    **Criterion:** returns 400\n    **Name:** reject-missing-field\n**Title:** Test"
    );
}

#[test]
fn json_to_prose_renders_scalars_inline() {
    let val = JsonValue::Array(vec![JsonValue::Null, JsonValue::Bool(true), JsonValue::Number("2.5".into())]);
    assert_eq!(json_to_prose(&val, 1), "  1. null\n  2. true\n  3. 2.5");
    assert_eq!(json_to_prose(&JsonValue::Bool(false), 0), "false");
}

#[test]
fn render_context_prompt_includes_sections_and_tool_guidance() {
    let prompt = render_context_prompt(
        &ContextInjection {
            protocol: "implement".into(),
            work_unit: None,
            instructions: "# Follow the protocol\n".into(),
            inputs: Vec::new(),
            expected_outputs: ExpectedOutputs { produces: vec!["implementation".into()], may_produce: vec!["notes".into()] },
        },
        &Vec::new(),
    );

    assert!(prompt.contains("# Protocol: implement"));
    assert!(prompt.contains("## Protocol instructions"));
    assert!(prompt.contains("# Follow the protocol"));
    assert!(prompt.contains("You must produce: implementation"));
    assert!(prompt.contains("You may also produce: notes"));
    assert!(prompt.contains("To deliver each required output, call the tool with the matching name and fill in the required fields."));
}

#[test]
fn render_context_prompt_includes_work_unit_in_heading() {
    let prompt = render_context_prompt(
        &ContextInjection {
            protocol: "implement".into(),
            work_unit: Some("wu-a".into()),
            instructions: String::new(),
            inputs: Vec::new(),
            expected_outputs: ExpectedOutputs { produces: vec!["implementation".into()], may_produce: Vec::new() },
        },
        &Vec::new(),
    );

    assert!(prompt.contains("# Protocol: implement (work_unit=wu-a)"));
}

#[test]
fn render_context_prompt_inlines_artifact_read_errors() {
    let prompt = render_context_prompt(
        &ContextInjection {
            protocol: "implement".into(),
            work_unit: None,
            instructions: String::new(),
            inputs: vec![ArtifactRef {
                artifact_type: "constraints".into(),
                instance_id: "missing".into(),
                path: "/tmp/does-not-exist.json".into(),
                display_path: "/tmp/does-not-exist.json".into(),
                content_hash: "sha256:test".into(),
                relationship: ArtifactRelationship::Requires,
            }],
            expected_outputs: ExpectedOutputs { produces: vec!["implementation".into()], may_produce: Vec::new() },
        },
        &vec![ArtifactBody::Unreadable("No such file or directory (os error 2)".into())],
    );

    assert!(prompt.contains("## What you've been given"));
    assert!(prompt.contains("### constraints — missing"));
    assert!(prompt.contains("Could not read artifact"));
}

#[test]
fn render_context_prompt_exact_layout() {
    let prompt = render_context_prompt(
        &ContextInjection {
            protocol: "p".into(),
            work_unit: None,
            instructions: String::new(),
            inputs: vec![ArtifactRef {
                artifact_type: "notes".into(),
                instance_id: "n1".into(),
                path: "n.json".into(),
                display_path: "n.json".into(),
                content_hash: "sha256:x".into(),
                relationship: ArtifactRelationship::Accepts,
            }],
            expected_outputs: ExpectedOutputs { produces: vec![], may_produce: vec![] },
        },
        &vec![ArtifactBody::Json(JsonValue::Object(vec![("title".to_string(), s("t"))]))],
    );
    assert_eq!(
        prompt,
        "# Protocol: p\n\n## Additional context\n\n### notes — n1\n**Title:** t\n\n## What you need to deliver\n\nTo deliver each required output, call the tool with the matching name and fill in the required fields."
    );
}

#[test]
fn build_context_collects_valid_required_then_accepted_inputs_in_scope() {
    let mut store = ArtifactStore::new(vec![
        ArtifactType { name: "constraints".into(), schema: JsonValue::Null },
        ArtifactType { name: "notes".into(), schema: JsonValue::Null },
    ]);
    store.record_state("constraints", "b", state("constraints/b.json", ValidationStatus::Valid, Some("wu-a"))).unwrap();
    store.record_state("constraints", "a", state("constraints/a.json", ValidationStatus::Valid, None)).unwrap();
    store.record_state("constraints", "c", state("constraints/c.json", ValidationStatus::Valid, Some("wu-b"))).unwrap();
    store.record_state("notes", "bad", state("notes/bad.json", ValidationStatus::Stale, None)).unwrap();
    store.record_state("notes", "good", state("notes/good.json", ValidationStatus::Valid, None)).unwrap();

    let protocol = ProtocolDeclaration {
        name: "implement".into(),
        requires: vec!["constraints".into()],
        accepts: vec!["notes".into(), "missing".into()],
        produces: vec!["implementation".into()],
        may_produce: vec!["scratchpad".into()],
        scoped: false,
        trigger: TriggerCondition::OnArtifact { name: "constraints".into() },
        instructions: Some("# implement\n".into()),
    };

    let context = build_context(&protocol, &store, Some("wu-a"));
    assert_eq!(context.protocol, "implement");
    assert_eq!(context.work_unit.as_deref(), Some("wu-a"));
    assert_eq!(context.instructions, "# implement\n");
    assert_eq!(context.expected_outputs, ExpectedOutputs { produces: vec!["implementation".into()], may_produce: vec!["scratchpad".into()] });
    let ids: Vec<(&str, ArtifactRelationship)> = context.inputs.iter().map(|i| (i.instance_id.as_str(), i.relationship)).collect();
    assert_eq!(
        ids,
        vec![("a", ArtifactRelationship::Requires), ("b", ArtifactRelationship::Requires), ("good", ArtifactRelationship::Accepts)]
    );
    assert_eq!(context.inputs[0].path, "constraints/a.json");
    assert_eq!(context.inputs[0].display_path, "constraints/a.json");
    assert_eq!(context.inputs[0].content_hash, "sha256:constraints/a.json");

    let view = context.to_view();
    assert_eq!(view.inputs.len(), 3);
    assert_eq!(view.inputs[2].display_path, "notes/good.json");

    let unscoped = build_context(&protocol, &store, None);
    assert_eq!(unscoped.instructions, "# implement\n");
    assert_eq!(unscoped.inputs.len(), 4);
}

// --- Ported cases, with documents validated against a schema that requires
// a string `title`. ---

fn obj(members: Vec<(&str, JsonValue)>) -> JsonValue {
    JsonValue::Object(members.into_iter().map(|(k, v)| (k.to_string(), v)).collect())
}

fn make_store(types: Vec<&str>) -> ArtifactStore {
    let schema = || obj(vec![("type", s("object")), ("required", JsonValue::Array(vec![s("title")]))]);
    ArtifactStore::new(types.into_iter().map(|t| ArtifactType { name: t.to_string(), schema: schema() }).collect())
}

fn record(store: &mut ArtifactStore, t: &str, id: &str, path: &str, data: JsonValue) {
    let ok = match &data {
        JsonValue::Object(members) => members.iter().any(|(k, v)| k == "title" && matches!(v, JsonValue::Str(_))),
        _ => false,
    };
    let validation = if ok {
        Ok(())
    } else {
        Err(ValidationError::InvalidArtifact {
            artifact_type: t.to_string(),
            violations: vec![Violation {
                artifact_type: t.to_string(),
                description: "\"title\" is a required property".to_string(),
                schema_path: "/required".to_string(),
                instance_path: "".to_string(),
            }],
        })
    };
    store.record(t, id, path, &data, validation).unwrap();
}

#[test]
fn build_context_collects_required_and_accepted_inputs() {
    let mut store = make_store(vec!["constraints", "notes"]);
    let constraints_path = "/tmp/ctx/workspace/constraints/spec.json";
    let notes_path = "/tmp/ctx/workspace/notes/notes.json";

    record(&mut store, "constraints", "spec", constraints_path, obj(vec![("title", s("ship step"))]));
    record(&mut store, "notes", "notes", notes_path, obj(vec![("title", s("keep"))]));

    let protocol = ProtocolDeclaration {
        name: "implement".into(),
        requires: vec!["constraints".into()],
        accepts: vec!["notes".into()],
        produces: vec!["implementation".into()],
        may_produce: vec!["scratchpad".into()],
        scoped: false,
        trigger: TriggerCondition::OnArtifact { name: "constraints".into() },
        instructions: Some("# implement\n".into()),
    };

    let context = build_context(&protocol, &store, None);
    assert_eq!(context.protocol, "implement");
    assert_eq!(context.work_unit, None);
    assert_eq!(context.instructions, "# implement\n");
    assert_eq!(
        context.expected_outputs,
        ExpectedOutputs { produces: vec!["implementation".into()], may_produce: vec!["scratchpad".into()] }
    );
    assert_eq!(context.inputs.len(), 2);
    assert_eq!(
        context.inputs[0],
        ArtifactRef {
            artifact_type: "constraints".into(),
            instance_id: "spec".into(),
            path: constraints_path.to_string(),
            display_path: constraints_path.to_string(),
            content_hash: "sha256:dd4077b358533c789242e86ac7f5e7dffa0a587d5b4acfd343c612ae9ddfd315".into(),
            relationship: ArtifactRelationship::Requires,
        }
    );
    assert_eq!(
        context.inputs[1],
        ArtifactRef {
            artifact_type: "notes".into(),
            instance_id: "notes".into(),
            path: notes_path.to_string(),
            display_path: notes_path.to_string(),
            content_hash: "sha256:c623bcb14b09ea83fe711bfb893ea3d56f13a23b95bad47e04c4dec264267abd".into(),
            relationship: ArtifactRelationship::Accepts,
        }
    );
}

#[test]
fn build_context_omits_missing_and_invalid_accepted_inputs() {
    let mut store = make_store(vec!["constraints", "notes"]);
    record(&mut store, "constraints", "spec", "constraints/spec.json", obj(vec![("title", s("ship step"))]));
    record(&mut store, "notes", "bad", "notes/bad.json", obj(vec![("bad", JsonValue::Bool(true))]));

    let protocol = ProtocolDeclaration {
        name: "implement".into(),
        requires: vec!["constraints".into()],
        accepts: vec!["notes".into(), "missing".into()],
        produces: Vec::new(),
        may_produce: Vec::new(),
        scoped: false,
        trigger: TriggerCondition::OnArtifact { name: "constraints".into() },
        instructions: None,
    };

    let context = build_context(&protocol, &store, None);
    assert_eq!(context.inputs.len(), 1);
    assert_eq!(context.work_unit, None);
    assert_eq!(context.instructions, "");
    assert_eq!(context.inputs[0].artifact_type, "constraints");
    assert_eq!(context.inputs[0].relationship, ArtifactRelationship::Requires);
}

#[test]
fn context_view_uses_display_path_only() {
    let context = ContextInjection {
        protocol: "implement".into(),
        work_unit: None,
        instructions: String::new(),
        inputs: vec![ArtifactRef {
            artifact_type: "constraints".into(),
            instance_id: "spec".into(),
            path: "/tmp/spec.json".into(),
            display_path: "/tmp/spec.json".into(),
            content_hash: "sha256:test".into(),
            relationship: ArtifactRelationship::Requires,
        }],
        expected_outputs: ExpectedOutputs { produces: vec!["implementation".into()], may_produce: Vec::new() },
    };

    let view = context.to_view();
    assert_eq!(view.inputs[0].display_path, "/tmp/spec.json");
    assert_eq!(view.inputs[0].content_hash, "sha256:test");
    assert_eq!(view.expected_outputs.produces, vec!["implementation".to_string()]);
}

#[test]
fn build_context_scoped() {
    let mut store = make_store(vec!["constraints"]);

    // WU-A artifact.
    record(&mut store, "constraints", "a1", "constraints/a1.json", obj(vec![("title", s("A")), ("work_unit", s("wu-a"))]));
    // WU-B artifact.
    record(&mut store, "constraints", "b1", "constraints/b1.json", obj(vec![("title", s("B")), ("work_unit", s("wu-b"))]));
    // Unpartitioned artifact.
    record(&mut store, "constraints", "shared", "constraints/shared.json", obj(vec![("title", s("shared"))]));

    let protocol = ProtocolDeclaration {
        name: "implement".into(),
        requires: vec!["constraints".into()],
        accepts: Vec::new(),
        produces: Vec::new(),
        may_produce: Vec::new(),
        scoped: false,
        trigger: TriggerCondition::OnArtifact { name: "constraints".into() },
        instructions: None,
    };

    // Scoped to WU-A: sees a1 + shared, not b1.
    let context = build_context(&protocol, &store, Some("wu-a"));
    assert_eq!(context.work_unit.as_deref(), Some("wu-a"));
    let ids: Vec<&str> = context.inputs.iter().map(|i| i.instance_id.as_str()).collect();
    assert_eq!(ids, vec!["a1", "shared"]);
}
