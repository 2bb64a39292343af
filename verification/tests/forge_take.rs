use libagent::forge_take::{
    credential_names, extract_acceptance_criteria, find_work_unit_type, parse_github_issue, parse_sourcehut_issue, required_credential,
    resolve_take_forge_environment, ForgeHandle, ForgeIssue, ResolvedForge, TakeError,
};
use libagent::json::{to_json_string, JsonValue};
use libagent::model::ArtifactType;
use libagent::project::ForgeConfig;

fn s(v: &str) -> JsonValue {
    JsonValue::Str(v.to_string())
}

fn n(v: u64) -> JsonValue {
    JsonValue::Number(v.to_string())
}

fn obj(members: Vec<(&str, JsonValue)>) -> JsonValue {
    JsonValue::Object(members.into_iter().map(|(k, v)| (k.to_string(), v)).collect())
}

fn env(pairs: &[(&str, &str)]) -> Vec<(String, String)> {
    pairs.iter().map(|(k, v)| (k.to_string(), v.to_string())).collect()
}

fn github_forge_config() -> ForgeConfig {
    ForgeConfig {
        forge_type: Some("github".to_string()),
        owner: Some("tesserine".to_string()),
        name: Some("runa".to_string()),
        tracker_id: None,
    }
}

#[test]
fn resolved_forge_requires_configured_owner_and_name() {
    let config = github_forge_config();

    let resolved = ResolvedForge::from_config(&config).unwrap();

    assert_eq!(resolved, ResolvedForge::Github { owner: "tesserine".to_string(), name: "runa".to_string() });
}

#[test]
fn resolved_forge_reports_missing_fields_in_order() {
    let mut config = github_forge_config();
    config.name = Some("   ".to_string());
    assert_eq!(ResolvedForge::from_config(&config), Err(TakeError::MissingForgeField("name")));
    config.owner = None;
    assert_eq!(ResolvedForge::from_config(&config), Err(TakeError::MissingForgeField("owner")));
}

#[test]
fn sourcehut_needs_a_numeric_tracker_id() {
    let base = [("GROUNDWORK_FORGE_TYPE", "SourceHut"), ("GROUNDWORK_FORGE_OWNER", " operator "), ("GROUNDWORK_FORGE_NAME", "weforge")];
    assert_eq!(ResolvedForge::from_environment(&env(&base)), Err(TakeError::MissingForgeField("tracker_id")));
    let mut with_bad = base.to_vec();
    with_bad.push(("GROUNDWORK_FORGE_TRACKER_ID", "four"));
    assert_eq!(ResolvedForge::from_environment(&env(&with_bad)), Err(TakeError::InvalidTrackerId("four".to_string())));
    let mut with_id = base.to_vec();
    with_id.push(("GROUNDWORK_FORGE_TRACKER_ID", " 4 "));
    assert_eq!(
        ResolvedForge::from_environment(&env(&with_id)),
        Ok(ResolvedForge::Sourcehut { owner: "operator".to_string(), name: "weforge".to_string(), tracker_id: 4 })
    );
}

#[test]
fn unknown_forge_type_is_reported_in_lower_case() {
    let e = env(&[("GROUNDWORK_FORGE_TYPE", "GitLab"), ("GROUNDWORK_FORGE_OWNER", "o"), ("GROUNDWORK_FORGE_NAME", "n")]);
    assert_eq!(ResolvedForge::from_environment(&e), Err(TakeError::UnsupportedForgeType("gitlab".to_string())));
}

#[test]
fn take_environment_prefers_process_values_over_config() {
    let process = env(&[("GROUNDWORK_FORGE_OWNER", "env-owner"), ("GROUNDWORK_FORGE_NAME", "env-name"), ("GROUNDWORK_FORGE_TYPE", "")]);
    let resolved = ResolvedForge::from_environment(&resolve_take_forge_environment(&github_forge_config(), &process)).unwrap();
    assert_eq!(resolved, ResolvedForge::Github { owner: "env-owner".to_string(), name: "env-name".to_string() });
    let defaults = resolve_take_forge_environment(&ForgeConfig::default(), &Vec::new());
    assert_eq!(defaults, env(&[("GROUNDWORK_FORGE_TYPE", "github")]));
}

#[test]
fn credentials_are_taken_in_order_of_preference() {
    let github = ResolvedForge::Github { owner: "o".into(), name: "n".into() };
    let names = credential_names(&github);
    assert_eq!(names, vec!["GITHUB_TOKEN", "GH_TOKEN"]);
    assert_eq!(required_credential(&env(&[("GH_TOKEN", "b"), ("GITHUB_TOKEN", "")]), &names), Ok("b".to_string()));
    assert_eq!(required_credential(&env(&[]), &names), Err(TakeError::MissingCredential("GITHUB_TOKEN")));
}

#[test]
fn github_issue_with_verification_gate_becomes_work_unit() {
    let body = r#"
What must be true:

This section has prose but no list.

Verification gate:

1. `runa take 58` writes the work unit.
2. `runa go --work-unit 58` can advance it.
"#;
    let issue = ForgeIssue {
        title: "Add runa take".to_string(),
        body: body.to_string(),
        handle: ForgeHandle::Github { url: "https://github.com/tesserine/runa/issues/58".to_string(), number: 58 },
    };

    let work_unit = issue.into_work_unit().unwrap();

    assert_eq!(
        to_json_string(&work_unit),
        [
            r#"{"acceptance_criteria":["`runa take 58` writes the work unit.","`runa go --work-unit 58` can advance it."],"#,
            r#""description":"What must be true:\n\nThis section has prose but no list.\n\nVerification gate:\n\n1. `runa take 58` writes the work unit.\n2. `runa go --work-unit 58` can advance it.","#,
            r#""handle":{"forge_tag":"github","number":58,"url":"https://github.com/tesserine/runa/issues/58"},"title":"Add runa take"}"#
        ]
        .concat()
    );
}

#[test]
fn sourcehut_issue_uses_configured_tracker_id_in_handle() {
    let issue = ForgeIssue {
        title: "SourceHut take".to_string(),
        body: "\nAcceptance criteria:\n\n- Fetches from SourceHut.\n".to_string(),
        handle: ForgeHandle::Sourcehut { tracker_id: 4, number: 58 },
    };

    let work_unit = issue.into_work_unit().unwrap();
    match work_unit {
        JsonValue::Object(members) => {
            assert_eq!(members[2].0, "handle");
            assert_eq!(to_json_string(&members[2].1), r#"{"forge_tag":"sourcehut","number":58,"tracker_id":4}"#);
        },
        other => panic!("not an object: {other:?}"),
    }
}

#[test]
fn issue_without_body_or_criteria_is_rejected() {
    let empty = ForgeIssue { title: "t".into(), body: "  \n ".into(), handle: ForgeHandle::Sourcehut { tracker_id: 1, number: 2 } };
    assert_eq!(empty.into_work_unit(), Err(TakeError::EmptyIssueBody));
    let prose = ForgeIssue { title: "t".into(), body: "Just prose.".into(), handle: ForgeHandle::Sourcehut { tracker_id: 1, number: 2 } };
    assert_eq!(prose.into_work_unit(), Err(TakeError::MissingAcceptanceCriteria));
}

#[test]
fn acceptance_criteria_headings_and_list_forms() {
    let body = "## Acceptance Criteria\r\n* first \r\n+ second\r\n10. third\r\nnot an item\r\n\r\n- fourth\r\n## Next:\r\n- ignored";
    assert_eq!(
        extract_acceptance_criteria(body).unwrap(),
        vec!["first".to_string(), "second".to_string(), "third".to_string(), "fourth".to_string()]
    );
    assert_eq!(extract_acceptance_criteria("What must be true\n. dotted"), Ok(vec!["dotted".to_string()]));
    assert_eq!(extract_acceptance_criteria("Acceptance criteria:\nNotes:\n- late"), Err(TakeError::MissingAcceptanceCriteria));
}

#[test]
fn github_parser_rejects_pull_request_payloads() {
    let payload = obj(vec![
        ("number", n(58)),
        ("title", s("A pull request")),
        ("body", s("Acceptance criteria:\n\n- Never fetched as work.")),
        ("html_url", s("https://github.com/tesserine/runa/pull/58")),
        ("pull_request", obj(vec![])),
    ]);

    let err = parse_github_issue(&payload).unwrap_err();

    assert!(matches!(err, TakeError::PullRequestNotWorkUnit(58)));
}

#[test]
fn github_parser_reads_issue_fields() {
    let payload = obj(vec![("number", n(7)), ("title", s("T")), ("body", s("B")), ("html_url", s("https://x/7"))]);
    assert_eq!(
        parse_github_issue(&payload).unwrap(),
        ForgeIssue { title: "T".into(), body: "B".into(), handle: ForgeHandle::Github { url: "https://x/7".into(), number: 7 } }
    );
    let missing = obj(vec![("number", n(7)), ("title", s("T"))]);
    assert_eq!(parse_github_issue(&missing), Err(TakeError::MissingResponseField("body")));
    let negative = obj(vec![("number", JsonValue::Number("-7".into()))]);
    assert_eq!(parse_github_issue(&negative), Err(TakeError::MissingResponseField("number")));
}

#[test]
fn sourcehut_parser_uses_configured_tracker_id_in_handle() {
    let payload = obj(vec![(
        "data",
        obj(vec![(
            "user",
            obj(vec![(
                "tracker",
                obj(vec![
                    ("id", s("opaque-tracker-id")),
                    (
                        "ticket",
                        obj(vec![
                            ("id", n(58)),
                            ("ref", s("operator/weforge#58")),
                            ("subject", s("SourceHut work")),
                            ("body", s("Verification gate:\n\n1. Fetch SourceHut issue.")),
                            ("status", s("reported")),
                            ("resolution", JsonValue::Null),
                        ]),
                    ),
                ]),
            )]),
        )]),
    )]);

    let issue = parse_sourcehut_issue(&payload, 4).unwrap();

    assert_eq!(
        issue,
        ForgeIssue {
            title: "SourceHut work".to_string(),
            body: "Verification gate:\n\n1. Fetch SourceHut issue.".to_string(),
            handle: ForgeHandle::Sourcehut { tracker_id: 4, number: 58 }
        }
    );
}

#[test]
fn sourcehut_parser_reports_api_errors_as_json() {
    let payload = obj(vec![("errors", JsonValue::Array(vec![obj(vec![("message", s("no \"ticket\"\n"))])]))]);
    assert_eq!(parse_sourcehut_issue(&payload, 4), Err(TakeError::ForgeApi(r#"[{"message":"no \"ticket\"\n"}]"#.to_string())));
    let empty = obj(vec![("errors", JsonValue::Array(vec![]))]);
    assert_eq!(parse_sourcehut_issue(&empty, 4), Err(TakeError::MissingResponseField("data.user.tracker.ticket")));
}

#[test]
fn work_unit_type_is_found_by_name() {
    let types = vec![
        ArtifactType { name: "claim".into(), schema: JsonValue::Null },
        ArtifactType { name: "work-unit".into(), schema: JsonValue::Bool(true) },
    ];
    assert_eq!(find_work_unit_type(&types).unwrap().schema, JsonValue::Bool(true));
    assert_eq!(find_work_unit_type(&types[..1].iter().map(|t| ArtifactType { name: t.name.clone(), schema: JsonValue::Null }).collect()).err(), Some(TakeError::MissingWorkUnitArtifactType));
}

#[test]
fn json_text_escapes_control_characters() {
    let v = JsonValue::Array(vec![s("a\u{1}b\t"), JsonValue::Bool(false), JsonValue::Null, n(3)]);
    assert_eq!(to_json_string(&v), r#"["a\u0001b\t",false,null,3]"#);
}
