use libagent::forge_address::{
    payload_env, payload_env_from_json_result, ForgeAddressError, ForgeProject, ForgeType, RawForgeInstance, RawForges, RawRepository, RawTracker,
};

fn sourcehut_project(owner: &str) -> ForgeProject {
    ForgeProject::resolve(RawForges {
        instances: vec![RawForgeInstance {
            id: "sourcehut-main".to_string(),
            forge_type: "sourcehut".to_string(),
            host: None,
            git_host: Some("git.sr.ht".to_string()),
            tracker_host: Some("todo.sr.ht".to_string()),
        }],
        repositories: vec![RawRepository {
            id: "tool".to_string(),
            instance: "sourcehut-main".to_string(),
            owner: owner.to_string(),
            name: "tool".to_string(),
        }],
        trackers: vec![RawTracker {
            id: "tool".to_string(),
            instance: "sourcehut-main".to_string(),
            owner: owner.to_string(),
            name: "tool".to_string(),
            tracker_id: Some("ABC".to_string()),
        }],
    })
    .unwrap()
}

fn github_instance() -> RawForgeInstance {
    RawForgeInstance {
        id: "github-com".to_string(),
        forge_type: "github".to_string(),
        host: Some("github.com".to_string()),
        git_host: None,
        tracker_host: None,
    }
}

#[test]
fn payload_env_returns_payload_serialization_errors() {
    let error = payload_env_from_json_result(Err(ForgeAddressError::MalformedPayload("synthetic failure".to_string()))).unwrap_err();
    assert!(matches!(error, ForgeAddressError::MalformedPayload(detail) if detail == "synthetic failure"));
}

#[test]
fn sourcehut_owner_is_canonical_with_single_tilde_in_payload_identities() {
    let with_plain_owner = sourcehut_project("alice");
    let with_prefixed_owner = sourcehut_project("~alice");

    assert_eq!(with_plain_owner, with_prefixed_owner);
    assert_eq!(with_plain_owner.repositories[0].owner, "~alice");
    assert_eq!(with_plain_owner.repositories[0].identity, "sourcehut@git=git.sr.ht,tracker=todo.sr.ht/repo/~alice/tool");
    assert_eq!(with_plain_owner.trackers[0].identity, "sourcehut@git=git.sr.ht,tracker=todo.sr.ht/tracker/~alice/tool/ABC");
}

#[test]
fn payload_env_carries_the_payload_under_its_variable() {
    let env = payload_env_from_json_result(Ok("{}".to_string())).unwrap();
    assert_eq!(env, vec![("RUNA_FORGE_ADDRESSES".to_string(), "{}".to_string())]);
}

#[test]
fn forge_type_parses_known_names_only() {
    assert_eq!(ForgeType::parse("github"), Ok(ForgeType::Github));
    assert_eq!(ForgeType::parse("sourcehut"), Ok(ForgeType::Sourcehut));
    assert_eq!(ForgeType::parse("gitlab"), Err(ForgeAddressError::UnsupportedForgeType { forge_type: "gitlab".into() }));
    assert_eq!(ForgeType::Github.as_str(), "github");
}

#[test]
fn github_repository_derives_tracker() {
    let project = ForgeProject::resolve(RawForges {
        instances: vec![github_instance()],
        repositories: vec![RawRepository {
            id: "runa".to_string(),
            instance: "github-com".to_string(),
            owner: "tesserine".to_string(),
            name: "runa".to_string(),
        }],
        trackers: vec![],
    })
    .unwrap();
    assert_eq!(project.repositories[0].identity, "github@github.com/repo/tesserine/runa");
    assert_eq!(project.trackers.len(), 1);
    assert_eq!(project.trackers[0].identity, "github@github.com/tracker/tesserine/runa");
    assert_eq!(project.tracker(None).unwrap().id, "runa");
    assert_eq!(project.work_unit_identity(None, 7).unwrap(), "github@github.com/tracker/tesserine/runa#7");
}

#[test]
fn unknown_instance_is_rejected() {
    let err = ForgeProject::resolve(RawForges {
        instances: vec![github_instance()],
        repositories: vec![RawRepository {
            id: "runa".to_string(),
            instance: "elsewhere".to_string(),
            owner: "tesserine".to_string(),
            name: "runa".to_string(),
        }],
        trackers: vec![],
    })
    .unwrap_err();
    assert!(matches!(err, ForgeAddressError::UnknownInstance { .. }));
}

#[test]
fn duplicate_instance_id_is_rejected() {
    let err = ForgeProject::resolve(RawForges {
        instances: vec![github_instance(), github_instance()],
        repositories: vec![],
        trackers: vec![],
    })
    .unwrap_err();
    assert!(matches!(err, ForgeAddressError::DuplicateId { .. }));
}

#[test]
fn sourcehut_tracker_requires_tracker_id() {
    let err = ForgeProject::resolve(RawForges {
        instances: vec![RawForgeInstance {
            id: "sh".to_string(),
            forge_type: "sourcehut".to_string(),
            host: None,
            git_host: Some("git.sr.ht".to_string()),
            tracker_host: Some("todo.sr.ht".to_string()),
        }],
        repositories: vec![],
        trackers: vec![RawTracker {
            id: "t".to_string(),
            instance: "sh".to_string(),
            owner: "alice".to_string(),
            name: "tool".to_string(),
            tracker_id: None,
        }],
    })
    .unwrap_err();
    assert!(matches!(err, ForgeAddressError::MissingSourcehutTrackerId { .. }));
}

#[test]
fn bare_tracker_reference_needs_a_single_tracker() {
    let project = ForgeProject::default();
    assert!(project.tracker(None).is_err());
}

#[test]
fn payload_env_serializes_the_project_with_sorted_keys() {
    let project = sourcehut_project("alice");
    let repository = match &project.trackers[0].repository {
        Some(r) => format!("\"{r}\""),
        None => "null".to_string(),
    };
    let expected = String::new()
        + "{\"instances\":[{\"id\":\"sourcehut-main\",\"services\":{\"git\":\"git.sr.ht\",\"tracker\":\"todo.sr.ht\"},"
        + "\"type\":\"sourcehut\"}],"
        + "\"repositories\":[{\"id\":\"tool\",\"identity\":\"sourcehut@git=git.sr.ht,tracker=todo.sr.ht/repo/~alice/tool\","
        + "\"instance\":\"sourcehut-main\",\"name\":\"tool\",\"owner\":\"~alice\"}],"
        + "\"schema_version\":1,"
        + "\"trackers\":[{\"id\":\"tool\",\"identity\":\"sourcehut@git=git.sr.ht,tracker=todo.sr.ht/tracker/~alice/tool/ABC\","
        + "\"instance\":\"sourcehut-main\",\"name\":\"tool\",\"owner\":\"~alice\",\"repository\":"
        + &repository
        + ",\"tracker_id\":\"ABC\"}]}";

    let env = payload_env(&project).unwrap();

    assert_eq!(env.len(), 1);
    assert_eq!(env[0].0, "RUNA_FORGE_ADDRESSES");
    assert_eq!(env[0].1, expected);
    assert_eq!(project.payload_json().unwrap(), expected);
}

#[test]
fn forge_type_names_parse_back() {
    for t in [ForgeType::Github, ForgeType::Sourcehut] {
        assert_eq!(ForgeType::parse(t.as_str()), Ok(t));
    }
}
