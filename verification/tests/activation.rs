use libagent::activation::{ActivationError, ActivationStore};

fn lookup(ctx: &[(String, u64)], name: &str) -> u64 {
    ctx.iter().find(|(p, _)| p == name).map(|(_, t)| *t).unwrap()
}

fn now_ms() -> u64 {
    std::time::SystemTime::now().duration_since(std::time::UNIX_EPOCH).unwrap().as_millis() as u64
}

#[test]
fn record_and_get() {
    let mut store = ActivationStore::new();
    store.record_at("ground", Some("feature-x"), 1000);
    assert_eq!(store.get("ground", Some("feature-x")), Some(1000));
    assert_eq!(store.get("ground", None), None);
    assert_eq!(store.get("other", Some("feature-x")), None);
}

#[test]
fn record_overwrites_previous() {
    let mut store = ActivationStore::new();
    store.record_at("ground", Some("x"), 1000);
    store.record_at("ground", Some("x"), 2000);
    assert_eq!(store.get("ground", Some("x")), Some(2000));
}

#[test]
fn is_activated() {
    let mut store = ActivationStore::new();
    assert!(!store.is_activated("ground", None));
    store.record_at("ground", None, 1000);
    assert!(store.is_activated("ground", None));
}

#[test]
fn none_work_unit() {
    let mut store = ActivationStore::new();
    store.record_at("ground", None, 500);
    assert_eq!(store.get("ground", None), Some(500));
    assert!(store.is_activated("ground", None));
    assert!(!store.is_activated("ground", Some("x")));
}

#[test]
fn timestamps_for_trigger_context_scoped() {
    let mut store = ActivationStore::new();
    store.record_at("ground", Some("feature-x"), 1000);
    store.record_at("implement", Some("feature-x"), 2000);
    store.record_at("ground", Some("feature-y"), 3000);
    store.record_at("deploy", None, 4000);

    let ctx = store.timestamps_for_trigger_context(Some("feature-x"));
    assert_eq!(ctx.len(), 2);
    assert_eq!(lookup(&ctx, "ground"), 1000);
    assert_eq!(lookup(&ctx, "implement"), 2000);

    let ctx_none = store.timestamps_for_trigger_context(None);
    assert_eq!(ctx_none.len(), 1);
    assert_eq!(lookup(&ctx_none, "deploy"), 4000);
}

#[test]
fn record_uses_current_time() {
    let mut store = ActivationStore::new();
    let before = now_ms();
    store.record("test", Some("wu"));
    let after = now_ms();

    let ts = store.get("test", Some("wu")).unwrap();
    assert!(ts >= before && ts <= after);
}

#[test]
fn sorted_entries_order_by_protocol_then_work_unit() {
    let mut store = ActivationStore::new();
    store.record_at("b-proto", Some("wu-2"), 2000);
    store.record_at("a-proto", Some("wu-1"), 1000);
    store.record_at("a-proto", None, 500);
    let names: Vec<(String, Option<String>)> = store.sorted_entries().into_iter().map(|(p, w, _)| (p, w)).collect();
    assert_eq!(
        names,
        vec![
            ("a-proto".to_string(), None),
            ("a-proto".to_string(), Some("wu-1".to_string())),
            ("b-proto".to_string(), Some("wu-2".to_string())),
        ]
    );
}

#[test]
fn recording_one_key_leaves_others_unchanged() {
    let mut store = ActivationStore::new();
    store.record_at("ground", Some("a"), 10);
    store.record_at("ground", Some("b"), 20);
    store.record_at("ground", Some("a"), 30);
    assert_eq!(store.get("ground", Some("b")), Some(20));
    assert_eq!(store.get("ground", Some("a")), Some(30));
}

#[test]
fn activation_error_messages() {
    assert_eq!(ActivationError::Io("denied".into()).to_display_string(), "activation store I/O error: denied");
    assert_eq!(ActivationError::Parse("bad".into()).to_display_string(), "activation store parse error: bad");
}
