use mark_dir::config::{
    decode_config, encode_config, error_message, load_or_create_config, ConfigLoadError,
    ConfigSaveError, IoErrorKind, LoadDecision, ReadOutcome,
};
use mark_dir::dirmark::Dirmarks;

#[test]
fn encode_empty_store_is_empty_document() {
    let st = Dirmarks::new();
    let text = encode_config(&st).expect("encoding cannot fail here");
    assert_eq!(text, "{\n  \"dirmarks\": {}\n}");
}

#[test]
fn encode_one_entry_pretty_document() {
    let mut st = Dirmarks::new();
    st.insert_at("x", "/tmp".to_string());
    let text = encode_config(&st).expect("encoding cannot fail here");
    assert_eq!(
        text,
        "{\n  \"dirmarks\": {\n    \"x\": {\n      \"path\": \"/tmp\"\n    }\n  }\n}"
    );
}

#[test]
fn decode_concrete_document() {
    let st = decode_config("{\"dirmarks\": {\"x\": {\"path\": \"/tmp\"}}}").expect("valid config");
    assert_eq!(st.get_all().len(), 1);
    assert_eq!(st.get_at("x").unwrap().path, "/tmp");
}

#[test]
fn round_trip_restores_store() {
    let mut st = Dirmarks::new();
    st.insert_at("work.proj1", "/home/u/proj1".to_string());
    st.insert_at("a", "/a path with \"quotes\" and \\slashes".to_string());
    st.insert_at("ab", "/b".to_string());
    let text = encode_config(&st).expect("encoding cannot fail here");
    let back = decode_config(&text).expect("own output must decode");
    assert_eq!(back, st);
    let keys: Vec<&str> = back.get_all().iter().map(|e| e.0.as_str()).collect();
    assert_eq!(keys, vec!["a", "ab", "work.proj1"]);
}

#[test]
fn invalid_json_is_serialization_failure() {
    let r = decode_config("{ this is not json");
    assert!(matches!(r, Err(ConfigLoadError::Serialization(_))));
}

#[test]
fn missing_dirmarks_member_is_serialization_failure() {
    let r = decode_config("{}");
    assert_eq!(r.unwrap_err(), ConfigLoadError::Serialization(None));
}

#[test]
fn record_without_path_is_serialization_failure() {
    let r = decode_config("{\"dirmarks\": {\"x\": {}}}");
    assert_eq!(r.unwrap_err(), ConfigLoadError::Serialization(None));
}

#[test]
fn wrong_shape_is_serialization_failure() {
    let r = decode_config("{\"dirmarks\": {\"x\": 5}}");
    assert!(matches!(r, Err(ConfigLoadError::Serialization(_))));
}

#[test]
fn load_or_create_missing_file_creates() {
    let d = load_or_create_config(ReadOutcome::IoFailure(IoErrorKind::NotFound));
    assert!(matches!(d, LoadDecision::CreateNew));
}

#[test]
fn load_or_create_permission_failure_is_fatal() {
    let d = load_or_create_config(ReadOutcome::IoFailure(IoErrorKind::PermissionDenied));
    match d {
        LoadDecision::Fail(e) => assert_eq!(e, ConfigLoadError::Io(IoErrorKind::PermissionDenied)),
        _ => panic!("expected a fatal failure"),
    }
}

#[test]
fn load_or_create_decodes_content() {
    let d = load_or_create_config(ReadOutcome::Content(
        "{\"dirmarks\": {\"x\": {\"path\": \"/tmp\"}}}".to_string(),
    ));
    match d {
        LoadDecision::Loaded(st) => assert_eq!(st.get_at("x").unwrap().path, "/tmp"),
        _ => panic!("expected a loaded store"),
    }
}

#[test]
fn load_or_create_never_resets_on_bad_content() {
    let d = load_or_create_config(ReadOutcome::Content("not json at all".to_string()));
    assert!(matches!(d, LoadDecision::Fail(ConfigLoadError::Serialization(_))));
}

#[test]
fn error_messages_are_classified() {
    assert_eq!(error_message(IoErrorKind::NotFound), "File not found");
    assert_eq!(error_message(IoErrorKind::PermissionDenied), "Permission denied");
    assert_eq!(error_message(IoErrorKind::Other), "Unknown error");
    assert_eq!(ConfigSaveError::Io(IoErrorKind::NotFound).message(), "File not found");
    assert_eq!(ConfigSaveError::Serialization(None).message(), "Unknown error");
    assert_eq!(
        ConfigSaveError::Serialization(Some(IoErrorKind::PermissionDenied)).message(),
        "Permission denied"
    );
    assert_eq!(ConfigLoadError::Io(IoErrorKind::Other).message(), "Unknown error");
    assert_eq!(ConfigLoadError::Serialization(None).message(), "Unknown error");
}
