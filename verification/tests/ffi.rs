use pmmlruntime::textmap::TextMap;
use pmmlruntime::error::PmmlError;
use pmmlruntime::ffi::{
    api_version_available, make_status, status_code, status_from_error, status_invalid_arg,
    status_message, GraphOptimizationLevel, PmmlErrorCode, PmmlGraphOptimizationLevel,
    PmmlLogLevel, RunOptionsHandle, SessionOptionsHandle,
};

#[test]
fn error_codes_follow_the_header() {
    assert_eq!(PmmlErrorCode::Success.code(), 0);
    assert_eq!(PmmlErrorCode::InvalidArgument.code(), 1);
    assert_eq!(PmmlErrorCode::Io.code(), 2);
    assert_eq!(PmmlErrorCode::Parse.code(), 3);
    assert_eq!(PmmlErrorCode::UnsupportedMarkup.code(), 4);
    assert_eq!(PmmlErrorCode::InvalidValue.code(), 5);
    assert_eq!(PmmlErrorCode::Validation.code(), 6);
    assert_eq!(PmmlErrorCode::Oom.code(), 7);
    assert_eq!(PmmlErrorCode::Unknown.code(), 8);
}

#[test]
fn error_code_from_each_error_variant() {
    let cases = vec![
        (PmmlError::Io("x".into()), PmmlErrorCode::Io),
        (PmmlError::parse("c", "m"), PmmlErrorCode::Parse),
        (PmmlError::unsupported("m"), PmmlErrorCode::UnsupportedMarkup),
        (PmmlError::invalid("m"), PmmlErrorCode::InvalidValue),
        (PmmlError::TypeError("m".into()), PmmlErrorCode::InvalidValue),
        (PmmlError::ValidationError("m".into()), PmmlErrorCode::Validation),
        (PmmlError::ArithmeticOverflow("m".into()), PmmlErrorCode::InvalidValue),
        (PmmlError::missing("f"), PmmlErrorCode::InvalidValue),
        (PmmlError::Other("m".into()), PmmlErrorCode::Unknown),
    ];
    for (e, c) in cases {
        assert_eq!(PmmlErrorCode::from(&e), c);
    }
}

#[test]
fn status_from_error_carries_code_and_message() {
    let s = status_from_error(PmmlError::parse("xml", "bad"));
    assert_eq!(s.code, PmmlErrorCode::Parse);
    assert_eq!(s.message, "parse error at xml: bad");
}

#[test]
fn status_invalid_arg_message() {
    let s = status_invalid_arg("CreateEnv: out is null");
    assert_eq!(s.code, PmmlErrorCode::InvalidArgument);
    assert_eq!(s.message, "CreateEnv: out is null");
}

#[test]
fn status_message_with_nul_is_replaced() {
    let s = make_status(PmmlErrorCode::Unknown, "a\0b".to_string());
    assert_eq!(s.message, "invalid status message");
    let t = make_status(PmmlErrorCode::Unknown, "plain".to_string());
    assert_eq!(t.message, "plain");
}

#[test]
fn no_status_means_success() {
    assert_eq!(status_code(None), PmmlErrorCode::Success);
    assert!(status_message(None).is_none());
    let s = status_invalid_arg("x");
    assert_eq!(status_code(Some(&s)), PmmlErrorCode::InvalidArgument);
    assert_eq!(status_message(Some(&s)).map(|m| m.as_str()), Some("x"));
}

#[test]
fn only_version_one_of_the_api_exists() {
    assert!(api_version_available(1));
    assert!(!api_version_available(0));
    assert!(!api_version_available(2));
}

#[test]
fn session_options_defaults() {
    let h = SessionOptionsHandle::default();
    assert_eq!(h.graph_level, PmmlGraphOptimizationLevel::EnableBasic);
    assert_eq!(h.intra_threads, 0);
    assert_eq!(h.inter_threads, 0);
    assert_eq!(h.log_level, PmmlLogLevel::Warning);
    assert_eq!(h.providers.len(), 1);
    assert_eq!(h.providers[0].0, "CPU");
    assert!(h.configs.get("anything").is_none());
    assert_eq!(h.to_rust(), GraphOptimizationLevel::EnableBasic);
}

#[test]
fn session_options_level_mapping() {
    let mut h = SessionOptionsHandle::default();
    h.graph_level = PmmlGraphOptimizationLevel::DisableAll;
    assert_eq!(h.to_rust(), GraphOptimizationLevel::DisableAll);
    h.graph_level = PmmlGraphOptimizationLevel::EnableExtended;
    assert_eq!(h.to_rust(), GraphOptimizationLevel::EnableExtended);
    h.graph_level = PmmlGraphOptimizationLevel::EnableAll;
    assert_eq!(h.to_rust(), GraphOptimizationLevel::EnableAll);
}

#[test]
fn config_entries_replace_values() {
    let mut h = SessionOptionsHandle::default();
    h.add_config_entry("k".to_string(), "1".to_string());
    h.add_config_entry("j".to_string(), "2".to_string());
    h.add_config_entry("k".to_string(), "3".to_string());
    assert_eq!(h.configs.get("k").map(|s| s.as_str()), Some("3"));
    assert_eq!(h.configs.get("j").map(|s| s.as_str()), Some("2"));
    assert!(h.configs.get("z").is_none());
}

#[test]
fn execution_provider_is_appended_with_its_options() {
    let mut h = SessionOptionsHandle::default();
    let keys = vec!["a".to_string(), "b".to_string(), "a".to_string()];
    let values = vec!["1".to_string(), "2".to_string(), "3".to_string()];
    h.append_execution_provider("GPU".to_string(), &keys, &values);
    assert_eq!(h.providers.len(), 2);
    assert_eq!(h.providers[1].0, "GPU");
    assert_eq!(h.providers[1].1.get("a").map(|s| s.as_str()), Some("3"));
    assert_eq!(h.providers[1].1.get("b").map(|s| s.as_str()), Some("2"));
}

#[test]
fn config_map_lookup_after_insert() {
    let mut m = TextMap::new();
    assert!(m.get("x").is_none());
    m.insert("x".to_string(), "1".to_string());
    m.insert("y".to_string(), "2".to_string());
    assert_eq!(m.get("x").map(|s| s.as_str()), Some("1"));
    m.insert("x".to_string(), "9".to_string());
    assert_eq!(m.get("x").map(|s| s.as_str()), Some("9"));
    assert_eq!(m.get("y").map(|s| s.as_str()), Some("2"));
}

#[test]
fn run_options_defaults() {
    let r = RunOptionsHandle::new();
    assert!(r.tag.is_none());
    assert_eq!(r.log_level, PmmlLogLevel::Warning);
}
