use flow_insight::paths::data_root;

#[test]
fn installed_app_uses_user_storage_and_preserves_explicit_override() {
    let source = "/src/flow-insight";
    let home = "/Users/test-user".to_string();
    assert_eq!(
        data_root(None, Some(home.clone()), true, source).unwrap(),
        "/Users/test-user/Library/Application Support/Flow Insight"
    );
    let isolated = "/tmp/flow-insight-test".to_string();
    assert_eq!(data_root(Some(isolated.clone()), None, true, source).unwrap(), isolated);
    assert!(data_root(None, None, true, source).is_err());
    assert_eq!(data_root(None, None, false, source).unwrap(), "/src/flow-insight/data/runtime");
}

#[test]
fn a_home_ending_in_a_slash_gets_no_second_one() {
    assert_eq!(data_root(None, Some("/home/u/".into()), true, "/x").unwrap(), "/home/u/Library/Application Support/Flow Insight");
    assert_eq!(data_root(None, None, false, "").unwrap(), "data/runtime");
}
