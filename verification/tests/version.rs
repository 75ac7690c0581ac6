use hp_core::version::{is_newer, strip_v_prefix, VersionInfo};

#[test]
fn strip_v_prefix_removes_one_v() {
    assert_eq!(strip_v_prefix("v0.2.0"), "0.2.0");
    assert_eq!(strip_v_prefix("V1.0.0"), "1.0.0");
    assert_eq!(strip_v_prefix("vv1"), "v1");
    assert_eq!(strip_v_prefix("1.0.0"), "1.0.0");
    assert_eq!(strip_v_prefix(""), "");
}

#[test]
fn is_newer_compares_semver_numerically() {
    assert!(is_newer("0.3.0", "0.2.9"));
    assert!(is_newer("1.10.0", "1.9.0"));
    assert!(!is_newer("1.9.0", "1.10.0"));
    assert!(!is_newer("1.2.3", "1.2.3"));
    assert!(is_newer("2.0.0", "1.99.99"));
}

#[test]
fn is_newer_falls_back_to_string_order() {
    assert!(is_newer("b", "a"));
    assert!(!is_newer("1.0", "1.0.0"));
    assert!(is_newer("1.0.0-beta", "1.0.0-alpha"));
}

#[test]
fn record_release_updates_state() {
    let mut v = VersionInfo::initial("0.1.0");
    assert_eq!(v.current, "0.1.0");
    assert!(v.latest.is_none() && !v.update_available && v.release_url.is_none());
    v.record_release("v0.2.0", "https://example.invalid/r".to_string(), "0.1.0");
    assert_eq!(v.latest.as_deref(), Some("0.2.0"));
    assert!(v.update_available);
    assert_eq!(v.release_url.as_deref(), Some("https://example.invalid/r"));
    v.record_release("v0.1.0", "u".to_string(), "0.1.0");
    assert!(!v.update_available);
}
