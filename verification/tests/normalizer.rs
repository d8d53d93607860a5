use shai_hulud_v2_checker::error::ScanError;
use shai_hulud_v2_checker::normalize::{clean_version_name, extract_name};

fn raw(entries: &[(&str, &str)]) -> Vec<(String, String)> {
    entries.iter().map(|(k, v)| (k.to_string(), v.to_string())).collect()
}

#[test]
fn extracts_plain_name() {
    let r = extract_name(&"node_modules/express".to_string());
    assert_eq!(r, Some("express".to_string()));
}

#[test]
fn extracts_scoped_name() {
    let r = extract_name(&"node_modules/@babel/core".to_string());
    assert_eq!(r, Some("@babel/core".to_string()));
}

#[test]
fn extracts_after_last_marker() {
    let r = extract_name(&"a/node_modules/b/node_modules/c".to_string());
    assert_eq!(r, Some("c".to_string()));
}

#[test]
fn rejects_key_without_marker() {
    assert_eq!(extract_name(&"express".to_string()), None);
    assert_eq!(extract_name(&"some/other/path".to_string()), None);
}

#[test]
fn rejects_key_ending_in_marker() {
    assert_eq!(extract_name(&"node_modules/".to_string()), None);
    assert_eq!(extract_name(&"a/node_modules/".to_string()), None);
}

#[test]
fn normalizes_single_entry() {
    let c = clean_version_name(&raw(&[("node_modules/left-pad", "1.0.0")])).unwrap();
    assert_eq!(c.len(), 1);
    let info = c.get(&"left-pad".to_string()).unwrap();
    assert_eq!(info.version, vec!["1.0.0".to_string()]);
    assert!(!info.skipped_scan);
}

#[test]
fn merges_duplicate_names_and_dedups_versions() {
    let c = clean_version_name(&raw(&[
        ("node_modules/x", "1.0.0"),
        ("a/node_modules/x", "2.0.0"),
        ("b/node_modules/x", "1.0.0"),
    ]))
    .unwrap();
    assert_eq!(c.len(), 1);
    let info = c.get(&"x".to_string()).unwrap();
    assert_eq!(info.version, vec!["1.0.0".to_string(), "2.0.0".to_string()]);
}

#[test]
fn skips_empty_keys() {
    let c = clean_version_name(&raw(&[("", "9.9.9"), ("node_modules/y", "0.1.0")])).unwrap();
    assert_eq!(c.len(), 1);
    assert!(c.contains(&"y".to_string()));
    assert!(!c.contains(&"".to_string()));
}

#[test]
fn malformed_key_aborts() {
    let r = clean_version_name(&raw(&[("node_modules/ok", "1.0.0"), ("bare-name", "2.0.0")]));
    match r {
        Err(ScanError::MalformedManifestKey { key }) => assert_eq!(key, "bare-name"),
        _ => panic!("expected a malformed-key error"),
    }
}

#[test]
fn renormalizing_output_is_rejected() {
    // extraction strips the marker, so feeding the normalized names back in
    // is an input-format error by design, not a no-op
    let c = clean_version_name(&raw(&[("node_modules/left-pad", "1.0.0")])).unwrap();
    let keys = c.keys();
    let again: Vec<(String, String)> =
        keys.into_iter().map(|k| (k, "1.0.0".to_string())).collect();
    assert!(matches!(
        clean_version_name(&again),
        Err(ScanError::MalformedManifestKey { .. })
    ));
}
