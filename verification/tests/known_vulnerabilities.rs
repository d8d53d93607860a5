use shai_hulud_v2_checker::normalize::clean_version_name;
use shai_hulud_v2_checker::package::PackageVulnerableRecord;
use shai_hulud_v2_checker::scanner::{check_vulnerable_packages, matched_versions};
use shai_hulud_v2_checker::versions::split_versions;

fn raw(entries: &[(&str, &str)]) -> Vec<(String, String)> {
    entries.iter().map(|(k, v)| (k.to_string(), v.to_string())).collect()
}

fn record(name: &str, versions: &[&str]) -> PackageVulnerableRecord {
    PackageVulnerableRecord {
        package: name.to_string(),
        version: versions.iter().map(|v| v.to_string()).collect(),
    }
}

#[test]
fn splits_and_cleans_version_list() {
    let v = split_versions("=1.0.0||=1.0.1");
    assert_eq!(v, vec!["1.0.0".to_string(), "1.0.1".to_string()]);
}

#[test]
fn split_trims_whitespace() {
    let v = split_versions(" =1.0.0 || 2.1.3-beta.1 ");
    assert_eq!(v, vec!["1.0.0".to_string(), "2.1.3-beta.1".to_string()]);
}

#[test]
fn split_of_single_version() {
    assert_eq!(split_versions("4.2.0"), vec!["4.2.0".to_string()]);
}

#[test]
fn strips_only_the_leading_equals() {
    // one optional `=` prefix goes; an equals sign anywhere else stays
    assert_eq!(split_versions("==1.0.0"), vec!["=1.0.0".to_string()]);
    assert_eq!(split_versions("1.0=0"), vec!["1.0=0".to_string()]);
    assert_eq!(split_versions("= 1.0.0"), vec!["1.0.0".to_string()]);
}

#[test]
fn split_keeps_empty_pieces() {
    let v = split_versions("1.0.0||||2.0.0");
    assert_eq!(v, vec!["1.0.0".to_string(), "".to_string(), "2.0.0".to_string()]);
}

#[test]
fn split_of_empty_string_is_one_empty_piece() {
    assert_eq!(split_versions(""), vec!["".to_string()]);
}

#[test]
fn known_package_is_confirmed() {
    // manifest has node_modules/left-pad 1.0.0; the feed lists left-pad
    let packages = clean_version_name(&raw(&[("node_modules/left-pad", "1.0.0")])).unwrap();
    let feed = vec![record("left-pad", &["1.0.0", "1.0.1"])];
    let (remaining, confirmed) = check_vulnerable_packages(&feed, packages);
    assert_eq!(confirmed.len(), 1);
    assert!(confirmed.contains(&"left-pad".to_string()));
    assert_eq!(remaining.len(), 0);
}

#[test]
fn matching_is_name_driven() {
    // none of the installed versions is in the feed's version set, yet the
    // name alone moves the package to the confirmed collection
    let packages = clean_version_name(&raw(&[("node_modules/left-pad", "1.0.0")])).unwrap();
    let feed = vec![record("left-pad", &["9.9.9"])];
    let (remaining, confirmed) = check_vulnerable_packages(&feed, packages);
    assert!(confirmed.contains(&"left-pad".to_string()));
    assert_eq!(remaining.len(), 0);
    let info = confirmed.get(&"left-pad".to_string()).unwrap();
    assert!(!info.skipped_scan);
}

#[test]
fn unlisted_packages_remain() {
    let packages = clean_version_name(&raw(&[
        ("node_modules/left-pad", "1.0.0"),
        ("node_modules/safe-pkg", "2.0.0"),
    ]))
    .unwrap();
    let feed = vec![record("left-pad", &["1.0.0"])];
    let (remaining, confirmed) = check_vulnerable_packages(&feed, packages);
    assert!(confirmed.contains(&"left-pad".to_string()));
    assert!(remaining.contains(&"safe-pkg".to_string()));
    assert_eq!(confirmed.len(), 1);
    assert_eq!(remaining.len(), 1);
}

#[test]
fn feed_entry_for_absent_package_is_a_no_op() {
    let packages = clean_version_name(&raw(&[("node_modules/safe-pkg", "2.0.0")])).unwrap();
    let feed = vec![record("left-pad", &["1.0.0"])];
    let (remaining, confirmed) = check_vulnerable_packages(&feed, packages);
    assert_eq!(confirmed.len(), 0);
    assert_eq!(remaining.len(), 1);
}

#[test]
fn matched_versions_are_exact_members() {
    let vuln: Vec<String> = vec!["1.0.0".to_string(), "1.0.1".to_string()];
    let installed: Vec<String> =
        vec!["1.0.0".to_string(), "2.0.0".to_string(), "1.0.1".to_string()];
    let m = matched_versions(&vuln, &installed);
    assert_eq!(m, vec!["1.0.0".to_string(), "1.0.1".to_string()]);
}

#[test]
fn matched_versions_is_case_sensitive_exact() {
    let vuln: Vec<String> = vec!["1.0.0-BETA".to_string()];
    let installed: Vec<String> = vec!["1.0.0-beta".to_string()];
    let m = matched_versions(&vuln, &installed);
    assert!(m.is_empty());
}
