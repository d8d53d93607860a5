use shai_hulud_v2_checker::feed::parse_affected_packages;

#[test]
fn decodes_a_feed_document() {
    let text = "Package,Version\nleft-pad,=1.0.0||=1.0.1\n@scope/pkg,2.0.0\n".to_string();
    let records = parse_affected_packages(&text).unwrap();
    assert_eq!(records.len(), 2);
    assert_eq!(records[0].package, "left-pad");
    assert_eq!(records[0].version, vec!["1.0.0".to_string(), "1.0.1".to_string()]);
    assert_eq!(records[1].package, "@scope/pkg");
    assert_eq!(records[1].version, vec!["2.0.0".to_string()]);
}

#[test]
fn finds_columns_wherever_they_stand() {
    let text = "Note,Version,Package\nsome remark,=3.1.4,pkg-a\n".to_string();
    let records = parse_affected_packages(&text).unwrap();
    assert_eq!(records.len(), 1);
    assert_eq!(records[0].package, "pkg-a");
    assert_eq!(records[0].version, vec!["3.1.4".to_string()]);
}

#[test]
fn handles_quoted_fields() {
    let text = "Package,Version\n\"quoted,name\",\"=1.0.0 || =2.0.0\"\n".to_string();
    let records = parse_affected_packages(&text).unwrap();
    assert_eq!(records[0].package, "quoted,name");
    assert_eq!(records[0].version, vec!["1.0.0".to_string(), "2.0.0".to_string()]);
}

#[test]
fn rejects_document_without_package_column() {
    let text = "Name,Version\nleft-pad,1.0.0\n".to_string();
    assert!(parse_affected_packages(&text).is_none());
}

#[test]
fn rejects_document_without_version_column() {
    let text = "Package,Versions\nleft-pad,1.0.0\n".to_string();
    assert!(parse_affected_packages(&text).is_none());
}

#[test]
fn rejects_ragged_rows() {
    let text = "Package,Version\nleft-pad\n".to_string();
    assert!(parse_affected_packages(&text).is_none());
}

#[test]
fn decodes_an_empty_table() {
    let text = "Package,Version\n".to_string();
    let records = parse_affected_packages(&text).unwrap();
    assert!(records.is_empty());
}
