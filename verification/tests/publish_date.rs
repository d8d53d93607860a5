use shai_hulud_v2_checker::error::ScanError;
use shai_hulud_v2_checker::instant::{attack_instant, Instant, ATTACK_DATE};
use shai_hulud_v2_checker::normalize::clean_version_name;
use shai_hulud_v2_checker::registry::{evaluate_package, PackageView};
use shai_hulud_v2_checker::scanner::check_possible_vulnerable_packages;

fn raw(entries: &[(&str, &str)]) -> Vec<(String, String)> {
    entries.iter().map(|(k, v)| (k.to_string(), v.to_string())).collect()
}

fn view(times: &[(&str, &str)]) -> PackageView {
    let mut pv = PackageView::new();
    for (version, time) in times {
        pv.insert_time(version.to_string(), time.to_string());
    }
    pv
}

fn versions(vs: &[&str]) -> Vec<String> {
    vs.iter().map(|v| v.to_string()).collect()
}

#[test]
fn attack_date_parses() {
    assert!(attack_instant().is_some());
    assert_eq!(ATTACK_DATE, "2025-11-24T03:16:26.000Z");
}

#[test]
fn instant_comparison_is_strict() {
    let t = Instant { secs: 100, nanos: 500 };
    assert!(!t.is_after(&t));
    assert!(Instant { secs: 100, nanos: 501 }.is_after(&t));
    assert!(Instant { secs: 101, nanos: 0 }.is_after(&t));
    assert!(!Instant { secs: 100, nanos: 499 }.is_after(&t));
    assert!(!Instant { secs: 99, nanos: 999_999_999 }.is_after(&t));
}

#[test]
fn parser_yields_epoch_seconds() {
    // one second past the epoch must compare above an attack instant at the
    // epoch and not above one at that very second
    let pv = view(&[("1.0.0", "1970-01-01T00:00:01Z")]);
    let vs = versions(&["1.0.0"]);
    let epoch = Instant { secs: 0, nanos: 0 };
    assert_eq!(evaluate_package(&vs, &pv, &epoch), Ok(true));
    let same = Instant { secs: 1, nanos: 0 };
    assert_eq!(evaluate_package(&vs, &pv, &same), Ok(false));
}

#[test]
fn version_published_at_attack_instant_is_not_flagged() {
    let attack = attack_instant().unwrap();
    let pv = view(&[("1.0.0", ATTACK_DATE)]);
    let r = evaluate_package(&versions(&["1.0.0"]), &pv, &attack);
    assert_eq!(r, Ok(false));
}

#[test]
fn version_published_after_attack_instant_is_flagged() {
    let attack = attack_instant().unwrap();
    let pv = view(&[("1.0.0", "2025-11-24T03:16:27.000Z")]);
    let r = evaluate_package(&versions(&["1.0.0"]), &pv, &attack);
    assert_eq!(r, Ok(true));
}

#[test]
fn version_published_before_attack_instant_is_not_flagged() {
    let attack = attack_instant().unwrap();
    let pv = view(&[("1.0.0", "2024-01-01T00:00:00Z")]);
    let r = evaluate_package(&versions(&["1.0.0"]), &pv, &attack);
    assert_eq!(r, Ok(false));
}

#[test]
fn version_without_timestamp_is_passed_over() {
    let attack = attack_instant().unwrap();
    // 1.0.0 has no recorded time; 2.0.0 decides
    let pv = view(&[("2.0.0", "2025-12-01T00:00:00Z")]);
    let r = evaluate_package(&versions(&["1.0.0", "2.0.0"]), &pv, &attack);
    assert_eq!(r, Ok(true));
}

#[test]
fn unparsable_timestamp_is_fatal() {
    let attack = attack_instant().unwrap();
    let pv = view(&[("1.0.0", "not-a-date")]);
    match evaluate_package(&versions(&["1.0.0"]), &pv, &attack) {
        Err(ScanError::InvalidTimestamp { version, timestamp }) => {
            assert_eq!(version, "1.0.0");
            assert_eq!(timestamp, "not-a-date");
        },
        r => panic!("expected a timestamp error, got {:?}", r),
    }
}

#[test]
fn scoped_package_after_attack_goes_to_possible() {
    // manifest has node_modules/@scope/pkg 2.0.0, the feed misses it, and
    // the registry reports a publish time strictly after the attack instant
    let attack = attack_instant().unwrap();
    let packages = clean_version_name(&raw(&[("node_modules/@scope/pkg", "2.0.0")])).unwrap();
    let outcomes = vec![(
        "@scope/pkg".to_string(),
        Some(view(&[("2.0.0", "2025-11-24T03:16:27.000Z")])),
    )];
    let (remaining, possible) =
        check_possible_vulnerable_packages(packages, &outcomes, &attack).unwrap();
    assert_eq!(remaining.len(), 0);
    assert!(possible.contains(&"@scope/pkg".to_string()));
    assert!(!possible.get(&"@scope/pkg".to_string()).unwrap().skipped_scan);
}

#[test]
fn failed_query_marks_package_skipped() {
    // the registry query for foo fails: it stays put, flagged as skipped
    let attack = attack_instant().unwrap();
    let packages = clean_version_name(&raw(&[("node_modules/foo", "3.0.0")])).unwrap();
    let outcomes: Vec<(String, Option<PackageView>)> = vec![("foo".to_string(), None)];
    let (remaining, possible) =
        check_possible_vulnerable_packages(packages, &outcomes, &attack).unwrap();
    assert_eq!(possible.len(), 0);
    let info = remaining.get(&"foo".to_string()).unwrap();
    assert!(info.skipped_scan);
    assert_eq!(remaining.skipped_names(), vec!["foo".to_string()]);
}

#[test]
fn skip_flag_only_on_failed_queries() {
    let attack = attack_instant().unwrap();
    let packages = clean_version_name(&raw(&[
        ("node_modules/ok-pkg", "1.0.0"),
        ("node_modules/gone-pkg", "1.0.0"),
        ("node_modules/late-pkg", "1.0.0"),
    ]))
    .unwrap();
    let outcomes = vec![
        ("ok-pkg".to_string(), Some(view(&[("1.0.0", "2020-01-01T00:00:00Z")]))),
        ("gone-pkg".to_string(), None),
        ("late-pkg".to_string(), Some(view(&[("1.0.0", "2026-01-01T00:00:00Z")]))),
    ];
    let (remaining, possible) =
        check_possible_vulnerable_packages(packages, &outcomes, &attack).unwrap();
    assert!(!remaining.get(&"ok-pkg".to_string()).unwrap().skipped_scan);
    assert!(remaining.get(&"gone-pkg".to_string()).unwrap().skipped_scan);
    assert!(!possible.get(&"late-pkg".to_string()).unwrap().skipped_scan);
    assert_eq!(remaining.skipped_names(), vec!["gone-pkg".to_string()]);
}

#[test]
fn fatal_timestamp_aborts_phase() {
    let attack = attack_instant().unwrap();
    let packages = clean_version_name(&raw(&[("node_modules/bad", "1.0.0")])).unwrap();
    let outcomes = vec![("bad".to_string(), Some(view(&[("1.0.0", "garbage")])))];
    let r = check_possible_vulnerable_packages(packages, &outcomes, &attack);
    assert!(matches!(r, Err(ScanError::InvalidTimestamp { .. })));
}

#[test]
fn outcome_for_absent_name_is_a_no_op() {
    let attack = attack_instant().unwrap();
    let packages = clean_version_name(&raw(&[("node_modules/here", "1.0.0")])).unwrap();
    let outcomes = vec![(
        "not-installed".to_string(),
        Some(view(&[("1.0.0", "2026-01-01T00:00:00Z")])),
    )];
    let (remaining, possible) =
        check_possible_vulnerable_packages(packages, &outcomes, &attack).unwrap();
    assert_eq!(remaining.len(), 1);
    assert_eq!(possible.len(), 0);
}
