use shai_hulud_v2_checker::instant::attack_instant;
use shai_hulud_v2_checker::normalize::clean_version_name;
use shai_hulud_v2_checker::package::PackageVulnerableRecord;
use shai_hulud_v2_checker::registry::PackageView;
use shai_hulud_v2_checker::scanner::{check_possible_vulnerable_packages, check_vulnerable_packages};
use shai_hulud_v2_checker::scheduler::Scheduler;

fn raw(entries: &[(&str, &str)]) -> Vec<(String, String)> {
    entries.iter().map(|(k, v)| (k.to_string(), v.to_string())).collect()
}

fn view(times: &[(&str, &str)]) -> PackageView {
    let mut pv = PackageView::new();
    for (version, time) in times {
        pv.insert_time(version.to_string(), time.to_string());
    }
    pv
}

#[test]
fn concurrency_limit_one_means_one_in_flight() {
    // ten packages queued under a limit of one: never more than one query
    // in flight, and all ten eventually resolved
    let names: Vec<String> = (0..10).map(|i| format!("pkg-{}", i)).collect();
    let mut sched = Scheduler::new(names, 1);
    let mut resolved = 0usize;
    while !sched.is_finished() {
        let issued = sched.try_issue();
        assert!(sched.current_in_flight() <= 1);
        match issued {
            Some(_name) => {
                // with one slot, a second issue must wait for completion
                assert!(sched.try_issue().is_none());
                assert_eq!(sched.current_in_flight(), 1);
                sched.complete_one();
                resolved += 1;
            },
            None => unreachable!("a slot is free and work is pending"),
        }
    }
    assert_eq!(resolved, 10);
    assert_eq!(sched.completed(), 10);
}

#[test]
fn scheduler_respects_larger_limits() {
    let names: Vec<String> = (0..7).map(|i| format!("pkg-{}", i)).collect();
    let mut sched = Scheduler::new(names, 5);
    let mut issued = Vec::new();
    while let Some(name) = sched.try_issue() {
        issued.push(name);
        assert!(sched.current_in_flight() <= 5);
    }
    // the bound, not the queue, stops the fifth issue
    assert_eq!(issued.len(), 5);
    assert_eq!(sched.current_in_flight(), 5);
    sched.complete_one();
    assert!(sched.try_issue().is_some());
    assert_eq!(sched.current_in_flight(), 5);
    for _ in 0..5 {
        sched.complete_one();
    }
    assert!(sched.try_issue().is_some());
    sched.complete_one();
    assert!(sched.is_finished());
    assert_eq!(sched.completed(), 7);
}

#[test]
fn full_scan_partitions_the_manifest() {
    // one package per final collection: the three are disjoint and cover
    // the normalized manifest exactly
    let attack = attack_instant().unwrap();
    let packages = clean_version_name(&raw(&[
        ("node_modules/known-bad", "1.0.0"),
        ("node_modules/late-pkg", "2.0.0"),
        ("node_modules/clean-pkg", "3.0.0"),
        ("node_modules/no-data", "4.0.0"),
    ]))
    .unwrap();
    let feed = vec![PackageVulnerableRecord {
        package: "known-bad".to_string(),
        version: vec!["1.0.0".to_string()],
    }];
    let (rest, confirmed) = check_vulnerable_packages(&feed, packages);
    let outcomes = vec![
        ("late-pkg".to_string(), Some(view(&[("2.0.0", "2025-12-24T00:00:00Z")]))),
        ("clean-pkg".to_string(), Some(view(&[("3.0.0", "2020-01-01T00:00:00Z")]))),
        ("no-data".to_string(), None),
    ];
    let (remaining, possible) =
        check_possible_vulnerable_packages(rest, &outcomes, &attack).unwrap();

    let mut all: Vec<String> = Vec::new();
    all.extend(confirmed.keys());
    all.extend(possible.keys());
    all.extend(remaining.keys());
    all.sort();
    let mut expected =
        vec!["clean-pkg".to_string(), "known-bad".to_string(), "late-pkg".to_string(),
            "no-data".to_string()];
    expected.sort();
    assert_eq!(all, expected);

    // pairwise-empty intersections
    for name in confirmed.keys() {
        assert!(!possible.contains(&name) && !remaining.contains(&name));
    }
    for name in possible.keys() {
        assert!(!confirmed.contains(&name) && !remaining.contains(&name));
    }
    assert!(confirmed.contains(&"known-bad".to_string()));
    assert!(possible.contains(&"late-pkg".to_string()));
    assert!(remaining.contains(&"clean-pkg".to_string()));
    assert!(remaining.contains(&"no-data".to_string()));
    assert!(remaining.get(&"no-data".to_string()).unwrap().skipped_scan);
    assert!(!remaining.get(&"clean-pkg".to_string()).unwrap().skipped_scan);
    assert!(!confirmed.get(&"known-bad".to_string()).unwrap().skipped_scan);
}

#[test]
fn first_version_after_attack_wins() {
    // the first flagged version decides; later versions are not needed
    let attack = attack_instant().unwrap();
    let packages = clean_version_name(&raw(&[
        ("node_modules/multi", "1.0.0"),
        ("other/node_modules/multi", "2.0.0"),
    ]))
    .unwrap();
    // 1.0.0 has no data, 2.0.0 is late: the package is still flagged
    let outcomes = vec![(
        "multi".to_string(),
        Some(view(&[("2.0.0", "2025-12-01T00:00:00Z")])),
    )];
    let (remaining, possible) =
        check_possible_vulnerable_packages(packages, &outcomes, &attack).unwrap();
    assert_eq!(remaining.len(), 0);
    let info = possible.get(&"multi".to_string()).unwrap();
    assert_eq!(info.version, vec!["1.0.0".to_string(), "2.0.0".to_string()]);
}
