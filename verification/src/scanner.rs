//! The two-phase vulnerability classifier.
//!
//! Phase one partitions the installed packages against the curated feed:
//! every package whose name the feed mentions is moved to the confirmed
//! collection, whatever its versions.  Phase two folds the registry query
//! outcomes — one per package name, gathered by the caller under its
//! concurrency policy — over the remaining packages: a failed query marks
//! the package skipped in place, and a package with a version published
//! strictly after the attack instant moves to the possibly-vulnerable
//! collection.

use vstd::prelude::*;

use crate::error::ScanError;
use crate::instant::Instant;
use crate::package::{NpmLockPackages, PackageInfoView, PackageVulnerableRecord, VulnerableRecordView};
use crate::registry::{eval_versions, evaluate_package, PackageView};

verus! {

/// The set of package names that a feed mentions.
pub open spec fn feed_names(feed: Seq<VulnerableRecordView>) -> Set<Seq<char>> {
    Set::new(|n: Seq<char>| exists|i: int| 0 <= i < feed.len() && feed[i].package == n)
}

/// Checks the installed packages against the feed of known vulnerabilities.
///
/// Returns the packages the feed does not mention and, separately, the
/// confirmed-vulnerable ones: presence of the name in the feed alone decides
/// the move, with per-version match detail left to [`matched_versions`].
pub fn check_vulnerable_packages(
    vulnerabilities: &Vec<PackageVulnerableRecord>,
    packages: NpmLockPackages,
) -> (r: (NpmLockPackages, NpmLockPackages))
    requires
        packages.wf(),
    ensures
        r.0.wf(),
        r.1.wf(),
        r.0@ == packages@.remove_keys(feed_names(vulnerabilities.deep_view())),
        r.1@ == packages@.restrict(feed_names(vulnerabilities.deep_view())),
{
    let ghost orig = packages@;
    let ghost dv = vulnerabilities.deep_view();
    let n = vulnerabilities.len();
    let mut working = packages;
    let mut confirmed = NpmLockPackages::new();
    let mut i: usize = 0;
    proof {
        assert(working@ =~= orig.remove_keys(feed_names(dv.take(0))));
        assert(confirmed@ =~= orig.restrict(feed_names(dv.take(0))));
    }
    while i < n
        invariant
            n == vulnerabilities@.len(),
            dv == vulnerabilities.deep_view(),
            0 <= i <= n,
            working.wf(),
            confirmed.wf(),
            working@ == orig.remove_keys(feed_names(dv.take(i as int))),
            confirmed@ == orig.restrict(feed_names(dv.take(i as int))),
        decreases n - i,
    {
        let ghost prefix = feed_names(dv.take(i as int));
        let ghost next = feed_names(dv.take(i + 1));
        let name = &vulnerabilities[i].package;
        proof {
            assert(dv[i as int] == vulnerabilities@[i as int]@);
            assert(dv[i as int].package == name@);
            assert forall|k: Seq<char>| #[trigger] next.contains(k)
                == (prefix.contains(k) || k == name@) by {
                if next.contains(k) {
                    let j = choose|j: int| 0 <= j < dv.take(i + 1).len()
                        && (#[trigger] dv.take(i + 1)[j]).package == k;
                    if j < i {
                        assert(dv.take(i as int)[j].package == k);
                    }
                }
                if prefix.contains(k) {
                    let j = choose|j: int| 0 <= j < dv.take(i as int).len()
                        && (#[trigger] dv.take(i as int)[j]).package == k;
                    assert(dv.take(i + 1)[j].package == k);
                }
                if k == name@ {
                    assert(dv.take(i + 1)[i as int].package == k);
                }
            }
        }
        match working.remove(name) {
            Some(info) => {
                proof {
                    assert(!confirmed@.dom().contains(name@));
                    assert(info@ == orig[name@]);
                }
                confirmed.insert(name.clone(), info);
                proof {
                    assert(working@ =~= orig.remove_keys(next));
                    assert(confirmed@ =~= orig.restrict(next));
                }
            },
            None => {
                proof {
                    assert(working@ =~= orig.remove_keys(next));
                    assert(confirmed@ =~= orig.restrict(next));
                }
            },
        }
        i += 1;
    }
    proof {
        assert(dv.take(n as int) =~= dv);
    }
    (working, confirmed)
}

/// Known-vulnerability matching is name-driven: a package whose name equals
/// a feed entry's name always ends in the confirmed collection, with the
/// record it had, no matter whether any of its installed versions is in the
/// entry's version set.
pub proof fn lemma_known_match_is_name_driven(
    packages: Map<Seq<char>, PackageInfoView>,
    feed: Seq<VulnerableRecordView>,
    name: Seq<char>,
)
    requires
        packages.dom().contains(name),
        feed_names(feed).contains(name),
    ensures
        packages.restrict(feed_names(feed)).dom().contains(name),
        packages.restrict(feed_names(feed))[name] == packages[name],
        !packages.remove_keys(feed_names(feed)).dom().contains(name),
{
}

/// The known-vulnerability phase partitions its input: the two collections
/// it returns are disjoint and together hold exactly the input's names.
pub proof fn lemma_known_partition(
    packages: Map<Seq<char>, PackageInfoView>,
    feed: Seq<VulnerableRecordView>,
)
    ensures
        packages.remove_keys(feed_names(feed)).dom()
            .disjoint(packages.restrict(feed_names(feed)).dom()),
        packages.remove_keys(feed_names(feed)).dom()
            .union(packages.restrict(feed_names(feed)).dom()) == packages.dom(),
{
    assert(packages.remove_keys(feed_names(feed)).dom()
        .union(packages.restrict(feed_names(feed)).dom()) =~= packages.dom());
}

/// The installed versions that are exact members of a feed entry's
/// vulnerable-version set, in order.  This is reporting detail only: the
/// classification itself is name-driven.
pub fn matched_versions(vuln_versions: &Vec<String>, installed: &Vec<String>) -> (r: Vec<String>)
    ensures
        r.deep_view() == installed.deep_view().filter(
            |v: Seq<char>| vuln_versions.deep_view().contains(v),
        ),
{
    let ghost pred = |v: Seq<char>| vuln_versions.deep_view().contains(v);
    let n = installed.len();
    let mut r: Vec<String> = Vec::new();
    let mut i: usize = 0;
    proof {
        reveal(Seq::filter);
        assert(installed.deep_view().take(0) =~= Seq::<Seq<char>>::empty());
        assert(r.deep_view() =~= installed.deep_view().take(0).filter(pred));
    }
    while i < n
        invariant
            n == installed@.len(),
            0 <= i <= n,
            pred == (|v: Seq<char>| vuln_versions.deep_view().contains(v)),
            r.deep_view() == installed.deep_view().take(i as int).filter(pred),
        decreases n - i,
    {
        let ghost prefix = installed.deep_view().take(i as int);
        let ghost longer = installed.deep_view().take(i + 1);
        proof {
            assert(longer.drop_last() =~= prefix);
            assert(longer.last() == installed.deep_view()[i as int]);
        }
        let v = &installed[i];
        let ghost prev_out = r.deep_view();
        let ghost prev_raw = r@;
        if crate::normalize::vec_contains_string(vuln_versions, v) {
            r.push(v.clone());
            proof {
                reveal(Seq::filter);
                assert(pred(longer.last()));
                assert forall|j: int| 0 <= j < r.deep_view().len() implies
                    r.deep_view()[j] == prefix.filter(pred).push(v@)[j] by {
                    if j < prev_raw.len() {
                        assert(r@[j] == prev_raw[j]);
                        assert(r.deep_view()[j] == prev_out[j]);
                    } else {
                        assert(r@[j]@ == v@);
                    }
                }
                assert(r.deep_view() =~= prefix.filter(pred).push(v@));
                assert(longer.filter(pred) == prefix.filter(pred).push(longer.last()));
                assert(r.deep_view() == longer.filter(pred));
            }
        } else {
            proof {
                reveal(Seq::filter);
                assert(!pred(longer.last()));
                assert(longer.filter(pred) == prefix.filter(pred));
            }
        }
        i += 1;
    }
    proof {
        assert(installed.deep_view().take(n as int) =~= installed.deep_view());
    }
    r
}

/// What one registry query outcome does to the working and
/// possibly-vulnerable collections: a failed query marks the package
/// skipped in place, a flagged package moves, an unparsable timestamp is
/// fatal (`None`), and a name no longer held is a no-op.
pub open spec fn apply_outcome_spec(
    w: Map<Seq<char>, PackageInfoView>,
    p: Map<Seq<char>, PackageInfoView>,
    name: Seq<char>,
    outcome: Option<PackageView>,
    attack: Instant,
) -> Option<(Map<Seq<char>, PackageInfoView>, Map<Seq<char>, PackageInfoView>)> {
    match outcome {
        Option::None => if w.dom().contains(name) {
            Some((w.insert(name, PackageInfoView { skipped_scan: true, ..w[name] }), p))
        } else {
            Some((w, p))
        },
        Option::Some(pv) => if !w.dom().contains(name) {
            Some((w, p))
        } else {
            match eval_versions(w[name].version, pv@, attack) {
                Result::Err(_) => None,
                Result::Ok(true) => Some((w.remove(name), p.insert(name, w[name]))),
                Result::Ok(false) => Some((w, p)),
            }
        },
    }
}

/// The publish-date phase as a fold of the query outcomes, in order, over
/// the two collections; `None` when some timestamp was unparsable.
pub open spec fn run_outcomes_spec(
    w: Map<Seq<char>, PackageInfoView>,
    p: Map<Seq<char>, PackageInfoView>,
    outcomes: Seq<(String, Option<PackageView>)>,
    attack: Instant,
) -> Option<(Map<Seq<char>, PackageInfoView>, Map<Seq<char>, PackageInfoView>)>
    decreases outcomes.len(),
{
    if outcomes.len() == 0 {
        Some((w, p))
    } else {
        match apply_outcome_spec(w, p, outcomes.first().0@, outcomes.first().1, attack) {
            None => None,
            Some(s) => run_outcomes_spec(s.0, s.1, outcomes.drop_first(), attack),
        }
    }
}

/// Commits one registry query outcome for `name` to the shared collections.
pub fn apply_query_outcome(
    working: &mut NpmLockPackages,
    possible: &mut NpmLockPackages,
    name: &String,
    outcome: &Option<PackageView>,
    attack: &Instant,
) -> (r: Result<(), ScanError>)
    requires
        old(working).wf(),
        old(possible).wf(),
        old(working)@.dom().disjoint(old(possible)@.dom()),
        *outcome matches Some(pv) ==> pv.wf(),
    ensures
        final(working).wf(),
        final(possible).wf(),
        final(working)@.dom().disjoint(final(possible)@.dom()),
        match apply_outcome_spec(old(working)@, old(possible)@, name@, *outcome, *attack) {
            Some(s) => r is Ok && final(working)@ == s.0 && final(possible)@ == s.1,
            None => {
                &&& r matches Err(e)
                &&& e matches ScanError::InvalidTimestamp { .. }
                &&& final(working)@ == old(working)@
                &&& final(possible)@ == old(possible)@
            },
        },
{
    match outcome {
        None => {
            working.set_skipped(name);
            proof {
                assert(final(working)@.dom() =~= old(working)@.dom());
            }
            Ok(())
        },
        Some(pv) => {
            let flagged: bool;
            match working.get(name) {
                None => {
                    return Ok(());
                },
                Some(info) => {
                    match evaluate_package(&info.version, pv, attack) {
                        Err(e) => {
                            return Err(e);
                        },
                        Ok(b) => {
                            flagged = b;
                        },
                    }
                },
            }
            if flagged {
                match working.remove(name) {
                    Some(info) => {
                        possible.insert(name.clone(), info);
                        proof {
                            assert forall|k: Seq<char>| #[trigger] working@.dom().contains(k)
                                implies !possible@.dom().contains(k) by {
                                assert(old(working)@.dom().contains(k));
                            }
                        }
                    },
                    None => {},
                }
            }
            Ok(())
        },
    }
}

/// Checks the remaining packages for possible vulnerability by publish
/// date, folding the given query outcomes — one per package name — into
/// the collections in order.
///
/// Returns the packages that stay (with skip flags where the query failed)
/// and the possibly-vulnerable ones, or the fatal error raised by the first
/// unparsable timestamp.
pub fn check_possible_vulnerable_packages(
    packages: NpmLockPackages,
    outcomes: &Vec<(String, Option<PackageView>)>,
    attack: &Instant,
) -> (r: Result<(NpmLockPackages, NpmLockPackages), ScanError>)
    requires
        packages.wf(),
        forall|i: int| 0 <= i < outcomes@.len()
            ==> (#[trigger] outcomes@[i].1 matches Some(pv) ==> pv.wf()),
    ensures
        match r {
            Ok(pair) => {
                &&& pair.0.wf()
                &&& pair.1.wf()
                &&& pair.0@.dom().disjoint(pair.1@.dom())
                &&& Some((pair.0@, pair.1@)) == run_outcomes_spec(
                    packages@,
                    Map::empty(),
                    outcomes@,
                    *attack,
                )
            },
            Err(e) => {
                &&& run_outcomes_spec(packages@, Map::empty(), outcomes@, *attack) is None
                &&& e matches ScanError::InvalidTimestamp { .. }
            },
        },
{
    let n = outcomes.len();
    let mut working = packages;
    let mut possible = NpmLockPackages::new();
    let mut i: usize = 0;
    proof {
        assert(outcomes@.skip(0) =~= outcomes@);
    }
    while i < n
        invariant
            n == outcomes@.len(),
            0 <= i <= n,
            working.wf(),
            possible.wf(),
            working@.dom().disjoint(possible@.dom()),
            forall|t: int| 0 <= t < outcomes@.len()
                ==> (#[trigger] outcomes@[t].1 matches Some(pv) ==> pv.wf()),
            run_outcomes_spec(packages@, Map::empty(), outcomes@, *attack)
                == run_outcomes_spec(working@, possible@, outcomes@.skip(i as int), *attack),
        decreases n - i,
    {
        let ghost rest = outcomes@.skip(i as int);
        proof {
            assert(rest.len() == n - i);
            assert(rest.first() == outcomes@[i as int]);
            assert(rest.drop_first() =~= outcomes@.skip(i + 1));
        }
        let name = &outcomes[i].0;
        let oc = &outcomes[i].1;
        match apply_query_outcome(&mut working, &mut possible, name, oc, attack) {
            Err(e) => {
                proof {
                    assert(run_outcomes_spec(packages@, Map::empty(), outcomes@, *attack) is None);
                    assert(e matches ScanError::InvalidTimestamp { .. });
                }
                return Err(e);
            },
            Ok(_) => {},
        }
        i += 1;
    }
    proof {
        assert(outcomes@.skip(n as int) =~= Seq::<(String, Option<PackageView>)>::empty());
    }
    Ok((working, possible))
}

/// Some outcome queries `name`.
pub open spec fn queried(outcomes: Seq<(String, Option<PackageView>)>, name: Seq<char>) -> bool {
    exists|i: int| 0 <= i < outcomes.len() && (#[trigger] outcomes[i]).0@ == name
}

/// The registry query for `name` failed among these outcomes.
pub open spec fn query_failed(
    outcomes: Seq<(String, Option<PackageView>)>,
    name: Seq<char>,
) -> bool {
    exists|i: int| 0 <= i < outcomes.len() && (#[trigger] outcomes[i]).0@ == name
        && outcomes[i].1 is None
}

/// Each package name is queried at most once: the work list is a snapshot
/// of the key set, taken before the phase begins.
pub open spec fn outcome_names_distinct(outcomes: Seq<(String, Option<PackageView>)>) -> bool {
    forall|i: int, j: int| 0 <= i < j < outcomes.len()
        ==> (#[trigger] outcomes[i]).0@ != (#[trigger] outcomes[j]).0@
}

proof fn lemma_queried_shift(outcomes: Seq<(String, Option<PackageView>)>, name: Seq<char>)
    requires
        outcomes.len() > 0,
    ensures
        queried(outcomes, name)
            == (outcomes.first().0@ == name || queried(outcomes.drop_first(), name)),
        query_failed(outcomes, name) == ((outcomes.first().0@ == name
            && outcomes.first().1 is None) || query_failed(outcomes.drop_first(), name)),
{
    let rest = outcomes.drop_first();
    if queried(outcomes, name) {
        let i = choose|i: int| 0 <= i < outcomes.len() && (#[trigger] outcomes[i]).0@ == name;
        if i > 0 {
            assert(rest[i - 1] == outcomes[i]);
        }
    }
    if queried(rest, name) {
        let i = choose|i: int| 0 <= i < rest.len() && (#[trigger] rest[i]).0@ == name;
        assert(outcomes[i + 1] == rest[i]);
    }
    if query_failed(outcomes, name) {
        let i = choose|i: int| 0 <= i < outcomes.len() && (#[trigger] outcomes[i]).0@ == name
            && outcomes[i].1 is None;
        if i > 0 {
            assert(rest[i - 1] == outcomes[i]);
        }
    }
    if query_failed(rest, name) {
        let i = choose|i: int| 0 <= i < rest.len() && (#[trigger] rest[i]).0@ == name
            && rest[i].1 is None;
        assert(outcomes[i + 1] == rest[i]);
    }
}

proof fn lemma_distinct_drop_first(outcomes: Seq<(String, Option<PackageView>)>)
    requires
        outcomes.len() > 0,
        outcome_names_distinct(outcomes),
    ensures
        outcome_names_distinct(outcomes.drop_first()),
        !queried(outcomes.drop_first(), outcomes.first().0@),
{
    let rest = outcomes.drop_first();
    assert forall|i: int, j: int| 0 <= i < j < rest.len() implies
        (#[trigger] rest[i]).0@ != (#[trigger] rest[j]).0@ by {
        assert(rest[i] == outcomes[i + 1]);
        assert(rest[j] == outcomes[j + 1]);
    }
    if queried(rest, outcomes.first().0@) {
        let i = choose|i: int| 0 <= i < rest.len()
            && (#[trigger] rest[i]).0@ == outcomes.first().0@;
        assert(outcomes[i + 1] == rest[i]);
        assert(outcomes[0].0@ == outcomes[i + 1].0@);
    }
}

/// The publish-date fold neither invents nor drops a package: the two
/// collections it yields stay disjoint and together hold exactly the names
/// they started with.
pub proof fn lemma_run_outcomes_partition(
    w: Map<Seq<char>, PackageInfoView>,
    p: Map<Seq<char>, PackageInfoView>,
    outcomes: Seq<(String, Option<PackageView>)>,
    attack: Instant,
)
    requires
        w.dom().disjoint(p.dom()),
    ensures
        run_outcomes_spec(w, p, outcomes, attack) matches Some(s) ==> {
            &&& s.0.dom().disjoint(s.1.dom())
            &&& s.0.dom().union(s.1.dom()) == w.dom().union(p.dom())
            &&& s.0.dom().subset_of(w.dom())
        },
    decreases outcomes.len(),
{
    if outcomes.len() > 0 {
        let name = outcomes.first().0@;
        let oc = outcomes.first().1;
        match apply_outcome_spec(w, p, name, oc, attack) {
            None => {},
            Some(s1) => {
                assert(s1.0.dom().disjoint(s1.1.dom()) && s1.0.dom().subset_of(w.dom())
                    && s1.0.dom().union(s1.1.dom()) =~= w.dom().union(p.dom())) by {
                    match oc {
                        Option::None => {
                            if w.dom().contains(name) {
                                assert(s1.0.dom() =~= w.dom());
                            }
                        },
                        Option::Some(pv) => {
                            if w.dom().contains(name) {
                                match eval_versions(w[name].version, pv@, attack) {
                                    Result::Ok(true) => {
                                        assert(s1.0.dom() =~= w.dom().remove(name));
                                        assert(s1.1.dom() =~= p.dom().insert(name));
                                    },
                                    _ => {},
                                }
                            }
                        },
                    }
                }
                lemma_run_outcomes_partition(s1.0, s1.1, outcomes.drop_first(), attack);
            },
        }
    }
}

/// How the skip flags come out of the publish-date fold: a flag is set
/// exactly by a failed query, and a package that moved to the
/// possibly-vulnerable collection was never marked.
proof fn lemma_run_outcomes_flags_general(
    w: Map<Seq<char>, PackageInfoView>,
    p: Map<Seq<char>, PackageInfoView>,
    outcomes: Seq<(String, Option<PackageView>)>,
    attack: Instant,
)
    requires
        outcome_names_distinct(outcomes),
        w.dom().disjoint(p.dom()),
        forall|k: Seq<char>| #[trigger] w.dom().contains(k) && w[k].skipped_scan
            ==> !queried(outcomes, k),
        forall|k: Seq<char>| #[trigger] p.dom().contains(k) ==> !p[k].skipped_scan,
    ensures
        run_outcomes_spec(w, p, outcomes, attack) matches Some(s) ==> {
            &&& forall|k: Seq<char>| #[trigger] s.0.dom().contains(k) ==> w.dom().contains(k)
                && s.0[k].skipped_scan == (w[k].skipped_scan || query_failed(outcomes, k))
            &&& forall|k: Seq<char>| #[trigger] s.1.dom().contains(k)
                ==> !s.1[k].skipped_scan
        },
    decreases outcomes.len(),
{
    if outcomes.len() == 0 {
        match run_outcomes_spec(w, p, outcomes, attack) {
            Some(s) => {
                assert forall|k: Seq<char>| #[trigger] s.0.dom().contains(k) implies
                    w.dom().contains(k)
                    && s.0[k].skipped_scan == (w[k].skipped_scan || query_failed(outcomes, k)) by {
                    assert(!query_failed(outcomes, k));
                }
            },
            None => {},
        }
    } else {
        let name = outcomes.first().0@;
        let oc = outcomes.first().1;
        let rest = outcomes.drop_first();
        lemma_distinct_drop_first(outcomes);
        match apply_outcome_spec(w, p, name, oc, attack) {
            None => {},
            Some(s1) => {
                assert(queried(outcomes, name)) by {
                    assert(outcomes[0].0@ == name);
                }
                // the step keeps every hypothesis of the induction
                assert(s1.0.dom().disjoint(s1.1.dom())) by {
                    lemma_run_outcomes_partition(w, p, outcomes, attack);
                    if oc is Some && w.dom().contains(name)
                        && eval_versions(w[name].version, oc->0@, attack) == Result::<
                        bool,
                        Seq<char>,
                    >::Ok(true) {
                        assert(s1.0.dom() =~= w.dom().remove(name));
                        assert(s1.1.dom() =~= p.dom().insert(name));
                    }
                }
                assert forall|k: Seq<char>| #[trigger] s1.0.dom().contains(k)
                    && s1.0[k].skipped_scan implies !queried(rest, k) by {
                    if k == name {
                        // its only query was the first outcome
                    } else {
                        assert(s1.0[k] == w[k]);
                        assert(w.dom().contains(k));
                        if queried(rest, k) {
                            lemma_queried_shift(outcomes, k);
                        }
                    }
                }
                assert forall|k: Seq<char>| #[trigger] s1.1.dom().contains(k) implies
                    !s1.1[k].skipped_scan by {
                    if !p.dom().contains(k) {
                        // k == name was just moved; a marked package is never
                        // queried again, yet name is queried first
                        assert(k == name);
                        assert(s1.1[k] == w[name]);
                    }
                }
                lemma_run_outcomes_flags_general(s1.0, s1.1, rest, attack);
                match run_outcomes_spec(s1.0, s1.1, rest, attack) {
                    Some(s) => {
                        assert forall|k: Seq<char>| #[trigger] s.0.dom().contains(k) implies
                            w.dom().contains(k)
                            && s.0[k].skipped_scan == (w[k].skipped_scan
                                || query_failed(outcomes, k)) by {
                            assert(s1.0.dom().contains(k));
                            lemma_queried_shift(outcomes, k);
                            if k == name {
                                assert(!queried(rest, name));
                                assert(!query_failed(rest, name));
                            } else {
                                assert(s1.0[k] == w[k]);
                            }
                        }
                    },
                    None => {},
                }
            },
        }
    }
}

/// Skip-flag exclusivity: starting from a collection with no skip flags —
/// as normalization produces — a package that stays ends with
/// `skipped_scan` true exactly when its registry query failed, and no
/// possibly-vulnerable package carries the flag.
pub proof fn lemma_skip_flag_exclusivity(
    w: Map<Seq<char>, PackageInfoView>,
    outcomes: Seq<(String, Option<PackageView>)>,
    attack: Instant,
)
    requires
        outcome_names_distinct(outcomes),
        forall|k: Seq<char>| #[trigger] w.dom().contains(k) ==> !w[k].skipped_scan,
    ensures
        run_outcomes_spec(w, Map::empty(), outcomes, attack) matches Some(s) ==> {
            &&& forall|k: Seq<char>| #[trigger] s.0.dom().contains(k)
                ==> (s.0[k].skipped_scan <==> query_failed(outcomes, k))
            &&& forall|k: Seq<char>| #[trigger] s.1.dom().contains(k)
                ==> !s.1[k].skipped_scan
        },
{
    lemma_run_outcomes_flags_general(w, Map::empty(), outcomes, attack);
}

/// Disjointness of the whole scan: after both phases the three collections
/// — confirmed, possibly-vulnerable and remaining — have pairwise-empty
/// intersections and together hold exactly the normalized manifest's names.
pub proof fn lemma_scan_partition(
    packages: Map<Seq<char>, PackageInfoView>,
    feed: Seq<VulnerableRecordView>,
    outcomes: Seq<(String, Option<PackageView>)>,
    attack: Instant,
)
    ensures
        run_outcomes_spec(packages.remove_keys(feed_names(feed)), Map::empty(), outcomes, attack)
            matches Some(s) ==> {
            let confirmed = packages.restrict(feed_names(feed));
            &&& confirmed.dom().disjoint(s.0.dom())
            &&& confirmed.dom().disjoint(s.1.dom())
            &&& s.0.dom().disjoint(s.1.dom())
            &&& confirmed.dom().union(s.0.dom().union(s.1.dom())) == packages.dom()
        },
{
    let remaining = packages.remove_keys(feed_names(feed));
    let confirmed = packages.restrict(feed_names(feed));
    lemma_known_partition(packages, feed);
    lemma_run_outcomes_partition(remaining, Map::empty(), outcomes, attack);
    match run_outcomes_spec(remaining, Map::empty(), outcomes, attack) {
        Some(s) => {
            assert(s.0.dom().union(s.1.dom())
                == remaining.dom().union(Set::<Seq<char>>::empty()));
            assert(remaining.dom().union(Set::<Seq<char>>::empty()) =~= remaining.dom());
            assert(confirmed.dom().union(s.0.dom().union(s.1.dom())) =~= packages.dom());
            assert forall|k: Seq<char>| #[trigger] s.0.dom().contains(k) implies
                !confirmed.dom().contains(k) by {
                assert(remaining.dom().contains(k));
            }
            assert forall|k: Seq<char>| #[trigger] s.1.dom().contains(k) implies
                !confirmed.dom().contains(k) by {
                assert(remaining.dom().contains(k));
            }
        },
        None => {},
    }
}

} // verus!
