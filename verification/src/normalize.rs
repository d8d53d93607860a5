//! Lock-file normalization.
//!
//! A raw manifest maps dependency-tree path strings (for example
//! `node_modules/express` or `a/node_modules/@babel/core`) to a single
//! version string each.  Normalization extracts each package's true name —
//! the suffix after the last occurrence of the tree-marker token
//! `node_modules/`, which keeps a scope prefix such as `@babel/` — and
//! merges entries that extract to the same name, de-duplicating their
//! versions.  A non-empty key without the marker, or with nothing after its
//! last marker, is a malformed-input condition that aborts the run.

use vstd::prelude::*;

use crate::error::ScanError;
use crate::package::{NpmLockPackages, PackageInfoView};

verus! {

/// The dependency-tree marker token.
pub open spec fn tree_marker() -> Seq<char> {
    seq!['n', 'o', 'd', 'e', '_', 'm', 'o', 'd', 'u', 'l', 'e', 's', '/']
}

/// The marker occurs in `s` starting at position `i`.
pub open spec fn marker_at(s: Seq<char>, i: int) -> bool {
    0 <= i && i + 13 <= s.len() && s.subrange(i, i + 13) == tree_marker()
}

/// The marker occurs somewhere in `s`.
pub open spec fn has_marker(s: Seq<char>) -> bool {
    exists|i: int| marker_at(s, i)
}

/// `i` is the position of the last occurrence of the marker in `s`.
pub open spec fn is_last_marker(s: Seq<char>, i: int) -> bool {
    marker_at(s, i) && (forall|j: int| i < j ==> !marker_at(s, j))
}

/// The package name extracted from a raw manifest key: the non-empty suffix
/// after the last occurrence of the marker, or `None` when the key has no
/// marker or nothing follows it.
pub open spec fn extract_name_spec(s: Seq<char>) -> Option<Seq<char>> {
    if exists|i: int| is_last_marker(s, i) && i + 13 < s.len() {
        let i = choose|i: int| is_last_marker(s, i) && i + 13 < s.len();
        Some(s.subrange(i + 13, s.len() as int))
    } else {
        None
    }
}

/// An extracted name never contains the marker itself: anything after a
/// marker occurrence inside the suffix would sit after the last occurrence.
pub proof fn lemma_extracted_name_has_no_marker(s: Seq<char>, t: Seq<char>)
    requires
        extract_name_spec(s) == Some(t),
    ensures
        t.len() > 0,
        !has_marker(t),
{
    let i = choose|i: int| is_last_marker(s, i) && i + 13 < s.len();
    assert(t == s.subrange(i + 13, s.len() as int));
    if has_marker(t) {
        let p = choose|p: int| marker_at(t, p);
        assert(marker_at(s, i + 13 + p)) by {
            assert(s.subrange(i + 13 + p, i + 13 + p + 13) =~= t.subrange(p, p + 13));
        }
    }
}

/// The marker token itself.
fn marker_str() -> (r: &'static str)
    ensures
        r@ == tree_marker(),
{
    let s = "node_modules/";
    proof {
        reveal_strlit("node_modules/");
        assert(s@ =~= tree_marker());
    }
    s
}

/// Whether the marker occurs in `k` at position `i`.
fn is_marker_at(k: &str, m: &str, i: usize) -> (r: bool)
    requires
        m@ == tree_marker(),
        i + 13 <= k@.len(),
        k@.len() <= usize::MAX,
    ensures
        r == marker_at(k@, i as int),
{
    let mut j: usize = 0;
    while j < 13
        invariant
            m@ == tree_marker(),
            i + 13 <= k@.len(),
            k@.len() <= usize::MAX,
            0 <= j <= 13,
            forall|t: int| 0 <= t < j ==> k@[i + t] == tree_marker()[t],
        decreases 13 - j,
    {
        if k.get_char(i + j) != m.get_char(j) {
            proof {
                if marker_at(k@, i as int) {
                    assert(k@.subrange(i as int, i + 13)[j as int] == k@[i + j]);
                }
            }
            return false;
        }
        j += 1;
    }
    proof {
        assert(k@.subrange(i as int, i + 13) =~= tree_marker());
    }
    true
}

/// Extracts the package name from a raw manifest key, or returns `None` for
/// a key that does not match the expected path shape.
pub fn extract_name(key: &String) -> (r: Option<String>)
    ensures
        match r {
            Some(name) => extract_name_spec(key@) == Some(name@),
            None => extract_name_spec(key@) is None,
        },
{
    let m = marker_str();
    let k = key.as_str();
    let klen = k.unicode_len();
    if klen < 13 {
        proof {
            assert(forall|j: int| !marker_at(key@, j));
        }
        return None;
    }
    let mut i: usize = 0;
    let mut best: Option<usize> = None;
    while i <= klen - 13
        invariant
            k@ == key@,
            m@ == tree_marker(),
            klen == key@.len(),
            13 <= klen,
            0 <= i <= klen - 13 + 1,
            match best {
                Some(b) => b < i && marker_at(key@, b as int)
                    && (forall|j: int| b < j < i ==> !marker_at(key@, j)),
                None => forall|j: int| 0 <= j < i ==> !marker_at(key@, j),
            },
        decreases klen - i,
    {
        if is_marker_at(k, m, i) {
            best = Some(i);
        }
        i += 1;
    }
    proof {
        assert(forall|j: int| i <= j ==> !marker_at(key@, j));
    }
    match best {
        None => {
            proof {
                assert(forall|j: int| !marker_at(key@, j));
            }
            None
        },
        Some(b) => {
            proof {
                assert(is_last_marker(key@, b as int));
                assert forall|j: int| is_last_marker(key@, j) implies j == b by {
                    if j < b {
                        assert(marker_at(key@, b as int));
                    }
                }
            }
            if b + 13 < klen {
                let name = k.substring_char(b + 13, klen);
                proof {
                    assert(is_last_marker(key@, b as int) && b + 13 < key@.len());
                    let c = choose|j: int| is_last_marker(key@, j) && j + 13 < key@.len();
                    assert(c == b);
                }
                Some(name.to_owned())
            } else {
                proof {
                    if exists|j: int| is_last_marker(key@, j) && j + 13 < key@.len() {
                        let c = choose|j: int| is_last_marker(key@, j) && j + 13 < key@.len();
                        assert(c == b);
                    }
                }
                None
            }
        },
    }
}

/// One normalization step: what folding the raw entry `(key, ver)` into the
/// collection `m` yields, or `None` for a malformed key.
pub open spec fn normalize_step(
    m: Map<Seq<char>, PackageInfoView>,
    key: Seq<char>,
    ver: Seq<char>,
) -> Option<Map<Seq<char>, PackageInfoView>> {
    if key.len() == 0 {
        Some(m)
    } else {
        match extract_name_spec(key) {
            None => None,
            Some(name) => if m.dom().contains(name) {
                if m[name].version.contains(ver) {
                    Some(m)
                } else {
                    Some(m.insert(name, PackageInfoView {
                        version: m[name].version.push(ver),
                        ..m[name]
                    }))
                }
            } else {
                Some(m.insert(name, PackageInfoView {
                    version: seq![ver],
                    skipped_scan: false,
                }))
            },
        }
    }
}

/// The normalized form of a raw manifest, or `None` when some non-empty key
/// is malformed.
pub open spec fn normalize_spec(
    raw: Seq<(Seq<char>, Seq<char>)>,
) -> Option<Map<Seq<char>, PackageInfoView>>
    decreases raw.len(),
{
    if raw.len() == 0 {
        Some(Map::empty())
    } else {
        match normalize_spec(raw.drop_last()) {
            None => None,
            Some(m) => normalize_step(m, raw.last().0, raw.last().1),
        }
    }
}

/// Normalizes a raw manifest — a list of (dependency-tree path, version)
/// pairs — into a package collection keyed by true package names.
///
/// Empty keys are skipped; entries whose keys extract to the same name are
/// merged, keeping each version once; a malformed non-empty key aborts the
/// run.
pub fn clean_version_name(raw: &Vec<(String, String)>) -> (r: Result<NpmLockPackages, ScanError>)
    ensures
        match r {
            Ok(c) => c.wf() && Some(c@) == normalize_spec(raw.deep_view()),
            Err(e) => {
                &&& normalize_spec(raw.deep_view()) is None
                &&& e matches ScanError::MalformedManifestKey { key }
                &&& key@.len() > 0
                &&& extract_name_spec(key@) is None
                &&& exists|j: int| 0 <= j < raw.deep_view().len()
                    && #[trigger] raw.deep_view()[j].0 == key@
            },
        },
{
    let n = raw.len();
    let mut out = NpmLockPackages::new();
    let mut i: usize = 0;
    while i < n
        invariant
            n == raw@.len(),
            0 <= i <= n,
            out.wf(),
            Some(out@) == normalize_spec(raw.deep_view().take(i as int)),
        decreases n - i,
    {
        let ghost prefix = raw.deep_view().take(i as int);
        let key = &raw[i].0;
        proof {
            assert(raw.deep_view().take(i + 1).drop_last() =~= prefix);
            assert(raw.deep_view()[i as int] == (raw@[i as int].0@, raw@[i as int].1@));
        }
        if !key.as_str().is_empty() {
            match extract_name(key) {
                None => {
                    proof {
                        assert(normalize_spec(raw.deep_view().take(i + 1)) is None);
                        lemma_normalize_none_prefix(raw.deep_view(), i + 1);
                        assert(raw.deep_view()[i as int].0 == key@);
                    }
                    return Err(ScanError::MalformedManifestKey { key: key.clone() });
                },
                Some(name) => {
                    let ver = &raw[i].1;
                    match out.get(&name) {
                        Some(info) => {
                            if !vec_contains_string(&info.version, ver) {
                                out.push_version(&name, ver.clone());
                            }
                        },
                        None => {
                            let mut versions: Vec<String> = Vec::new();
                            versions.push(ver.clone());
                            let info = crate::package::PackageInfo {
                                version: versions,
                                skipped_scan: false,
                            };
                            proof {
                                assert(info@.version =~= seq![ver@]);
                            }
                            out.insert(name, info);
                        },
                    }
                },
            }
        }
        proof {
            assert(Some(out@) == normalize_spec(raw.deep_view().take(i + 1)));
        }
        i += 1;
    }
    proof {
        assert(raw.deep_view().take(n as int) =~= raw.deep_view());
    }
    Ok(out)
}

/// Once a prefix of the raw manifest fails to normalize, the whole manifest
/// fails.
proof fn lemma_normalize_none_prefix(raw: Seq<(Seq<char>, Seq<char>)>, i: int)
    requires
        0 <= i <= raw.len(),
        normalize_spec(raw.take(i)) is None,
    ensures
        normalize_spec(raw) is None,
    decreases raw.len() - i,
{
    if i < raw.len() {
        assert(raw.take(i + 1).drop_last() =~= raw.take(i));
        lemma_normalize_none_prefix(raw, i + 1);
    } else {
        assert(raw.take(i) =~= raw);
    }
}

/// A non-empty raw key that extracts to `name` exists.
pub open spec fn raw_yields(raw: Seq<(Seq<char>, Seq<char>)>, name: Seq<char>) -> bool {
    exists|i: int| 0 <= i < raw.len() && (#[trigger] raw[i]).0.len() > 0
        && extract_name_spec(raw[i].0) == Some(name)
}

/// A non-empty raw key that extracts to `name` carries version `v`.
pub open spec fn raw_has_version(
    raw: Seq<(Seq<char>, Seq<char>)>,
    name: Seq<char>,
    v: Seq<char>,
) -> bool {
    exists|i: int| 0 <= i < raw.len() && (#[trigger] raw[i]).0.len() > 0
        && extract_name_spec(raw[i].0) == Some(name) && raw[i].1 == v
}

/// Normalization is pure suffix extraction with a de-duplicating merge:
/// the output's names are exactly the extractions of the non-empty raw
/// keys, and each name's version list holds, without duplicates, exactly
/// the versions of the raw entries that extract to it.
pub proof fn lemma_normalize_names_and_versions(raw: Seq<(Seq<char>, Seq<char>)>)
    ensures
        normalize_spec(raw) matches Some(m) ==> {
            &&& forall|name: Seq<char>|
                #[trigger] m.dom().contains(name) <==> raw_yields(raw, name)
            &&& forall|name: Seq<char>| #[trigger] m.dom().contains(name)
                ==> m[name].version.no_duplicates()
            &&& forall|name: Seq<char>, v: Seq<char>| m.dom().contains(name)
                ==> (#[trigger] m[name].version.contains(v) <==> raw_has_version(raw, name, v))
        },
    decreases raw.len(),
{
    if raw.len() == 0 {
        assert forall|name: Seq<char>| !raw_yields(raw, name) by {}
    } else {
        let prefix = raw.drop_last();
        let key = raw.last().0;
        let ver = raw.last().1;
        lemma_normalize_names_and_versions(prefix);
        assert forall|name: Seq<char>| #[trigger] raw_yields(raw, name)
            == (raw_yields(prefix, name)
                || (key.len() > 0 && extract_name_spec(key) == Some(name))) by {
            if raw_yields(raw, name) {
                let i = choose|i: int| 0 <= i < raw.len() && (#[trigger] raw[i]).0.len() > 0
                    && extract_name_spec(raw[i].0) == Some(name);
                if i < raw.len() - 1 {
                    assert(prefix[i] == raw[i]);
                } else {
                    assert(raw[i] == raw.last());
                }
            }
            if raw_yields(prefix, name) {
                let i = choose|i: int| 0 <= i < prefix.len()
                    && (#[trigger] prefix[i]).0.len() > 0
                    && extract_name_spec(prefix[i].0) == Some(name);
                assert(raw[i] == prefix[i]);
            }
            if key.len() > 0 && extract_name_spec(key) == Some(name) {
                assert(raw[raw.len() - 1].0.len() > 0);
            }
        }
        assert forall|name: Seq<char>, v: Seq<char>| #[trigger] raw_has_version(raw, name, v)
            == (raw_has_version(prefix, name, v)
                || (key.len() > 0 && extract_name_spec(key) == Some(name) && ver == v)) by {
            if raw_has_version(raw, name, v) {
                let i = choose|i: int| 0 <= i < raw.len() && (#[trigger] raw[i]).0.len() > 0
                    && extract_name_spec(raw[i].0) == Some(name) && raw[i].1 == v;
                if i < raw.len() - 1 {
                    assert(prefix[i] == raw[i]);
                } else {
                    assert(raw[i] == raw.last());
                }
            }
            if raw_has_version(prefix, name, v) {
                let i = choose|i: int| 0 <= i < prefix.len()
                    && (#[trigger] prefix[i]).0.len() > 0
                    && extract_name_spec(prefix[i].0) == Some(name) && prefix[i].1 == v;
                assert(raw[i] == prefix[i]);
            }
            if key.len() > 0 && extract_name_spec(key) == Some(name) && ver == v {
                assert(raw[raw.len() - 1].0.len() > 0);
            }
        }
        match normalize_spec(prefix) {
            None => {},
            Some(m0) => {
                if key.len() == 0 {
                } else {
                    match extract_name_spec(key) {
                        None => {},
                        Some(name0) => {
                            if m0.dom().contains(name0) {
                                if m0[name0].version.contains(ver) {
                                    // nothing changes; the new witness adds
                                    // only what is already present
                                } else {
                                    let m = m0.insert(name0, PackageInfoView {
                                        version: m0[name0].version.push(ver),
                                        ..m0[name0]
                                    });
                                    let pushed = m0[name0].version.push(ver);
                                    assert forall|v: Seq<char>| #[trigger] pushed.contains(v)
                                        == (m0[name0].version.contains(v) || v == ver) by {
                                        if pushed.contains(v) {
                                            let j = choose|j: int| 0 <= j < pushed.len()
                                                && pushed[j] == v;
                                            if j < pushed.len() - 1 {
                                                assert(m0[name0].version[j] == v);
                                            }
                                        }
                                        if m0[name0].version.contains(v) {
                                            let j = choose|j: int|
                                                0 <= j < m0[name0].version.len()
                                                && m0[name0].version[j] == v;
                                            assert(pushed[j] == v);
                                        }
                                        if v == ver {
                                            assert(pushed[pushed.len() - 1] == v);
                                        }
                                    }
                                    assert(pushed.no_duplicates()) by {
                                        assert forall|a: int, b: int|
                                            0 <= a < b < pushed.len() implies
                                            pushed[a] != pushed[b] by {
                                            if b < pushed.len() - 1 {
                                                assert(m0[name0].version[a] == pushed[a]);
                                                assert(m0[name0].version[b] == pushed[b]);
                                            } else {
                                                assert(m0[name0].version[a] == pushed[a]);
                                                assert(m0[name0].version.contains(pushed[a]));
                                            }
                                        }
                                    }
                                    assert(m.dom() =~= m0.dom());
                                }
                            } else {
                                let m = m0.insert(name0, PackageInfoView {
                                    version: seq![ver],
                                    skipped_scan: false,
                                });
                                assert forall|v: Seq<char>| #[trigger] seq![ver].contains(v)
                                    == (v == ver) by {
                                    if seq![ver].contains(v) {
                                        let j = choose|j: int| 0 <= j < seq![ver].len()
                                            && seq![ver][j] == v;
                                    }
                                    if v == ver {
                                        assert(seq![ver][0] == v);
                                    }
                                }
                                assert(seq![ver].no_duplicates());
                                assert(!raw_yields(prefix, name0));
                            }
                        },
                    }
                }
            },
        }
    }
}

/// Normalization never marks a package skipped: the flag is reserved for
/// failed registry queries later in the scan.
pub proof fn lemma_normalize_no_skip_flags(raw: Seq<(Seq<char>, Seq<char>)>)
    ensures
        normalize_spec(raw) matches Some(m) ==> forall|name: Seq<char>|
            #[trigger] m.dom().contains(name) ==> !m[name].skipped_scan,
    decreases raw.len(),
{
    if raw.len() > 0 {
        lemma_normalize_no_skip_flags(raw.drop_last());
    }
}

/// A non-empty key without the tree marker is an input-format error for
/// the whole manifest.
pub proof fn lemma_markerless_key_rejected(raw: Seq<(Seq<char>, Seq<char>)>, i: int)
    requires
        0 <= i < raw.len(),
        raw[i].0.len() > 0,
        !has_marker(raw[i].0),
    ensures
        normalize_spec(raw) is None,
    decreases raw.len(),
{
    assert(extract_name_spec(raw[i].0) is None) by {
        if exists|j: int| is_last_marker(raw[i].0, j) && j + 13 < raw[i].0.len() {
            let j = choose|j: int| is_last_marker(raw[i].0, j) && j + 13 < raw[i].0.len();
            assert(marker_at(raw[i].0, j));
        }
    }
    if i < raw.len() - 1 {
        assert(raw.drop_last()[i] == raw[i]);
        lemma_markerless_key_rejected(raw.drop_last(), i);
    }
}

/// Re-running the normalizer on names it produced is rejected rather than
/// a no-op: an extracted name never contains the tree marker, and a
/// non-empty manifest keyed by such bare names is a malformed input.
pub proof fn lemma_renormalization_rejected(
    raw: Seq<(Seq<char>, Seq<char>)>,
    m: Map<Seq<char>, PackageInfoView>,
    again: Seq<(Seq<char>, Seq<char>)>,
)
    requires
        normalize_spec(raw) == Some(m),
        again.len() > 0,
        m.dom().contains(again[0].0),
    ensures
        normalize_spec(again) is None,
{
    lemma_normalize_names_and_versions(raw);
    let name = again[0].0;
    match normalize_spec(raw) {
        Some(mm) => {
            assert(mm == m);
            assert(mm.dom().contains(name));
        },
        None => {},
    }
    assert(raw_yields(raw, name));
    let i = choose|i: int| 0 <= i < raw.len() && (#[trigger] raw[i]).0.len() > 0
        && extract_name_spec(raw[i].0) == Some(name);
    lemma_extracted_name_has_no_marker(raw[i].0, name);
    lemma_markerless_key_rejected(again, 0);
}

/// Whether a string with this view is among the elements of `v`.
pub fn vec_contains_string(v: &Vec<String>, s: &String) -> (r: bool)
    ensures
        r == v.deep_view().contains(s@),
{
    let n = v.len();
    let mut i: usize = 0;
    while i < n
        invariant
            n == v@.len(),
            0 <= i <= n,
            forall|t: int| 0 <= t < i ==> v.deep_view()[t] != s@,
        decreases n - i,
    {
        if v[i] == *s {
            assert(v.deep_view()[i as int] == s@);
            return true;
        }
        i += 1;
    }
    proof {
        if v.deep_view().contains(s@) {
            let t = choose|t: int| 0 <= t < v.deep_view().len() && v.deep_view()[t] == s@;
            assert(v.deep_view()[t] == s@);
        }
    }
    false
}

} // verus!
