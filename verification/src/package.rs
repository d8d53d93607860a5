//! Data model of the scan: installed packages and the collections that hold
//! them.
//!
//! A [`NpmLockPackages`] collection maps package names to their installed
//! versions.  Three such collections exist during a scan — the working set,
//! the confirmed-vulnerable set and the possibly-vulnerable set — and a
//! package always belongs to exactly one of them.  The collection is a vector
//! of entries with pairwise-distinct names; its mathematical model is the map
//! from names to package records.

use vstd::prelude::*;

verus! {

/// Information about one installed package: the versions found for it in the
/// lock file and whether the publish-date check had to be skipped for it.
#[derive(Debug)]
pub struct PackageInfo {
    /// Installed versions; normalization de-duplicates them.
    pub version: Vec<String>,
    /// True exactly when the registry query for this package failed.
    pub skipped_scan: bool,
}

/// Mathematical model of a [`PackageInfo`].
pub struct PackageInfoView {
    pub version: Seq<Seq<char>>,
    pub skipped_scan: bool,
}

impl View for PackageInfo {
    type V = PackageInfoView;

    open spec fn view(&self) -> PackageInfoView {
        PackageInfoView { version: self.version.deep_view(), skipped_scan: self.skipped_scan }
    }
}

/// One row of the curated feed: a package name and the versions of it that
/// are known to be compromised.
#[derive(Debug)]
pub struct PackageVulnerableRecord {
    /// The name of the vulnerable package.
    pub package: String,
    /// The version strings known to be vulnerable.
    pub version: Vec<String>,
}

/// Mathematical model of a [`PackageVulnerableRecord`].
pub struct VulnerableRecordView {
    pub package: Seq<char>,
    pub version: Seq<Seq<char>>,
}

impl View for PackageVulnerableRecord {
    type V = VulnerableRecordView;

    open spec fn view(&self) -> VulnerableRecordView {
        VulnerableRecordView { package: self.package.deep_view(), version: self.version.deep_view() }
    }
}

impl DeepView for PackageVulnerableRecord {
    type V = VulnerableRecordView;

    open spec fn deep_view(&self) -> VulnerableRecordView {
        self.view()
    }
}

/// A collection of installed packages, keyed by package name.
///
/// Names are pairwise distinct ([`Self::wf`]); the model is the map from
/// each name to the record held under it.
#[derive(Debug)]
pub struct NpmLockPackages {
    entries: Vec<(String, PackageInfo)>,
}

impl View for NpmLockPackages {
    type V = Map<Seq<char>, PackageInfoView>;

    closed spec fn view(&self) -> Map<Seq<char>, PackageInfoView> {
        Map::new(
            |name: Seq<char>| self.spec_contains(name),
            |name: Seq<char>| self.entries@[self.spec_index_of(name)].1@,
        )
    }
}

impl NpmLockPackages {
    /// The package names, in entry order.
    pub closed spec fn spec_names(self) -> Seq<Seq<char>> {
        Seq::new(self.entries@.len(), |i: int| self.entries@[i].0@)
    }

    /// Names are pairwise distinct.
    pub closed spec fn wf(self) -> bool {
        self.spec_names().no_duplicates()
    }

    pub open spec fn spec_len(self) -> nat {
        self.spec_names().len()
    }

    pub closed spec fn spec_contains(self, name: Seq<char>) -> bool {
        exists|i: int| 0 <= i < self.entries@.len() && self.entries@[i].0@ == name
    }

    /// Some index holding `name`; meaningful only when the name is present.
    closed spec fn spec_index_of(self, name: Seq<char>) -> int {
        choose|i: int| 0 <= i < self.entries@.len() && self.entries@[i].0@ == name
    }

    /// The domain of the model is exactly the set of names.
    pub proof fn lemma_dom(self)
        ensures
            forall|name: Seq<char>| #[trigger] self@.dom().contains(name) == self.spec_names().contains(name),
    {
        assert forall|name: Seq<char>| #[trigger] self@.dom().contains(name) == self.spec_names().contains(name) by {
            if self.spec_contains(name) {
                let i = choose|i: int| 0 <= i < self.entries@.len() && self.entries@[i].0@ == name;
                assert(self.spec_names()[i] == name);
            }
            if self.spec_names().contains(name) {
                let i = choose|i: int| 0 <= i < self.spec_names().len() && self.spec_names()[i] == name;
                assert(self.entries@[i].0@ == name);
            }
        }
    }

    proof fn lemma_index_unique(self, name: Seq<char>, i: int)
        requires
            self.wf(),
            0 <= i < self.entries@.len(),
            self.entries@[i].0@ == name,
        ensures
            self.spec_index_of(name) == i,
            self@.dom().contains(name),
            self@[name] == self.entries@[i].1@,
    {
        let j = self.spec_index_of(name);
        assert(self.spec_contains(name));
        assert(self.spec_names()[i] == name);
        if j != i {
            assert(self.spec_names()[j] == name);
        }
    }

    /// Creates an empty collection.
    pub fn new() -> (r: NpmLockPackages)
        ensures
            r@ == Map::<Seq<char>, PackageInfoView>::empty(),
            r.wf(),
            r.spec_len() == 0,
    {
        let r = NpmLockPackages { entries: Vec::new() };
        proof {
            assert(r@ =~= Map::<Seq<char>, PackageInfoView>::empty());
        }
        r
    }

    /// The number of packages held.
    pub fn len(&self) -> (r: usize)
        ensures
            r == self.spec_len(),
    {
        self.entries.len()
    }

    /// Whether a package of this name is held.
    pub fn contains(&self, name: &String) -> (r: bool)
        ensures
            r == self@.dom().contains(name@),
    {
        let n = self.entries.len();
        let mut i: usize = 0;
        while i < n
            invariant
                n == self.entries@.len(),
                0 <= i <= n,
                forall|t: int| 0 <= t < i ==> self.entries@[t].0@ != name@,
            decreases n - i,
        {
            if self.entries[i].0 == *name {
                assert(self.spec_contains(name@));
                return true;
            }
            i += 1;
        }
        assert(!self.spec_contains(name@));
        false
    }

    /// Looks a package up by name.
    pub fn get(&self, name: &String) -> (r: Option<&PackageInfo>)
        requires
            self.wf(),
        ensures
            match r {
                Some(info) => self@.dom().contains(name@) && info@ == self@[name@],
                None => !self@.dom().contains(name@),
            },
    {
        let n = self.entries.len();
        let mut i: usize = 0;
        while i < n
            invariant
                n == self.entries@.len(),
                0 <= i <= n,
                self.wf(),
                forall|t: int| 0 <= t < i ==> self.entries@[t].0@ != name@,
            decreases n - i,
        {
            if self.entries[i].0 == *name {
                proof {
                    self.lemma_index_unique(name@, i as int);
                }
                return Some(&self.entries[i].1);
            }
            i += 1;
        }
        assert(!self.spec_contains(name@));
        None
    }

    /// Inserts a package under a name that is not yet held.
    pub fn insert(&mut self, name: String, info: PackageInfo)
        requires
            old(self).wf(),
            !old(self)@.dom().contains(name@),
        ensures
            final(self).wf(),
            final(self)@ == old(self)@.insert(name@, info@),
            final(self).spec_names() == old(self).spec_names().push(name@),
    {
        proof {
            assert(!old(self).spec_contains(name@));
        }
        let ghost ghost_name: Seq<char> = name@;
        let ghost ghost_info: PackageInfoView = info@;
        self.entries.push((name, info));
        proof {
            assert(final(self).spec_names() =~= old(self).spec_names().push(ghost_name));
            let n = self.entries@.len();
            assert forall|k: Seq<char>| true implies
                (self.spec_contains(k) == (old(self).spec_contains(k) || k == ghost_name)) by {
                if self.spec_contains(k) {
                    let i = choose|i: int| 0 <= i < n && self.entries@[i].0@ == k;
                    if i < n - 1 {
                        assert(old(self).entries@[i].0@ == k);
                    }
                }
                if old(self).spec_contains(k) {
                    let i = choose|i: int| 0 <= i < old(self).entries@.len()
                        && old(self).entries@[i].0@ == k;
                    assert(self.entries@[i].0@ == k);
                }
                if k == ghost_name {
                    assert(self.entries@[n - 1].0@ == k);
                }
            }
            assert forall|k: Seq<char>| self.spec_contains(k) implies
                self@[k] == old(self)@.insert(ghost_name, ghost_info)[k] by {
                if k == ghost_name {
                    self.lemma_index_unique(k, n - 1);
                } else {
                    let i = choose|i: int| 0 <= i < old(self).entries@.len()
                        && old(self).entries@[i].0@ == k;
                    old(self).lemma_index_unique(k, i);
                    self.lemma_index_unique(k, i);
                }
            }
            assert(self@ =~= old(self)@.insert(ghost_name, ghost_info));
        }
    }

    /// Removes and returns the package of this name, if it is held.
    pub fn remove(&mut self, name: &String) -> (r: Option<PackageInfo>)
        requires
            old(self).wf(),
        ensures
            final(self).wf(),
            match r {
                Some(info) => old(self)@.dom().contains(name@)
                    && info@ == old(self)@[name@]
                    && final(self)@ == old(self)@.remove(name@)
                    && final(self).spec_len() == old(self).spec_len() - 1,
                None => !old(self)@.dom().contains(name@) && *final(self) == *old(self),
            },
    {
        let n = self.entries.len();
        let mut i: usize = 0;
        while i < n
            invariant
                n == self.entries@.len(),
                0 <= i <= n,
                self.wf(),
                *self == *old(self),
                forall|t: int| 0 <= t < i ==> self.entries@[t].0@ != name@,
            decreases n - i,
        {
            if self.entries[i].0 == *name {
                proof {
                    self.lemma_index_unique(name@, i as int);
                }
                let (_, info) = self.entries.remove(i);
                proof {
                    let oldn = old(self).spec_names();
                    assert(final(self).spec_names() =~= oldn.remove(i as int));
                    assert(final(self).spec_names().no_duplicates()) by {
                        assert forall|a: int, b: int|
                            0 <= a < b < final(self).spec_names().len() implies
                            final(self).spec_names()[a] != final(self).spec_names()[b] by {
                            let a0: int = if a < i { a } else { a + 1 };
                            let b0: int = if b < i { b } else { b + 1 };
                            assert(final(self).spec_names()[a] == oldn[a0]);
                            assert(final(self).spec_names()[b] == oldn[b0]);
                        }
                    }
                    assert forall|k: Seq<char>| true implies
                        (self.spec_contains(k) == (old(self).spec_contains(k) && k != name@)) by {
                        if self.spec_contains(k) {
                            let a = choose|a: int| 0 <= a < self.entries@.len()
                                && self.entries@[a].0@ == k;
                            let a0: int = if a < i { a } else { a + 1 };
                            assert(old(self).entries@[a0].0@ == k);
                            if k == name@ {
                                old(self).lemma_index_unique(k, a0);
                            }
                        }
                        if old(self).spec_contains(k) && k != name@ {
                            let a = choose|a: int| 0 <= a < old(self).entries@.len()
                                && old(self).entries@[a].0@ == k;
                            let a1: int = if a < i { a } else { a - 1 };
                            assert(self.entries@[a1].0@ == k);
                        }
                    }
                    assert forall|k: Seq<char>| self.spec_contains(k) implies
                        self@[k] == old(self)@.remove(name@)[k] by {
                        let a = choose|a: int| 0 <= a < self.entries@.len()
                            && self.entries@[a].0@ == k;
                        let a0: int = if a < i { a } else { a + 1 };
                        self.lemma_index_unique(k, a);
                        old(self).lemma_index_unique(k, a0);
                    }
                    assert(self@ =~= old(self)@.remove(name@));
                }
                return Some(info);
            }
            i += 1;
        }
        assert(!self.spec_contains(name@));
        None
    }

    /// Marks the package of this name as skipped; packages whose registry
    /// query failed are recorded this way and stay in their collection.
    pub fn set_skipped(&mut self, name: &String)
        requires
            old(self).wf(),
        ensures
            final(self).wf(),
            final(self).spec_len() == old(self).spec_len(),
            if old(self)@.dom().contains(name@) {
                final(self)@ == old(self)@.insert(
                    name@,
                    PackageInfoView { skipped_scan: true, ..old(self)@[name@] },
                )
            } else {
                *final(self) == *old(self)
            },
    {
        let n = self.entries.len();
        let mut i: usize = 0;
        while i < n
            invariant
                n == self.entries@.len(),
                0 <= i <= n,
                self.wf(),
                *self == *old(self),
                forall|t: int| 0 <= t < i ==> self.entries@[t].0@ != name@,
            decreases n - i,
        {
            if self.entries[i].0 == *name {
                proof {
                    self.lemma_index_unique(name@, i as int);
                }
                let (entry_name, mut info) = self.entries.remove(i);
                info.skipped_scan = true;
                let ghost mid = *self;
                self.entries.insert(i, (entry_name, info));
                proof {
                    assert(final(self).spec_names() =~= old(self).spec_names());
                    assert forall|k: Seq<char>| true implies
                        (self.spec_contains(k) == old(self).spec_contains(k)) by {
                        if self.spec_contains(k) {
                            let a = choose|a: int| 0 <= a < self.entries@.len()
                                && self.entries@[a].0@ == k;
                            assert(old(self).entries@[a].0@ == k);
                        }
                        if old(self).spec_contains(k) {
                            let a = choose|a: int| 0 <= a < old(self).entries@.len()
                                && old(self).entries@[a].0@ == k;
                            assert(self.entries@[a].0@ == k);
                        }
                    }
                    assert forall|k: Seq<char>| self.spec_contains(k) implies
                        self@[k] == old(self)@.insert(
                            name@,
                            PackageInfoView { skipped_scan: true, ..old(self)@[name@] },
                        )[k] by {
                        let a = choose|a: int| 0 <= a < self.entries@.len()
                            && self.entries@[a].0@ == k;
                        self.lemma_index_unique(k, a);
                        old(self).lemma_index_unique(k, a);
                    }
                    assert(self@ =~= old(self)@.insert(
                        name@,
                        PackageInfoView { skipped_scan: true, ..old(self)@[name@] },
                    ));
                }
                return;
            }
            i += 1;
        }
        assert(!self.spec_contains(name@));
        assert(self@ =~= old(self)@);
    }

    /// Appends a version to the package already held under this name.
    pub fn push_version(&mut self, name: &String, ver: String)
        requires
            old(self).wf(),
            old(self)@.dom().contains(name@),
        ensures
            final(self).wf(),
            final(self).spec_len() == old(self).spec_len(),
            final(self)@ == old(self)@.insert(
                name@,
                PackageInfoView { version: old(self)@[name@].version.push(ver@), ..old(self)@[name@] },
            ),
    {
        let ghost target = PackageInfoView {
            version: old(self)@[name@].version.push(ver@),
            ..old(self)@[name@]
        };
        let n = self.entries.len();
        let mut i: usize = 0;
        while i < n
            invariant
                n == self.entries@.len(),
                0 <= i <= n,
                self.wf(),
                *self == *old(self),
                target == (PackageInfoView {
                    version: old(self)@[name@].version.push(ver@),
                    ..old(self)@[name@]
                }),
                forall|t: int| 0 <= t < i ==> self.entries@[t].0@ != name@,
            decreases n - i,
        {
            if self.entries[i].0 == *name {
                proof {
                    self.lemma_index_unique(name@, i as int);
                    assert(old(self).entries@[i as int].1@ == old(self)@[name@]);
                }
                let (entry_name, mut info) = self.entries.remove(i);
                let ghost old_dv = info.version.deep_view();
                proof {
                    assert(old_dv == old(self)@[name@].version);
                }
                info.version.push(ver);
                proof {
                    assert(info.version.deep_view() =~= old_dv.push(ver@));
                }
                self.entries.insert(i, (entry_name, info));
                proof {
                    assert(self.entries@.len() == old(self).entries@.len());
                    assert forall|a: int| 0 <= a < self.entries@.len() && a != i implies
                        self.entries@[a] == old(self).entries@[a] by {}
                    assert(self.entries@[i as int] == (entry_name, info));
                    assert(self.entries@[i as int].0@ == name@);
                    assert(info@.version == old_dv.push(ver@));
                    assert(info@.version == target.version);
                    assert(info@.skipped_scan == target.skipped_scan);
                    assert(self.entries@[i as int].1@ == target);
                    assert(final(self).spec_names() =~= old(self).spec_names());
                    assert forall|k: Seq<char>| true implies
                        (self.spec_contains(k) == old(self).spec_contains(k)) by {
                        if self.spec_contains(k) {
                            let a = choose|a: int| 0 <= a < self.entries@.len()
                                && self.entries@[a].0@ == k;
                            assert(old(self).entries@[a].0@ == k);
                        }
                        if old(self).spec_contains(k) {
                            let a = choose|a: int| 0 <= a < old(self).entries@.len()
                                && old(self).entries@[a].0@ == k;
                            assert(self.entries@[a].0@ == k);
                        }
                    }
                    assert forall|k: Seq<char>| self.spec_contains(k) implies
                        self@[k] == old(self)@.insert(name@, target)[k] by {
                        let a = choose|a: int| 0 <= a < self.entries@.len()
                            && self.entries@[a].0@ == k;
                        self.lemma_index_unique(k, a);
                        old(self).lemma_index_unique(k, a);
                    }
                    assert(self@ =~= old(self)@.insert(name@, target));
                }
                return;
            }
            i += 1;
        }
        proof {
            assert(!self.spec_contains(name@));
            old(self).lemma_dom();
        }
    }

    /// A snapshot of the names held, in entry order.
    pub fn keys(&self) -> (r: Vec<String>)
        ensures
            r.deep_view() == self.spec_names(),
    {
        let n = self.entries.len();
        let mut r: Vec<String> = Vec::new();
        let mut i: usize = 0;
        while i < n
            invariant
                n == self.entries@.len(),
                0 <= i <= n,
                r.deep_view() == self.spec_names().take(i as int),
            decreases n - i,
        {
            let ghost prev = r.deep_view();
            let ghost prev_raw = r@;
            let c = self.entries[i].0.clone();
            r.push(c);
            proof {
                assert(prev.len() == prev_raw.len());
                assert(prev_raw.len() == i as int);
                assert forall|j: int| 0 <= j < i + 1 implies
                    r.deep_view()[j] == self.spec_names().take(i + 1)[j] by {
                    if j < i {
                        assert(r@[j] == prev_raw[j]);
                        assert(r.deep_view()[j] == prev[j]);
                        assert(prev[j] == self.spec_names().take(i as int)[j]);
                    } else {
                        assert(r@[j]@ == self.entries@[i as int].0@);
                    }
                }
                assert(r.deep_view() =~= self.spec_names().take(i + 1));
            }
            i += 1;
        }
        proof {
            assert(self.spec_names().take(n as int) =~= self.spec_names());
        }
        r
    }

    /// The names of the packages whose scan was skipped, in entry order.
    pub fn skipped_names(&self) -> (r: Vec<String>)
        requires
            self.wf(),
        ensures
            forall|name: Seq<char>| #[trigger] r.deep_view().contains(name)
                == (self@.dom().contains(name) && self@[name].skipped_scan),
            r.deep_view().no_duplicates(),
    {
        let n = self.entries.len();
        let mut r: Vec<String> = Vec::new();
        let mut i: usize = 0;
        while i < n
            invariant
                n == self.entries@.len(),
                0 <= i <= n,
                self.wf(),
                r.deep_view().no_duplicates(),
                forall|name: Seq<char>| #[trigger] r.deep_view().contains(name)
                    == exists|t: int| 0 <= t < i && self.entries@[t].0@ == name
                        && self.entries@[t].1@.skipped_scan,
            decreases n - i,
        {
            let ghost prev = r.deep_view();
            if self.entries[i].1.skipped_scan {
                r.push(self.entries[i].0.clone());
                proof {
                    assert(r.deep_view() =~= prev.push(self.entries@[i as int].0@));
                    assert forall|name: Seq<char>| #[trigger] r.deep_view().contains(name) implies
                        exists|t: int| 0 <= t < i + 1 && self.entries@[t].0@ == name
                            && self.entries@[t].1@.skipped_scan by {
                        let j = choose|j: int| 0 <= j < r.deep_view().len()
                            && r.deep_view()[j] == name;
                        if j < prev.len() {
                            assert(prev.contains(name));
                        } else {
                            assert(self.entries@[i as int].0@ == name);
                        }
                    }
                    assert forall|name: Seq<char>|
                        (exists|t: int| 0 <= t < i + 1 && self.entries@[t].0@ == name
                            && self.entries@[t].1@.skipped_scan) implies
                        #[trigger] r.deep_view().contains(name) by {
                        let t = choose|t: int| 0 <= t < i + 1 && self.entries@[t].0@ == name
                            && self.entries@[t].1@.skipped_scan;
                        if t < i {
                            assert(prev.contains(name));
                            let j = choose|j: int| 0 <= j < prev.len() && prev[j] == name;
                            assert(r.deep_view()[j] == name);
                        } else {
                            assert(r.deep_view()[prev.len() as int] == name);
                        }
                    }
                    assert(!prev.contains(self.entries@[i as int].0@)) by {
                        if prev.contains(self.entries@[i as int].0@) {
                            let t = choose|t: int| 0 <= t < i
                                && self.entries@[t].0@ == self.entries@[i as int].0@
                                && self.entries@[t].1@.skipped_scan;
                            assert(self.spec_names()[t] == self.spec_names()[i as int]);
                        }
                    }
                    assert(r.deep_view().no_duplicates()) by {
                        assert forall|a: int, b: int|
                            0 <= a < b < r.deep_view().len() implies
                            r.deep_view()[a] != r.deep_view()[b] by {
                            if b == prev.len() {
                                assert(prev[a] == r.deep_view()[a]);
                                assert(prev.contains(prev[a]));
                            } else {
                                assert(prev[a] == r.deep_view()[a]);
                                assert(prev[b] == r.deep_view()[b]);
                            }
                        }
                    }
                }
            }
            i += 1;
        }
        proof {
            assert forall|name: Seq<char>| #[trigger] r.deep_view().contains(name) implies
                (self@.dom().contains(name) && self@[name].skipped_scan) by {
                let t = choose|t: int| 0 <= t < n && self.entries@[t].0@ == name
                    && self.entries@[t].1@.skipped_scan;
                self.lemma_index_unique(name, t);
            }
            assert forall|name: Seq<char>|
                self@.dom().contains(name) && self@[name].skipped_scan implies
                #[trigger] r.deep_view().contains(name) by {
                let t = choose|t: int| 0 <= t < self.entries@.len()
                    && self.entries@[t].0@ == name;
                self.lemma_index_unique(name, t);
                assert(self.entries@[t].1@.skipped_scan);
            }
        }
        r
    }
}

} // verus!
