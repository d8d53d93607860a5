//! The registry's view of one package, and the publish-date evaluation.
//!
//! A [`PackageView`] holds the per-version publish timestamps that the
//! external registry reports for one package name.  Evaluation walks the
//! installed versions of a package in order: a version the view does not
//! know is skipped, a timestamp that cannot be parsed aborts the run, and
//! the first version published strictly after the attack instant flags the
//! whole package.

use vstd::prelude::*;

use crate::error::ScanError;
use crate::instant::{instant_of, parse_instant, Instant};

verus! {

/// Metadata for one package: a map from version strings to the ISO-8601
/// timestamps at which they were published.
#[derive(Debug)]
pub struct PackageView {
    entries: Vec<(String, String)>,
}

impl View for PackageView {
    type V = Map<Seq<char>, Seq<char>>;

    closed spec fn view(&self) -> Map<Seq<char>, Seq<char>> {
        Map::new(
            |version: Seq<char>| self.spec_contains(version),
            |version: Seq<char>| self.entries@[self.spec_index_of(version)].1@,
        )
    }
}

impl PackageView {
    /// The version strings held, in entry order.
    pub closed spec fn spec_versions(self) -> Seq<Seq<char>> {
        Seq::new(self.entries@.len(), |i: int| self.entries@[i].0@)
    }

    /// Versions are pairwise distinct.
    pub closed spec fn wf(self) -> bool {
        self.spec_versions().no_duplicates()
    }

    pub closed spec fn spec_contains(self, version: Seq<char>) -> bool {
        exists|i: int| 0 <= i < self.entries@.len() && self.entries@[i].0@ == version
    }

    closed spec fn spec_index_of(self, version: Seq<char>) -> int {
        choose|i: int| 0 <= i < self.entries@.len() && self.entries@[i].0@ == version
    }

    proof fn lemma_index_unique(self, version: Seq<char>, i: int)
        requires
            self.wf(),
            0 <= i < self.entries@.len(),
            self.entries@[i].0@ == version,
        ensures
            self.spec_index_of(version) == i,
            self@.dom().contains(version),
            self@[version] == self.entries@[i].1@,
    {
        let j = self.spec_index_of(version);
        assert(self.spec_contains(version));
        assert(self.spec_versions()[i] == version);
        if j != i {
            assert(self.spec_versions()[j] == version);
        }
    }

    /// Creates an empty view.
    pub fn new() -> (r: PackageView)
        ensures
            r@ == Map::<Seq<char>, Seq<char>>::empty(),
            r.wf(),
    {
        let r = PackageView { entries: Vec::new() };
        proof {
            assert(r@ =~= Map::<Seq<char>, Seq<char>>::empty());
        }
        r
    }

    /// Whether a publish time is held for this version.
    pub fn contains(&self, version: &String) -> (r: bool)
        ensures
            r == self@.dom().contains(version@),
    {
        let n = self.entries.len();
        let mut i: usize = 0;
        while i < n
            invariant
                n == self.entries@.len(),
                0 <= i <= n,
                forall|t: int| 0 <= t < i ==> self.entries@[t].0@ != version@,
            decreases n - i,
        {
            if self.entries[i].0 == *version {
                assert(self.spec_contains(version@));
                return true;
            }
            i += 1;
        }
        assert(!self.spec_contains(version@));
        false
    }

    /// Records the publish time of a version; a version already held keeps
    /// its first recorded time.
    pub fn insert_time(&mut self, version: String, time: String)
        requires
            old(self).wf(),
        ensures
            final(self).wf(),
            if old(self)@.dom().contains(version@) {
                *final(self) == *old(self)
            } else {
                final(self)@ == old(self)@.insert(version@, time@)
            },
    {
        if self.contains(&version) {
            return;
        }
        proof {
            assert(!old(self).spec_contains(version@));
        }
        let ghost ghost_version: Seq<char> = version@;
        let ghost ghost_time: Seq<char> = time@;
        self.entries.push((version, time));
        proof {
            let n = self.entries@.len();
            assert(final(self).spec_versions() =~= old(self).spec_versions().push(ghost_version));
            assert forall|k: Seq<char>| true implies
                (self.spec_contains(k) == (old(self).spec_contains(k) || k == ghost_version)) by {
                if self.spec_contains(k) {
                    let i = choose|i: int| 0 <= i < n && self.entries@[i].0@ == k;
                    if i < n - 1 {
                        assert(old(self).entries@[i].0@ == k);
                    }
                }
                if old(self).spec_contains(k) {
                    let i = choose|i: int| 0 <= i < old(self).entries@.len()
                        && old(self).entries@[i].0@ == k;
                    assert(self.entries@[i].0@ == k);
                }
                if k == ghost_version {
                    assert(self.entries@[n - 1].0@ == k);
                }
            }
            assert forall|k: Seq<char>| self.spec_contains(k) implies
                self@[k] == old(self)@.insert(ghost_version, ghost_time)[k] by {
                if k == ghost_version {
                    self.lemma_index_unique(k, n - 1);
                } else {
                    let i = choose|i: int| 0 <= i < old(self).entries@.len()
                        && old(self).entries@[i].0@ == k;
                    old(self).lemma_index_unique(k, i);
                    self.lemma_index_unique(k, i);
                }
            }
            assert(self@ =~= old(self)@.insert(ghost_version, ghost_time));
        }
    }

    /// Looks the publish time of a version up.
    pub fn get_time(&self, version: &String) -> (r: Option<&String>)
        requires
            self.wf(),
        ensures
            match r {
                Some(time) => self@.dom().contains(version@) && time@ == self@[version@],
                None => !self@.dom().contains(version@),
            },
    {
        let n = self.entries.len();
        let mut i: usize = 0;
        while i < n
            invariant
                n == self.entries@.len(),
                0 <= i <= n,
                self.wf(),
                forall|t: int| 0 <= t < i ==> self.entries@[t].0@ != version@,
            decreases n - i,
        {
            if self.entries[i].0 == *version {
                proof {
                    self.lemma_index_unique(version@, i as int);
                }
                return Some(&self.entries[i].1);
            }
            i += 1;
        }
        assert(!self.spec_contains(version@));
        None
    }
}

/// The named instant `t` lies strictly after the attack instant.
pub open spec fn raw_after(t: (int, int), attack: Instant) -> bool {
    t.0 > attack.secs || (t.0 == attack.secs && t.1 > attack.nanos)
}

/// The publish-date verdict for a list of installed versions, walked in
/// order: a version without a recorded time is passed over, an unparsable
/// timestamp is fatal (`Err` carries the version), and the first version
/// published strictly after the attack instant decides `Ok(true)`.
pub open spec fn eval_versions(
    vs: Seq<Seq<char>>,
    times: Map<Seq<char>, Seq<char>>,
    attack: Instant,
) -> Result<bool, Seq<char>>
    decreases vs.len(),
{
    if vs.len() == 0 {
        Ok(false)
    } else {
        let v = vs.first();
        if !times.dom().contains(v) {
            eval_versions(vs.drop_first(), times, attack)
        } else {
            match instant_of(times[v]) {
                None => Err(v),
                Some(t) => if raw_after(t, attack) {
                    Ok(true)
                } else {
                    eval_versions(vs.drop_first(), times, attack)
                },
            }
        }
    }
}

/// Publish-date comparison is strict: a version published exactly at the
/// attack instant is not flagged; only strictly-after counts.
pub proof fn lemma_publish_at_attack_instant_not_flagged(
    v: Seq<char>,
    times: Map<Seq<char>, Seq<char>>,
    attack: Instant,
)
    requires
        times.dom().contains(v),
        instant_of(times[v]) == Some((attack.secs as int, attack.nanos as int)),
    ensures
        eval_versions(seq![v], times, attack) == Result::<bool, Seq<char>>::Ok(false),
{
    assert(seq![v].first() == v);
    assert(!raw_after((attack.secs as int, attack.nanos as int), attack));
    assert(seq![v].drop_first() =~= Seq::<Seq<char>>::empty());
    assert(eval_versions(seq![v].drop_first(), times, attack)
        == Result::<bool, Seq<char>>::Ok(false)) by {
        assert(seq![v].drop_first().len() == 0);
    }
}

/// Decides whether any installed version of one package was published
/// strictly after the attack instant, from the registry's view of the
/// package.
pub fn evaluate_package(versions: &Vec<String>, view: &PackageView, attack: &Instant) -> (r:
    Result<bool, ScanError>)
    requires
        view.wf(),
    ensures
        match eval_versions(versions.deep_view(), view@, *attack) {
            Ok(b) => r matches Ok(rb) && rb == b,
            Err(v) => {
                &&& r matches Err(e)
                &&& e matches ScanError::InvalidTimestamp { version, timestamp }
                &&& version@ == v
                &&& timestamp@ == view@[v]
            },
        },
{
    let n = versions.len();
    let mut i: usize = 0;
    proof {
        assert(versions.deep_view().skip(0) =~= versions.deep_view());
    }
    while i < n
        invariant
            n == versions@.len(),
            0 <= i <= n,
            view.wf(),
            eval_versions(versions.deep_view(), view@, *attack)
                == eval_versions(versions.deep_view().skip(i as int), view@, *attack),
        decreases n - i,
    {
        let ghost rest = versions.deep_view().skip(i as int);
        proof {
            assert(rest.len() == n - i);
            assert(rest.first() == versions.deep_view()[i as int]);
            assert(rest.drop_first() =~= versions.deep_view().skip(i + 1));
        }
        let v = &versions[i];
        proof {
            assert(versions.deep_view()[i as int] == v@);
        }
        match view.get_time(v) {
            None => {},
            Some(ts) => {
                match parse_instant(ts.as_str()) {
                    None => {
                        return Err(ScanError::InvalidTimestamp {
                            version: v.clone(),
                            timestamp: ts.clone(),
                        });
                    },
                    Some(t) => {
                        if t.is_after(attack) {
                            return Ok(true);
                        }
                    },
                }
            },
        }
        i += 1;
    }
    proof {
        assert(versions.deep_view().skip(n as int) =~= Seq::<Seq<char>>::empty());
    }
    Ok(false)
}

} // verus!
