//! Points in time, modelled as plain values.
//!
//! Every publish-date comparison of the scan is made against one fixed attack
//! instant.  An instant is held as the count of non-leap seconds since the
//! Unix epoch together with the nanoseconds since the last whole second, so
//! that the strict "published after" comparison is ordinary integer
//! comparison and is verified here; only turning an ISO-8601 string into
//! those two numbers is delegated to an outside parser.

use vstd::prelude::*;

verus! {

/// The timestamp at which the attack was detected; versions published
/// strictly after it are treated as suspect.
pub const ATTACK_DATE: &'static str = "2025-11-24T03:16:26.000Z";

/// A UTC instant: non-leap seconds since the Unix epoch, plus the
/// nanoseconds since the last whole second.
#[derive(Clone, Copy, Debug, PartialEq, Eq, Structural)]
pub struct Instant {
    pub secs: i64,
    pub nanos: u32,
}

/// The instant encoded by an ISO-8601 timestamp string, as a
/// (seconds, nanoseconds) pair, or `None` when the string is not a valid
/// timestamp.  The encoding is a fixed function of the string alone; it is
/// given no definition here and everything proved about timestamps holds for
/// whatever function the outside parser computes.
pub uninterp spec fn instant_of(s: Seq<char>) -> Option<(int, int)>;

impl Instant {
    /// `self` is strictly later than `other`.
    pub open spec fn spec_after(self, other: Instant) -> bool {
        self.secs > other.secs || (self.secs == other.secs && self.nanos > other.nanos)
    }

    /// The instant named by `instant_of` that this value carries.
    pub open spec fn spec_pair(self) -> (int, int) {
        (self.secs as int, self.nanos as int)
    }

    pub fn is_after(&self, other: &Instant) -> (r: bool)
        ensures
            r == self.spec_after(*other),
    {
        self.secs > other.secs || (self.secs == other.secs && self.nanos > other.nanos)
    }
}

/// The strict comparison never holds between an instant and itself: a version
/// published exactly at the reference instant is not "after" it.
pub proof fn lemma_after_is_strict(t: Instant)
    ensures
        !t.spec_after(t),
{
}

/// Relies on chrono 0.4: `str::parse::<DateTime<Utc>>` (a relaxed RFC 3339
/// parser whose result depends on the string alone), `DateTime::timestamp`
/// (non-leap seconds since the Unix epoch) and
/// `DateTime::timestamp_subsec_nanos` (nanoseconds since the last whole
/// second; below two billion even inside a leap second).  Ordering of chrono
/// datetimes agrees with lexicographic order of these two numbers.
#[verifier::external_body]
pub(crate) fn parse_instant(s: &str) -> (r: Option<Instant>)
    ensures
        match r {
            Some(t) => instant_of(s@) == Some(t.spec_pair()) && t.nanos < 2_000_000_000,
            None => instant_of(s@) is None,
        },
{
    match s.parse::<chrono::DateTime<chrono::Utc>>() {
        Ok(d) => Some(Instant { secs: d.timestamp(), nanos: d.timestamp_subsec_nanos() }),
        Err(_) => None,
    }
}

/// Parses the fixed attack timestamp.  `None` would mean the constant above
/// is not a valid timestamp; the caller aborts the run in that case.
pub fn attack_instant() -> (r: Option<Instant>)
    ensures
        match r {
            Some(t) => instant_of(ATTACK_DATE@) == Some(t.spec_pair()),
            None => instant_of(ATTACK_DATE@) is None,
        },
{
    parse_instant(ATTACK_DATE)
}

} // verus!
