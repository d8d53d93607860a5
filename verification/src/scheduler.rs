//! Bounded-concurrency accounting for the registry queries.
//!
//! The publish-date phase issues one registry query per package name under
//! a bounded-parallelism policy: at most `limit` queries are in flight at
//! any instant, and excess work waits for a slot to free.  The scheduler
//! owns the fixed work list — the snapshot of the key set taken before the
//! phase begins — hands out one name per issued query, and counts
//! completions.  The surrounding program performs the queries; the bound
//! and the accounting are verified here.

use vstd::prelude::*;

verus! {

/// Hands out registry-query work, never letting more than `limit` queries
/// be in flight at once.
#[derive(Debug)]
pub struct Scheduler {
    pending: Vec<String>,
    in_flight: usize,
    done: usize,
    limit: usize,
    total: usize,
}

impl Scheduler {
    /// The names not yet handed out.
    pub closed spec fn spec_pending(self) -> Seq<Seq<char>> {
        self.pending.deep_view()
    }

    /// Queries handed out and not yet reported back.
    pub closed spec fn spec_in_flight(self) -> nat {
        self.in_flight as nat
    }

    /// Queries reported back.
    pub closed spec fn spec_done(self) -> nat {
        self.done as nat
    }

    /// The concurrency bound.
    pub closed spec fn spec_limit(self) -> nat {
        self.limit as nat
    }

    /// How many names the work list started with.
    pub closed spec fn spec_total(self) -> nat {
        self.total as nat
    }

    /// The bound is positive and respected, and every queued name is
    /// pending, in flight or done.
    pub closed spec fn wf(self) -> bool {
        &&& self.limit >= 1
        &&& self.in_flight <= self.limit
        &&& self.pending@.len() + self.in_flight + self.done == self.total
    }

    /// At most `limit` queries are ever in flight: the bound is part of
    /// well-formedness, which every operation preserves.
    pub proof fn lemma_bounded_in_flight(self)
        requires
            self.wf(),
        ensures
            self.spec_in_flight() <= self.spec_limit(),
    {
    }

    /// A finished scheduler has resolved every queued name.
    pub proof fn lemma_finished_all_resolved(self)
        requires
            self.wf(),
            self.spec_pending().len() == 0,
            self.spec_in_flight() == 0,
        ensures
            self.spec_done() == self.spec_total(),
    {
    }

    /// Creates a scheduler over a snapshot of the package names.
    pub fn new(names: Vec<String>, limit: usize) -> (r: Scheduler)
        requires
            limit >= 1,
        ensures
            r.wf(),
            r.spec_pending() == names.deep_view(),
            r.spec_in_flight() == 0,
            r.spec_done() == 0,
            r.spec_limit() == limit,
            r.spec_total() == names@.len(),
    {
        let total = names.len();
        Scheduler { pending: names, in_flight: 0, done: 0, limit, total }
    }

    /// Hands out one pending name if a slot is free; `None` when the bound
    /// is reached or nothing is pending.
    pub fn try_issue(&mut self) -> (r: Option<String>)
        requires
            old(self).wf(),
        ensures
            final(self).wf(),
            final(self).spec_limit() == old(self).spec_limit(),
            final(self).spec_total() == old(self).spec_total(),
            final(self).spec_done() == old(self).spec_done(),
            match r {
                Some(name) => {
                    &&& old(self).spec_in_flight() < old(self).spec_limit()
                    &&& old(self).spec_pending().len() > 0
                    &&& name@ == old(self).spec_pending().last()
                    &&& final(self).spec_pending() == old(self).spec_pending().drop_last()
                    &&& final(self).spec_in_flight() == old(self).spec_in_flight() + 1
                },
                None => {
                    &&& final(self).spec_pending() == old(self).spec_pending()
                    &&& final(self).spec_in_flight() == old(self).spec_in_flight()
                    &&& (old(self).spec_in_flight() == old(self).spec_limit()
                        || old(self).spec_pending().len() == 0)
                },
            },
    {
        if self.in_flight >= self.limit {
            return None;
        }
        let ghost prev = self.pending.deep_view();
        match self.pending.pop() {
            None => None,
            Some(name) => {
                self.in_flight += 1;
                proof {
                    assert(name@ == prev.last());
                    assert(self.pending.deep_view() =~= prev.drop_last());
                }
                Some(name)
            },
        }
    }

    /// Records that one issued query has run to completion (success or
    /// failure alike: there is no cancellation).
    pub fn complete_one(&mut self)
        requires
            old(self).wf(),
            old(self).spec_in_flight() > 0,
        ensures
            final(self).wf(),
            final(self).spec_limit() == old(self).spec_limit(),
            final(self).spec_total() == old(self).spec_total(),
            final(self).spec_pending() == old(self).spec_pending(),
            final(self).spec_in_flight() == old(self).spec_in_flight() - 1,
            final(self).spec_done() == old(self).spec_done() + 1,
    {
        self.in_flight -= 1;
        self.done += 1;
    }

    /// Whether every queued name has been handed out and reported back.
    pub fn is_finished(&self) -> (r: bool)
        ensures
            r == (self.spec_pending().len() == 0 && self.spec_in_flight() == 0),
    {
        self.pending.is_empty() && self.in_flight == 0
    }

    /// How many queries are in flight right now.
    pub fn current_in_flight(&self) -> (r: usize)
        ensures
            r == self.spec_in_flight(),
    {
        self.in_flight
    }

    /// The configured concurrency bound.
    pub fn concurrency_limit(&self) -> (r: usize)
        ensures
            r == self.spec_limit(),
    {
        self.limit
    }

    /// How many queries have completed.
    pub fn completed(&self) -> (r: usize)
        ensures
            r == self.spec_done(),
    {
        self.done
    }
}

} // verus!
