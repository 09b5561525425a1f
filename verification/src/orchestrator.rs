use vstd::prelude::*;
use crate::revision::{find_by_id, Revision};
use crate::selector::{select, selection_of};
use crate::store::{id_listed, ResultStore};

verus! {

/// The two phases of one invocation, run once, in this order, with no way
/// back: first drain the retry queue, then sweep the missing revisions.
pub enum Phase {
    /// Draining revisions whose last recorded outcome was a failure.
    Retry,
    /// Working through the deterministic selection of missing revisions.
    Sweep,
    /// Nothing left to do, or aborted on a fatal inconsistency.
    Finished,
}

/// What the driver must do next.
pub enum Step {
    /// Measure this revision and record its outcome before asking again.
    Measure(Revision),
    /// Fatal: a failure is recorded for a revision the source does not
    /// know. The run aborts rather than guessing.
    UnknownRetry(String),
    /// The invocation is complete.
    Done,
}

/// Top-level driver state for one invocation. The surrounding program
/// calls `next_step` in a loop; for every `Measure` step it runs the
/// revision through a `MeasurementRunner` and records the outcome in the
/// store before asking for the next step. Every pending failure is handed
/// out for retry at most once per invocation — `attempted` remembers the
/// ids already handed out, so a revision whose retry fails again stays
/// retired until the next invocation rather than looping forever.
pub struct Orchestrator {
    /// The full revision history, oldest first, stable for the invocation.
    pub revisions: Vec<Revision>,
    /// The sweep selection, filled when the retry phase ends.
    pub queue: Vec<Revision>,
    /// How many of `queue` have already been handed out.
    pub next: usize,
    /// Ids handed out for retry in this invocation, each exactly once.
    pub attempted: Vec<String>,
    pub phase: Phase,
}

impl Orchestrator {
    /// The sweep cursor stays in bounds, and no id was handed out for
    /// retry twice.
    pub open spec fn wf(self) -> bool {
        &&& self.phase is Sweep ==> self.next <= self.queue@.len()
        &&& forall|i: int, j: int|
            0 <= i < j < self.attempted@.len() ==> self.attempted@[i]@ != self.attempted@[j]@
    }

    /// A fresh invocation over the given history, starting in the retry
    /// phase with nothing attempted yet.
    pub fn start(revisions: Vec<Revision>) -> (r: Self)
        ensures
            r.wf(),
            r.phase is Retry,
            r.revisions == revisions,
            r.attempted@.len() == 0,
    {
        Orchestrator {
            revisions,
            queue: Vec::new(),
            next: 0,
            attempted: Vec::new(),
            phase: Phase::Retry,
        }
    }

    /// Decides the next step from the store's current state.
    ///
    /// In the retry phase, the earliest pending failure not yet attempted
    /// in this invocation is looked up in the history and handed out for
    /// re-measurement — and remembered, so that whatever outcome the driver
    /// records, the same revision is never handed out again before the
    /// phase ends. A pending failure for an unknown revision aborts the
    /// run. When no unattempted failure is pending, the sweep selection is
    /// computed once — the missing revisions, sparsely sampled — and then
    /// handed out in order until it is exhausted.
    pub fn next_step(&mut self, store: &ResultStore) -> (step: Step)
        requires
            old(self).wf(),
        ensures
            final(self).wf(),
            final(self).revisions == old(self).revisions,
            old(self).phase is Retry ==> (match store.pending_retry(old(self).attempted@) {
                Some(id) => {
                    &&& (exists|j: int|
                        0 <= j < old(self).revisions@.len() && (#[trigger] old(self).revisions@[j]).id@ == id) ==> {
                        &&& final(self).phase is Retry
                        &&& final(self).queue == old(self).queue
                        &&& final(self).next == old(self).next
                        &&& final(self).attempted@.len() == old(self).attempted@.len() + 1
                        &&& final(self).attempted@.take(old(self).attempted@.len() as int) == old(
                            self,
                        ).attempted@
                        &&& final(self).attempted@.last()@ == id
                        &&& exists|j: int|
                            {
                                &&& 0 <= j < old(self).revisions@.len()
                                &&& (#[trigger] old(self).revisions@[j]).id@ == id
                                &&& forall|k: int|
                                    0 <= k < j ==> old(self).revisions@[k].id@ != id
                                &&& step == Step::Measure(old(self).revisions@[j])
                            }
                    }
                    &&& (forall|j: int|
                        0 <= j < old(self).revisions@.len() ==> (#[trigger] old(self).revisions@[j]).id@ != id) ==> {
                        &&& final(self).phase is Finished
                        &&& final(self).attempted == old(self).attempted
                        &&& (step matches Step::UnknownRetry(s) && s@ == id)
                    }
                },
                None => {
                    let sel = selection_of(store.missing_of(old(self).revisions@));
                    &&& final(self).attempted == old(self).attempted
                    &&& sel.len() == 0 ==> final(self).phase is Finished && step is Done
                    &&& sel.len() > 0 ==> {
                        &&& final(self).phase is Sweep
                        &&& final(self).queue@ == sel
                        &&& final(self).next == 1
                        &&& step == Step::Measure(sel[0])
                    }
                },
            }),
            // No second retry of the same revision: a retry handed out now
            // was never handed out before, and is on the attempted list
            // afterwards.
            (old(self).phase is Retry && store.pending_retry(old(self).attempted@) is Some) ==> (
            step matches Step::Measure(rv) ==> (!id_listed(old(self).attempted@, rv.id@)
                && id_listed(final(self).attempted@, rv.id@))),
            old(self).phase is Sweep ==> {
                &&& final(self).attempted == old(self).attempted
                &&& old(self).next < old(self).queue@.len() ==> {
                    &&& final(self).phase is Sweep
                    &&& final(self).queue == old(self).queue
                    &&& final(self).next == old(self).next + 1
                    &&& step == Step::Measure(old(self).queue@[old(self).next as int])
                }
                &&& old(self).next >= old(self).queue@.len() ==> final(self).phase is Finished
                    && step is Done
            },
            old(self).phase is Finished ==> *final(self) == *old(self) && step is Done,
    {
        match self.phase {
            Phase::Retry => {
                match store.next_retry_excluding(&self.attempted) {
                    Some(id) => {
                        proof {
                            ResultStore::lemma_pending_retry_fresh(
                                store.records@,
                                self.attempted@,
                            );
                        }
                        match find_by_id(&self.revisions, &id) {
                            Some(i) => {
                                let found = self.revisions[i].clone();
                                let ghost idv = id@;
                                self.attempted.push(id);
                                proof {
                                    assert(self.attempted@[self.attempted@.len() - 1]@ == idv);
                                    assert(id_listed(self.attempted@, idv));
                                }
                                Step::Measure(found)
                            },
                            None => {
                                self.phase = Phase::Finished;
                                Step::UnknownRetry(id)
                            },
                        }
                    },
                    None => {
                        let missing = store.find_missing(&self.revisions);
                        let sel = select(&self.revisions, &missing);
                        if sel.len() == 0 {
                            self.phase = Phase::Finished;
                            Step::Done
                        } else {
                            let first = sel[0].clone();
                            self.queue = sel;
                            self.next = 1;
                            self.phase = Phase::Sweep;
                            Step::Measure(first)
                        }
                    },
                }
            },
            Phase::Sweep => {
                if self.next < self.queue.len() {
                    let r = self.queue[self.next].clone();
                    self.next = self.next + 1;
                    Step::Measure(r)
                } else {
                    self.phase = Phase::Finished;
                    Step::Done
                }
            },
            Phase::Finished => Step::Done,
        }
    }
}

} // verus!
