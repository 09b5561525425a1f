use vstd::prelude::*;
use crate::benchmark::BenchmarkDefinition;
use crate::record::{BenchmarkOutcome, BenchmarkResult, MeasurementRecord, Outcome};
use crate::revision::Revision;

verus! {

/// Where a single revision's measurement stands.
pub enum RunnerPhase {
    /// Waiting for the toolchain installer's verdict.
    Install,
    /// Toolchain available; benchmarks are run one at a time, in order.
    Bench,
    /// A record has been produced; nothing more will be requested.
    Done,
}

impl Clone for BenchmarkResult {
    fn clone(&self) -> (res: Self)
        ensures
            res == *self,
    {
        let res = BenchmarkResult { name: self.name.clone(), metrics: self.metrics.clone() };
        res
    }
}

/// Copies a result list element for element.
fn clone_results(v: &Vec<BenchmarkResult>) -> (r: Vec<BenchmarkResult>)
    ensures
        r@ == v@,
{
    let mut r: Vec<BenchmarkResult> = Vec::new();
    let mut i: usize = 0;
    while i < v.len()
        invariant
            i <= v@.len(),
            r@ == v@.take(i as int),
        decreases v@.len() - i,
    {
        r.push(v[i].clone());
        proof {
            assert(v@.take(i + 1) =~= v@.take(i as int).push(v@[i as int]));
        }
        i = i + 1;
    }
    proof {
        assert(v@.take(v@.len() as int) =~= v@);
    }
    r
}

/// Drives the measurement of one revision. The surrounding program performs
/// the expensive outside work — installing the toolchain, executing each
/// benchmark — and feeds the outcomes back in; this machine makes every
/// decision and aggregates the one binary record for the revision. Whatever
/// happens, the driver must release the toolchain handle when the phase
/// reaches `Done` (unless it was asked to preserve it for debugging).
pub struct MeasurementRunner {
    pub revision: Revision,
    pub triple: String,
    pub benchmarks: Vec<BenchmarkDefinition>,
    pub completed: Vec<BenchmarkResult>,
    pub phase: RunnerPhase,
}

impl MeasurementRunner {
    /// Completed results mirror the benchmark list, name for name, in order.
    pub open spec fn wf(self) -> bool {
        &&& self.completed@.len() <= self.benchmarks@.len()
        &&& forall|i: int|
            0 <= i < self.completed@.len() ==> (#[trigger] self.completed@[i]).name@
                == self.benchmarks@[i].name@
        &&& self.phase is Install ==> self.completed@.len() == 0
    }

    /// Begins the measurement of `revision`: the first thing needed is a
    /// toolchain, so the machine starts out waiting for the installer.
    pub fn start(revision: Revision, triple: String, benchmarks: Vec<BenchmarkDefinition>) -> (r:
        Self)
        ensures
            r.wf(),
            r.phase is Install,
            r.revision == revision,
            r.triple == triple,
            r.benchmarks == benchmarks,
            r.completed@.len() == 0,
    {
        MeasurementRunner {
            revision,
            triple,
            benchmarks,
            completed: Vec::new(),
            phase: RunnerPhase::Install,
        }
    }

    /// The installer could not produce a toolchain: the whole revision is a
    /// failure wrapping the installer's error, and — since the phase moves
    /// straight to `Done` — not a single benchmark is ever requested.
    pub fn install_failed(&mut self, error: String) -> (rec: MeasurementRecord)
        requires
            old(self).wf(),
            old(self).phase is Install,
        ensures
            final(self).wf(),
            final(self).phase is Done,
            final(self).revision == old(self).revision,
            final(self).benchmarks == old(self).benchmarks,
            rec.revision_id@ == old(self).revision.id@,
            rec.triple@ == old(self).triple@,
            (rec.outcome matches Outcome::Failure(e) && e@ == error@),
    {
        self.phase = RunnerPhase::Done;
        MeasurementRecord {
            revision_id: self.revision.id.clone(),
            triple: self.triple.clone(),
            outcome: Outcome::Failure(error),
        }
    }

    /// The installer produced a runnable toolchain: benchmarking begins.
    pub fn installed(&mut self)
        requires
            old(self).wf(),
            old(self).phase is Install,
        ensures
            final(self).wf(),
            final(self).phase is Bench,
            final(self).revision == old(self).revision,
            final(self).triple == old(self).triple,
            final(self).benchmarks == old(self).benchmarks,
            final(self).completed@.len() == 0,
    {
        self.phase = RunnerPhase::Bench;
    }

    /// The next benchmark to execute, or none when every benchmark has
    /// produced metrics and the record can be finished.
    pub fn next_benchmark(&self) -> (r: Option<&BenchmarkDefinition>)
        requires
            self.wf(),
            self.phase is Bench,
        ensures
            match r {
                Some(b) => self.completed@.len() < self.benchmarks@.len() && *b
                    == self.benchmarks@[self.completed@.len() as int],
                None => self.completed@.len() == self.benchmarks@.len(),
            },
    {
        if self.completed.len() < self.benchmarks.len() {
            Some(&self.benchmarks[self.completed.len()])
        } else {
            None
        }
    }

    /// Every benchmark has already produced metrics — which, since a
    /// nonempty set finishes inside `benchmark_done`, happens exactly when
    /// the benchmark set is empty — so the Success record aggregating the
    /// completed results is produced here.
    pub fn finish(&mut self) -> (rec: MeasurementRecord)
        requires
            old(self).wf(),
            old(self).phase is Bench,
            old(self).completed@.len() == old(self).benchmarks@.len(),
        ensures
            final(self).wf(),
            final(self).phase is Done,
            final(self).revision == old(self).revision,
            final(self).triple == old(self).triple,
            final(self).benchmarks == old(self).benchmarks,
            final(self).completed == old(self).completed,
            rec.revision_id@ == old(self).revision.id@,
            rec.triple@ == old(self).triple@,
            (rec.outcome matches Outcome::Success(rs) && rs@ == old(self).completed@),
    {
        self.phase = RunnerPhase::Done;
        let results = clone_results(&self.completed);
        MeasurementRecord {
            revision_id: self.revision.id.clone(),
            triple: self.triple.clone(),
            outcome: Outcome::Success(results),
        }
    }

    /// Takes the outcome of the benchmark that `next_benchmark` requested.
    /// One error makes the whole revision a Failure — partial success is
    /// never kept, so a revision's record stays binary. Only when every
    /// benchmark returned metrics does a Success record aggregate them all.
    pub fn benchmark_done(&mut self, outcome: BenchmarkOutcome) -> (rec: Option<MeasurementRecord>)
        requires
            old(self).wf(),
            old(self).phase is Bench,
            old(self).completed@.len() < old(self).benchmarks@.len(),
        ensures
            final(self).wf(),
            final(self).revision == old(self).revision,
            final(self).triple == old(self).triple,
            final(self).benchmarks == old(self).benchmarks,
            outcome matches BenchmarkOutcome::Error(e) ==> {
                &&& final(self).phase is Done
                &&& rec matches Some(fr)
                &&& fr.revision_id@ == old(self).revision.id@
                &&& fr.triple@ == old(self).triple@
                &&& (fr.outcome matches Outcome::Failure(e2) && e2@ == e@)
            },
            outcome matches BenchmarkOutcome::Metrics(m) ==> {
                &&& final(self).completed@.len() == old(self).completed@.len() + 1
                &&& final(self).completed@.take(old(self).completed@.len() as int) == old(self).completed@
                &&& final(self).completed@.last().name@ == old(self).benchmarks@[old(self).completed@.len() as int].name@
                &&& final(self).completed@.last().metrics@ == m@
                &&& if final(self).completed@.len() == final(self).benchmarks@.len() {
                    &&& final(self).phase is Done
                    &&& rec matches Some(fr)
                    &&& fr.revision_id@ == old(self).revision.id@
                    &&& fr.triple@ == old(self).triple@
                    &&& (fr.outcome matches Outcome::Success(rs) && rs@ == final(self).completed@)
                } else {
                    &&& final(self).phase is Bench
                    &&& rec is None
                }
            },
    {
        match outcome {
            BenchmarkOutcome::Error(e) => {
                self.phase = RunnerPhase::Done;
                Some(
                    MeasurementRecord {
                        revision_id: self.revision.id.clone(),
                        triple: self.triple.clone(),
                        outcome: Outcome::Failure(e),
                    },
                )
            },
            BenchmarkOutcome::Metrics(m) => {
                let name = self.benchmarks[self.completed.len()].name.clone();
                self.completed.push(BenchmarkResult { name, metrics: m });
                proof {
                    assert(self.completed@.take(old(self).completed@.len() as int) =~= old(self).completed@);
                }
                if self.completed.len() == self.benchmarks.len() {
                    self.phase = RunnerPhase::Done;
                    let results = clone_results(&self.completed);
                    Some(
                        MeasurementRecord {
                            revision_id: self.revision.id.clone(),
                            triple: self.triple.clone(),
                            outcome: Outcome::Success(results),
                        },
                    )
                } else {
                    None
                }
            },
        }
    }
}

} // verus!
