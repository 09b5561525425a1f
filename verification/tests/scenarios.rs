use perf_collector::benchmark::BenchmarkDefinition;
use perf_collector::orchestrator::{Orchestrator, Phase, Step};
use perf_collector::record::{BenchmarkOutcome, BenchmarkResult, MeasurementRecord, Outcome};
use perf_collector::runner::{MeasurementRunner, RunnerPhase};
use perf_collector::store::ResultStore;
use perf_collector::revision::Revision;

const TRIPLE: &str = "x86_64-unknown-linux-gnu";

fn rev(id: &str, ts: i64) -> Revision {
    Revision { id: id.to_string(), timestamp: ts, summary: format!("summary of {}", id) }
}

fn success_record(id: &str) -> MeasurementRecord {
    MeasurementRecord {
        revision_id: id.to_string(),
        triple: TRIPLE.to_string(),
        outcome: Outcome::Success(vec![BenchmarkResult {
            name: "helloworld".to_string(),
            metrics: "cycles=123".to_string(),
        }]),
    }
}

fn bench(name: &str) -> BenchmarkDefinition {
    BenchmarkDefinition { name: name.to_string(), location: format!("benchmarks/{}", name) }
}

/// Empty store: every revision is missing, a small backlog is processed
/// densely, in order.
#[test]
fn scenario_empty_store_processes_all_in_order() {
    let revisions = vec![rev("c1", 1), rev("c2", 2), rev("c3", 3)];
    let mut store = ResultStore::new(TRIPLE.to_string());

    let missing = store.find_missing(&revisions);
    let ids: Vec<&str> = missing.iter().map(|r| r.id.as_str()).collect();
    assert_eq!(ids, vec!["c1", "c2", "c3"]);

    let mut orch = Orchestrator::start(revisions);
    let mut processed: Vec<String> = Vec::new();
    loop {
        match orch.next_step(&store) {
            Step::Measure(r) => {
                processed.push(r.id.clone());
                store.record_success(success_record(&r.id));
            }
            Step::UnknownRetry(id) => panic!("unexpected unknown retry {}", id),
            Step::Done => break,
        }
    }
    assert_eq!(processed, vec!["c1", "c2", "c3"]);
    assert!(matches!(orch.phase, Phase::Finished));
}

/// A pending failure is retried first; once re-recorded as a success it
/// never comes back, and the sweep sees only what is still missing.
#[test]
fn scenario_retry_then_sweep() {
    let revisions = vec![rev("c1", 1), rev("c2", 2), rev("c3", 3)];
    let mut store = ResultStore::new(TRIPLE.to_string());
    store.record_success(success_record("c1"));
    store.record_failure(&revisions[1], "install hung".to_string());

    assert_eq!(store.next_retry(), Some("c2".to_string()));

    store.record_success(success_record("c2"));
    assert_eq!(store.next_retry(), None);

    let missing = store.find_missing(&revisions);
    let ids: Vec<&str> = missing.iter().map(|r| r.id.as_str()).collect();
    assert_eq!(ids, vec!["c3"]);
}

/// A large backlog is sampled sparsely: 40 missing revisions yield the
/// entries at positions 0 and 30 only.
#[test]
fn scenario_sparse_sweep_over_large_backlog() {
    let revisions: Vec<Revision> =
        (0..40).map(|i| rev(&format!("c{:02}", i), i as i64)).collect();
    let mut store = ResultStore::new(TRIPLE.to_string());

    let mut orch = Orchestrator::start(revisions);
    let mut processed: Vec<String> = Vec::new();
    loop {
        match orch.next_step(&store) {
            Step::Measure(r) => {
                processed.push(r.id.clone());
                store.record_success(success_record(&r.id));
            }
            Step::UnknownRetry(id) => panic!("unexpected unknown retry {}", id),
            Step::Done => break,
        }
    }
    assert_eq!(processed, vec!["c00".to_string(), "c30".to_string()]);
}

/// Installer failure: the runner produces a Failure record at once and
/// moves straight to Done — no benchmark is ever requested.
#[test]
fn scenario_installer_failure_skips_benchmarks() {
    let mut runner = MeasurementRunner::start(
        rev("c3", 3),
        TRIPLE.to_string(),
        vec![bench("helloworld"), bench("regex")],
    );
    let record = runner.install_failed("no such toolchain artifact".to_string());
    assert!(matches!(runner.phase, RunnerPhase::Done));
    assert_eq!(record.revision_id, "c3");
    assert_eq!(record.triple, TRIPLE);
    match record.outcome {
        Outcome::Failure(e) => assert_eq!(e, "no such toolchain artifact"),
        Outcome::Success(_) => panic!("installer failure must not yield a success record"),
    }
}

/// One benchmark success plus one benchmark failure records the revision
/// as a Failure overall — never as a partial Success.
#[test]
fn mixed_benchmark_outcomes_record_failure() {
    let mut runner = MeasurementRunner::start(
        rev("c7", 7),
        TRIPLE.to_string(),
        vec![bench("helloworld"), bench("regex")],
    );
    runner.installed();
    let first = runner.next_benchmark().expect("first benchmark requested").name.clone();
    assert_eq!(first, "helloworld");
    let none = runner.benchmark_done(BenchmarkOutcome::Metrics("cycles=1".to_string()));
    assert!(none.is_none());
    let second = runner.next_benchmark().expect("second benchmark requested").name.clone();
    assert_eq!(second, "regex");
    let rec = runner
        .benchmark_done(BenchmarkOutcome::Error("segfault".to_string()))
        .expect("an error must finish the revision");
    match rec.outcome {
        Outcome::Failure(e) => assert_eq!(e, "segfault"),
        Outcome::Success(_) => panic!("a benchmark error must not yield a success record"),
    }
    assert!(matches!(runner.phase, RunnerPhase::Done));
}

/// All benchmarks succeeding yields one Success record holding every
/// payload, keyed by benchmark name, in order.
#[test]
fn all_benchmarks_succeed_records_success() {
    let mut runner = MeasurementRunner::start(
        rev("c9", 9),
        TRIPLE.to_string(),
        vec![bench("helloworld"), bench("regex")],
    );
    runner.installed();
    assert!(runner.benchmark_done(BenchmarkOutcome::Metrics("cycles=1".to_string())).is_none());
    let rec = runner
        .benchmark_done(BenchmarkOutcome::Metrics("cycles=2".to_string()))
        .expect("last benchmark finishes the record");
    match rec.outcome {
        Outcome::Success(results) => {
            let pairs: Vec<(&str, &str)> =
                results.iter().map(|b| (b.name.as_str(), b.metrics.as_str())).collect();
            assert_eq!(pairs, vec![("helloworld", "cycles=1"), ("regex", "cycles=2")]);
        }
        Outcome::Failure(e) => panic!("unexpected failure: {}", e),
    }
}

/// A retry that fails again is attempted exactly once per invocation: the
/// drain loop moves on instead of handing the same revision out forever.
#[test]
fn failing_retry_is_attempted_once_per_invocation() {
    let revisions = vec![rev("c1", 1), rev("c2", 2), rev("c3", 3)];
    let mut store = ResultStore::new(TRIPLE.to_string());
    store.record_success(success_record("c1"));
    store.record_failure(&revisions[1], "broken toolchain".to_string());

    let mut orch = Orchestrator::start(revisions.clone());

    // The pending failure is handed out once...
    match orch.next_step(&store) {
        Step::Measure(r) => {
            assert_eq!(r.id, "c2");
            // ...and its retry fails again, which is recorded as the
            // caller discipline demands.
            store.record_failure(&r, "still broken".to_string());
        }
        _ => panic!("the pending failure must be retried first"),
    }

    // The next step must not hand c2 out again: the retry phase is
    // drained, and the sweep sees only the genuinely missing c3.
    match orch.next_step(&store) {
        Step::Measure(r) => {
            assert_eq!(r.id, "c3");
            store.record_success(success_record(&r.id));
        }
        _ => panic!("the sweep must continue past the failed retry"),
    }
    match orch.next_step(&store) {
        Step::Done => {}
        _ => panic!("the invocation must terminate"),
    }

    // The failure stays durable for the next invocation.
    assert_eq!(store.next_retry(), Some("c2".to_string()));
    let mut next_invocation = Orchestrator::start(revisions);
    match next_invocation.next_step(&store) {
        Step::Measure(r) => assert_eq!(r.id, "c2"),
        _ => panic!("a fresh invocation retries the pending failure again"),
    }
}

/// The exclusion-aware retry query skips what was already attempted and
/// still hands out later pending failures.
#[test]
fn next_retry_excluding_skips_attempted_ids() {
    let mut store = ResultStore::new(TRIPLE.to_string());
    store.record_failure(&rev("c1", 1), "x".to_string());
    store.record_failure(&rev("c2", 2), "y".to_string());

    assert_eq!(store.next_retry_excluding(&Vec::new()), Some("c1".to_string()));
    assert_eq!(store.next_retry_excluding(&vec!["c1".to_string()]), Some("c2".to_string()));
    assert_eq!(
        store.next_retry_excluding(&vec!["c1".to_string(), "c2".to_string()]),
        None
    );
}

/// An empty benchmark set completes through the runner itself, with an
/// empty Success record.
#[test]
fn empty_benchmark_set_finishes_with_empty_success() {
    let mut runner = MeasurementRunner::start(rev("c4", 4), TRIPLE.to_string(), Vec::new());
    runner.installed();
    assert!(runner.next_benchmark().is_none());
    let rec = runner.finish();
    assert!(matches!(runner.phase, RunnerPhase::Done));
    assert_eq!(rec.revision_id, "c4");
    match rec.outcome {
        Outcome::Success(results) => assert!(results.is_empty()),
        Outcome::Failure(e) => panic!("unexpected failure: {}", e),
    }
}

/// A recorded failure for a revision the source does not know aborts the
/// run instead of guessing.
#[test]
fn unknown_retry_revision_is_fatal() {
    let revisions = vec![rev("c1", 1)];
    let mut store = ResultStore::new(TRIPLE.to_string());
    store.record_failure(&rev("ghost", 0), "stale record".to_string());

    let mut orch = Orchestrator::start(revisions);
    match orch.next_step(&store) {
        Step::UnknownRetry(id) => assert_eq!(id, "ghost"),
        _ => panic!("a stale failure record must abort the run"),
    }
    assert!(matches!(orch.phase, Phase::Finished));
}

/// A revision with a Success record is never selected again, even across
/// a fresh orchestrator (a later invocation over the same store).
#[test]
fn successful_revisions_are_never_reprocessed() {
    let revisions = vec![rev("c1", 1), rev("c2", 2), rev("c3", 3)];
    let mut store = ResultStore::new(TRIPLE.to_string());

    let mut orch = Orchestrator::start(revisions.clone());
    loop {
        match orch.next_step(&store) {
            Step::Measure(r) => store.record_success(success_record(&r.id)),
            Step::UnknownRetry(id) => panic!("unexpected unknown retry {}", id),
            Step::Done => break,
        }
    }

    let mut again = Orchestrator::start(revisions);
    match again.next_step(&store) {
        Step::Done => {}
        _ => panic!("a fully recorded history leaves nothing to do"),
    }
}
