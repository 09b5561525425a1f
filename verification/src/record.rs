use vstd::prelude::*;

verus! {

/// What one benchmark run produced: an opaque metrics payload, or a
/// description of the error that stopped it. Keyed by benchmark name in the
/// surrounding record.
pub enum BenchmarkOutcome {
    Metrics(String),
    Error(String),
}

/// The metrics one benchmark produced for one revision, keyed by the
/// benchmark's name. Only fully successful runs are ever aggregated, so
/// there is no error case here.
pub struct BenchmarkResult {
    pub name: String,
    pub metrics: String,
}

/// Mathematical content of a `BenchmarkResult`.
#[verifier::ext_equal]
pub struct BenchResultView {
    pub name: Seq<char>,
    pub metrics: Seq<char>,
}

impl View for BenchmarkResult {
    type V = BenchResultView;

    open spec fn view(&self) -> BenchResultView {
        BenchResultView { name: self.name@, metrics: self.metrics@ }
    }
}

/// A revision's recorded outcome is binary: either every benchmark
/// succeeded and all payloads are kept, or the revision as a whole is a
/// failure with one error description. Partial per-benchmark success is
/// never persisted.
pub enum Outcome {
    Success(Vec<BenchmarkResult>),
    Failure(String),
}

/// Mathematical content of an `Outcome`.
#[verifier::ext_equal]
pub enum OutcomeView {
    Success(Seq<BenchResultView>),
    Failure(Seq<char>),
}

impl View for Outcome {
    type V = OutcomeView;

    open spec fn view(&self) -> OutcomeView {
        match self {
            Outcome::Success(results) => OutcomeView::Success(
                results@.map_values(|b: BenchmarkResult| b@),
            ),
            Outcome::Failure(error) => OutcomeView::Failure(error@),
        }
    }
}

/// One durable record: the outcome of measuring one revision for one
/// target triple. The store keeps at most one record per revision.
pub struct MeasurementRecord {
    pub revision_id: String,
    pub triple: String,
    pub outcome: Outcome,
}

/// Mathematical content of a `MeasurementRecord`.
#[verifier::ext_equal]
pub struct RecordView {
    pub revision_id: Seq<char>,
    pub triple: Seq<char>,
    pub outcome: OutcomeView,
}

impl View for MeasurementRecord {
    type V = RecordView;

    open spec fn view(&self) -> RecordView {
        RecordView { revision_id: self.revision_id@, triple: self.triple@, outcome: self.outcome@ }
    }
}

} // verus!
