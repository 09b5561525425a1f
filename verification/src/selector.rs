use vstd::prelude::*;
use crate::revision::Revision;

verus! {

/// Largest backlog that is still processed densely: with this many missing
/// revisions or fewer, every one of them is selected.
pub const DENSE_LIMIT: usize = 5;

/// Sampling stride for large backlogs: above the dense limit, every
/// `SAMPLE_STEP`-th missing revision is selected, starting at index 0.
pub const SAMPLE_STEP: usize = 30;

/// What one invocation selects out of the missing revisions: all of them
/// when the backlog is small, every `SAMPLE_STEP`-th entry (starting at the
/// first) when it is large. Order is preserved. The selection is a pure
/// function of the missing list, so identical inputs always select the same
/// revisions.
pub open spec fn selection_of(missing: Seq<Revision>) -> Seq<Revision> {
    if missing.len() <= DENSE_LIMIT {
        missing
    } else {
        Seq::new(
            ((missing.len() - 1) / (SAMPLE_STEP as int) + 1) as nat,
            |i: int| missing[i * (SAMPLE_STEP as int)],
        )
    }
}

/// Computes the deterministic, cost-bounded subset of `missing` that this
/// invocation will process. `all` is the full ordered revision history the
/// missing list was derived from; the policy depends only on `missing`.
pub fn select(all: &Vec<Revision>, missing: &Vec<Revision>) -> (r: Vec<Revision>)
    ensures
        r@ == selection_of(missing@),
{
    let mut r: Vec<Revision> = Vec::new();
    if missing.len() <= DENSE_LIMIT {
        let mut i: usize = 0;
        while i < missing.len()
            invariant
                i <= missing@.len(),
                r@ =~= missing@.take(i as int),
            decreases missing@.len() - i,
        {
            r.push(missing[i].clone());
            i = i + 1;
        }
        proof {
            assert(r@ =~= missing@);
        }
    } else {
        let mut k: usize = 0;
        let n: usize = missing.len();
        let count: usize = (n - 1) / SAMPLE_STEP + 1;
        while k < count
            invariant
                k <= count,
                n == missing@.len(),
                missing@.len() > DENSE_LIMIT,
                count == (missing@.len() - 1) / (SAMPLE_STEP as int) + 1,
                r@ =~= Seq::new(k as nat, |i: int| missing@[i * (SAMPLE_STEP as int)]),
            decreases count - k,
        {
            proof {
                assert((k as int) * (SAMPLE_STEP as int) <= (
                ((missing@.len() - 1) / (SAMPLE_STEP as int)) * (SAMPLE_STEP as int)))
                    by (nonlinear_arith)
                    requires
                        0 <= k as int <= (missing@.len() - 1) / (SAMPLE_STEP as int),
                ;
                assert(((missing@.len() - 1) / (SAMPLE_STEP as int)) * (SAMPLE_STEP as int) <= missing@.len()
                    - 1) by (nonlinear_arith)
                    requires
                        missing@.len() >= 1,
                ;
            }
            let idx: usize = k * SAMPLE_STEP;
            r.push(missing[idx].clone());
            k = k + 1;
        }
        proof {
            assert(r@ =~= selection_of(missing@));
        }
    }
    r
}

/// Selection is deterministic: identical missing lists always yield the
/// identical, order-preserving selection — there is no randomness and no
/// dependence on anything outside the input.
pub proof fn lemma_selection_deterministic(m1: Seq<Revision>, m2: Seq<Revision>)
    requires
        m1 == m2,
    ensures
        selection_of(m1) == selection_of(m2),
{
}

/// The sampling threshold: a backlog within the dense limit is selected
/// whole; a larger backlog yields exactly the entries at indices
/// 0, SAMPLE_STEP, 2 * SAMPLE_STEP, ... that lie within bounds.
pub proof fn lemma_sampling_threshold(m: Seq<Revision>)
    ensures
        m.len() <= DENSE_LIMIT ==> selection_of(m) == m,
        m.len() > DENSE_LIMIT ==> selection_of(m).len() == (m.len() - 1) / (SAMPLE_STEP as int)
            + 1,
        m.len() > DENSE_LIMIT ==> forall|i: int|
            0 <= i < selection_of(m).len() ==> selection_of(m)[i] == m[i * (SAMPLE_STEP as int)],
{
}

} // verus!
