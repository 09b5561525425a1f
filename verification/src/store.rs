use vstd::prelude::*;
use crate::record::{MeasurementRecord, Outcome};
use crate::revision::Revision;

verus! {

/// Whether some entry of `list` carries exactly the characters of `id`.
pub open spec fn id_listed(list: Seq<String>, id: Seq<char>) -> bool {
    exists|i: int| 0 <= i < list.len() && list[i]@ == id
}

/// Membership test on a list of revision ids.
pub fn contains_id(list: &Vec<String>, id: &String) -> (r: bool)
    ensures
        r == id_listed(list@, id@),
{
    let mut i: usize = 0;
    while i < list.len()
        invariant
            i <= list@.len(),
            forall|k: int| 0 <= k < i ==> list@[k]@ != id@,
        decreases list@.len() - i,
    {
        if list[i].eq(id) {
            return true;
        }
        i = i + 1;
    }
    false
}

/// In-memory authority over what has already been measured for one target
/// triple: an ordered list of records, at most one per revision. The
/// surrounding program hydrates it from the persisted file tree through
/// `load_record` and durably writes back every record this store accepts,
/// so that the persisted state and this view never diverge.
pub struct ResultStore {
    pub triple: String,
    pub records: Vec<MeasurementRecord>,
}

impl ResultStore {
    /// Well-formedness: one record per revision, all for this store's triple.
    pub open spec fn wf(self) -> bool {
        &&& forall|i: int, j: int|
            0 <= i < j < self.records@.len() ==> self.records@[i].revision_id@
                != self.records@[j].revision_id@
        &&& forall|i: int|
            0 <= i < self.records@.len() ==> (#[trigger] self.records@[i]).triple@ == self.triple@
    }

    /// Whether some record exists for the revision with this id.
    pub open spec fn has_id(self, id: Seq<char>) -> bool {
        exists|i: int| 0 <= i < self.records@.len() && self.records@[i].revision_id@ == id
    }

    /// Position of the record for this id (unique when `wf`).
    pub open spec fn idx_of(self, id: Seq<char>) -> int {
        choose|i: int| 0 <= i < self.records@.len() && self.records@[i].revision_id@ == id
    }

    /// The record held for this id (meaningful only when `has_id`).
    pub open spec fn record_of(self, id: Seq<char>) -> MeasurementRecord {
        self.records@[self.idx_of(id)]
    }

    /// The revision's last recorded outcome is a success.
    pub open spec fn is_success(self, id: Seq<char>) -> bool {
        self.has_id(id) && self.record_of(id).outcome is Success
    }

    /// The revision's last recorded outcome is a failure, making it
    /// eligible for retry.
    pub open spec fn is_failure(self, id: Seq<char>) -> bool {
        self.has_id(id) && self.record_of(id).outcome is Failure
    }

    /// The revisions of `revs`, in order, that have no record yet.
    pub open spec fn missing_of(self, revs: Seq<Revision>) -> Seq<Revision>
        decreases revs.len(),
    {
        if revs.len() == 0 {
            Seq::empty()
        } else {
            let rest = self.missing_of(revs.drop_last());
            if self.has_id(revs.last().id@) {
                rest
            } else {
                rest.push(revs.last())
            }
        }
    }

    /// Id of the earliest-recorded pending failure in `records`, if any.
    pub open spec fn first_failure_of(records: Seq<MeasurementRecord>) -> Option<Seq<char>>
        decreases records.len(),
    {
        if records.len() == 0 {
            None
        } else if records[0].outcome is Failure {
            Some(records[0].revision_id@)
        } else {
            Self::first_failure_of(records.drop_first())
        }
    }

    /// Id of the earliest-recorded pending failure of this store, if any.
    pub open spec fn first_failure(self) -> Option<Seq<char>> {
        Self::first_failure_of(self.records@)
    }

    /// Id of the earliest-recorded pending failure of `records` whose id
    /// is not on the `exclude` list, if any.
    pub open spec fn pending_retry_of(
        records: Seq<MeasurementRecord>,
        exclude: Seq<String>,
    ) -> Option<Seq<char>>
        decreases records.len(),
    {
        if records.len() == 0 {
            None
        } else if records[0].outcome is Failure && !id_listed(exclude, records[0].revision_id@) {
            Some(records[0].revision_id@)
        } else {
            Self::pending_retry_of(records.drop_first(), exclude)
        }
    }

    /// Id of this store's earliest pending failure not on `exclude`.
    pub open spec fn pending_retry(self, exclude: Seq<String>) -> Option<Seq<char>> {
        Self::pending_retry_of(self.records@, exclude)
    }

    /// A fresh, empty store for one target triple.
    pub fn new(triple: String) -> (s: Self)
        ensures
            s.wf(),
            s.triple == triple,
            s.records@.len() == 0,
    {
        ResultStore { triple, records: Vec::new() }
    }

    /// Whether a record for this revision id already exists. A pure read.
    pub fn has_record(&self, id: &String) -> (r: bool)
        ensures
            r == self.has_id(id@),
    {
        let mut i: usize = 0;
        while i < self.records.len()
            invariant
                i <= self.records@.len(),
                forall|k: int| 0 <= k < i ==> self.records@[k].revision_id@ != id@,
            decreases self.records@.len() - i,
        {
            if self.records[i].revision_id.eq(id) {
                return true;
            }
            i = i + 1;
        }
        false
    }

    /// Every revision of `revs`, in the same relative order, that has no
    /// record in this store yet. A pure read: the store is not changed.
    pub fn find_missing(&self, revs: &Vec<Revision>) -> (r: Vec<Revision>)
        ensures
            r@ == self.missing_of(revs@),
    {
        let mut r: Vec<Revision> = Vec::new();
        let mut i: usize = 0;
        while i < revs.len()
            invariant
                i <= revs@.len(),
                r@ == self.missing_of(revs@.take(i as int)),
            decreases revs@.len() - i,
        {
            proof {
                assert(revs@.take(i + 1).drop_last() =~= revs@.take(i as int));
                assert(revs@.take(i + 1).last() == revs@[i as int]);
            }
            if !self.has_record(&revs[i].id) {
                r.push(revs[i].clone());
            }
            i = i + 1;
        }
        proof {
            assert(revs@.take(revs@.len() as int) =~= revs@);
        }
        r
    }

    /// No record before position `i` is an unexcluded failure, so the
    /// earliest pending retry of the whole list is the earliest from `i` on.
    proof fn lemma_pending_retry_skip(records: Seq<MeasurementRecord>, exclude: Seq<String>, i: int)
        requires
            0 <= i <= records.len(),
            forall|k: int|
                0 <= k < i ==> !((#[trigger] records[k]).outcome is Failure && !id_listed(
                    exclude,
                    records[k].revision_id@,
                )),
        ensures
            Self::pending_retry_of(records, exclude) == Self::pending_retry_of(
                records.skip(i),
                exclude,
            ),
        decreases i,
    {
        if i == 0 {
            assert(records.skip(0) =~= records);
        } else {
            assert(records.drop_first() =~= records.skip(1));
            Self::lemma_pending_retry_skip(records.skip(1), exclude, i - 1);
            assert(records.skip(1).skip(i - 1) =~= records.skip(i));
        }
    }

    /// With nothing excluded, the pending retry is the first failure.
    proof fn lemma_pending_retry_no_exclusions(
        records: Seq<MeasurementRecord>,
        exclude: Seq<String>,
    )
        requires
            exclude.len() == 0,
        ensures
            Self::pending_retry_of(records, exclude) == Self::first_failure_of(records),
        decreases records.len(),
    {
        if records.len() > 0 {
            Self::lemma_pending_retry_no_exclusions(records.drop_first(), exclude);
        }
    }

    /// Whatever `pending_retry_of` hands out is not on the exclude list.
    pub proof fn lemma_pending_retry_fresh(records: Seq<MeasurementRecord>, exclude: Seq<String>)
        ensures
            match Self::pending_retry_of(records, exclude) {
                Some(id) => !id_listed(exclude, id),
                None => true,
            },
        decreases records.len(),
    {
        if records.len() > 0 && !(records[0].outcome is Failure && !id_listed(
            exclude,
            records[0].revision_id@,
        )) {
            Self::lemma_pending_retry_fresh(records.drop_first(), exclude);
        }
    }

    /// A pending failure returned by `first_failure_of` always has a
    /// Failure record at some position of the list.
    proof fn lemma_first_failure_witness(records: Seq<MeasurementRecord>)
        ensures
            match Self::first_failure_of(records) {
                Some(id) => exists|j: int|
                    0 <= j < records.len() && (#[trigger] records[j]).outcome is Failure
                        && records[j].revision_id@ == id,
                None => forall|j: int|
                    0 <= j < records.len() ==> !((#[trigger] records[j]).outcome is Failure),
            },
        decreases records.len(),
    {
        if records.len() > 0 && !(records[0].outcome is Failure) {
            Self::lemma_first_failure_witness(records.drop_first());
            match Self::first_failure_of(records) {
                Some(id) => {
                    let j = choose|j: int|
                        0 <= j < records.drop_first().len() && (#[trigger] records.drop_first()[j]).outcome
                            is Failure && records.drop_first()[j].revision_id@ == id;
                    assert(records[j + 1].outcome is Failure && records[j + 1].revision_id@
                        == id);
                },
                None => {
                    assert(forall|j: int|
                        1 <= j < records.len() ==> records[j] == records.drop_first()[j - 1]);
                },
            }
        }
    }

    /// One revision currently recorded as a failure, deterministically the
    /// earliest-recorded one, or none when no failure is pending. A pure
    /// read over the record list: a drain loop that must not see the same
    /// failure twice in one invocation goes through `next_retry_excluding`
    /// with the ids it has already handed out.
    pub fn next_retry(&self) -> (r: Option<String>)
        ensures
            match r {
                Some(id) => self.first_failure() == Some(id@),
                None => self.first_failure() is None,
            },
    {
        let none: Vec<String> = Vec::new();
        let r = self.next_retry_excluding(&none);
        proof {
            Self::lemma_pending_retry_no_exclusions(self.records@, none@);
        }
        r
    }

    /// The earliest-recorded pending failure whose id is not on `exclude`,
    /// or none. The orchestrator drains retries through this, handing in
    /// the ids it has already attempted, so that a revision whose retry
    /// fails again is not handed out a second time within one invocation.
    pub fn next_retry_excluding(&self, exclude: &Vec<String>) -> (r: Option<String>)
        ensures
            match r {
                Some(id) => self.pending_retry(exclude@) == Some(id@),
                None => self.pending_retry(exclude@) is None,
            },
    {
        let mut i: usize = 0;
        while i < self.records.len()
            invariant
                i <= self.records@.len(),
                forall|k: int|
                    0 <= k < i ==> !((#[trigger] self.records@[k]).outcome is Failure
                        && !id_listed(exclude@, self.records@[k].revision_id@)),
            decreases self.records@.len() - i,
        {
            match &self.records[i].outcome {
                Outcome::Failure(_) => {
                    if !contains_id(exclude, &self.records[i].revision_id) {
                        proof {
                            Self::lemma_pending_retry_skip(self.records@, exclude@, i as int);
                            assert(self.records@.skip(i as int)[0] == self.records@[i as int]);
                        }
                        return Some(self.records[i].revision_id.clone());
                    }
                    i = i + 1;
                },
                Outcome::Success(_) => {
                    i = i + 1;
                },
            }
        }
        proof {
            Self::lemma_pending_retry_skip(self.records@, exclude@, self.records@.len() as int);
            assert(self.records@.skip(self.records@.len() as int) =~= Seq::<
                MeasurementRecord,
            >::empty());
        }
        None
    }

    /// Position of the record for this id, or none when no record exists.
    fn find_idx(&self, id: &String) -> (r: Option<usize>)
        ensures
            match r {
                Some(i) => i < self.records@.len() && self.records@[i as int].revision_id@
                    == id@,
                None => forall|k: int|
                    0 <= k < self.records@.len() ==> self.records@[k].revision_id@ != id@,
            },
    {
        let mut i: usize = 0;
        while i < self.records.len()
            invariant
                i <= self.records@.len(),
                forall|k: int| 0 <= k < i ==> self.records@[k].revision_id@ != id@,
            decreases self.records@.len() - i,
        {
            if self.records[i].revision_id.eq(id) {
                return Some(i);
            }
            i = i + 1;
        }
        None
    }

    /// Accepts one record, replacing any prior record for the same
    /// revision and appending otherwise. This is the single write path: the
    /// surrounding program calls it when hydrating the store from its
    /// persisted files, and `record_success` / `record_failure` go through
    /// it for new outcomes.
    pub fn load_record(&mut self, rec: MeasurementRecord)
        requires
            old(self).wf(),
            rec.triple@ == old(self).triple@,
        ensures
            final(self).wf(),
            final(self).triple == old(self).triple,
            old(self).has_id(rec.revision_id@) ==> final(self).records@ == old(self).records@.update(
                old(self).idx_of(rec.revision_id@),
                rec,
            ),
            !old(self).has_id(rec.revision_id@) ==> final(self).records@ == old(self).records@.push(rec),
            forall|id2: Seq<char>|
                #[trigger] final(self).has_id(id2) <==> (old(self).has_id(id2) || id2
                    == rec.revision_id@),
            final(self).has_id(rec.revision_id@),
            final(self).record_of(rec.revision_id@) == rec,
    {
        let ghost pre = *self;
        let found = self.find_idx(&rec.revision_id);
        match found {
            Some(fi) => {
                proof {
                    assert(pre.has_id(rec.revision_id@));
                    assert(pre.idx_of(rec.revision_id@) == fi as int) by {
                        let c = pre.idx_of(rec.revision_id@);
                        assert(0 <= c < pre.records@.len() && pre.records@[c].revision_id@
                            == rec.revision_id@);
                    }
                }
                self.records.set(fi, rec);
                proof {
                    assert forall|id2: Seq<char>| #[trigger]
                        self.has_id(id2) implies (pre.has_id(id2) || id2
                        == rec.revision_id@) by {
                        let w = choose|w: int|
                            0 <= w < self.records@.len() && self.records@[w].revision_id@ == id2;
                        if w != fi as int {
                            assert(pre.records@[w].revision_id@ == id2);
                        }
                    }
                    assert forall|id2: Seq<char>| pre.has_id(id2) implies #[trigger]
                        self.has_id(id2) by {
                        let w = choose|w: int|
                            0 <= w < pre.records@.len() && pre.records@[w].revision_id@ == id2;
                        if w == fi as int {
                            assert(self.records@[fi as int].revision_id@ == id2);
                        } else {
                            assert(self.records@[w].revision_id@ == id2);
                        }
                    }
                    assert(self.record_of(rec.revision_id@) == rec) by {
                        let c = self.idx_of(rec.revision_id@);
                        assert(0 <= c < self.records@.len() && self.records@[c].revision_id@
                            == rec.revision_id@);
                        if c != fi as int {
                            assert(pre.records@[c].revision_id@ == rec.revision_id@);
                        }
                    }
                }
            },
            None => {
                self.records.push(rec);
                proof {
                    assert forall|id2: Seq<char>| #[trigger]
                        self.has_id(id2) implies (pre.has_id(id2) || id2
                        == rec.revision_id@) by {
                        let w = choose|w: int|
                            0 <= w < self.records@.len() && self.records@[w].revision_id@ == id2;
                        if w < pre.records@.len() {
                            assert(pre.records@[w].revision_id@ == id2);
                        }
                    }
                    assert forall|id2: Seq<char>| pre.has_id(id2) implies #[trigger]
                        self.has_id(id2) by {
                        let w = choose|w: int|
                            0 <= w < pre.records@.len() && pre.records@[w].revision_id@ == id2;
                        assert(self.records@[w].revision_id@ == id2);
                    }
                    assert(self.has_id(rec.revision_id@)) by {
                        assert(self.records@[pre.records@.len() as int].revision_id@
                            == rec.revision_id@);
                    }
                    assert(self.record_of(rec.revision_id@) == rec) by {
                        let c = self.idx_of(rec.revision_id@);
                        assert(0 <= c < self.records@.len() && self.records@[c].revision_id@
                            == rec.revision_id@);
                        if c < pre.records@.len() {
                            assert(pre.records@[c].revision_id@ == rec.revision_id@);
                        }
                    }
                }
            },
        }
    }

    /// Durably accepts a Success outcome, overwriting any prior record —
    /// in particular a prior Failure, which is how a successful retry
    /// permanently leaves the retry set.
    pub fn record_success(&mut self, rec: MeasurementRecord)
        requires
            old(self).wf(),
            rec.outcome is Success,
            rec.triple@ == old(self).triple@,
        ensures
            final(self).wf(),
            final(self).triple == old(self).triple,
            old(self).has_id(rec.revision_id@) ==> final(self).records@ == old(self).records@.update(
                old(self).idx_of(rec.revision_id@),
                rec,
            ),
            !old(self).has_id(rec.revision_id@) ==> final(self).records@ == old(self).records@.push(rec),
            forall|id2: Seq<char>|
                #[trigger] final(self).has_id(id2) <==> (old(self).has_id(id2) || id2
                    == rec.revision_id@),
            final(self).is_success(rec.revision_id@),
            final(self).record_of(rec.revision_id@) == rec,
    {
        self.load_record(rec);
    }

    /// Durably accepts a Failure outcome for `rev`, overwriting any prior
    /// record for it, which marks the revision for a later retry.
    pub fn record_failure(&mut self, rev: &Revision, error: String)
        requires
            old(self).wf(),
        ensures
            final(self).wf(),
            final(self).triple == old(self).triple,
            forall|id2: Seq<char>|
                #[trigger] final(self).has_id(id2) <==> (old(self).has_id(id2) || id2 == rev.id@),
            final(self).is_failure(rev.id@),
            (final(self).record_of(rev.id@).outcome matches Outcome::Failure(e) && e@ == error@),
            final(self).record_of(rev.id@).revision_id@ == rev.id@,
            final(self).record_of(rev.id@).triple@ == final(self).triple@,
            old(self).has_id(rev.id@) ==> final(self).records@ == old(self).records@.update(
                old(self).idx_of(rev.id@),
                final(self).record_of(rev.id@),
            ),
            !old(self).has_id(rev.id@) ==> final(self).records@ == old(self).records@.push(
                final(self).record_of(rev.id@),
            ),
    {
        let rec = MeasurementRecord {
            revision_id: rev.id.clone(),
            triple: self.triple.clone(),
            outcome: Outcome::Failure(error),
        };
        self.load_record(rec);
    }
}

/// Every revision that `missing_of` keeps is indeed unrecorded.
proof fn lemma_missing_unrecorded(s: ResultStore, revs: Seq<Revision>)
    ensures
        forall|j: int|
            0 <= j < s.missing_of(revs).len() ==> !s.has_id(
                (#[trigger] s.missing_of(revs)[j]).id@,
            ),
    decreases revs.len(),
{
    if revs.len() > 0 {
        lemma_missing_unrecorded(s, revs.drop_last());
        let rest = s.missing_of(revs.drop_last());
        assert forall|j: int| 0 <= j < s.missing_of(revs).len() implies !s.has_id(
            (#[trigger] s.missing_of(revs)[j]).id@,
        ) by {
            if !s.has_id(revs.last().id@) && j == rest.len() {
                assert(s.missing_of(revs)[j] == revs.last());
            } else {
                assert(s.missing_of(revs)[j] == rest[j]);
            }
        }
    }
}

/// No reprocessing: a revision with an existing Success record is never
/// part of `find_missing`'s result, so normal selection cannot pick it up
/// again.
pub proof fn lemma_no_reprocessing(s: ResultStore, revs: Seq<Revision>, r: Revision)
    requires
        s.is_success(r.id@),
    ensures
        forall|j: int|
            0 <= j < s.missing_of(revs).len() ==> (#[trigger] s.missing_of(revs)[j]).id@ != r.id@,
{
    lemma_missing_unrecorded(s, revs);
}

/// Retry idempotence: once a revision's record is a Success — which
/// `record_success` establishes after a successful retry — `next_retry`
/// can never return that revision again.
pub proof fn lemma_retry_idempotence(s: ResultStore, id: Seq<char>)
    requires
        s.wf(),
        s.is_success(id),
    ensures
        s.first_failure() != Some(id),
{
    ResultStore::lemma_first_failure_witness(s.records@);
    if s.first_failure() == Some(id) {
        let j = choose|j: int|
            0 <= j < s.records@.len() && (#[trigger] s.records@[j]).outcome is Failure
                && s.records@[j].revision_id@ == id;
        let c = s.idx_of(id);
        assert(0 <= c < s.records@.len() && s.records@[c].revision_id@ == id);
        assert(j == c);
    }
}

} // verus!
