use vstd::prelude::*;

verus! {

/// One point in the measured software's history: an opaque identifying
/// hash, the commit timestamp in seconds, and a one-line summary.
/// Identity is the hash alone; a revision is never mutated.
pub struct Revision {
    pub id: String,
    pub timestamp: i64,
    pub summary: String,
}

impl Clone for Revision {
    fn clone(&self) -> (res: Self)
        ensures
            res == *self,
    {
        let res = Revision {
            id: self.id.clone(),
            timestamp: self.timestamp,
            summary: self.summary.clone(),
        };
        res
    }
}

/// Looks a revision up by id in an ordered revision list, returning the
/// index of the first match.
pub fn find_by_id(revs: &Vec<Revision>, id: &String) -> (r: Option<usize>)
    ensures
        match r {
            Some(i) => i < revs@.len() && revs@[i as int].id@ == id@ && forall|k: int|
                0 <= k < i ==> revs@[k].id@ != id@,
            None => forall|j: int| 0 <= j < revs@.len() ==> revs@[j].id@ != id@,
        },
{
    let mut i: usize = 0;
    while i < revs.len()
        invariant
            i <= revs@.len(),
            forall|k: int| 0 <= k < i ==> revs@[k].id@ != id@,
        decreases revs@.len() - i,
    {
        if revs[i].id.eq(id) {
            return Some(i);
        }
        i = i + 1;
    }
    None
}

} // verus!
