use vstd::prelude::*;
use vstd::string::StrSliceExecFns;
use vstd::string::StringExecFns;

verus! {

/// One benchmark to run against every measured revision: a unique name and
/// the location it was discovered at. Discovered once per invocation.
pub struct BenchmarkDefinition {
    pub name: String,
    pub location: String,
}

impl Clone for BenchmarkDefinition {
    fn clone(&self) -> (res: Self)
        ensures
            res == *self,
    {
        let res = BenchmarkDefinition { name: self.name.clone(), location: self.location.clone() };
        res
    }
}

/// What the surrounding program reads off one directory entry when listing
/// the benchmark directory: the entry's name, its full location, and
/// whether it is a directory.
pub struct DirEntry {
    pub name: String,
    pub location: String,
    pub is_dir: bool,
}

/// `needle` occurs contiguously somewhere in `hay`.
pub open spec fn contains_seq(hay: Seq<char>, needle: Seq<char>) -> bool {
    exists|i: int|
        0 <= i && i + needle.len() <= hay.len() && #[trigger] hay.subrange(i, i + needle.len())
            == needle
}

/// Whether `needle` matches `hay` exactly at position `i`.
fn matches_at(hay: &String, needle: &String, i: usize, hlen: usize, nlen: usize) -> (r: bool)
    requires
        hlen == hay@.len(),
        nlen == needle@.len(),
        i + nlen <= hlen,
    ensures
        r == (hay@.subrange(i as int, i + nlen) == needle@),
{
    let mut j: usize = 0;
    while j < nlen
        invariant
            hlen == hay@.len(),
            nlen == needle@.len(),
            i + nlen <= hlen,
            j <= nlen,
            forall|t: int| 0 <= t < j ==> hay@[i + t] == needle@[t],
        decreases nlen - j,
    {
        if hay.as_str().get_char(i + j) != needle.as_str().get_char(j) {
            proof {
                assert(hay@.subrange(i as int, i + nlen)[j as int] == hay@[i + j]);
            }
            return false;
        }
        j = j + 1;
    }
    proof {
        assert(hay@.subrange(i as int, i + nlen) =~= needle@);
    }
    true
}

/// Substring test on the character level, used for name-based benchmark
/// filtering.
pub fn contains_substring(hay: &String, needle: &String) -> (r: bool)
    ensures
        r == contains_seq(hay@, needle@),
{
    let hlen = hay.as_str().unicode_len();
    let nlen = needle.as_str().unicode_len();
    if nlen > hlen {
        return false;
    }
    if nlen == 0 {
        proof {
            assert(hay@.subrange(0, 0 + needle@.len() as int) =~= needle@);
            assert(contains_seq(hay@, needle@));
        }
        return true;
    }
    let mut i: usize = 0;
    while i <= hlen - nlen
        invariant
            hlen == hay@.len(),
            nlen == needle@.len(),
            0 < nlen <= hlen,
            i <= hlen - nlen + 1,
            forall|k: int|
                0 <= k < i ==> #[trigger] hay@.subrange(k, k + needle@.len()) != needle@,
        decreases hlen - nlen + 1 - i,
    {
        if matches_at(hay, needle, i, hlen, nlen) {
            return true;
        }
        i = i + 1;
    }
    false
}

/// The discovery policy for one directory entry: only directories count,
/// version-control metadata and the scripts directory are excluded
/// unconditionally, and when a name filter is given the name must contain
/// it as a substring.
pub open spec fn spec_accepted(name: Seq<char>, is_dir: bool, filter: Option<Seq<char>>) -> bool {
    &&& is_dir
    &&& name != ".git"@
    &&& name != "scripts"@
    &&& match filter {
        Some(f) => contains_seq(name, f),
        None => true,
    }
}

/// View of an optional name filter.
pub open spec fn filter_view(filter: Option<String>) -> Option<Seq<char>> {
    match filter {
        Some(f) => Some(f@),
        None => None,
    }
}

/// Decides whether one directory entry is registered as a benchmark.
pub fn accept_entry(name: &String, is_dir: bool, filter: &Option<String>) -> (r: bool)
    ensures
        r == spec_accepted(name@, is_dir, filter_view(*filter)),
{
    if !is_dir {
        return false;
    }
    let git = String::from_str(".git");
    let scripts = String::from_str("scripts");
    if name.eq(&git) || name.eq(&scripts) {
        return false;
    }
    match filter {
        Some(f) => contains_substring(name, f),
        None => true,
    }
}

/// The benchmarks that a listing registers: each accepted entry, in the
/// order the listing produced it.
pub open spec fn registered_of(entries: Seq<DirEntry>, filter: Option<Seq<char>>) -> Seq<
    BenchmarkDefinition,
>
    decreases entries.len(),
{
    if entries.len() == 0 {
        Seq::empty()
    } else {
        let rest = registered_of(entries.drop_last(), filter);
        if spec_accepted(entries.last().name@, entries.last().is_dir, filter) {
            rest.push(
                BenchmarkDefinition { name: entries.last().name, location: entries.last().location },
            )
        } else {
            rest
        }
    }
}

/// Registers benchmarks from a directory listing: the caller lists the
/// benchmark directory and hands over one `DirEntry` per entry; this
/// decides, entry by entry, what the benchmark suite for this invocation
/// is.
pub fn register_benchmarks(entries: &Vec<DirEntry>, filter: &Option<String>) -> (r: Vec<
    BenchmarkDefinition,
>)
    ensures
        r@ == registered_of(entries@, filter_view(*filter)),
{
    let mut r: Vec<BenchmarkDefinition> = Vec::new();
    let mut i: usize = 0;
    while i < entries.len()
        invariant
            i <= entries@.len(),
            r@ == registered_of(entries@.take(i as int), filter_view(*filter)),
        decreases entries@.len() - i,
    {
        proof {
            assert(entries@.take(i + 1).drop_last() =~= entries@.take(i as int));
            assert(entries@.take(i + 1).last() == entries@[i as int]);
        }
        if accept_entry(&entries[i].name, entries[i].is_dir, filter) {
            let def = BenchmarkDefinition {
                name: entries[i].name.clone(),
                location: entries[i].location.clone(),
            };
            r.push(def);
        }
        i = i + 1;
    }
    proof {
        assert(entries@.take(entries@.len() as int) =~= entries@);
    }
    r
}

} // verus!
