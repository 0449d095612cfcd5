use vstd::prelude::*;
use crate::errors::AppError;
use crate::text::str_eq;

verus! {

/// The one record a scan cache can hold: the root that was scanned and the
/// candidate paths the scan produced (an empty list is a valid, cacheable
/// outcome: finding no files is not an error of the cache layer).
pub struct ScanCacheRecord {
    pub root: String,
    pub candidates: Vec<String>,
}

/// The single-slot scan cache: it remembers at most the most recent scan,
/// keyed by the scanned root. It is valid only while its root is the
/// active one; a root change, a scan error or an explicit rescan request
/// empties it.
pub struct ScanCache {
    pub record: Option<ScanCacheRecord>,
}

impl ScanCache {
    /// The cache holds a record for exactly this root.
    pub open spec fn holds(self, root: Seq<char>) -> bool {
        match self.record {
            Some(rec) => rec.root@ == root,
            None => false,
        }
    }

    /// The candidates of the record the cache holds.
    pub open spec fn spec_candidates(self) -> Seq<String>
        recommends
            self.record is Some,
    {
        self.record->0.candidates@
    }

    /// A cache that holds nothing, so the first round scans.
    pub fn new() -> (c: Self)
        ensures
            c.record is None,
    {
        ScanCache { record: None }
    }

    /// Explicit cache busting: used when the user asks for a rescan or
    /// changes the root. Afterwards the cache holds nothing.
    pub fn invalidate(&mut self)
        ensures
            final(self).record is None,
    {
        self.record = None;
    }
}

/// A copy of a path list, path for path.
fn clone_paths(v: &Vec<String>) -> (r: Vec<String>)
    ensures
        r@ == v@,
{
    let mut r: Vec<String> = Vec::new();
    let mut i: usize = 0;
    while i < v.len()
        invariant
            i <= v@.len(),
            r@ == v@.subrange(0, i as int),
        decreases v@.len() - i,
    {
        r.push(v[i].clone());
        proof {
            assert(v@.subrange(0, i + 1 as int) =~= v@.subrange(0, i as int).push(v@[i as int]));
        }
        i += 1;
    }
    proof {
        assert(v@.subrange(0, v@.len() as int) =~= v@);
    }
    r
}

/// The candidates for `root`, from the cache when it already holds them
/// and from one call of `scanner` otherwise. The second component of the
/// result says whether the scanner ran.
///
/// When the cache holds a record for exactly `root`, its candidates come
/// back unchanged, the cache is untouched and the scanner does not run; so
/// two consecutive rounds on the same root, with no invalidation between
/// them, run the scanner at most once. On a miss the scanner runs once:
/// if it succeeds, the fresh record is stored and its candidates returned;
/// if it fails, the error is returned and the cache is emptied, since a
/// failed scan left no trustworthy record, and the next round scans anew.
pub fn get_or_scan<F: Fn(&str, bool) -> Result<Vec<String>, AppError>>(
    cache: &mut ScanCache,
    root: &str,
    recursive: bool,
    scanner: F,
) -> (r: (Result<Vec<String>, AppError>, bool))
    requires
        call_requires(scanner, (root, recursive)),
    ensures
        old(cache).holds(root@) ==> {
            &&& r.1 == false
            &&& *final(cache) == *old(cache)
            &&& r.0 is Ok
            &&& r.0->Ok_0@ == old(cache).spec_candidates()
        },
        !old(cache).holds(root@) ==> {
            &&& r.1 == true
            &&& call_ensures(scanner, (root, recursive), r.0)
            &&& match r.0 {
                Ok(v) => final(cache).holds(root@) && final(cache).spec_candidates() == v@,
                Err(_) => final(cache).record is None,
            }
        },
{
    let hit = match &cache.record {
        Some(rec) => str_eq(rec.root.as_str(), root),
        None => false,
    };
    if hit {
        let candidates = match &cache.record {
            Some(rec) => clone_paths(&rec.candidates),
            None => Vec::new(),
        };
        return (Ok(candidates), false);
    }
    let outcome = scanner(root, recursive);
    match outcome {
        Ok(v) => {
            let kept = clone_paths(&v);
            cache.record = Some(ScanCacheRecord { root: root.to_owned(), candidates: kept });
            (Ok(v), true)
        },
        Err(e) => {
            cache.record = None;
            (Err(e), true)
        },
    }
}

/// Two consecutive rounds on one root with no invalidation between them
/// run the scanner at most once: whenever the first round succeeds, the
/// second round does not scan and returns the same candidates. The body is
/// nothing but the two rounds; the claim is carried entirely by their
/// contracts.
pub fn two_rounds_on_same_root<
    F: Fn(&str, bool) -> Result<Vec<String>, AppError>,
    G: Fn(&str, bool) -> Result<Vec<String>, AppError>,
>(
    cache: &mut ScanCache,
    root: &str,
    recursive: bool,
    first: F,
    second: G,
) -> (r: ((Result<Vec<String>, AppError>, bool), (Result<Vec<String>, AppError>, bool)))
    requires
        call_requires(first, (root, recursive)),
        call_requires(second, (root, recursive)),
    ensures
        r.0.0 is Ok ==> !r.1.1 && r.1.0 is Ok && r.1.0->Ok_0@ == r.0.0->Ok_0@,
        r.0.1 || old(cache).holds(root@),
{
    let a = get_or_scan(cache, root, recursive, first);
    let b = get_or_scan(cache, root, recursive, second);
    (a, b)
}

} // verus!
