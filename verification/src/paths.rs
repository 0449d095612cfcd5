use vstd::prelude::*;
use vstd::string::StringExecFns;
use crate::ledger::HistoryEntry;
use crate::scan::after_last;
use crate::text::{chars_to_string, string_to_chars};

verus! {

/// The file name part of a path written with `/` separators: the
/// characters after the last separator, or the whole path when it has
/// none.
pub open spec fn spec_file_name(s: Seq<char>) -> Seq<char> {
    s.subrange(after_last(s, '/'), s.len() as int)
}

/// The full path of the persisted history file inside the application
/// data directory.
pub fn get_history_path(app_data_dir: &str) -> (r: String)
    ensures
        r@ == app_data_dir@ + "/history.json"@,
{
    let mut s = app_data_dir.to_owned();
    s.append("/history.json");
    s
}

/// The file name part of `path`: what a listing shows for a pick.
pub fn file_name_of(path: &str) -> (r: String)
    ensures
        r@ == spec_file_name(path@),
{
    let s = string_to_chars(path);
    let n = s.len();
    let mut sa: usize = 0;
    let mut i: usize = 0;
    while i < n
        invariant
            n == s@.len(),
            i <= n,
            sa <= i,
            sa == after_last(s@.subrange(0, i as int), '/'),
        decreases n - i,
    {
        proof {
            let cur = s@.subrange(0, i + 1 as int);
            assert(cur.drop_last() =~= s@.subrange(0, i as int));
            assert(cur[cur.len() - 1] == s@[i as int]);
        }
        if s[i] == '/' {
            sa = i + 1;
        }
        i += 1;
    }
    proof {
        assert(s@.subrange(0, n as int) =~= s@);
    }
    let mut out: Vec<char> = Vec::new();
    let mut j: usize = sa;
    while j < n
        invariant
            n == s@.len(),
            sa <= j <= n,
            out@ == s@.subrange(sa as int, j as int),
        decreases n - j,
    {
        out.push(s[j]);
        proof {
            assert(s@.subrange(sa as int, j + 1 as int) =~= s@.subrange(sa as int, j as int).push(
                s@[j as int],
            ));
        }
        j += 1;
    }
    chars_to_string(&out)
}

/// The most recent picks, ready for a listing: for each of the first
/// `limit` ledger entries (the ledger is kept most recent first), the file
/// name of its path and the instant of the pick.
pub fn recent_picks(history: &Vec<HistoryEntry>, limit: usize) -> (r: Vec<(String, i64)>)
    ensures
        r@.len() == if history@.len() < limit {
            history@.len() as int
        } else {
            limit as int
        },
        forall|i: int|
            0 <= i < r@.len() ==> (#[trigger] r@[i]).0@ == spec_file_name(history@[i].path@)
                && r@[i].1 == history@[i].picked_at,
{
    let mut r: Vec<(String, i64)> = Vec::new();
    let mut i: usize = 0;
    while i < history.len() && i < limit
        invariant
            i <= history@.len(),
            i <= limit,
            r@.len() == i,
            forall|k: int|
                0 <= k < i ==> (#[trigger] r@[k]).0@ == spec_file_name(history@[k].path@)
                    && r@[k].1 == history@[k].picked_at,
        decreases history@.len() - i,
    {
        let name = file_name_of(history[i].path.as_str());
        r.push((name, history[i].picked_at));
        i += 1;
    }
    r
}

} // verus!
