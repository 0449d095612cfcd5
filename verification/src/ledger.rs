use vstd::prelude::*;
use crate::clock::now_timestamp_micros;
use crate::text::str_eq;

verus! {

/// One entry of the pick-history ledger: the canonical string form of the
/// file path that was selected, and the instant of the pick as microseconds
/// since the Unix epoch. Entries are never edited once created; a path that
/// was picked several times stands in the ledger several times, and those
/// duplicates are the pick-count evidence the selector runs on.
pub struct HistoryEntry {
    pub path: String,
    pub picked_at: i64,
}

impl Clone for HistoryEntry {
    fn clone(&self) -> (res: Self)
        ensures
            res == *self,
    {
        HistoryEntry { path: self.path.clone(), picked_at: self.picked_at }
    }
}

/// How many entries of `l` carry exactly the path `p`: the pick count of `p`.
pub open spec fn spec_count(l: Seq<HistoryEntry>, p: Seq<char>) -> nat
    decreases l.len(),
{
    if l.len() == 0 {
        0
    } else {
        (if l[0].path@ == p {
            1nat
        } else {
            0nat
        }) + spec_count(l.drop_first(), p)
    }
}

/// The ledger order: most recent pick first.
pub open spec fn sorted_desc(l: Seq<HistoryEntry>) -> bool {
    forall|i: int, j: int| 0 <= i < j < l.len() ==> l[i].picked_at >= l[j].picked_at
}

/// A path occurs in a ledger at most as often as the ledger is long.
pub(crate) proof fn lemma_count_le_len(l: Seq<HistoryEntry>, p: Seq<char>)
    ensures
        spec_count(l, p) <= l.len(),
    decreases l.len(),
{
    if l.len() > 0 {
        lemma_count_le_len(l.drop_first(), p);
    }
}

/// Appending one entry raises the count of its own path by one and leaves
/// every other count unchanged.
proof fn lemma_count_push(l: Seq<HistoryEntry>, e: HistoryEntry, p: Seq<char>)
    ensures
        spec_count(l.push(e), p) == spec_count(l, p) + (if e.path@ == p {
            1nat
        } else {
            0nat
        }),
    decreases l.len(),
{
    if l.len() == 0 {
        assert(l.push(e)[0] == e);
        assert(l.push(e).drop_first() =~= l);
    } else {
        assert(l.push(e)[0] == l[0]);
        assert(l.push(e).drop_first() =~= l.drop_first().push(e));
        lemma_count_push(l.drop_first(), e, p);
    }
}

/// Inserting one entry anywhere raises the count of its own path by one and
/// leaves every other count unchanged.
proof fn lemma_count_insert(l: Seq<HistoryEntry>, i: int, e: HistoryEntry, p: Seq<char>)
    requires
        0 <= i <= l.len(),
    ensures
        spec_count(l.insert(i, e), p) == spec_count(l, p) + (if e.path@ == p {
            1nat
        } else {
            0nat
        }),
    decreases i,
{
    if i == 0 {
        assert(l.insert(0, e)[0] == e);
        assert(l.insert(0, e).drop_first() =~= l);
    } else {
        assert(l.insert(i, e)[0] == l[0]);
        assert(l.insert(i, e).drop_first() =~= l.drop_first().insert(i - 1, e));
        lemma_count_insert(l.drop_first(), i - 1, e, p);
    }
}

/// The number of entries of `history` whose path equals `path` exactly,
/// character for character: the pick count that drives the selection weight.
pub fn count_picks(history: &Vec<HistoryEntry>, path: &str) -> (n: usize)
    ensures
        n == spec_count(history@, path@),
{
    let mut n: usize = 0;
    let mut i: usize = 0;
    while i < history.len()
        invariant
            i <= history@.len(),
            n <= i,
            n == spec_count(history@.subrange(0, i as int), path@),
        decreases history@.len() - i,
    {
        proof {
            assert(history@.subrange(0, i + 1 as int) =~= history@.subrange(0, i as int).push(
                history@[i as int],
            ));
            lemma_count_push(history@.subrange(0, i as int), history@[i as int], path@);
        }
        if str_eq(history[i].path.as_str(), path) {
            n = n + 1;
        }
        i += 1;
    }
    proof {
        assert(history@.subrange(0, history@.len() as int) =~= history@);
    }
    n
}

/// Adds a pick of `path` at the instant `picked_at` to the in-memory ledger,
/// keeping the most-recent-first order: the entry is inserted after every
/// entry picked at the same or a later instant, exactly where a stable
/// descending re-sort of the appended ledger would put it. The pick count of
/// `path` grows by one; every other count is untouched.
pub fn add_to_history(history: &mut Vec<HistoryEntry>, path: &str, picked_at: i64)
    ensures
        final(history)@.len() == old(history)@.len() + 1,
        spec_count(final(history)@, path@) == spec_count(old(history)@, path@) + 1,
        forall|q: Seq<char>|
            q != path@ ==> spec_count(final(history)@, q) == spec_count(old(history)@, q),
        sorted_desc(old(history)@) ==> sorted_desc(final(history)@),
        exists|i: int|
            0 <= i <= old(history)@.len() && final(history)@ == old(history)@.insert(
                i,
                final(history)@[i],
            ) && final(history)@[i].path@ == path@ && final(history)@[i].picked_at == picked_at,
{
    let entry = HistoryEntry { path: path.to_owned(), picked_at };
    let mut idx: usize = 0;
    while idx < history.len() && history[idx].picked_at >= picked_at
        invariant
            history@ == old(history)@,
            idx <= history@.len(),
            forall|k: int| 0 <= k < idx ==> history@[k].picked_at >= picked_at,
        decreases history@.len() - idx,
    {
        idx += 1;
    }
    let ghost pre = history@;
    let ghost at = idx as int;
    proof {
        lemma_count_insert(pre, at, entry, path@);
        assert forall|q: Seq<char>| q != path@ implies spec_count(pre.insert(at, entry), q)
            == spec_count(pre, q) by {
            lemma_count_insert(pre, at, entry, q);
        }
    }
    history.insert(idx, entry);
    proof {
        assert(history@ == pre.insert(at, entry));
        assert(history@[at] == entry);
        if sorted_desc(pre) {
            assert forall|i: int, j: int|
                0 <= i < j < history@.len() implies history@[i].picked_at
                >= history@[j].picked_at by {
                if j < at {
                    assert(history@[i] == pre[i] && history@[j] == pre[j]);
                } else if i < at && j == at {
                    assert(history@[i] == pre[i]);
                    assert(pre[i].picked_at >= picked_at);
                } else if i < at && j > at {
                    assert(history@[i] == pre[i] && history@[j] == pre[j - 1]);
                    if at < pre.len() {
                        assert(pre[at].picked_at < picked_at);
                    }
                } else if i == at && j > at {
                    assert(history@[j] == pre[j - 1]);
                    assert(at < pre.len());
                    assert(pre[at].picked_at < picked_at);
                    assert(pre[at].picked_at >= pre[j - 1].picked_at);
                } else {
                    assert(history@[i] == pre[i - 1] && history@[j] == pre[j - 1]);
                }
            }
        }
    }
}

/// Records a pick of `path` timestamped at the present instant, read from
/// the system clock, and keeps the ledger ordered most recent first. The
/// pick count of `path` grows by exactly one; every other count is
/// unchanged, whatever instant the clock reported.
pub fn record(history: &mut Vec<HistoryEntry>, path: &str)
    ensures
        final(history)@.len() == old(history)@.len() + 1,
        spec_count(final(history)@, path@) == spec_count(old(history)@, path@) + 1,
        forall|q: Seq<char>|
            q != path@ ==> spec_count(final(history)@, q) == spec_count(old(history)@, q),
        sorted_desc(old(history)@) ==> sorted_desc(final(history)@),
{
    let t = now_timestamp_micros();
    add_to_history(history, path, t);
}

} // verus!
