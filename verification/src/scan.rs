use vstd::prelude::*;
use vstd::string::StrSliceExecFns;
use crate::text::{chars_to_string, str_eq, string_to_chars};

verus! {

broadcast use vstd::seq_lib::group_to_multiset_ensures;

/// An upper-case ASCII letter mapped to its lower-case form; every other
/// character stands as itself. Extensions are matched case-insensitively,
/// and the recognized extensions are ASCII.
pub open spec fn lower_char(c: char) -> char {
    if c == 'A' {
        'a'
    } else if c == 'B' {
        'b'
    } else if c == 'C' {
        'c'
    } else if c == 'D' {
        'd'
    } else if c == 'E' {
        'e'
    } else if c == 'F' {
        'f'
    } else if c == 'G' {
        'g'
    } else if c == 'H' {
        'h'
    } else if c == 'I' {
        'i'
    } else if c == 'J' {
        'j'
    } else if c == 'K' {
        'k'
    } else if c == 'L' {
        'l'
    } else if c == 'M' {
        'm'
    } else if c == 'N' {
        'n'
    } else if c == 'O' {
        'o'
    } else if c == 'P' {
        'p'
    } else if c == 'Q' {
        'q'
    } else if c == 'R' {
        'r'
    } else if c == 'S' {
        's'
    } else if c == 'T' {
        't'
    } else if c == 'U' {
        'u'
    } else if c == 'V' {
        'v'
    } else if c == 'W' {
        'w'
    } else if c == 'X' {
        'x'
    } else if c == 'Y' {
        'y'
    } else if c == 'Z' {
        'z'
    } else {
        c
    }
}

/// A text with its upper-case ASCII letters lowered.
pub open spec fn lower(s: Seq<char>) -> Seq<char> {
    s.map_values(|c: char| lower_char(c))
}

/// The position just past the last occurrence of `c` in `s`, or 0 when `c`
/// does not occur.
pub open spec fn after_last(s: Seq<char>, c: char) -> int
    decreases s.len(),
{
    if s.len() == 0 {
        0
    } else if s[s.len() - 1] == c {
        s.len() as int
    } else {
        after_last(s.drop_last(), c)
    }
}

/// The extension of a path written with `/` separators: the characters of
/// the file name after its last dot, provided that dot is neither absent
/// nor the first character of the name (a name that only starts with a dot
/// has no extension).
pub open spec fn spec_extension(s: Seq<char>) -> Option<Seq<char>> {
    let nstart = after_last(s, '/');
    let name = s.subrange(nstart, s.len() as int);
    let d = after_last(name, '.');
    if d >= 2 {
        Some(name.subrange(d, name.len() as int))
    } else {
        None
    }
}

/// The recognized video extensions, in lower case.
pub open spec fn is_video_ext(e: Seq<char>) -> bool {
    e == "mp4"@ || e == "mkv"@ || e == "avi"@ || e == "mov"@ || e == "webm"@ || e == "flv"@ || e
        == "wmv"@ || e == "mpg"@ || e == "mpeg"@ || e == "m4v"@
}

/// A path counts as a video exactly when it has an extension and that
/// extension, lowered, is a recognized video extension.
pub open spec fn is_video_path(s: Seq<char>) -> bool {
    match spec_extension(s) {
        Some(e) => is_video_ext(lower(e)),
        None => false,
    }
}

/// Path order: by character code, position by position, shorter prefix
/// first. For these UTF-8 texts this is the same order as the byte order
/// strings sort by.
pub open spec fn chars_le(a: Seq<char>, b: Seq<char>) -> bool
    decreases a.len(),
{
    if a.len() == 0 {
        true
    } else if b.len() == 0 {
        false
    } else if (a[0] as u32) < (b[0] as u32) {
        true
    } else if (b[0] as u32) < (a[0] as u32) {
        false
    } else {
        chars_le(a.drop_first(), b.drop_first())
    }
}

/// Every text is ordered with itself.
proof fn lemma_chars_le_refl(a: Seq<char>)
    ensures
        chars_le(a, a),
    decreases a.len(),
{
    if a.len() > 0 {
        lemma_chars_le_refl(a.drop_first());
    }
}

/// Any two texts are ordered one way or the other.
proof fn lemma_chars_le_total(a: Seq<char>, b: Seq<char>)
    ensures
        chars_le(a, b) || chars_le(b, a),
    decreases a.len(),
{
    if a.len() > 0 && b.len() > 0 && (a[0] as u32) == (b[0] as u32) {
        lemma_chars_le_total(a.drop_first(), b.drop_first());
    }
}

/// The path order is transitive.
proof fn lemma_chars_le_trans(a: Seq<char>, b: Seq<char>, c: Seq<char>)
    requires
        chars_le(a, b),
        chars_le(b, c),
    ensures
        chars_le(a, c),
    decreases a.len(),
{
    if a.len() > 0 && b.len() > 0 && c.len() > 0 {
        if (a[0] as u32) == (b[0] as u32) && (b[0] as u32) == (c[0] as u32) {
            lemma_chars_le_trans(a.drop_first(), b.drop_first(), c.drop_first());
        }
    }
}

/// The characters of each path in a list.
pub open spec fn path_views(ps: Seq<String>) -> Seq<Seq<char>> {
    ps.map_values(|p: String| p@)
}

/// The video paths of a list, kept in their order of appearance.
pub open spec fn video_views(ps: Seq<String>) -> Seq<Seq<char>> {
    path_views(ps).filter(|s: Seq<char>| is_video_path(s))
}

/// A list of paths in order: each no later than the next.
pub open spec fn paths_sorted(ps: Seq<String>) -> bool {
    forall|i: int, j: int| 0 <= i < j < ps.len() ==> chars_le(ps[i]@, ps[j]@)
}

/// The lower-case form of `c`.
fn lower_char_exec(c: char) -> (r: char)
    ensures
        r == lower_char(c),
{
    if c == 'A' {
        'a'
    } else if c == 'B' {
        'b'
    } else if c == 'C' {
        'c'
    } else if c == 'D' {
        'd'
    } else if c == 'E' {
        'e'
    } else if c == 'F' {
        'f'
    } else if c == 'G' {
        'g'
    } else if c == 'H' {
        'h'
    } else if c == 'I' {
        'i'
    } else if c == 'J' {
        'j'
    } else if c == 'K' {
        'k'
    } else if c == 'L' {
        'l'
    } else if c == 'M' {
        'm'
    } else if c == 'N' {
        'n'
    } else if c == 'O' {
        'o'
    } else if c == 'P' {
        'p'
    } else if c == 'Q' {
        'q'
    } else if c == 'R' {
        'r'
    } else if c == 'S' {
        's'
    } else if c == 'T' {
        't'
    } else if c == 'U' {
        'u'
    } else if c == 'V' {
        'v'
    } else if c == 'W' {
        'w'
    } else if c == 'X' {
        'x'
    } else if c == 'Y' {
        'y'
    } else if c == 'Z' {
        'z'
    } else {
        c
    }
}

/// Whether the path names a video file, judged by its extension alone.
pub fn is_video_file(path: &str) -> (r: bool)
    ensures
        r == is_video_path(path@),
{
    let s = string_to_chars(path);
    let n = s.len();
    // position just past the last separator: the file name starts here
    let mut sa: usize = 0;
    let mut i: usize = 0;
    while i < n
        invariant
            n == s@.len(),
            i <= n,
            sa <= i,
            sa == after_last(s@.subrange(0, i as int), '/'),
        decreases n - i,
    {
        proof {
            let cur = s@.subrange(0, i + 1 as int);
            assert(cur.drop_last() =~= s@.subrange(0, i as int));
            assert(cur[cur.len() - 1] == s@[i as int]);
        }
        if s[i] == '/' {
            sa = i + 1;
        }
        i += 1;
    }
    proof {
        assert(s@.subrange(0, n as int) =~= s@);
    }
    // position just past the last dot, relative to the file name
    let mut da: usize = 0;
    let mut j: usize = sa;
    while j < n
        invariant
            n == s@.len(),
            sa <= j <= n,
            da <= j - sa,
            da == after_last(s@.subrange(sa as int, j as int), '.'),
        decreases n - j,
    {
        proof {
            let cur = s@.subrange(sa as int, j + 1 as int);
            assert(cur.drop_last() =~= s@.subrange(sa as int, j as int));
            assert(cur[cur.len() - 1] == s@[j as int]);
        }
        if s[j] == '.' {
            da = j + 1 - sa;
        }
        j += 1;
    }
    let ghost name = s@.subrange(sa as int, n as int);
    if da < 2 {
        return false;
    }
    // collect the lowered extension characters
    let mut lv: Vec<char> = Vec::new();
    let mut k: usize = sa + da;
    proof {
        assert(name.subrange(da as int, da as int) =~= Seq::<char>::empty());
        assert(lower(Seq::<char>::empty()) =~= Seq::<char>::empty());
    }
    while k < n
        invariant
            n == s@.len(),
            sa + da <= k <= n,
            name == s@.subrange(sa as int, n as int),
            sa + da <= n,
            lv@ == lower(name.subrange(da as int, (k - sa) as int)),
        decreases n - k,
    {
        let ghost pre = name.subrange(da as int, (k - sa) as int);
        let ghost cur = name.subrange(da as int, (k + 1 - sa) as int);
        lv.push(lower_char_exec(s[k]));
        proof {
            assert(cur =~= pre.push(s@[k as int]));
            assert(lower(cur) =~= lower(pre).push(lower_char(s@[k as int])));
        }
        k += 1;
    }
    let ghost ext = name.subrange(da as int, name.len() as int);
    proof {
        assert(name.subrange(da as int, (n - sa) as int) =~= ext);
        assert(spec_extension(s@) == Some(ext));
    }
    let low = chars_to_string(&lv);
    let ls = low.as_str();
    let r = str_eq(ls, "mp4") || str_eq(ls, "mkv") || str_eq(ls, "avi") || str_eq(ls, "mov")
        || str_eq(ls, "webm") || str_eq(ls, "flv") || str_eq(ls, "wmv") || str_eq(ls, "mpg")
        || str_eq(ls, "mpeg") || str_eq(ls, "m4v");
    r
}

/// Whether `a` comes no later than `b` in path order.
pub fn str_le(a: &str, b: &str) -> (r: bool)
    ensures
        r == chars_le(a@, b@),
{
    let alen = a.unicode_len();
    let blen = b.unicode_len();
    let mut i: usize = 0;
    proof {
        assert(a@.subrange(0, alen as int) =~= a@);
        assert(b@.subrange(0, blen as int) =~= b@);
    }
    while i < alen && i < blen
        invariant
            alen == a@.len(),
            blen == b@.len(),
            i <= alen,
            i <= blen,
            chars_le(a@, b@) == chars_le(
                a@.subrange(i as int, alen as int),
                b@.subrange(i as int, blen as int),
            ),
        decreases alen - i,
    {
        let ca = a.get_char(i) as u32;
        let cb = b.get_char(i) as u32;
        proof {
            let suba = a@.subrange(i as int, alen as int);
            let subb = b@.subrange(i as int, blen as int);
            assert(suba[0] == a@[i as int]);
            assert(subb[0] == b@[i as int]);
            assert(suba.drop_first() =~= a@.subrange(i + 1 as int, alen as int));
            assert(subb.drop_first() =~= b@.subrange(i + 1 as int, blen as int));
        }
        if ca < cb {
            return true;
        }
        if cb < ca {
            return false;
        }
        i += 1;
    }
    proof {
        let suba = a@.subrange(i as int, alen as int);
        let subb = b@.subrange(i as int, blen as int);
        if i >= alen {
            assert(suba.len() == 0);
            assert(chars_le(suba, subb));
        } else {
            assert(subb.len() == 0);
            assert(suba.len() > 0);
            assert(!chars_le(suba, subb));
        }
    }
    i >= alen
}

/// Sorts paths into path order. The result holds exactly the same paths,
/// with the same repetitions.
pub fn sort_paths(v: Vec<String>) -> (r: Vec<String>)
    ensures
        r@.len() == v@.len(),
        paths_sorted(r@),
        path_views(r@).to_multiset() == path_views(v@).to_multiset(),
{
    let mut work = v;
    let mut out: Vec<String> = Vec::new();
    proof {
        assert(path_views(out@) =~= Seq::<Seq<char>>::empty());
        assert(path_views(out@).to_multiset().add(path_views(work@).to_multiset()) =~= path_views(
            work@,
        ).to_multiset());
    }
    while work.len() > 0
        invariant
            path_views(out@).to_multiset().add(path_views(work@).to_multiset()) == path_views(
                v@,
            ).to_multiset(),
            out@.len() + work@.len() == v@.len(),
            paths_sorted(out@),
            forall|i: int, j: int|
                0 <= i < out@.len() && 0 <= j < work@.len() ==> chars_le(out@[i]@, work@[j]@),
        decreases work@.len(),
    {
        // find the least remaining path
        let mut m: usize = 0;
        let mut i: usize = 1;
        proof {
            lemma_chars_le_refl(work@[0]@);
        }
        while i < work.len()
            invariant
                work@.len() > 0,
                i <= work@.len(),
                m < work@.len(),
                forall|j: int| 0 <= j < i ==> chars_le(work@[m as int]@, work@[j]@),
            decreases work@.len() - i,
        {
            if str_le(work[i].as_str(), work[m].as_str()) {
                proof {
                    lemma_chars_le_refl(work@[i as int]@);
                    assert forall|j: int| 0 <= j < i + 1 implies chars_le(
                        work@[i as int]@,
                        work@[j]@,
                    ) by {
                        if j < i {
                            lemma_chars_le_trans(work@[i as int]@, work@[m as int]@, work@[j]@);
                        }
                    }
                }
                m = i;
            } else {
                proof {
                    lemma_chars_le_total(work@[i as int]@, work@[m as int]@);
                }
            }
            i += 1;
        }
        let ghost old_work = work@;
        let ghost old_out = out@;
        let x = work.remove(m);
        out.push(x);
        proof {
            let xv = old_work[m as int]@;
            assert(path_views(old_work.remove(m as int)) =~= path_views(old_work).remove(
                m as int,
            ));
            assert(path_views(old_work)[m as int] == xv);
            assert(path_views(work@).to_multiset() == path_views(old_work).to_multiset().remove(
                xv,
            ));
            assert(path_views(out@) =~= path_views(old_out).push(xv));
            assert(path_views(out@).to_multiset() == path_views(old_out).to_multiset().insert(
                xv,
            ));
            assert(path_views(old_work).to_multiset().count(xv) > 0) by {
                assert(path_views(old_work).contains(xv));
            }
            assert(path_views(old_out).to_multiset().insert(xv).add(
                path_views(old_work).to_multiset().remove(xv),
            ) =~= path_views(old_out).to_multiset().add(path_views(old_work).to_multiset()));
            assert forall|a: int, b: int|
                0 <= a < out@.len() && 0 <= b < work@.len() implies chars_le(
                out@[a]@,
                work@[b]@,
            ) by {
                if a < old_out.len() {
                } else {
                    assert(out@[a]@ == xv);
                }
            }
        }
    }
    out
}

/// The candidate discovery step on an already-walked list of file paths:
/// keeps exactly the paths whose extension marks them as videos, and hands
/// them back sorted in path order, deterministically.
pub fn find_video_files(paths: &Vec<String>) -> (r: Vec<String>)
    ensures
        paths_sorted(r@),
        path_views(r@).to_multiset() == video_views(paths@).to_multiset(),
        forall|i: int| 0 <= i < r@.len() ==> is_video_path(r@[i]@),
{
    let mut kept: Vec<String> = Vec::new();
    let mut i: usize = 0;
    proof {
        reveal(Seq::filter);
        assert(path_views(paths@.subrange(0, 0)) =~= Seq::<Seq<char>>::empty());
        assert(path_views(kept@) =~= Seq::<Seq<char>>::empty());
        assert(video_views(paths@.subrange(0, 0)) =~= Seq::<Seq<char>>::empty());
    }
    while i < paths.len()
        invariant
            i <= paths@.len(),
            path_views(kept@) == video_views(paths@.subrange(0, i as int)),
        decreases paths@.len() - i,
    {
        let ghost prefix = paths@.subrange(0, i as int);
        let ghost curfix = paths@.subrange(0, i + 1 as int);
        let ghost pred = |s: Seq<char>| is_video_path(s);
        proof {
            assert(curfix =~= prefix.push(paths@[i as int]));
            assert(path_views(curfix) =~= path_views(prefix).push(paths@[i as int]@));
            reveal(Seq::filter);
            assert(path_views(prefix).push(paths@[i as int]@).drop_last() =~= path_views(prefix));
            assert(path_views(curfix).filter(pred) == if pred(paths@[i as int]@) {
                path_views(prefix).filter(pred).push(paths@[i as int]@)
            } else {
                path_views(prefix).filter(pred)
            });
        }
        if is_video_file(paths[i].as_str()) {
            kept.push(paths[i].clone());
            proof {
                assert(path_views(kept@) =~= video_views(curfix));
            }
        }
        i += 1;
    }
    proof {
        assert(paths@.subrange(0, paths@.len() as int) =~= paths@);
    }
    let r = sort_paths(kept);
    proof {
        broadcast use vstd::seq_lib::group_filter_ensures;

        assert forall|k: int| 0 <= k < r@.len() implies is_video_path(r@[k]@) by {
            let rv = path_views(r@);
            assert(rv[k] == r@[k]@);
            assert(rv.contains(rv[k]));
            assert(rv.to_multiset().count(rv[k]) > 0);
            assert(video_views(paths@).to_multiset().count(rv[k]) > 0);
            assert(video_views(paths@).contains(rv[k]));
            let w = choose|w: int|
                0 <= w < video_views(paths@).len() && video_views(paths@)[w] == rv[k];
            assert(is_video_path(video_views(paths@)[w]));
        }
    }
    r
}

} // verus!
