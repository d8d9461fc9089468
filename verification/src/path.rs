//! Paths as `std::path::Path` reads them on Unix: their components, file name and joining.
use vstd::prelude::*;

use crate::text::{last_index_of, last_of, push_char, string_of};

verus! {

/// How long the part of a path before its components is: its root `/`, or the `.` that starts a
/// relative path (`.` alone, or `./`).
pub open spec fn lead_len(p: Seq<char>) -> int {
    if p.len() > 0 && p[0] == '/' {
        1
    } else if p.len() > 0 && p[0] == '.' && (p.len() == 1 || p[1] == '/') {
        1
    } else {
        0
    }
}

/// Where the last component of `p.take(n)` after `lo` starts: just after its last `/` there, or
/// at `lo`.
pub open spec fn comp_start(p: Seq<char>, lo: int, n: int) -> int {
    match last_of(p.subrange(lo, n), '/') {
        Some(i) => lo + i + 1,
        None => lo,
    }
}

/// Where the last `c` of `s` is lies within `s`.
proof fn lemma_last_of_within(s: Seq<char>, c: char)
    ensures
        last_of(s, c) matches Some(i) ==> 0 <= i < s.len(),
    decreases s.len(),
{
    if s.len() > 0 {
        lemma_last_of_within(s.drop_last(), c);
    }
}

/// The last component of `p.take(n)` starts within it.
pub proof fn lemma_comp_start(p: Seq<char>, lo: int, n: int)
    requires
        0 <= lo <= n <= p.len(),
    ensures
        lo <= comp_start(p, lo, n) <= n,
{
    lemma_last_of_within(p.subrange(lo, n), '/');
}

/// The end of `p.take(n)` once the empty and `.` components at its end are dropped, down to
/// `lo`: the end of the path as its components read it.
pub open spec fn back_end(p: Seq<char>, lo: int, n: int) -> int
    decreases n,
{
    if lo < 0 || n <= lo || n > p.len() {
        n
    } else {
        let st = comp_start(p, lo, n);
        proof {
            lemma_comp_start(p, lo, n);
        }
        if st == n || (st + 1 == n && p[st] == '.') {
            back_end(p, lo, if st > lo { st - 1 } else { lo })
        } else {
            n
        }
    }
}

/// The end of the path's components lies between `lo` and `n`.
proof fn lemma_back_end(p: Seq<char>, lo: int, n: int)
    requires
        0 <= lo <= n <= p.len(),
    ensures
        lo <= back_end(p, lo, n) <= n,
    decreases n,
{
    if lo < n {
        lemma_comp_start(p, lo, n);
        let st = comp_start(p, lo, n);
        if st == n || (st + 1 == n && p[st] == '.') {
            lemma_back_end(p, lo, if st > lo { st - 1 } else { lo });
        }
    }
}

/// Where the file name of the path `p` starts and ends, as `Path::file_name` reads it: its last
/// component once empty and `.` components are dropped, unless there is none, or it is `..`.
pub open spec fn file_name_at(p: Seq<char>) -> Option<(int, int)> {
    let lo = lead_len(p);
    let e = back_end(p, lo, p.len() as int);
    if e <= lo {
        None
    } else {
        let st = comp_start(p, lo, e);
        if p.subrange(st, e) == seq!['.', '.'] {
            None
        } else {
            Some((st, e))
        }
    }
}

/// `base` with `name` joined on as `PathBuf::push` joins it: after a `/` unless `base` is empty or
/// already ends with one.
pub open spec fn pushed(base: Seq<char>, name: Seq<char>) -> Seq<char> {
    if base.len() > 0 && base.last() != '/' {
        base + seq!['/'] + name
    } else {
        base + name
    }
}

/// How long the part of a path before its components is.
pub(crate) fn lead_of(p: &[char]) -> (lo: usize)
    ensures
        lo as int == lead_len(p@),
{
    if p.len() > 0 && p[0] == '/' {
        1
    } else if p.len() > 0 && p[0] == '.' && (p.len() == 1 || p[1] == '/') {
        1
    } else {
        0
    }
}

/// Where the last component of `p[..n]` after `lo` starts.
pub(crate) fn comp_start_of(p: &[char], lo: usize, n: usize) -> (st: usize)
    requires
        lo <= n <= p.len(),
    ensures
        st as int == comp_start(p@, lo as int, n as int),
        lo <= st <= n,
{
    let sub = vstd::slice::slice_subrange(p, lo, n);
    proof {
        lemma_comp_start(p@, lo as int, n as int);
    }
    match last_index_of(sub, '/') {
        Some(i) => lo + i + 1,
        None => lo,
    }
}

/// The end of `p[..n]` once the empty and `.` components at its end are dropped, down to `lo`.
pub(crate) fn back_end_of(p: &[char], lo: usize, n: usize) -> (e: usize)
    requires
        lo <= n <= p.len(),
    ensures
        e as int == back_end(p@, lo as int, n as int),
        lo <= e <= n,
{
    let mut m = n;
    while m > lo
        invariant
            lo <= m <= n <= p.len(),
            back_end(p@, lo as int, n as int) == back_end(p@, lo as int, m as int),
        decreases m,
    {
        let st = comp_start_of(p, lo, m);
        if st == m || (st + 1 == m && p[st] == '.') {
            m = if st > lo { st - 1 } else { lo };
        } else {
            return m;
        }
    }
    m
}

/// `base` with `name` joined on as `PathBuf::push` joins it.
pub(crate) fn push_name(base: &[char], name: &[char]) -> (out: String)
    ensures
        out@ == pushed(base@, name@),
{
    let mut out = string_of(base);
    if base.len() > 0 && base[base.len() - 1] != '/' {
        push_char(&mut out, '/');
    }
    let n = string_of(name);
    out.append(n.as_str());
    out
}

/// Where the file name of the path `p` starts and ends, as `Path::file_name` reads it, if it has
/// one.
pub fn file_name_range(p: &[char]) -> (at: Option<(usize, usize)>)
    ensures
        match at {
            Some((st, e)) => file_name_at(p@) == Some((st as int, e as int)) && st <= e <= p.len(),
            None => file_name_at(p@) is None,
        },
{
    let lo = lead_of(p);
    let e = back_end_of(p, lo, p.len());
    if e <= lo {
        return None;
    }
    let st = comp_start_of(p, lo, e);
    let dotdot = e - st == 2 && p[st] == '.' && p[st + 1] == '.';
    proof {
        let sub = p@.subrange(st as int, e as int);
        if sub == seq!['.', '.'] {
            assert(sub.len() == 2);
            assert(sub[0] == p@[st as int] && sub[1] == p@[st + 1]);
        }
        if dotdot {
            assert(sub =~= seq!['.', '.']);
        }
    }
    if dotdot {
        None
    } else {
        Some((st, e))
    }
}

} // verus!
