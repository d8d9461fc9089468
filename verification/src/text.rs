use vstd::prelude::*;

verus! {

/// The views of a sequence of strings.
pub open spec fn strings_view(v: Seq<String>) -> Seq<Seq<char>> {
    Seq::new(v.len(), |i: int| v[i]@)
}

/// The strings of `list` with `sep` between each two.
pub open spec fn join(list: Seq<Seq<char>>, sep: Seq<char>) -> Seq<char>
    decreases list.len(),
{
    if list.len() == 0 {
        Seq::empty()
    } else if list.len() == 1 {
        list[0]
    } else {
        join(list.drop_last(), sep) + sep + list.last()
    }
}

/// The strings of `list` with `sep` between each two.
pub fn join_strings(list: &Vec<String>, sep: &str) -> (out: String)
    ensures
        out@ == join(strings_view(list@), sep@),
{
    let mut out = String::new();
    let mut i: usize = 0;
    while i < list.len()
        invariant
            0 <= i <= list.len(),
            out@ == join(strings_view(list@).take(i as int), sep@),
        decreases list.len() - i,
    {
        let ghost before = strings_view(list@).take(i as int);
        if i > 0 {
            out.append(sep);
        }
        out.append(list[i].as_str());
        proof {
            let now = strings_view(list@).take(i + 1);
            assert(now.drop_last() =~= before);
            if i == 0 {
                assert(before =~= Seq::<Seq<char>>::empty());
                assert(out@ =~= now[0]);
            }
        }
        i += 1;
    }
    assert(strings_view(list@).take(list.len() as int) =~= strings_view(list@));
    out
}

/// Whether two character slices hold the same characters.
pub fn chars_eq(a: &[char], b: &[char]) -> (same: bool)
    ensures
        same == (a@ == b@),
{
    if a.len() != b.len() {
        return false;
    }
    let mut i: usize = 0;
    while i < a.len()
        invariant
            a@.len() == b@.len(),
            0 <= i <= a.len(),
            forall|k: int| 0 <= k < i ==> a@[k] == b@[k],
        decreases a.len() - i,
    {
        if a[i] != b[i] {
            return false;
        }
        i += 1;
    }
    assert(a@ =~= b@);
    true
}

/// Whether two strings hold the same characters.
pub fn string_eq(a: &String, b: &String) -> (same: bool)
    ensures
        same == (a@ == b@),
{
    a.eq(b)
}

/// Whether two string slices hold the same characters.
pub fn str_eq(a: &str, b: &str) -> (same: bool)
    ensures
        same == (a@ == b@),
{
    let x = chars_of(a);
    let y = chars_of(b);
    chars_eq(x.as_slice(), y.as_slice())
}

/// The characters of `s`, in order.
pub fn chars_of(s: &str) -> (v: Vec<char>)
    ensures
        v@ == s@,
{
    broadcast use vstd::string::group_string_axioms;
    let mut v: Vec<char> = Vec::new();
    for c in it: s.chars()
        invariant
            v@ == it.seq().take(it.index() as int),
    {
        v.push(c);
    }
    v
}


/// Appends `c` to `s` by std's `String::push`, which its documentation says appends the
/// character to the end of the string.
#[verifier::external_body]
pub(crate) fn push_char(s: &mut String, c: char)
    ensures
        final(s)@ == old(s)@.push(c),
{
    s.push(c);
}

/// A string holding the characters of `v`.
pub fn string_of(v: &[char]) -> (out: String)
    ensures
        out@ == v@,
{
    let mut out = String::new();
    let mut i: usize = 0;
    while i < v.len()
        invariant
            0 <= i <= v.len(),
            out@ == v@.take(i as int),
        decreases v.len() - i,
    {
        push_char(&mut out, v[i]);
        assert(v@.take(i + 1) =~= v@.take(i as int).push(v@[i as int]));
        i += 1;
    }
    assert(v@.take(v.len() as int) =~= v@);
    out
}

/// Whether `c` is white space, as `char::is_whitespace` reads Unicode's White_Space property.
pub open spec fn is_ws(c: char) -> bool {
    ||| '\t' <= c <= '\r'
    ||| c == ' '
    ||| c == '\u{85}'
    ||| c == '\u{A0}'
    ||| c == '\u{1680}'
    ||| '\u{2000}' <= c <= '\u{200A}'
    ||| c == '\u{2028}'
    ||| c == '\u{2029}'
    ||| c == '\u{202F}'
    ||| c == '\u{205F}'
    ||| c == '\u{3000}'
}

/// Whether `c` is white space.
pub fn is_whitespace(c: char) -> (ws: bool)
    ensures
        ws == is_ws(c),
{
    ('\t' <= c && c <= '\r') || c == ' ' || c == '\u{85}' || c == '\u{A0}' || c == '\u{1680}'
        || ('\u{2000}' <= c && c <= '\u{200A}') || c == '\u{2028}' || c == '\u{2029}'
        || c == '\u{202F}' || c == '\u{205F}' || c == '\u{3000}'
}

/// An ASCII decimal digit.
pub open spec fn is_digit(c: char) -> bool {
    '0' <= c <= '9'
}

/// An ASCII letter or digit.
pub open spec fn is_alnum(c: char) -> bool {
    ||| '0' <= c <= '9'
    ||| 'a' <= c <= 'z'
    ||| 'A' <= c <= 'Z'
}

/// Whether `c` is an ASCII letter or digit.
pub fn is_ascii_alnum(c: char) -> (found: bool)
    ensures
        found == is_alnum(c),
{
    ('0' <= c && c <= '9') || ('a' <= c && c <= 'z') || ('A' <= c && c <= 'Z')
}

/// `s` without its leading white space.
pub open spec fn trim_start(s: Seq<char>) -> Seq<char>
    decreases s.len(),
{
    if s.len() > 0 && is_ws(s[0]) {
        trim_start(s.drop_first())
    } else {
        s
    }
}

/// `s` without its trailing white space.
pub open spec fn trim_end(s: Seq<char>) -> Seq<char>
    decreases s.len(),
{
    if s.len() > 0 && is_ws(s.last()) {
        trim_end(s.drop_last())
    } else {
        s
    }
}

/// `s` without white space at either end.
pub open spec fn trim(s: Seq<char>) -> Seq<char> {
    trim_end(trim_start(s))
}

/// `s` without the copies of `c` it starts with.
pub open spec fn trim_start_char(s: Seq<char>, c: char) -> Seq<char>
    decreases s.len(),
{
    if s.len() > 0 && s[0] == c {
        trim_start_char(s.drop_first(), c)
    } else {
        s
    }
}

/// `s` without the copies of `c` it ends with.
pub open spec fn trim_end_char(s: Seq<char>, c: char) -> Seq<char>
    decreases s.len(),
{
    if s.len() > 0 && s.last() == c {
        trim_end_char(s.drop_last(), c)
    } else {
        s
    }
}

/// `s` without leading white space.
pub fn trim_start_slice(s: &[char]) -> (out: &[char])
    ensures
        out@ == trim_start(s@),
{
    let mut i: usize = 0;
    assert(s@.skip(0) =~= s@);
    while i < s.len() && is_whitespace(s[i])
        invariant
            0 <= i <= s.len(),
            trim_start(s@) == trim_start(s@.skip(i as int)),
        decreases s.len() - i,
    {
        assert(s@.skip(i as int).drop_first() =~= s@.skip(i + 1));
        i += 1;
    }
    let out = &s[i..s.len()];
    assert(out@ =~= s@.skip(i as int));
    out
}

/// `s` without trailing white space.
pub fn trim_end_slice(s: &[char]) -> (out: &[char])
    ensures
        out@ == trim_end(s@),
{
    let mut i: usize = s.len();
    assert(s@.take(s@.len() as int) =~= s@);
    while i > 0 && is_whitespace(s[i - 1])
        invariant
            0 <= i <= s.len(),
            trim_end(s@) == trim_end(s@.take(i as int)),
        decreases i,
    {
        assert(s@.take(i as int).drop_last() =~= s@.take(i - 1));
        i -= 1;
    }
    let out = &s[0..i];
    assert(out@ =~= s@.take(i as int));
    out
}

/// `s` without white space at either end.
pub fn trim_slice(s: &[char]) -> (out: &[char])
    ensures
        out@ == trim(s@),
{
    trim_end_slice(trim_start_slice(s))
}

/// `s` without the copies of `c` it starts with.
pub fn trim_start_char_slice(s: &[char], c: char) -> (out: &[char])
    ensures
        out@ == trim_start_char(s@, c),
{
    let mut i: usize = 0;
    assert(s@.skip(0) =~= s@);
    while i < s.len() && s[i] == c
        invariant
            0 <= i <= s.len(),
            trim_start_char(s@, c) == trim_start_char(s@.skip(i as int), c),
        decreases s.len() - i,
    {
        assert(s@.skip(i as int).drop_first() =~= s@.skip(i + 1));
        i += 1;
    }
    let out = &s[i..s.len()];
    assert(out@ =~= s@.skip(i as int));
    out
}

/// `s` without the copies of `c` it ends with.
pub fn trim_end_char_slice(s: &[char], c: char) -> (out: &[char])
    ensures
        out@ == trim_end_char(s@, c),
{
    let mut i: usize = s.len();
    assert(s@.take(s@.len() as int) =~= s@);
    while i > 0 && s[i - 1] == c
        invariant
            0 <= i <= s.len(),
            trim_end_char(s@, c) == trim_end_char(s@.take(i as int), c),
        decreases i,
    {
        assert(s@.take(i as int).drop_last() =~= s@.take(i - 1));
        i -= 1;
    }
    let out = &s[0..i];
    assert(out@ =~= s@.take(i as int));
    out
}

/// Whether `p` occurs in `s` at `i`.
pub open spec fn occurs_at(s: Seq<char>, p: Seq<char>, i: int) -> bool {
    0 <= i && i + p.len() <= s.len() && s.subrange(i, i + p.len()) == p
}

/// Whether `s` starts with `p`.
pub open spec fn starts_with(s: Seq<char>, p: Seq<char>) -> bool {
    occurs_at(s, p, 0)
}

/// Whether `s` ends with `p`.
pub open spec fn ends_with(s: Seq<char>, p: Seq<char>) -> bool {
    occurs_at(s, p, s.len() - p.len())
}

/// The first place at or after `i` where `p` occurs in `s`.
pub open spec fn find_from(s: Seq<char>, p: Seq<char>, i: int) -> Option<int>
    decreases s.len() + 1 - i,
{
    if i < 0 || i + p.len() > s.len() {
        None
    } else if occurs_at(s, p, i) {
        Some(i)
    } else {
        find_from(s, p, i + 1)
    }
}

/// The first place where `p` occurs in `s`.
pub open spec fn find(s: Seq<char>, p: Seq<char>) -> Option<int> {
    find_from(s, p, 0)
}

/// Whether `p` occurs anywhere in `s`.
pub open spec fn contains(s: Seq<char>, p: Seq<char>) -> bool {
    find(s, p) is Some
}

/// What `find_from` finds is where `p` occurs, and it occurs nowhere between.
pub proof fn lemma_find_from(s: Seq<char>, p: Seq<char>, i: int)
    requires
        0 <= i,
    ensures
        find_from(s, p, i) matches Some(k) ==> i <= k && occurs_at(s, p, k)
            && forall|j: int| i <= j < k ==> !occurs_at(s, p, j),
        find_from(s, p, i) is None ==> forall|j: int| i <= j ==> !occurs_at(s, p, j),
    decreases s.len() + 1 - i,
{
    if i + p.len() > s.len() {
    } else if occurs_at(s, p, i) {
    } else {
        lemma_find_from(s, p, i + 1);
        assert forall|j: int| i <= j && !(i + 1 <= j) implies !occurs_at(s, p, j) by {}
    }
}

/// Whether `p` occurs in `s` at `i`.
pub fn matches_at(s: &[char], p: &[char], i: usize) -> (found: bool)
    ensures
        found == occurs_at(s@, p@, i as int),
{
    if i > s.len() || p.len() > s.len() - i {
        return false;
    }
    let mut k: usize = 0;
    while k < p.len()
        invariant
            i + p.len() <= s.len(),
            0 <= k <= p.len(),
            forall|m: int| 0 <= m < k ==> s@[i + m] == p@[m],
        decreases p.len() - k,
    {
        if s[i + k] != p[k] {
            assert(s@.subrange(i as int, i + p.len())[k as int] != p@[k as int]);
            return false;
        }
        k += 1;
    }
    assert(s@.subrange(i as int, i + p.len()) =~= p@);
    true
}

/// The first place at or after `from` where `p` occurs in `s`.
pub fn find_slice(s: &[char], p: &[char], from: usize) -> (at: Option<usize>)
    ensures
        match at {
            Some(k) => find_from(s@, p@, from as int) == Some(k as int),
            None => find_from(s@, p@, from as int) is None,
        },
{
    if p.len() > s.len() || from > s.len() - p.len() {
        return None;
    }
    let last = s.len() - p.len();
    let mut i: usize = from;
    loop
        invariant
            from <= i <= last,
            last + p.len() == s.len(),
            find_from(s@, p@, from as int) == find_from(s@, p@, i as int),
        decreases last - i,
    {
        if matches_at(s, p, i) {
            return Some(i);
        }
        if i == last {
            assert(find_from(s@, p@, i + 1) is None);
            return None;
        }
        i += 1;
    }
}

/// Whether `s` starts with `p`.
pub fn starts_with_slice(s: &[char], p: &[char]) -> (found: bool)
    ensures
        found == starts_with(s@, p@),
{
    matches_at(s, p, 0)
}

/// Whether `s` ends with `p`.
pub fn ends_with_slice(s: &[char], p: &[char]) -> (found: bool)
    ensures
        found == ends_with(s@, p@),
{
    if p.len() > s.len() {
        return false;
    }
    matches_at(s, p, s.len() - p.len())
}

/// Whether `p` occurs anywhere in `s`.
pub fn contains_slice(s: &[char], p: &[char]) -> (found: bool)
    ensures
        found == contains(s@, p@),
{
    find_slice(s, p, 0).is_some()
}

/// The pieces of `s` between the occurrences of `sep`, as `str::split` gives them.
pub open spec fn split(s: Seq<char>, sep: Seq<char>) -> Seq<Seq<char>>
    decreases s.len(),
{
    match find(s, sep) {
        None => seq![s],
        Some(i) => if 0 <= i && 0 < sep.len() && i + sep.len() <= s.len() {
            seq![s.take(i)] + split(s.skip(i + sep.len()), sep)
        } else {
            seq![s]
        },
    }
}

/// The lines of `s`, as `str::lines` gives them: split at each `\n`, a `\r` before it dropped,
/// with no empty last line after a final `\n`.
pub open spec fn lines(s: Seq<char>) -> Seq<Seq<char>>
    decreases s.len(),
{
    if s.len() == 0 {
        Seq::empty()
    } else {
        match find(s, seq!['\n']) {
            None => seq![s],
            Some(i) => if 0 <= i < s.len() {
                let line = s.take(i);
                let line = if line.len() > 0 && line.last() == '\r' { line.drop_last() } else { line };
                seq![line] + lines(s.skip(i + 1))
            } else {
                seq![s]
            },
        }
    }
}

/// Whether `s` holds no line break.
pub open spec fn no_newline(s: Seq<char>) -> bool {
    forall|k: int| 0 <= k < s.len() ==> s[k] != '\n'
}

/// Where `p` occurs first in `s` is what `find` gives.
pub proof fn lemma_find_is_first(s: Seq<char>, p: Seq<char>, i: int)
    requires
        occurs_at(s, p, i),
        forall|j: int| 0 <= j < i ==> !occurs_at(s, p, j),
    ensures
        find(s, p) == Some(i),
{
    lemma_find_from(s, p, 0);
}

/// Text that ends a line splits into its lines and then those of what follows.
pub proof fn lemma_lines_append(s: Seq<char>, t: Seq<char>)
    requires
        s.len() == 0 || s.last() == '\n',
    ensures
        lines(s + t) == lines(s) + lines(t),
    decreases s.len(),
{
    let nl = seq!['\n'];
    if s.len() == 0 {
        assert(s + t =~= t);
        assert(lines(s) + lines(t) =~= lines(t));
    } else {
        assert(s.subrange(s.len() - 1, s.len() as int) =~= nl);
        assert(occurs_at(s, nl, s.len() - 1));
        lemma_find_from(s, nl, 0);
        let i = find(s, nl)->0;
        assert(occurs_at(s, nl, i));
        assert(0 <= i < s.len());
        assert forall|j: int| 0 <= j < i implies !occurs_at(s + t, nl, j) by {
            assert(!occurs_at(s, nl, j));
            assert((s + t).subrange(j, j + 1) =~= s.subrange(j, j + 1));
        }
        assert((s + t).subrange(i, i + 1) =~= s.subrange(i, i + 1));
        assert(occurs_at(s + t, nl, i));
        lemma_find_is_first(s + t, nl, i);
        assert((s + t).take(i) =~= s.take(i));
        assert((s + t).skip(i + 1) =~= s.skip(i + 1) + t);
        let rest = s.skip(i + 1);
        assert(rest.len() == 0 || rest.last() == s.last());
        lemma_lines_append(rest, t);
        assert(lines(s) == seq![if s.take(i).len() > 0 && s.take(i).last() == '\r' { s.take(i).drop_last() } else { s.take(i) }] + lines(rest));
        assert(lines(s + t) =~= lines(s) + lines(t));
    }
}

/// A line without a break, ended by one, is one line.
pub proof fn lemma_line_alone(l: Seq<char>)
    requires
        no_newline(l),
    ensures
        lines(l + seq!['\n']).len() == 1,
{
    let nl = seq!['\n'];
    let s = l + nl;
    assert forall|j: int| 0 <= j < l.len() implies !occurs_at(s, nl, j) by {
        assert(s.subrange(j, j + 1)[0] == l[j]);
    }
    assert(s.subrange(l.len() as int, l.len() + 1 as int) =~= nl);
    lemma_find_is_first(s, nl, l.len() as int);
    assert(s.skip(l.len() + 1 as int) =~= Seq::<char>::empty());
    assert(lines(Seq::<char>::empty()).len() == 0);
    assert(lines(s) == seq![if s.take(l.len() as int).len() > 0 && s.take(l.len() as int).last() == '\r' { s.take(l.len() as int).drop_last() } else { s.take(l.len() as int) }] + lines(s.skip(l.len() + 1 as int)));
}

/// No line of `s` holds a break.
pub proof fn lemma_lines_no_newline(s: Seq<char>)
    ensures
        forall|k: int| 0 <= k < lines(s).len() ==> no_newline(#[trigger] lines(s)[k]),
    decreases s.len(),
{
    let nl = seq!['\n'];
    if s.len() > 0 {
        lemma_find_from(s, nl, 0);
        match find(s, nl) {
            None => {
                assert forall|k: int| 0 <= k < s.len() implies s[k] != '\n' by {
                    if s[k] == '\n' {
                        assert(s.subrange(k, k + 1) =~= nl);
                        assert(occurs_at(s, nl, k));
                    }
                }
                assert(lines(s) == seq![s]);
            },
            Some(i) => {
                let line = s.take(i);
                assert forall|k: int| 0 <= k < line.len() implies line[k] != '\n' by {
                    if line[k] == '\n' {
                        assert(s.subrange(k, k + 1) =~= nl);
                        assert(occurs_at(s, nl, k));
                    }
                }
                let line2 = if line.len() > 0 && line.last() == '\r' { line.drop_last() } else { line };
                assert(no_newline(line2));
                lemma_lines_no_newline(s.skip(i + 1));
                assert(lines(s) == seq![line2] + lines(s.skip(i + 1)));
                assert forall|k: int| 0 <= k < lines(s).len() implies no_newline(#[trigger] lines(s)[k]) by {
                    if k > 0 {
                        assert(lines(s)[k] == lines(s.skip(i + 1))[k - 1]);
                    }
                }
            },
        }
    }
}

/// The places where the pieces of `split(s, sep)` start and end.
pub fn split_ranges(s: &[char], sep: &[char]) -> (ranges: Vec<(usize, usize)>)
    requires
        sep@.len() > 0,
    ensures
        ranges@.len() == split(s@, sep@).len(),
        forall|k: int| 0 <= k < ranges@.len() ==> {
            &&& ranges@[k].0 <= ranges@[k].1 && #[trigger] ranges@[k].1 <= s@.len()
            &&& s@.subrange(ranges@[k].0 as int, ranges@[k].1 as int) == split(s@, sep@)[k]
        },
{
    let mut ranges: Vec<(usize, usize)> = Vec::new();
    let mut start: usize = 0;
    assert(s@.skip(0) =~= s@);
    assert(Seq::new(0, |k: int| s@.subrange(ranges@[k].0 as int, ranges@[k].1 as int)) =~= Seq::<Seq<char>>::empty());
    loop
        invariant
            0 <= start <= s.len(),
            sep@.len() > 0,
            split(s@, sep@) == {
                let done = Seq::new(ranges@.len(), |k: int| s@.subrange(ranges@[k].0 as int, ranges@[k].1 as int));
                done + split(s@.skip(start as int), sep@)
            },
            forall|k: int| 0 <= k < ranges@.len() ==> ranges@[k].0 <= ranges@[k].1 && #[trigger] ranges@[k].1 <= s@.len(),
        decreases s.len() - start,
    {
        let ghost rest = s@.skip(start as int);
        let ghost done = Seq::new(ranges@.len(), |k: int| s@.subrange(ranges@[k].0 as int, ranges@[k].1 as int));
        let ghost sv = sep@;
        match find_slice(s, sep, start) {
            None => {
                proof {
                    lemma_find_from(s@, sv, start as int);
                    lemma_find_from(rest, sv, 0);
                    if let Some(i) = find(rest, sv) {
                        assert(occurs_at(s@, sv, start + i)) by {
                            assert(s@.subrange(start + i, start + i + sv.len()) =~= rest.subrange(i, i + sv.len()));
                        }
                    }
                }
                let ghost old_ranges = ranges@;
                ranges.push((start, s.len()));
                proof {
                    assert forall|k: int| 0 <= k < ranges@.len() implies ranges@[k].0 <= ranges@[k].1 && #[trigger] ranges@[k].1 <= s@.len() by {
                        if k < old_ranges.len() {
                            assert(ranges@[k] == old_ranges[k]);
                        }
                    }
                    let done2 = Seq::new(ranges@.len(), |k: int| s@.subrange(ranges@[k].0 as int, ranges@[k].1 as int));
                    assert(rest =~= s@.subrange(start as int, s@.len() as int));
                    assert(done2 =~= done.push(rest));
                    assert(split(rest, sv) == seq![rest]);
                    assert(split(s@, sv) =~= done2);
                    assert forall|k: int| 0 <= k < ranges@.len() implies
                        s@.subrange(ranges@[k].0 as int, #[trigger] ranges@[k].1 as int) == split(s@, sv)[k] by {
                        assert(done2[k] == s@.subrange(ranges@[k].0 as int, ranges@[k].1 as int));
                    }
                }
                return ranges;
            },
            Some(i) => {
                proof {
                    lemma_find_from(s@, sv, start as int);
                    lemma_find_from(rest, sv, 0);
                    let j = i - start;
                    assert(occurs_at(rest, sv, j)) by {
                        assert(rest.subrange(j, j + sv.len()) =~= s@.subrange(i as int, i + sv.len()));
                    }
                    assert(find(rest, sv) == Some(j)) by {
                        if let Some(m) = find(rest, sv) {
                            if m < j {
                                assert(occurs_at(s@, sv, start + m)) by {
                                    assert(s@.subrange(start + m, start + m + sv.len()) =~= rest.subrange(m, m + sv.len()));
                                }
                            }
                        }
                    }
                    assert(rest.take(j) =~= s@.subrange(start as int, i as int));
                    assert(rest.skip(j + sv.len()) =~= s@.skip(i + sv.len()));
                }
                let ghost old_ranges = ranges@;
                ranges.push((start, i));
                proof {
                    assert forall|k: int| 0 <= k < ranges@.len() implies ranges@[k].0 <= ranges@[k].1 && #[trigger] ranges@[k].1 <= s@.len() by {
                        if k < old_ranges.len() {
                            assert(ranges@[k] == old_ranges[k]);
                        }
                    }
                    let done2 = Seq::new(ranges@.len(), |k: int| s@.subrange(ranges@[k].0 as int, ranges@[k].1 as int));
                    assert(done2 =~= done.push(s@.subrange(start as int, i as int)));
                    assert(split(s@, sv) =~= done2 + split(s@.skip(i + sv.len()), sv));
                }
                start = i + sep.len();
            },
        }
    }
}

/// The views of a sequence of character vectors.
pub open spec fn chars_view(v: Seq<Vec<char>>) -> Seq<Seq<char>> {
    Seq::new(v.len(), |i: int| v[i]@)
}

/// A copy of `s`.
pub fn copy_chars(s: &[char]) -> (out: Vec<char>)
    ensures
        out@ == s@,
{
    let mut out: Vec<char> = Vec::new();
    let mut i: usize = 0;
    while i < s.len()
        invariant
            0 <= i <= s.len(),
            out@ == s@.take(i as int),
        decreases s.len() - i,
    {
        out.push(s[i]);
        assert(s@.take(i + 1) =~= s@.take(i as int).push(s@[i as int]));
        i += 1;
    }
    assert(s@.take(s.len() as int) =~= s@);
    out
}

/// The pieces of `s` between the occurrences of `sep`.
pub fn split_pieces(s: &[char], sep: &[char]) -> (pieces: Vec<Vec<char>>)
    requires
        sep@.len() > 0,
    ensures
        chars_view(pieces@) == split(s@, sep@),
{
    let ranges = split_ranges(s, sep);
    let mut pieces: Vec<Vec<char>> = Vec::new();
    let mut k: usize = 0;
    while k < ranges.len()
        invariant
            0 <= k <= ranges.len(),
            ranges@.len() == split(s@, sep@).len(),
            forall|m: int| 0 <= m < ranges@.len() ==> {
                &&& ranges@[m].0 <= ranges@[m].1 && #[trigger] ranges@[m].1 <= s@.len()
                &&& s@.subrange(ranges@[m].0 as int, ranges@[m].1 as int) == split(s@, sep@)[m]
            },
            chars_view(pieces@) == split(s@, sep@).take(k as int),
        decreases ranges.len() - k,
    {
        let (a, b) = ranges[k];
        assert(ranges@[k as int].1 <= s@.len());
        let piece = copy_chars(&s[a..b]);
        assert(piece@ == split(s@, sep@)[k as int]);
        let ghost old_pieces = pieces@;
        let ghost pv = piece@;
        assert(chars_view(old_pieces).len() == k);
        pieces.push(piece);
        proof {
            assert(pieces@ == old_pieces.push(pieces@[k as int]));
            assert forall|m: int| 0 <= m < k + 1 implies #[trigger] chars_view(pieces@)[m] == split(s@, sep@).take(k + 1)[m] by {
                if m < k {
                    assert(pieces@[m] == old_pieces[m]);
                    assert(chars_view(old_pieces)[m] == split(s@, sep@).take(k as int)[m]);
                } else {
                    assert(pieces@[m]@ == pv);
                }
            }
            assert(chars_view(pieces@) =~= split(s@, sep@).take(k + 1));
        }
        k += 1;
    }
    assert(split(s@, sep@).take(ranges.len() as int) =~= split(s@, sep@));
    pieces
}

/// The lines of `s`, each as a copy.
pub fn lines_of(s: &[char]) -> (out: Vec<Vec<char>>)
    ensures
        chars_view(out@) == lines(s@),
    decreases s.len(),
{
    let mut out: Vec<Vec<char>> = Vec::new();
    let mut start: usize = 0;
    let nl = ['\n'];
    assert(s@.skip(0) =~= s@);
    loop
        invariant
            0 <= start <= s.len(),
            nl@ == seq!['\n'],
            lines(s@) == chars_view(out@) + lines(s@.skip(start as int)),
        decreases s.len() - start,
    {
        let ghost rest = s@.skip(start as int);
        let ghost before = chars_view(out@);
        if start == s.len() {
            assert(rest.len() == 0);
            assert(lines(s@) =~= before);
            return out;
        }
        match find_slice(s, nl.as_slice(), start) {
            None => {
                proof {
                    lemma_find_from(s@, seq!['\n'], start as int);
                    lemma_find_from(rest, seq!['\n'], 0);
                    if let Some(i) = find(rest, seq!['\n']) {
                        assert(occurs_at(s@, seq!['\n'], start + i)) by {
                            assert(s@.subrange(start + i, start + i + 1) =~= rest.subrange(i, i + 1));
                        }
                    }
                }
                let line = copy_chars(&s[start..s.len()]);
                out.push(line);
                proof {
                    assert(line@ =~= rest);
                    assert(chars_view(out@) =~= before.push(rest));
                    assert(lines(s@) =~= chars_view(out@));
                }
                return out;
            },
            Some(i) => {
                proof {
                    lemma_find_from(s@, seq!['\n'], start as int);
                    lemma_find_from(rest, seq!['\n'], 0);
                    let j = i - start;
                    assert(occurs_at(rest, seq!['\n'], j)) by {
                        assert(rest.subrange(j, j + 1) =~= s@.subrange(i as int, i + 1));
                    }
                    assert(find(rest, seq!['\n']) == Some(j)) by {
                        if let Some(m) = find(rest, seq!['\n']) {
                            if m < j {
                                assert(occurs_at(s@, seq!['\n'], start + m)) by {
                                    assert(s@.subrange(start + m, start + m + 1) =~= rest.subrange(m, m + 1));
                                }
                            }
                        }
                    }
                    assert(rest.take(j) =~= s@.subrange(start as int, i as int));
                    assert(rest.skip(j + 1) =~= s@.skip(i + 1));
                }
                let end = if i > start && s[i - 1] == '\r' { i - 1 } else { i };
                let line = copy_chars(&s[start..end]);
                out.push(line);
                proof {
                    let t = rest.take(i - start);
                    let expected = if t.len() > 0 && t.last() == '\r' { t.drop_last() } else { t };
                    assert(line@ =~= expected);
                    assert(chars_view(out@) =~= before.push(expected));
                    assert(lines(s@) =~= chars_view(out@) + lines(s@.skip(i + 1)));
                }
                start = i + 1;
            },
        }
    }
}

/// The decimal digit for `d`.
pub open spec fn digit_char(d: nat) -> char {
    if d == 0 { '0' } else if d == 1 { '1' } else if d == 2 { '2' } else if d == 3 { '3' }
    else if d == 4 { '4' } else if d == 5 { '5' } else if d == 6 { '6' } else if d == 7 { '7' }
    else if d == 8 { '8' } else { '9' }
}

/// `n` written in decimal, as `format!("{n}")` writes it.
pub open spec fn decimal(n: nat) -> Seq<char>
    decreases n,
{
    if n < 10 {
        seq![digit_char(n)]
    } else {
        decimal(n / 10).push(digit_char(n % 10))
    }
}

fn digit(d: usize) -> (c: char)
    requires
        d < 10,
    ensures
        c == digit_char(d as nat),
{
    if d == 0 { '0' } else if d == 1 { '1' } else if d == 2 { '2' } else if d == 3 { '3' }
    else if d == 4 { '4' } else if d == 5 { '5' } else if d == 6 { '6' } else if d == 7 { '7' }
    else if d == 8 { '8' } else { '9' }
}

/// `n` in decimal.
pub fn decimal_string(n: usize) -> (out: String)
    ensures
        out@ == decimal(n as nat),
    decreases n,
{
    if n < 10 {
        let mut out = String::new();
        push_char(&mut out, digit(n));
        assert(out@ =~= seq![digit_char(n as nat)]);
        out
    } else {
        let mut out = decimal_string(n / 10);
        push_char(&mut out, digit(n % 10));
        out
    }
}

/// Appends `n`, in decimal, to `s`.
pub fn append_decimal(s: &mut String, n: usize)
    ensures
        final(s)@ == old(s)@ + decimal(n as nat),
{
    let d = decimal_string(n);
    s.append(d.as_str());
}

/// `c` in ASCII lowercase: `A` to `Z` made `a` to `z`, the rest unchanged.
pub open spec fn ascii_lower(c: char) -> char {
    if 'A' <= c && c <= 'Z' {
        (((c as u32) + 32) as u8) as char
    } else {
        c
    }
}

/// `s` in ASCII lowercase.
pub open spec fn ascii_lowercase(s: Seq<char>) -> Seq<char> {
    s.map_values(|c: char| ascii_lower(c))
}

/// `c` in ASCII lowercase.
pub fn lower_char(c: char) -> (out: char)
    ensures
        out == ascii_lower(c),
{
    if 'A' <= c && c <= 'Z' {
        let code = ((c as u32) + 32) as u8;
        code as char
    } else {
        c
    }
}

/// `s` in ASCII lowercase.
pub fn to_ascii_lowercase(s: &[char]) -> (out: Vec<char>)
    ensures
        out@ == ascii_lowercase(s@),
{
    let mut out: Vec<char> = Vec::new();
    let mut i: usize = 0;
    while i < s.len()
        invariant
            0 <= i <= s.len(),
            out@ == ascii_lowercase(s@).take(i as int),
        decreases s.len() - i,
    {
        out.push(lower_char(s[i]));
        assert(ascii_lowercase(s@).take(i + 1) =~= ascii_lowercase(s@).take(i as int).push(ascii_lower(s@[i as int])));
        i += 1;
    }
    assert(ascii_lowercase(s@).take(s.len() as int) =~= ascii_lowercase(s@));
    out
}

/// Where the file name of `path` starts: just after its last `/`, or at its start.
pub open spec fn name_start(path: Seq<char>) -> int
    decreases path.len(),
{
    if path.len() == 0 {
        0
    } else if path.last() == '/' {
        path.len() as int
    } else {
        name_start(path.drop_last())
    }
}

/// Where the last `.` of `name` is, if it has one.
pub open spec fn last_dot(name: Seq<char>) -> Option<int>
    decreases name.len(),
{
    if name.len() == 0 {
        None
    } else if name.last() == '.' {
        Some(name.len() - 1)
    } else {
        last_dot(name.drop_last())
    }
}

/// Where the file name of `path` starts: just after its last `/`, or at its start.
pub fn name_start_of(path: &[char]) -> (at: usize)
    ensures
        at == name_start(path@),
        at <= path.len(),
{
    let mut at: usize = path.len();
    assert(path@.take(at as int) =~= path@);
    while at > 0 && path[at - 1] != '/'
        invariant
            0 <= at <= path.len(),
            name_start(path@) == name_start(path@.take(at as int)),
        decreases at,
    {
        assert(path@.take(at as int).drop_last() =~= path@.take(at - 1));
        at -= 1;
    }
    at
}

/// Where the last `.` of `name` is, if it has one.
pub fn last_dot_of(name: &[char]) -> (at: Option<usize>)
    ensures
        match at {
            Some(d) => last_dot(name@) == Some(d as int) && d < name.len() && name@[d as int] == '.',
            None => last_dot(name@) is None,
        },
{
    let mut d: usize = name.len();
    assert(name@.take(d as int) =~= name@);
    while d > 0 && name[d - 1] != '.'
        invariant
            0 <= d <= name.len(),
            last_dot(name@) == last_dot(name@.take(d as int)),
        decreases d,
    {
        assert(name@.take(d as int).drop_last() =~= name@.take(d - 1));
        d -= 1;
    }
    if d == 0 {
        None
    } else {
        Some(d - 1)
    }
}

/// Where the last `c` of `s` is, if it has one.
pub open spec fn last_of(s: Seq<char>, c: char) -> Option<int>
    decreases s.len(),
{
    if s.len() == 0 {
        None
    } else if s.last() == c {
        Some(s.len() - 1)
    } else {
        last_of(s.drop_last(), c)
    }
}

/// Where the last `c` of `s` is, if it has one.
pub fn last_index_of(s: &[char], c: char) -> (at: Option<usize>)
    ensures
        match at {
            Some(d) => last_of(s@, c) == Some(d as int) && d < s.len() && s@[d as int] == c,
            None => last_of(s@, c) is None,
        },
{
    let mut d: usize = s.len();
    assert(s@.take(d as int) =~= s@);
    while d > 0 && s[d - 1] != c
        invariant
            0 <= d <= s.len(),
            last_of(s@, c) == last_of(s@.take(d as int), c),
        decreases d,
    {
        assert(s@.take(d as int).drop_last() =~= s@.take(d - 1));
        d -= 1;
    }
    if d == 0 {
        None
    } else {
        Some(d - 1)
    }
}


} // verus!
