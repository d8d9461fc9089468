//! Consistency checks on the planning docs: the Loft lessons doc against the roadmap, and the
//! current milestone that `STATUS.md` names.
//!
//! Every lesson row of the lessons doc names the roadmap milestone that fixes it and the test that
//! will prove the mistake is not repeated:
//!
//! ```text
//! | L7 | lesson | Loft evidence | M3.1 | `hpr_io::ork::tests::auto_radius_crosses_stages` |
//! ```
//!
//! Lesson ids are unique and each row has the five columns; each milestone exists in the roadmap
//! and its entry lists the lesson; each test is a `crate::path::test_name` path into a workspace
//! crate; once the lesson's first milestone is checked off, each test it owes exists. Process rows
//! (`| P3 | mistake | evidence | guard |`) must name their guard.
use vstd::prelude::*;

use crate::text::{
    append_decimal, chars_eq, chars_of, chars_view, decimal, strings_view, contains, contains_slice, copy_chars, find, find_slice, occurs_at, is_alnum, is_ascii_alnum,
    is_digit, lemma_find_from, lines, lines_of, push_char, split, split_pieces, split_ranges, starts_with,
    starts_with_slice, string_of, trim, trim_end_char, trim_end_char_slice, trim_slice, trim_start,
    trim_start_char, trim_start_char_slice, trim_start_slice, find_from, is_ws, is_whitespace,
};

verus! {

/// The cells of a markdown table row, trimmed, without the outer pipes.
pub open spec fn cells_spec(line: Seq<char>) -> Seq<Seq<char>> {
    let inner = trim_end_char(trim_start_char(trim(line), '|'), '|');
    split(inner, seq!['|']).map_values(|c: Seq<char>| trim(c))
}

/// The cells of a markdown table row, trimmed, without the outer pipes.
pub fn cells(line: &[char]) -> (out: Vec<Vec<char>>)
    ensures
        chars_view(out@) == cells_spec(line@),
{
    let inner = trim_end_char_slice(trim_start_char_slice(trim_slice(line), '|'), '|');
    let bar = ['|'];
    assert(bar@ =~= seq!['|']);
    let ranges = split_ranges(inner, bar.as_slice());
    let ghost pieces = split(inner@, seq!['|']);
    let mut out: Vec<Vec<char>> = Vec::new();
    let mut k: usize = 0;
    while k < ranges.len()
        invariant
            0 <= k <= ranges.len(),
            pieces == split(inner@, bar@),
            ranges@.len() == pieces.len(),
            forall|m: int| 0 <= m < ranges@.len() ==> {
                &&& ranges@[m].0 <= ranges@[m].1 && #[trigger] ranges@[m].1 <= inner@.len()
                &&& inner@.subrange(ranges@[m].0 as int, ranges@[m].1 as int) == pieces[m]
            },
            chars_view(out@) == pieces.map_values(|c: Seq<char>| trim(c)).take(k as int),
        decreases ranges.len() - k,
    {
        let (a, b) = ranges[k];
        assert(ranges@[k as int].1 <= inner@.len());
        let cell = copy_chars(trim_slice(&inner[a..b]));
        let ghost old_out = out@;
        assert(chars_view(old_out).len() == k);
        out.push(cell);
        proof {
            let want = pieces.map_values(|c: Seq<char>| trim(c)).take(k + 1);
            assert forall|m: int| 0 <= m < k + 1 implies #[trigger] chars_view(out@)[m] == want[m] by {
                if m < k {
                    assert(out@[m] == old_out[m]);
                    assert(chars_view(old_out)[m] == pieces.map_values(|c: Seq<char>| trim(c)).take(k as int)[m]);
                }
            }
            assert(chars_view(out@) =~= want);
        }
        k += 1;
    }
    assert(pieces.map_values(|c: Seq<char>| trim(c)).take(ranges.len() as int) =~= pieces.map_values(|c: Seq<char>| trim(c)));
    out
}

/// Whether every character of `s` is an ASCII digit.
pub open spec fn all_digits(s: Seq<char>) -> bool {
    forall|k: int| 0 <= k < s.len() ==> is_digit(#[trigger] s[k])
}

/// The first cell of `line` when the line is a table row whose first cell is `prefix` followed
/// by one digit or more.
pub open spec fn row_id_spec(line: Seq<char>, prefix: char) -> Option<Seq<char>> {
    let first = cells_spec(line)[0];
    if starts_with(trim_start(line), seq!['|']) && first.len() >= 2 && first[0] == prefix
        && all_digits(first.drop_first()) {
        Some(first)
    } else {
        None
    }
}

/// `split` never gives an empty list.
proof fn lemma_split_nonempty(s: Seq<char>, sep: Seq<char>)
    ensures
        split(s, sep).len() >= 1,
    decreases s.len(),
{
    match find(s, sep) {
        None => {},
        Some(i) => if 0 <= i && 0 < sep.len() && i + sep.len() <= s.len() {
            lemma_split_nonempty(s.skip(i + sep.len()), sep);
        },
    }
}

/// The id of a table row whose first cell is `<prefix><digits>`.
pub fn row_id(line: &[char], prefix: char) -> (id: Option<Vec<char>>)
    ensures
        match id {
            Some(v) => row_id_spec(line@, prefix) == Some(v@),
            None => row_id_spec(line@, prefix) is None,
        },
{
    let mut row = cells(line);
    proof {
        let inner = trim_end_char(trim_start_char(trim(line@), '|'), '|');
        lemma_split_nonempty(inner, seq!['|']);
    }
    assert(cells_spec(line@).len() >= 1);
    assert(row@.len() == chars_view(row@).len());
    let ghost row0 = row@[0]@;
    assert(row0 == cells_spec(line@)[0]);
    let first = row.swap_remove(0);
    assert(first@ == cells_spec(line@)[0]);
    let bar = ['|'];
    assert(bar@ =~= seq!['|']);
    if !starts_with_slice(trim_start_slice(line), bar.as_slice()) {
        return None;
    }
    if first.len() < 2 || first[0] != prefix {
        return None;
    }
    let mut k: usize = 1;
    while k < first.len()
        invariant
            1 <= k <= first.len(),
            first@ == cells_spec(line@)[0],
            forall|m: int| 1 <= m < k ==> is_digit(#[trigger] first@[m]),
        decreases first.len() - k,
    {
        if !('0' <= first[k] && first[k] <= '9') {
            assert(!is_digit(first@.drop_first()[k - 1]));
            assert(!all_digits(first@.drop_first()));
            assert(first@ == cells_spec(line@)[0]);
            assert(row_id_spec(line@, prefix) is None);
            return None;
        }
        k += 1;
    }
    assert(all_digits(first@.drop_first())) by {
        assert forall|m: int| 0 <= m < first@.drop_first().len() implies is_digit(#[trigger] first@.drop_first()[m]) by {
            assert(first@.drop_first()[m] == first@[m + 1]);
        }
    }
    Some(first)
}

/// The backticked spans of a cell: the pieces between its odd and even backticks.
pub open spec fn code_spans_spec(cell: Seq<char>) -> Seq<Seq<char>> {
    let pieces = split(cell, seq!['`']);
    Seq::new(pieces.len() / 2, |k: int| pieces[2 * k + 1])
}

/// The backticked spans of a cell.
pub fn code_spans(cell: &[char]) -> (spans: Vec<Vec<char>>)
    ensures
        chars_view(spans@) == code_spans_spec(cell@),
{
    let tick = ['`'];
    assert(tick@ =~= seq!['`']);
    let pieces = split_pieces(cell, tick.as_slice());
    let ghost all = chars_view(pieces@);
    let n = pieces.len();
    let mut spans: Vec<Vec<char>> = Vec::new();
    let mut m: usize = 0;
    while m < n / 2
        invariant
            pieces@.len() == n,
            all == chars_view(pieces@),
            all == split(cell@, seq!['`']),
            0 <= m <= n / 2,
            spans@.len() == m,
            forall|j: int| 0 <= j < m ==> #[trigger] spans@[j]@ == all[2 * j + 1],
        decreases n / 2 - m,
    {
        let piece = copy_chars(pieces[2 * m + 1].as_slice());
        assert(piece@ == all[2 * m + 1]);
        let ghost old_spans = spans@;
        spans.push(piece);
        proof {
            assert forall|j: int| 0 <= j < m + 1 implies #[trigger] spans@[j]@ == all[2 * j + 1] by {
                if j < m {
                    assert(spans@[j] == old_spans[j]);
                }
            }
        }
        m += 1;
    }
    assert(chars_view(spans@) =~= code_spans_spec(cell@));
    spans
}

/// Whether the occurrence of `id` at `at` in `text` stands as a whole token: no ASCII letter or
/// digit just before or just after it.
pub open spec fn token_at(text: Seq<char>, id: Seq<char>, at: int) -> bool {
    &&& !(at > 0 && is_alnum(text[at - 1]))
    &&& !(at + id.len() < text.len() && is_alnum(text[at + id.len()]))
}

/// The step from one match of `id` to where the next is looked for: past the match, or one
/// character on after an empty one.
pub open spec fn stride(id: Seq<char>) -> int {
    if id.len() == 0 { 1 } else { id.len() as int }
}

/// Whether one of the successive, non-overlapping matches of `id` in `text`, from `i` on, stands
/// as a whole token.
pub open spec fn token_from(text: Seq<char>, id: Seq<char>, i: int) -> bool
    decreases text.len() + 1 - i,
{
    match find_from(text, id, i) {
        None => false,
        Some(at) => if i <= at && at + stride(id) <= text.len() + 1 {
            token_at(text, id, at) || token_from(text, id, at + stride(id))
        } else {
            false
        },
    }
}

/// Whether `id` occurs in `text` as a whole token (`L1` does not match `L12`).
pub open spec fn has_token_spec(text: Seq<char>, id: Seq<char>) -> bool {
    token_from(text, id, 0)
}

/// Whether `id` occurs in `text` as a whole token.
pub fn has_token_chars(text: &[char], id: &[char]) -> (found: bool)
    ensures
        found == has_token_spec(text@, id@),
{
    let mut i: usize = 0;
    loop
        invariant
            0 <= i <= text.len() + 1,
            has_token_spec(text@, id@) == token_from(text@, id@, i as int),
        decreases text.len() + 1 - i,
    {
        if i > text.len() {
            return false;
        }
        match find_slice(text, id, i) {
            None => {
                return false;
            },
            Some(at) => {
                proof {
                    lemma_find_from(text@, id@, i as int);
                    assert(occurs_at(text@, id@, at as int));
                    assert(at + stride(id@) <= text@.len() + 1);
                }
                let before_ok = !(at > 0 && is_ascii_alnum(text[at - 1]));
                let after_ok = !(at + id.len() < text.len() && is_ascii_alnum(text[at + id.len()]));
                if before_ok && after_ok {
                    return true;
                }
                if at == text.len() {
                    assert(find_from(text@, id@, at + stride(id@)) is None);
                    assert(!token_from(text@, id@, at + stride(id@)));
                    assert(!token_at(text@, id@, at as int));
                    assert(!token_from(text@, id@, i as int));
                    return false;
                }
                i = if id.len() == 0 { at + 1 } else { at + id.len() };
            },
        }
    }
}

/// Whether `id` occurs in `text` as a whole token (`L1` does not match `L12`).
pub fn has_token(text: &str, id: &str) -> (found: bool)
    ensures
        found == has_token_spec(text@, id@),
{
    let t = chars_of(text);
    let d = chars_of(id);
    has_token_chars(t.as_slice(), d.as_slice())
}

/// A milestone of the roadmap, as a `- [ ] **M1.2 Title.**` entry gives it.
pub struct Milestone {
    pub id: String,
    pub done: bool,
    /// Marked `[blocked]` on its checkbox line.
    pub blocked: bool,
    /// The entry's text, from its checkbox line up to the next entry or heading.
    pub text: String,
}

/// What a milestone holds, as sequences.
pub struct MilestoneView {
    pub id: Seq<char>,
    pub done: bool,
    pub blocked: bool,
    pub text: Seq<char>,
}

impl View for Milestone {
    type V = MilestoneView;

    open spec fn view(&self) -> MilestoneView {
        MilestoneView { id: self.id@, done: self.done, blocked: self.blocked, text: self.text@ }
    }
}

/// The views of a list of milestones.
pub open spec fn milestones_view(v: Seq<Milestone>) -> Seq<MilestoneView> {
    Seq::new(v.len(), |i: int| v[i]@)
}

/// How many characters, from `k` on, belong to an id: ASCII letters, digits and dots.
pub open spec fn id_len_from(tail: Seq<char>, k: int) -> int
    decreases tail.len() - k,
{
    if k < 0 || k >= tail.len() {
        tail.len() as int
    } else if is_alnum(tail[k]) || tail[k] == '.' {
        id_len_from(tail, k + 1)
    } else {
        k
    }
}

/// The milestone id a checkbox line names after its `**M`, without trailing dots.
pub open spec fn milestone_id(rest: Seq<char>) -> Option<Seq<char>> {
    match find(rest, seq!['*', '*', 'M']) {
        None => None,
        Some(i) => if 0 <= i && i + 3 <= rest.len() {
            let tail = rest.skip(i + 3);
            Some(seq!['M'] + trim_end_char(tail.take(id_len_from(tail, 0)), '.'))
        } else {
            None
        },
    }
}

/// What follows `- [` on a checkbox line (after its indent), if it is one.
pub open spec fn checkbox(line: Seq<char>) -> Option<Seq<char>> {
    let t = trim_start(line);
    if starts_with(t, seq!['-', ' ', '[']) {
        Some(t.skip(3))
    } else {
        None
    }
}

/// The milestones read so far, and whether lines still go to the last one's text, after `line`.
pub open spec fn roadmap_step(state: (Seq<MilestoneView>, bool), line: Seq<char>) -> (Seq<MilestoneView>, bool) {
    let (out, open) = state;
    let (out, open) = match checkbox(line) {
        Some(rest) => match milestone_id(rest) {
            Some(id) => (out.push(MilestoneView {
                id,
                done: starts_with(rest, seq!['x', ']']),
                blocked: contains(rest, seq!['[', 'b', 'l', 'o', 'c', 'k', 'e', 'd', ']']),
                text: Seq::empty(),
            }), true),
            None => (out, false),
        },
        None => (out, if starts_with(line, seq!['#']) { false } else { open }),
    };
    if open && out.len() > 0 {
        let last = out.last();
        (out.update(out.len() - 1, MilestoneView { text: last.text + line.push('\n'), ..last }), open)
    } else {
        (out, open)
    }
}

/// The roadmap read line by line.
pub open spec fn roadmap_parse(ls: Seq<Seq<char>>) -> (Seq<MilestoneView>, bool)
    decreases ls.len(),
{
    if ls.len() == 0 {
        (Seq::empty(), false)
    } else {
        roadmap_step(roadmap_parse(ls.drop_last()), ls.last())
    }
}

/// The `- [ ] **M1.2 Title.**` entries of the roadmap, indented increments too, each with its
/// text up to the next entry or heading.
pub open spec fn milestones_spec(roadmap: Seq<char>) -> Seq<MilestoneView> {
    roadmap_parse(lines(roadmap)).0
}

/// The milestone id a checkbox line names, if it names one.
fn read_milestone_id(rest: &[char]) -> (id: Option<Vec<char>>)
    ensures
        match id {
            Some(v) => milestone_id(rest@) == Some(v@),
            None => milestone_id(rest@) is None,
        },
{
    let marker = ['*', '*', 'M'];
    assert(marker@ =~= seq!['*', '*', 'M']);
    let n = rest.len();
    match find_slice(rest, marker.as_slice(), 0) {
        None => None,
        Some(i) => {
            proof {
                lemma_find_from(rest@, marker@, 0);
                assert(find_from(rest@, marker@, 0) == Some(i as int));
                assert(occurs_at(rest@, marker@, i as int));
                assert(marker@.len() == 3);
                assert(i + 3 <= rest@.len());
            }
            let tail = &rest[i + 3..n];
            assert(tail@ =~= rest@.skip(i + 3));
            let mut k: usize = 0;
            while k < tail.len() && (is_ascii_alnum(tail[k]) || tail[k] == '.')
                invariant
                    0 <= k <= tail.len(),
                    id_len_from(tail@, 0) == id_len_from(tail@, k as int),
                decreases tail.len() - k,
            {
                k += 1;
            }
            let head = &tail[0..k];
            assert(head@ =~= tail@.take(k as int));
            let id_part = trim_end_char_slice(head, '.');
            let mut id: Vec<char> = Vec::new();
            id.push('M');
            let mut j: usize = 0;
            while j < id_part.len()
                invariant
                    0 <= j <= id_part.len(),
                    id@ == seq!['M'] + id_part@.take(j as int),
                decreases id_part.len() - j,
            {
                id.push(id_part[j]);
                assert(id_part@.take(j + 1) =~= id_part@.take(j as int).push(id_part@[j as int]));
                j += 1;
            }
            assert(id_part@.take(id_part.len() as int) =~= id_part@);
            Some(id)
        },
    }
}

/// The milestone being read: the last one, kept apart until the next begins.
pub open spec fn pending_view(cur: Option<Milestone>) -> Seq<MilestoneView> {
    match cur {
        Some(m) => seq![m@],
        None => Seq::empty(),
    }
}

/// Parses the `- [ ] **M1.2 Title.**` entries of the roadmap, including indented increments.
pub fn milestones(roadmap: &str) -> (out: Vec<Milestone>)
    ensures
        milestones_view(out@) == milestones_spec(roadmap@),
{
    let chars = chars_of(roadmap);
    let ls = lines_of(chars.as_slice());
    let ghost lv = chars_view(ls@);
    let mut out: Vec<Milestone> = Vec::new();
    let mut cur: Option<Milestone> = None;
    let mut open = false;
    let dash = ['-', ' ', '['];
    let cross = ['x', ']'];
    let blocked_word = ['[', 'b', 'l', 'o', 'c', 'k', 'e', 'd', ']'];
    let hash = ['#'];
    assert(dash@ =~= seq!['-', ' ', '[']);
    assert(cross@ =~= seq!['x', ']']);
    assert(blocked_word@ =~= seq!['[', 'b', 'l', 'o', 'c', 'k', 'e', 'd', ']']);
    assert(hash@ =~= seq!['#']);
    let mut k: usize = 0;
    assert(lv.take(0) =~= Seq::<Seq<char>>::empty());
    while k < ls.len()
        invariant
            lv == chars_view(ls@),
            lv == lines(roadmap@),
            0 <= k <= ls.len(),
            dash@ == seq!['-', ' ', '['],
            cross@ == seq!['x', ']'],
            blocked_word@ == seq!['[', 'b', 'l', 'o', 'c', 'k', 'e', 'd', ']'],
            hash@ == seq!['#'],
            roadmap_parse(lv.take(k as int)).0 == milestones_view(out@) + pending_view(cur),
            roadmap_parse(lv.take(k as int)).1 == open,
            open ==> cur is Some,
        decreases ls.len() - k,
    {
        let line = ls[k].as_slice();
        let ghost state = roadmap_parse(lv.take(k as int));
        assert(lv.take(k + 1).drop_last() =~= lv.take(k as int));
        assert(lv.take(k + 1).last() == line@);
        let t = trim_start_slice(line);
        if starts_with_slice(t, dash.as_slice()) {
            let rest = &t[3..t.len()];
            assert(rest@ =~= t@.skip(3));
            let done = starts_with_slice(rest, cross.as_slice());
            let blocked = contains_slice(rest, blocked_word.as_slice());
            match read_milestone_id(rest) {
                Some(id) => {
                    let ghost old_out = milestones_view(out@);
                    let ghost old_cur = pending_view(cur);
                    match cur.take() {
                        Some(m) => {
                            out.push(m);
                        },
                        None => {},
                    }
                    assert(milestones_view(out@) + pending_view(None) =~= old_out + old_cur);
                    cur = Some(Milestone { id: string_of(id.as_slice()), done, blocked, text: String::new() });
                    open = true;
                },
                None => {
                    open = false;
                },
            }
        } else if starts_with_slice(line, hash.as_slice()) {
            open = false;
        }
        let ghost mid_out = milestones_view(out@) + pending_view(cur);
        if open {
            let mut m = cur.take().unwrap();
            let piece = string_of(line);
            m.text.append(piece.as_str());
            push_char(&mut m.text, '\n');
            cur = Some(m);
        }
        proof {
            let next = roadmap_parse(lv.take(k + 1));
            assert(next == roadmap_step(state, line@));
            assert(milestones_view(out@) + pending_view(cur) =~= next.0);
        }
        k += 1;
    }
    assert(lv.take(ls.len() as int) =~= lv);
    let ghost before = milestones_view(out@) + pending_view(cur);
    match cur {
        Some(m) => {
            out.push(m);
        },
        None => {},
    }
    assert(milestones_view(out@) =~= before);
    out
}

/// A lesson row of the lessons doc: its id, the milestones it names and the tests it owes.
pub struct Lesson {
    pub id: Vec<char>,
    pub milestones: Vec<Vec<char>>,
    pub tests: Vec<Vec<char>>,
}

/// What a lesson row holds, as sequences.
pub struct LessonView {
    pub id: Seq<char>,
    pub milestones: Seq<Seq<char>>,
    pub tests: Seq<Seq<char>>,
}

impl View for Lesson {
    type V = LessonView;

    open spec fn view(&self) -> LessonView {
        LessonView { id: self.id@, milestones: chars_view(self.milestones@), tests: chars_view(self.tests@) }
    }
}

/// The views of a list of lessons.
pub open spec fn lessons_view(v: Seq<Lesson>) -> Seq<LessonView> {
    Seq::new(v.len(), |i: int| v[i]@)
}

/// The pieces, trimmed, that are not empty.
pub open spec fn nonempty_trimmed(pieces: Seq<Seq<char>>) -> Seq<Seq<char>>
    decreases pieces.len(),
{
    if pieces.len() == 0 {
        Seq::empty()
    } else {
        let rest = nonempty_trimmed(pieces.drop_last());
        let t = trim(pieces.last());
        if t.len() > 0 { rest.push(t) } else { rest }
    }
}

/// Whether some lesson read so far has the id `id`.
pub open spec fn lesson_known(lessons: Seq<LessonView>, id: Seq<char>) -> bool {
    exists|k: int| 0 <= k < lessons.len() && #[trigger] lessons[k].id == id
}

/// Whether a process row leaves a cell out: not four cells, or one of them empty.
pub open spec fn process_row_bad(row: Seq<Seq<char>>) -> bool {
    row.len() != 4 || exists|k: int| 0 <= k < row.len() && #[trigger] row[k].len() == 0
}

/// The problems, the lessons and the number of process rows found so far, after reading `line`.
pub open spec fn doc_step(
    state: (Seq<Seq<char>>, Seq<LessonView>, nat),
    line: Seq<char>,
) -> (Seq<Seq<char>>, Seq<LessonView>, nat) {
    let (problems, lessons, processes) = state;
    match row_id_spec(line, 'L') {
        Some(id) => {
            let row = cells_spec(line);
            if row.len() != 5 {
                (problems.push(id + ": expected 5 cells, found "@ + decimal(row.len())), lessons, processes)
            } else {
                let milestones = nonempty_trimmed(split(row[3], seq![',']));
                let tests = code_spans_spec(row[4]);
                let p1 = if lesson_known(lessons, id) { problems.push(id + ": duplicate lesson id"@) } else { problems };
                let p2 = if row[1].len() == 0 || row[2].len() == 0 {
                    p1.push(id + ": the lesson and its Loft evidence must be filled in"@)
                } else {
                    p1
                };
                let p3 = if milestones.len() == 0 { p2.push(id + ": names no milestone"@) } else { p2 };
                let p4 = if tests.len() == 0 { p3.push(id + ": names no test"@) } else { p3 };
                (p4, lessons.push(LessonView { id, milestones, tests }), processes)
            }
        },
        None => match row_id_spec(line, 'P') {
            Some(id) => {
                let row = cells_spec(line);
                let problems = if process_row_bad(row) {
                    problems.push(id + ": expected 4 filled cells (id, mistake, evidence, guard)"@)
                } else {
                    problems
                };
                (problems, lessons, processes + 1)
            },
            None => state,
        },
    }
}

/// The lessons doc read line by line.
pub open spec fn doc_parse(ls: Seq<Seq<char>>) -> (Seq<Seq<char>>, Seq<LessonView>, nat)
    decreases ls.len(),
{
    if ls.len() == 0 {
        (Seq::empty(), Seq::empty(), 0)
    } else {
        doc_step(doc_parse(ls.drop_last()), ls.last())
    }
}

/// Whether `s` is a snake_case segment: one lowercase ASCII letter, digit or `_` or more.
pub open spec fn is_snake(s: Seq<char>) -> bool {
    s.len() > 0 && forall|k: int| 0 <= k < s.len() ==> ('a' <= #[trigger] s[k] <= 'z' || is_digit(s[k]) || s[k] == '_')
}

/// `s` with each `_` made a `-`.
pub open spec fn dashed(s: Seq<char>) -> Seq<char> {
    s.map_values(|c: char| if c == '_' { '-' } else { c })
}

/// The segments of a test path.
pub open spec fn segments(test: Seq<char>) -> Seq<Seq<char>> {
    split(test, seq![':', ':'])
}

/// What is wrong with the test path `test` of the lesson `id`, if anything: it is not a
/// snake_case `crate::path::test` path, or names no workspace crate.
pub open spec fn test_path_problem(id: Seq<char>, test: Seq<char>, crates: Seq<Seq<char>>) -> Seq<Seq<char>> {
    let segs = segments(test);
    if segs.len() < 2 || !(forall|k: int| 0 <= k < segs.len() ==> is_snake(#[trigger] segs[k])) {
        seq![id + ": `"@ + test + "` is not a snake_case `crate::path::test` path"@]
    } else if !crates.contains(dashed(segs[0])) {
        seq![id + ": `"@ + test + "` names no workspace crate `"@ + dashed(segs[0]) + "`"@]
    } else {
        Seq::empty()
    }
}

/// What is wrong with each of the test paths `tests` of the lesson `id`, in order.
pub open spec fn test_path_problems(id: Seq<char>, tests: Seq<Seq<char>>, crates: Seq<Seq<char>>) -> Seq<Seq<char>>
    decreases tests.len(),
{
    if tests.len() == 0 {
        Seq::empty()
    } else {
        test_path_problems(id, tests.drop_last(), crates) + test_path_problem(id, tests.last(), crates)
    }
}

/// The first roadmap milestone, from `i` on, whose id is `id`.
pub open spec fn find_milestone_from(ms: Seq<MilestoneView>, id: Seq<char>, i: int) -> Option<MilestoneView>
    decreases ms.len() - i,
{
    if i < 0 || i >= ms.len() {
        None
    } else if ms[i].id == id {
        Some(ms[i])
    } else {
        find_milestone_from(ms, id, i + 1)
    }
}

/// The first roadmap milestone whose id is `id`.
pub open spec fn find_milestone(ms: Seq<MilestoneView>, id: Seq<char>) -> Option<MilestoneView> {
    find_milestone_from(ms, id, 0)
}

/// What is wrong with the lesson `id` naming the milestone `m`: the roadmap has no such
/// milestone, or its entry does not list the lesson.
pub open spec fn milestone_problem(id: Seq<char>, m: Seq<char>, roadmap: Seq<MilestoneView>) -> Seq<Seq<char>> {
    match find_milestone(roadmap, m) {
        None => seq![id + ": milestone "@ + m + " is not in ROADMAP.md"@],
        Some(entry) => if !has_token_spec(entry.text, id) {
            seq![id + ": the "@ + m + " entry in ROADMAP.md doesn't list it"@]
        } else {
            Seq::empty()
        },
    }
}

/// What is wrong with each milestone the lesson `id` names, in order.
pub open spec fn milestone_problems(id: Seq<char>, ms: Seq<Seq<char>>, roadmap: Seq<MilestoneView>) -> Seq<Seq<char>>
    decreases ms.len(),
{
    if ms.len() == 0 {
        Seq::empty()
    } else {
        milestone_problems(id, ms.drop_last(), roadmap) + milestone_problem(id, ms.last(), roadmap)
    }
}

/// Whether the test `name` exists in the workspace crate `krate`.
pub open spec fn test_exists(existing: Seq<(Seq<char>, Seq<char>)>, krate: Seq<char>, name: Seq<char>) -> bool {
    existing.contains((krate, name))
}

/// The test `test` owed by the lesson `id` to its checked-off milestone `owner`, when it does not
/// exist.
pub open spec fn owed_problem(id: Seq<char>, owner: Seq<char>, test: Seq<char>, existing: Seq<(Seq<char>, Seq<char>)>) -> Seq<Seq<char>> {
    let segs = segments(test);
    if segs.len() >= 2 && !test_exists(existing, dashed(segs[0]), segs.last()) {
        seq![id + ": "@ + owner + " is checked off, but `"@ + test + "` doesn't exist"@]
    } else {
        Seq::empty()
    }
}

/// The tests of `tests` owed by the lesson `id` that do not exist, in order.
pub open spec fn owed_problems(id: Seq<char>, owner: Seq<char>, tests: Seq<Seq<char>>, existing: Seq<(Seq<char>, Seq<char>)>) -> Seq<Seq<char>>
    decreases tests.len(),
{
    if tests.len() == 0 {
        Seq::empty()
    } else {
        owed_problems(id, owner, tests.drop_last(), existing) + owed_problem(id, owner, tests.last(), existing)
    }
}

/// The milestone that owes a lesson's tests: the first it names, when the roadmap has it.
pub open spec fn owner_of(lesson: LessonView, roadmap: Seq<MilestoneView>) -> Option<MilestoneView> {
    if lesson.milestones.len() > 0 { find_milestone(roadmap, lesson.milestones[0]) } else { None }
}

/// What is wrong with one lesson: its test paths, its milestones, and, once the milestone that
/// owes its tests is checked off, the tests that do not exist.
pub open spec fn lesson_problems(
    lesson: LessonView,
    roadmap: Seq<MilestoneView>,
    crates: Seq<Seq<char>>,
    existing: Seq<(Seq<char>, Seq<char>)>,
) -> Seq<Seq<char>> {
    test_path_problems(lesson.id, lesson.tests, crates)
        + milestone_problems(lesson.id, lesson.milestones, roadmap)
        + match owner_of(lesson, roadmap) {
            Some(owner) => if owner.done { owed_problems(lesson.id, owner.id, lesson.tests, existing) } else { Seq::empty() },
            None => Seq::empty(),
        }
}

/// What is wrong with each lesson, in order.
pub open spec fn all_lesson_problems(
    lessons: Seq<LessonView>,
    roadmap: Seq<MilestoneView>,
    crates: Seq<Seq<char>>,
    existing: Seq<(Seq<char>, Seq<char>)>,
) -> Seq<Seq<char>>
    decreases lessons.len(),
{
    if lessons.len() == 0 {
        Seq::empty()
    } else {
        all_lesson_problems(lessons.drop_last(), roadmap, crates, existing)
            + lesson_problems(lessons.last(), roadmap, crates, existing)
    }
}

/// The views of the existing tests.
pub open spec fn tests_view(v: Seq<(String, String)>) -> Seq<(Seq<char>, Seq<char>)> {
    Seq::new(v.len(), |i: int| (v[i].0@, v[i].1@))
}

/// Every problem of the lessons doc `doc` against the roadmap: the rows' own, then each lesson's.
pub open spec fn check_spec(
    doc: Seq<char>,
    roadmap: Seq<char>,
    crates: Seq<Seq<char>>,
    existing: Seq<(Seq<char>, Seq<char>)>,
) -> Seq<Seq<char>> {
    let (problems, lessons, processes) = doc_parse(lines(doc));
    let problems = if lessons.len() == 0 || processes == 0 {
        problems.push("the doc has no lesson rows or no process rows"@)
    } else {
        problems
    };
    problems + all_lesson_problems(lessons, milestones_spec(roadmap), crates, existing)
}

/// A string holding the characters of `a` and then those of `b`.
fn message(a: &[char], b: &str) -> (out: String)
    ensures
        out@ == a@ + b@,
{
    let mut out = string_of(a);
    out.append(b);
    out
}

/// Whether a lesson with the id `id` is among `lessons`.
fn lesson_listed(lessons: &Vec<Lesson>, id: &[char]) -> (found: bool)
    ensures
        found == lesson_known(lessons_view(lessons@), id@),
{
    let mut k: usize = 0;
    while k < lessons.len()
        invariant
            0 <= k <= lessons.len(),
            forall|m: int| 0 <= m < k ==> #[trigger] lessons@[m].id@ != id@,
        decreases lessons.len() - k,
    {
        if chars_eq(lessons[k].id.as_slice(), id) {
            assert(lessons_view(lessons@)[k as int].id == id@);
            return true;
        }
        k += 1;
    }
    proof {
        if lesson_known(lessons_view(lessons@), id@) {
            let m = choose|m: int| 0 <= m < lessons_view(lessons@).len() && #[trigger] lessons_view(lessons@)[m].id == id@;
            assert(lessons@[m].id@ != id@);
        }
    }
    false
}

/// The non-empty trimmed pieces of `cell` between its commas.
fn milestone_list(cell: &[char]) -> (out: Vec<Vec<char>>)
    ensures
        chars_view(out@) == nonempty_trimmed(split(cell@, seq![','])),
{
    let comma = [','];
    assert(comma@ =~= seq![',']);
    let pieces = split_pieces(cell, comma.as_slice());
    let ghost all = chars_view(pieces@);
    let mut out: Vec<Vec<char>> = Vec::new();
    let mut k: usize = 0;
    assert(all.take(0) =~= Seq::<Seq<char>>::empty());
    while k < pieces.len()
        invariant
            0 <= k <= pieces.len(),
            all == chars_view(pieces@),
            all == split(cell@, seq![',']),
            chars_view(out@) == nonempty_trimmed(all.take(k as int)),
        decreases pieces.len() - k,
    {
        let t = trim_slice(pieces[k].as_slice());
        assert(all.take(k + 1).drop_last() =~= all.take(k as int));
        assert(all.take(k + 1).last() == pieces@[k as int]@);
        if t.len() > 0 {
            let ghost before = chars_view(out@);
            out.push(copy_chars(t));
            assert(chars_view(out@) =~= before.push(t@));
        }
        k += 1;
    }
    assert(all.take(pieces.len() as int) =~= all);
    out
}

/// Whether some cell of `row` is empty.
fn any_empty(row: &Vec<Vec<char>>) -> (found: bool)
    ensures
        found == exists|k: int| 0 <= k < row@.len() && #[trigger] chars_view(row@)[k].len() == 0,
{
    let mut k: usize = 0;
    while k < row.len()
        invariant
            0 <= k <= row.len(),
            forall|m: int| 0 <= m < k ==> #[trigger] row@[m]@.len() != 0,
        decreases row.len() - k,
    {
        if row[k].len() == 0 {
            assert(chars_view(row@)[k as int].len() == 0);
            return true;
        }
        k += 1;
    }
    proof {
        assert forall|m: int| 0 <= m < row@.len() implies #[trigger] chars_view(row@)[m].len() != 0 by {
            assert(row@[m]@.len() != 0);
        }
    }
    false
}

/// Reads one line of the lessons doc into the problems, lessons and process rows found so far.
fn read_doc_line(line: &[char], problems: &mut Vec<String>, lessons: &mut Vec<Lesson>, processes: &mut usize)
    requires
        *old(processes) < usize::MAX,
    ensures
        (strings_view(final(problems)@), lessons_view(final(lessons)@), *final(processes) as nat)
            == doc_step((strings_view(old(problems)@), lessons_view(old(lessons)@), *old(processes) as nat), line@),
{
    let ghost p0 = strings_view(problems@);
    let ghost l0 = lessons_view(lessons@);
    match row_id(line, 'L') {
        Some(id) => {
            let row = cells(line);
            let ghost rv = chars_view(row@);
            if row.len() != 5 {
                let mut m = message(id.as_slice(), ": expected 5 cells, found ");
                append_decimal(&mut m, row.len());
                problems.push(m);
                assert(strings_view(problems@) =~= p0.push(m@));
                return;
            }
            let milestones = milestone_list(row[3].as_slice());
            let tests = code_spans(row[4].as_slice());
            if lesson_listed(lessons, id.as_slice()) {
                let ghost before = strings_view(problems@);
                let m = message(id.as_slice(), ": duplicate lesson id");
                problems.push(m);
                assert(strings_view(problems@) =~= before.push(m@));
            }
            if row[1].len() == 0 || row[2].len() == 0 {
                let ghost before = strings_view(problems@);
                let m = message(id.as_slice(), ": the lesson and its Loft evidence must be filled in");
                problems.push(m);
                assert(strings_view(problems@) =~= before.push(m@));
            }
            if milestones.len() == 0 {
                let ghost before = strings_view(problems@);
                let m = message(id.as_slice(), ": names no milestone");
                problems.push(m);
                assert(strings_view(problems@) =~= before.push(m@));
            }
            if tests.len() == 0 {
                let ghost before = strings_view(problems@);
                let m = message(id.as_slice(), ": names no test");
                problems.push(m);
                assert(strings_view(problems@) =~= before.push(m@));
            }
            let ghost lesson = Lesson { id, milestones, tests }@;
            lessons.push(Lesson { id, milestones, tests });
            assert(lessons_view(lessons@) =~= l0.push(lesson));
        },
        None => {
            match row_id(line, 'P') {
                Some(id) => {
                    let row = cells(line);
                    if row.len() != 4 || any_empty(&row) {
                        let m = message(id.as_slice(), ": expected 4 filled cells (id, mistake, evidence, guard)");
                        problems.push(m);
                        assert(strings_view(problems@) =~= p0.push(m@));
                    }
                    *processes = *processes + 1;
                },
                None => {},
            }
        },
    }
}

/// `s` with each `_` made a `-`.
fn dash(s: &[char]) -> (out: Vec<char>)
    ensures
        out@ == dashed(s@),
{
    let mut out: Vec<char> = Vec::new();
    let mut i: usize = 0;
    while i < s.len()
        invariant
            0 <= i <= s.len(),
            out@ == dashed(s@).take(i as int),
        decreases s.len() - i,
    {
        out.push(if s[i] == '_' { '-' } else { s[i] });
        assert(out@ =~= dashed(s@).take(i + 1));
        i += 1;
    }
    assert(dashed(s@).take(s.len() as int) =~= dashed(s@));
    out
}

/// Whether every segment is snake_case.
fn all_snake(segs: &Vec<Vec<char>>) -> (ok: bool)
    ensures
        ok == forall|k: int| 0 <= k < segs@.len() ==> is_snake(#[trigger] chars_view(segs@)[k]),
{
    let mut k: usize = 0;
    while k < segs.len()
        invariant
            0 <= k <= segs.len(),
            forall|m: int| 0 <= m < k ==> is_snake(#[trigger] chars_view(segs@)[m]),
        decreases segs.len() - k,
    {
        let seg = segs[k].as_slice();
        assert(seg@ == chars_view(segs@)[k as int]);
        if seg.len() == 0 {
            assert(!is_snake(chars_view(segs@)[k as int]));
            return false;
        }
        let mut i: usize = 0;
        while i < seg.len()
            invariant
                0 <= i <= seg.len(),
                0 <= k < segs@.len(),
                seg@ == chars_view(segs@)[k as int],
                forall|j: int| 0 <= j < i ==> ('a' <= #[trigger] seg@[j] <= 'z' || is_digit(seg@[j]) || seg@[j] == '_'),
            decreases seg.len() - i,
        {
            let c = seg[i];
            if !(('a' <= c && c <= 'z') || ('0' <= c && c <= '9') || c == '_') {
                assert(seg@[i as int] == c);
                assert(!is_snake(seg@));
                assert(!is_snake(chars_view(segs@)[k as int]));
                return false;
            }
            i += 1;
        }
        k += 1;
    }
    true
}

/// Whether one of `names` holds the characters of `name`.
fn listed_in(names: &Vec<String>, name: &[char]) -> (found: bool)
    ensures
        found == strings_view(names@).contains(name@),
{
    let mut k: usize = 0;
    while k < names.len()
        invariant
            0 <= k <= names.len(),
            forall|m: int| 0 <= m < k ==> #[trigger] names@[m]@ != name@,
        decreases names.len() - k,
    {
        let c = chars_of(names[k].as_str());
        if chars_eq(c.as_slice(), name) {
            assert(strings_view(names@)[k as int] == name@);
            return true;
        }
        k += 1;
    }
    proof {
        if strings_view(names@).contains(name@) {
            let m = choose|m: int| 0 <= m < strings_view(names@).len() && strings_view(names@)[m] == name@;
            assert(names@[m]@ != name@);
        }
    }
    false
}

/// Whether the test `name` exists in the crate `krate`.
fn exists_test(existing: &Vec<(String, String)>, krate: &[char], name: &[char]) -> (found: bool)
    ensures
        found == test_exists(tests_view(existing@), krate@, name@),
{
    let mut k: usize = 0;
    while k < existing.len()
        invariant
            0 <= k <= existing.len(),
            forall|m: int| 0 <= m < k ==> #[trigger] tests_view(existing@)[m] != (krate@, name@),
        decreases existing.len() - k,
    {
        let a = chars_of(existing[k].0.as_str());
        let b = chars_of(existing[k].1.as_str());
        if chars_eq(a.as_slice(), krate) && chars_eq(b.as_slice(), name) {
            assert(tests_view(existing@)[k as int] == (krate@, name@));
            return true;
        }
        k += 1;
    }
    false
}

/// The segments of a test path.
fn test_segments(test: &[char]) -> (segs: Vec<Vec<char>>)
    ensures
        chars_view(segs@) == segments(test@),
{
    let colons = [':', ':'];
    assert(colons@ =~= seq![':', ':']);
    split_pieces(test, colons.as_slice())
}

/// Appends what is wrong with the test path `test` of the lesson `id`.
fn check_test_path(id: &[char], test: &[char], crates: &Vec<String>, problems: &mut Vec<String>)
    ensures
        strings_view(final(problems)@) == strings_view(old(problems)@) + test_path_problem(id@, test@, strings_view(crates@)),
{
    let ghost before = strings_view(problems@);
    let segs = test_segments(test);
    if segs.len() < 2 || !all_snake(&segs) {
        let mut m = message(id, ": `");
        let t = string_of(test);
        m.append(t.as_str());
        m.append("` is not a snake_case `crate::path::test` path");
        problems.push(m);
        assert(strings_view(problems@) =~= before.push(m@));
        return;
    }
    let dir = dash(segs[0].as_slice());
    if !listed_in(crates, dir.as_slice()) {
        let mut m = message(id, ": `");
        let t = string_of(test);
        m.append(t.as_str());
        m.append("` names no workspace crate `");
        let d = string_of(dir.as_slice());
        m.append(d.as_str());
        m.append("`");
        problems.push(m);
        assert(strings_view(problems@) =~= before.push(m@));
        return;
    }
    assert(strings_view(problems@) =~= before + test_path_problem(id@, test@, strings_view(crates@)));
}

/// The index of the first roadmap milestone whose id is `id`.
fn find_entry(ids: &Vec<Vec<char>>, id: &[char]) -> (at: Option<usize>)
    ensures
        match at {
            Some(k) => k < ids@.len() && chars_view(ids@)[k as int] == id@
                && forall|m: int| 0 <= m < k ==> #[trigger] chars_view(ids@)[m] != id@,
            None => forall|m: int| 0 <= m < ids@.len() ==> #[trigger] chars_view(ids@)[m] != id@,
        },
{
    let mut k: usize = 0;
    while k < ids.len()
        invariant
            0 <= k <= ids.len(),
            forall|m: int| 0 <= m < k ==> #[trigger] chars_view(ids@)[m] != id@,
        decreases ids.len() - k,
    {
        if chars_eq(ids[k].as_slice(), id) {
            return Some(k);
        }
        k += 1;
    }
    None
}

/// The first milestone found, from `i` on, is the first index with that id.
proof fn lemma_find_milestone(ms: Seq<MilestoneView>, id: Seq<char>, i: int, k: int)
    requires
        0 <= i <= k < ms.len(),
        ms[k].id == id,
        forall|m: int| i <= m < k ==> #[trigger] ms[m].id != id,
    ensures
        find_milestone_from(ms, id, i) == Some(ms[k]),
    decreases k - i,
{
    if i < k {
        lemma_find_milestone(ms, id, i + 1, k);
    }
}

/// No milestone from `i` on has the id.
proof fn lemma_no_milestone(ms: Seq<MilestoneView>, id: Seq<char>, i: int)
    requires
        0 <= i,
        forall|m: int| i <= m < ms.len() ==> #[trigger] ms[m].id != id,
    ensures
        find_milestone_from(ms, id, i) is None,
    decreases ms.len() - i,
{
    if i < ms.len() {
        lemma_no_milestone(ms, id, i + 1);
    }
}

/// The roadmap's milestones with their ids and texts as characters.
struct Roadmap {
    ids: Vec<Vec<char>>,
    texts: Vec<Vec<char>>,
    done: Vec<bool>,
}

impl Roadmap {
    /// Whether it holds the milestones `ms`.
    spec fn holds(&self, ms: Seq<MilestoneView>) -> bool {
        &&& self.ids@.len() == ms.len()
        &&& self.texts@.len() == ms.len()
        &&& self.done@.len() == ms.len()
        &&& forall|k: int| 0 <= k < ms.len() ==> {
            &&& #[trigger] chars_view(self.ids@)[k] == ms[k].id
            &&& chars_view(self.texts@)[k] == ms[k].text
            &&& self.done@[k] == ms[k].done
        }
    }
}

/// The roadmap's milestones, with their ids and texts as characters.
fn roadmap_of(ms: &Vec<Milestone>) -> (r: Roadmap)
    ensures
        r.holds(milestones_view(ms@)),
{
    let mut r = Roadmap { ids: Vec::new(), texts: Vec::new(), done: Vec::new() };
    let mut k: usize = 0;
    while k < ms.len()
        invariant
            0 <= k <= ms.len(),
            r.holds(milestones_view(ms@).take(k as int)),
        decreases ms.len() - k,
    {
        let ghost old_r = r;
        r.ids.push(chars_of(ms[k].id.as_str()));
        r.texts.push(chars_of(ms[k].text.as_str()));
        r.done.push(ms[k].done);
        proof {
            let want = milestones_view(ms@).take(k + 1);
            assert(r.ids@.len() == k + 1);
            assert(r.texts@.len() == k + 1);
            assert(r.done@.len() == k + 1);
            assert forall|m: int| 0 <= m < want.len() implies {
                &&& #[trigger] chars_view(r.ids@)[m] == want[m].id
                &&& chars_view(r.texts@)[m] == want[m].text
                &&& r.done@[m] == want[m].done
            } by {
                if m < k {
                    assert(r.ids@[m] == old_r.ids@[m]);
                    assert(r.texts@[m] == old_r.texts@[m]);
                    assert(r.done@[m] == old_r.done@[m]);
                    assert(chars_view(old_r.ids@)[m] == milestones_view(ms@).take(k as int)[m].id);
                    assert(chars_view(old_r.texts@)[m] == milestones_view(ms@).take(k as int)[m].text);
                    assert(old_r.done@[m] == milestones_view(ms@).take(k as int)[m].done);
                }
            }
            assert(r.holds(want));
        }
        k += 1;
    }
    assert(milestones_view(ms@).take(ms.len() as int) =~= milestones_view(ms@));
    r
}

/// Appends what is wrong with the lesson `id` naming the milestone `m`.
fn check_milestone(id: &[char], m: &[char], roadmap: &Roadmap, Ghost(roadmap_view): Ghost<Seq<MilestoneView>>, problems: &mut Vec<String>)
    requires
        roadmap.holds(roadmap_view),
    ensures
        strings_view(final(problems)@) == strings_view(old(problems)@) + milestone_problem(id@, m@, roadmap_view),
{
    let ghost before = strings_view(problems@);
    match find_entry(&roadmap.ids, m) {
        None => {
            proof {
                assert forall|j: int| 0 <= j < roadmap_view.len() implies #[trigger] roadmap_view[j].id != m@ by {
                    assert(chars_view(roadmap.ids@)[j] != m@);
                }
                lemma_no_milestone(roadmap_view, m@, 0);
            }
            let mut msg = message(id, ": milestone ");
            let ms = string_of(m);
            msg.append(ms.as_str());
            msg.append(" is not in ROADMAP.md");
            problems.push(msg);
            assert(strings_view(problems@) =~= before.push(msg@));
        },
        Some(k) => {
            proof {
                assert forall|j: int| 0 <= j < k implies #[trigger] roadmap_view[j].id != m@ by {
                    assert(chars_view(roadmap.ids@)[j] != m@);
                }
                assert(chars_view(roadmap.ids@)[k as int] == roadmap_view[k as int].id);
                lemma_find_milestone(roadmap_view, m@, 0, k as int);
                assert(chars_view(roadmap.texts@)[k as int] == roadmap_view[k as int].text);
            }
            if !has_token_chars(roadmap.texts[k].as_slice(), id) {
                let mut msg = message(id, ": the ");
                let ms = string_of(m);
                msg.append(ms.as_str());
                msg.append(" entry in ROADMAP.md doesn't list it");
                problems.push(msg);
                assert(strings_view(problems@) =~= before.push(msg@));
            } else {
                assert(strings_view(problems@) =~= before + milestone_problem(id@, m@, roadmap_view));
            }
        },
    }
}

/// Appends the problem of the test `test` that the lesson `id` owes its checked-off milestone
/// `owner`, when the test does not exist.
fn check_owed(id: &[char], owner: &[char], test: &[char], existing: &Vec<(String, String)>, problems: &mut Vec<String>)
    ensures
        strings_view(final(problems)@) == strings_view(old(problems)@) + owed_problem(id@, owner@, test@, tests_view(existing@)),
{
    let ghost before = strings_view(problems@);
    let segs = test_segments(test);
    if segs.len() >= 2 {
        let krate = dash(segs[0].as_slice());
        let name = segs[segs.len() - 1].as_slice();
        assert(name@ == segments(test@).last());
        if !exists_test(existing, krate.as_slice(), name) {
            let mut msg = message(id, ": ");
            let o = string_of(owner);
            msg.append(o.as_str());
            msg.append(" is checked off, but `");
            let t = string_of(test);
            msg.append(t.as_str());
            msg.append("` doesn't exist");
            problems.push(msg);
            assert(strings_view(problems@) =~= before.push(msg@));
            return;
        }
    }
    assert(strings_view(problems@) =~= before + owed_problem(id@, owner@, test@, tests_view(existing@)));
}

/// Appends what is wrong with one lesson.
fn check_lesson(
    lesson: &Lesson,
    roadmap: &Roadmap,
    Ghost(roadmap_view): Ghost<Seq<MilestoneView>>,
    crates: &Vec<String>,
    existing: &Vec<(String, String)>,
    problems: &mut Vec<String>,
)
    requires
        roadmap.holds(roadmap_view),
    ensures
        strings_view(final(problems)@) == strings_view(old(problems)@)
            + lesson_problems(lesson@, roadmap_view, strings_view(crates@), tests_view(existing@)),
{
    let ghost base = strings_view(problems@);
    let ghost lv = lesson@;
    let ghost cv = strings_view(crates@);
    let ghost ev = tests_view(existing@);
    let id = lesson.id.as_slice();
    let mut k: usize = 0;
    assert(lv.tests.take(0) =~= Seq::<Seq<char>>::empty());
    while k < lesson.tests.len()
        invariant
            0 <= k <= lesson.tests.len(),
            lv == lesson@,
            id@ == lv.id,
            cv == strings_view(crates@),
            strings_view(problems@) == base + test_path_problems(lv.id, lv.tests.take(k as int), cv),
        decreases lesson.tests.len() - k,
    {
        let ghost before = strings_view(problems@);
        check_test_path(id, lesson.tests[k].as_slice(), crates, problems);
        proof {
            let a = test_path_problems(lv.id, lv.tests.take(k as int), cv);
            let b = test_path_problem(lv.id, lesson.tests@[k as int]@, cv);
            assert((base + a) + b =~= base + (a + b));
            assert(lv.tests.take(k + 1).drop_last() =~= lv.tests.take(k as int));
            assert(lv.tests.take(k + 1).last() == lesson.tests@[k as int]@);
            assert(test_path_problems(lv.id, lv.tests.take(k + 1), cv) == a + b);
            assert(strings_view(problems@) == before + b);
            assert(before == base + a);
            assert(strings_view(problems@) =~= base + test_path_problems(lv.id, lv.tests.take(k + 1), cv));
        }
        k += 1;
    }
    assert(lv.tests.take(lesson.tests.len() as int) =~= lv.tests);
    let ghost base2 = strings_view(problems@);
    let mut j: usize = 0;
    assert(lv.milestones.take(0) =~= Seq::<Seq<char>>::empty());
    while j < lesson.milestones.len()
        invariant
            0 <= j <= lesson.milestones.len(),
            lv == lesson@,
            id@ == lv.id,
            roadmap.holds(roadmap_view),
            strings_view(problems@) == base2 + milestone_problems(lv.id, lv.milestones.take(j as int), roadmap_view),
        decreases lesson.milestones.len() - j,
    {
        check_milestone(id, lesson.milestones[j].as_slice(), roadmap, Ghost(roadmap_view), problems);
        proof {
            let a = milestone_problems(lv.id, lv.milestones.take(j as int), roadmap_view);
            let b = milestone_problem(lv.id, lesson.milestones@[j as int]@, roadmap_view);
            assert((base2 + a) + b =~= base2 + (a + b));
            assert(lv.milestones.take(j + 1).drop_last() =~= lv.milestones.take(j as int));
            assert(lv.milestones.take(j + 1).last() == lesson.milestones@[j as int]@);
            assert(strings_view(problems@) =~= base2 + milestone_problems(lv.id, lv.milestones.take(j + 1), roadmap_view));
        }
        j += 1;
    }
    assert(lv.milestones.take(lesson.milestones.len() as int) =~= lv.milestones);
    let ghost base3 = strings_view(problems@);
    if lesson.milestones.len() > 0 {
        let first = lesson.milestones[0].as_slice();
        match find_entry(&roadmap.ids, first) {
            Some(o) => {
                proof {
                    assert forall|m: int| 0 <= m < o implies #[trigger] roadmap_view[m].id != first@ by {
                        assert(chars_view(roadmap.ids@)[m] != first@);
                    }
                    assert(chars_view(roadmap.ids@)[o as int] == roadmap_view[o as int].id);
                    lemma_find_milestone(roadmap_view, first@, 0, o as int);
                    assert(owner_of(lv, roadmap_view) == Some(roadmap_view[o as int]));
                }
                if roadmap.done[o] {
                    let owner = roadmap.ids[o].as_slice();
                    let mut t: usize = 0;
                    assert(lv.tests.take(0) =~= Seq::<Seq<char>>::empty());
                    while t < lesson.tests.len()
                        invariant
                            0 <= t <= lesson.tests.len(),
                            lv == lesson@,
                            id@ == lv.id,
                            o < roadmap_view.len(),
                            owner@ == roadmap_view[o as int].id,
                            ev == tests_view(existing@),
                            strings_view(problems@) == base3 + owed_problems(lv.id, owner@, lv.tests.take(t as int), ev),
                        decreases lesson.tests.len() - t,
                    {
                        check_owed(id, owner, lesson.tests[t].as_slice(), existing, problems);
                        proof {
                            let a = owed_problems(lv.id, owner@, lv.tests.take(t as int), ev);
                            let b = owed_problem(lv.id, owner@, lesson.tests@[t as int]@, ev);
                            assert((base3 + a) + b =~= base3 + (a + b));
                            assert(lv.tests.take(t + 1).drop_last() =~= lv.tests.take(t as int));
                            assert(lv.tests.take(t + 1).last() == lesson.tests@[t as int]@);
                            assert(strings_view(problems@) =~= base3 + owed_problems(lv.id, owner@, lv.tests.take(t + 1), ev));
                        }
                        t += 1;
                    }
                    assert(lv.tests.take(lesson.tests.len() as int) =~= lv.tests);
                } else {
                    assert(strings_view(problems@) =~= base3 + Seq::<Seq<char>>::empty());
                }
            },
            None => {
                proof {
                    assert forall|m: int| 0 <= m < roadmap_view.len() implies #[trigger] roadmap_view[m].id != first@ by {
                        assert(chars_view(roadmap.ids@)[m] != first@);
                    }
                    lemma_no_milestone(roadmap_view, first@, 0);
                }
                assert(strings_view(problems@) =~= base3 + Seq::<Seq<char>>::empty());
            },
        }
    } else {
        assert(strings_view(problems@) =~= base3 + Seq::<Seq<char>>::empty());
    }
}

/// Checks the lessons doc against the roadmap, given the workspace's crates and, as
/// `(crate directory, function name)`, the tests that exist in them. Returns one message per
/// problem: the rows' own, in the order of the doc, then each lesson's.
pub fn check(doc: &str, roadmap: &str, crates: &Vec<String>, tests: &Vec<(String, String)>) -> (problems: Vec<String>)
    ensures
        strings_view(problems@) == check_spec(doc@, roadmap@, strings_view(crates@), tests_view(tests@)),
{
    let ms = milestones(roadmap);
    let rm = roadmap_of(&ms);
    let ghost msv = milestones_view(ms@);
    let chars = chars_of(doc);
    let ls = lines_of(chars.as_slice());
    let ghost lv = chars_view(ls@);
    let mut problems: Vec<String> = Vec::new();
    let mut lessons: Vec<Lesson> = Vec::new();
    let mut processes: usize = 0;
    let mut k: usize = 0;
    assert(lv.take(0) =~= Seq::<Seq<char>>::empty());
    assert(strings_view(problems@) =~= Seq::<Seq<char>>::empty());
    assert(lessons_view(lessons@) =~= Seq::<LessonView>::empty());
    while k < ls.len()
        invariant
            0 <= k <= ls.len(),
            lv == chars_view(ls@),
            lv == lines(doc@),
            processes <= k,
            (strings_view(problems@), lessons_view(lessons@), processes as nat) == doc_parse(lv.take(k as int)),
        decreases ls.len() - k,
    {
        read_doc_line(ls[k].as_slice(), &mut problems, &mut lessons, &mut processes);
        proof {
            assert(lv.take(k + 1).drop_last() =~= lv.take(k as int));
            assert(lv.take(k + 1).last() == ls@[k as int]@);
            let s = doc_parse(lv.take(k as int));
            let t = doc_step(s, lv[k as int]);
            assert(t.2 <= s.2 + 1);
        }
        k += 1;
    }
    assert(lv.take(ls.len() as int) =~= lv);
    if lessons.len() == 0 || processes == 0 {
        let ghost before = strings_view(problems@);
        problems.push(String::from_str("the doc has no lesson rows or no process rows"));
        assert(strings_view(problems@) =~= before.push("the doc has no lesson rows or no process rows"@));
    }
    let ghost base = strings_view(problems@);
    let ghost lsv = lessons_view(lessons@);
    let ghost cv = strings_view(crates@);
    let ghost ev = tests_view(tests@);
    let mut j: usize = 0;
    assert(lsv.take(0) =~= Seq::<LessonView>::empty());
    assert(base + Seq::<Seq<char>>::empty() =~= base);
    while j < lessons.len()
        invariant
            0 <= j <= lessons.len(),
            lsv == lessons_view(lessons@),
            rm.holds(msv),
            msv == milestones_spec(roadmap@),
            cv == strings_view(crates@),
            ev == tests_view(tests@),
            strings_view(problems@) == base + all_lesson_problems(lsv.take(j as int), msv, cv, ev),
        decreases lessons.len() - j,
    {
        check_lesson(&lessons[j], &rm, Ghost(msv), crates, tests, &mut problems);
        proof {
            let a = all_lesson_problems(lsv.take(j as int), msv, cv, ev);
            let b = lesson_problems(lessons@[j as int]@, msv, cv, ev);
            assert((base + a) + b =~= base + (a + b));
            assert(lsv.take(j + 1).drop_last() =~= lsv.take(j as int));
            assert(lsv.take(j + 1).last() == lessons@[j as int]@);
            assert(strings_view(problems@) =~= base + all_lesson_problems(lsv.take(j + 1), msv, cv, ev));
        }
        j += 1;
    }
    assert(lsv.take(lessons.len() as int) =~= lsv);
    problems
}

/// How many characters of `t`, from `k` on, come before its next white space.
pub open spec fn word_end(t: Seq<char>, k: int) -> int
    decreases t.len() - k,
{
    if k < 0 || k >= t.len() {
        t.len() as int
    } else if is_ws(t[k]) {
        k
    } else {
        word_end(t, k + 1)
    }
}

/// The first white-space-separated word of `s`, if it has one.
pub open spec fn first_word(s: Seq<char>) -> Option<Seq<char>> {
    let t = trim_start(s);
    if t.len() == 0 {
        None
    } else {
        Some(t.take(word_end(t, 0)))
    }
}

/// The milestone a line of `STATUS.md` names as current: the word after its
/// `**Current milestone:**`, if it has both.
pub open spec fn named_on(line: Seq<char>) -> Option<Seq<char>> {
    let marker = "**Current milestone:**"@;
    match find(line, marker) {
        Some(i) => first_word(line.skip(i + marker.len())),
        None => None,
    }
}

/// The milestone that the first line, from `k` on, that names one names as current.
pub open spec fn named_from(ls: Seq<Seq<char>>, k: int) -> Option<Seq<char>>
    decreases ls.len() - k,
{
    if k < 0 || k >= ls.len() {
        None
    } else {
        match named_on(ls[k]) {
            Some(w) => Some(w),
            None => named_from(ls, k + 1),
        }
    }
}

/// A milestone neither checked off nor blocked.
pub open spec fn is_open(m: MilestoneView) -> bool {
    !m.done && !m.blocked
}

/// The index of the first open milestone, from `k` on.
pub open spec fn first_open_from(ms: Seq<MilestoneView>, k: int) -> Option<int>
    decreases ms.len() - k,
{
    if k < 0 || k >= ms.len() {
        None
    } else if is_open(ms[k]) {
        Some(k)
    } else {
        first_open_from(ms, k + 1)
    }
}

/// Whether `named` may be called current when the first open milestone is `ms[f]`: it is that
/// milestone, or the open one right after it when that is one of its increments (`M1.2a` of `M1.2`).
pub open spec fn accepted_current(named: Seq<char>, ms: Seq<MilestoneView>, f: int) -> bool {
    ||| named == ms[f].id
    ||| match first_open_from(ms, f + 1) {
        Some(g) => starts_with(ms[g].id, ms[f].id) && ms[g].id.len() > ms[f].id.len() && named == ms[g].id,
        None => false,
    }
}

/// What is wrong with the current milestone that `STATUS.md` names, against the roadmap.
pub open spec fn current_milestone_spec(status: Seq<char>, roadmap: Seq<char>) -> Option<Seq<char>> {
    match named_from(lines(status), 0) {
        None => Some("STATUS.md has no `**Current milestone:**` line"@),
        Some(named) => {
            let ms = milestones_spec(roadmap);
            match first_open_from(ms, 0) {
                None => Some("ROADMAP.md has no open milestone"@),
                Some(f) => if accepted_current(named, ms, f) {
                    None
                } else {
                    Some("STATUS.md names "@ + named + " as current, but the first open milestone in ROADMAP.md is "@ + ms[f].id)
                },
            }
        },
    }
}

/// The index of the first open milestone from `k` on lies in the list, and is open.
proof fn lemma_first_open(ms: Seq<MilestoneView>, k: int)
    requires
        0 <= k,
    ensures
        first_open_from(ms, k) matches Some(f) ==> k <= f < ms.len() && is_open(ms[f]),
    decreases ms.len() - k,
{
    if k < ms.len() && !is_open(ms[k]) {
        lemma_first_open(ms, k + 1);
    }
}

/// The first white-space-separated word of `s`.
fn first_word_of(s: &[char]) -> (w: Option<Vec<char>>)
    ensures
        match w {
            Some(v) => first_word(s@) == Some(v@),
            None => first_word(s@) is None,
        },
{
    let t = trim_start_slice(s);
    if t.len() == 0 {
        return None;
    }
    let mut k: usize = 0;
    while k < t.len() && !is_whitespace(t[k])
        invariant
            0 <= k <= t.len(),
            word_end(t@, 0) == word_end(t@, k as int),
        decreases t.len() - k,
    {
        k += 1;
    }
    let word = copy_chars(&t[0..k]);
    assert(word@ =~= t@.take(k as int));
    Some(word)
}

/// The index of the first open milestone of `ms`, from `k` on.
fn first_open(ms: &Vec<Milestone>, k: usize) -> (f: Option<usize>)
    ensures
        match f {
            Some(i) => first_open_from(milestones_view(ms@), k as int) == Some(i as int),
            None => first_open_from(milestones_view(ms@), k as int) is None,
        },
{
    let ghost mv = milestones_view(ms@);
    let mut i: usize = k;
    while i < ms.len()
        invariant
            k <= i,
            mv == milestones_view(ms@),
            first_open_from(mv, k as int) == first_open_from(mv, i as int),
        decreases ms.len() - i,
    {
        if !ms[i].done && !ms[i].blocked {
            return Some(i);
        }
        i += 1;
    }
    None
}

/// The milestone that the first line of `ls` that names one names as current.
fn named_current(ls: &Vec<Vec<char>>) -> (named: Option<Vec<char>>)
    ensures
        match named {
            Some(w) => named_from(chars_view(ls@), 0) == Some(w@),
            None => named_from(chars_view(ls@), 0) is None,
        },
{
    let marker = chars_of("**Current milestone:**");
    let ghost lv = chars_view(ls@);
    let mut k: usize = 0;
    while k < ls.len()
        invariant
            0 <= k <= ls.len(),
            lv == chars_view(ls@),
            marker@ == "**Current milestone:**"@,
            named_from(lv, 0) == named_from(lv, k as int),
        decreases ls.len() - k,
    {
        let line = ls[k].as_slice();
        assert(line@ == lv[k as int]);
        match find_slice(line, marker.as_slice(), 0) {
            Some(i) => {
                proof {
                    lemma_find_from(line@, marker@, 0);
                    assert(occurs_at(line@, marker@, i as int));
                    assert(i + marker@.len() <= line@.len());
                }
                let n = marker.len();
                assert(n == marker@.len());
                assert(i + n <= line.len());
                let rest = &line[i + n..line.len()];
                assert(rest@ =~= line@.skip(i + marker@.len()));
                let w = first_word_of(rest);
                if w.is_some() {
                    return w;
                }
            },
            None => {},
        }
        k += 1;
    }
    None
}

/// Checks that `STATUS.md`'s `**Current milestone:** M1.2 ...` line names the first milestone of
/// the roadmap that is neither checked off nor blocked. When that milestone is split, its first
/// open increment (`M1.2a`, listed right after it) is accepted too.
pub fn current_milestone_problem(status: &str, roadmap: &str) -> (problem: Option<String>)
    ensures
        match problem {
            Some(p) => current_milestone_spec(status@, roadmap@) == Some(p@),
            None => current_milestone_spec(status@, roadmap@) is None,
        },
{
    let chars = chars_of(status);
    let ls = lines_of(chars.as_slice());
    let named = named_current(&ls);
    let named = match named {
        Some(w) => w,
        None => {
            return Some(String::from_str("STATUS.md has no `**Current milestone:**` line"));
        },
    };
    let ms = milestones(roadmap);
    let ghost mv = milestones_view(ms@);
    let f = match first_open(&ms, 0) {
        Some(f) => f,
        None => {
            return Some(String::from_str("ROADMAP.md has no open milestone"));
        },
    };
    proof {
        lemma_first_open(mv, 0);
    }
    let first = chars_of(ms[f].id.as_str());
    let mut accepted = chars_eq(named.as_slice(), first.as_slice());
    if f + 1 <= ms.len() {
        match first_open(&ms, f + 1) {
            Some(g) => {
                proof {
                    lemma_first_open(mv, f + 1);
                }
                let next = chars_of(ms[g].id.as_str());
                if starts_with_slice(next.as_slice(), first.as_slice()) && next.len() > first.len()
                    && chars_eq(named.as_slice(), next.as_slice()) {
                    accepted = true;
                }
            },
            None => {},
        }
    }
    if accepted {
        None
    } else {
        let mut out = String::from_str("STATUS.md names ");
        let n = string_of(named.as_slice());
        out.append(n.as_str());
        out.append(" as current, but the first open milestone in ROADMAP.md is ");
        out.append(ms[f].id.as_str());
        Some(out)
    }
}

/// Whether no two occurrences of `id` can overlap: no end of it is also its start.
pub open spec fn no_self_overlap(id: Seq<char>) -> bool {
    forall|k: int| 0 < k < id.len() ==> #[trigger] id.skip(k) != id.take(id.len() - k)
}

/// Whether `id` occurs at some place in `text` as a whole token.
pub open spec fn whole_token_somewhere(text: Seq<char>, id: Seq<char>) -> bool {
    exists|at: int| occurs_at(text, id, at) && #[trigger] token_at(text, id, at)
}

/// What the search from `i` finds is a whole token somewhere.
proof fn lemma_token_from_sound(text: Seq<char>, id: Seq<char>, i: int)
    requires
        0 <= i,
        token_from(text, id, i),
    ensures
        whole_token_somewhere(text, id),
    decreases text.len() + 1 - i,
{
    lemma_find_from(text, id, i);
    let at = find_from(text, id, i)->0;
    if !token_at(text, id, at) {
        lemma_token_from_sound(text, id, at + stride(id));
    }
}

/// Two occurrences of an id that cannot overlap itself are at least its length apart.
proof fn lemma_apart(text: Seq<char>, id: Seq<char>, f: int, at: int)
    requires
        no_self_overlap(id),
        occurs_at(text, id, f),
        occurs_at(text, id, at),
        f < at,
    ensures
        f + id.len() <= at,
{
    if at < f + id.len() {
        let k = at - f;
        assert(id.skip(k) =~= id.take(id.len() - k)) by {
            assert forall|m: int| 0 <= m < id.len() - k implies id.skip(k)[m] == id.take(id.len() - k)[m] by {
                assert(text.subrange(f, f + id.len())[k + m] == id[k + m]);
                assert(text.subrange(at, at + id.len())[m] == id[m]);
            }
        }
    }
}

/// A whole token at or after `i` is found by the search from `i`, when the id cannot overlap
/// itself.
proof fn lemma_token_from_complete(text: Seq<char>, id: Seq<char>, i: int, at: int)
    requires
        0 <= i <= at,
        id.len() > 0,
        no_self_overlap(id),
        occurs_at(text, id, at),
        token_at(text, id, at),
    ensures
        token_from(text, id, i),
    decreases at - i,
{
    lemma_find_from(text, id, i);
    let f = find_from(text, id, i)->0;
    if f != at && !token_at(text, id, f) {
        assert(f < at);
        lemma_apart(text, id, f, at);
        lemma_token_from_complete(text, id, f + id.len(), at);
    }
}

/// Whether `id` is a token of `text`: a whole token found is one that occurs there, with no
/// letter or digit just before or after it (`L1` is not found in `L12` or `XL1`); and an id that
/// cannot overlap itself, such as `L1`, is found wherever it stands as a whole token.
pub proof fn lemma_whole_tokens(text: Seq<char>, id: Seq<char>)
    ensures
        has_token_spec(text, id) ==> whole_token_somewhere(text, id),
        id.len() > 0 && no_self_overlap(id) && whole_token_somewhere(text, id) ==> has_token_spec(text, id),
{
    if has_token_spec(text, id) {
        lemma_token_from_sound(text, id, 0);
    }
    if id.len() > 0 && no_self_overlap(id) && whole_token_somewhere(text, id) {
        let at = choose|at: int| occurs_at(text, id, at) && #[trigger] token_at(text, id, at);
        lemma_token_from_complete(text, id, 0, at);
    }
}

/// What one part of a list of problems holds, the whole list holds.
proof fn lemma_held_in_either(a: Seq<Seq<char>>, b: Seq<Seq<char>>, x: Seq<char>)
    ensures
        a.contains(x) ==> (a + b).contains(x),
        b.contains(x) ==> (a + b).contains(x),
{
    if a.contains(x) {
        let i = choose|i: int| 0 <= i < a.len() && a[i] == x;
        assert((a + b)[i] == x);
    }
    if b.contains(x) {
        let i = choose|i: int| 0 <= i < b.len() && b[i] == x;
        assert((a + b)[a.len() + i] == x);
    }
}

/// A problem of one test path of a lesson is among the lesson's test-path problems.
proof fn lemma_test_problem_held(id: Seq<char>, tests: Seq<Seq<char>>, crates: Seq<Seq<char>>, j: int, x: Seq<char>)
    requires
        0 <= j < tests.len(),
        test_path_problem(id, tests[j], crates).contains(x),
    ensures
        test_path_problems(id, tests, crates).contains(x),
    decreases tests.len(),
{
    lemma_held_in_either(test_path_problems(id, tests.drop_last(), crates), test_path_problem(id, tests.last(), crates), x);
    if j < tests.len() - 1 {
        assert(tests.drop_last()[j] == tests[j]);
        lemma_test_problem_held(id, tests.drop_last(), crates, j, x);
    }
}

/// A problem of one lesson is among the problems of all of them.
proof fn lemma_lesson_problem_held(
    lessons: Seq<LessonView>,
    roadmap: Seq<MilestoneView>,
    crates: Seq<Seq<char>>,
    existing: Seq<(Seq<char>, Seq<char>)>,
    i: int,
    x: Seq<char>,
)
    requires
        0 <= i < lessons.len(),
        lesson_problems(lessons[i], roadmap, crates, existing).contains(x),
    ensures
        all_lesson_problems(lessons, roadmap, crates, existing).contains(x),
    decreases lessons.len(),
{
    lemma_held_in_either(
        all_lesson_problems(lessons.drop_last(), roadmap, crates, existing),
        lesson_problems(lessons.last(), roadmap, crates, existing),
        x,
    );
    if i < lessons.len() - 1 {
        assert(lessons.drop_last()[i] == lessons[i]);
        lemma_lesson_problem_held(lessons.drop_last(), roadmap, crates, existing, i, x);
    }
}

/// Every test path of a lesson row that is a snake_case `crate::path::test` path (its segments,
/// split at each `::`, two or more and each of lowercase letters, digits and `_`), but whose first
/// segment, with each `_` made a `-`, is no crate of the workspace, is reported: the lesson's id,
/// the path, and the crate it names.
pub proof fn lemma_unknown_crate_is_reported(
    doc: Seq<char>,
    roadmap: Seq<char>,
    crates: Seq<Seq<char>>,
    existing: Seq<(Seq<char>, Seq<char>)>,
    i: int,
    j: int,
)
    requires
        0 <= i < doc_parse(lines(doc)).1.len(),
        0 <= j < doc_parse(lines(doc)).1[i].tests.len(),
        segments(doc_parse(lines(doc)).1[i].tests[j]).len() >= 2,
        forall|k: int| 0 <= k < segments(doc_parse(lines(doc)).1[i].tests[j]).len() ==> {
            let seg = #[trigger] segments(doc_parse(lines(doc)).1[i].tests[j])[k];
            seg.len() > 0 && forall|m: int| 0 <= m < seg.len() ==> ('a' <= #[trigger] seg[m] <= 'z' || '0' <= seg[m] <= '9' || seg[m] == '_')
        },
        !crates.contains(segments(doc_parse(lines(doc)).1[i].tests[j])[0].map_values(|c: char| if c == '_' { '-' } else { c })),
    ensures
        check_spec(doc, roadmap, crates, existing).contains(
            doc_parse(lines(doc)).1[i].id + ": `"@ + doc_parse(lines(doc)).1[i].tests[j] + "` names no workspace crate `"@
                + segments(doc_parse(lines(doc)).1[i].tests[j])[0].map_values(|c: char| if c == '_' { '-' } else { c }) + "`"@,
        ),
{
    let lessons = doc_parse(lines(doc)).1;
    let l = lessons[i];
    let t = l.tests[j];
    let segs = segments(t);
    let msg = l.id + ": `"@ + t + "` names no workspace crate `"@ + dashed(segs[0]) + "`"@;
    assert forall|k: int| 0 <= k < segs.len() implies is_snake(#[trigger] segs[k]) by {
        assert forall|m: int| 0 <= m < segs[k].len() implies ('a' <= #[trigger] segs[k][m] <= 'z' || is_digit(segs[k][m]) || segs[k][m] == '_') by {
            
        }
    }
    assert(test_path_problem(l.id, t, crates) == seq![msg]);
    assert(seq![msg][0] == msg);
    lemma_test_problem_held(l.id, l.tests, crates, j, msg);
    let rest = milestone_problems(l.id, l.milestones, milestones_spec(roadmap));
    lemma_held_in_either(test_path_problems(l.id, l.tests, crates), rest, msg);
    let owed = match owner_of(l, milestones_spec(roadmap)) {
        Some(owner) => if owner.done { owed_problems(l.id, owner.id, l.tests, existing) } else { Seq::empty() },
        None => Seq::empty(),
    };
    lemma_held_in_either(test_path_problems(l.id, l.tests, crates) + rest, owed, msg);
    lemma_lesson_problem_held(lessons, milestones_spec(roadmap), crates, existing, i, msg);
    let (problems, ls, processes) = doc_parse(lines(doc));
    let problems = if ls.len() == 0 || processes == 0 {
        problems.push("the doc has no lesson rows or no process rows"@)
    } else {
        problems
    };
    lemma_held_in_either(problems, all_lesson_problems(lessons, milestones_spec(roadmap), crates, existing), msg);
}

} // verus!
