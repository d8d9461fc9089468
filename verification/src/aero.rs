//! The drag curves' text, as the aerodynamics fixtures read it.
use vstd::prelude::*;

use crate::text::{chars_eq, chars_of, copy_chars, find, find_slice, lemma_line_alone, lemma_lines_append, lemma_lines_no_newline, lines, lines_of, chars_view, no_newline, push_char, string_of, trim, trim_slice};

verus! {

/// What a row of a curve's text has before its first `,`.
pub open spec fn first_field(line: Seq<char>) -> Seq<char> {
    match find(line, seq![',']) {
        Some(i) => line.take(i),
        None => line,
    }
}

/// The text kept so far, the Mach number of the last row that is not blank, and how many rows
/// were dropped, after `line`: a row that is not blank and repeats that Mach number is dropped.
pub open spec fn mach_step(state: (Seq<char>, Option<Seq<char>>, nat), line: Seq<char>) -> (Seq<char>, Option<Seq<char>>, nat) {
    let (kept, last, dropped) = state;
    let mach = trim(first_field(line));
    let blank = trim(line).len() == 0;
    if !blank && last == Some(mach) {
        (kept, last, dropped + 1)
    } else {
        (kept + line + seq!['\n'], if blank { last } else { Some(mach) }, dropped)
    }
}

/// The rows of a curve's text read one by one.
pub open spec fn mach_fold(ls: Seq<Seq<char>>) -> (Seq<char>, Option<Seq<char>>, nat)
    decreases ls.len(),
{
    if ls.len() == 0 {
        (Seq::empty(), None, 0)
    } else {
        mach_step(mach_fold(ls.drop_last()), ls.last())
    }
}

/// What a row of a curve's text has before its first `,`, trimmed.
fn mach_of(line: &[char]) -> (mach: Vec<char>)
    ensures
        mach@ == trim(first_field(line@)),
{
    let comma = [','];
    assert(comma@ =~= seq![',']);
    match find_slice(line, comma.as_slice(), 0) {
        Some(i) => {
            proof {
                crate::text::lemma_find_from(line@, seq![','], 0);
            }
            let head = &line[0..i];
            assert(head@ =~= line@.take(i as int));
            copy_chars(trim_slice(head))
        },
        None => copy_chars(trim_slice(line)),
    }
}

/// The curve's text with every row whose Mach number repeats the previous row's dropped, and how
/// many were dropped. Unparseable rows are kept for the parser to report.
pub fn first_row_per_mach(text: &str) -> (out: (String, usize))
    ensures
        out.0@ == mach_fold(lines(text@)).0,
        out.1 == mach_fold(lines(text@)).2,
{
    let chars = chars_of(text);
    let ls = lines_of(chars.as_slice());
    let ghost lv = chars_view(ls@);
    let mut kept = String::new();
    let mut last: Option<Vec<char>> = None;
    let mut dropped: usize = 0;
    let mut k: usize = 0;
    assert(lv.take(0) =~= Seq::<Seq<char>>::empty());
    assert(kept@ =~= Seq::<char>::empty());
    while k < ls.len()
        invariant
            0 <= k <= ls.len(),
            lv == chars_view(ls@),
            lv == lines(text@),
            dropped <= k,
            ({
                let (kv, lastv, d) = mach_fold(lv.take(k as int));
                &&& kept@ == kv
                &&& d == dropped
                &&& match last {
                    Some(m) => lastv == Some(m@),
                    None => lastv is None,
                }
            }),
        decreases ls.len() - k,
    {
        let line = ls[k].as_slice();
        assert(lv.take(k + 1).drop_last() =~= lv.take(k as int));
        assert(lv.take(k + 1).last() == line@);
        let mach = mach_of(line);
        let blank = trim_slice(line).len() == 0;
        let repeats = match &last {
            Some(m) => chars_eq(m.as_slice(), mach.as_slice()),
            None => false,
        };
        if !blank && repeats {
            dropped += 1;
        } else {
            let piece = string_of(line);
            kept.append(piece.as_str());
            push_char(&mut kept, '\n');
            if !blank {
                last = Some(mach);
            }
        }
        k += 1;
    }
    assert(lv.take(ls.len() as int) =~= lv);
    (kept, dropped)
}

/// Reading rows without line breaks, the text kept ends each row it keeps with a break, and it
/// has as many lines as rows were kept.
proof fn lemma_fold_lines(ls: Seq<Seq<char>>)
    requires
        forall|k: int| 0 <= k < ls.len() ==> no_newline(#[trigger] ls[k]),
    ensures
        mach_fold(ls).0.len() == 0 || mach_fold(ls).0.last() == '\n',
        lines(mach_fold(ls).0).len() + mach_fold(ls).2 == ls.len(),
    decreases ls.len(),
{
    if ls.len() == 0 {
        assert(lines(Seq::<char>::empty()).len() == 0);
    } else {
        let rest = ls.drop_last();
        assert forall|k: int| 0 <= k < rest.len() implies no_newline(#[trigger] rest[k]) by {
            assert(rest[k] == ls[k]);
        }
        lemma_fold_lines(rest);
        let (kept, last, dropped) = mach_fold(rest);
        let line = ls.last();
        assert(no_newline(ls[ls.len() - 1]));
        let mach = trim(first_field(line));
        let blank = trim(line).len() == 0;
        if !(!blank && last == Some(mach)) {
            let piece = line + seq!['\n'];
            assert(kept + line + seq!['\n'] =~= kept + piece);
            lemma_lines_append(kept, piece);
            lemma_line_alone(line);
        }
    }
}

/// Of a curve's text, the rows kept and the rows dropped are all its rows: the text kept has as
/// many lines as the text had, less those dropped.
pub proof fn lemma_kept_and_dropped_are_the_rows(text: Seq<char>)
    ensures
        lines(mach_fold(lines(text)).0).len() + mach_fold(lines(text)).2 == lines(text).len(),
{
    lemma_lines_no_newline(text);
    lemma_fold_lines(lines(text));
}

} // verus!
