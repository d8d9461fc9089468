//! The workspace's example programs: what each prints is committed beside it as
//! `<name>.output.txt`, and `--check` fails when an example prints anything else.
use vstd::prelude::*;

use crate::path::{back_end, back_end_of, file_name_at, file_name_range, lead_len, lead_of, push_name, pushed};
use crate::text::{join, join_strings, strings_view, last_dot, last_dot_of, append_decimal, chars_eq, chars_of, chars_view, copy_chars, decimal, lines, lines_of, string_of};

verus! {

/// What an example's output file is called, after the name of its main source file.
pub const OUTPUT_SUFFIX: &'static str = ".output.txt";

/// The stem of a file name: what precedes its last `.`, unless that `.` is its first character
/// (`.bashrc` is its own stem), or the whole name when it has no `.`.
pub open spec fn stem(name: Seq<char>) -> Seq<char> {
    match last_dot(name) {
        Some(d) => if d > 0 { name.take(d) } else { name },
        None => name,
    }
}

/// Where an example's output is committed, as `Path::with_file_name` places it: the source's
/// file name replaced by its stem and [`OUTPUT_SUFFIX`], in the directory that holds it; a path
/// with no file name (such as one ending in `..`) gets [`OUTPUT_SUFFIX`] alone joined on.
pub open spec fn output_path_spec(src_path: Seq<char>) -> Seq<char> {
    let lo = lead_len(src_path);
    match file_name_at(src_path) {
        None => pushed(src_path, OUTPUT_SUFFIX@),
        Some((st, e)) => pushed(
            src_path.take(back_end(src_path, lo, if st > lo { st - 1 } else { lo })),
            stem(src_path.subrange(st, e)) + OUTPUT_SUFFIX@,
        ),
    }
}

/// The stem of a file name.
fn stem_of(name: &[char]) -> (out: Vec<char>)
    ensures
        out@ == stem(name@),
{
    match last_dot_of(name) {
        Some(d) => {
            if d > 0 {
                let head = vstd::slice::slice_subrange(name, 0, d);
                assert(head@ =~= name@.take(d as int));
                copy_chars(head)
            } else {
                copy_chars(name)
            }
        },
        None => copy_chars(name),
    }
}

/// Where an example's output is committed: beside its main source file, `fly.rs` giving
/// `fly.output.txt`.
pub fn output_path(src_path: &str) -> (out: String)
    ensures
        out@ == output_path_spec(src_path@),
{
    let p = chars_of(src_path);
    let ps = p.as_slice();
    let suffix = chars_of(OUTPUT_SUFFIX);
    let lo = lead_of(ps);
    let file = file_name_range(ps);
    match file {
        None => push_name(ps, suffix.as_slice()),
        Some((st, e)) => {
            let par = back_end_of(ps, lo, if st > lo { st - 1 } else { lo });
            let base = vstd::slice::slice_subrange(ps, 0, par);
            assert(base@ =~= ps@.take(par as int));
            let name = vstd::slice::slice_subrange(ps, st, e);
            let mut new_name = stem_of(name);
            let mut k: usize = 0;
            let ghost head = new_name@;
            while k < suffix.len()
                invariant
                    0 <= k <= suffix.len(),
                    new_name@ == head + suffix@.take(k as int),
                decreases suffix.len() - k,
            {
                new_name.push(suffix[k]);
                assert(suffix@.take(k + 1) =~= suffix@.take(k as int).push(suffix@[k as int]));
                k += 1;
            }
            assert(suffix@.take(suffix.len() as int) =~= suffix@);
            push_name(base, new_name.as_slice())
        },
    }
}

/// `s` with each `\r\n` read as `\n`.
pub open spec fn unix_newlines(s: Seq<char>) -> Seq<char>
    decreases s.len(),
{
    if s.len() == 0 {
        s
    } else if s.len() >= 2 && s[0] == '\r' && s[1] == '\n' {
        seq!['\n'] + unix_newlines(s.skip(2))
    } else {
        seq![s[0]] + unix_newlines(s.skip(1))
    }
}

/// Line `n` of `ls`, if it has one.
pub open spec fn line_at(ls: Seq<Seq<char>>, n: int) -> Option<Seq<char>> {
    if 0 <= n < ls.len() {
        Some(ls[n])
    } else {
        None
    }
}

/// The first line, from `n` on, in which `a` and `b` differ.
pub open spec fn first_difference_from(a: Seq<Seq<char>>, b: Seq<Seq<char>>, n: int) -> Option<int>
    decreases a.len() + b.len() - n,
{
    if n < 0 || (n >= a.len() && n >= b.len()) {
        None
    } else if line_at(a, n) != line_at(b, n) {
        Some(n)
    } else {
        first_difference_from(a, b, n + 1)
    }
}

/// How a line is shown in a message: in backticks, or `nothing` when there is none.
pub open spec fn shown(line: Option<Seq<char>>) -> Seq<char> {
    match line {
        Some(l) => "`"@ + l + "`"@,
        None => "nothing"@,
    }
}

/// How what an example printed differs from its committed output, if it does, once each
/// `\r\n` reads as `\n`: the first line that differs, or that only the final newline does.
pub open spec fn difference_spec(committed: Seq<char>, printed: Seq<char>) -> Option<Seq<char>> {
    let c = unix_newlines(committed);
    let p = unix_newlines(printed);
    if c == p {
        None
    } else {
        let ours = lines(c);
        let theirs = lines(p);
        match first_difference_from(ours, theirs, 0) {
            None => Some("the example's output differs from it only in its final newline"@),
            Some(n) => Some(
                "the example's output differs from it at line "@ + decimal((n + 1) as nat)
                    + ": the file has "@ + shown(line_at(ours, n)) + ", the example printed "@
                    + shown(line_at(theirs, n)),
            ),
        }
    }
}

/// `s` with each `\r\n` made a `\n`.
fn to_unix_newlines(s: &[char]) -> (out: Vec<char>)
    ensures
        out@ == unix_newlines(s@),
{
    let mut out: Vec<char> = Vec::new();
    let mut i: usize = 0;
    assert(s@.skip(0) =~= s@);
    while i < s.len()
        invariant
            0 <= i <= s.len(),
            unix_newlines(s@) == out@ + unix_newlines(s@.skip(i as int)),
        decreases s.len() - i,
    {
        let ghost rest = s@.skip(i as int);
        let ghost before = out@;
        if i + 1 < s.len() && s[i] == '\r' && s[i + 1] == '\n' {
            out.push('\n');
            assert(rest.skip(2) =~= s@.skip(i + 2));
            assert(out@ =~= before + seq!['\n']);
            i += 2;
        } else {
            out.push(s[i]);
            assert(rest.skip(1) =~= s@.skip(i + 1));
            assert(out@ =~= before + seq![s@[i as int]]);
            i += 1;
        }
    }
    assert(s@.skip(s.len() as int) =~= Seq::<char>::empty());
    assert(out@ + Seq::<char>::empty() =~= out@);
    out
}

/// Shows a line in a message.
fn show(ls: &Vec<Vec<char>>, n: usize) -> (out: String)
    ensures
        out@ == shown(line_at(chars_view(ls@), n as int)),
{
    if n < ls.len() {
        let mut out = String::from_str("`");
        let l = string_of(ls[n].as_slice());
        out.append(l.as_str());
        out.append("`");
        out
    } else {
        String::from_str("nothing")
    }
}

/// How what an example printed differs from its committed output, if it does (a `\r\n` reads as
/// `\n`).
pub fn difference(committed: &str, printed: &str) -> (diff: Option<String>)
    ensures
        match diff {
            Some(d) => difference_spec(committed@, printed@) == Some(d@),
            None => difference_spec(committed@, printed@) is None,
        },
{
    let a = chars_of(committed);
    let b = chars_of(printed);
    let c = to_unix_newlines(a.as_slice());
    let p = to_unix_newlines(b.as_slice());
    if chars_eq(c.as_slice(), p.as_slice()) {
        return None;
    }
    let ours = lines_of(c.as_slice());
    let theirs = lines_of(p.as_slice());
    let ghost ov = chars_view(ours@);
    let ghost tv = chars_view(theirs@);
    let most = if ours.len() > theirs.len() { ours.len() } else { theirs.len() };
    let mut n: usize = 0;
    while n < most
        invariant
            0 <= n <= most,
            most == if ov.len() > tv.len() { ov.len() } else { tv.len() },
            ov == chars_view(ours@),
            tv == chars_view(theirs@),
            first_difference_from(ov, tv, 0) == first_difference_from(ov, tv, n as int),
            c@ == unix_newlines(committed@),
            p@ == unix_newlines(printed@),
            c@ != p@,
            ov == lines(c@),
            tv == lines(p@),
        decreases most - n,
    {
        let same = n < ours.len() && n < theirs.len() && chars_eq(ours[n].as_slice(), theirs[n].as_slice());
        if !same {
            assert(line_at(ov, n as int) != line_at(tv, n as int));
            let mut out = String::from_str("the example's output differs from it at line ");
            append_decimal(&mut out, n + 1);
            out.append(": the file has ");
            let x = show(&ours, n);
            out.append(x.as_str());
            out.append(", the example printed ");
            let y = show(&theirs, n);
            out.append(y.as_str());
            return Some(out);
        }
        assert(line_at(ov, n as int) == line_at(tv, n as int));
        n += 1;
    }
    Some(String::from_str("the example's output differs from it only in its final newline"))
}

/// What is wrong with an example whose output differs from the committed one, at `shown`.
pub fn stale_output(shown: &str, why: &str) -> (problem: String)
    ensures
        problem@ == shown@ + ": "@ + why@
            + "; if the change is meant, run `cargo xtask examples` to write it, and update the pages that quote it"@,
{
    let mut out = String::from_str(shown);
    out.append(": ");
    out.append(why);
    out.append("; if the change is meant, run `cargo xtask examples` to write it, and update the pages that quote it");
    out
}

/// What is wrong with an example whose committed output, at `shown`, cannot be read.
pub fn unreadable_output(shown: &str, error: &str) -> (problem: String)
    ensures
        problem@ == shown@ + ": can't read it ("@ + error@ + "); run `cargo xtask examples` to write it"@,
{
    let mut out = String::from_str(shown);
    out.append(": can't read it (");
    out.append(error);
    out.append("); run `cargo xtask examples` to write it");
    out
}

/// How running the examples went, given how many there were and the problems found.
pub open spec fn outcome_spec(count: nat, problems: Seq<Seq<char>>) -> Result<(), Seq<char>> {
    if count == 0 {
        Err("no example programs found in the workspace"@)
    } else if problems.len() > 0 {
        Err(decimal(problems.len()) + " problem(s) with the examples:\n  "@ + join(problems, "\n  "@))
    } else {
        Ok(())
    }
}

/// How running the examples went: none found, problems found, or all as committed.
pub fn outcome(count: usize, problems: &Vec<String>) -> (result: Result<(), String>)
    ensures
        match result {
            Ok(()) => outcome_spec(count as nat, strings_view(problems@)) is Ok,
            Err(e) => outcome_spec(count as nat, strings_view(problems@)) == Err::<(), Seq<char>>(e@),
        },
{
    if count == 0 {
        return Err(String::from_str("no example programs found in the workspace"));
    }
    if problems.len() > 0 {
        let mut out = String::new();
        append_decimal(&mut out, problems.len());
        out.append(" problem(s) with the examples:\n  ");
        let list = join_strings(problems, "\n  ");
        out.append(list.as_str());
        return Err(out);
    }
    Ok(())
}

/// An output differs from the committed one exactly when they differ once each `\r\n` reads as
/// `\n`; so an output never differs from itself.
pub proof fn lemma_difference_reads_line_endings_alike(committed: Seq<char>, printed: Seq<char>)
    ensures
        difference_spec(committed, printed) is None <==> unix_newlines(committed) == unix_newlines(printed),
        difference_spec(printed, printed) is None,
{
}

} // verus!
