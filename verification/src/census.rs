//! The accuracy census's command line and the census table that `README.md` and
//! `docs/accuracy.md` show between two marker lines.
//!
//! `census` with no flag prints how the committed reports differ from the accepted census;
//! `--check` fails on any difference; `--accept --reason <why>` writes the census and its outputs.
use vstd::prelude::*;

use crate::text::{contains, ends_with, trim, trim_slice, append_decimal, decimal, chars_of, find_from, lemma_find_from, occurs_at, find_slice, string_of, strings_view, str_eq};

verus! {

/// How the command is used.
pub const USAGE: &'static str = "  census [--check | --accept --reason <why>]
                           The accuracy census of the committed reports, held to the one accepted
                           in validation/reports/census.json. No flag prints the differences;
                           --check fails on any; --accept writes the census, its page, the tables
                           in README.md and docs/accuracy.md and the badge, and needs --reason when
                           a row changed.";

/// The line that opens the census table in a file that shows it.
pub const BEGIN: &'static str = "<!-- census: written by `cargo xtask census --accept` from validation/reports/census.json; do not edit -->";

/// The line that closes it.
pub const END: &'static str = "<!-- census: end -->";

/// What the command line asks for.
pub enum Command {
    /// Print how the committed reports differ from the accepted census.
    Print,
    /// Fail on any difference.
    Check,
    /// Accept the census of the committed reports, for the reason given (empty when none was).
    Accept { reason: String },
}

/// What the command line asks for, with the reason as characters.
pub enum CommandView {
    Print,
    Check,
    Accept(Seq<char>),
}

impl View for Command {
    type V = CommandView;

    open spec fn view(&self) -> CommandView {
        match self {
            Command::Print => CommandView::Print,
            Command::Check => CommandView::Check,
            Command::Accept { reason } => CommandView::Accept(reason@),
        }
    }
}

/// A refusal: why, then how the command is used.
pub open spec fn refused(why: Seq<char>) -> Seq<char> {
    why + "\n\n"@ + USAGE@
}

/// The flags read from `args[i..]`, on top of those already read; or the error that stops the
/// reading: an unknown argument, or `--reason` with no text after it.
pub open spec fn read_flags(
    args: Seq<Seq<char>>,
    i: int,
    check: bool,
    accept: bool,
    reason: Option<Seq<char>>,
) -> Result<(bool, bool, Option<Seq<char>>), Seq<char>>
    decreases args.len() - i,
{
    if i < 0 || i >= args.len() {
        Ok((check, accept, reason))
    } else if args[i] == "--check"@ {
        read_flags(args, i + 1, true, accept, reason)
    } else if args[i] == "--accept"@ {
        read_flags(args, i + 1, check, true, reason)
    } else if args[i] == "--reason"@ {
        if i + 1 < args.len() {
            read_flags(args, i + 2, check, accept, Some(args[i + 1]))
        } else {
            Err(refused("`--reason` needs its text"@))
        }
    } else {
        Err(refused("unknown argument `"@ + args[i] + "`"@))
    }
}

/// What the arguments `args` ask for, or why they are refused.
pub open spec fn command_spec(args: Seq<Seq<char>>) -> Result<CommandView, Seq<char>> {
    match read_flags(args, 0, false, false, None) {
        Err(e) => Err(e),
        Ok((check, accept, reason)) => if check && accept {
            Err(refused("`--check` and `--accept` exclude each other"@))
        } else if reason is Some && !accept {
            Err(refused("`--reason` goes with `--accept`"@))
        } else if check {
            Ok(CommandView::Check)
        } else if accept {
            Ok(CommandView::Accept(
                match reason {
                    Some(r) => r,
                    None => Seq::empty(),
                },
            ))
        } else {
            Ok(CommandView::Print)
        },
    }
}

/// The places of `args`, from `i` on, that the reading takes as flags: each one, but the text
/// after a `--reason`.
pub open spec fn scanned(args: Seq<Seq<char>>, i: int) -> Seq<int>
    decreases args.len() + 1 - i,
{
    if i < 0 || i >= args.len() {
        Seq::empty()
    } else if args[i] == "--reason"@ {
        seq![i] + scanned(args, i + 2)
    } else {
        seq![i] + scanned(args, i + 1)
    }
}

/// Whether the reading of `args` from `i` on takes `flag` somewhere.
pub open spec fn scans(args: Seq<Seq<char>>, i: int, flag: Seq<char>) -> bool {
    exists|k: int| #[trigger] scanned(args, i).contains(k) && args[k] == flag
}

/// Whether the reading of `args` from `i` on meets an argument it does not know.
pub open spec fn stray(args: Seq<Seq<char>>, i: int) -> bool {
    exists|k: int| #[trigger] scanned(args, i).contains(k) && args[k] != "--check"@ && args[k] != "--accept"@
        && args[k] != "--reason"@
}

/// Whether the reading of `args` from `i` on takes a `--reason` that is the last argument.
pub open spec fn dangling(args: Seq<Seq<char>>, i: int) -> bool {
    exists|k: int| #[trigger] scanned(args, i).contains(k) && args[k] == "--reason"@ && k + 1 == args.len()
}

/// The reading from `i` on fails exactly at a stray argument or a last `--reason`, and with a
/// refusal; otherwise each flag is read when it was before or it is taken from `i` on.
proof fn lemma_read_flags(args: Seq<Seq<char>>, i: int, check: bool, accept: bool, reason: Option<Seq<char>>)
    requires
        0 <= i,
    ensures
        read_flags(args, i, check, accept, reason) is Err <==> (stray(args, i) || dangling(args, i)),
        read_flags(args, i, check, accept, reason) matches Err(e) ==> exists|why: Seq<char>| e == refused(why),
        read_flags(args, i, check, accept, reason) matches Ok((c, a, r)) ==> {
            &&& c == (check || scans(args, i, "--check"@))
            &&& a == (accept || scans(args, i, "--accept"@))
            &&& (r is Some) == (reason is Some || scans(args, i, "--reason"@))
        },
    decreases args.len() + 1 - i,
{
    lemma_flags_differ();
    let sc = scanned(args, i);
    if i >= args.len() {
        assert(sc.len() == 0);
        assert(!stray(args, i) && !dangling(args, i));
        assert forall|f: Seq<char>| !scans(args, i, f) by {}
    } else {
        lemma_step(args, i);
        if args[i] == "--check"@ || args[i] == "--accept"@ {
            lemma_read_flags(args, i + 1, check || args[i] == "--check"@, accept || args[i] == "--accept"@, reason);
        } else if args[i] == "--reason"@ {
            if i + 1 < args.len() {
                lemma_read_flags(args, i + 2, check, accept, Some(args[i + 1]));
            } else {
                assert(sc.contains(i));
                assert(dangling(args, i));
            }
        } else {
            assert(sc == seq![i] + scanned(args, i + 1));
            assert(sc[0] == i);
            assert(sc.contains(i));
            assert(stray(args, i));
        }
    }
}

/// Where the reading goes on after the flag at `i`: past the text of a `--reason`.
pub open spec fn after_flag(args: Seq<Seq<char>>, i: int) -> int {
    if args[i] == "--reason"@ { i + 2 } else { i + 1 }
}

/// What the reading takes from `i` on is the argument at `i` and what it takes after it.
proof fn lemma_step(args: Seq<Seq<char>>, i: int)
    requires
        0 <= i < args.len(),
    ensures
        ({
            let next = after_flag(args, i);
            &&& forall|f: Seq<char>| scans(args, i, f) <==> (args[i] == f || scans(args, next, f))
            &&& stray(args, i) <==> ((args[i] != "--check"@ && args[i] != "--accept"@ && args[i] != "--reason"@)
                || stray(args, next))
            &&& dangling(args, i) <==> ((args[i] == "--reason"@ && i + 1 == args.len()) || dangling(args, next))
        }),
{
    let next = after_flag(args, i);
    let sc = scanned(args, i);
    let rest = scanned(args, next);
    assert(sc == seq![i] + rest);
    assert(sc.contains(i)) by { assert(sc[0] == i); }
    assert forall|k: int| #[trigger] sc.contains(k) <==> (k == i || rest.contains(k)) by {
        if sc.contains(k) {
            let j = choose|j: int| 0 <= j < sc.len() && sc[j] == k;
            if j > 0 { assert(rest[j - 1] == k); }
        }
        if rest.contains(k) {
            let j = choose|j: int| 0 <= j < rest.len() && rest[j] == k;
            assert(sc[j + 1] == k);
        }
    }
    assert forall|f: Seq<char>| scans(args, i, f) <==> (args[i] == f || scans(args, next, f)) by {
        if scans(args, i, f) {
            let k = choose|k: int| #[trigger] sc.contains(k) && args[k] == f;
            if k != i { assert(rest.contains(k)); }
        }
        if scans(args, next, f) {
            let k = choose|k: int| #[trigger] rest.contains(k) && args[k] == f;
            assert(sc.contains(k));
        }
    }
    if stray(args, i) {
        let k = choose|k: int| #[trigger] sc.contains(k) && args[k] != "--check"@ && args[k] != "--accept"@ && args[k] != "--reason"@;
        if k != i { assert(rest.contains(k)); }
    }
    if stray(args, next) {
        let k = choose|k: int| #[trigger] rest.contains(k) && args[k] != "--check"@ && args[k] != "--accept"@ && args[k] != "--reason"@;
        assert(sc.contains(k));
    }
    if dangling(args, i) {
        let k = choose|k: int| #[trigger] sc.contains(k) && args[k] == "--reason"@ && k + 1 == args.len();
        if k != i { assert(rest.contains(k)); }
    }
    if dangling(args, next) {
        let k = choose|k: int| #[trigger] rest.contains(k) && args[k] == "--reason"@ && k + 1 == args.len();
        assert(sc.contains(k));
    }
}

/// The three flags differ.
proof fn lemma_flags_differ()
    ensures
        "--check"@ != "--accept"@,
        "--check"@ != "--reason"@,
        "--accept"@ != "--reason"@,
{
    reveal_strlit("--check");
    reveal_strlit("--accept");
    reveal_strlit("--reason");
    assert("--check"@.len() == 7 && "--accept"@.len() == 8);
    assert("--accept"@[2] != "--reason"@[2]);
}

/// `census` refuses its arguments exactly when the reading meets an argument it does not know or a
/// last `--reason`, or takes both `--check` and `--accept`, or a `--reason` without `--accept`;
/// every refusal ends with how the command is used. Otherwise `--check` asks for the check,
/// `--accept` for the acceptance, and nothing for the print.
pub proof fn lemma_when_census_refuses(args: Seq<Seq<char>>)
    ensures
        command_spec(args) is Err <==> (stray(args, 0) || dangling(args, 0)
            || (scans(args, 0, "--check"@) && scans(args, 0, "--accept"@))
            || (scans(args, 0, "--reason"@) && !scans(args, 0, "--accept"@))),
        command_spec(args) matches Err(e) ==> ends_with(e, "\n\n"@ + USAGE@),
        command_spec(args) matches Ok(c) ==> {
            &&& (c is Check <==> scans(args, 0, "--check"@))
            &&& (c is Accept <==> scans(args, 0, "--accept"@))
        },
{
    lemma_read_flags(args, 0, false, false, None);
    assert forall|why: Seq<char>| ends_with(#[trigger] refused(why), "\n\n"@ + USAGE@) by {
        let r = refused(why);
        let tail = "\n\n"@ + USAGE@;
        assert(r =~= why + tail);
        assert(r.subrange(r.len() - tail.len(), r.len() as int) =~= tail);
    }
}

/// A string holding `a`, then `b`, then `c`.
fn concat3(a: &str, b: &str, c: &str) -> (out: String)
    ensures
        out@ == a@ + b@ + c@,
{
    let mut out = String::from_str(a);
    out.append(b);
    out.append(c);
    out
}

/// A refusal: `why`, then how the command is used.
fn refusal(why: &str) -> (out: String)
    ensures
        out@ == refused(why@),
{
    concat3(why, "\n\n", USAGE)
}

/// Reads the command line of `census`: what it asks for, or why it is refused.
pub fn run(args: &[String]) -> (command: Result<Command, String>)
    ensures
        match command {
            Ok(c) => command_spec(strings_view(args@)) == Ok::<CommandView, Seq<char>>(c@),
            Err(e) => command_spec(strings_view(args@)) == Err::<CommandView, Seq<char>>(e@),
        },
{
    let ghost av = strings_view(args@);
    let mut check = false;
    let mut accept = false;
    let mut reason: Option<String> = None;
    let mut i: usize = 0;
    while i < args.len()
        invariant
            0 <= i <= args.len(),
            av == strings_view(args@),
            read_flags(av, 0, false, false, None) == read_flags(
                av,
                i as int,
                check,
                accept,
                match reason {
                    Some(r) => Some(r@),
                    None => None,
                },
            ),
        decreases args.len() - i,
    {
        let arg = args[i].as_str();
        assert(arg@ == av[i as int]);
        if str_eq(arg, "--check") {
            check = true;
            i += 1;
        } else if str_eq(arg, "--accept") {
            accept = true;
            i += 1;
        } else if str_eq(arg, "--reason") {
            if i + 1 < args.len() {
                reason = Some(args[i + 1].clone());
                assert(reason.unwrap()@ == av[i + 1]);
                i += 2;
            } else {
                return Err(refusal("`--reason` needs its text"));
            }
        } else {
            let why = concat3("unknown argument `", arg, "`");
            return Err(refusal(why.as_str()));
        }
    }
    if check && accept {
        return Err(refusal("`--check` and `--accept` exclude each other"));
    }
    if reason.is_some() && !accept {
        return Err(refusal("`--reason` goes with `--accept`"));
    }
    if check {
        Ok(Command::Check)
    } else if accept {
        match reason {
            Some(r) => Ok(Command::Accept { reason: r }),
            None => Ok(Command::Accept { reason: String::new() }),
        }
    } else {
        Ok(Command::Print)
    }
}

/// `text` with what lies from its first [`BEGIN`] to the first [`END`] after it replaced by
/// `block`; refused when there is no such block, or another [`BEGIN`] follows it.
pub open spec fn splice_spec(text: Seq<char>, block: Seq<char>, path: Seq<char>) -> Result<Seq<char>, Seq<char>> {
    let b = BEGIN@;
    let e = END@;
    match find_from(text, b, 0) {
        None => Err(path + " has no census block: add the line `"@ + b + "` and `"@ + e + "`"@),
        Some(start) => match find_from(text, e, start) {
            None => Err(path + ": the census block has no `"@ + e + "`"@),
            Some(at) => {
                let end = at + e.len();
                if find_from(text, b, end) is Some {
                    Err(path + " has two census blocks"@)
                } else {
                    Ok(text.take(start) + block + text.skip(end))
                }
            },
        },
    }
}

/// `text` with what lies from [`BEGIN`] to [`END`] replaced by `block`.
pub fn splice(text: &str, block: &str, path: &str) -> (out: Result<String, String>)
    ensures
        match out {
            Ok(s) => splice_spec(text@, block@, path@) == Ok::<Seq<char>, Seq<char>>(s@),
            Err(e) => splice_spec(text@, block@, path@) == Err::<Seq<char>, Seq<char>>(e@),
        },
        framed(block@) ==> (out matches Ok(s) ==> splice_spec(s@, block@, path@) == Ok::<Seq<char>, Seq<char>>(s@)),
{
    let t = chars_of(text);
    let b = chars_of(BEGIN);
    let e = chars_of(END);
    let start = match find_slice(t.as_slice(), b.as_slice(), 0) {
        Some(start) => start,
        None => {
            let mut m = concat3(path, " has no census block: add the line `", BEGIN);
            m.append("` and `");
            m.append(END);
            m.append("`");
            return Err(m);
        },
    };
    let at = match find_slice(t.as_slice(), e.as_slice(), start) {
        Some(at) => at,
        None => {
            let mut m = concat3(path, ": the census block has no `", END);
            m.append("`");
            return Err(m);
        },
    };
    proof {
        lemma_find_from(t@, e@, start as int);
        assert(occurs_at(t@, e@, at as int));
    }
    let n = e.len();
    assert(at + n <= t.len());
    let end = at + n;
    if find_slice(t.as_slice(), b.as_slice(), end).is_some() {
        let mut m = String::from_str(path);
        m.append(" has two census blocks");
        return Err(m);
    }
    assert(start <= t.len()) by {
        lemma_find_from(t@, b@, 0);
    }
    let head = string_of(&t.as_slice()[0..start]);
    let tail = string_of(&t.as_slice()[end..t.len()]);
    let out = concat3(head.as_str(), block, tail.as_str());
    assert(out@ =~= t@.take(start as int) + block@ + t@.skip(end as int));
    proof {
        if framed(block@) {
            lemma_splice_again_changes_nothing(text@, block@, path@, out@);
        }
    }
    Ok(out)
}

/// What `--check` says when no census was accepted yet.
pub const MISSING_CENSUS: &'static str = "validation/reports/census.json is missing; run `cargo xtask census --accept --reason <why>`";

/// The accepted census `--check` holds the reports to, or, when none was accepted yet, that it
/// is missing.
pub fn accepted_census<T>(accepted: Option<T>) -> (census: Result<T, String>)
    ensures
        match accepted {
            Some(a) => census == Ok::<T, String>(a),
            None => census matches Err(e) && e@ == MISSING_CENSUS@,
        },
{
    match accepted {
        Some(a) => Ok(a),
        None => Err(String::from_str(MISSING_CENSUS)),
    }
}

/// What `--check` says of one output the accepted census writes, if anything: nothing when the
/// committed file holds what the census writes, that it is not what the census writes when it
/// holds something else, and the path and the reading error when it cannot be read.
pub open spec fn output_problem_spec(path: Seq<char>, committed: Result<Seq<char>, Seq<char>>, written: Seq<char>) -> Option<Seq<char>> {
    match committed {
        Ok(c) => if c == written { None } else { Some(path + " is not what the accepted census writes"@) },
        Err(e) => Some(path + ": "@ + e),
    }
}

/// What `--check` says of the output at `path`, given what was read there (its text, or the
/// reading error) and what the accepted census writes there.
pub fn output_problem(path: &str, committed: &Result<String, String>, written: &str) -> (problem: Option<String>)
    ensures
        match problem {
            Some(p) => output_problem_spec(path@, reading_of(*committed), written@) == Some(p@),
            None => output_problem_spec(path@, reading_of(*committed), written@) is None,
        },
{
    match committed {
        Ok(c) => {
            if str_eq(c.as_str(), written) {
                None
            } else {
                let mut out = String::from_str(path);
                out.append(" is not what the accepted census writes");
                Some(out)
            }
        },
        Err(e) => Some(concat3(path, ": ", e.as_str())),
    }
}

/// What was read of a file, as characters: its text, or the reading error.
pub open spec fn reading_of(r: Result<String, String>) -> Result<Seq<char>, Seq<char>> {
    match r {
        Ok(t) => Ok(t@),
        Err(e) => Err(e@),
    }
}

/// `--accept` was asked for rows that differ from the accepted census, with no reason in words.
pub struct NoReason;

/// The reason an acceptance records: when the rows changed, the reason given, which must hold
/// more than white space; when nothing moved, the reason already recorded, or none.
pub open spec fn reason_spec(changed: bool, reason: Seq<char>, previous: Option<Seq<char>>) -> Option<Seq<char>> {
    if changed {
        if trim(reason).len() == 0 { None } else { Some(reason) }
    } else {
        match previous {
            Some(p) => Some(p),
            None => Some(Seq::empty()),
        }
    }
}

/// The reason `--accept` records, given whether the census's rows changed, the reason given
/// (empty when none was), and the reason recorded before, if a census was accepted before; or
/// `NoReason` when rows changed and the reason given is blank.
pub fn accepted_reason(changed: bool, reason: &str, previous: Option<&str>) -> (recorded: Result<String, NoReason>)
    ensures
        match recorded {
            Ok(r) => reason_spec(changed, reason@, opt_str_view(previous)) == Some(r@),
            Err(_) => reason_spec(changed, reason@, opt_str_view(previous)) is None,
        },
{
    if changed {
        let r = chars_of(reason);
        if trim_slice(r.as_slice()).len() == 0 {
            return Err(NoReason);
        }
        Ok(String::from_str(reason))
    } else {
        match previous {
            Some(p) => Ok(String::from_str(p)),
            None => {
                let out = String::new();
                assert(out@ =~= Seq::<char>::empty());
                Ok(out)
            },
        }
    }
}

/// The view of an optional string slice.
pub open spec fn opt_str_view(s: Option<&str>) -> Option<Seq<char>> {
    match s {
        Some(t) => Some(t@),
        None => None,
    }
}

/// The accepted census, as committed.
pub const CENSUS_JSON: &'static str = "validation/reports/census.json";

/// The census table framed by its marker lines, as the files that show it hold it.
pub open spec fn block_spec(table: Seq<char>) -> Seq<char> {
    BEGIN@ + "\n\n"@ + table + "\n"@ + END@
}

/// The census table framed by its marker lines.
pub fn census_block(table: &str) -> (block: String)
    ensures
        block@ == block_spec(table@),
{
    let mut out = String::from_str(BEGIN);
    out.append("\n\n");
    out.append(table);
    out.append("\n");
    out.append(END);
    out
}

/// What `--check` finds wrong, given how many rows differ from the accepted census, how many of
/// them for the worse, and how many outputs are stale.
pub open spec fn verdict_spec(changes: nat, worse: nat, stale: nat) -> Result<(), Seq<char>> {
    let rows = decimal(changes) + " row(s) differ from the accepted census, "@ + decimal(worse)
        + " of them for the worse: a regression beyond its slack fails here. If the change is meant, accept it in writing: "@
        + "`cargo xtask census --accept --reason <why>`, and commit "@ + CENSUS_JSON@;
    let outputs = decimal(stale) + " output(s) are stale: run `cargo xtask census --accept`"@;
    if changes == 0 && stale == 0 {
        Ok(())
    } else if stale == 0 {
        Err(rows)
    } else if changes == 0 {
        Err(outputs)
    } else {
        Err(rows + "; "@ + outputs)
    }
}

/// Fails unless the committed reports hold to the accepted census and every output is what it
/// writes: `changes` rows differ, `worse` of them for the worse, and `stale` outputs are not
/// what the accepted census writes.
pub fn verdict(changes: usize, worse: usize, stale: usize) -> (result: Result<(), String>)
    ensures
        match result {
            Ok(()) => verdict_spec(changes as nat, worse as nat, stale as nat) is Ok,
            Err(e) => verdict_spec(changes as nat, worse as nat, stale as nat) == Err::<(), Seq<char>>(e@),
        },
{
    if changes == 0 && stale == 0 {
        return Ok(());
    }
    let mut out = String::new();
    if changes > 0 {
        append_decimal(&mut out, changes);
        out.append(" row(s) differ from the accepted census, ");
        append_decimal(&mut out, worse);
        out.append(" of them for the worse: a regression beyond its slack fails here. If the change is meant, accept it in writing: ");
        out.append("`cargo xtask census --accept --reason <why>`, and commit ");
        out.append(CENSUS_JSON);
        if stale > 0 {
            out.append("; ");
        }
    }
    if stale > 0 {
        append_decimal(&mut out, stale);
        out.append(" output(s) are stale: run `cargo xtask census --accept`");
    }
    proof {
        let rows = decimal(changes as nat) + " row(s) differ from the accepted census, "@ + decimal(worse as nat)
            + " of them for the worse: a regression beyond its slack fails here. If the change is meant, accept it in writing: "@
            + "`cargo xtask census --accept --reason <why>`, and commit "@ + CENSUS_JSON@;
        let outputs = decimal(stale as nat) + " output(s) are stale: run `cargo xtask census --accept`"@;
        if changes == 0 {
            assert(out@ =~= outputs);
        } else if stale == 0 {
            assert(out@ =~= rows);
        } else {
            assert(out@ =~= rows + "; "@ + outputs);
        }
    }
    Err(out)
}

/// What `find_from` gives when `p` occurs at `k` and nowhere from `i` to `k`.
proof fn lemma_find_first(s: Seq<char>, p: Seq<char>, i: int, k: int)
    requires
        0 <= i <= k,
        occurs_at(s, p, k),
        forall|j: int| i <= j < k ==> !occurs_at(s, p, j),
    ensures
        find_from(s, p, i) == Some(k),
    decreases k - i,
{
    if i < k {
        lemma_find_first(s, p, i + 1, k);
    }
}

/// What `find_from` gives when `p` occurs nowhere from `i` on.
proof fn lemma_find_none(s: Seq<char>, p: Seq<char>, i: int)
    requires
        0 <= i,
        forall|j: int| i <= j ==> !occurs_at(s, p, j),
    ensures
        find_from(s, p, i) is None,
    decreases s.len() + 1 - i,
{
    if i + p.len() <= s.len() {
        lemma_find_none(s, p, i + 1);
    }
}

/// The closing marker holds no line break, and does not occur in the opening one.
proof fn lemma_markers()
    ensures
        END@.len() > 0,
        forall|m: int| 0 <= m < END@.len() ==> END@[m] != '\n',
        forall|i: int| !occurs_at(BEGIN@, END@, i),
{
    reveal_strlit("<!-- census: end -->");
    reveal_strlit("<!-- census: written by `cargo xtask census --accept` from validation/reports/census.json; do not edit -->");
    assert(END@.len() == 20);
    assert forall|i: int| !occurs_at(BEGIN@, END@, i) by {
        if occurs_at(BEGIN@, END@, i) {
            assert(BEGIN@.subrange(i, i + 20)[0] == END@[0]);
            assert(BEGIN@[i] == '<');
            if i > 0 {
                assert(BEGIN@[i] != '<');
            }
            assert(BEGIN@.subrange(i, i + 20)[13] == END@[13]);
        }
    }
}

/// A block of the census: it starts with [`BEGIN`], ends with [`END`], and holds no other
/// [`END`] (the first one in it stands at its very end).
pub open spec fn framed(block: Seq<char>) -> bool {
    &&& occurs_at(block, BEGIN@, 0)
    &&& block.len() >= END@.len()
    &&& find_from(block, END@, 0) == Some(block.len() - END@.len())
}

/// Splicing again what a splice wrote changes nothing, for any block that opens with the opening
/// marker and holds the closing one only at its end.
pub proof fn lemma_splice_again_changes_nothing(text: Seq<char>, block: Seq<char>, path: Seq<char>, written: Seq<char>)
    requires
        splice_spec(text, block, path) == Ok::<Seq<char>, Seq<char>>(written),
        framed(block),
    ensures
        splice_spec(written, block, path) == Ok::<Seq<char>, Seq<char>>(written),
{
    let bg = BEGIN@;
    let e = END@;
    lemma_markers();
    lemma_find_from(text, bg, 0);
    let start = find_from(text, bg, 0)->0;
    lemma_find_from(text, e, start);
    let at = find_from(text, e, start)->0;
    let end = at + e.len();
    lemma_find_from(text, bg, end);
    lemma_find_from(block, e, 0);
    let pre = text.take(start);
    let post = text.skip(end);
    assert(written == pre + block + post);
    let lb = bg.len() as int;
    let le = e.len() as int;
    let n = block.len() as int;
    let end2 = start + n;
    assert forall|m: int| 0 <= m < n implies #[trigger] written[start + m] == block[m] by {}
    assert forall|m: int| 0 <= m < start implies #[trigger] written[m] == text[m] by {}
    assert forall|m: int| end2 <= m < written.len() implies #[trigger] written[m] == text[m - end2 + end] by {}
    // The opening marker first stands where it stood.
    assert(occurs_at(text, bg, start));
    assert(occurs_at(written, bg, start)) by {
        assert(written.subrange(start, start + lb) =~= bg) by {
            assert forall|m: int| 0 <= m < lb implies written.subrange(start, start + lb)[m] == bg[m] by {
                assert(written[start + m] == block[m]);
                assert(block.subrange(0, lb)[m] == bg[m]);
            }
        }
    }
    assert forall|j: int| 0 <= j < start implies !occurs_at(written, bg, j) by {
        if occurs_at(written, bg, j) {
            assert forall|m: int| 0 <= m < lb implies text[j + m] == bg[m] by {
                assert(written.subrange(j, j + lb)[m] == bg[m]);
                if j + m < start {
                    assert(written[j + m] == text[j + m]);
                } else {
                    let r = j + m - start;
                    assert(written[start + r] == block[r]);
                    assert(block.subrange(0, lb)[r] == bg[r]);
                    assert(text.subrange(start, start + lb)[r] == bg[r]);
                }
            }
            assert(text.subrange(j, j + lb) =~= bg);
            assert(occurs_at(text, bg, j));
        }
    }
    lemma_find_first(written, bg, 0, start);
    // The closing marker first stands at the end of the block.
    assert(occurs_at(block, e, n - le));
    assert(occurs_at(written, e, end2 - le)) by {
        assert(written.subrange(end2 - le, end2) =~= e) by {
            assert forall|m: int| 0 <= m < le implies written.subrange(end2 - le, end2)[m] == e[m] by {
                assert(written[start + (n - le + m)] == block[n - le + m]);
                assert(block.subrange(n - le, n)[m] == e[m]);
            }
        }
    }
    assert forall|j: int| start <= j < end2 - le implies !occurs_at(written, e, j) by {
        if occurs_at(written, e, j) {
            let r = j - start;
            assert(block.subrange(r, r + le) =~= e) by {
                assert forall|m: int| 0 <= m < le implies block.subrange(r, r + le)[m] == e[m] by {
                    assert(written.subrange(j, j + le)[m] == e[m]);
                    assert(written[start + (r + m)] == block[r + m]);
                }
            }
            assert(occurs_at(block, e, r));
        }
    }
    lemma_find_first(written, e, start, end2 - le);
    // No opening marker follows.
    assert forall|j: int| end2 <= j implies !occurs_at(written, bg, j) by {
        if occurs_at(written, bg, j) {
            let k = j - end2 + end;
            assert forall|m: int| 0 <= m < lb implies text[k + m] == bg[m] by {
                assert(written.subrange(j, j + lb)[m] == bg[m]);
                assert(written[j + m] == text[j + m - end2 + end]);
            }
            assert(text.subrange(k, k + lb) =~= bg);
            assert(occurs_at(text, bg, k));
        }
    }
    lemma_find_none(written, bg, end2);
    assert(written.take(start) =~= pre);
    assert(written.skip(end2) =~= post);
}

/// The census table framed by its markers is a block of the census, when the table holds no
/// closing marker.
proof fn lemma_block_framed(table: Seq<char>)
    requires
        !contains(table, END@),
    ensures
        framed(block_spec(table)),
{
    let bg = BEGIN@;
    let e = END@;
    let b = block_spec(table);
    reveal_strlit("\n\n");
    reveal_strlit("\n");
    lemma_markers();
    lemma_find_from(table, e, 0);
    let lb = bg.len() as int;
    let lt = table.len() as int;
    let le = e.len() as int;
    assert(b.len() == lb + 3 + lt + le);
    assert forall|m: int| 0 <= m < lb implies #[trigger] b[m] == bg[m] by {}
    assert(b[lb] == '\n' && b[lb + 1] == '\n');
    assert forall|m: int| 0 <= m < lt implies #[trigger] b[lb + 2 + m] == table[m] by {}
    assert(b[lb + 2 + lt] == '\n');
    assert forall|m: int| 0 <= m < le implies #[trigger] b[lb + 3 + lt + m] == e[m] by {}
    assert(b.subrange(0, lb) =~= bg);
    assert(b.subrange(b.len() - le, b.len() as int) =~= e);
    assert forall|r: int| 0 <= r < b.len() - le implies !occurs_at(b, e, r) by {
        if occurs_at(b, e, r) {
            assert forall|m: int| 0 <= m < le implies #[trigger] b[r + m] == e[m] by {
                assert(b.subrange(r, r + le)[m] == e[m]);
            }
            if r + le <= lb {
                assert(bg.subrange(r, r + le) =~= e) by {
                    assert forall|m: int| 0 <= m < le implies bg.subrange(r, r + le)[m] == e[m] by {
                        assert(b[r + m] == e[m]);
                        assert(b[r + m] == bg[r + m]);
                    }
                }
                assert(occurs_at(bg, e, r));
            } else if r <= lb {
                assert(b[r + (lb - r)] == e[lb - r]);
            } else if r == lb + 1 {
                assert(b[r + 0] == e[0]);
            } else if r + le <= lb + 2 + lt {
                let t = r - lb - 2;
                assert(table.subrange(t, t + le) =~= e) by {
                    assert forall|m: int| 0 <= m < le implies table.subrange(t, t + le)[m] == e[m] by {
                        assert(b[r + m] == e[m]);
                        assert(b[lb + 2 + (t + m)] == table[t + m]);
                    }
                }
                assert(occurs_at(table, e, t));
            } else if r <= lb + 2 + lt {
                assert(b[r + (lb + 2 + lt - r)] == e[lb + 2 + lt - r]);
            } else {
                assert(false);
            }
        }
    }
    lemma_find_first(b, e, 0, b.len() - le);
}

/// Splicing again what a splice wrote, with the census table framed by its markers, changes
/// nothing, when the table holds no closing marker: what `--accept` writes into a file is what
/// `--check` finds the accepted census writes there.
pub proof fn lemma_splice_settles(text: Seq<char>, table: Seq<char>, path: Seq<char>, written: Seq<char>)
    requires
        splice_spec(text, block_spec(table), path) == Ok::<Seq<char>, Seq<char>>(written),
        !contains(table, END@),
    ensures
        splice_spec(written, block_spec(table), path) == Ok::<Seq<char>, Seq<char>>(written),
{
    lemma_block_framed(table);
    lemma_splice_again_changes_nothing(text, block_spec(table), path, written);
}

} // verus!
