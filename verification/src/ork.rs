//! The survey of `.ork` designs: how it files a design by its extension, the example designs it
//! reads out of OpenRocket's jar, and how it counts each file's reading and judges the survey.
use vstd::prelude::*;

use std::io::Cursor;
use zip::result::ZipError;
use zip::ZipArchive;

use crate::path::{file_name_at, file_name_range};
use crate::text::{find, find_slice, lemma_find_from, name_start, name_start_of, append_decimal, contains, contains_slice, decimal, join, join_strings, strings_view, ascii_lowercase, chars_of, ends_with, ends_with_slice, last_dot, last_dot_of, starts_with, starts_with_slice, string_of, to_ascii_lowercase};

verus! {

/// A design file's extension, as the survey counts it from `Path::extension`: `.` and the
/// extension in ASCII lowercase, or `(none)`. The extension is what follows the last `.` of the
/// path's file name, unless that `.` starts the name; a path with no file name (empty, `/`, or
/// ending in `..`) has none.
pub open spec fn extension_spec(path: Seq<char>) -> Seq<char> {
    match file_name_at(path) {
        None => "(none)"@,
        Some((st, e)) => {
            let name = path.subrange(st, e);
            match last_dot(name) {
                Some(d) => if d > 0 {
                    "."@ + ascii_lowercase(name.skip(d + 1))
                } else {
                    "(none)"@
                },
                None => "(none)"@,
            }
        },
    }
}

/// A design file's extension, lowercase with its dot, or `(none)`.
pub fn extension(name: &str) -> (ext: String)
    ensures
        ext@ == extension_spec(name@),
{
    let p = chars_of(name);
    let (st, e) = match file_name_range(p.as_slice()) {
        Some(range) => range,
        None => {
            return String::from_str("(none)");
        },
    };
    let file = vstd::slice::slice_subrange(p.as_slice(), st, e);
    match last_dot_of(file) {
        Some(d) => {
            if d > 0 {
                let rest = vstd::slice::slice_subrange(file, d + 1, file.len());
                assert(rest@ =~= file@.skip(d + 1));
                let lower = to_ascii_lowercase(rest);
                let mut out = String::from_str(".");
                let s = string_of(lower.as_slice());
                out.append(s.as_str());
                out
            } else {
                String::from_str("(none)")
            }
        },
        None => String::from_str("(none)"),
    }
}

/// A zip archive, read from memory.
#[verifier::external_type_specification]
#[verifier::external_body]
#[verifier::reject_recursive_types(R)]
pub struct ExZipArchive<R>(ZipArchive<R>);

/// Why a zip archive or one of its entries cannot be read.
#[verifier::external_type_specification]
#[verifier::external_body]
pub struct ExZipError(ZipError);

/// Bytes in memory, read as a stream.
#[verifier::external_type_specification]
#[verifier::external_body]
#[verifier::reject_recursive_types(T)]
pub struct ExCursor<T>(Cursor<T>);

/// Why reading a stream failed.
#[verifier::external_type_specification]
#[verifier::external_body]
pub struct ExIoError(std::io::Error);

/// What a zip archive's entry reads as, in order: `None` when `zip::ZipArchive::by_index` refuses
/// it; otherwise its name and, when its content reads to the end, that content.
pub type ZipItem = Option<(Seq<char>, Option<Seq<u8>>)>;

/// What `zip::ZipArchive::new` makes of `bytes`: `None` when it refuses them, and otherwise how
/// each entry of the archive reads, in the order of its central directory. Reading an archive
/// from memory depends on its bytes alone.
pub uninterp spec fn zip_listing(bytes: Seq<u8>) -> Option<Seq<Option<(Seq<char>, Option<Seq<u8>>)>>>;

/// How each entry of an opened archive reads, in order.
pub uninterp spec fn zip_contents(archive: ZipArchive<Cursor<Vec<u8>>>) -> Seq<Option<(Seq<char>, Option<Seq<u8>>)>>;

/// Opens `bytes` as a zip archive: `zip::ZipArchive::new` over a `Cursor` of them, which reads the
/// archive's central directory. It succeeds exactly when the bytes are an archive it reads, and
/// the archive then holds the entries those bytes list. Nothing is claimed of the error.
#[verifier::external_body]
fn zip_open(bytes: Vec<u8>) -> (archive: Result<ZipArchive<Cursor<Vec<u8>>>, ZipError>)
    ensures
        archive is Ok <==> zip_listing(bytes@) is Some,
        archive matches Ok(a) ==> zip_listing(bytes@) == Some(zip_contents(a)),
{
    ZipArchive::new(Cursor::new(bytes))
}

/// How many entries the archive holds: `zip::ZipArchive::len`, the length of its list of files.
#[verifier::external_body]
fn zip_len(archive: &ZipArchive<Cursor<Vec<u8>>>) -> (n: usize)
    ensures
        n == zip_contents(*archive).len(),
{
    archive.len()
}

/// The entry at `index`: `zip::ZipArchive::by_index`, then that entry's name,
/// `zip::read::ZipFile::name`, and its content, decompressed by its `std::io::Read::read_to_end`,
/// which `zip` implements; the error of `by_index` when there is no such entry or it cannot be
/// opened, and that of `read_to_end` beside the name when the content cannot be read. The entry
/// is opened and read in one call, so that the `ZipFile` borrowing the archive never leaves it.
/// `by_index` seeks to the entry from the archive's list of files, which it
/// leaves as it was; what the entry reads as is that list's. Nothing is claimed of the errors.
#[verifier::external_body]
fn zip_entry(archive: &mut ZipArchive<Cursor<Vec<u8>>>, index: usize) -> (entry: Result<(String, Result<Vec<u8>, std::io::Error>), ZipError>)
    ensures
        zip_contents(*final(archive)) == zip_contents(*old(archive)),
        index >= zip_contents(*old(archive)).len() ==> entry is Err,
        index < zip_contents(*old(archive)).len() ==> match entry {
            Err(_) => zip_contents(*old(archive))[index as int] is None,
            Ok((name, read)) => zip_contents(*old(archive))[index as int] == Some((name@, match read {
                Ok(content) => Some(content@),
                Err(_) => None::<Seq<u8>>,
            })),
        },
{
    let mut entry = match archive.by_index(index) {
        Ok(entry) => entry,
        Err(error) => return Err(error),
    };
    let name = entry.name().to_owned();
    let mut content = Vec::new();
    match std::io::Read::read_to_end(&mut entry, &mut content) {
        Ok(_) => Ok((name, Ok(content))),
        Err(error) => Ok((name, Err(error))),
    }
}

/// The text `zip::result::ZipError`'s `Display` gives. Nothing is claimed of it.
#[verifier::external_body]
fn zip_error_text(error: &ZipError) -> (text: String) {
    format!("{error}")
}

/// The text `std::io::Error`'s `Display` gives. Nothing is claimed of it.
#[verifier::external_body]
fn io_error_text(error: &std::io::Error) -> (text: String) {
    format!("{error}")
}

/// Whether an entry of OpenRocket's jar is one of its example designs: under
/// `datafiles/examples/`, and ending in `.ork` in any case.
pub open spec fn is_example_entry(name: Seq<char>) -> bool {
    starts_with(name, "datafiles/examples/"@) && ends_with(ascii_lowercase(name), ".ork"@)
}

/// Whether an entry of OpenRocket's jar is one of its example designs.
pub fn example_entry(name: &str) -> (example: bool)
    ensures
        example == is_example_entry(name@),
{
    let n = chars_of(name);
    let dir = chars_of("datafiles/examples/");
    let ork = chars_of(".ork");
    let lower = to_ascii_lowercase(n.as_slice());
    starts_with_slice(n.as_slice(), dir.as_slice()) && ends_with_slice(lower.as_slice(), ork.as_slice())
}

/// How an example design read out of the jar `jar` is named: the jar, `!`, and its entry.
pub open spec fn example_name(jar: Seq<char>, entry: Seq<char>) -> Seq<char> {
    jar + "!"@ + entry
}

/// Whether `shown` names an example design read out of the jar `jar`.
pub open spec fn names_example(jar: Seq<char>, shown: Seq<char>) -> bool {
    exists|entry: Seq<char>| is_example_entry(entry) && shown == #[trigger] example_name(jar, entry)
}

/// A problem reading the jar `jar`: its name, `: `, and what went wrong.
fn jar_problem(jar: &str, why: String) -> (out: String)
    ensures
        out@ == jar@ + ": "@ + why@,
{
    let mut out = String::from_str(jar);
    out.append(": ");
    out.append(why.as_str());
    out
}

/// The example designs among the first `i` entries of an archive read from the jar `jar`: each
/// example entry named by the jar, `!` and the entry, with its content; or, at the first of them
/// that cannot be read, whose problem it is (the jar's, or the entry's by its name).
pub open spec fn examples_upto(jar: Seq<char>, items: Seq<ZipItem>, i: nat) -> Result<Seq<(Seq<char>, Seq<u8>)>, Seq<char>>
    decreases i,
{
    if i == 0 || i > items.len() {
        Ok(Seq::empty())
    } else {
        match examples_upto(jar, items, (i - 1) as nat) {
            Err(who) => Err(who),
            Ok(found) => match items[i - 1] {
                None => Err(jar),
                Some((name, read)) => if is_example_entry(name) {
                    match read {
                        Some(content) => Ok(found.push((example_name(jar, name), content))),
                        None => Err(name),
                    }
                } else {
                    Ok(found)
                },
            },
        }
    }
}

/// The example designs of the jar `jar` whose bytes are `bytes`, or whose problem it is that they
/// cannot all be read.
pub open spec fn jar_examples(jar: Seq<char>, bytes: Seq<u8>) -> Result<Seq<(Seq<char>, Seq<u8>)>, Seq<char>> {
    match zip_listing(bytes) {
        None => Err(jar),
        Some(items) => examples_upto(jar, items, items.len()),
    }
}

/// The views of named contents.
pub open spec fn named_bytes_view(v: Seq<(String, Vec<u8>)>) -> Seq<(Seq<char>, Seq<u8>)> {
    v.map_values(|e: (String, Vec<u8>)| (e.0@, e.1@))
}

/// The example designs inside OpenRocket's jar, read from its bytes: each entry under
/// `datafiles/examples/` ending in `.ork`, in the archive's order, named by the jar (`jar`, as it
/// is shown), `!` and the entry, with its content. Every entry is opened; the first that cannot be
/// stops the reading, with the jar's name, or the entry's when its content cannot be read, then
/// `: ` and zip's words.
pub fn examples_in_jar(jar: &str, bytes: Vec<u8>) -> (examples: Result<Vec<(String, Vec<u8>)>, String>)
    ensures
        match (examples, jar_examples(jar@, bytes@)) {
            (Ok(v), Ok(w)) => named_bytes_view(v@) == w,
            (Err(e), Err(who)) => starts_with(e@, who + ": "@),
            _ => false,
        },
{
    let ghost listing = zip_listing(bytes@);
    let mut archive = match zip_open(bytes) {
        Ok(archive) => archive,
        Err(error) => {
            let e = jar_problem(jar, zip_error_text(&error));
            assert(starts_with(e@, jar@ + ": "@)) by {
                assert(e@.subrange(0, (jar@ + ": "@).len() as int) =~= jar@ + ": "@);
            }
            return Err(e);
        },
    };
    let ghost items = zip_contents(archive);
    let n = zip_len(&archive);
    let mut examples: Vec<(String, Vec<u8>)> = Vec::new();
    let mut index: usize = 0;
    assert(named_bytes_view(examples@) =~= Seq::<(Seq<char>, Seq<u8>)>::empty());
    assert(jar_examples(jar@, bytes@) == examples_upto(jar@, items, n as nat));
    while index < n
        invariant
            0 <= index <= n,
            n == items.len(),
            jar_examples(jar@, bytes@) == examples_upto(jar@, items, n as nat),
            listing == Some(items),
            zip_contents(archive) == items,
            examples_upto(jar@, items, index as nat) == Ok::<Seq<(Seq<char>, Seq<u8>)>, Seq<char>>(named_bytes_view(examples@)),
        decreases n - index,
    {
        let (name, read) = match zip_entry(&mut archive, index) {
            Ok(entry) => entry,
            Err(error) => {
                let e = jar_problem(jar, zip_error_text(&error));
                assert(examples_upto(jar@, items, (index + 1) as nat) == Err::<Seq<(Seq<char>, Seq<u8>)>, Seq<char>>(jar@));
                proof { lemma_failure_stays(jar@, items, (index + 1) as nat, n as nat); }
                assert(starts_with(e@, jar@ + ": "@)) by {
                    assert(e@.subrange(0, (jar@ + ": "@).len() as int) =~= jar@ + ": "@);
                }
                return Err(e);
            },
        };
        if example_entry(name.as_str()) {
            let content = match read {
                Ok(content) => content,
                Err(error) => {
                    let e = jar_problem(name.as_str(), io_error_text(&error));
                    assert(examples_upto(jar@, items, (index + 1) as nat) == Err::<Seq<(Seq<char>, Seq<u8>)>, Seq<char>>(name@));
                    proof { lemma_failure_stays(jar@, items, (index + 1) as nat, n as nat); }
                    assert(starts_with(e@, name@ + ": "@)) by {
                        assert(e@.subrange(0, (name@ + ": "@).len() as int) =~= name@ + ": "@);
                    }
                    return Err(e);
                },
            };
            let mut shown = String::from_str(jar);
            shown.append("!");
            shown.append(name.as_str());
            assert(shown@ == example_name(jar@, name@));
            let ghost before = examples@;
            examples.push((shown, content));
            assert(named_bytes_view(examples@) =~= named_bytes_view(before).push((example_name(jar@, name@), content@)));
        }
        index += 1;
    }
    Ok(examples)
}

/// Once the reading stops at an entry, it stops there whatever follows.
proof fn lemma_failure_stays(jar: Seq<char>, items: Seq<ZipItem>, i: nat, j: nat)
    requires
        0 < i <= j <= items.len(),
        examples_upto(jar, items, i) is Err,
    ensures
        examples_upto(jar, items, j) == examples_upto(jar, items, i),
    decreases j - i,
{
    if j > i {
        lemma_failure_stays(jar, items, i, (j - 1) as nat);
    }
}

/// Where the survey's per-file detail goes.
pub const REPORT: &'static str = "corpus-out/ork-survey.json";

/// The first file the survey knows not to be well-formed XML.
pub const LOGGED_SAMPLE: &'static str = "refs/fusionspace-loft/e2e/fixtures/logged-sample.ork";

/// Why the first such file is not well-formed.
pub const LOGGED_SAMPLE_REASON: &'static str = "a <databranch> closed with </flightdata> (line 150)";

/// What the error of the first such file must say.
pub const LOGGED_SAMPLE_ERROR: &'static str = "expected 'databranch' tag, not 'flightdata' at 150:";

/// The second file the survey knows not to be well-formed XML.
pub const FALLBACK_CANOPY: &'static str = "refs/fusionspace-loft/e2e/fixtures/fallback-canopy-cd.ork";

/// Why the second such file is not well-formed.
pub const FALLBACK_CANOPY_REASON: &'static str = "a <databranch> closed with </flightdata> (line 153)";

/// What the error of the second such file must say.
pub const FALLBACK_CANOPY_ERROR: &'static str = "expected 'databranch' tag, not 'flightdata' at 153:";

/// A file's name with each `\` read as `/`.
pub open spec fn slashed(name: Seq<char>) -> Seq<char> {
    name.map_values(|c: char| if c == '\\' { '/' } else { c })
}

/// Whether the file `name` is the listed file `path`: its name ends with the path, after nothing
/// or after a `/`.
pub open spec fn is_listed_file(name: Seq<char>, path: Seq<char>) -> bool {
    let s = slashed(name);
    ends_with(s, path) && (s.len() == path.len() || s[s.len() - path.len() - 1] == '/')
}

/// Why the file `name` is listed as not well-formed, and what its error must say, if it is.
pub open spec fn excuse(name: Seq<char>) -> Option<(Seq<char>, Seq<char>)> {
    if is_listed_file(name, LOGGED_SAMPLE@) {
        Some((LOGGED_SAMPLE_REASON@, LOGGED_SAMPLE_ERROR@))
    } else if is_listed_file(name, FALLBACK_CANOPY@) {
        Some((FALLBACK_CANOPY_REASON@, FALLBACK_CANOPY_ERROR@))
    } else {
        None
    }
}

/// Whether the file `name` is the listed file `path`.
fn listed_file(name: &[char], path: &str) -> (listed: bool)
    ensures
        listed == is_listed_file(name@, path@),
{
    let mut s: Vec<char> = Vec::new();
    let mut i: usize = 0;
    while i < name.len()
        invariant
            0 <= i <= name.len(),
            s@ == slashed(name@).take(i as int),
        decreases name.len() - i,
    {
        let c = if name[i] == '\\' { '/' } else { name[i] };
        s.push(c);
        assert(slashed(name@).take(i + 1) =~= slashed(name@).take(i as int).push(c));
        i += 1;
    }
    assert(slashed(name@).take(name.len() as int) =~= slashed(name@));
    let p = chars_of(path);
    if !ends_with_slice(s.as_slice(), p.as_slice()) {
        return false;
    }
    s.len() == p.len() || s[s.len() - p.len() - 1] == '/'
}

/// Why the file `name` is listed as not well-formed, and what its error must say, if it is.
fn excuse_for(name: &str) -> (why: Option<(&'static str, &'static str)>)
    ensures
        match why {
            Some((reason, expected)) => excuse(name@) == Some((reason@, expected@)),
            None => excuse(name@) is None,
        },
{
    let n = chars_of(name);
    if listed_file(n.as_slice(), LOGGED_SAMPLE) {
        Some((LOGGED_SAMPLE_REASON, LOGGED_SAMPLE_ERROR))
    } else if listed_file(n.as_slice(), FALLBACK_CANOPY) {
        Some((FALLBACK_CANOPY_REASON, FALLBACK_CANOPY_ERROR))
    } else {
        None
    }
}

/// How the survey's files read so far: how many there were, how many are the listed files that
/// are not well-formed and fail as listed, how many failed otherwise, how many of those read did
/// not come back unchanged once written, and what shows the list of ill-formed files stale.
pub struct SurveyCounts {
    files: usize,
    not_well_formed: usize,
    failed: usize,
    not_round_tripped: usize,
    stale: Vec<String>,
}

/// What the survey's counts hold.
pub struct SurveyCountsView {
    pub files: nat,
    pub not_well_formed: nat,
    pub failed: nat,
    pub not_round_tripped: nat,
    pub stale: Seq<Seq<char>>,
}

impl View for SurveyCounts {
    type V = SurveyCountsView;

    closed spec fn view(&self) -> SurveyCountsView {
        SurveyCountsView {
            files: self.files as nat,
            not_well_formed: self.not_well_formed as nat,
            failed: self.failed as nat,
            not_round_tripped: self.not_round_tripped as nat,
            stale: strings_view(self.stale@),
        }
    }
}

/// How a file's reading came out: read, and whether it came back unchanged once written and read
/// again; or the reader's error.
pub open spec fn reading_view(read: Result<bool, String>) -> Result<bool, Seq<char>> {
    match read {
        Ok(round_trip) => Ok(round_trip),
        Err(e) => Err(e@),
    }
}

/// The counts with the file `name` counted, whose reading came out as `read`. A listed file that
/// reads, or fails with another error than the one listed, shows the list stale.
pub open spec fn survey_step(v: SurveyCountsView, name: Seq<char>, read: Result<bool, Seq<char>>) -> SurveyCountsView {
    let v = SurveyCountsView { files: v.files + 1, ..v };
    match read {
        Ok(round_trip) => {
            let v = if round_trip { v } else { SurveyCountsView { not_round_tripped: v.not_round_tripped + 1, ..v } };
            match excuse(name) {
                Some((reason, _)) => SurveyCountsView { stale: v.stale.push(name + " reads, though it is listed as "@ + reason), ..v },
                None => v,
            }
        },
        Err(text) => match excuse(name) {
            Some((reason, expected)) => if contains(text, expected) {
                SurveyCountsView { not_well_formed: v.not_well_formed + 1, ..v }
            } else {
                SurveyCountsView {
                    failed: v.failed + 1,
                    stale: v.stale.push(name + " is listed as "@ + reason + ", whose error says `"@ + expected
                        + "`, but it failed with: "@ + text),
                    ..v
                }
            },
            None => SurveyCountsView { failed: v.failed + 1, ..v },
        },
    }
}

/// How many files read.
pub open spec fn read_count(v: SurveyCountsView) -> int {
    v.files - v.failed - v.not_well_formed
}

/// The survey's first line: the files, those read, those written and read back unchanged, those
/// not well-formed, and those that failed.
pub open spec fn survey_line_spec(v: SurveyCountsView) -> Seq<char> {
    decimal(v.files) + " .ork files, "@ + decimal(read_count(v) as nat) + " read, "@
        + decimal((read_count(v) - v.not_round_tripped) as nat) + " written and read back unchanged, "@
        + decimal(v.not_well_formed) + " not well-formed XML, "@ + decimal(v.failed) + " failed"@
}

/// How the survey ends: a stale list of ill-formed files first, then files that could not be read,
/// then files that did not survive being written and read again.
pub open spec fn survey_verdict_spec(v: SurveyCountsView) -> Result<(), Seq<char>> {
    if v.stale.len() > 0 {
        Err("the list of files that are not well-formed XML is out of date:\n  "@ + join(v.stale, "\n  "@))
    } else if v.failed > 0 {
        Err(decimal(v.failed) + " of "@ + decimal(v.files) + " .ork files could not be read; see "@ + REPORT@)
    } else if v.not_round_tripped > 0 {
        Err(decimal(v.not_round_tripped) + " of "@ + decimal(v.files)
            + " .ork files did not survive being written and read again; see "@ + REPORT@)
    } else {
        Ok(())
    }
}

impl SurveyCounts {
    /// Whether each file is counted once: failed, not well-formed, or read, and only a file read
    /// can fail to come back unchanged.
    pub closed spec fn wf(&self) -> bool {
        self.not_well_formed + self.failed + self.not_round_tripped <= self.files
    }

    /// No file counted.
    pub fn new() -> (counts: SurveyCounts)
        ensures
            counts.wf(),
            counts@ == (SurveyCountsView { files: 0, not_well_formed: 0, failed: 0, not_round_tripped: 0, stale: Seq::empty() }),
    {
        let counts = SurveyCounts { files: 0, not_well_formed: 0, failed: 0, not_round_tripped: 0, stale: Vec::new() };
        assert(strings_view(counts.stale@) =~= Seq::<Seq<char>>::empty());
        counts
    }

    /// Counts the file `name`, whose reading came out as `read`: read, with whether it came back
    /// unchanged once written and read again, or the reader's error.
    pub fn count(&mut self, name: &str, read: &Result<bool, String>)
        requires
            old(self).wf(),
            old(self)@.files < usize::MAX,
        ensures
            final(self).wf(),
            final(self)@ == survey_step(old(self)@, name@, reading_view(*read)),
    {
        let ghost before = self@;
        self.files = self.files + 1;
        let excused = excuse_for(name);
        match read {
            Ok(round_trip) => {
                if !*round_trip {
                    self.not_round_tripped = self.not_round_tripped + 1;
                }
                if let Some((reason, _)) = excused {
                    let mut message = String::from_str(name);
                    message.append(" reads, though it is listed as ");
                    message.append(reason);
                    let ghost stale0 = strings_view(self.stale@);
                    self.stale.push(message);
                    assert(strings_view(self.stale@) =~= stale0.push(message@));
                }
            },
            Err(text) => {
                match excused {
                    Some((reason, expected)) => {
                        let t = chars_of(text.as_str());
                        let e = chars_of(expected);
                        if contains_slice(t.as_slice(), e.as_slice()) {
                            self.not_well_formed = self.not_well_formed + 1;
                        } else {
                            self.failed = self.failed + 1;
                            let mut message = String::from_str(name);
                            message.append(" is listed as ");
                            message.append(reason);
                            message.append(", whose error says `");
                            message.append(expected);
                            message.append("`, but it failed with: ");
                            message.append(text.as_str());
                            let ghost stale0 = strings_view(self.stale@);
                            self.stale.push(message);
                            assert(strings_view(self.stale@) =~= stale0.push(message@));
                        }
                    },
                    None => {
                        self.failed = self.failed + 1;
                    },
                }
            },
        }
        assert(self@ == survey_step(before, name@, reading_view(*read)));
    }

    /// The survey's first line.
    pub fn line(&self) -> (text: String)
        requires
            self.wf(),
        ensures
            text@ == survey_line_spec(self@),
    {
        let read = self.files - self.failed - self.not_well_formed;
        let mut out = String::new();
        append_decimal(&mut out, self.files);
        out.append(" .ork files, ");
        append_decimal(&mut out, read);
        out.append(" read, ");
        append_decimal(&mut out, read - self.not_round_tripped);
        out.append(" written and read back unchanged, ");
        append_decimal(&mut out, self.not_well_formed);
        out.append(" not well-formed XML, ");
        append_decimal(&mut out, self.failed);
        out.append(" failed");
        out
    }

    /// How the survey ends: `Ok`, or why it fails.
    pub fn verdict(&self) -> (result: Result<(), String>)
        ensures
            match result {
                Ok(()) => survey_verdict_spec(self@) is Ok,
                Err(e) => survey_verdict_spec(self@) == Err::<(), Seq<char>>(e@),
            },
    {
        if self.stale.len() > 0 {
            let mut out = String::from_str("the list of files that are not well-formed XML is out of date:\n  ");
            let list = join_strings(&self.stale, "\n  ");
            out.append(list.as_str());
            return Err(out);
        }
        if self.failed > 0 {
            let mut out = String::new();
            append_decimal(&mut out, self.failed);
            out.append(" of ");
            append_decimal(&mut out, self.files);
            out.append(" .ork files could not be read; see ");
            out.append(REPORT);
            return Err(out);
        }
        if self.not_round_tripped > 0 {
            let mut out = String::new();
            append_decimal(&mut out, self.not_round_tripped);
            out.append(" of ");
            append_decimal(&mut out, self.files);
            out.append(" .ork files did not survive being written and read again; see ");
            out.append(REPORT);
            return Err(out);
        }
        Ok(())
    }
}

/// How the reader begins the warning for an automatic radius it gave OpenRocket's default radius.
pub const DEFAULT_RADIUS: &'static str = "an automatic radius with no fixed radius anywhere along its chain";

/// Whether a warning of the reader says it gave an automatic radius OpenRocket's default.
pub fn radius_defaulted(message: &str) -> (defaulted: bool)
    ensures
        defaulted == starts_with(message@, DEFAULT_RADIUS@),
{
    let m = chars_of(message);
    let d = chars_of(DEFAULT_RADIUS);
    starts_with_slice(m.as_slice(), d.as_slice())
}

/// The tag a warning's path ends at: its last step, after the last `/`, up to its first `[`
/// (`trapezoidfinset[3]` is the tag `trapezoidfinset`).
pub open spec fn tag_at_spec(at: Seq<char>) -> Seq<char> {
    let step = at.skip(name_start(at));
    match find(step, seq!['[']) {
        Some(i) => step.take(i),
        None => step,
    }
}

/// The tag a warning's path ends at.
pub fn tag_at(at: &str) -> (tag: String)
    ensures
        tag@ == tag_at_spec(at@),
{
    let p = chars_of(at);
    let st = name_start_of(p.as_slice());
    let step = vstd::slice::slice_subrange(p.as_slice(), st, p.len());
    assert(step@ =~= p@.skip(st as int));
    let bracket = ['['];
    assert(bracket@ =~= seq!['[']);
    match find_slice(step, bracket.as_slice(), 0) {
        Some(i) => {
            proof {
                lemma_find_from(step@, seq!['['], 0);
            }
            let head = vstd::slice::slice_subrange(step, 0, i);
            assert(head@ =~= step@.take(i as int));
            string_of(head)
        },
        None => string_of(step),
    }
}

} // verus!
