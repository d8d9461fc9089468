//! Counts of OpenRocket's flights of the design library, split by where each design came from:
//! the private library `refs/loft-fixtures/`, the examples inside OpenRocket's jar, and the rest of
//! `refs/`. A file found twice (the same SHA-256) is counted once per place it was found, and the
//! distinct files are counted too. Only counts are printed: no file name.
use vstd::prelude::*;

use crate::text::{occurs_at, append_decimal, chars_of, contains, contains_slice, decimal, starts_with, starts_with_slice, string_eq, strings_view};

verus! {

/// Designs from the private library.
pub const LIBRARY: &'static str = "refs/loft-fixtures";

/// Designs among OpenRocket's examples.
pub const EXAMPLES: &'static str = "OpenRocket's examples";

/// Designs from anywhere else under `refs/`.
pub const ELSEWHERE: &'static str = "elsewhere under refs/";

/// Where a design in the record came from, by its file.
pub open spec fn source_spec(file: Seq<char>) -> Seq<char> {
    if starts_with(file, "refs/loft-fixtures/"@) {
        LIBRARY@
    } else if contains(file, ".jar!"@) {
        EXAMPLES@
    } else {
        ELSEWHERE@
    }
}

/// Where a design in the record came from.
pub fn source(file: &str) -> (place: &'static str)
    ensures
        place@ == source_spec(file@),
{
    let f = chars_of(file);
    let library = chars_of("refs/loft-fixtures/");
    let jar = chars_of(".jar!");
    if starts_with_slice(f.as_slice(), library.as_slice()) {
        LIBRARY
    } else if contains_slice(f.as_slice(), jar.as_slice()) {
        EXAMPLES
    } else {
        ELSEWHERE
    }
}

/// One configuration's flight in the record, as the counts read it.
#[derive(Clone, Copy)]
pub struct Flight {
    /// Whether the configuration has motors.
    pub has_motors: bool,
    /// Whether OpenRocket refused to simulate it.
    pub refused: bool,
    /// Whether OpenRocket aborted its run.
    pub aborted: bool,
    /// Whether it has a stability margin at rod clearance.
    pub margin: bool,
}

/// A design in the record, as the counts read it.
pub struct Design {
    /// Its file, when the record names one.
    pub file: Option<String>,
    /// Its SHA-256, when the record gives one.
    pub sha256: Option<String>,
    /// Whether the driver failed on it.
    pub driver_error: bool,
    /// Whether OpenRocket refused to open it.
    pub refused: bool,
    /// Its flights, when the record lists them.
    pub flights: Option<Vec<Flight>>,
}

/// What a design holds.
pub struct DesignView {
    pub file: Option<Seq<char>>,
    pub sha256: Option<Seq<char>>,
    pub driver_error: bool,
    pub refused: bool,
    pub flights: Option<Seq<Flight>>,
}

/// The view of an optional string.
pub open spec fn opt_view(s: Option<String>) -> Option<Seq<char>> {
    match s {
        Some(t) => Some(t@),
        None => None,
    }
}

impl View for Design {
    type V = DesignView;

    open spec fn view(&self) -> DesignView {
        DesignView {
            file: opt_view(self.file),
            sha256: opt_view(self.sha256),
            driver_error: self.driver_error,
            refused: self.refused,
            flights: match self.flights {
                Some(v) => Some(v@),
                None => None,
            },
        }
    }
}

/// The record of OpenRocket's flights: its designs, when it lists them.
pub struct Record {
    pub designs: Option<Vec<Design>>,
}

/// The views of a list of designs.
pub open spec fn designs_view(v: Seq<Design>) -> Seq<DesignView> {
    Seq::new(v.len(), |i: int| v[i]@)
}

/// The counts for one source.
#[derive(Debug, PartialEq, Eq, Clone, Copy)]
pub struct Counts {
    /// Design files found.
    pub designs: usize,
    /// Distinct files among them, by SHA-256.
    pub distinct: usize,
    /// Files OpenRocket refused to open.
    pub refused_designs: usize,
    /// Files the driver failed on (a script fault, not a measurement).
    pub driver_errors: usize,
    /// Configurations declared by the files OpenRocket opened.
    pub configurations: usize,
    /// Of those, configurations with no motor, which cannot fly.
    pub no_motor: usize,
    /// Configurations OpenRocket refused to simulate.
    pub refused_flights: usize,
    /// Configurations flown whose run OpenRocket aborted.
    pub aborted: usize,
    /// Configurations flown to the end.
    pub completed: usize,
    /// Of those completed, flights with a stability margin at rod clearance.
    pub with_margin: usize,
    /// Designs with at least one configuration flown to the end.
    pub designs_completed: usize,
}

/// The counts as numbers.
pub struct CountsView {
    pub designs: nat,
    pub distinct: nat,
    pub refused_designs: nat,
    pub driver_errors: nat,
    pub configurations: nat,
    pub no_motor: nat,
    pub refused_flights: nat,
    pub aborted: nat,
    pub completed: nat,
    pub with_margin: nat,
    pub designs_completed: nat,
}

impl View for Counts {
    type V = CountsView;

    open spec fn view(&self) -> CountsView {
        CountsView {
            designs: self.designs as nat,
            distinct: self.distinct as nat,
            refused_designs: self.refused_designs as nat,
            driver_errors: self.driver_errors as nat,
            configurations: self.configurations as nat,
            no_motor: self.no_motor as nat,
            refused_flights: self.refused_flights as nat,
            aborted: self.aborted as nat,
            completed: self.completed as nat,
            with_margin: self.with_margin as nat,
            designs_completed: self.designs_completed as nat,
        }
    }
}

/// No counts yet.
pub open spec fn zero_counts() -> CountsView {
    CountsView {
        designs: 0,
        distinct: 0,
        refused_designs: 0,
        driver_errors: 0,
        configurations: 0,
        no_motor: 0,
        refused_flights: 0,
        aborted: 0,
        completed: 0,
        with_margin: 0,
        designs_completed: 0,
    }
}

/// Whether a flight went to the end.
pub open spec fn completed(f: Flight) -> bool {
    f.has_motors && !f.refused && !f.aborted
}

/// `c` with the flight `f` counted: one configuration more, under the first outcome that holds.
pub open spec fn count_flight(c: CountsView, f: Flight) -> CountsView {
    let c = CountsView { configurations: c.configurations + 1, ..c };
    if !f.has_motors {
        CountsView { no_motor: c.no_motor + 1, ..c }
    } else if f.refused {
        CountsView { refused_flights: c.refused_flights + 1, ..c }
    } else if f.aborted {
        CountsView { aborted: c.aborted + 1, ..c }
    } else {
        CountsView { completed: c.completed + 1, with_margin: if f.margin { c.with_margin + 1 } else { c.with_margin }, ..c }
    }
}

/// `c` with the flights `fs` counted.
pub open spec fn count_flights(c: CountsView, fs: Seq<Flight>) -> CountsView
    decreases fs.len(),
{
    if fs.len() == 0 {
        c
    } else {
        count_flight(count_flights(c, fs.drop_last()), fs.last())
    }
}

/// Whether some flight of `fs` went to the end.
pub open spec fn any_completed(fs: Seq<Flight>) -> bool {
    exists|k: int| 0 <= k < fs.len() && completed(#[trigger] fs[k])
}

/// `c` with the design `d` counted, when it has its flights or was refused or failed.
pub open spec fn count_design(c: CountsView, d: DesignView) -> CountsView {
    let c = CountsView { designs: c.designs + 1, ..c };
    if d.driver_error {
        CountsView { driver_errors: c.driver_errors + 1, ..c }
    } else if d.refused {
        CountsView { refused_designs: c.refused_designs + 1, ..c }
    } else {
        match d.flights {
            Some(fs) => {
                let c = count_flights(c, fs);
                if any_completed(fs) {
                    CountsView { designs_completed: c.designs_completed + 1, ..c }
                } else {
                    c
                }
            },
            None => c,
        }
    }
}

/// Whether a design is counted under `place`.
pub open spec fn at_place(d: DesignView, place: Seq<char>) -> bool {
    match d.file {
        Some(f) => source_spec(f) == place,
        None => false,
    }
}

/// The counts of the designs `ds` under `place`, but the distinct files.
pub open spec fn tally(ds: Seq<DesignView>, place: Seq<char>) -> CountsView
    decreases ds.len(),
{
    if ds.len() == 0 {
        zero_counts()
    } else {
        let c = tally(ds.drop_last(), place);
        if at_place(ds.last(), place) {
            count_design(c, ds.last())
        } else {
            c
        }
    }
}

/// The SHA-256 the record gives for the designs `ds` under `place`, in order.
pub open spec fn shas_at(ds: Seq<DesignView>, place: Seq<char>) -> Seq<Seq<char>>
    decreases ds.len(),
{
    if ds.len() == 0 {
        Seq::empty()
    } else {
        let s = shas_at(ds.drop_last(), place);
        if at_place(ds.last(), place) && ds.last().sha256 is Some {
            s.push(ds.last().sha256->0)
        } else {
            s
        }
    }
}

/// The counts of the designs `ds` under `place`.
pub open spec fn counts_at(ds: Seq<DesignView>, place: Seq<char>) -> CountsView {
    CountsView { distinct: shas_at(ds, place).to_set().len(), ..tally(ds, place) }
}

/// Whether a design stops the counting: it has no file, or OpenRocket opened it and the record
/// lists no flights.
pub open spec fn bad_design(d: DesignView) -> bool {
    d.file is None || (!d.driver_error && !d.refused && d.flights is None)
}

/// What is said of a design that stops the counting.
pub open spec fn design_error(d: DesignView) -> Seq<char> {
    match d.file {
        None => "a design in the record has no `file`"@,
        Some(f) => f + ": opened, but no `flights` list"@,
    }
}

/// The first design, from `i` on, that stops the counting.
pub open spec fn first_bad(ds: Seq<DesignView>, i: int) -> Option<int>
    decreases ds.len() - i,
{
    if i < 0 || i >= ds.len() {
        None
    } else if bad_design(ds[i]) {
        Some(i)
    } else {
        first_bad(ds, i + 1)
    }
}

/// The places, in the order their names sort.
pub open spec fn places() -> Seq<Seq<char>> {
    seq![EXAMPLES@, ELSEWHERE@, LIBRARY@]
}

/// The counts of each place with at least one design, in the order the places' names sort.
pub open spec fn present(ds: Seq<DesignView>) -> Seq<(Seq<char>, CountsView)> {
    let one = |p: Seq<char>| if counts_at(ds, p).designs > 0 { seq![(p, counts_at(ds, p))] } else { Seq::empty() };
    one(EXAMPLES@) + one(ELSEWHERE@) + one(LIBRARY@)
}

/// The record's designs and flights counted by where they came from, or why they cannot be.
pub open spec fn count_spec(designs: Option<Seq<DesignView>>) -> Result<Seq<(Seq<char>, CountsView)>, Seq<char>> {
    match designs {
        None => Err("the record has no `designs` list"@),
        Some(ds) => match first_bad(ds, 0) {
            Some(i) => Err(design_error(ds[i])),
            None => Ok(present(ds)),
        },
    }
}

/// How many designs and flights the designs `ds` hold together.
pub open spec fn size(ds: Seq<DesignView>) -> nat
    decreases ds.len(),
{
    if ds.len() == 0 {
        0
    } else {
        size(ds.drop_last()) + 1 + match ds.last().flights {
            Some(fs) => fs.len(),
            None => 0,
        }
    }
}

/// Every count of `c` is at most `n`.
pub open spec fn bounded(c: CountsView, n: nat) -> bool {
    &&& c.designs <= n
    &&& c.distinct <= n
    &&& c.refused_designs <= n
    &&& c.driver_errors <= n
    &&& c.configurations <= n
    &&& c.no_motor <= n
    &&& c.refused_flights <= n
    &&& c.aborted <= n
    &&& c.completed <= n
    &&& c.with_margin <= n
    &&& c.designs_completed <= n
}

/// The views of a list of counts by place.
pub open spec fn entries_view(v: Seq<(&str, Counts)>) -> Seq<(Seq<char>, CountsView)> {
    Seq::new(v.len(), |i: int| (v[i].0@, v[i].1@))
}

/// How many flights a design lists.
pub open spec fn flight_count(d: DesignView) -> nat {
    match d.flights {
        Some(fs) => fs.len(),
        None => 0,
    }
}

/// The designs of a record, as views.
pub open spec fn record_view(r: Record) -> Option<Seq<DesignView>> {
    match r.designs {
        Some(v) => Some(designs_view(v@)),
        None => None,
    }
}

/// No counts yet.
fn zero() -> (c: Counts)
    ensures
        c@ == zero_counts(),
{
    Counts {
        designs: 0,
        distinct: 0,
        refused_designs: 0,
        driver_errors: 0,
        configurations: 0,
        no_motor: 0,
        refused_flights: 0,
        aborted: 0,
        completed: 0,
        with_margin: 0,
        designs_completed: 0,
    }
}

/// `c` with the flights `fs` counted, and whether one of them went to the end.
fn note_flights(c: Counts, fs: &Vec<Flight>, Ghost(n): Ghost<nat>) -> (out: (Counts, bool))
    requires
        bounded(c@, n),
        n + fs@.len() <= usize::MAX,
    ensures
        out.0@ == count_flights(c@, fs@),
        out.1 == any_completed(fs@),
        bounded(out.0@, n + fs@.len()),
        out.0.designs_completed == c.designs_completed,
{
    let mut c = c;
    let ghost c0 = c@;
    let mut any = false;
    let mut k: usize = 0;
    assert(fs@.take(0) =~= Seq::<Flight>::empty());
    while k < fs.len()
        invariant
            0 <= k <= fs.len(),
            n + fs@.len() <= usize::MAX,
            c@ == count_flights(c0, fs@.take(k as int)),
            bounded(c@, (n + k) as nat),
            any == exists|j: int| 0 <= j < k && completed(#[trigger] fs@[j]),
            c.designs_completed == c0.designs_completed,
        decreases fs.len() - k,
    {
        let f = fs[k];
        assert(fs@.take(k + 1).drop_last() =~= fs@.take(k as int));
        assert(fs@.take(k + 1).last() == f);
        c.configurations = c.configurations + 1;
        if !f.has_motors {
            c.no_motor = c.no_motor + 1;
        } else if f.refused {
            c.refused_flights = c.refused_flights + 1;
        } else if f.aborted {
            c.aborted = c.aborted + 1;
        } else {
            c.completed = c.completed + 1;
            if f.margin {
                c.with_margin = c.with_margin + 1;
            }
            any = true;
            assert(completed(fs@[k as int]));
        }
        k += 1;
    }
    assert(fs@.take(fs.len() as int) =~= fs@);
    (c, any)
}

/// Counts the design `d` into `c`, and its SHA-256 into the distinct ones `found`.
fn note_design(c: &mut Counts, found: &mut Vec<String>, d: &Design, Ghost(n): Ghost<nat>)
    requires
        !bad_design(d@),
        bounded(old(c)@, n),
        n + 1 + flight_count(d@) <= usize::MAX,
        strings_view(old(found)@).no_duplicates(),
    ensures
        final(c)@ == count_design(old(c)@, d@),
        bounded(final(c)@, n + 1 + flight_count(d@)),
        strings_view(final(found)@).no_duplicates(),
        strings_view(final(found)@).to_set() == match d@.sha256 {
            Some(s) => strings_view(old(found)@).to_set().insert(s),
            None => strings_view(old(found)@).to_set(),
        },
{
    let ghost f0 = strings_view(found@);
    match &d.sha256 {
        Some(sha) => {
            let mut k: usize = 0;
            let mut seen = false;
            while k < found.len()
                invariant
                    0 <= k <= found.len(),
                    f0 == strings_view(found@),
                    seen ==> f0.contains(sha@),
                    !seen ==> forall|m: int| 0 <= m < k ==> #[trigger] f0[m] != sha@,
                decreases found.len() - k,
            {
                if string_eq(&found[k], sha) {
                    assert(f0[k as int] == sha@);
                    seen = true;
                }
                k += 1;
            }
            if seen {
                assert(f0.to_set() =~= f0.to_set().insert(sha@));
            } else {
                found.push(String::from_str(sha.as_str()));
                assert(strings_view(found@) =~= f0.push(sha@));
                proof {
                    f0.lemma_push_to_set_commute(sha@);
                    assert forall|a: int, b: int| 0 <= a < b < f0.len() + 1 implies #[trigger] f0.push(sha@)[a] != #[trigger] f0.push(sha@)[b] by {
                        if b < f0.len() {
                            assert(f0[a] != f0[b]);
                        } else {
                            assert(f0[a] != sha@);
                        }
                    }
                }
            }
        },
        None => {},
    }
    c.designs = c.designs + 1;
    if d.driver_error {
        c.driver_errors = c.driver_errors + 1;
    } else if d.refused {
        c.refused_designs = c.refused_designs + 1;
    } else {
        match &d.flights {
            Some(fs) => {
                let (mut counted, any) = note_flights(*c, fs, Ghost(n + 1));
                if any {
                    counted.designs_completed = counted.designs_completed + 1;
                }
                *c = counted;
            },
            None => {},
        }
    }
}

/// Counts the record's designs and flights by [`source`]: one entry for each place a design came
/// from, in the order the places' names sort.
pub fn count(record: &Record) -> (counts: Result<Vec<(&'static str, Counts)>, String>)
    requires
        match record_view(*record) {
            Some(ds) => size(ds) <= usize::MAX,
            None => true,
        },
    ensures
        match counts {
            Ok(v) => count_spec(record_view(*record)) == Ok::<Seq<(Seq<char>, CountsView)>, Seq<char>>(entries_view(v@)),
            Err(e) => count_spec(record_view(*record)) == Err::<Seq<(Seq<char>, CountsView)>, Seq<char>>(e@),
        },
        counts matches Ok(v) ==> designs_total(entries_view(v@)) == record_view(*record)->Some_0.len()
            && forall|k: int| 0 <= k < v@.len() ==> adds_up((#[trigger] entries_view(v@)[k]).1),
{
    let designs = match &record.designs {
        Some(ds) => ds,
        None => {
            return Err(String::from_str("the record has no `designs` list"));
        },
    };
    let ghost ds = designs_view(designs@);
    let mut c0 = zero();
    let mut c1 = zero();
    let mut c2 = zero();
    let mut f0: Vec<String> = Vec::new();
    let mut f1: Vec<String> = Vec::new();
    let mut f2: Vec<String> = Vec::new();
    let mut k: usize = 0;
    assert(ds.take(0) =~= Seq::<DesignView>::empty());
    assert(strings_view(f0@) =~= Seq::<Seq<char>>::empty());
    assert(strings_view(f1@) =~= Seq::<Seq<char>>::empty());
    assert(strings_view(f2@) =~= Seq::<Seq<char>>::empty());
    while k < designs.len()
        invariant
            0 <= k <= designs.len(),
            ds == designs_view(designs@),
            record_view(*record) == Some(ds),
            size(ds) <= usize::MAX,
            first_bad(ds, 0) == first_bad(ds, k as int),
            size(ds.take(k as int)) <= size(ds),
            c0@ == tally(ds.take(k as int), EXAMPLES@),
            c1@ == tally(ds.take(k as int), ELSEWHERE@),
            c2@ == tally(ds.take(k as int), LIBRARY@),
            bounded(c0@, size(ds.take(k as int))),
            bounded(c1@, size(ds.take(k as int))),
            bounded(c2@, size(ds.take(k as int))),
            strings_view(f0@).no_duplicates(),
            strings_view(f1@).no_duplicates(),
            strings_view(f2@).no_duplicates(),
            strings_view(f0@).to_set() == shas_at(ds.take(k as int), EXAMPLES@).to_set(),
            strings_view(f1@).to_set() == shas_at(ds.take(k as int), ELSEWHERE@).to_set(),
            strings_view(f2@).to_set() == shas_at(ds.take(k as int), LIBRARY@).to_set(),
        decreases designs.len() - k,
    {
        let d = &designs[k];
        let ghost dv = ds[k as int];
        assert(d@ == dv);
        let ghost before = ds.take(k as int);
        assert(ds.take(k + 1).drop_last() =~= before);
        assert(ds.take(k + 1).last() == dv);
        proof {
            lemma_size_prefix(ds, k as int);
        }
        let file = match &d.file {
            Some(f) => f,
            None => {
                assert(bad_design(dv));
                assert(first_bad(ds, k as int) == Some(k as int));
                return Err(String::from_str("a design in the record has no `file`"));
            },
        };
        if !d.driver_error && !d.refused && d.flights.is_none() {
            assert(bad_design(dv));
            assert(first_bad(ds, k as int) == Some(k as int));
            let mut e = String::from_str(file.as_str());
            e.append(": opened, but no `flights` list");
            return Err(e);
        }
        let place = source(file.as_str());
        let ghost n = size(before);
        let which = place_index(file.as_str());
        if which == 0 {
            note_design(&mut c0, &mut f0, d, Ghost(n));
        } else if which == 1 {
            note_design(&mut c1, &mut f1, d, Ghost(n));
        } else {
            note_design(&mut c2, &mut f2, d, Ghost(n));
        }
        proof {
            lemma_places_differ();
            let next = ds.take(k + 1);
            assert(size(next) == n + 1 + flight_count(dv));
            assert(shas_at(next, EXAMPLES@).to_set() =~= strings_view(f0@).to_set()) by {
                if which == 0 && dv.sha256 is Some {
                    shas_at(before, EXAMPLES@).lemma_push_to_set_commute(dv.sha256->0);
                }
            }
            assert(shas_at(next, ELSEWHERE@).to_set() =~= strings_view(f1@).to_set()) by {
                if which == 1 && dv.sha256 is Some {
                    shas_at(before, ELSEWHERE@).lemma_push_to_set_commute(dv.sha256->0);
                }
            }
            assert(shas_at(next, LIBRARY@).to_set() =~= strings_view(f2@).to_set()) by {
                if which == 2 && dv.sha256 is Some {
                    shas_at(before, LIBRARY@).lemma_push_to_set_commute(dv.sha256->0);
                }
            }
        }
        k += 1;
    }
    assert(ds.take(designs.len() as int) =~= ds);
    proof {
        strings_view(f0@).unique_seq_to_set();
        strings_view(f1@).unique_seq_to_set();
        strings_view(f2@).unique_seq_to_set();
    }
    c0.distinct = f0.len();
    c1.distinct = f1.len();
    c2.distinct = f2.len();
    let mut out: Vec<(&'static str, Counts)> = Vec::new();
    if c0.designs > 0 {
        out.push((EXAMPLES, c0));
    }
    let ghost o1 = entries_view(out@);
    if c1.designs > 0 {
        out.push((ELSEWHERE, c1));
    }
    let ghost o2 = entries_view(out@);
    if c2.designs > 0 {
        out.push((LIBRARY, c2));
    }
    proof {
        let one = |p: Seq<char>| if counts_at(ds, p).designs > 0 { seq![(p, counts_at(ds, p))] } else { Seq::<(Seq<char>, CountsView)>::empty() };
        assert(o1 =~= one(EXAMPLES@));
        assert(o2 =~= one(EXAMPLES@) + one(ELSEWHERE@));
        assert(entries_view(out@) =~= one(EXAMPLES@) + one(ELSEWHERE@) + one(LIBRARY@));
        lemma_no_bad(ds);
        lemma_every_design_under_one_place(ds);
    }
    Ok(out)
}

/// The size of a prefix of the designs, one design longer.
proof fn lemma_size_prefix(ds: Seq<DesignView>, k: int)
    requires
        0 <= k < ds.len(),
    ensures
        size(ds.take(k + 1)) == size(ds.take(k)) + 1 + flight_count(ds[k]),
        size(ds.take(k + 1)) <= size(ds),
    decreases ds.len() - k,
{
    assert(ds.take(k + 1).drop_last() =~= ds.take(k));
    if k + 1 < ds.len() {
        lemma_size_prefix(ds, k + 1);
    } else {
        assert(ds.take(k + 1) =~= ds);
    }
}

/// The places' names differ.
proof fn lemma_places_differ()
    ensures
        EXAMPLES@ != ELSEWHERE@,
        EXAMPLES@ != LIBRARY@,
        ELSEWHERE@ != LIBRARY@,
{
    reveal_strlit("OpenRocket's examples");
    reveal_strlit("elsewhere under refs/");
    reveal_strlit("refs/loft-fixtures");
    assert(EXAMPLES@[0] != ELSEWHERE@[0]);
    assert(EXAMPLES@[0] != LIBRARY@[0]);
    assert(ELSEWHERE@[0] != LIBRARY@[0]);
}

/// When no design from the end on stops the counting, none does.
proof fn lemma_no_bad(ds: Seq<DesignView>)
    ensures
        first_bad(ds, ds.len() as int) is None,
{
}

/// Which of [`places`] a file's design is counted under.
fn place_index(file: &str) -> (i: usize)
    ensures
        i < 3,
        places()[i as int] == source_spec(file@),
{
    let f = chars_of(file);
    let library = chars_of("refs/loft-fixtures/");
    let jar = chars_of(".jar!");
    if starts_with_slice(f.as_slice(), library.as_slice()) {
        2
    } else if contains_slice(f.as_slice(), jar.as_slice()) {
        0
    } else {
        1
    }
}

/// The counts of one place, as a block of text.
pub open spec fn block(place: Seq<char>, c: CountsView) -> Seq<char> {
    place + ":\n  designs: "@ + decimal(c.designs) + " files ("@ + decimal(c.distinct) + " distinct), "@
        + decimal(c.refused_designs) + " refused by OpenRocket, "@ + decimal(c.driver_errors)
        + " driver errors\n  configurations: "@ + decimal(c.configurations) + " declared, "@
        + decimal(c.no_motor) + " with no motor, "@ + decimal(c.refused_flights) + " refused, "@
        + decimal(c.aborted) + " aborted, "@ + decimal(c.completed) + " flown to the end ("@
        + decimal(c.with_margin) + " with a margin at rod clearance)\n  designs with a flight to the end: "@
        + decimal(c.designs_completed) + "\n"@
}

/// The counts as lines of text, one block per place, in order.
pub open spec fn lines_spec(entries: Seq<(Seq<char>, CountsView)>) -> Seq<char>
    decreases entries.len(),
{
    if entries.len() == 0 {
        Seq::empty()
    } else {
        lines_spec(entries.drop_last()) + block(entries.last().0, entries.last().1)
    }
}

/// The counts of one place, as a block of text.
fn block_text(place: &str, c: Counts) -> (out: String)
    ensures
        out@ == block(place@, c@),
{
    let mut out = String::from_str(place);
    out.append(":\n  designs: ");
    append_decimal(&mut out, c.designs);
    out.append(" files (");
    append_decimal(&mut out, c.distinct);
    out.append(" distinct), ");
    append_decimal(&mut out, c.refused_designs);
    out.append(" refused by OpenRocket, ");
    append_decimal(&mut out, c.driver_errors);
    out.append(" driver errors\n  configurations: ");
    append_decimal(&mut out, c.configurations);
    out.append(" declared, ");
    append_decimal(&mut out, c.no_motor);
    out.append(" with no motor, ");
    append_decimal(&mut out, c.refused_flights);
    out.append(" refused, ");
    append_decimal(&mut out, c.aborted);
    out.append(" aborted, ");
    append_decimal(&mut out, c.completed);
    out.append(" flown to the end (");
    append_decimal(&mut out, c.with_margin);
    out.append(" with a margin at rod clearance)\n  designs with a flight to the end: ");
    append_decimal(&mut out, c.designs_completed);
    out.append("\n");
    out
}

/// The counts as lines of text, one block per source.
pub fn lines(counts: &Vec<(&'static str, Counts)>) -> (out: String)
    ensures
        out@ == lines_spec(entries_view(counts@)),
{
    let ghost ev = entries_view(counts@);
    let mut out = String::new();
    let mut k: usize = 0;
    assert(ev.take(0) =~= Seq::<(Seq<char>, CountsView)>::empty());
    assert(out@ =~= Seq::<char>::empty());
    while k < counts.len()
        invariant
            0 <= k <= counts.len(),
            ev == entries_view(counts@),
            out@ == lines_spec(ev.take(k as int)),
        decreases counts.len() - k,
    {
        let (place, c) = counts[k];
        assert(ev.take(k + 1).drop_last() =~= ev.take(k as int));
        assert(ev.take(k + 1).last() == (place@, c@));
        let text = block_text(place, c);
        out.append(text.as_str());
        assert(out@ =~= lines_spec(ev.take(k as int)) + block(place@, c@));
        k += 1;
    }
    assert(ev.take(counts.len() as int) =~= ev);
    out
}

/// Counting flights keeps each configuration under one outcome: no motor, refused, aborted or
/// flown to the end, and a margin only for one flown to the end.
proof fn lemma_flights_partition(c: CountsView, fs: Seq<Flight>)
    requires
        c.configurations == c.no_motor + c.refused_flights + c.aborted + c.completed,
        c.with_margin <= c.completed,
    ensures
        count_flights(c, fs).configurations == count_flights(c, fs).no_motor + count_flights(c, fs).refused_flights
            + count_flights(c, fs).aborted + count_flights(c, fs).completed,
        count_flights(c, fs).with_margin <= count_flights(c, fs).completed,
        count_flights(c, fs).designs == c.designs,
        count_flights(c, fs).designs_completed == c.designs_completed,
        count_flights(c, fs).driver_errors == c.driver_errors,
        count_flights(c, fs).refused_designs == c.refused_designs,
    decreases fs.len(),
{
    if fs.len() > 0 {
        lemma_flights_partition(c, fs.drop_last());
    }
}

/// Each outcome is counted once under its source: every configuration declared is under one
/// outcome, a margin is counted only for a flight flown to the end, every design is counted once,
/// as failed, refused or opened, and a design flown to the end is one of them.
pub proof fn lemma_each_outcome_counted_once(ds: Seq<DesignView>, place: Seq<char>)
    ensures
        tally(ds, place).configurations == tally(ds, place).no_motor + tally(ds, place).refused_flights
            + tally(ds, place).aborted + tally(ds, place).completed,
        tally(ds, place).with_margin <= tally(ds, place).completed,
        tally(ds, place).driver_errors + tally(ds, place).refused_designs + tally(ds, place).designs_completed
            <= tally(ds, place).designs,
    decreases ds.len(),
{
    if ds.len() > 0 {
        lemma_each_outcome_counted_once(ds.drop_last(), place);
        let c = tally(ds.drop_last(), place);
        let d = ds.last();
        if at_place(d, place) && !d.driver_error && !d.refused {
            match d.flights {
                Some(fs) => {
                    let c1 = CountsView { designs: c.designs + 1, ..c };
                    lemma_flights_partition(c1, fs);
                },
                None => {},
            }
        }
    }
}

/// Counting flights leaves the count of designs as it was.
proof fn lemma_flights_keep_designs(c: CountsView, fs: Seq<Flight>)
    ensures
        count_flights(c, fs).designs == c.designs,
    decreases fs.len(),
{
    if fs.len() > 0 {
        lemma_flights_keep_designs(c, fs.drop_last());
    }
}

/// With no design that stops the counting from `i` on, every design from `i` on has a file.
proof fn lemma_none_bad(ds: Seq<DesignView>, i: int)
    requires
        0 <= i,
        first_bad(ds, i) is None,
    ensures
        forall|k: int| i <= k < ds.len() ==> (#[trigger] ds[k]).file is Some,
    decreases ds.len() - i,
{
    if i < ds.len() {
        lemma_none_bad(ds, i + 1);
    }
}

/// Designs that all have a file are each counted under one of the three places.
proof fn lemma_places_cover(ds: Seq<DesignView>)
    requires
        forall|k: int| 0 <= k < ds.len() ==> (#[trigger] ds[k]).file is Some,
    ensures
        tally(ds, EXAMPLES@).designs + tally(ds, ELSEWHERE@).designs + tally(ds, LIBRARY@).designs == ds.len(),
    decreases ds.len(),
{
    reveal_strlit("refs/loft-fixtures");
    reveal_strlit("OpenRocket's examples");
    reveal_strlit("elsewhere under refs/");
    assert(EXAMPLES@[0] != ELSEWHERE@[0] && EXAMPLES@.len() != LIBRARY@.len() && ELSEWHERE@.len() != LIBRARY@.len());
    if ds.len() > 0 {
        let rest = ds.drop_last();
        assert forall|k: int| 0 <= k < rest.len() implies (#[trigger] rest[k]).file is Some by {
            assert(rest[k] == ds[k]);
        }
        lemma_places_cover(rest);
        let d = ds.last();
        assert(ds[ds.len() - 1].file is Some);
        let places3 = seq![EXAMPLES@, ELSEWHERE@, LIBRARY@];
        assert forall|p: Seq<char>| #[trigger] at_place(d, p) implies
            tally(ds, p).designs == tally(rest, p).designs + 1 by {
            let c = CountsView { designs: tally(rest, p).designs + 1, ..tally(rest, p) };
            match d.flights {
                Some(fs) => lemma_flights_keep_designs(c, fs),
                None => {},
            }
        }
        assert(at_place(d, EXAMPLES@) || at_place(d, ELSEWHERE@) || at_place(d, LIBRARY@));
    }
}

/// The SHA-256 under a place are no more than the designs counted there.
proof fn lemma_shas_within_designs(ds: Seq<DesignView>, place: Seq<char>)
    ensures
        shas_at(ds, place).len() <= tally(ds, place).designs,
    decreases ds.len(),
{
    if ds.len() > 0 {
        let rest = ds.drop_last();
        lemma_shas_within_designs(rest, place);
        let d = ds.last();
        if at_place(d, place) {
            let c = CountsView { designs: tally(rest, place).designs + 1, ..tally(rest, place) };
            match d.flights {
                Some(fs) => lemma_flights_keep_designs(c, fs),
                None => {},
            }
        }
    }
}

/// How many designs the counts of the places hold together.
pub open spec fn designs_total(entries: Seq<(Seq<char>, CountsView)>) -> nat
    decreases entries.len(),
{
    if entries.len() == 0 {
        0
    } else {
        designs_total(entries.drop_last()) + entries.last().1.designs
    }
}

/// Whether the counts of one place add up: every configuration is under one outcome, a margin is
/// counted only for a flight flown to the end, a design is counted once as failed, refused or
/// flown to the end at most, and there are no more distinct files than designs.
pub open spec fn adds_up(c: CountsView) -> bool {
    &&& c.configurations == c.no_motor + c.refused_flights + c.aborted + c.completed
    &&& c.with_margin <= c.completed
    &&& c.driver_errors + c.refused_designs + c.designs_completed <= c.designs
    &&& c.distinct <= c.designs
}

/// Every design of a record that can be counted, however many it holds, is counted under exactly
/// one place: the designs of the places add up to the record's, and the counts of each place add
/// up.
pub proof fn lemma_every_design_under_one_place(ds: Seq<DesignView>)
    requires
        count_spec(Some(ds)) is Ok,
    ensures
        designs_total(count_spec(Some(ds))->Ok_0) == ds.len(),
        forall|k: int| 0 <= k < (count_spec(Some(ds))->Ok_0).len() ==>
            (#[trigger] (count_spec(Some(ds))->Ok_0)[k]).1.distinct <= (count_spec(Some(ds))->Ok_0)[k].1.designs,
        forall|k: int| 0 <= k < (count_spec(Some(ds))->Ok_0).len() ==> adds_up((#[trigger] (count_spec(Some(ds))->Ok_0)[k]).1),
{
    lemma_each_outcome_counted_once(ds, EXAMPLES@);
    lemma_each_outcome_counted_once(ds, ELSEWHERE@);
    lemma_each_outcome_counted_once(ds, LIBRARY@);
    lemma_none_bad(ds, 0);
    lemma_places_cover(ds);
    let ex = counts_at(ds, EXAMPLES@);
    let el = counts_at(ds, ELSEWHERE@);
    let lib = counts_at(ds, LIBRARY@);
    lemma_shas_within_designs(ds, EXAMPLES@);
    lemma_shas_within_designs(ds, ELSEWHERE@);
    lemma_shas_within_designs(ds, LIBRARY@);
    shas_at(ds, EXAMPLES@).lemma_cardinality_of_set();
    shas_at(ds, ELSEWHERE@).lemma_cardinality_of_set();
    shas_at(ds, LIBRARY@).lemma_cardinality_of_set();
    let a: Seq<(Seq<char>, CountsView)> = if ex.designs > 0 { seq![(EXAMPLES@, ex)] } else { Seq::empty() };
    let b: Seq<(Seq<char>, CountsView)> = if el.designs > 0 { seq![(ELSEWHERE@, el)] } else { Seq::empty() };
    let c: Seq<(Seq<char>, CountsView)> = if lib.designs > 0 { seq![(LIBRARY@, lib)] } else { Seq::empty() };
    let entries = count_spec(Some(ds))->Ok_0;
    assert(entries =~= a + b + c);
    assert(designs_total(a) == ex.designs) by {
        if ex.designs > 0 {
            assert(a.drop_last() =~= Seq::<(Seq<char>, CountsView)>::empty());
            assert(designs_total(Seq::<(Seq<char>, CountsView)>::empty()) == 0);
        }
    }
    assert(designs_total(a + b) == ex.designs + el.designs) by {
        if el.designs > 0 {
            assert((a + b).drop_last() =~= a);
        } else {
            assert(a + b =~= a);
        }
    }
    assert(designs_total(a + b + c) == ex.designs + el.designs + lib.designs) by {
        if lib.designs > 0 {
            assert((a + b + c).drop_last() =~= a + b);
        } else {
            assert(a + b + c =~= a + b);
        }
    }
}

/// Whether `p` stands somewhere in `s`.
pub open spec fn stands_in(s: Seq<char>, p: Seq<char>) -> bool {
    exists|i: int| occurs_at(s, p, i)
}

/// What stands between two pieces of text stands in them together.
proof fn lemma_stands(a: Seq<char>, p: Seq<char>, b: Seq<char>)
    ensures
        stands_in(a + p + b, p),
{
    assert((a + p + b).subrange(a.len() as int, (a.len() + p.len()) as int) =~= p);
    assert(occurs_at(a + p + b, p, a.len() as int));
}

/// What stands in a text stands in it with more after it.
proof fn lemma_extend(x: Seq<char>, y: Seq<char>, p: Seq<char>)
    requires
        stands_in(x, p),
    ensures
        stands_in(x + y, p),
{
    let i = choose|i: int| occurs_at(x, p, i);
    assert((x + y).subrange(i, i + p.len()) =~= x.subrange(i, i + p.len()));
    assert(occurs_at(x + y, p, i));
}

/// A count and the words after it stand in a text that ends with them.
proof fn lemma_ends_with(a: Seq<char>, d: Seq<char>, l: Seq<char>)
    ensures
        stands_in(a + d + l, d + l),
{
    assert(a + d + l =~= a + (d + l) + Seq::<char>::empty());
    lemma_stands(a, d + l, Seq::<char>::empty());
}

/// The block gives the count `designs` where its words say.
proof fn lemma_block_designs(place: Seq<char>, c: CountsView)
    ensures
        stands_in(block(place, c), decimal(c.designs) + " files ("@),
{
    let a = place + ":\n  designs: "@;
    lemma_ends_with(a, decimal(c.designs), " files ("@);
    let x = a + decimal(c.designs) + " files ("@;
    lemma_extend(x, decimal(c.distinct), decimal(c.designs) + " files ("@);
    let x = x + decimal(c.distinct);
    lemma_extend(x, " distinct), "@, decimal(c.designs) + " files ("@);
    let x = x + " distinct), "@;
    lemma_extend(x, decimal(c.refused_designs), decimal(c.designs) + " files ("@);
    let x = x + decimal(c.refused_designs);
    lemma_extend(x, " refused by OpenRocket, "@, decimal(c.designs) + " files ("@);
    let x = x + " refused by OpenRocket, "@;
    lemma_extend(x, decimal(c.driver_errors), decimal(c.designs) + " files ("@);
    let x = x + decimal(c.driver_errors);
    lemma_extend(x, " driver errors\n  configurations: "@, decimal(c.designs) + " files ("@);
    let x = x + " driver errors\n  configurations: "@;
    lemma_extend(x, decimal(c.configurations), decimal(c.designs) + " files ("@);
    let x = x + decimal(c.configurations);
    lemma_extend(x, " declared, "@, decimal(c.designs) + " files ("@);
    let x = x + " declared, "@;
    lemma_extend(x, decimal(c.no_motor), decimal(c.designs) + " files ("@);
    let x = x + decimal(c.no_motor);
    lemma_extend(x, " with no motor, "@, decimal(c.designs) + " files ("@);
    let x = x + " with no motor, "@;
    lemma_extend(x, decimal(c.refused_flights), decimal(c.designs) + " files ("@);
    let x = x + decimal(c.refused_flights);
    lemma_extend(x, " refused, "@, decimal(c.designs) + " files ("@);
    let x = x + " refused, "@;
    lemma_extend(x, decimal(c.aborted), decimal(c.designs) + " files ("@);
    let x = x + decimal(c.aborted);
    lemma_extend(x, " aborted, "@, decimal(c.designs) + " files ("@);
    let x = x + " aborted, "@;
    lemma_extend(x, decimal(c.completed), decimal(c.designs) + " files ("@);
    let x = x + decimal(c.completed);
    lemma_extend(x, " flown to the end ("@, decimal(c.designs) + " files ("@);
    let x = x + " flown to the end ("@;
    lemma_extend(x, decimal(c.with_margin), decimal(c.designs) + " files ("@);
    let x = x + decimal(c.with_margin);
    lemma_extend(x, " with a margin at rod clearance)\n  designs with a flight to the end: "@, decimal(c.designs) + " files ("@);
    let x = x + " with a margin at rod clearance)\n  designs with a flight to the end: "@;
    lemma_extend(x, decimal(c.designs_completed), decimal(c.designs) + " files ("@);
    let x = x + decimal(c.designs_completed);
    lemma_extend(x, "\n"@, decimal(c.designs) + " files ("@);
    let x = x + "\n"@;
    assert(x == block(place, c));
}

/// The block gives the count `distinct` where its words say.
proof fn lemma_block_distinct(place: Seq<char>, c: CountsView)
    ensures
        stands_in(block(place, c), decimal(c.distinct) + " distinct), "@),
{
    let a = place + ":\n  designs: "@ + decimal(c.designs) + " files ("@;
    lemma_ends_with(a, decimal(c.distinct), " distinct), "@);
    let x = a + decimal(c.distinct) + " distinct), "@;
    lemma_extend(x, decimal(c.refused_designs), decimal(c.distinct) + " distinct), "@);
    let x = x + decimal(c.refused_designs);
    lemma_extend(x, " refused by OpenRocket, "@, decimal(c.distinct) + " distinct), "@);
    let x = x + " refused by OpenRocket, "@;
    lemma_extend(x, decimal(c.driver_errors), decimal(c.distinct) + " distinct), "@);
    let x = x + decimal(c.driver_errors);
    lemma_extend(x, " driver errors\n  configurations: "@, decimal(c.distinct) + " distinct), "@);
    let x = x + " driver errors\n  configurations: "@;
    lemma_extend(x, decimal(c.configurations), decimal(c.distinct) + " distinct), "@);
    let x = x + decimal(c.configurations);
    lemma_extend(x, " declared, "@, decimal(c.distinct) + " distinct), "@);
    let x = x + " declared, "@;
    lemma_extend(x, decimal(c.no_motor), decimal(c.distinct) + " distinct), "@);
    let x = x + decimal(c.no_motor);
    lemma_extend(x, " with no motor, "@, decimal(c.distinct) + " distinct), "@);
    let x = x + " with no motor, "@;
    lemma_extend(x, decimal(c.refused_flights), decimal(c.distinct) + " distinct), "@);
    let x = x + decimal(c.refused_flights);
    lemma_extend(x, " refused, "@, decimal(c.distinct) + " distinct), "@);
    let x = x + " refused, "@;
    lemma_extend(x, decimal(c.aborted), decimal(c.distinct) + " distinct), "@);
    let x = x + decimal(c.aborted);
    lemma_extend(x, " aborted, "@, decimal(c.distinct) + " distinct), "@);
    let x = x + " aborted, "@;
    lemma_extend(x, decimal(c.completed), decimal(c.distinct) + " distinct), "@);
    let x = x + decimal(c.completed);
    lemma_extend(x, " flown to the end ("@, decimal(c.distinct) + " distinct), "@);
    let x = x + " flown to the end ("@;
    lemma_extend(x, decimal(c.with_margin), decimal(c.distinct) + " distinct), "@);
    let x = x + decimal(c.with_margin);
    lemma_extend(x, " with a margin at rod clearance)\n  designs with a flight to the end: "@, decimal(c.distinct) + " distinct), "@);
    let x = x + " with a margin at rod clearance)\n  designs with a flight to the end: "@;
    lemma_extend(x, decimal(c.designs_completed), decimal(c.distinct) + " distinct), "@);
    let x = x + decimal(c.designs_completed);
    lemma_extend(x, "\n"@, decimal(c.distinct) + " distinct), "@);
    let x = x + "\n"@;
    assert(x == block(place, c));
}

/// The block gives the count `refused_designs` where its words say.
proof fn lemma_block_refused_designs(place: Seq<char>, c: CountsView)
    ensures
        stands_in(block(place, c), decimal(c.refused_designs) + " refused by OpenRocket, "@),
{
    let a = place + ":\n  designs: "@ + decimal(c.designs) + " files ("@ + decimal(c.distinct) + " distinct), "@;
    lemma_ends_with(a, decimal(c.refused_designs), " refused by OpenRocket, "@);
    let x = a + decimal(c.refused_designs) + " refused by OpenRocket, "@;
    lemma_extend(x, decimal(c.driver_errors), decimal(c.refused_designs) + " refused by OpenRocket, "@);
    let x = x + decimal(c.driver_errors);
    lemma_extend(x, " driver errors\n  configurations: "@, decimal(c.refused_designs) + " refused by OpenRocket, "@);
    let x = x + " driver errors\n  configurations: "@;
    lemma_extend(x, decimal(c.configurations), decimal(c.refused_designs) + " refused by OpenRocket, "@);
    let x = x + decimal(c.configurations);
    lemma_extend(x, " declared, "@, decimal(c.refused_designs) + " refused by OpenRocket, "@);
    let x = x + " declared, "@;
    lemma_extend(x, decimal(c.no_motor), decimal(c.refused_designs) + " refused by OpenRocket, "@);
    let x = x + decimal(c.no_motor);
    lemma_extend(x, " with no motor, "@, decimal(c.refused_designs) + " refused by OpenRocket, "@);
    let x = x + " with no motor, "@;
    lemma_extend(x, decimal(c.refused_flights), decimal(c.refused_designs) + " refused by OpenRocket, "@);
    let x = x + decimal(c.refused_flights);
    lemma_extend(x, " refused, "@, decimal(c.refused_designs) + " refused by OpenRocket, "@);
    let x = x + " refused, "@;
    lemma_extend(x, decimal(c.aborted), decimal(c.refused_designs) + " refused by OpenRocket, "@);
    let x = x + decimal(c.aborted);
    lemma_extend(x, " aborted, "@, decimal(c.refused_designs) + " refused by OpenRocket, "@);
    let x = x + " aborted, "@;
    lemma_extend(x, decimal(c.completed), decimal(c.refused_designs) + " refused by OpenRocket, "@);
    let x = x + decimal(c.completed);
    lemma_extend(x, " flown to the end ("@, decimal(c.refused_designs) + " refused by OpenRocket, "@);
    let x = x + " flown to the end ("@;
    lemma_extend(x, decimal(c.with_margin), decimal(c.refused_designs) + " refused by OpenRocket, "@);
    let x = x + decimal(c.with_margin);
    lemma_extend(x, " with a margin at rod clearance)\n  designs with a flight to the end: "@, decimal(c.refused_designs) + " refused by OpenRocket, "@);
    let x = x + " with a margin at rod clearance)\n  designs with a flight to the end: "@;
    lemma_extend(x, decimal(c.designs_completed), decimal(c.refused_designs) + " refused by OpenRocket, "@);
    let x = x + decimal(c.designs_completed);
    lemma_extend(x, "\n"@, decimal(c.refused_designs) + " refused by OpenRocket, "@);
    let x = x + "\n"@;
    assert(x == block(place, c));
}

/// The block gives the count `driver_errors` where its words say.
proof fn lemma_block_driver_errors(place: Seq<char>, c: CountsView)
    ensures
        stands_in(block(place, c), decimal(c.driver_errors) + " driver errors"@),
{
    reveal_strlit(" driver errors\n  configurations: ");
    reveal_strlit(" driver errors");
    reveal_strlit("\n  configurations: ");
    let a = place + ":\n  designs: "@ + decimal(c.designs) + " files ("@ + decimal(c.distinct) + " distinct), "@ + decimal(c.refused_designs) + " refused by OpenRocket, "@;
    lemma_ends_with(a, decimal(c.driver_errors), " driver errors"@);
    lemma_extend(a + decimal(c.driver_errors) + " driver errors"@, "\n  configurations: "@, decimal(c.driver_errors) + " driver errors"@);
    assert(a + decimal(c.driver_errors) + " driver errors\n  configurations: "@ =~= a + decimal(c.driver_errors) + " driver errors"@ + "\n  configurations: "@);
    let x = a + decimal(c.driver_errors) + " driver errors\n  configurations: "@;
    lemma_extend(x, decimal(c.configurations), decimal(c.driver_errors) + " driver errors"@);
    let x = x + decimal(c.configurations);
    lemma_extend(x, " declared, "@, decimal(c.driver_errors) + " driver errors"@);
    let x = x + " declared, "@;
    lemma_extend(x, decimal(c.no_motor), decimal(c.driver_errors) + " driver errors"@);
    let x = x + decimal(c.no_motor);
    lemma_extend(x, " with no motor, "@, decimal(c.driver_errors) + " driver errors"@);
    let x = x + " with no motor, "@;
    lemma_extend(x, decimal(c.refused_flights), decimal(c.driver_errors) + " driver errors"@);
    let x = x + decimal(c.refused_flights);
    lemma_extend(x, " refused, "@, decimal(c.driver_errors) + " driver errors"@);
    let x = x + " refused, "@;
    lemma_extend(x, decimal(c.aborted), decimal(c.driver_errors) + " driver errors"@);
    let x = x + decimal(c.aborted);
    lemma_extend(x, " aborted, "@, decimal(c.driver_errors) + " driver errors"@);
    let x = x + " aborted, "@;
    lemma_extend(x, decimal(c.completed), decimal(c.driver_errors) + " driver errors"@);
    let x = x + decimal(c.completed);
    lemma_extend(x, " flown to the end ("@, decimal(c.driver_errors) + " driver errors"@);
    let x = x + " flown to the end ("@;
    lemma_extend(x, decimal(c.with_margin), decimal(c.driver_errors) + " driver errors"@);
    let x = x + decimal(c.with_margin);
    lemma_extend(x, " with a margin at rod clearance)\n  designs with a flight to the end: "@, decimal(c.driver_errors) + " driver errors"@);
    let x = x + " with a margin at rod clearance)\n  designs with a flight to the end: "@;
    lemma_extend(x, decimal(c.designs_completed), decimal(c.driver_errors) + " driver errors"@);
    let x = x + decimal(c.designs_completed);
    lemma_extend(x, "\n"@, decimal(c.driver_errors) + " driver errors"@);
    let x = x + "\n"@;
    assert(x == block(place, c));
}

/// The block gives the count `configurations` where its words say.
proof fn lemma_block_configurations(place: Seq<char>, c: CountsView)
    ensures
        stands_in(block(place, c), decimal(c.configurations) + " declared, "@),
{
    let a = place + ":\n  designs: "@ + decimal(c.designs) + " files ("@ + decimal(c.distinct) + " distinct), "@ + decimal(c.refused_designs) + " refused by OpenRocket, "@ + decimal(c.driver_errors) + " driver errors\n  configurations: "@;
    lemma_ends_with(a, decimal(c.configurations), " declared, "@);
    let x = a + decimal(c.configurations) + " declared, "@;
    lemma_extend(x, decimal(c.no_motor), decimal(c.configurations) + " declared, "@);
    let x = x + decimal(c.no_motor);
    lemma_extend(x, " with no motor, "@, decimal(c.configurations) + " declared, "@);
    let x = x + " with no motor, "@;
    lemma_extend(x, decimal(c.refused_flights), decimal(c.configurations) + " declared, "@);
    let x = x + decimal(c.refused_flights);
    lemma_extend(x, " refused, "@, decimal(c.configurations) + " declared, "@);
    let x = x + " refused, "@;
    lemma_extend(x, decimal(c.aborted), decimal(c.configurations) + " declared, "@);
    let x = x + decimal(c.aborted);
    lemma_extend(x, " aborted, "@, decimal(c.configurations) + " declared, "@);
    let x = x + " aborted, "@;
    lemma_extend(x, decimal(c.completed), decimal(c.configurations) + " declared, "@);
    let x = x + decimal(c.completed);
    lemma_extend(x, " flown to the end ("@, decimal(c.configurations) + " declared, "@);
    let x = x + " flown to the end ("@;
    lemma_extend(x, decimal(c.with_margin), decimal(c.configurations) + " declared, "@);
    let x = x + decimal(c.with_margin);
    lemma_extend(x, " with a margin at rod clearance)\n  designs with a flight to the end: "@, decimal(c.configurations) + " declared, "@);
    let x = x + " with a margin at rod clearance)\n  designs with a flight to the end: "@;
    lemma_extend(x, decimal(c.designs_completed), decimal(c.configurations) + " declared, "@);
    let x = x + decimal(c.designs_completed);
    lemma_extend(x, "\n"@, decimal(c.configurations) + " declared, "@);
    let x = x + "\n"@;
    assert(x == block(place, c));
}

/// The block gives the count `no_motor` where its words say.
proof fn lemma_block_no_motor(place: Seq<char>, c: CountsView)
    ensures
        stands_in(block(place, c), decimal(c.no_motor) + " with no motor, "@),
{
    let a = place + ":\n  designs: "@ + decimal(c.designs) + " files ("@ + decimal(c.distinct) + " distinct), "@ + decimal(c.refused_designs) + " refused by OpenRocket, "@ + decimal(c.driver_errors) + " driver errors\n  configurations: "@ + decimal(c.configurations) + " declared, "@;
    lemma_ends_with(a, decimal(c.no_motor), " with no motor, "@);
    let x = a + decimal(c.no_motor) + " with no motor, "@;
    lemma_extend(x, decimal(c.refused_flights), decimal(c.no_motor) + " with no motor, "@);
    let x = x + decimal(c.refused_flights);
    lemma_extend(x, " refused, "@, decimal(c.no_motor) + " with no motor, "@);
    let x = x + " refused, "@;
    lemma_extend(x, decimal(c.aborted), decimal(c.no_motor) + " with no motor, "@);
    let x = x + decimal(c.aborted);
    lemma_extend(x, " aborted, "@, decimal(c.no_motor) + " with no motor, "@);
    let x = x + " aborted, "@;
    lemma_extend(x, decimal(c.completed), decimal(c.no_motor) + " with no motor, "@);
    let x = x + decimal(c.completed);
    lemma_extend(x, " flown to the end ("@, decimal(c.no_motor) + " with no motor, "@);
    let x = x + " flown to the end ("@;
    lemma_extend(x, decimal(c.with_margin), decimal(c.no_motor) + " with no motor, "@);
    let x = x + decimal(c.with_margin);
    lemma_extend(x, " with a margin at rod clearance)\n  designs with a flight to the end: "@, decimal(c.no_motor) + " with no motor, "@);
    let x = x + " with a margin at rod clearance)\n  designs with a flight to the end: "@;
    lemma_extend(x, decimal(c.designs_completed), decimal(c.no_motor) + " with no motor, "@);
    let x = x + decimal(c.designs_completed);
    lemma_extend(x, "\n"@, decimal(c.no_motor) + " with no motor, "@);
    let x = x + "\n"@;
    assert(x == block(place, c));
}

/// The block gives the count `refused_flights` where its words say.
proof fn lemma_block_refused_flights(place: Seq<char>, c: CountsView)
    ensures
        stands_in(block(place, c), decimal(c.refused_flights) + " refused, "@),
{
    let a = place + ":\n  designs: "@ + decimal(c.designs) + " files ("@ + decimal(c.distinct) + " distinct), "@ + decimal(c.refused_designs) + " refused by OpenRocket, "@ + decimal(c.driver_errors) + " driver errors\n  configurations: "@ + decimal(c.configurations) + " declared, "@ + decimal(c.no_motor) + " with no motor, "@;
    lemma_ends_with(a, decimal(c.refused_flights), " refused, "@);
    let x = a + decimal(c.refused_flights) + " refused, "@;
    lemma_extend(x, decimal(c.aborted), decimal(c.refused_flights) + " refused, "@);
    let x = x + decimal(c.aborted);
    lemma_extend(x, " aborted, "@, decimal(c.refused_flights) + " refused, "@);
    let x = x + " aborted, "@;
    lemma_extend(x, decimal(c.completed), decimal(c.refused_flights) + " refused, "@);
    let x = x + decimal(c.completed);
    lemma_extend(x, " flown to the end ("@, decimal(c.refused_flights) + " refused, "@);
    let x = x + " flown to the end ("@;
    lemma_extend(x, decimal(c.with_margin), decimal(c.refused_flights) + " refused, "@);
    let x = x + decimal(c.with_margin);
    lemma_extend(x, " with a margin at rod clearance)\n  designs with a flight to the end: "@, decimal(c.refused_flights) + " refused, "@);
    let x = x + " with a margin at rod clearance)\n  designs with a flight to the end: "@;
    lemma_extend(x, decimal(c.designs_completed), decimal(c.refused_flights) + " refused, "@);
    let x = x + decimal(c.designs_completed);
    lemma_extend(x, "\n"@, decimal(c.refused_flights) + " refused, "@);
    let x = x + "\n"@;
    assert(x == block(place, c));
}

/// The block gives the count `aborted` where its words say.
proof fn lemma_block_aborted(place: Seq<char>, c: CountsView)
    ensures
        stands_in(block(place, c), decimal(c.aborted) + " aborted, "@),
{
    let a = place + ":\n  designs: "@ + decimal(c.designs) + " files ("@ + decimal(c.distinct) + " distinct), "@ + decimal(c.refused_designs) + " refused by OpenRocket, "@ + decimal(c.driver_errors) + " driver errors\n  configurations: "@ + decimal(c.configurations) + " declared, "@ + decimal(c.no_motor) + " with no motor, "@ + decimal(c.refused_flights) + " refused, "@;
    lemma_ends_with(a, decimal(c.aborted), " aborted, "@);
    let x = a + decimal(c.aborted) + " aborted, "@;
    lemma_extend(x, decimal(c.completed), decimal(c.aborted) + " aborted, "@);
    let x = x + decimal(c.completed);
    lemma_extend(x, " flown to the end ("@, decimal(c.aborted) + " aborted, "@);
    let x = x + " flown to the end ("@;
    lemma_extend(x, decimal(c.with_margin), decimal(c.aborted) + " aborted, "@);
    let x = x + decimal(c.with_margin);
    lemma_extend(x, " with a margin at rod clearance)\n  designs with a flight to the end: "@, decimal(c.aborted) + " aborted, "@);
    let x = x + " with a margin at rod clearance)\n  designs with a flight to the end: "@;
    lemma_extend(x, decimal(c.designs_completed), decimal(c.aborted) + " aborted, "@);
    let x = x + decimal(c.designs_completed);
    lemma_extend(x, "\n"@, decimal(c.aborted) + " aborted, "@);
    let x = x + "\n"@;
    assert(x == block(place, c));
}

/// The block gives the count `completed` where its words say.
proof fn lemma_block_completed(place: Seq<char>, c: CountsView)
    ensures
        stands_in(block(place, c), decimal(c.completed) + " flown to the end ("@),
{
    let a = place + ":\n  designs: "@ + decimal(c.designs) + " files ("@ + decimal(c.distinct) + " distinct), "@ + decimal(c.refused_designs) + " refused by OpenRocket, "@ + decimal(c.driver_errors) + " driver errors\n  configurations: "@ + decimal(c.configurations) + " declared, "@ + decimal(c.no_motor) + " with no motor, "@ + decimal(c.refused_flights) + " refused, "@ + decimal(c.aborted) + " aborted, "@;
    lemma_ends_with(a, decimal(c.completed), " flown to the end ("@);
    let x = a + decimal(c.completed) + " flown to the end ("@;
    lemma_extend(x, decimal(c.with_margin), decimal(c.completed) + " flown to the end ("@);
    let x = x + decimal(c.with_margin);
    lemma_extend(x, " with a margin at rod clearance)\n  designs with a flight to the end: "@, decimal(c.completed) + " flown to the end ("@);
    let x = x + " with a margin at rod clearance)\n  designs with a flight to the end: "@;
    lemma_extend(x, decimal(c.designs_completed), decimal(c.completed) + " flown to the end ("@);
    let x = x + decimal(c.designs_completed);
    lemma_extend(x, "\n"@, decimal(c.completed) + " flown to the end ("@);
    let x = x + "\n"@;
    assert(x == block(place, c));
}

/// The block gives the count `with_margin` where its words say.
proof fn lemma_block_with_margin(place: Seq<char>, c: CountsView)
    ensures
        stands_in(block(place, c), decimal(c.with_margin) + " with a margin at rod clearance)"@),
{
    reveal_strlit(" with a margin at rod clearance)\n  designs with a flight to the end: ");
    reveal_strlit(" with a margin at rod clearance)");
    reveal_strlit("\n  designs with a flight to the end: ");
    let a = place + ":\n  designs: "@ + decimal(c.designs) + " files ("@ + decimal(c.distinct) + " distinct), "@ + decimal(c.refused_designs) + " refused by OpenRocket, "@ + decimal(c.driver_errors) + " driver errors\n  configurations: "@ + decimal(c.configurations) + " declared, "@ + decimal(c.no_motor) + " with no motor, "@ + decimal(c.refused_flights) + " refused, "@ + decimal(c.aborted) + " aborted, "@ + decimal(c.completed) + " flown to the end ("@;
    lemma_ends_with(a, decimal(c.with_margin), " with a margin at rod clearance)"@);
    lemma_extend(a + decimal(c.with_margin) + " with a margin at rod clearance)"@, "\n  designs with a flight to the end: "@, decimal(c.with_margin) + " with a margin at rod clearance)"@);
    assert(a + decimal(c.with_margin) + " with a margin at rod clearance)\n  designs with a flight to the end: "@ =~= a + decimal(c.with_margin) + " with a margin at rod clearance)"@ + "\n  designs with a flight to the end: "@);
    let x = a + decimal(c.with_margin) + " with a margin at rod clearance)\n  designs with a flight to the end: "@;
    lemma_extend(x, decimal(c.designs_completed), decimal(c.with_margin) + " with a margin at rod clearance)"@);
    let x = x + decimal(c.designs_completed);
    lemma_extend(x, "\n"@, decimal(c.with_margin) + " with a margin at rod clearance)"@);
    let x = x + "\n"@;
    assert(x == block(place, c));
}

/// The block gives the count `designs_completed` where its words say.
proof fn lemma_block_designs_completed(place: Seq<char>, c: CountsView)
    ensures
        stands_in(block(place, c), "designs with a flight to the end: "@ + decimal(c.designs_completed)),
{
    reveal_strlit(" with a margin at rod clearance)\n  designs with a flight to the end: ");
    reveal_strlit(" with a margin at rod clearance)\n  ");
    reveal_strlit("designs with a flight to the end: ");
    let a = place + ":\n  designs: "@ + decimal(c.designs) + " files ("@ + decimal(c.distinct) + " distinct), "@ + decimal(c.refused_designs) + " refused by OpenRocket, "@ + decimal(c.driver_errors) + " driver errors\n  configurations: "@ + decimal(c.configurations) + " declared, "@ + decimal(c.no_motor) + " with no motor, "@ + decimal(c.refused_flights) + " refused, "@ + decimal(c.aborted) + " aborted, "@ + decimal(c.completed) + " flown to the end ("@ + decimal(c.with_margin);
    let a2 = a + " with a margin at rod clearance)\n  "@;
    lemma_ends_with(a2, "designs with a flight to the end: "@, decimal(c.designs_completed));
    assert(a + " with a margin at rod clearance)\n  designs with a flight to the end: "@ + decimal(c.designs_completed) =~= a2 + "designs with a flight to the end: "@ + decimal(c.designs_completed));
    let x = a + " with a margin at rod clearance)\n  designs with a flight to the end: "@ + decimal(c.designs_completed);
    lemma_extend(x, "\n"@, "designs with a flight to the end: "@ + decimal(c.designs_completed));
    let x = x + "\n"@;
    assert(x == block(place, c));
}

/// The block of a place starts with the place's name and gives each of its counts right before
/// the words that name it: the designs before ` files (`, the distinct files before
/// ` distinct), `, the refused files before ` refused by OpenRocket, `, the driver errors before
/// ` driver errors`, the configurations before ` declared, `, those with no motor before
/// ` with no motor, `, the refused flights before ` refused, `, the aborted ones before
/// ` aborted, `, those flown to the end before ` flown to the end (`, those with a margin before
/// ` with a margin at rod clearance)`, and the designs with a flight to the end after
/// `designs with a flight to the end: `.
pub proof fn lemma_block_names_each_count(place: Seq<char>, c: CountsView)
    ensures
        block(place, c).take(place.len() as int) == place,
        stands_in(block(place, c), decimal(c.designs) + " files ("@),
        stands_in(block(place, c), decimal(c.distinct) + " distinct), "@),
        stands_in(block(place, c), decimal(c.refused_designs) + " refused by OpenRocket, "@),
        stands_in(block(place, c), decimal(c.driver_errors) + " driver errors"@),
        stands_in(block(place, c), decimal(c.configurations) + " declared, "@),
        stands_in(block(place, c), decimal(c.no_motor) + " with no motor, "@),
        stands_in(block(place, c), decimal(c.refused_flights) + " refused, "@),
        stands_in(block(place, c), decimal(c.aborted) + " aborted, "@),
        stands_in(block(place, c), decimal(c.completed) + " flown to the end ("@),
        stands_in(block(place, c), decimal(c.with_margin) + " with a margin at rod clearance)"@),
        stands_in(block(place, c), "designs with a flight to the end: "@ + decimal(c.designs_completed)),
{
    assert(block(place, c).take(place.len() as int) =~= place);
    lemma_block_designs(place, c);
    lemma_block_distinct(place, c);
    lemma_block_refused_designs(place, c);
    lemma_block_driver_errors(place, c);
    lemma_block_configurations(place, c);
    lemma_block_no_motor(place, c);
    lemma_block_refused_flights(place, c);
    lemma_block_aborted(place, c);
    lemma_block_completed(place, c);
    lemma_block_with_margin(place, c);
    lemma_block_designs_completed(place, c);
}

/// The counts as lines hold each place's block, in order: the block of each entry follows those of
/// the entries before it.
pub proof fn lemma_lines_hold_each_block(entries: Seq<(Seq<char>, CountsView)>, k: int)
    requires
        0 <= k < entries.len(),
    ensures
        stands_in(lines_spec(entries), block(entries[k].0, entries[k].1)),
        lines_spec(entries.take(k + 1)) == lines_spec(entries.take(k)) + block(entries[k].0, entries[k].1),
    decreases entries.len(),
{
    assert(entries.take(k + 1).drop_last() =~= entries.take(k));
    if k == entries.len() - 1 {
        assert(entries.take(k + 1) =~= entries);
        lemma_stands(lines_spec(entries.drop_last()), block(entries[k].0, entries[k].1), Seq::empty());
        assert(lines_spec(entries) =~= lines_spec(entries.drop_last()) + block(entries[k].0, entries[k].1) + Seq::<char>::empty());
    } else {
        let rest = entries.drop_last();
        assert(rest[k] == entries[k]);
        assert(rest.take(k + 1) =~= entries.take(k + 1));
        assert(rest.take(k) =~= entries.take(k));
        lemma_lines_hold_each_block(rest, k);
        let i = choose|i: int| occurs_at(lines_spec(rest), block(entries[k].0, entries[k].1), i);
        let whole = lines_spec(entries);
        let p = block(entries[k].0, entries[k].1);
        assert(whole == lines_spec(rest) + block(entries.last().0, entries.last().1));
        assert(whole.subrange(i, i + p.len()) =~= lines_spec(rest).subrange(i, i + p.len()));
        assert(occurs_at(whole, p, i));
    }
}

} // verus!
