//! How the mass survey names a design in print, and the causes a design outside a threshold is
//! traced to.
use vstd::prelude::*;

use crate::text::{chars_of, contains, contains_slice, name_start, name_start_of, starts_with, starts_with_slice, string_of};

verus! {

/// A cause: a cluster of motor tubes.
pub const CAUSE_CLUSTER: &'static str = "a cluster of motor tubes, read as one tube";

/// A cause: fin fillets.
pub const CAUSE_FILLETS: &'static str = "fin fillets, left out";

/// A cause: a reduced design.
pub const CAUSE_REDUCED: &'static str = "parts hpr keeps unread (a reduced design)";

/// A cause: a stage switched off.
pub const CAUSE_STAGE: &'static str = "a stage OpenRocket's configuration switches off";

/// How the importer words the warning of a cluster of motor tubes.
pub const CLUSTER: &'static str = "a cluster of motor tubes is read as the one tube";

/// How the importer words the warning of dropped fillets.
pub const FILLETS: &'static str = "the fillets along the fin roots were dropped";

/// The places whose designs are public.
pub open spec fn public_prefixes() -> Seq<Seq<char>> {
    seq![
        "datafiles/examples/"@,
        "refs/fusionspace-loft/"@,
        "refs/openrocket-database/"@,
        "validation/fixtures/"@,
    ]
}

/// How a design is named in print: by its file name when it is public, and otherwise by the
/// first eight characters of its content hash.
pub open spec fn label_spec(file: Seq<char>, hash: Seq<char>) -> Seq<char> {
    if exists|k: int| 0 <= k < 4 && starts_with(file, #[trigger] public_prefixes()[k]) {
        file.skip(name_start(file))
    } else {
        "private "@ + if hash.len() <= 8 { hash } else { hash.take(8) }
    }
}

/// How a design is named in print: by its file when it is public (the jar's examples, Loft's own
/// repository, the parts catalogue, and the repository's own fixtures), and otherwise only by the
/// start of its content hash, so that a private file's name never leaves the machine.
pub fn label(file: &str, hash: &str) -> (name: String)
    ensures
        name@ == label_spec(file@, hash@),
{
    let f = chars_of(file);
    let p0 = chars_of("datafiles/examples/");
    let p1 = chars_of("refs/fusionspace-loft/");
    let p2 = chars_of("refs/openrocket-database/");
    let p3 = chars_of("validation/fixtures/");
    let public = starts_with_slice(f.as_slice(), p0.as_slice()) || starts_with_slice(f.as_slice(), p1.as_slice())
        || starts_with_slice(f.as_slice(), p2.as_slice()) || starts_with_slice(f.as_slice(), p3.as_slice());
    proof {
        let ps = public_prefixes();
        assert(ps[0] == p0@ && ps[1] == p1@ && ps[2] == p2@ && ps[3] == p3@);
        if public {
            if starts_with(f@, p0@) {
                assert(starts_with(file@, ps[0]));
            } else if starts_with(f@, p1@) {
                assert(starts_with(file@, ps[1]));
            } else if starts_with(f@, p2@) {
                assert(starts_with(file@, ps[2]));
            } else {
                assert(starts_with(file@, ps[3]));
            }
        } else {
            assert forall|k: int| 0 <= k < 4 implies !starts_with(file@, #[trigger] ps[k]) by {
                if k == 0 {} else if k == 1 {} else if k == 2 {} else {}
            }
        }
    }
    if public {
        let at = name_start_of(f.as_slice());
        let name = &f.as_slice()[at..f.len()];
        assert(name@ =~= f@.skip(at as int));
        string_of(name)
    } else {
        let h = chars_of(hash);
        let n: usize = if h.len() <= 8 { h.len() } else { 8 };
        let start = &h.as_slice()[0..n];
        let mut out = String::from_str("private ");
        let s = string_of(start);
        out.append(s.as_str());
        proof {
            if h.len() <= 8 {
                assert(start@ =~= h@);
            } else {
                assert(start@ =~= h@.take(8));
            }
        }
        out
    }
}

/// Whether one of the warnings holds `words`.
pub open spec fn said(warnings: Seq<Seq<char>>, words: Seq<char>) -> bool {
    exists|k: int| 0 <= k < warnings.len() && contains(#[trigger] warnings[k], words)
}

/// `cause` when `found`, else nothing.
pub open spec fn when(found: bool, cause: Seq<char>) -> Seq<Seq<char>> {
    if found {
        seq![cause]
    } else {
        Seq::empty()
    }
}

/// The causes a design shows, in the order they are printed.
pub open spec fn causes_spec(warnings: Seq<Seq<char>>, reduced: bool, stages_apart: bool) -> Seq<Seq<char>> {
    when(said(warnings, CLUSTER@), CAUSE_CLUSTER@) + when(said(warnings, FILLETS@), CAUSE_FILLETS@)
        + when(reduced, CAUSE_REDUCED@) + when(stages_apart, CAUSE_STAGE@)
}

/// The views of a list of string slices.
pub open spec fn strs_view(v: Seq<&str>) -> Seq<Seq<char>> {
    Seq::new(v.len(), |i: int| v[i]@)
}

/// Whether one of the warnings holds `words`.
fn any_says(warnings: &[&str], words: &str) -> (found: bool)
    ensures
        found == said(strs_view(warnings@), words@),
{
    let w = chars_of(words);
    let mut k: usize = 0;
    while k < warnings.len()
        invariant
            0 <= k <= warnings.len(),
            w@ == words@,
            forall|m: int| 0 <= m < k ==> !contains(#[trigger] strs_view(warnings@)[m], words@),
        decreases warnings.len() - k,
    {
        let text = chars_of(warnings[k]);
        if contains_slice(text.as_slice(), w.as_slice()) {
            assert(contains(strs_view(warnings@)[k as int], words@));
            return true;
        }
        k += 1;
    }
    false
}

/// The causes a design shows, from the warnings hpr raised reading it, whether it is reduced, and
/// whether OpenRocket weighs fewer stages than hpr. The words are the importer's.
pub fn causes(warnings: &[&str], reduced: bool, stages_apart: bool) -> (found: Vec<&'static str>)
    ensures
        strs_view(found@) == causes_spec(strs_view(warnings@), reduced, stages_apart),
{
    let mut out: Vec<&'static str> = Vec::new();
    if any_says(warnings, CLUSTER) {
        out.push(CAUSE_CLUSTER);
    }
    let ghost a = strs_view(out@);
    assert(a =~= when(said(strs_view(warnings@), CLUSTER@), CAUSE_CLUSTER@));
    if any_says(warnings, FILLETS) {
        out.push(CAUSE_FILLETS);
    }
    let ghost b = strs_view(out@);
    assert(b =~= a + when(said(strs_view(warnings@), FILLETS@), CAUSE_FILLETS@));
    if reduced {
        out.push(CAUSE_REDUCED);
    }
    let ghost c = strs_view(out@);
    assert(c =~= b + when(reduced, CAUSE_REDUCED@));
    if stages_apart {
        out.push(CAUSE_STAGE);
    }
    assert(strs_view(out@) =~= c + when(stages_apart, CAUSE_STAGE@));
    out
}

/// Where a cause stands among the four, in the order they are printed; four for any other text.
pub open spec fn cause_rank(cause: Seq<char>) -> int {
    if cause == CAUSE_CLUSTER@ {
        0
    } else if cause == CAUSE_FILLETS@ {
        1
    } else if cause == CAUSE_REDUCED@ {
        2
    } else if cause == CAUSE_STAGE@ {
        3
    } else {
        4
    }
}

/// The four causes differ.
proof fn lemma_causes_differ()
    ensures
        CAUSE_CLUSTER@ != CAUSE_FILLETS@,
        CAUSE_CLUSTER@ != CAUSE_REDUCED@,
        CAUSE_CLUSTER@ != CAUSE_STAGE@,
        CAUSE_FILLETS@ != CAUSE_REDUCED@,
        CAUSE_FILLETS@ != CAUSE_STAGE@,
        CAUSE_REDUCED@ != CAUSE_STAGE@,
{
    reveal_strlit("a cluster of motor tubes, read as one tube");
    reveal_strlit("fin fillets, left out");
    reveal_strlit("parts hpr keeps unread (a reduced design)");
    reveal_strlit("a stage OpenRocket's configuration switches off");
    assert(CAUSE_CLUSTER@[0] != CAUSE_FILLETS@[0]);
    assert(CAUSE_CLUSTER@[0] != CAUSE_REDUCED@[0]);
    assert(CAUSE_CLUSTER@[2] != CAUSE_STAGE@[2]);
    assert(CAUSE_FILLETS@[0] != CAUSE_REDUCED@[0]);
    assert(CAUSE_FILLETS@[0] != CAUSE_STAGE@[0]);
    assert(CAUSE_REDUCED@[0] != CAUSE_STAGE@[0]);
}

/// Which causes a design shows: a cluster exactly when a warning says the cluster was read as one
/// tube, the fillets exactly when one says they were dropped, a reduced design exactly when it is
/// reduced, and a stage exactly when OpenRocket weighs fewer stages; whatever the others are.
/// Each is listed at most once, in the order the four are printed.
pub proof fn lemma_each_cause_exactly_when_shown(warnings: Seq<Seq<char>>, reduced: bool, stages_apart: bool)
    ensures
        causes_spec(warnings, reduced, stages_apart).contains(CAUSE_CLUSTER@)
            <==> exists|k: int| 0 <= k < warnings.len() && contains(#[trigger] warnings[k], CLUSTER@),
        causes_spec(warnings, reduced, stages_apart).contains(CAUSE_FILLETS@)
            <==> exists|k: int| 0 <= k < warnings.len() && contains(#[trigger] warnings[k], FILLETS@),
        causes_spec(warnings, reduced, stages_apart).contains(CAUSE_REDUCED@) <==> reduced,
        causes_spec(warnings, reduced, stages_apart).contains(CAUSE_STAGE@) <==> stages_apart,
        forall|i: int| 0 <= i < causes_spec(warnings, reduced, stages_apart).len()
            ==> cause_rank(#[trigger] causes_spec(warnings, reduced, stages_apart)[i]) < 4,
        forall|i: int, j: int| 0 <= i < j < causes_spec(warnings, reduced, stages_apart).len()
            ==> cause_rank(#[trigger] causes_spec(warnings, reduced, stages_apart)[i])
                < cause_rank(#[trigger] causes_spec(warnings, reduced, stages_apart)[j]),
{
    lemma_causes_differ();
    let a = when(said(warnings, CLUSTER@), CAUSE_CLUSTER@);
    let b = when(said(warnings, FILLETS@), CAUSE_FILLETS@);
    let c = when(reduced, CAUSE_REDUCED@);
    let d = when(stages_apart, CAUSE_STAGE@);
    let out = causes_spec(warnings, reduced, stages_apart);
    assert(out == a + b + c + d);
    assert forall|x: Seq<char>| #[trigger] out.contains(x) <==> (a.contains(x) || b.contains(x) || c.contains(x) || d.contains(x)) by {
        if out.contains(x) {
            let i = choose|i: int| 0 <= i < out.len() && out[i] == x;
            if i < a.len() {
                assert(a[i] == x);
            } else if i < a.len() + b.len() {
                assert(b[i - a.len()] == x);
            } else if i < a.len() + b.len() + c.len() {
                assert(c[i - a.len() - b.len()] == x);
            } else {
                assert(d[i - a.len() - b.len() - c.len()] == x);
            }
        }
        if a.contains(x) {
            let i = choose|i: int| 0 <= i < a.len() && a[i] == x;
            assert(out[i] == x);
        }
        if b.contains(x) {
            let i = choose|i: int| 0 <= i < b.len() && b[i] == x;
            assert(out[a.len() + i] == x);
        }
        if c.contains(x) {
            let i = choose|i: int| 0 <= i < c.len() && c[i] == x;
            assert(out[a.len() + b.len() + i] == x);
        }
        if d.contains(x) {
            let i = choose|i: int| 0 <= i < d.len() && d[i] == x;
            assert(out[a.len() + b.len() + c.len() + i] == x);
        }
    }
    if a.len() > 0 { assert(a[0] == CAUSE_CLUSTER@); }
    if b.len() > 0 { assert(b[0] == CAUSE_FILLETS@); }
    if c.len() > 0 { assert(c[0] == CAUSE_REDUCED@); }
    if d.len() > 0 { assert(d[0] == CAUSE_STAGE@); }
    assert forall|i: int| 0 <= i < out.len() implies #[trigger] out[i] == (if i < a.len() {
        CAUSE_CLUSTER@
    } else if i < a.len() + b.len() {
        CAUSE_FILLETS@
    } else if i < a.len() + b.len() + c.len() {
        CAUSE_REDUCED@
    } else {
        CAUSE_STAGE@
    }) by {
        if i < a.len() {
            assert(out[i] == a[i]);
        } else if i < a.len() + b.len() {
            assert(out[i] == b[i - a.len()]);
        } else if i < a.len() + b.len() + c.len() {
            assert(out[i] == c[i - a.len() - b.len()]);
        } else {
            assert(out[i] == d[i - a.len() - b.len() - c.len()]);
        }
    }
}

} // verus!
