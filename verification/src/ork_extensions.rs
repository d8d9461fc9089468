//! The `x-openrocket` counts of the survey: the parts and sections of each document hpr does not
//! model, kept whole, and whether each is found again at its path.
use vstd::prelude::*;

use crate::tally::{count_in, entries_line, entries_text, lemma_count_bounded, lemma_counted_once_more, total, Tally};
use crate::text::{append_decimal, decimal, join, join_strings, strings_view};

verus! {

/// An element kept whole, as the reader gives it: its name, its path, and whether the path leads
/// back to it in the document.
pub struct Kept {
    pub name: String,
    pub at: String,
    pub found_again: bool,
}

/// What a document keeps in `x-openrocket`: whether the design is reduced, and the parts and
/// sections kept.
pub struct KeptDocument {
    pub reduced: bool,
    pub parts: Vec<Kept>,
    pub sections: Vec<Kept>,
}

/// One document's detail: whether it is reduced, and the paths of the parts and sections kept.
pub struct ExtensionDetail {
    pub reduced: bool,
    pub parts: Vec<String>,
    pub sections: Vec<String>,
}

/// The names of kept elements.
pub open spec fn names(v: Seq<Kept>) -> Seq<Seq<char>> {
    Seq::new(v.len(), |i: int| v[i].name@)
}

/// The paths of kept elements.
pub open spec fn paths(v: Seq<Kept>) -> Seq<Seq<char>> {
    Seq::new(v.len(), |i: int| v[i].at@)
}

/// The paths of the kept elements that their path does not lead back to, in order.
pub open spec fn lost_paths(v: Seq<Kept>) -> Seq<Seq<char>>
    decreases v.len(),
{
    if v.len() == 0 {
        Seq::empty()
    } else {
        lost_paths(v.drop_last()) + if v.last().found_again { Seq::empty() } else { seq![v.last().at@] }
    }
}

/// `s` with each of `keys` counted once more, in order.
pub open spec fn count_all(s: Seq<(Seq<char>, nat)>, keys: Seq<Seq<char>>) -> Seq<(Seq<char>, nat)>
    decreases keys.len(),
{
    if keys.len() == 0 {
        s
    } else {
        count_in(count_all(s, keys.drop_last()), keys.last())
    }
}

/// No more paths are lost than elements are kept.
proof fn lemma_lost_within(v: Seq<Kept>)
    ensures
        lost_paths(v).len() <= v.len(),
    decreases v.len(),
{
    if v.len() > 0 {
        lemma_lost_within(v.drop_last());
    }
}

/// The counts, summed over the documents.
pub struct ExtensionTally {
    reduced: usize,
    parts: Tally,
    sections: Tally,
    lost: Vec<String>,
}

/// What the counts hold.
pub struct ExtensionTallyView {
    pub reduced: nat,
    pub parts: Seq<(Seq<char>, nat)>,
    pub sections: Seq<(Seq<char>, nat)>,
    pub lost: Seq<Seq<char>>,
}

impl View for ExtensionTally {
    type V = ExtensionTallyView;

    closed spec fn view(&self) -> ExtensionTallyView {
        ExtensionTallyView {
            reduced: self.reduced as nat,
            parts: self.parts@,
            sections: self.sections@,
            lost: strings_view(self.lost@),
        }
    }
}

/// Counts each of `elements`' names into `counts`, and the paths that do not lead back into
/// `lost`.
fn count_kept(counts: &mut Tally, lost: &mut Vec<String>, elements: &Vec<Kept>) -> (at: Vec<String>)
    requires
        old(counts).wf(),
        total(old(counts)@) + elements@.len() <= usize::MAX,
    ensures
        final(counts).wf(),
        final(counts)@ == count_all(old(counts)@, names(elements@)),
        total(final(counts)@) == total(old(counts)@) + elements@.len(),
        strings_view(final(lost)@) == strings_view(old(lost)@) + lost_paths(elements@),
        strings_view(at@) == paths(elements@),
{
    let ghost c0 = counts@;
    let ghost l0 = strings_view(lost@);
    let mut at: Vec<String> = Vec::new();
    let mut k: usize = 0;
    assert(names(elements@).take(0) =~= Seq::<Seq<char>>::empty());
    assert(elements@.take(0) =~= Seq::<Kept>::empty());
    assert(l0 + lost_paths(elements@.take(0)) =~= l0);
    while k < elements.len()
        invariant
            0 <= k <= elements.len(),
            counts.wf(),
            total(c0) + elements@.len() <= usize::MAX,
            counts@ == count_all(c0, names(elements@).take(k as int)),
            total(counts@) == total(c0) + k,
            strings_view(lost@) == l0 + lost_paths(elements@.take(k as int)),
            strings_view(at@) == paths(elements@).take(k as int),
        decreases elements.len() - k,
    {
        let e = &elements[k];
        proof {
            lemma_count_bounded(counts@, e.name@);
            lemma_counted_once_more(counts@, e.name@, e.name@);
            assert(names(elements@).take(k + 1).drop_last() =~= names(elements@).take(k as int));
            assert(elements@.take(k + 1).drop_last() =~= elements@.take(k as int));
        }
        counts.add(e.name.as_str());
        let ghost lost_before = strings_view(lost@);
        if !e.found_again {
            lost.push(String::from_str(e.at.as_str()));
            assert(strings_view(lost@) =~= lost_before.push(e.at@));
        }
        assert(strings_view(lost@) =~= l0 + lost_paths(elements@.take(k + 1)));
        let ghost at_before = strings_view(at@);
        at.push(String::from_str(e.at.as_str()));
        assert(strings_view(at@) =~= paths(elements@).take(k + 1)) by {
            assert(strings_view(at@) =~= at_before.push(e.at@));
        }
        k += 1;
    }
    assert(names(elements@).take(elements.len() as int) =~= names(elements@));
    assert(elements@.take(elements.len() as int) =~= elements@);
    assert(paths(elements@).take(elements.len() as int) =~= paths(elements@));
    at
}

impl ExtensionTally {
    /// Whether each count's names come in the order they sort, each once.
    pub closed spec fn wf(&self) -> bool {
        &&& self.parts.wf()
        &&& self.sections.wf()
        &&& total(self.parts@) + total(self.sections@) <= usize::MAX
        &&& self.lost@.len() <= total(self.parts@) + total(self.sections@)
    }

    /// No counts.
    pub fn new() -> (t: ExtensionTally)
        ensures
            t.wf(),
            t@ == (ExtensionTallyView { reduced: 0, parts: Seq::empty(), sections: Seq::empty(), lost: Seq::empty() }),
    {
        let t = ExtensionTally { reduced: 0, parts: Tally::new(), sections: Tally::new(), lost: Vec::new() };
        assert(strings_view(t.lost@) =~= Seq::<Seq<char>>::empty());
        t
    }

    /// Counts one document and returns its per-file detail.
    pub fn add(&mut self, document: &KeptDocument) -> (detail: ExtensionDetail)
        requires
            old(self).wf(),
            old(self)@.reduced < usize::MAX,
            total(old(self)@.parts) + total(old(self)@.sections) + document.parts@.len()
                + document.sections@.len() <= usize::MAX,
        ensures
            final(self).wf(),
            final(self)@ == add_spec(old(self)@, *document),
            detail.reduced == document.reduced,
            strings_view(detail.parts@) == paths(document.parts@),
            strings_view(detail.sections@) == paths(document.sections@),
    {
        let ghost lost0 = self.lost@.len();
        assert(lost0 == strings_view(self.lost@).len());
        if document.reduced {
            self.reduced = self.reduced + 1;
        }
        proof {
            lemma_lost_within(document.parts@);
            lemma_lost_within(document.sections@);
        }
        let parts = count_kept(&mut self.parts, &mut self.lost, &document.parts);
        let sections = count_kept(&mut self.sections, &mut self.lost, &document.sections);
        assert(self.lost@.len() == strings_view(self.lost@).len());
        assert(self@.lost =~= add_spec(old(self)@, *document).lost);
        ExtensionDetail { reduced: document.reduced, parts, sections }
    }

    /// The counts as the survey prints them: the parts and sections kept, and how many are found
    /// again at their path.
    pub fn report(&self) -> (text: String)
        requires
            self.wf(),
        ensures
            text@ == "  kept in x-openrocket: "@ + decimal(total(self@.parts)) + " part(s)"@
                + listed_spec(self@.parts, ": "@) + " in "@ + decimal(self@.reduced) + " reduced design(s); "@
                + decimal(total(self@.sections)) + " section(s)"@ + listed_spec(self@.sections, ": "@) + "\n"@
                + "  kept elements found again at their path: "@
                + decimal((total(self@.parts) + total(self@.sections) - self@.lost.len()) as nat) + " of "@
                + decimal(total(self@.parts) + total(self@.sections)) + "\n"@,
    {
        let parts = self.parts.sum();
        let sections = self.sections.sum();
        let kept = parts + sections;
        let mut out = String::from_str("  kept in x-openrocket: ");
        append_decimal(&mut out, parts);
        out.append(" part(s)");
        let p = listed(&self.parts, ": ");
        out.append(p.as_str());
        out.append(" in ");
        append_decimal(&mut out, self.reduced);
        out.append(" reduced design(s); ");
        append_decimal(&mut out, sections);
        out.append(" section(s)");
        let q = listed(&self.sections, ": ");
        out.append(q.as_str());
        out.append("\n");
        out.append("  kept elements found again at their path: ");
        append_decimal(&mut out, kept - self.lost.len());
        out.append(" of ");
        append_decimal(&mut out, kept);
        out.append("\n");
        out
    }

    /// Why the survey should fail: a kept element its path does not lead back to.
    pub fn failure(&self) -> (why: Option<String>)
        ensures
            match why {
                Some(w) => self@.lost.len() > 0 && w@ == decimal(self@.lost.len())
                    + " kept element(s) are not found again at their path: "@ + join(self@.lost, ", "@),
                None => self@.lost.len() == 0,
            },
    {
        if self.lost.len() == 0 {
            return None;
        }
        let mut out = String::new();
        append_decimal(&mut out, self.lost.len());
        out.append(" kept element(s) are not found again at their path: ");
        let list = join_strings(&self.lost, ", ");
        out.append(list.as_str());
        Some(out)
    }
}

/// `counts` as `key n, key n`, after `lead`; nothing when empty.
pub open spec fn listed_spec(counts: Seq<(Seq<char>, nat)>, lead: Seq<char>) -> Seq<char> {
    if counts.len() == 0 {
        Seq::empty()
    } else {
        lead + entries_text(counts)
    }
}

/// `counts` as `key n, key n`, after `lead`; nothing when empty.
pub fn listed(counts: &Tally, lead: &str) -> (out: String)
    ensures
        out@ == listed_spec(counts@, lead@),
{
    if counts.is_empty() {
        let out = String::new();
        assert(out@ =~= Seq::<char>::empty());
        return out;
    }
    let mut out = String::from_str(lead);
    let line = entries_line(counts);
    out.append(line.as_str());
    out
}

/// The counts after one more document.
pub open spec fn add_spec(v: ExtensionTallyView, document: KeptDocument) -> ExtensionTallyView {
    ExtensionTallyView {
        reduced: v.reduced + if document.reduced { 1nat } else { 0nat },
        parts: count_all(v.parts, names(document.parts@)),
        sections: count_all(v.sections, names(document.sections@)),
        lost: v.lost + lost_paths(document.parts@) + lost_paths(document.sections@),
    }
}

/// The counts after the documents, from none.
pub open spec fn run_spec(documents: Seq<KeptDocument>) -> ExtensionTallyView
    decreases documents.len(),
{
    if documents.len() == 0 {
        ExtensionTallyView { reduced: 0, parts: Seq::empty(), sections: Seq::empty(), lost: Seq::empty() }
    } else {
        add_spec(run_spec(documents.drop_last()), documents.last())
    }
}

/// The paths of the kept elements of the documents that do not lead back to them, in the order
/// the documents and their elements come.
pub open spec fn lost_in(documents: Seq<KeptDocument>) -> Seq<Seq<char>>
    decreases documents.len(),
{
    if documents.len() == 0 {
        Seq::empty()
    } else {
        lost_in(documents.drop_last()) + lost_paths(documents.last().parts@) + lost_paths(documents.last().sections@)
    }
}

/// Whether every kept element of `v` is found again at its path.
pub open spec fn each_found(v: Seq<Kept>) -> bool {
    forall|k: int| 0 <= k < v.len() ==> (#[trigger] v[k]).found_again
}

/// Whether every kept part and section of the documents is found again at its path.
pub open spec fn all_found(documents: Seq<KeptDocument>) -> bool {
    forall|i: int| 0 <= i < documents.len() ==> each_found((#[trigger] documents[i]).parts@)
        && each_found(documents[i].sections@)
}

/// No path is lost exactly when every element is found again.
proof fn lemma_lost_none(v: Seq<Kept>)
    ensures
        lost_paths(v).len() == 0 <==> each_found(v),
    decreases v.len(),
{
    if v.len() > 0 {
        let rest = v.drop_last();
        lemma_lost_none(rest);
        if each_found(v) {
            assert forall|k: int| 0 <= k < rest.len() implies (#[trigger] rest[k]).found_again by {
                assert(rest[k] == v[k]);
            }
            assert(v[v.len() - 1].found_again);
        }
        if lost_paths(v).len() == 0 {
            assert forall|k: int| 0 <= k < v.len() implies (#[trigger] v[k]).found_again by {
                if k < rest.len() { assert(rest[k] == v[k]); }
            }
        }
    }
}

/// Over any run of documents counted from none, the paths the failure names are the lost paths of
/// all the documents, in order; so the survey fails exactly when some kept part or section is not
/// found again at its path, and names each such path.
pub proof fn lemma_failure_names_every_lost_path(documents: Seq<KeptDocument>)
    ensures
        run_spec(documents).lost == lost_in(documents),
        run_spec(documents).lost.len() == 0 <==> all_found(documents),
    decreases documents.len(),
{
    if documents.len() > 0 {
        let rest = documents.drop_last();
        let d = documents.last();
        lemma_failure_names_every_lost_path(rest);
        lemma_lost_none(d.parts@);
        lemma_lost_none(d.sections@);
        if all_found(documents) {
            assert forall|i: int| 0 <= i < rest.len() implies each_found((#[trigger] rest[i]).parts@)
                && each_found(rest[i].sections@) by {
                assert(rest[i] == documents[i]);
            }
            assert(documents[documents.len() - 1] == d);
        }
        if run_spec(documents).lost.len() == 0 {
            assert forall|i: int| 0 <= i < documents.len() implies each_found((#[trigger] documents[i]).parts@)
                && each_found(documents[i].sections@) by {
                if i < rest.len() {
                    assert(rest[i] == documents[i]);
                }
            }
        }
    }
}

} // verus!
