//! Counts by name, kept in the order the names sort, as the surveys print them.
use vstd::prelude::*;

use crate::ork_library_flights::{lex_lt, lemma_lex_total, lemma_lex_transitive, lemma_lex_asymmetric};
use crate::text::{append_decimal, chars_of, decimal, join, join_strings, string_eq, strings_view};

verus! {

/// Counts by name.
pub struct Tally {
    entries: Vec<(String, usize)>,
}

/// The names and counts of a list of entries.
pub open spec fn entries_view(v: Seq<(String, usize)>) -> Seq<(Seq<char>, nat)> {
    Seq::new(v.len(), |i: int| (v[i].0@, v[i].1 as nat))
}

/// Whether the names of `s` come in the order they sort, each once.
pub open spec fn sorted_keys(s: Seq<(Seq<char>, nat)>) -> bool {
    forall|a: int, b: int| 0 <= a < b < s.len() ==> lex_lt(#[trigger] s[a].0, #[trigger] s[b].0)
}

/// How many times `key` was counted in `s`.
pub open spec fn count_of(s: Seq<(Seq<char>, nat)>, key: Seq<char>) -> nat
    decreases s.len(),
{
    if s.len() == 0 {
        0
    } else if s.last().0 == key {
        s.last().1
    } else {
        count_of(s.drop_last(), key)
    }
}

/// Where `key` belongs in `s`, from `a` on: at the first name that does not come before it.
pub open spec fn place_from(s: Seq<(Seq<char>, nat)>, key: Seq<char>, a: int) -> int
    decreases s.len() - a,
{
    if a < 0 || a >= s.len() {
        s.len() as int
    } else if lex_lt(s[a].0, key) {
        place_from(s, key, a + 1)
    } else {
        a
    }
}

/// What counting `key` once more makes of `s`: its count goes up by one where it is, or it is
/// added with a count of one where it keeps the names sorted.
pub open spec fn count_in(s: Seq<(Seq<char>, nat)>, key: Seq<char>) -> Seq<(Seq<char>, nat)> {
    let p = place_from(s, key, 0);
    if p < s.len() && s[p].0 == key {
        s.update(p, (key, s[p].1 + 1))
    } else {
        s.insert(p, (key, 1nat))
    }
}

/// All the counts of `s` together.
pub open spec fn total(s: Seq<(Seq<char>, nat)>) -> nat
    decreases s.len(),
{
    if s.len() == 0 {
        0
    } else {
        total(s.drop_last()) + s.last().1
    }
}

impl View for Tally {
    type V = Seq<(Seq<char>, nat)>;

    closed spec fn view(&self) -> Seq<(Seq<char>, nat)> {
        entries_view(self.entries@)
    }
}

impl Tally {
    /// Whether the names come in the order they sort, each once.
    pub open spec fn wf(&self) -> bool {
        sorted_keys(self@)
    }

    /// No counts.
    pub fn new() -> (t: Tally)
        ensures
            t.wf(),
            t@ == Seq::<(Seq<char>, nat)>::empty(),
    {
        let t = Tally { entries: Vec::new() };
        assert(t@ =~= Seq::<(Seq<char>, nat)>::empty());
        t
    }

    /// Counts `key` once more.
    pub fn add(&mut self, key: &str)
        requires
            old(self).wf(),
            count_of(old(self)@, key@) < usize::MAX,
        ensures
            final(self).wf(),
            final(self)@ == count_in(old(self)@, key@),
    {
        let ghost s = self@;
        let k = String::from_str(key);
        let kc = chars_of(key);
        let mut p: usize = 0;
        while p < self.entries.len() && name_before(&self.entries[p].0, kc.as_slice())
            invariant
                0 <= p <= self.entries@.len(),
                s == self@,
                sorted_keys(s),
                kc@ == key@,
                forall|a: int| 0 <= a < p ==> lex_lt(#[trigger] s[a].0, key@),
                place_from(s, key@, 0) == place_from(s, key@, p as int),
            decreases self.entries@.len() - p,
        {
            p += 1;
        }
        if p < self.entries.len() && string_eq(&self.entries[p].0, &k) {
            let n = self.entries[p].1;
            proof {
                lemma_count_at(s, p as int);
            }
            self.entries.set(p, (k, n + 1));
            assert(self@ =~= s.update(p as int, (key@, s[p as int].1 + 1)));
            proof {
                assert forall|a: int, b: int| 0 <= a < b < self@.len() implies lex_lt(#[trigger] self@[a].0, #[trigger] self@[b].0) by {
                    assert(self@[a].0 == s[a].0 && self@[b].0 == s[b].0);
                }
            }
        } else {
            proof {
                if p < s.len() {
                    lemma_lex_total(s[p as int].0, key@);
                }
                assert forall|a: int| 0 <= a < s.len() implies #[trigger] s[a].0 != key@ by {
                    lemma_lex_asymmetric(s[a].0, key@);
                    if a > p as int {
                        assert(lex_lt(s[p as int].0, s[a].0));
                        if s[a].0 == key@ {
                            lemma_lex_asymmetric(key@, s[p as int].0);
                        }
                    }
                }
            }
            self.entries.insert(p, (k, 1));
            assert(self@ =~= s.insert(p as int, (key@, 1nat)));
            proof {
                let t = self@;
                assert forall|a: int, b: int| 0 <= a < b < t.len() implies lex_lt(#[trigger] t[a].0, #[trigger] t[b].0) by {
                    if b < p {
                        assert(t[a] == s[a] && t[b] == s[b]);
                    } else if b == p {
                        assert(t[a] == s[a]);
                    } else if a == p {
                        assert(t[b] == s[b - 1]);
                        if b - 1 > p {
                            lemma_lex_transitive(key@, s[p as int].0, s[b - 1].0);
                        }
                    } else if a < p {
                        assert(t[a] == s[a] && t[b] == s[b - 1]);
                    } else {
                        assert(t[a] == s[a - 1] && t[b] == s[b - 1]);
                    }
                }
            }
        }
    }

    /// The names and counts, in the order the names sort.
    pub fn entries(&self) -> (e: &Vec<(String, usize)>)
        ensures
            entries_view(e@) == self@,
    {
        &self.entries
    }

    /// All the counts together.
    pub fn sum(&self) -> (n: usize)
        requires
            total(self@) <= usize::MAX,
        ensures
            n == total(self@),
    {
        let ghost ev = self@;
        let mut n: usize = 0;
        let mut k: usize = 0;
        assert(ev.take(0) =~= Seq::<(Seq<char>, nat)>::empty());
        while k < self.entries.len()
            invariant
                0 <= k <= self.entries.len(),
                ev == self@,
                ev == entries_view(self.entries@),
                total(ev) <= usize::MAX,
                n == total(ev.take(k as int)),
            decreases self.entries.len() - k,
        {
            proof {
                assert(ev.take(k + 1).drop_last() =~= ev.take(k as int));
                lemma_total_prefix(ev, k + 1);
            }
            n = n + self.entries[k].1;
            k += 1;
        }
        assert(ev.take(self.entries.len() as int) =~= ev);
        n
    }

    /// Whether nothing was counted.
    pub fn is_empty(&self) -> (empty: bool)
        ensures
            empty == (self@.len() == 0),
    {
        self.entries.len() == 0
    }
}

/// Whether `name` comes before `key`.
fn name_before(name: &String, key: &[char]) -> (before: bool)
    ensures
        before == lex_lt(name@, key@),
{
    let n = chars_of(name.as_str());
    crate::ork_library_flights::lex_before(n.as_slice(), key)
}

/// Where a name is, its count is the one counted.
proof fn lemma_count_at(s: Seq<(Seq<char>, nat)>, p: int)
    requires
        sorted_keys(s),
        0 <= p < s.len(),
    ensures
        count_of(s, s[p].0) == s[p].1,
    decreases s.len(),
{
    if p < s.len() - 1 {
        lemma_lex_asymmetric(s[p].0, s.last().0);
        assert(lex_lt(s[p].0, s[s.len() - 1].0));
        assert(s.drop_last()[p] == s[p]);
        assert(sorted_keys(s.drop_last())) by {
            assert forall|a: int, b: int| 0 <= a < b < s.drop_last().len() implies lex_lt(#[trigger] s.drop_last()[a].0, #[trigger] s.drop_last()[b].0) by {
                assert(s.drop_last()[a] == s[a] && s.drop_last()[b] == s[b]);
            }
        }
        lemma_count_at(s.drop_last(), p);
    }
}

/// A name absent from `s` has a count of nothing.
proof fn lemma_count_absent(s: Seq<(Seq<char>, nat)>, key: Seq<char>)
    requires
        forall|a: int| 0 <= a < s.len() ==> #[trigger] s[a].0 != key,
    ensures
        count_of(s, key) == 0,
    decreases s.len(),
{
    if s.len() > 0 {
        assert(s[s.len() - 1].0 != key);
        assert forall|a: int| 0 <= a < s.drop_last().len() implies #[trigger] s.drop_last()[a].0 != key by {
            assert(s.drop_last()[a] == s[a]);
        }
        lemma_count_absent(s.drop_last(), key);
    }
}

/// A name's count is at most all the counts together.
proof fn lemma_count_within_total(s: Seq<(Seq<char>, nat)>, key: Seq<char>)
    ensures
        count_of(s, key) <= total(s),
    decreases s.len(),
{
    if s.len() > 0 {
        lemma_count_within_total(s.drop_last(), key);
    }
}

/// Raising one count by one raises the total by one.
proof fn lemma_total_update(s: Seq<(Seq<char>, nat)>, p: int, key: Seq<char>)
    requires
        0 <= p < s.len(),
    ensures
        total(s.update(p, (key, s[p].1 + 1))) == total(s) + 1,
    decreases s.len(),
{
    let t = s.update(p, (key, s[p].1 + 1));
    if p < s.len() - 1 {
        assert(t.drop_last() =~= s.drop_last().update(p, (key, s[p].1 + 1)));
        lemma_total_update(s.drop_last(), p, key);
    } else {
        assert(t.drop_last() =~= s.drop_last());
    }
}

/// Adding a count of one raises the total by one.
proof fn lemma_total_insert(s: Seq<(Seq<char>, nat)>, p: int, key: Seq<char>)
    requires
        0 <= p <= s.len(),
    ensures
        total(s.insert(p, (key, 1nat))) == total(s) + 1,
    decreases s.len(),
{
    let t = s.insert(p, (key, 1nat));
    if p < s.len() {
        assert(t.drop_last() =~= s.drop_last().insert(p, (key, 1nat)));
        lemma_total_insert(s.drop_last(), p, key);
    } else {
        assert(t.drop_last() =~= s);
    }
}

/// Where `key` belongs in `s` lies within it, after the names that come before `key` and before
/// the rest.
proof fn lemma_place(s: Seq<(Seq<char>, nat)>, key: Seq<char>, a: int)
    requires
        0 <= a <= s.len(),
        sorted_keys(s),
    ensures
        a <= place_from(s, key, a) <= s.len(),
        forall|b: int| a <= b < place_from(s, key, a) ==> lex_lt(#[trigger] s[b].0, key),
        place_from(s, key, a) < s.len() ==> !lex_lt(s[place_from(s, key, a)].0, key),
    decreases s.len() - a,
{
    if a < s.len() && lex_lt(s[a].0, key) {
        lemma_place(s, key, a + 1);
    }
}

/// Counting a name once more keeps the names sorted.
pub proof fn lemma_count_in_sorted(s: Seq<(Seq<char>, nat)>, key: Seq<char>)
    requires
        sorted_keys(s),
    ensures
        sorted_keys(count_in(s, key)),
        count_in(s, key).len() >= s.len(),
{
    lemma_place(s, key, 0);
    let p = place_from(s, key, 0);
    let t = count_in(s, key);
    if p < s.len() && s[p].0 == key {
        assert forall|a: int, b: int| 0 <= a < b < t.len() implies lex_lt(#[trigger] t[a].0, #[trigger] t[b].0) by {
            assert(t[a].0 == s[a].0 && t[b].0 == s[b].0);
        }
    } else {
        if p < s.len() {
            lemma_lex_total(s[p].0, key);
        }
        assert forall|a: int, b: int| 0 <= a < b < t.len() implies lex_lt(#[trigger] t[a].0, #[trigger] t[b].0) by {
            if b < p {
                assert(t[a] == s[a] && t[b] == s[b]);
            } else if b == p {
                assert(t[a] == s[a]);
            } else if a == p {
                assert(t[b] == s[b - 1]);
                if b - 1 > p {
                    lemma_lex_transitive(key, s[p].0, s[b - 1].0);
                }
            } else if a < p {
                assert(t[a] == s[a] && t[b] == s[b - 1]);
            } else {
                assert(t[a] == s[a - 1] && t[b] == s[b - 1]);
            }
        }
    }
}

/// Counting `key` once more raises its count by one, leaves every other name's count as it was,
/// and raises the total by one.
pub proof fn lemma_counted_once_more(s: Seq<(Seq<char>, nat)>, key: Seq<char>, other: Seq<char>)
    requires
        sorted_keys(s),
    ensures
        count_of(count_in(s, key), key) == count_of(s, key) + 1,
        other != key ==> count_of(count_in(s, key), other) == count_of(s, other),
        total(count_in(s, key)) == total(s) + 1,
{
    lemma_place(s, key, 0);
    lemma_count_in_sorted(s, key);
    let p = place_from(s, key, 0);
    let t = count_in(s, key);
    if p < s.len() && s[p].0 == key {
        lemma_count_at(s, p);
        lemma_count_at(t, p);
        lemma_total_update(s, p, key);
        if other != key {
            if exists|q: int| 0 <= q < s.len() && s[q].0 == other {
                let q = choose|q: int| 0 <= q < s.len() && s[q].0 == other;
                assert(t[q] == s[q]);
                lemma_count_at(s, q);
                lemma_count_at(t, q);
            } else {
                lemma_count_absent(s, other);
                assert forall|a: int| 0 <= a < t.len() implies #[trigger] t[a].0 != other by {
                    if a != p {
                        assert(t[a] == s[a]);
                    }
                }
                lemma_count_absent(t, other);
            }
        }
    } else {
        if p < s.len() {
            lemma_lex_total(s[p].0, key);
        }
        assert forall|a: int| 0 <= a < s.len() implies #[trigger] s[a].0 != key by {
            if a < p {
                lemma_lex_asymmetric(s[a].0, key);
            } else if a > p {
                assert(lex_lt(s[p].0, s[a].0));
                if s[a].0 == key {
                    lemma_lex_asymmetric(key, s[p].0);
                }
            }
        }
        lemma_count_absent(s, key);
        assert(t[p] == (key, 1nat));
        lemma_count_at(t, p);
        lemma_total_insert(s, p, key);
        if other != key {
            if exists|q: int| 0 <= q < s.len() && s[q].0 == other {
                let q = choose|q: int| 0 <= q < s.len() && s[q].0 == other;
                lemma_count_at(s, q);
                if q < p {
                    assert(t[q] == s[q]);
                    lemma_count_at(t, q);
                } else {
                    assert(t[q + 1] == s[q]);
                    lemma_count_at(t, q + 1);
                }
            } else {
                lemma_count_absent(s, other);
                assert forall|a: int| 0 <= a < t.len() implies #[trigger] t[a].0 != other by {
                    if a < p {
                        assert(t[a] == s[a]);
                    } else if a > p {
                        assert(t[a] == s[a - 1]);
                    }
                }
                lemma_count_absent(t, other);
            }
        }
    }
}

/// A name's count is at most all the counts together.
pub proof fn lemma_count_bounded(s: Seq<(Seq<char>, nat)>, key: Seq<char>)
    ensures
        count_of(s, key) <= total(s),
{
    lemma_count_within_total(s, key);
}

/// Whether a name stands in `s`.
pub open spec fn names_hold(s: Seq<(Seq<char>, nat)>, key: Seq<char>) -> bool {
    exists|a: int| 0 <= a < s.len() && #[trigger] s[a].0 == key
}

/// Whether every count of `s` is at least one.
pub open spec fn all_counted(s: Seq<(Seq<char>, nat)>) -> bool {
    forall|a: int| 0 <= a < s.len() ==> #[trigger] s[a].1 >= 1
}

/// Counting a name keeps every count at least one, and adds that name to the names.
pub proof fn lemma_count_in_names(s: Seq<(Seq<char>, nat)>, key: Seq<char>)
    requires
        sorted_keys(s),
        all_counted(s),
    ensures
        all_counted(count_in(s, key)),
        forall|k: Seq<char>| names_hold(count_in(s, key), k) <==> (k == key || names_hold(s, k)),
{
    lemma_place(s, key, 0);
    let p = place_from(s, key, 0);
    let t = count_in(s, key);
    if p < s.len() && s[p].0 == key {
        assert forall|a: int| 0 <= a < t.len() implies #[trigger] t[a].1 >= 1 by {
            if a != p { assert(t[a] == s[a]); }
        }
        assert forall|k: Seq<char>| names_hold(t, k) <==> (k == key || names_hold(s, k)) by {
            if names_hold(t, k) {
                let a = choose|a: int| 0 <= a < t.len() && #[trigger] t[a].0 == k;
                assert(s[a].0 == k);
            }
            if k == key {
                assert(t[p].0 == k);
            }
            if names_hold(s, k) {
                let a = choose|a: int| 0 <= a < s.len() && #[trigger] s[a].0 == k;
                assert(t[a].0 == k);
            }
        }
    } else {
        assert forall|a: int| 0 <= a < t.len() implies #[trigger] t[a].1 >= 1 by {
            if a < p { assert(t[a] == s[a]); } else if a > p { assert(t[a] == s[a - 1]); }
        }
        assert forall|k: Seq<char>| names_hold(t, k) <==> (k == key || names_hold(s, k)) by {
            if names_hold(t, k) {
                let a = choose|a: int| 0 <= a < t.len() && #[trigger] t[a].0 == k;
                if a < p { assert(s[a].0 == k); } else if a > p { assert(s[a - 1].0 == k); }
            }
            if k == key {
                assert(t[p].0 == k);
            }
            if names_hold(s, k) {
                let a = choose|a: int| 0 <= a < s.len() && #[trigger] s[a].0 == k;
                if a < p { assert(t[a].0 == k); } else { assert(t[a + 1].0 == k); }
            }
        }
    }
}

/// With every count at least one, a name stands in `s` exactly when it has been counted.
pub proof fn lemma_names_are_counted(s: Seq<(Seq<char>, nat)>, key: Seq<char>)
    requires
        sorted_keys(s),
        all_counted(s),
    ensures
        names_hold(s, key) <==> count_of(s, key) > 0,
{
    if names_hold(s, key) {
        let a = choose|a: int| 0 <= a < s.len() && #[trigger] s[a].0 == key;
        lemma_count_at(s, a);
    } else {
        assert forall|a: int| 0 <= a < s.len() implies #[trigger] s[a].0 != key by {
            if s[a].0 == key { assert(names_hold(s, key)); }
        }
        lemma_count_absent(s, key);
    }
}

/// The total of a prefix is at most the total.
pub proof fn lemma_total_prefix(s: Seq<(Seq<char>, nat)>, k: int)
    requires
        0 <= k <= s.len(),
    ensures
        total(s.take(k)) <= total(s),
    decreases s.len() - k,
{
    if k < s.len() {
        lemma_total_prefix(s, k + 1);
        assert(s.take(k + 1).drop_last() =~= s.take(k));
    } else {
        assert(s.take(k) =~= s);
    }
}

/// An entry as printed: its name, a space and its count.
pub open spec fn entry_text(e: (Seq<char>, nat)) -> Seq<char> {
    e.0 + " "@ + decimal(e.1)
}

/// The entries as printed: `name n, name n`.
pub open spec fn entries_text(s: Seq<(Seq<char>, nat)>) -> Seq<char> {
    join(s.map_values(|e: (Seq<char>, nat)| entry_text(e)), ", "@)
}

/// The entries as printed, `name n, name n`.
pub fn entries_line(counts: &Tally) -> (out: String)
    ensures
        out@ == entries_text(counts@),
{
    let entries = counts.entries();
    let ghost ev = entries_view(entries@);
    let mut texts: Vec<String> = Vec::new();
    let mut k: usize = 0;
    while k < entries.len()
        invariant
            0 <= k <= entries.len(),
            ev == entries_view(entries@),
            strings_view(texts@) == ev.map_values(|e: (Seq<char>, nat)| entry_text(e)).take(k as int),
        decreases entries.len() - k,
    {
        let mut t = String::from_str(entries[k].0.as_str());
        t.append(" ");
        append_decimal(&mut t, entries[k].1);
        let ghost before = strings_view(texts@);
        texts.push(t);
        assert(strings_view(texts@) =~= ev.map_values(|e: (Seq<char>, nat)| entry_text(e)).take(k + 1)) by {
            assert(strings_view(texts@) =~= before.push(t@));
        }
        k += 1;
    }
    assert(ev.map_values(|e: (Seq<char>, nat)| entry_text(e)).take(entries.len() as int) =~= ev.map_values(|e: (Seq<char>, nat)| entry_text(e)));
    join_strings(&texts, ", ")
}

} // verus!
