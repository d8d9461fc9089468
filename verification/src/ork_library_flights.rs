//! Which designs of the private library are private: a library file that is a public design, the
//! same bytes or the same rocket saved again (its name and its configurations' ids, or those ids
//! alone when OpenRocket made them at random), is left to the public report, and a private design
//! found twice is counted once. Designs are taken in the order of their SHA-256.
use vstd::prelude::*;

use crate::digest::{lower_hex, same_file, sha256_of};
use crate::ork_flights::{DRAG_OVERRIDE, EARLY_CHUTE, NO_NAMED_CAUSE};
use crate::text::{chars_eq, chars_of, copy_chars, find, find_slice, lemma_find_from, occurs_at, starts_with, starts_with_slice, str_eq, string_eq, strings_view};

verus! {

/// How OpenRocket's id for a configuration whose own id was not a UUID starts: derived from that
/// id, so two designs can share it.
pub const DERIVED_ID: &'static str = "00000000-0000-0000-";

/// Whether `c` may stand at `at` in a random (version-4) UUID written in lowercase.
pub open spec fn uuid_char(at: int, c: char) -> bool {
    if at == 8 || at == 13 || at == 18 || at == 23 {
        c == '-'
    } else if at == 14 {
        c == '4'
    } else if at == 19 {
        c == '8' || c == '9' || c == 'a' || c == 'b'
    } else {
        ('0' <= c && c <= '9') || ('a' <= c && c <= 'f')
    }
}

/// Whether `id` is a random (version-4) UUID, as OpenRocket makes for a new configuration, and not
/// one of the ids it derives.
pub open spec fn is_random_uuid(id: Seq<char>) -> bool {
    &&& !starts_with(id, DERIVED_ID@)
    &&& id.len() == 36
    &&& forall|at: int| 0 <= at < 36 ==> #[trigger] uuid_char(at, id[at])
}

/// Whether an id is a random (version-4) UUID, as OpenRocket makes for a new configuration.
pub fn random_uuid(id: &str) -> (random: bool)
    ensures
        random == is_random_uuid(id@),
{
    let chars = chars_of(id);
    let derived = chars_of(DERIVED_ID);
    if starts_with_slice(chars.as_slice(), derived.as_slice()) || chars.len() != 36 {
        return false;
    }
    let mut at: usize = 0;
    while at < 36
        invariant
            chars@.len() == 36,
            chars@ == id@,
            0 <= at <= 36,
            forall|k: int| 0 <= k < at ==> #[trigger] uuid_char(k, chars@[k]),
        decreases 36 - at,
    {
        let c = chars[at];
        let ok = if at == 8 || at == 13 || at == 18 || at == 23 {
            c == '-'
        } else if at == 14 {
            c == '4'
        } else if at == 19 {
            c == '8' || c == '9' || c == 'a' || c == 'b'
        } else {
            ('0' <= c && c <= '9') || ('a' <= c && c <= 'f')
        };
        if !ok {
            assert(!uuid_char(at as int, chars@[at as int]));
            return false;
        }
        at += 1;
    }
    true
}

/// A design file found in a record, as [`select`] tells a copy from a new design.
pub struct Candidate {
    /// The file's SHA-256.
    pub sha: String,
    /// The name the file gives its rocket.
    pub name: Option<String>,
    /// The ids of the configurations OpenRocket flew, lowercase; their order does not count.
    pub configurations: Vec<String>,
}

/// What a candidate holds: the configurations as a set.
pub struct CandidateView {
    pub sha: Seq<char>,
    pub name: Option<Seq<char>>,
    pub configurations: Set<Seq<char>>,
}

/// The set of the strings of `v`.
pub open spec fn string_set(v: Seq<String>) -> Set<Seq<char>> {
    strings_view(v).to_set()
}

impl View for Candidate {
    type V = CandidateView;

    open spec fn view(&self) -> CandidateView {
        CandidateView {
            sha: self.sha@,
            name: match self.name {
                Some(n) => Some(n@),
                None => None,
            },
            configurations: string_set(self.configurations@),
        }
    }
}

/// Whether a set of ids has at least one.
pub open spec fn nonempty(ids: Set<Seq<char>>) -> bool {
    exists|id: Seq<char>| ids.contains(id)
}

/// The rocket, as two readings of it share: its name with its configurations' ids, when it has
/// both.
pub open spec fn named_spec(c: CandidateView) -> Option<(Seq<char>, Set<Seq<char>>)> {
    match c.name {
        Some(n) => if n.len() > 0 && nonempty(c.configurations) {
            Some((n, c.configurations))
        } else {
            None
        },
        None => None,
    }
}

/// The rocket by its configurations' ids alone, when every one is a random UUID OpenRocket made.
pub open spec fn configured_spec(c: CandidateView) -> Option<Set<Seq<char>>> {
    if nonempty(c.configurations) && forall|id: Seq<char>| #[trigger] c.configurations.contains(id) ==> is_random_uuid(id) {
        Some(c.configurations)
    } else {
        None
    }
}

/// A copy of a list of strings.
fn copy_strings(v: &Vec<String>) -> (out: Vec<String>)
    ensures
        strings_view(out@) == strings_view(v@),
{
    let mut out: Vec<String> = Vec::new();
    let mut k: usize = 0;
    while k < v.len()
        invariant
            0 <= k <= v.len(),
            strings_view(out@) == strings_view(v@).take(k as int),
        decreases v.len() - k,
    {
        let s = String::from_str(v[k].as_str());
        let ghost before = strings_view(out@);
        out.push(s);
        assert(strings_view(out@) =~= strings_view(v@).take(k + 1)) by {
            assert(strings_view(out@) =~= before.push(v@[k as int]@));
        }
        k += 1;
    }
    assert(strings_view(v@).take(v.len() as int) =~= strings_view(v@));
    out
}

impl Candidate {
    /// The rocket, as two readings of it share: its name with its configurations' ids, when it has
    /// both.
    pub fn named(&self) -> (rocket: Option<(String, Vec<String>)>)
        ensures
            match rocket {
                Some(r) => named_spec(self@) == Some((r.0@, string_set(r.1@))),
                None => named_spec(self@) is None,
            },
    {
        match &self.name {
            Some(n) => {
                if !n.as_str().is_empty() && self.configurations.len() > 0 {
                    assert(self@.configurations.contains(self.configurations@[0]@)) by {
                        assert(strings_view(self.configurations@)[0] == self.configurations@[0]@);
                    }
                    Some((String::from_str(n.as_str()), copy_strings(&self.configurations)))
                } else {
                    proof {
                        if self.configurations.len() == 0 {
                            assert(strings_view(self.configurations@) =~= Seq::<Seq<char>>::empty());
                        }
                    }
                    None
                }
            },
            None => None,
        }
    }

    /// The rocket by its configurations' ids alone, when every one is a random UUID OpenRocket
    /// made: a rocket renamed keeps them.
    pub fn configured(&self) -> (ids: Option<Vec<String>>)
        ensures
            match ids {
                Some(v) => configured_spec(self@) == Some(string_set(v@)),
                None => configured_spec(self@) is None,
            },
    {
        let ghost sv = strings_view(self.configurations@);
        if self.configurations.len() == 0 {
            assert(sv =~= Seq::<Seq<char>>::empty());
            return None;
        }
        assert(self@.configurations.contains(sv[0]));
        let mut k: usize = 0;
        while k < self.configurations.len()
            invariant
                0 <= k <= self.configurations.len(),
                sv == strings_view(self.configurations@),
                forall|m: int| 0 <= m < k ==> is_random_uuid(#[trigger] sv[m]),
            decreases self.configurations.len() - k,
        {
            if !random_uuid(self.configurations[k].as_str()) {
                assert(self@.configurations.contains(sv[k as int]));
                return None;
            }
            k += 1;
        }
        proof {
            assert forall|id: Seq<char>| #[trigger] self@.configurations.contains(id) implies is_random_uuid(id) by {
                let m = choose|m: int| 0 <= m < sv.len() && sv[m] == id;
            }
        }
        Some(copy_strings(&self.configurations))
    }
}

/// The public designs, by file and by rocket.
pub struct Known {
    files: Vec<String>,
    named: Vec<(String, Vec<String>)>,
    configured: Vec<Vec<String>>,
}

/// The designs a [`Known`] holds: their files, their rockets by name and configurations, and their
/// rockets by configurations alone.
pub struct KnownView {
    pub files: Set<Seq<char>>,
    pub named: Set<(Seq<char>, Set<Seq<char>>)>,
    pub configured: Set<Set<Seq<char>>>,
}

/// The rockets of a list of names with their configurations.
pub open spec fn named_seq(v: Seq<(String, Vec<String>)>) -> Seq<(Seq<char>, Set<Seq<char>>)> {
    Seq::new(v.len(), |i: int| (v[i].0@, string_set(v[i].1@)))
}

/// The rockets of a list of configuration lists.
pub open spec fn configured_seq(v: Seq<Vec<String>>) -> Seq<Set<Seq<char>>> {
    Seq::new(v.len(), |i: int| string_set(v[i]@))
}

impl View for Known {
    type V = KnownView;

    closed spec fn view(&self) -> KnownView {
        KnownView {
            files: string_set(self.files@),
            named: named_seq(self.named@).to_set(),
            configured: configured_seq(self.configured@).to_set(),
        }
    }
}

/// No design at all.
pub open spec fn no_designs() -> KnownView {
    KnownView { files: Set::empty(), named: Set::empty(), configured: Set::empty() }
}

/// What [`Known::add`] makes of `k`: `c`'s file, and its rockets where it has them, added.
pub open spec fn add_spec(k: KnownView, c: CandidateView) -> KnownView {
    KnownView {
        files: k.files.insert(c.sha),
        named: match named_spec(c) {
            Some(r) => k.named.insert(r),
            None => k.named,
        },
        configured: match configured_spec(c) {
            Some(ids) => k.configured.insert(ids),
            None => k.configured,
        },
    }
}

/// Whether `k` holds `c`: its file, or its rocket by name and configurations, or by
/// configurations alone.
pub open spec fn holds_spec(k: KnownView, c: CandidateView) -> bool {
    ||| k.files.contains(c.sha)
    ||| (named_spec(c) matches Some(r) && k.named.contains(r))
    ||| (configured_spec(c) matches Some(ids) && k.configured.contains(ids))
}

/// Whether `s` is among the strings of `v`.
fn contains_string(v: &Vec<String>, s: &String) -> (found: bool)
    ensures
        found == string_set(v@).contains(s@),
{
    let mut k: usize = 0;
    while k < v.len()
        invariant
            0 <= k <= v.len(),
            forall|m: int| 0 <= m < k ==> #[trigger] strings_view(v@)[m] != s@,
        decreases v.len() - k,
    {
        if string_eq(&v[k], s) {
            assert(strings_view(v@)[k as int] == s@);
            return true;
        }
        k += 1;
    }
    false
}

/// Whether every string of `a` is among those of `b`.
fn all_in(a: &Vec<String>, b: &Vec<String>) -> (found: bool)
    ensures
        found == string_set(a@).subset_of(string_set(b@)),
{
    let mut k: usize = 0;
    while k < a.len()
        invariant
            0 <= k <= a.len(),
            forall|m: int| 0 <= m < k ==> string_set(b@).contains(#[trigger] strings_view(a@)[m]),
        decreases a.len() - k,
    {
        if !contains_string(b, &a[k]) {
            assert(string_set(a@).contains(strings_view(a@)[k as int]));
            return false;
        }
        k += 1;
    }
    true
}

/// Whether two lists hold the same strings, in any order.
fn same_set(a: &Vec<String>, b: &Vec<String>) -> (same: bool)
    ensures
        same == (string_set(a@) == string_set(b@)),
{
    let x = all_in(a, b);
    let y = all_in(b, a);
    proof {
        if x && y {
            assert(string_set(a@) =~= string_set(b@));
        }
    }
    x && y
}

impl Default for Known {
    fn default() -> (k: Self)
        ensures
            k@ == no_designs(),
    {
        let k = Known { files: Vec::new(), named: Vec::new(), configured: Vec::new() };
        assert(k@.files =~= Set::<Seq<char>>::empty());
        assert(k@.named =~= Set::<(Seq<char>, Set<Seq<char>>)>::empty());
        assert(k@.configured =~= Set::<Set<Seq<char>>>::empty());
        k
    }
}

impl Known {
    /// Adds a design: its file, and its rocket by name and by configurations where it has them.
    pub fn add(&mut self, candidate: &Candidate)
        ensures
            final(self)@ == add_spec(old(self)@, candidate@),
    {
        let ghost before = *self;
        self.files.push(String::from_str(candidate.sha.as_str()));
        assert(string_set(self.files@) =~= string_set(before.files@).insert(candidate.sha@)) by {
            assert(strings_view(self.files@) =~= strings_view(before.files@).push(candidate.sha@));
            strings_view(before.files@).lemma_push_to_set_commute(candidate.sha@);
        }
        match candidate.named() {
            Some(r) => {
                let ghost item = (r.0@, string_set(r.1@));
                self.named.push(r);
                assert(named_seq(self.named@) =~= named_seq(before.named@).push(item));
                proof {
                    named_seq(before.named@).lemma_push_to_set_commute(item);
                }
            },
            None => {},
        }
        match candidate.configured() {
            Some(ids) => {
                let ghost item = string_set(ids@);
                self.configured.push(ids);
                assert(configured_seq(self.configured@) =~= configured_seq(before.configured@).push(item));
                proof {
                    configured_seq(before.configured@).lemma_push_to_set_commute(item);
                }
            },
            None => {},
        }
    }

    /// Whether it holds `candidate`'s file, or its rocket by name and configurations, or by
    /// configurations alone.
    pub fn holds(&self, candidate: &Candidate) -> (held: bool)
        ensures
            held == holds_spec(self@, candidate@),
    {
        if contains_string(&self.files, &candidate.sha) {
            return true;
        }
        let ghost ns = named_seq(self.named@);
        match candidate.named() {
            Some(r) => {
                let mut k: usize = 0;
                while k < self.named.len()
                    invariant
                        0 <= k <= self.named.len(),
                        ns == named_seq(self.named@),
                        named_spec(candidate@) == Some((r.0@, string_set(r.1@))),
                        forall|m: int| 0 <= m < k ==> #[trigger] ns[m] != (r.0@, string_set(r.1@)),
                    decreases self.named.len() - k,
                {
                    if string_eq(&self.named[k].0, &r.0) && same_set(&self.named[k].1, &r.1) {
                        assert(ns[k as int] == (r.0@, string_set(r.1@)));
                        assert(ns.contains(ns[k as int]));
                        assert(self@.named.contains((r.0@, string_set(r.1@))));
                        return true;
                    }
                    k += 1;
                }
            },
            None => {},
        }
        let ghost cs = configured_seq(self.configured@);
        match candidate.configured() {
            Some(ids) => {
                let mut k: usize = 0;
                while k < self.configured.len()
                    invariant
                        0 <= k <= self.configured.len(),
                        cs == configured_seq(self.configured@),
                        configured_spec(candidate@) == Some(string_set(ids@)),
                        forall|m: int| 0 <= m < k ==> #[trigger] cs[m] != string_set(ids@),
                    decreases self.configured.len() - k,
                {
                    if same_set(&self.configured[k], &ids) {
                        assert(cs.contains(cs[k as int]));
                        assert(self@.configured.contains(string_set(ids@)));
                        return true;
                    }
                    k += 1;
                }
            },
            None => {},
        }
        false
    }
}

/// Whether `a` comes before `b` in the order in which strings compare: character by character, a
/// string before those it begins.
pub open spec fn lex_lt(a: Seq<char>, b: Seq<char>) -> bool
    decreases a.len(),
{
    if a.len() == 0 {
        b.len() > 0
    } else if b.len() == 0 {
        false
    } else if a[0] != b[0] {
        a[0] < b[0]
    } else {
        lex_lt(a.drop_first(), b.drop_first())
    }
}

/// No string comes before itself, and two strings do not come before each other.
pub proof fn lemma_lex_asymmetric(a: Seq<char>, b: Seq<char>)
    ensures
        !(lex_lt(a, b) && lex_lt(b, a)),
        !lex_lt(a, a),
    decreases a.len(),
{
    if a.len() > 0 && b.len() > 0 && a[0] == b[0] {
        lemma_lex_asymmetric(a.drop_first(), b.drop_first());
    }
    if a.len() > 0 {
        lemma_lex_asymmetric(a.drop_first(), a.drop_first());
    }
}

/// Of two different strings, one comes before the other.
pub proof fn lemma_lex_total(a: Seq<char>, b: Seq<char>)
    ensures
        a != b ==> lex_lt(a, b) || lex_lt(b, a),
    decreases a.len(),
{
    if a.len() == 0 && b.len() == 0 {
        assert(a =~= b);
    } else if a.len() > 0 && b.len() > 0 && a[0] == b[0] {
        lemma_lex_total(a.drop_first(), b.drop_first());
        if a.drop_first() == b.drop_first() {
            assert(a =~= seq![a[0]] + a.drop_first());
            assert(b =~= seq![b[0]] + b.drop_first());
        }
    }
}

/// Coming before is transitive.
pub proof fn lemma_lex_transitive(a: Seq<char>, b: Seq<char>, c: Seq<char>)
    requires
        lex_lt(a, b),
        lex_lt(b, c),
    ensures
        lex_lt(a, c),
    decreases a.len(),
{
    if a.len() > 0 && b.len() > 0 && c.len() > 0 && a[0] == b[0] && b[0] == c[0] {
        lemma_lex_transitive(a.drop_first(), b.drop_first(), c.drop_first());
    }
}

/// Whether `a` comes before `b`, character by character.
pub fn lex_before(a: &[char], b: &[char]) -> (less: bool)
    ensures
        less == lex_lt(a@, b@),
{
    let mut i: usize = 0;
    assert(a@.skip(0) =~= a@);
    assert(b@.skip(0) =~= b@);
    while i < a.len() && i < b.len() && a[i] == b[i]
        invariant
            0 <= i <= a.len(),
            i <= b.len(),
            lex_lt(a@, b@) == lex_lt(a@.skip(i as int), b@.skip(i as int)),
        decreases a.len() - i,
    {
        assert(a@.skip(i as int).drop_first() =~= a@.skip(i + 1));
        assert(b@.skip(i as int).drop_first() =~= b@.skip(i + 1));
        i += 1;
    }
    if i == a.len() {
        i < b.len()
    } else if i == b.len() {
        false
    } else {
        assert(a@.skip(i as int)[0] == a@[i as int]);
        assert(b@.skip(i as int)[0] == b@[i as int]);
        a[i] < b[i]
    }
}

/// Whether candidate `i` is taken before candidate `j`: in the order of their SHA-256, and of
/// their places among the candidates when the SHA-256 is the same.
pub open spec fn precedes(shas: Seq<Seq<char>>, i: int, j: int) -> bool {
    lex_lt(shas[i], shas[j]) || (shas[i] == shas[j] && i < j)
}

/// Whether `order` lists every candidate, once, in the order they are taken.
pub open spec fn in_sha_order(shas: Seq<Seq<char>>, order: Seq<usize>) -> bool {
    &&& order.len() == shas.len()
    &&& forall|a: int| 0 <= a < order.len() ==> #[trigger] order[a] < shas.len()
    &&& forall|i: usize| i < shas.len() ==> #[trigger] order.contains(i)
    &&& forall|a: int, b: int| 0 <= a < b < order.len() ==> precedes(shas, #[trigger] order[a] as int, #[trigger] order[b] as int)
}

/// The SHA-256 of each candidate.
pub open spec fn shas_of(cs: Seq<CandidateView>) -> Seq<Seq<char>> {
    Seq::new(cs.len(), |i: int| cs[i].sha)
}

/// The views of the candidates.
pub open spec fn candidates_view(cs: Seq<Candidate>) -> Seq<CandidateView> {
    Seq::new(cs.len(), |i: int| cs[i]@)
}

/// Inserting candidate `k`, taken after every candidate of `o` whose SHA-256 it does not come
/// before, and before the rest, keeps the order.
proof fn lemma_insert_in_order(shas: Seq<Seq<char>>, o: Seq<usize>, k: usize, p: int)
    requires
        k < shas.len(),
        0 <= p <= o.len(),
        forall|a: int| 0 <= a < o.len() ==> #[trigger] o[a] < k,
        forall|a: int, b: int| 0 <= a < b < o.len() ==> precedes(shas, #[trigger] o[a] as int, #[trigger] o[b] as int),
        forall|a: int| 0 <= a < p ==> !lex_lt(shas[k as int], shas[#[trigger] o[a] as int]),
        p < o.len() ==> lex_lt(shas[k as int], shas[o[p] as int]),
    ensures
        forall|a: int, b: int| 0 <= a < b < o.len() + 1 ==> precedes(shas, #[trigger] o.insert(p, k)[a] as int, #[trigger] o.insert(p, k)[b] as int),
{
    let n = o.insert(p, k);
    assert forall|a: int, b: int| 0 <= a < b < o.len() + 1 implies precedes(shas, #[trigger] n[a] as int, #[trigger] n[b] as int) by {
        if b < p {
            assert(n[a] == o[a] && n[b] == o[b]);
        } else if b == p {
            let x = o[a] as int;
            assert(n[a] == o[a] && n[b] == k);
            lemma_lex_total(shas[x], shas[k as int]);
        } else if a == p {
            let y = o[b - 1] as int;
            assert(n[a] == k && n[b] == o[b - 1]);
            let z = o[p] as int;
            if b - 1 > p {
                assert(precedes(shas, o[p] as int, o[b - 1] as int));
                if lex_lt(shas[z], shas[y]) {
                    lemma_lex_transitive(shas[k as int], shas[z], shas[y]);
                }
            }
        } else if a < p {
            assert(n[a] == o[a] && n[b] == o[b - 1]);
        } else {
            assert(n[a] == o[a - 1] && n[b] == o[b - 1]);
        }
    }
}

/// The candidates' places among them, in the order they are taken.
fn sha_order(candidates: &[Candidate]) -> (order: Vec<usize>)
    ensures
        in_sha_order(shas_of(candidates_view(candidates@)), order@),
{
    let ghost shas = shas_of(candidates_view(candidates@));
    let mut shas_exec: Vec<Vec<char>> = Vec::new();
    let mut k: usize = 0;
    while k < candidates.len()
        invariant
            0 <= k <= candidates.len(),
            shas == shas_of(candidates_view(candidates@)),
            shas_exec@.len() == k,
            forall|m: int| 0 <= m < k ==> #[trigger] shas_exec@[m]@ == shas[m],
        decreases candidates.len() - k,
    {
        shas_exec.push(chars_of(candidates[k].sha.as_str()));
        k += 1;
    }
    let mut order: Vec<usize> = Vec::new();
    let mut k: usize = 0;
    while k < candidates.len()
        invariant
            0 <= k <= candidates.len(),
            shas == shas_of(candidates_view(candidates@)),
            shas_exec@.len() == candidates.len(),
            forall|m: int| 0 <= m < candidates.len() ==> #[trigger] shas_exec@[m]@ == shas[m],
            order@.len() == k,
            forall|a: int| 0 <= a < order@.len() ==> #[trigger] order@[a] < k,
            forall|i: usize| i < k ==> #[trigger] order@.contains(i),
            forall|a: int, b: int| 0 <= a < b < order@.len() ==> precedes(shas, #[trigger] order@[a] as int, #[trigger] order@[b] as int),
        decreases candidates.len() - k,
    {
        let mut p: usize = 0;
        while p < order.len() && !lex_before(shas_exec[k].as_slice(), shas_exec[order[p]].as_slice())
            invariant
                0 <= p <= order@.len(),
                order@.len() == k,
                k < candidates.len(),
                shas_exec@.len() == candidates.len(),
                forall|m: int| 0 <= m < candidates.len() ==> #[trigger] shas_exec@[m]@ == shas[m],
                forall|a: int| 0 <= a < order@.len() ==> #[trigger] order@[a] < k,
                forall|a: int| 0 <= a < p ==> !lex_lt(shas[k as int], shas[#[trigger] order@[a] as int]),
            decreases order@.len() - p,
        {
            p += 1;
        }
        proof {
            lemma_insert_in_order(shas, order@, k, p as int);
        }
        let ghost before = order@;
        order.insert(p, k);
        assert forall|a: int| 0 <= a < order@.len() implies #[trigger] order@[a] < k + 1 by {
            if a < p {
                assert(order@[a] == before[a]);
            } else if a > p {
                assert(order@[a] == before[a - 1]);
            }
        }
        assert forall|i: usize| i < k + 1 implies #[trigger] order@.contains(i) by {
            if i == k {
                assert(order@[p as int] == k);
            } else {
                assert(before.contains(i));
                let q = choose|q: int| 0 <= q < before.len() && before[q] == i;
                if q < p {
                    assert(order@[q] == i);
                } else {
                    assert(order@[q + 1] == i);
                }
            }
        }
        k += 1;
    }
    order
}

/// What taking the candidates in `order` gives: the candidates kept, how many were public, how
/// many were a second reading of one kept, and the designs kept so far.
pub open spec fn select_fold(cs: Seq<CandidateView>, public: KnownView, order: Seq<usize>) -> (Seq<usize>, nat, nat, KnownView)
    decreases order.len(),
{
    if order.len() == 0 {
        (Seq::empty(), 0, 0, no_designs())
    } else {
        let (kept, p, d, seen) = select_fold(cs, public, order.drop_last());
        let c = cs[order.last() as int];
        if holds_spec(public, c) {
            (kept, p + 1, d, seen)
        } else if holds_spec(seen, c) {
            (kept, p, d + 1, seen)
        } else {
            (kept.push(order.last()), p, d, add_spec(seen, c))
        }
    }
}

/// Which candidates are private designs, in the order of their SHA-256, and how many were left out
/// as public or as a second reading of one kept.
#[derive(Debug, PartialEq, Eq)]
pub struct Selection {
    pub kept: Vec<usize>,
    pub public: usize,
    pub duplicates: usize,
}

/// Whether `selection` is what taking the candidates `cs` in `order` gives.
pub open spec fn selected(selection: Selection, cs: Seq<CandidateView>, public: KnownView, order: Seq<usize>) -> bool {
    let (kept, p, d, _) = select_fold(cs, public, order);
    selection.kept@ == kept && selection.public == p && selection.duplicates == d
}

/// Selects the private designs among `candidates`. A candidate is public when its file or its
/// rocket is a public design's, and a duplicate when its file or its rocket is one already kept.
/// A rocket is its name with its configurations' ids, or those ids alone when OpenRocket made
/// them all (a rocket renamed keeps them). The name alone is never enough: OpenRocket gives every
/// new rocket the same default name.
pub fn select(candidates: &[Candidate], public: &Known) -> (selection: Selection)
    ensures
        exists|order: Seq<usize>|
            #[trigger] in_sha_order(shas_of(candidates_view(candidates@)), order)
                && selected(selection, candidates_view(candidates@), public@, order),
{
    let ghost cs = candidates_view(candidates@);
    let order = sha_order(candidates);
    let mut seen = Known::default();
    let mut selection = Selection { kept: Vec::new(), public: 0, duplicates: 0 };
    let mut i: usize = 0;
    assert(order@.take(0) =~= Seq::<usize>::empty());
    while i < order.len()
        invariant
            0 <= i <= order@.len(),
            cs == candidates_view(candidates@),
            order@.len() == candidates@.len(),
            forall|a: int| 0 <= a < order@.len() ==> #[trigger] order@[a] < candidates@.len(),
            selection.kept@.len() + selection.public + selection.duplicates == i,
            ({
                let (kept, p, d, s) = select_fold(cs, public@, order@.take(i as int));
                selection.kept@ == kept && selection.public == p && selection.duplicates == d && seen@ == s
            }),
        decreases order@.len() - i,
    {
        let index = order[i];
        let candidate = &candidates[index];
        assert(order@.take(i + 1).drop_last() =~= order@.take(i as int));
        assert(order@.take(i + 1).last() == index);
        assert(cs[index as int] == candidate@);
        if public.holds(candidate) {
            selection.public += 1;
        } else if seen.holds(candidate) {
            selection.duplicates += 1;
        } else {
            seen.add(candidate);
            selection.kept.push(index);
        }
        i += 1;
    }
    assert(order@.take(order@.len() as int) =~= order@);
    assert(selected(selection, cs, public@, order@));
    selection
}

/// Two candidates are never taken each before the other, nor one before itself.
pub proof fn lemma_precedes_asymmetric(shas: Seq<Seq<char>>, i: int, j: int)
    ensures
        !(precedes(shas, i, j) && precedes(shas, j, i)),
        !precedes(shas, i, i),
{
    lemma_lex_asymmetric(shas[i], shas[j]);
    lemma_lex_asymmetric(shas[i], shas[i]);
}

/// Two lists of the same candidates, each in the order they are taken, are the same list.
proof fn lemma_sorted_unique(shas: Seq<Seq<char>>, o1: Seq<usize>, o2: Seq<usize>)
    requires
        o1.to_set() == o2.to_set(),
        forall|a: int, b: int| 0 <= a < b < o1.len() ==> precedes(shas, #[trigger] o1[a] as int, #[trigger] o1[b] as int),
        forall|a: int, b: int| 0 <= a < b < o2.len() ==> precedes(shas, #[trigger] o2[a] as int, #[trigger] o2[b] as int),
    ensures
        o1 == o2,
    decreases o1.len(),
{
    if o1.len() == 0 {
        if o2.len() > 0 {
            assert(o2.to_set().contains(o2[0]));
        }
        assert(o1 =~= o2);
    } else {
        assert(o1.to_set().contains(o1[0]));
        assert(o2.to_set().contains(o1[0]));
        assert(o2.len() > 0);
        assert(o2.to_set().contains(o2[0]));
        assert(o1.to_set().contains(o2[0]));
        if o1[0] != o2[0] {
            let m = choose|m: int| 0 <= m < o1.len() && o1[m] == o2[0];
            let j = choose|j: int| 0 <= j < o2.len() && o2[j] == o1[0];
            assert(m > 0 && j > 0);
            assert(precedes(shas, o1[0] as int, o1[m] as int));
            assert(precedes(shas, o2[0] as int, o2[j] as int));
            lemma_precedes_asymmetric(shas, o1[0] as int, o2[0] as int);
        }
        let t1 = o1.drop_first();
        let t2 = o2.drop_first();
        assert forall|x: usize| #[trigger] t1.to_set().contains(x) <==> t2.to_set().contains(x) by {
            if t1.to_set().contains(x) {
                let q = choose|q: int| 0 <= q < t1.len() && t1[q] == x;
                assert(o1[q + 1] == x);
                assert(precedes(shas, o1[0] as int, o1[q + 1] as int));
                lemma_precedes_asymmetric(shas, x as int, x as int);
                assert(x != o1[0]);
                assert(o1.to_set().contains(x));
                assert(o2.to_set().contains(x));
                let r = choose|r: int| 0 <= r < o2.len() && o2[r] == x;
                assert(r != 0);
                assert(t2[r - 1] == x);
            }
            if t2.to_set().contains(x) {
                let q = choose|q: int| 0 <= q < t2.len() && t2[q] == x;
                assert(o2[q + 1] == x);
                assert(precedes(shas, o2[0] as int, o2[q + 1] as int));
                lemma_precedes_asymmetric(shas, x as int, x as int);
                assert(x != o2[0]);
                assert(o2.to_set().contains(x));
                assert(o1.to_set().contains(x));
                let r = choose|r: int| 0 <= r < o1.len() && o1[r] == x;
                assert(r != 0);
                assert(t1[r - 1] == x);
            }
        }
        assert(t1.to_set() =~= t2.to_set());
        assert forall|a: int, b: int| 0 <= a < b < t1.len() implies precedes(shas, #[trigger] t1[a] as int, #[trigger] t1[b] as int) by {
            assert(t1[a] == o1[a + 1] && t1[b] == o1[b + 1]);
        }
        assert forall|a: int, b: int| 0 <= a < b < t2.len() implies precedes(shas, #[trigger] t2[a] as int, #[trigger] t2[b] as int) by {
            assert(t2[a] == o2[a + 1] && t2[b] == o2[b + 1]);
        }
        lemma_sorted_unique(shas, t1, t2);
        assert(o1 =~= seq![o1[0]] + t1);
        assert(o2 =~= seq![o2[0]] + t2);
    }
}

/// There is one order in which the candidates are taken: so [`select`]'s result is determined.
pub proof fn lemma_sha_order_unique(shas: Seq<Seq<char>>, o1: Seq<usize>, o2: Seq<usize>)
    requires
        in_sha_order(shas, o1),
        in_sha_order(shas, o2),
    ensures
        o1 == o2,
{
    assert forall|x: usize| #[trigger] o1.to_set().contains(x) <==> o2.to_set().contains(x) by {
        if o1.to_set().contains(x) {
            let q = choose|q: int| 0 <= q < o1.len() && o1[q] == x;
            assert(o1[q] < shas.len());
            assert(o2.contains(x));
        }
        if o2.to_set().contains(x) {
            let q = choose|q: int| 0 <= q < o2.len() && o2[q] == x;
            assert(o2[q] < shas.len());
            assert(o1.contains(x));
        }
    }
    assert(o1.to_set() =~= o2.to_set());
    lemma_sorted_unique(shas, o1, o2);
}

/// A candidate added is held: its file is.
pub proof fn lemma_added_is_held(k: KnownView, c: CandidateView)
    ensures
        holds_spec(add_spec(k, c), c),
{
    assert(add_spec(k, c).files.contains(c.sha));
}

/// Every candidate is counted once: kept, public, or a duplicate.
pub proof fn lemma_counted_once(cs: Seq<CandidateView>, public: KnownView, order: Seq<usize>)
    ensures
        select_fold(cs, public, order).0.len() + select_fold(cs, public, order).1 + select_fold(cs, public, order).2 == order.len(),
    decreases order.len(),
{
    if order.len() > 0 {
        lemma_counted_once(cs, public, order.drop_last());
    }
}

/// What a candidate adds to the designs kept is within them once it is kept.
pub open spec fn within(c: CandidateView, k: KnownView) -> bool {
    &&& k.files.contains(c.sha)
    &&& (named_spec(c) matches Some(r) ==> k.named.contains(r))
    &&& (configured_spec(c) matches Some(ids) ==> k.configured.contains(ids))
}

/// The designs kept, taken in `order`, are each in the designs held, come from `order`, and are
/// neither public nor held by the designs kept before them.
proof fn lemma_kept_invariant(cs: Seq<CandidateView>, public: KnownView, order: Seq<usize>)
    requires
        forall|a: int| 0 <= a < order.len() ==> #[trigger] order[a] < cs.len(),
    ensures
        ({
            let (kept, _, _, seen) = select_fold(cs, public, order);
            &&& forall|a: int| 0 <= a < kept.len() ==> within(cs[#[trigger] kept[a] as int], seen)
            &&& forall|a: int| 0 <= a < kept.len() ==> order.contains(#[trigger] kept[a])
            &&& forall|a: int| 0 <= a < kept.len() ==> !holds_spec(public, cs[#[trigger] kept[a] as int])
            &&& forall|a: int, b: int| 0 <= a < b < kept.len()
                ==> !holds_spec(add_spec(no_designs(), cs[#[trigger] kept[a] as int]), cs[#[trigger] kept[b] as int])
        }),
    decreases order.len(),
{
    if order.len() > 0 {
        let rest = order.drop_last();
        lemma_kept_invariant(cs, public, rest);
        let (kept, _, _, seen) = select_fold(cs, public, rest);
        let (kept2, _, _, seen2) = select_fold(cs, public, order);
        let x = order.last();
        let c = cs[x as int];
        assert forall|a: int| 0 <= a < kept.len() implies order.contains(#[trigger] kept[a]) by {
            assert(rest.contains(kept[a]));
            let q = choose|q: int| 0 <= q < rest.len() && rest[q] == kept[a];
            assert(order[q] == kept[a]);
        }
        if !holds_spec(public, c) && !holds_spec(seen, c) {
            assert(kept2 == kept.push(x));
            assert(seen2 == add_spec(seen, c));
            assert forall|a: int| 0 <= a < kept2.len() implies within(cs[#[trigger] kept2[a] as int], seen2) by {
                if a < kept.len() {
                    assert(kept2[a] == kept[a]);
                    assert(within(cs[kept[a] as int], seen));
                }
            }
            assert(order.contains(x)) by {
                assert(order[order.len() - 1] == x);
            }
            assert forall|a: int, b: int| 0 <= a < b < kept2.len()
                implies !holds_spec(add_spec(no_designs(), cs[#[trigger] kept2[a] as int]), cs[#[trigger] kept2[b] as int]) by {
                if b == kept.len() {
                    let y = cs[kept[a] as int];
                    assert(kept2[a] == kept[a]);
                    assert(within(y, seen));
                    let single = add_spec(no_designs(), y);
                    if single.files.contains(c.sha) {
                        assert(c.sha == y.sha);
                    }
                    match named_spec(c) {
                        Some(r) => {
                            if single.named.contains(r) {
                                assert(named_spec(y) == Some(r));
                            }
                        },
                        None => {},
                    }
                    match configured_spec(c) {
                        Some(ids) => {
                            if single.configured.contains(ids) {
                                assert(configured_spec(y) == Some(ids));
                            }
                        },
                        None => {},
                    }
                } else {
                    assert(kept2[a] == kept[a] && kept2[b] == kept[b]);
                }
            }
        }
    }
}

/// Of the candidates taken in the order of their SHA-256, those kept are in that order, none is
/// public, and none is a copy of one kept before it: the same file, or the same rocket.
pub proof fn lemma_kept_are_private_and_once(cs: Seq<CandidateView>, public: KnownView, order: Seq<usize>)
    requires
        in_sha_order(shas_of(cs), order),
    ensures
        ({
            let kept = select_fold(cs, public, order).0;
            &&& forall|a: int| 0 <= a < kept.len() ==> !holds_spec(public, cs[#[trigger] kept[a] as int])
            &&& forall|a: int, b: int| 0 <= a < b < kept.len()
                ==> !holds_spec(add_spec(no_designs(), cs[#[trigger] kept[a] as int]), cs[#[trigger] kept[b] as int])
            &&& forall|a: int, b: int| 0 <= a < b < kept.len()
                ==> precedes(shas_of(cs), #[trigger] kept[a] as int, #[trigger] kept[b] as int)
        }),
    decreases order.len(),
{
    lemma_kept_invariant(cs, public, order);
    lemma_kept_in_order(cs, public, order);
}

/// The candidates kept come in the order of `order`.
proof fn lemma_kept_in_order(cs: Seq<CandidateView>, public: KnownView, order: Seq<usize>)
    requires
        in_sha_order(shas_of(cs), order),
    ensures
        forall|a: int, b: int| 0 <= a < b < select_fold(cs, public, order).0.len()
            ==> precedes(shas_of(cs), #[trigger] select_fold(cs, public, order).0[a] as int, #[trigger] select_fold(cs, public, order).0[b] as int),
    decreases order.len(),
{
    if order.len() > 0 {
        let rest = order.drop_last();
        let shas = shas_of(cs);
        assert forall|a: int, b: int| 0 <= a < b < rest.len() implies precedes(shas, #[trigger] rest[a] as int, #[trigger] rest[b] as int) by {
            assert(rest[a] == order[a] && rest[b] == order[b]);
        }
        lemma_sorted_prefix_kept(cs, public, rest);
        let kept = select_fold(cs, public, rest).0;
        let kept2 = select_fold(cs, public, order).0;
        let x = order.last();
        assert forall|a: int, b: int| 0 <= a < b < kept2.len() implies precedes(shas, #[trigger] kept2[a] as int, #[trigger] kept2[b] as int) by {
            if b < kept.len() {
                assert(kept2[a] == kept[a] && kept2[b] == kept[b]);
            } else {
                assert(kept2[a] == kept[a]);
                assert(kept2[b] == x);
                assert(rest.contains(kept[a]));
                let q = choose|q: int| 0 <= q < rest.len() && rest[q] == kept[a];
                assert(order[q] == kept[a]);
                assert(precedes(shas, order[q] as int, order[order.len() - 1] as int));
            }
        }
    }
}

/// The candidates kept from a list in the order they are taken are in that order and come from it.
proof fn lemma_sorted_prefix_kept(cs: Seq<CandidateView>, public: KnownView, order: Seq<usize>)
    requires
        forall|a: int, b: int| 0 <= a < b < order.len() ==> precedes(shas_of(cs), #[trigger] order[a] as int, #[trigger] order[b] as int),
    ensures
        forall|a: int, b: int| 0 <= a < b < select_fold(cs, public, order).0.len()
            ==> precedes(shas_of(cs), #[trigger] select_fold(cs, public, order).0[a] as int, #[trigger] select_fold(cs, public, order).0[b] as int),
        forall|a: int| 0 <= a < select_fold(cs, public, order).0.len() ==> order.contains(#[trigger] select_fold(cs, public, order).0[a]),
    decreases order.len(),
{
    if order.len() > 0 {
        let rest = order.drop_last();
        let shas = shas_of(cs);
        assert forall|a: int, b: int| 0 <= a < b < rest.len() implies precedes(shas, #[trigger] rest[a] as int, #[trigger] rest[b] as int) by {
            assert(rest[a] == order[a] && rest[b] == order[b]);
        }
        lemma_sorted_prefix_kept(cs, public, rest);
        let kept = select_fold(cs, public, rest).0;
        let kept2 = select_fold(cs, public, order).0;
        let x = order.last();
        assert forall|a: int| 0 <= a < kept.len() implies order.contains(#[trigger] kept[a]) by {
            let q = choose|q: int| 0 <= q < rest.len() && rest[q] == kept[a];
            assert(order[q] == kept[a]);
        }
        assert forall|a: int| 0 <= a < kept2.len() implies order.contains(#[trigger] kept2[a]) by {
            if a < kept.len() {
                assert(kept2[a] == kept[a]);
            } else {
                assert(kept2[a] == x);
                assert(order[order.len() - 1] == x);
            }
        }
        assert forall|a: int, b: int| 0 <= a < b < kept2.len() implies precedes(shas, #[trigger] kept2[a] as int, #[trigger] kept2[b] as int) by {
            if b < kept.len() {
                assert(kept2[a] == kept[a] && kept2[b] == kept[b]);
            } else {
                assert(kept2[a] == kept[a]);
                assert(kept2[b] == x);
                let q = choose|q: int| 0 <= q < rest.len() && rest[q] == kept[a];
                assert(order[q] == kept[a]);
                assert(precedes(shas, order[q] as int, order[order.len() - 1] as int));
            }
        }
    }
}

/// Whether a library file is the file the record flew, or why not: its SHA-256 differs from the
/// one the record gives. The error names no file.
pub fn check_library_file(bytes: &[u8], recorded: &str) -> (checked: Result<(), String>)
    ensures
        checked is Ok <==> lower_hex(sha256_of(bytes@)) == recorded@,
        checked matches Err(e) ==> e@ == "a library file is not the file the record flew (SHA-256 differs)"@,
{
    if same_file(bytes, recorded) {
        Ok(())
    } else {
        Err(String::from_str("a library file is not the file the record flew (SHA-256 differs)"))
    }
}

/// The decimals a published difference keeps.
pub const DIGITS: i32 = 6;

/// The decimals a published mass difference keeps, in per cent: fewer, since across a design's
/// configurations they would give the ratios of its launch masses.
pub const MASS_DIGITS: i32 = 3;

/// The decimals of how early OpenRocket's parachute opened, in seconds.
pub const CHUTE_DIGITS: i32 = 2;

/// The digits each number of a published row is rounded to, by its key.
pub open spec fn digits_spec(key: Seq<char>) -> i32 {
    if key == "launch_mass_percent"@ || key == "rod_clearance_mass_percent"@ {
        MASS_DIGITS
    } else if key == "chute_early_s"@ {
        CHUTE_DIGITS
    } else {
        DIGITS
    }
}

/// The digits each number of a row is rounded to.
pub fn digits_of(key: &str) -> (digits: i32)
    ensures
        digits == digits_spec(key@),
{
    if str_eq(key, "launch_mass_percent") || str_eq(key, "rod_clearance_mass_percent") {
        MASS_DIGITS
    } else if str_eq(key, "chute_early_s") {
        CHUTE_DIGITS
    } else {
        DIGITS
    }
}

/// The cause an anonymised row's difference under `key` is summarised under, given whether the row
/// counts drag overrides not applied and whether it says how early the reference parachute
/// opened: as the flights' report names it.
pub open spec fn row_cause_spec(drag_overrides: bool, chute_early: bool, key: Seq<char>) -> Seq<char> {
    if key == "margin_cal"@ {
        NO_NAMED_CAUSE@
    } else if drag_overrides {
        DRAG_OVERRIDE@
    } else if key == "apogee_percent"@ && chute_early {
        EARLY_CHUTE@
    } else {
        NO_NAMED_CAUSE@
    }
}

/// The cause an anonymised row's difference in the metric `key` is summarised under.
pub fn row_cause(drag_overrides: bool, chute_early: bool, key: &str) -> (named: &'static str)
    ensures
        named@ == row_cause_spec(drag_overrides, chute_early, key@),
{
    if str_eq(key, "margin_cal") {
        NO_NAMED_CAUSE
    } else if drag_overrides {
        DRAG_OVERRIDE
    } else if str_eq(key, "apogee_percent") && chute_early {
        EARLY_CHUTE
    } else {
        NO_NAMED_CAUSE
    }
}


/// The five spreads a design needs a flight in to count toward the bar of designs.
pub open spec fn five() -> Seq<Seq<char>> {
    seq![
        "apogee_percent"@,
        "max_speed_percent"@,
        "margin_cal"@,
        "launch_mass_percent"@,
        "rod_clearance_cg_cal"@,
    ]
}

/// A flight's row as the count of designs reads it: the flight's id where it is a string, and
/// the keys whose value is a floating-point number.
pub struct ComparedRow {
    pub flight: Option<String>,
    pub floats: Vec<String>,
}

/// Whether a row holds a number in each of the five spreads.
pub open spec fn in_all_five(floats: Seq<Seq<char>>) -> bool {
    forall|k: int| 0 <= k < 5 ==> floats.contains(#[trigger] five()[k])
}

/// The design a flight belongs to: its id up to the first `/`.
pub open spec fn design_of(flight: Seq<char>) -> Seq<char> {
    match find(flight, seq!['/']) {
        Some(i) => flight.take(i),
        None => flight,
    }
}

/// The design a row counts toward, if it counts toward one.
pub open spec fn counted_design(row: ComparedRow) -> Option<Seq<char>> {
    match row.flight {
        Some(f) => if in_all_five(strings_view(row.floats@)) {
            Some(design_of(f@))
        } else {
            None
        },
        None => None,
    }
}

/// The designs with a flight compared in all five spreads.
pub open spec fn designs_in_all_five(rows: Seq<ComparedRow>) -> Set<Seq<char>> {
    Set::new(|d: Seq<char>| exists|i: int| 0 <= i < rows.len() && #[trigger] counted_design(rows[i]) == Some(d))
}

/// Whether `key` is among `keys`.
fn holds_key(keys: &Vec<String>, key: &str) -> (found: bool)
    ensures
        found == strings_view(keys@).contains(key@),
{
    let mut i: usize = 0;
    while i < keys.len()
        invariant
            0 <= i <= keys.len(),
            forall|j: int| 0 <= j < i ==> strings_view(keys@)[j] != key@,
        decreases keys.len() - i,
    {
        if str_eq(keys[i].as_str(), key) {
            assert(strings_view(keys@)[i as int] == key@);
            return true;
        }
        i += 1;
    }
    false
}

/// Whether a row's numbers cover the five spreads.
fn covers_five(floats: &Vec<String>) -> (all: bool)
    ensures
        all == in_all_five(strings_view(floats@)),
{
    let a = holds_key(floats, "apogee_percent");
    let b = holds_key(floats, "max_speed_percent");
    let c = holds_key(floats, "margin_cal");
    let d = holds_key(floats, "launch_mass_percent");
    let e = holds_key(floats, "rod_clearance_cg_cal");
    proof {
        let f = five();
        assert(f[0] == "apogee_percent"@ && f[1] == "max_speed_percent"@ && f[2] == "margin_cal"@);
        assert(f[3] == "launch_mass_percent"@ && f[4] == "rod_clearance_cg_cal"@);
        if a && b && c && d && e {
            assert forall|k: int| 0 <= k < 5 implies strings_view(floats@).contains(#[trigger] f[k]) by {
                if k == 0 {} else if k == 1 {} else if k == 2 {} else if k == 3 {} else {}
            }
        } else if !a {
            assert(!strings_view(floats@).contains(f[0]));
        } else if !b {
            assert(!strings_view(floats@).contains(f[1]));
        } else if !c {
            assert(!strings_view(floats@).contains(f[2]));
        } else if !d {
            assert(!strings_view(floats@).contains(f[3]));
        } else {
            assert(!strings_view(floats@).contains(f[4]));
        }
    }
    a && b && c && d && e
}

/// Whether `seen` holds `design`.
fn seen_before(seen: &Vec<Vec<char>>, design: &[char]) -> (found: bool)
    ensures
        found == seen@.map_values(|v: Vec<char>| v@).contains(design@),
{
    let ghost views = seen@.map_values(|v: Vec<char>| v@);
    let mut i: usize = 0;
    while i < seen.len()
        invariant
            0 <= i <= seen.len(),
            views == seen@.map_values(|v: Vec<char>| v@),
            forall|j: int| 0 <= j < i ==> views[j] != design@,
        decreases seen.len() - i,
    {
        if chars_eq(seen[i].as_slice(), design) {
            assert(views[i as int] == design@);
            return true;
        }
        i += 1;
    }
    false
}

/// How many designs have a flight compared in all five spreads: each design counted once, by its
/// id up to the first `/`, and a row without a flight id counted toward none.
pub fn designs_with_all_five(rows: &[ComparedRow]) -> (n: usize)
    ensures
        designs_in_all_five(rows@).finite(),
        n == designs_in_all_five(rows@).len(),
{
    let mut seen: Vec<Vec<char>> = Vec::new();
    let mut i: usize = 0;
    while i < rows.len()
        invariant
            0 <= i <= rows.len(),
            seen@.map_values(|v: Vec<char>| v@).no_duplicates(),
            seen@.map_values(|v: Vec<char>| v@).to_set() == designs_in_all_five(rows@.take(i as int)),
        decreases rows.len() - i,
    {
        let ghost before = seen@.map_values(|v: Vec<char>| v@);
        let row = &rows[i];
        let mut counted: Option<Vec<char>> = None;
        if let Some(f) = &row.flight {
            if covers_five(&row.floats) {
                let chars = chars_of(f.as_str());
                let slash = ['/'];
                let design = match find_slice(chars.as_slice(), &slash, 0) {
                    Some(k) => {
                        proof {
                            lemma_find_from(chars@, slash@, 0);
                        }
                        copy_chars(vstd::slice::slice_subrange(chars.as_slice(), 0, k))
                    },
                    None => chars,
                };
                assert(slash@ == seq!['/']);
                counted = Some(design);
            }
        }
        proof {
            assert(counted_design(rows@[i as int]) == match counted { Some(d) => Some(d@), None => None::<Seq<char>> });
        }
        match counted {
            Some(design) => {
                if !seen_before(&seen, design.as_slice()) {
                    let ghost d = design@;
                    seen.push(design);
                    proof {
                        let after = seen@.map_values(|v: Vec<char>| v@);
                        assert(after =~= before.push(d));
                        assert forall|a: int, b: int| 0 <= a < after.len() && 0 <= b < after.len() && a != b
                            implies after[a] != after[b] by {
                            if a < before.len() && b < before.len() {
                                assert(after[a] == before[a] && after[b] == before[b]);
                            } else if a < before.len() {
                                assert(after[a] == before[a]);
                            } else {
                                assert(after[b] == before[b]);
                            }
                        }
                    }
                }
            },
            None => {},
        }
        proof {
            let after = seen@.map_values(|v: Vec<char>| v@);
            let next = designs_in_all_five(rows@.take(i + 1));
            let prev = designs_in_all_five(rows@.take(i as int));
            assert(rows@.take(i + 1).drop_last() =~= rows@.take(i as int));
            assert forall|d: Seq<char>| after.to_set().contains(d) implies #[trigger] next.contains(d) by {
                {
                    let j = choose|j: int| 0 <= j < after.len() && after[j] == d;
                    if j < before.len() {
                        assert(before[j] == d);
                        assert(before.to_set().contains(d));
                        let r = choose|r: int| 0 <= r < i && #[trigger] counted_design(rows@.take(i as int)[r]) == Some(d);
                        assert(rows@.take(i + 1)[r] == rows@.take(i as int)[r]);
                    } else {
                        assert(rows@.take(i + 1)[i as int] == rows@[i as int]);
                    }
                }
            }
            assert forall|d: Seq<char>| next.contains(d) implies #[trigger] after.to_set().contains(d) by {
                let r = choose|r: int| 0 <= r < i + 1 && #[trigger] counted_design(rows@.take(i + 1)[r]) == Some(d);
                if r < i {
                    assert(rows@.take(i + 1)[r] == rows@.take(i as int)[r]);
                    assert(prev.contains(d));
                    assert(before.to_set().contains(d));
                    let j = choose|j: int| 0 <= j < before.len() && before[j] == d;
                    assert(after[j] == d);
                } else {
                    assert(rows@.take(i + 1)[r] == rows@[i as int]);
                    if before.contains(d) {
                        let j = choose|j: int| 0 <= j < before.len() && before[j] == d;
                        assert(after[j] == d);
                    } else {
                        assert(after[after.len() - 1] == d);
                    }
                }
            }
            assert(after.to_set() =~= next);
        }
        i += 1;
    }
    proof {
        let views = seen@.map_values(|v: Vec<char>| v@);
        assert(rows@.take(rows@.len() as int) =~= rows@);
        views.unique_seq_to_set();
        vstd::seq_lib::seq_to_set_is_finite(views);
    }
    seen.len()
}

/// Whether `keys` holds each of the five spreads by name: the apogee, the largest speed, the
/// margin, the launch mass and the centre of mass at rod clearance.
pub open spec fn names_the_five(keys: Seq<Seq<char>>) -> bool {
    &&& keys.contains("apogee_percent"@)
    &&& keys.contains("max_speed_percent"@)
    &&& keys.contains("margin_cal"@)
    &&& keys.contains("launch_mass_percent"@)
    &&& keys.contains("rod_clearance_cg_cal"@)
}

/// A design is counted exactly when some row has a flight id up to its first `/` that is the
/// design, and a number in each of the five spreads; a design is the part of an id before any
/// `/`, the whole id when it has none.
pub proof fn lemma_a_design_counts_exactly_with_all_five(rows: Seq<ComparedRow>, d: Seq<char>)
    ensures
        designs_in_all_five(rows).contains(d) <==> exists|i: int|
            0 <= i < rows.len() && (#[trigger] rows[i]).flight is Some && design_of(rows[i].flight->0@) == d
                && names_the_five(strings_view(rows[i].floats@)),
        forall|f: Seq<char>| #![trigger design_of(f)] {
            &&& !design_of(f).contains('/')
            &&& (design_of(f) == f || (design_of(f).len() < f.len() && f[design_of(f).len() as int] == '/'
                && f.take(design_of(f).len() as int) == design_of(f)))
        },
{
    let f5 = five();
    assert(f5[0] == "apogee_percent"@ && f5[1] == "max_speed_percent"@ && f5[2] == "margin_cal"@);
    assert(f5[3] == "launch_mass_percent"@ && f5[4] == "rod_clearance_cg_cal"@);
    assert forall|keys: Seq<Seq<char>>| #[trigger] in_all_five(keys) <==> names_the_five(keys) by {
        if names_the_five(keys) {
            assert forall|k: int| 0 <= k < 5 implies keys.contains(#[trigger] f5[k]) by {
                if k == 0 {} else if k == 1 {} else if k == 2 {} else if k == 3 {} else {}
            }
        }
        if in_all_five(keys) {
            assert(keys.contains(f5[0]) && keys.contains(f5[1]) && keys.contains(f5[2]));
            assert(keys.contains(f5[3]) && keys.contains(f5[4]));
        }
    }
    if designs_in_all_five(rows).contains(d) {
        let i = choose|i: int| 0 <= i < rows.len() && #[trigger] counted_design(rows[i]) == Some(d);
        assert(in_all_five(strings_view(rows[i].floats@)));
        assert(rows[i].flight is Some && design_of(rows[i].flight->0@) == d && names_the_five(strings_view(rows[i].floats@)));
    }
    if exists|i: int| 0 <= i < rows.len() && (#[trigger] rows[i]).flight is Some && design_of(rows[i].flight->0@) == d
        && names_the_five(strings_view(rows[i].floats@)) {
        let i = choose|i: int| 0 <= i < rows.len() && (#[trigger] rows[i]).flight is Some && design_of(rows[i].flight->0@) == d
            && names_the_five(strings_view(rows[i].floats@));
        assert(in_all_five(strings_view(rows[i].floats@)));
        assert(counted_design(rows[i]) == Some(d));
    }
    assert forall|f: Seq<char>| #![trigger design_of(f)] {
        &&& !design_of(f).contains('/')
        &&& (design_of(f) == f || (design_of(f).len() < f.len() && f[design_of(f).len() as int] == '/'
            && f.take(design_of(f).len() as int) == design_of(f)))
    } by {
        let slash = seq!['/'];
        lemma_find_from(f, slash, 0);
        match find(f, slash) {
            Some(i) => {
                assert(f.subrange(i, i + 1) =~= slash);
                assert(f[i] == '/') by {
                    assert(f.subrange(i, i + 1)[0] == f[i]);
                }
                if design_of(f).contains('/') {
                    let j = choose|j: int| 0 <= j < design_of(f).len() && design_of(f)[j] == '/';
                    assert(f.subrange(j, j + 1) =~= slash);
                    assert(occurs_at(f, slash, j));
                }
            },
            None => {
                if f.contains('/') {
                    let j = choose|j: int| 0 <= j < f.len() && f[j] == '/';
                    assert(f.subrange(j, j + 1) =~= slash);
                    assert(occurs_at(f, slash, j));
                }
            },
        }
    }
}

/// Where the private library's designs are, under the repository.
pub const LIBRARY_DIR: &'static str = "refs/loft-fixtures/";

/// Why the library is not flown when the driver failed on one of its files.
pub const DRIVER_FAILED: &'static str = "flights.py failed on a library file; fix it and write corpus-out/openrocket-flights.json again";

/// Why the library is not flown when the record lists no flights for a file OpenRocket opened.
pub const NO_FLIGHTS: &'static str = "corpus-out/openrocket-flights.json holds a library file with no flights";

/// A design of the record, as the library's flights read it: its file, where the record names
/// one, whether the driver failed on it, whether OpenRocket refused to open it, and whether the
/// record lists its flights.
pub struct LibraryEntry {
    pub file: Option<String>,
    pub driver_error: bool,
    pub refused: bool,
    pub has_flights: bool,
}

/// What the record holds of the library: how many of its designs are library files, how many of
/// those OpenRocket did not open, and, in order, where the record holds those it flew.
pub struct LibraryEntries {
    pub in_library: usize,
    pub not_opened: usize,
    pub flown: Vec<usize>,
}

/// Whether a design of the record is a library file.
pub open spec fn in_library(e: LibraryEntry) -> bool {
    match e.file {
        Some(f) => starts_with(f@, LIBRARY_DIR@),
        None => false,
    }
}

/// The library files among the first designs `es`: how many, how many not opened, and where
/// those flown stand; or why the library cannot be flown, for the first file that stops it.
pub open spec fn library_fold(es: Seq<LibraryEntry>) -> Result<(nat, nat, Seq<usize>), Seq<char>>
    decreases es.len(),
{
    if es.len() == 0 {
        Ok((0nat, 0nat, Seq::empty()))
    } else {
        match library_fold(es.drop_last()) {
            Err(m) => Err(m),
            Ok((n, refused, flown)) => {
                let e = es.last();
                if !in_library(e) {
                    Ok((n, refused, flown))
                } else if e.driver_error {
                    Err(DRIVER_FAILED@)
                } else if !e.has_flights {
                    if e.refused {
                        Ok((n + 1, refused + 1, flown))
                    } else {
                        Err(NO_FLIGHTS@)
                    }
                } else {
                    Ok((n + 1, refused, flown.push((es.len() - 1) as usize)))
                }
            },
        }
    }
}

/// What the record holds of the library, in order of its designs: a file the driver failed on
/// stops the flights, a file OpenRocket refused counts as not opened, and a file it opened with
/// no flights listed stops them too; every other library file is flown.
pub fn library_entries(entries: &Vec<LibraryEntry>) -> (held: Result<LibraryEntries, String>)
    ensures
        match held {
            Ok(h) => library_fold(entries@) == Ok::<(nat, nat, Seq<usize>), Seq<char>>((h.in_library as nat, h.not_opened as nat, h.flown@)),
            Err(m) => library_fold(entries@) == Err::<(nat, nat, Seq<usize>), Seq<char>>(m@),
        },
{
    let dir = chars_of(LIBRARY_DIR);
    let mut in_lib: usize = 0;
    let mut not_opened: usize = 0;
    let mut flown: Vec<usize> = Vec::new();
    let mut i: usize = 0;
    assert(entries@.take(0) =~= Seq::<LibraryEntry>::empty());
    while i < entries.len()
        invariant
            0 <= i <= entries.len(),
            dir@ == LIBRARY_DIR@,
            not_opened <= in_lib <= i,
            library_fold(entries@.take(i as int)) == Ok::<(nat, nat, Seq<usize>), Seq<char>>((in_lib as nat, not_opened as nat, flown@)),
        decreases entries.len() - i,
    {
        let e = &entries[i];
        assert(entries@.take(i + 1).drop_last() =~= entries@.take(i as int));
        assert(entries@.take(i + 1).last() == *e);
        let listed = match &e.file {
            Some(f) => {
                let fc = chars_of(f.as_str());
                starts_with_slice(fc.as_slice(), dir.as_slice())
            },
            None => false,
        };
        if listed {
            if e.driver_error {
                proof {
                    assert(library_fold(entries@.take(i + 1)) == Err::<(nat, nat, Seq<usize>), Seq<char>>(DRIVER_FAILED@));
                    lemma_fold_stops(entries@, (i + 1) as int);
                }
                return Err(String::from_str(DRIVER_FAILED));
            }
            if !e.has_flights {
                if e.refused {
                    in_lib = in_lib + 1;
                    not_opened = not_opened + 1;
                } else {
                    proof {
                        assert(library_fold(entries@.take(i + 1)) == Err::<(nat, nat, Seq<usize>), Seq<char>>(NO_FLIGHTS@));
                        lemma_fold_stops(entries@, (i + 1) as int);
                    }
                    return Err(String::from_str(NO_FLIGHTS));
                }
            } else {
                in_lib = in_lib + 1;
                flown.push(i);
            }
        }
        i += 1;
    }
    assert(entries@.take(entries.len() as int) =~= entries@);
    Ok(LibraryEntries { in_library: in_lib, not_opened, flown })
}

/// Once a file stops the flights, the designs after it do not change why.
proof fn lemma_fold_stops(es: Seq<LibraryEntry>, i: int)
    requires
        0 <= i <= es.len(),
    ensures
        library_fold(es.take(i)) is Err ==> library_fold(es) == library_fold(es.take(i)),
    decreases es.len() - i,
{
    if i < es.len() {
        lemma_fold_stops(es, i + 1);
        assert(es.take(i + 1).drop_last() =~= es.take(i));
    } else {
        assert(es.take(i) =~= es);
    }
}

} // verus!
