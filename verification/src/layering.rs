//! Which workspace crates are allowed to reach which others.
//!
//! A crate that has to be usable on its own names, in its manifest, the crates that must never
//! reach it. The check walks the dependencies between workspace crates only (an outside crate is
//! not a layer of the project) and, for each rule broken, names the shortest path that breaks it.
use vstd::prelude::*;

use crate::text::{join, join_strings, strings_view, string_eq};

verus! {

/// An example program of a package.
pub struct Example {
    pub name: String,
    /// Its main source file.
    pub src_path: String,
}

/// A crate of the workspace, as its manifest describes it.
pub struct Package {
    pub name: String,
    /// Whether it belongs to the pure core that must build for wasm.
    pub wasm: bool,
    /// The crates that must never be reachable from it.
    pub forbids: Vec<String>,
    /// Its library target, when it has one.
    pub lib: Option<String>,
    /// The crates it depends on (normal, build and target-specific ones).
    pub dependencies: Vec<String>,
    pub examples: Vec<Example>,
}

/// The workspace: its root directory and its crates.
pub struct Workspace {
    pub root: String,
    pub packages: Vec<Package>,
}

/// Whether some crate of `pkgs` is called `n`.
pub open spec fn is_member(pkgs: Seq<Package>, n: Seq<char>) -> bool {
    exists|i: int| 0 <= i < pkgs.len() && #[trigger] pkgs[i].name@ == n
}

/// Whether `i` is the first crate of `pkgs` called `n`.
pub open spec fn first_named(pkgs: Seq<Package>, n: Seq<char>, i: int) -> bool {
    &&& 0 <= i < pkgs.len()
    &&& pkgs[i].name@ == n
    &&& forall|j: int| 0 <= j < i ==> #[trigger] pkgs[j].name@ != n
}

/// The dependencies of the crate called `n`: those of the first crate of that name, and none
/// when no crate has it.
pub open spec fn deps_of(pkgs: Seq<Package>, n: Seq<char>) -> Seq<Seq<char>> {
    if exists|i: int| first_named(pkgs, n, i) {
        strings_view(pkgs[choose|i: int| first_named(pkgs, n, i)].dependencies@)
    } else {
        Seq::empty()
    }
}

/// Whether `a` depends on the workspace crate `b`.
pub open spec fn depends(pkgs: Seq<Package>, a: Seq<char>, b: Seq<char>) -> bool {
    deps_of(pkgs, a).contains(b) && is_member(pkgs, b)
}

/// Whether `p[i - 1]` depends on `p[i]`.
pub open spec fn step(pkgs: Seq<Package>, p: Seq<Seq<char>>, i: int) -> bool {
    depends(pkgs, p[i - 1], p[i])
}

/// Whether `p` is a walk along dependencies between workspace crates: each crate of it after the
/// first is a workspace crate that the one before depends on.
pub open spec fn is_walk(pkgs: Seq<Package>, p: Seq<Seq<char>>) -> bool {
    &&& p.len() >= 1
    &&& forall|i: int| 1 <= i < p.len() ==> #[trigger] step(pkgs, p, i)
}

/// Whether `p` is a walk from `from` to `to` of at least one dependency.
pub open spec fn leads(pkgs: Seq<Package>, p: Seq<Seq<char>>, from: Seq<char>, to: Seq<char>) -> bool {
    &&& is_walk(pkgs, p)
    &&& p.len() >= 2
    &&& p[0] == from
    &&& p.last() == to
}

/// Whether `p` is a walk from `from` to `to` with no shorter one.
pub open spec fn shortest(pkgs: Seq<Package>, p: Seq<Seq<char>>, from: Seq<char>, to: Seq<char>) -> bool {
    &&& leads(pkgs, p, from, to)
    &&& forall|q: Seq<Seq<char>>| #[trigger] leads(pkgs, q, from, to) ==> p.len() <= q.len()
}

/// Whether `to` can be reached from `from`.
pub open spec fn reachable(pkgs: Seq<Package>, from: Seq<char>, to: Seq<char>) -> bool {
    exists|q: Seq<Seq<char>>| #[trigger] leads(pkgs, q, from, to)
}

/// A walk from `from` (of one crate or more) to `w`.
pub open spec fn walk_to(pkgs: Seq<Package>, q: Seq<Seq<char>>, from: Seq<char>, w: Seq<char>) -> bool {
    is_walk(pkgs, q) && q[0] == from && q.last() == w
}

/// Where `x` first stands in `s`, from `i` on, or `s.len()` when it does not.
pub open spec fn pos_from(s: Seq<Seq<char>>, x: Seq<char>, i: int) -> int
    decreases s.len() - i,
{
    if i < 0 || i >= s.len() {
        s.len() as int
    } else if s[i] == x {
        i
    } else {
        pos_from(s, x, i + 1)
    }
}

/// Where `x` first stands in `s`, or `s.len()` when it does not.
pub open spec fn pos_in(s: Seq<Seq<char>>, x: Seq<char>) -> int {
    pos_from(s, x, 0)
}

/// Whether the walk `p` comes before the walk `r` of the same length, in the order the
/// dependency lists give: at the first crate where they part, `p`'s is listed earlier among the
/// dependencies of the crate before it.
pub open spec fn before(pkgs: Seq<Package>, p: Seq<Seq<char>>, r: Seq<Seq<char>>) -> bool
    decreases p.len(),
{
    if p.len() < 2 || p.len() != r.len() {
        false
    } else if p.drop_last() != r.drop_last() {
        before(pkgs, p.drop_last(), r.drop_last())
    } else {
        let d = deps_of(pkgs, p[p.len() - 2]);
        pos_in(d, p.last()) < pos_in(d, r.last())
    }
}

/// Whether `p` is the first, in that order, of the shortest walks from `from` to `to`.
pub open spec fn first_shortest(pkgs: Seq<Package>, p: Seq<Seq<char>>, from: Seq<char>, to: Seq<char>) -> bool {
    &&& shortest(pkgs, p, from, to)
    &&& forall|q: Seq<Seq<char>>| #[trigger] shortest(pkgs, q, from, to) ==> q == p || before(pkgs, p, q)
}

/// Where `x` first stands in `s`, when it does.
proof fn lemma_pos(s: Seq<Seq<char>>, x: Seq<char>, i: int)
    requires
        0 <= i <= s.len(),
    ensures
        i <= pos_from(s, x, i) <= s.len(),
        pos_from(s, x, i) < s.len() ==> s[pos_from(s, x, i)] == x,
        forall|k: int| i <= k < pos_from(s, x, i) ==> #[trigger] s[k] != x,
        (exists|k: int| i <= k < s.len() && s[k] == x) ==> pos_from(s, x, i) < s.len(),
    decreases s.len() - i,
{
    if i < s.len() && s[i] != x {
        lemma_pos(s, x, i + 1);
        if exists|k: int| i <= k < s.len() && s[k] == x {
            let k = choose|k: int| i <= k < s.len() && s[k] == x;
            assert(k != i);
        }
    }
}

/// No walk comes before itself, and of two walks at most one comes before the other.
pub proof fn lemma_before_asymmetric(pkgs: Seq<Package>, p: Seq<Seq<char>>, r: Seq<Seq<char>>)
    ensures
        !before(pkgs, p, p),
        !(before(pkgs, p, r) && before(pkgs, r, p)),
    decreases p.len(),
{
    if p.len() >= 2 && p.len() == r.len() {
        if p.drop_last() != r.drop_last() {
            lemma_before_asymmetric(pkgs, p.drop_last(), r.drop_last());
        } else {
            lemma_penultimate(p, r);
        }
    }
}

/// Two walks of the same length that agree but for their last crates agree on the crate before.
proof fn lemma_penultimate(p: Seq<Seq<char>>, r: Seq<Seq<char>>)
    requires
        p.len() >= 2,
        p.len() == r.len(),
        p.drop_last() == r.drop_last(),
    ensures
        p[p.len() - 2] == r[r.len() - 2],
{
    assert(p[p.len() - 2] == p.drop_last()[p.len() - 2]);
    assert(r[r.len() - 2] == r.drop_last()[r.len() - 2]);
}

/// Coming before is transitive.
pub proof fn lemma_before_transitive(pkgs: Seq<Package>, a: Seq<Seq<char>>, b: Seq<Seq<char>>, c: Seq<Seq<char>>)
    requires
        before(pkgs, a, b),
        before(pkgs, b, c),
    ensures
        before(pkgs, a, c),
    decreases a.len(),
{
    let (x, y, z) = (a.drop_last(), b.drop_last(), c.drop_last());
    if x != y && y != z {
        lemma_before_transitive(pkgs, x, y, z);
        if x == z {
            lemma_before_asymmetric(pkgs, x, x);
        }
    } else if x != y && y == z {
        if x == z {
            lemma_before_asymmetric(pkgs, x, x);
        }
    } else if x == y && y != z {
    } else {
        lemma_penultimate(a, b);
        lemma_penultimate(b, c);
    }
}

/// Of two different walks of the same length from the same crate, one comes before the other.
pub proof fn lemma_before_total(pkgs: Seq<Package>, p: Seq<Seq<char>>, r: Seq<Seq<char>>)
    requires
        is_walk(pkgs, p),
        is_walk(pkgs, r),
        p.len() == r.len(),
        p[0] == r[0],
        p != r,
    ensures
        before(pkgs, p, r) || before(pkgs, r, p),
    decreases p.len(),
{
    if p.len() == 1 {
        assert(p =~= r);
    } else {
        let (x, y) = (p.drop_last(), r.drop_last());
        if x != y {
            assert forall|i: int| 1 <= i < x.len() implies #[trigger] step(pkgs, x, i) by {
                assert(step(pkgs, p, i));
            }
            assert forall|i: int| 1 <= i < y.len() implies #[trigger] step(pkgs, y, i) by {
                assert(step(pkgs, r, i));
            }
            lemma_before_total(pkgs, x, y);
        } else {
            let n = p.len() - 1;
            assert(step(pkgs, p, n));
            assert(step(pkgs, r, n));
            assert(p.last() != r.last()) by {
                if p.last() == r.last() {
                    assert forall|i: int| 0 <= i < p.len() implies p[i] == r[i] by {
                        if i < p.len() - 1 {
                            assert(x[i] == p[i] && y[i] == r[i]);
                        }
                    }
                    assert(p =~= r);
                }
            }
            let d = deps_of(pkgs, p[p.len() - 2]);
            assert(r[r.len() - 2] == p[p.len() - 2]) by {
                assert(x[x.len() - 1] == y[y.len() - 1]);
            }
            lemma_pos(d, p.last(), 0);
            lemma_pos(d, r.last(), 0);
        }
    }
}

/// There is one first shortest walk.
pub proof fn lemma_first_shortest_unique(pkgs: Seq<Package>, p: Seq<Seq<char>>, q: Seq<Seq<char>>, from: Seq<char>, to: Seq<char>)
    requires
        first_shortest(pkgs, p, from, to),
        first_shortest(pkgs, q, from, to),
    ensures
        p == q,
{
    assert(shortest(pkgs, q, from, to));
    assert(shortest(pkgs, p, from, to));
    if p != q {
        assert(before(pkgs, p, q));
        assert(before(pkgs, q, p));
        lemma_before_asymmetric(pkgs, p, q);
    }
}

/// The dependencies of the first crate called `name`, or none.
fn dependencies<'a>(packages: &'a Vec<Package>, name: &String) -> (deps: &'a [String])
    ensures
        strings_view(deps@) == deps_of(packages@, name@),
{
    let mut i: usize = 0;
    while i < packages.len()
        invariant
            0 <= i <= packages.len(),
            forall|j: int| 0 <= j < i ==> #[trigger] packages@[j].name@ != name@,
        decreases packages.len() - i,
    {
        if string_eq(&packages[i].name, name) {
            proof {
                assert(first_named(packages@, name@, i as int));
                let c = choose|k: int| first_named(packages@, name@, k);
                assert(c == i as int) by {
                    if c < i {
                        assert(packages@[c].name@ != name@);
                    }
                    if c > i {
                        assert(packages@[i as int].name@ != name@);
                    }
                }
            }
            return packages[i].dependencies.as_slice();
        }
        i += 1;
    }
    proof {
        assert forall|k: int| !first_named(packages@, name@, k) by {
            if 0 <= k < packages@.len() {
                assert(packages@[k].name@ != name@);
            }
        }
    }
    let empty: &[String] = &[];
    assert(strings_view(empty@) =~= Seq::<Seq<char>>::empty());
    empty
}

/// Whether some crate is called `name`.
fn is_package(packages: &Vec<Package>, name: &String) -> (found: bool)
    ensures
        found == is_member(packages@, name@),
{
    let mut i: usize = 0;
    while i < packages.len()
        invariant
            0 <= i <= packages.len(),
            forall|j: int| 0 <= j < i ==> #[trigger] packages@[j].name@ != name@,
        decreases packages.len() - i,
    {
        if string_eq(&packages[i].name, name) {
            return true;
        }
        i += 1;
    }
    false
}

/// Whether `name` is in `seen`.
fn contains_string(seen: &Vec<String>, name: &String) -> (found: bool)
    ensures
        found == strings_view(seen@).contains(name@),
{
    let mut i: usize = 0;
    while i < seen.len()
        invariant
            0 <= i <= seen.len(),
            forall|j: int| 0 <= j < i ==> #[trigger] seen@[j]@ != name@,
        decreases seen.len() - i,
    {
        if string_eq(&seen[i], name) {
            assert(strings_view(seen@)[i as int] == name@);
            return true;
        }
        i += 1;
    }
    proof {
        if strings_view(seen@).contains(name@) {
            let k = choose|k: int| 0 <= k < strings_view(seen@).len() && strings_view(seen@)[k] == name@;
            assert(seen@[k]@ == name@);
        }
    }
    false
}

/// A copy of `v`.
fn copy_strings(v: &Vec<String>) -> (out: Vec<String>)
    ensures
        out@ == v@,
{
    let mut out: Vec<String> = Vec::new();
    let mut i: usize = 0;
    while i < v.len()
        invariant
            0 <= i <= v.len(),
            out@ == v@.subrange(0, i as int),
        decreases v.len() - i,
    {
        out.push(v[i].clone());
        i += 1;
    }
    assert(v@.subrange(0, v.len() as int) =~= v@);
    out
}

/// The views of the last crates of the walks in `q`.
pub open spec fn lasts(q: Seq<Vec<String>>) -> Seq<Seq<char>> {
    Seq::new(q.len(), |k: int| strings_view(q[k]@).last())
}

/// The state of the breadth-first walk: the queue `q` of walks, of which the first `h` have had
/// their dependencies looked at, and the crates `seen`.
pub open spec fn bfs_state(
    pkgs: Seq<Package>,
    from: Seq<char>,
    to: Seq<char>,
    q: Seq<Vec<String>>,
    h: int,
    seen: Seq<Seq<char>>,
) -> bool {
    &&& 1 <= q.len()
    &&& 0 <= h <= q.len()
    &&& strings_view(q[0]@) == seq![from]
    &&& seen == lasts(q)
    &&& seen.no_duplicates()
    &&& forall|k: int| 1 <= k < q.len() ==> is_member(pkgs, #[trigger] seen[k])
    // every walk in the queue starts at `from`
    &&& forall|k: int| 0 <= k < q.len() ==> #[trigger] walk_to(pkgs, strings_view(q[k]@), from, seen[k])
    // shorter walks come first
    &&& forall|a: int, b: int| 0 <= a <= b < q.len() ==> #[trigger] q[a]@.len() <= #[trigger] q[b]@.len()
    // the queue spans at most two lengths
    &&& h < q.len() ==> q[q.len() - 1]@.len() <= q[h]@.len() + 1
    // each walk in the queue is a shortest one to its crate
    &&& forall|k: int, r: Seq<Seq<char>>| 0 <= k < q.len() && #[trigger] walk_to(pkgs, r, from, #[trigger] seen[k])
        ==> q[k]@.len() <= r.len()
    // the crates of the walks looked at have all their dependencies seen, and `to` is none of them
    &&& forall|k: int, b: Seq<char>| 0 <= k < h && #[trigger] depends(pkgs, #[trigger] seen[k], b)
        ==> seen.contains(b) && b != to
}

/// Every crate reached by a walk shorter than the walk at `h` is the crate of a walk looked at.
proof fn lemma_reached_early(
    pkgs: Seq<Package>,
    from: Seq<char>,
    to: Seq<char>,
    q: Seq<Vec<String>>,
    h: int,
    seen: Seq<Seq<char>>,
    r: Seq<Seq<char>>,
)
    requires
        bfs_state(pkgs, from, to, q, h, seen),
        h < q.len(),
        walk_to(pkgs, r, from, r.last()),
        r.len() < q[h]@.len(),
    ensures
        exists|k: int| 0 <= k < h && seen[k] == r.last(),
    decreases r.len(),
{
    if r.len() == 1 {
        assert(seen[0] == from) by {
            assert(strings_view(q[0]@).last() == from);
        }
        assert(h > 0) by {
            if h == 0 {
                assert(strings_view(q[0]@).len() == 1);
            }
        }
        assert(seen[0] == r.last());
    } else {
        let prefix = r.drop_last();
        assert forall|i: int| 1 <= i < prefix.len() implies #[trigger] step(pkgs, prefix, i) by {
            assert(step(pkgs, r, i));
        }
        assert(walk_to(pkgs, prefix, from, prefix.last()));
        lemma_reached_early(pkgs, from, to, q, h, seen, prefix);
        let k = choose|k: int| 0 <= k < h && seen[k] == prefix.last();
        assert(step(pkgs, r, r.len() - 1));
        assert(depends(pkgs, seen[k], r.last()));
        assert(seen.contains(r.last()));
        let j = choose|j: int| 0 <= j < seen.len() && seen[j] == r.last();
        assert(walk_to(pkgs, r, from, seen[j]));
        assert(q[j]@.len() <= r.len());
        if j >= h {
            assert(q[h]@.len() <= q[j]@.len());
        }
    }
}

/// Every crate reached from `from` is the crate of a walk in the queue, once all have been looked
/// at.
proof fn lemma_reached_all(
    pkgs: Seq<Package>,
    from: Seq<char>,
    to: Seq<char>,
    q: Seq<Vec<String>>,
    seen: Seq<Seq<char>>,
    r: Seq<Seq<char>>,
)
    requires
        bfs_state(pkgs, from, to, q, q.len() as int, seen),
        walk_to(pkgs, r, from, r.last()),
    ensures
        seen.contains(r.last()),
    decreases r.len(),
{
    if r.len() == 1 {
        assert(strings_view(q[0]@).last() == from);
        assert(seen[0] == r.last());
    } else {
        let prefix = r.drop_last();
        assert forall|i: int| 1 <= i < prefix.len() implies #[trigger] step(pkgs, prefix, i) by {
            assert(step(pkgs, r, i));
        }
        lemma_reached_all(pkgs, from, to, q, seen, prefix);
        let k = choose|k: int| 0 <= k < seen.len() && seen[k] == prefix.last();
        assert(step(pkgs, r, r.len() - 1));
        assert(depends(pkgs, seen[k], r.last()));
    }
}

/// The walk `p` ends at a crate that the crate before it depends on, so no walk to `to` is
/// shorter than the last walk of the queue plus one.
proof fn lemma_returned_is_shortest(
    pkgs: Seq<Package>,
    from: Seq<char>,
    to: Seq<char>,
    q: Seq<Vec<String>>,
    h: int,
    seen: Seq<Seq<char>>,
    r: Seq<Seq<char>>,
)
    requires
        bfs_state(pkgs, from, to, q, h, seen),
        h < q.len(),
        leads(pkgs, r, from, to),
    ensures
        q[h]@.len() + 1 <= r.len(),
{
    if r.len() < q[h]@.len() + 1 {
        let prefix = r.drop_last();
        assert forall|i: int| 1 <= i < prefix.len() implies #[trigger] step(pkgs, prefix, i) by {
            assert(step(pkgs, r, i));
        }
        lemma_reached_early(pkgs, from, to, q, h, seen, prefix);
        let k = choose|k: int| 0 <= k < h && seen[k] == prefix.last();
        assert(step(pkgs, r, r.len() - 1));
        assert(depends(pkgs, seen[k], to));
    }
}

/// No walk of one step or more from `from` ends at `to`, once all walks have been looked at.
proof fn lemma_none_reaches(
    pkgs: Seq<Package>,
    from: Seq<char>,
    to: Seq<char>,
    q: Seq<Vec<String>>,
    seen: Seq<Seq<char>>,
    r: Seq<Seq<char>>,
)
    requires
        bfs_state(pkgs, from, to, q, q.len() as int, seen),
    ensures
        !leads(pkgs, r, from, to),
{
    if leads(pkgs, r, from, to) {
        let prefix = r.drop_last();
        assert forall|i: int| 1 <= i < prefix.len() implies #[trigger] step(pkgs, prefix, i) by {
            assert(step(pkgs, r, i));
        }
        lemma_reached_all(pkgs, from, to, q, seen, prefix);
        let k = choose|k: int| 0 <= k < seen.len() && seen[k] == prefix.last();
        assert(step(pkgs, r, r.len() - 1));
        assert(depends(pkgs, seen[k], to));
    }
}

/// The queue holds no more walks than there are crates, and one.
proof fn lemma_queue_bounded(pkgs: Seq<Package>, from: Seq<char>, seen: Seq<Seq<char>>)
    requires
        seen.len() >= 1,
        seen[0] == from,
        seen.no_duplicates(),
        forall|k: int| 1 <= k < seen.len() ==> is_member(pkgs, #[trigger] seen[k]),
    ensures
        seen.len() <= pkgs.len() + 1,
{
    let names = Seq::new(pkgs.len(), |i: int| pkgs[i].name@);
    let universe = names.to_set().insert(from);
    assert(seen.to_set().subset_of(universe)) by {
        assert forall|x: Seq<char>| seen.to_set().contains(x) implies universe.contains(x) by {
            let k = choose|k: int| 0 <= k < seen.len() && seen[k] == x;
            if k >= 1 {
                assert(is_member(pkgs, seen[k]));
                let i = choose|i: int| 0 <= i < pkgs.len() && #[trigger] pkgs[i].name@ == seen[k];
                assert(names[i] == x);
            }
        }
    }
    names.lemma_cardinality_of_set();
    seen.unique_seq_to_set();
    vstd::set_lib::lemma_len_subset(seen.to_set(), universe);
}

/// Whether each walk of the queue is the first of the shortest walks to its crate, and the walks
/// of the same length come in that order.
pub open spec fn bfs_order(pkgs: Seq<Package>, from: Seq<char>, q: Seq<Vec<String>>, seen: Seq<Seq<char>>) -> bool {
    &&& forall|k: int, r: Seq<Seq<char>>| 0 <= k < q.len() && #[trigger] walk_to(pkgs, r, from, #[trigger] seen[k]) && r.len() == q[k]@.len()
        ==> r == strings_view(q[k]@) || before(pkgs, strings_view(q[k]@), r)
    &&& forall|a: int, b: int| 0 <= a < b < q.len() && q[a]@.len() == q[b]@.len()
        ==> before(pkgs, #[trigger] strings_view(q[a]@), #[trigger] strings_view(q[b]@))
}

/// Whether the walk `k` of the queue extends the walk `p` by one crate.
pub open spec fn extends(q: Seq<Vec<String>>, k: int, p: int) -> bool {
    0 <= p < q.len() && strings_view(q[k]@).drop_last() == strings_view(q[p]@)
}

/// Whether the walk `k` of the queue extends one of the walks before `lim`.
pub open spec fn has_parent(q: Seq<Vec<String>>, k: int, lim: int) -> bool {
    exists|p: int| p < lim && #[trigger] extends(q, k, p)
}

/// Whether every walk of the queue from the second up to `upto` extends one before `lim`.
pub open spec fn parents_before(q: Seq<Vec<String>>, lim: int, upto: int) -> bool {
    forall|k: int| 1 <= k < upto ==> #[trigger] has_parent(q, k, lim)
}

/// A walk as long as the walk at `h` ends at the crate of a walk in the queue.
proof fn lemma_level_seen(
    pkgs: Seq<Package>,
    from: Seq<char>,
    to: Seq<char>,
    q: Seq<Vec<String>>,
    h: int,
    seen: Seq<Seq<char>>,
    r: Seq<Seq<char>>,
) -> (k: int)
    requires
        bfs_state(pkgs, from, to, q, h, seen),
        h < q.len(),
        walk_to(pkgs, r, from, r.last()),
        r.len() == q[h]@.len(),
    ensures
        0 <= k < q.len(),
        seen[k] == r.last(),
{
    if r.len() == 1 {
        assert(strings_view(q[0]@).last() == from);
        0
    } else {
        let prefix = r.drop_last();
        assert forall|i: int| 1 <= i < prefix.len() implies #[trigger] step(pkgs, prefix, i) by {
            assert(step(pkgs, r, i));
        }
        lemma_reached_early(pkgs, from, to, q, h, seen, prefix);
        let k = choose|k: int| 0 <= k < h && seen[k] == prefix.last();
        assert(step(pkgs, r, r.len() - 1));
        assert(depends(pkgs, seen[k], r.last()));
        assert(seen.contains(r.last()));
        let j = choose|j: int| 0 <= j < seen.len() && seen[j] == r.last();
        j
    }
}

/// A walk to `x` one crate longer than the walk at `h` is that walk extended by `x`, or comes
/// after it, when no crate looked at depends on `x`.
proof fn lemma_extension_first(
    pkgs: Seq<Package>,
    from: Seq<char>,
    to: Seq<char>,
    q: Seq<Vec<String>>,
    h: int,
    seen: Seq<Seq<char>>,
    x: Seq<char>,
    r: Seq<Seq<char>>,
)
    requires
        bfs_state(pkgs, from, to, q, h, seen),
        bfs_order(pkgs, from, q, seen),
        h < q.len(),
        walk_to(pkgs, r, from, x),
        r.len() == q[h]@.len() + 1,
        forall|k: int| 0 <= k < h ==> !depends(pkgs, #[trigger] seen[k], x),
    ensures
        r == strings_view(q[h]@).push(x) || before(pkgs, strings_view(q[h]@).push(x), r),
{
    let qh = strings_view(q[h]@);
    let nv = qh.push(x);
    let prefix = r.drop_last();
    assert(qh.len() == q[h]@.len());
    assert forall|i: int| 1 <= i < prefix.len() implies #[trigger] step(pkgs, prefix, i) by {
        assert(step(pkgs, r, i));
    }
    assert(walk_to(pkgs, prefix, from, prefix.last()));
    let k = lemma_level_seen(pkgs, from, to, q, h, seen, prefix);
    assert(step(pkgs, r, r.len() - 1));
    assert(depends(pkgs, seen[k], x));
    assert(k >= h);
    assert(walk_to(pkgs, prefix, from, seen[k]));
    assert(q[k]@.len() <= prefix.len());
    assert(q[h]@.len() <= q[k]@.len());
    assert(nv.drop_last() =~= qh);
    if prefix == qh {
        assert(r =~= nv) by {
            assert forall|i: int| 0 <= i < r.len() implies r[i] == nv[i] by {
                if i < r.len() - 1 {
                    assert(prefix[i] == r[i]);
                }
            }
        }
    } else {
        let qk = strings_view(q[k]@);
        if k == h {
            assert(before(pkgs, qh, prefix));
        } else {
            assert(before(pkgs, qh, qk));
            if qk != prefix {
                assert(before(pkgs, qk, prefix));
                lemma_before_transitive(pkgs, qh, qk, prefix);
            }
        }
        assert(before(pkgs, nv, r));
    }
}

/// The shortest dependency path from `from` to `to` through workspace crates, `from` and `to`
/// included, or `None` when `to` cannot be reached. Breadth-first, so the path it reports is a
/// shortest one, the first of those in the order of the dependency lists, and the walk ends on a
/// dependency cycle.
pub fn path_to(packages: &Vec<Package>, from: &String, to: &String) -> (path: Option<Vec<String>>)
    ensures
        match path {
            Some(p) => first_shortest(packages@, strings_view(p@), from@, to@),
            None => !reachable(packages@, from@, to@),
        },
{
    let ghost pkgs = packages@;
    let mut seen: Vec<String> = Vec::new();
    seen.push(from.clone());
    let mut queue: Vec<Vec<String>> = Vec::new();
    let mut first: Vec<String> = Vec::new();
    first.push(from.clone());
    queue.push(first);
    let mut head: usize = 0;
    proof {
        assert(strings_view(queue@[0]@) =~= seq![from@]);
        assert(strings_view(seen@) =~= lasts(queue@));
        assert(is_walk(pkgs, strings_view(queue@[0]@)));
        assert forall|k: int, r: Seq<Seq<char>>|
            0 <= k < queue@.len() && #[trigger] walk_to(pkgs, r, from@, #[trigger] strings_view(seen@)[k])
            implies queue@[k]@.len() <= r.len() by {
            assert(r.len() >= 1);
        }
        assert forall|k: int, r: Seq<Seq<char>>| 0 <= k < queue@.len() && #[trigger] walk_to(pkgs, r, from@, #[trigger] strings_view(seen@)[k]) && r.len() == queue@[k]@.len()
            implies r == strings_view(queue@[k]@) || before(pkgs, strings_view(queue@[k]@), r) by {
            assert(r =~= strings_view(queue@[k]@));
        }
    }
    while head < queue.len()
        invariant
            pkgs == packages@,
            bfs_state(pkgs, from@, to@, queue@, head as int, strings_view(seen@)),
            bfs_order(pkgs, from@, queue@, strings_view(seen@)),
            parents_before(queue@, head as int, queue@.len() as int),
        decreases packages@.len() + 1 - head,
    {
        proof {
            lemma_queue_bounded(pkgs, from@, strings_view(seen@));
            assert(strings_view(queue@[0]@).last() == from@);
        }
        let path = copy_strings(&queue[head]);
        let ghost h = head as int;
        let ghost tail_view = strings_view(seen@)[h];
        assert(strings_view(path@).last() == tail_view);
        let tail = path[path.len() - 1].clone();
        let deps = dependencies(packages, &tail);
        let ghost n0 = queue@.len() as int;
        let mut j: usize = 0;
        while j < deps.len()
            invariant
                pkgs == packages@,
                head < queue@.len(),
                h < n0 <= queue@.len(),
                bfs_order(pkgs, from@, queue@, strings_view(seen@)),
                parents_before(queue@, h, n0),
                forall|a: int| n0 <= a < queue@.len() ==> #[trigger] extends(queue@, a, h),
                forall|a: int| n0 <= a < queue@.len() ==> pos_in(deps_of(pkgs, tail_view), #[trigger] strings_view(seen@)[a]) < j,
                h == head as int,
                path@ == queue@[h]@,
                tail@ == tail_view,
                tail_view == strings_view(seen@)[h],
                strings_view(deps@) == deps_of(pkgs, tail_view),
                0 <= j <= deps.len(),
                bfs_state(pkgs, from@, to@, queue@, h, strings_view(seen@)),
                forall|i: int| 0 <= i < j && is_member(pkgs, #[trigger] strings_view(deps@)[i])
                    ==> strings_view(seen@).contains(strings_view(deps@)[i]) && strings_view(deps@)[i] != to@,
            decreases deps.len() - j,
        {
            let dependency = &deps[j];
            let ghost d = dependency@;
            assert(strings_view(deps@)[j as int] == d);
            if !is_package(packages, dependency) {
                j += 1;
                continue;
            }
            let mut next = copy_strings(&path);
            next.push(dependency.clone());
            let ghost nv = strings_view(next@);
            proof {
                let pv = strings_view(path@);
                assert(nv =~= pv.push(d));
                assert(walk_to(pkgs, pv, from@, tail_view));
                assert(deps_of(pkgs, tail_view).contains(d));
                assert(depends(pkgs, tail_view, d));
                assert forall|i: int| 1 <= i < nv.len() implies #[trigger] step(pkgs, nv, i) by {
                    if i < nv.len() - 1 {
                        assert(step(pkgs, pv, i));
                    }
                }
            }
            if string_eq(dependency, to) {
                proof {
                    assert(leads(pkgs, nv, from@, to@));
                    assert forall|r: Seq<Seq<char>>| #[trigger] leads(pkgs, r, from@, to@) implies nv.len() <= r.len() by {
                        lemma_returned_is_shortest(pkgs, from@, to@, queue@, h, strings_view(seen@), r);
                    }
                    assert(shortest(pkgs, nv, from@, to@));
                    let sv = strings_view(seen@);
                    assert forall|k: int| 0 <= k < h implies !depends(pkgs, #[trigger] sv[k], to@) by {
                        if depends(pkgs, sv[k], to@) {
                            assert(sv.contains(to@) && to@ != to@);
                        }
                    }
                    assert(nv =~= strings_view(queue@[h]@).push(to@));
                    assert forall|r: Seq<Seq<char>>| #[trigger] shortest(pkgs, r, from@, to@) implies r == nv || before(pkgs, nv, r) by {
                        assert(nv.len() <= r.len());
                        assert(r.len() <= nv.len());
                        assert(walk_to(pkgs, r, from@, to@));
                        lemma_extension_first(pkgs, from@, to@, queue@, h, sv, to@, r);
                    }
                }
                return Some(next);
            }
            if !contains_string(&seen, dependency) {
                let ghost old_q = queue@;
                let ghost old_seen = strings_view(seen@);
                let ghost dv = deps_of(pkgs, tail_view);
                proof {
                    lemma_pos(dv, d, 0);
                    assert(dv[j as int] == d);
                    let pd = pos_in(dv, d);
                    if pd < j {
                        assert(strings_view(deps@)[pd] == d);
                        assert(is_member(pkgs, strings_view(deps@)[pd]));
                    }
                    assert(pos_in(dv, d) == j);
                    assert forall|k: int| 0 <= k < h implies !depends(pkgs, #[trigger] old_seen[k], d) by {
                        if depends(pkgs, old_seen[k], d) {
                            assert(old_seen.contains(d));
                        }
                    }
                    assert forall|r: Seq<Seq<char>>| #[trigger] walk_to(pkgs, r, from@, d) && r.len() == nv.len()
                        implies r == nv || before(pkgs, nv, r) by {
                        assert(nv =~= strings_view(old_q[h]@).push(d));
                        lemma_extension_first(pkgs, from@, to@, old_q, h, old_seen, d, r);
                    }
                }
                proof {
                    // the new walk is a shortest one to `d`
                    assert forall|r: Seq<Seq<char>>| #[trigger] walk_to(pkgs, r, from@, d) implies nv.len() <= r.len() by {
                        if r.len() < nv.len() {
                            if r.len() == 1 {
                                assert(old_seen[0] == from@) by {
                                    assert(strings_view(old_q[0]@).last() == from@);
                                }
                            } else {
                                let prefix = r.drop_last();
                                assert forall|i: int| 1 <= i < prefix.len() implies #[trigger] step(pkgs, prefix, i) by {
                                    assert(step(pkgs, r, i));
                                }
                                lemma_reached_early(pkgs, from@, to@, old_q, h, old_seen, prefix);
                                let k = choose|k: int| 0 <= k < h && old_seen[k] == prefix.last();
                                assert(step(pkgs, r, r.len() - 1));
                                assert(depends(pkgs, old_seen[k], d));
                            }
                        }
                    }
                }
                seen.push(dependency.clone());
                queue.push(next);
                proof {
                    let sv = strings_view(seen@);
                    assert(sv =~= old_seen.push(d));
                    assert(lasts(queue@) =~= lasts(old_q).push(d)) by {
                        assert(strings_view(queue@[queue@.len() - 1]@) == nv);
                    }
                    assert forall|k: int| 0 <= k < queue@.len() implies #[trigger] walk_to(pkgs, strings_view(queue@[k]@), from@, sv[k]) by {
                        if k < old_q.len() {
                            assert(queue@[k] == old_q[k]);
                        }
                    }
                    assert forall|a: int, b: int| 0 <= a <= b < queue@.len() implies #[trigger] queue@[a]@.len() <= #[trigger] queue@[b]@.len() by {
                        if b == old_q.len() {
                            if a < old_q.len() {
                                assert(old_q[a]@.len() <= old_q[old_q.len() - 1]@.len());
                            }
                        }
                    }
                    assert forall|k: int, r: Seq<Seq<char>>| 0 <= k < queue@.len() && #[trigger] walk_to(pkgs, r, from@, #[trigger] sv[k])
                        implies queue@[k]@.len() <= r.len() by {
                        if k < old_q.len() {
                            assert(old_seen[k] == sv[k]);
                        }
                    }
                    assert forall|k: int, b: Seq<char>| 0 <= k < h && #[trigger] depends(pkgs, #[trigger] sv[k], b)
                        implies sv.contains(b) && b != to@ by {
                        assert(old_seen[k] == sv[k]);
                        assert(old_seen.contains(b));
                        let w = choose|w: int| 0 <= w < old_seen.len() && old_seen[w] == b;
                        assert(sv[w] == b);
                    }
                    assert forall|i: int| 0 <= i <= j && is_member(pkgs, #[trigger] strings_view(deps@)[i])
                        implies sv.contains(strings_view(deps@)[i]) && strings_view(deps@)[i] != to@ by {
                        if i < j {
                            let w = choose|w: int| 0 <= w < old_seen.len() && old_seen[w] == strings_view(deps@)[i];
                            assert(sv[w] == old_seen[w]);
                        } else {
                            assert(sv[sv.len() - 1] == d);
                        }
                    }
                    assert(forall|k: int| 1 <= k < queue@.len() ==> is_member(pkgs, #[trigger] sv[k]));
                    let nq = queue@;
                    let last = nq.len() - 1;
                    assert(strings_view(nq[last]@) == nv);
                    assert(nv.drop_last() =~= strings_view(old_q[h]@));
                    assert forall|k: int, r: Seq<Seq<char>>| 0 <= k < nq.len() && #[trigger] walk_to(pkgs, r, from@, #[trigger] sv[k]) && r.len() == nq[k]@.len()
                        implies r == strings_view(nq[k]@) || before(pkgs, strings_view(nq[k]@), r) by {
                        if k < old_q.len() {
                            assert(nq[k] == old_q[k]);
                            assert(sv[k] == old_seen[k]);
                        } else {
                            assert(sv[k] == d);
                        }
                    }
                    assert forall|a: int, b: int| 0 <= a < b < nq.len() && nq[a]@.len() == nq[b]@.len()
                        implies before(pkgs, #[trigger] strings_view(nq[a]@), #[trigger] strings_view(nq[b]@)) by {
                        if b < old_q.len() {
                            assert(nq[a] == old_q[a] && nq[b] == old_q[b]);
                        } else {
                            assert(nq[a] == old_q[a]);
                            let qa = strings_view(old_q[a]@);
                            if a >= n0 {
                                assert(extends(old_q, a, h));
                                assert(qa.drop_last() == strings_view(old_q[h]@));
                                assert(qa.last() == old_seen[a]);
                                assert(qa[qa.len() - 2] == tail_view) by {
                                    assert(qa[qa.len() - 2] == qa.drop_last()[qa.len() - 2]);
                                    assert(strings_view(old_q[h]@).last() == tail_view);
                                }
                                assert(nv[nv.len() - 2] == tail_view);
                                assert(pos_in(dv, old_seen[a]) < j);
                                assert(before(pkgs, qa, nv));
                            } else {
                                assert(a >= 1) by {
                                    if a == 0 {
                                        assert(strings_view(old_q[0]@).len() == 1);
                                    }
                                }
                                assert(has_parent(old_q, a, h));
                                let p = choose|p: int| p < h && #[trigger] extends(old_q, a, p);
                                let qp = strings_view(old_q[p]@);
                                let qh = strings_view(old_q[h]@);
                                assert(qa.drop_last() == qp);
                                assert(qp.len() == qh.len());
                                assert(before(pkgs, qp, qh));
                                lemma_before_asymmetric(pkgs, qp, qp);
                                assert(qa.drop_last() != nv.drop_last());
                                assert(before(pkgs, qa, nv));
                            }
                        }
                    }
                    assert(bfs_order(pkgs, from@, nq, sv));
                    assert forall|k: int| 1 <= k < n0 implies #[trigger] has_parent(nq, k, h) by {
                        assert(has_parent(old_q, k, h));
                        let p = choose|p: int| p < h && #[trigger] extends(old_q, k, p);
                        assert(nq[k] == old_q[k] && nq[p] == old_q[p]);
                        assert(extends(nq, k, p));
                    }
                    assert forall|a: int| n0 <= a < nq.len() implies #[trigger] extends(nq, a, h)
                        && pos_in(dv, sv[a]) < j + 1 by {
                        if a < old_q.len() {
                            assert(nq[a] == old_q[a] && nq[h] == old_q[h]);
                            assert(extends(old_q, a, h));
                            assert(sv[a] == old_seen[a]);
                        } else {
                            assert(nq[h] == old_q[h]);
                            assert(sv[a] == d);
                        }
                    }
                }
            }
            j += 1;
        }
        proof {
            let sv = strings_view(seen@);
            assert forall|k: int, b: Seq<char>| 0 <= k < h + 1 && #[trigger] depends(pkgs, #[trigger] sv[k], b)
                implies sv.contains(b) && b != to@ by {
                if k == h {
                    let i = choose|i: int| 0 <= i < deps_of(pkgs, tail_view).len() && deps_of(pkgs, tail_view)[i] == b;
                    assert(strings_view(deps@)[i] == b);
                }
            }
            if h + 1 < queue@.len() {
                assert(queue@[h]@.len() <= queue@[h + 1]@.len());
            }
            assert forall|k: int| 1 <= k < queue@.len() implies #[trigger] has_parent(queue@, k, h + 1) by {
                if k < n0 {
                    assert(has_parent(queue@, k, h));
                    let p = choose|p: int| p < h && #[trigger] extends(queue@, k, p);
                    assert(extends(queue@, k, p));
                } else {
                    assert(extends(queue@, k, h));
                }
            }
        }
        head += 1;
    }
    proof {
        assert forall|r: Seq<Seq<char>>| !#[trigger] leads(pkgs, r, from@, to@) by {
            lemma_none_reaches(pkgs, from@, to@, queue@, strings_view(seen@), r);
        }
    }
    None
}


/// A rule broken: the crate `name` forbids the crate `forbidden`, which either is not a crate of
/// the workspace or can be reached from it.
pub open spec fn broken(pkgs: Seq<Package>, name: Seq<char>, forbidden: Seq<char>) -> bool {
    !is_member(pkgs, forbidden) || reachable(pkgs, name, forbidden)
}

/// The rules broken by the crate `name` among the first `j` crates of its `forbids` list, in order.
pub open spec fn broken_among(pkgs: Seq<Package>, name: Seq<char>, forbids: Seq<Seq<char>>, j: int) -> Seq<(Seq<char>, Seq<char>)>
    decreases j,
{
    if j <= 0 {
        Seq::empty()
    } else {
        let before = broken_among(pkgs, name, forbids, j - 1);
        if broken(pkgs, name, forbids[j - 1]) {
            before.push((name, forbids[j - 1]))
        } else {
            before
        }
    }
}

/// The rules broken by the first `i` crates of the workspace, crate by crate, each in the order
/// of its `forbids` list.
pub open spec fn broken_rules(pkgs: Seq<Package>, i: int) -> Seq<(Seq<char>, Seq<char>)>
    decreases i,
{
    if i <= 0 {
        Seq::empty()
    } else {
        let p = pkgs[i - 1];
        broken_rules(pkgs, i - 1) + broken_among(pkgs, p.name@, strings_view(p.forbids@), p.forbids@.len() as int)
    }
}

/// Whether the crate at `i` keeps its rules: each crate it forbids is a crate of the workspace
/// that no chain of one or more dependencies between workspace crates leads to from it.
pub open spec fn keeps_rules(pkgs: Seq<Package>, i: int) -> bool {
    forall|k: int| 0 <= k < pkgs[i].forbids@.len() ==> {
        let f = (#[trigger] pkgs[i].forbids@[k])@;
        is_member(pkgs, f) && !reachable(pkgs, pkgs[i].name@, f)
    }
}

/// None of the first `j` rules of a crate is broken exactly when none of them names a crate
/// outside the workspace or one the crate reaches.
proof fn lemma_none_broken_among(pkgs: Seq<Package>, name: Seq<char>, forbids: Seq<Seq<char>>, j: int)
    requires
        0 <= j <= forbids.len(),
    ensures
        broken_among(pkgs, name, forbids, j).len() == 0 <==> forall|k: int| 0 <= k < j ==> !broken(pkgs, name, #[trigger] forbids[k]),
    decreases j,
{
    if j > 0 {
        lemma_none_broken_among(pkgs, name, forbids, j - 1);
    }
}

/// None of the rules of the first `i` crates is broken exactly when each of them keeps its rules.
proof fn lemma_none_broken(pkgs: Seq<Package>, i: int)
    requires
        0 <= i <= pkgs.len(),
    ensures
        broken_rules(pkgs, i).len() == 0 <==> forall|a: int| 0 <= a < i ==> #[trigger] keeps_rules(pkgs, a),
    decreases i,
{
    if i > 0 {
        lemma_none_broken(pkgs, i - 1);
        let p = pkgs[i - 1];
        let forbids = strings_view(p.forbids@);
        lemma_none_broken_among(pkgs, p.name@, forbids, p.forbids@.len() as int);
        assert(keeps_rules(pkgs, i - 1) <==> forall|k: int| 0 <= k < p.forbids@.len() ==> !broken(pkgs, p.name@, #[trigger] forbids[k])) by {
            if keeps_rules(pkgs, i - 1) {
                assert forall|k: int| 0 <= k < p.forbids@.len() implies !broken(pkgs, p.name@, #[trigger] forbids[k]) by {
                    assert(forbids[k] == pkgs[i - 1].forbids@[k]@);
                }
            }
            if forall|k: int| 0 <= k < p.forbids@.len() ==> !broken(pkgs, p.name@, #[trigger] forbids[k]) {
                assert forall|k: int| 0 <= k < pkgs[i - 1].forbids@.len() implies {
                    let f = (#[trigger] pkgs[i - 1].forbids@[k])@;
                    is_member(pkgs, f) && !reachable(pkgs, pkgs[i - 1].name@, f)
                } by {
                    assert(!broken(pkgs, p.name@, forbids[k]));
                }
            }
        }
    }
}

/// The layering rules hold exactly when every crate keeps its rules: each crate it forbids is a
/// crate of the workspace, and no chain of one or more dependencies between workspace crates
/// leads to it. A crate that forbids nothing may depend on anything.
pub proof fn lemma_rules_hold_exactly_when_no_crate_reaches_what_it_forbids(pkgs: Seq<Package>)
    ensures
        broken_rules(pkgs, pkgs.len() as int).len() == 0 <==> forall|i: int| 0 <= i < pkgs.len() ==> #[trigger] keeps_rules(pkgs, i),
{
    lemma_none_broken(pkgs, pkgs.len() as int);
}

/// What the check says of the rule broken by `name` forbidding `forbidden`: that it is not a
/// workspace crate, or the path that reaches it: the first of the shortest, in the order of the
/// dependency lists.
pub open spec fn describes(pkgs: Seq<Package>, rule: (Seq<char>, Seq<char>), line: Seq<char>) -> bool {
    let (name, forbidden) = rule;
    if !is_member(pkgs, forbidden) {
        line == name + ": forbids `"@ + forbidden + "`, which is not a crate in this workspace"@
    } else {
        exists|p: Seq<Seq<char>>| #[trigger] first_shortest(pkgs, p, name, forbidden)
            && line == name + " must not depend on `"@ + forbidden + "`, but does: "@ + join(p, " -> "@)
    }
}

/// Whether `lines` say, in order, what each of `rules` breaks.
pub open spec fn describe_all(pkgs: Seq<Package>, rules: Seq<(Seq<char>, Seq<char>)>, lines: Seq<Seq<char>>) -> bool {
    &&& lines.len() == rules.len()
    &&& forall|k: int| 0 <= k < rules.len() ==> #[trigger] describes(pkgs, rules[k], lines[k])
}

/// Fails if any crate's `forbids` list names a crate that is not in the workspace or can be
/// reached from it. The error names, for each such rule, the shortest path that reaches the
/// forbidden crate, because the offending dependency is usually not the one just added.
pub fn check(workspace: &Workspace) -> (result: Result<(), String>)
    ensures
        result is Ok <==> broken_rules(workspace.packages@, workspace.packages@.len() as int).len() == 0,
        result is Ok <==> forall|i: int| 0 <= i < workspace.packages@.len() ==> #[trigger] keeps_rules(workspace.packages@, i),
        result matches Err(message) ==> exists|lines: Seq<Seq<char>>|
            describe_all(workspace.packages@, broken_rules(workspace.packages@, workspace.packages@.len() as int), lines)
            && message@ == "layering: "@ + join(lines, "\n           "@)
                + "\nSee the layering rules in xtask/src/layering.rs."@,
{
    let packages = &workspace.packages;
    let ghost pkgs = packages@;
    proof {
        lemma_rules_hold_exactly_when_no_crate_reaches_what_it_forbids(pkgs);
    }
    let mut problems: Vec<String> = Vec::new();
    let mut i: usize = 0;
    while i < packages.len()
        invariant
            pkgs == packages@,
            0 <= i <= packages.len(),
            describe_all(pkgs, broken_rules(pkgs, i as int), strings_view(problems@)),
        decreases packages.len() - i,
    {
        let package = &packages[i];
        let ghost name = package.name@;
        let ghost forbids = strings_view(package.forbids@);
        let ghost before = strings_view(problems@);
        let mut j: usize = 0;
        while j < package.forbids.len()
            invariant
                pkgs == packages@,
                0 <= i < packages.len(),
                package == packages@[i as int],
                name == package.name@,
                forbids == strings_view(package.forbids@),
                0 <= j <= package.forbids.len(),
                describe_all(pkgs, broken_rules(pkgs, i as int) + broken_among(pkgs, name, forbids, j as int), strings_view(problems@)),
            decreases package.forbids.len() - j,
        {
            let forbidden = &package.forbids[j];
            let ghost rules = broken_rules(pkgs, i as int) + broken_among(pkgs, name, forbids, j as int);
            let ghost lines = strings_view(problems@);
            assert(forbids[j as int] == forbidden@);
            if !is_package(packages, forbidden) {
                let mut line = package.name.clone();
                line.append(": forbids `");
                line.append(forbidden.as_str());
                line.append("`, which is not a crate in this workspace");
                problems.push(line);
                proof {
                    let rules2 = broken_rules(pkgs, i as int) + broken_among(pkgs, name, forbids, j + 1);
                    assert(rules2 =~= rules.push((name, forbidden@)));
                    assert(strings_view(problems@) =~= lines.push(line@));
                    assert(describes(pkgs, rules2[rules.len() as int], strings_view(problems@)[rules.len() as int]));
                    assert forall|k: int| 0 <= k < rules2.len() implies #[trigger] describes(pkgs, rules2[k], strings_view(problems@)[k]) by {
                        if k < rules.len() {
                            assert(rules2[k] == rules[k]);
                            assert(strings_view(problems@)[k] == lines[k]);
                        }
                    }
                }
                j += 1;
                continue;
            }
            match path_to(packages, &package.name, forbidden) {
                Some(path) => {
                    let mut line = package.name.clone();
                    line.append(" must not depend on `");
                    line.append(forbidden.as_str());
                    line.append("`, but does: ");
                    let shown = join_strings(&path, " -> ");
                    line.append(shown.as_str());
                    problems.push(line);
                    proof {
                        let rules2 = broken_rules(pkgs, i as int) + broken_among(pkgs, name, forbids, j + 1);
                        assert(reachable(pkgs, name, forbidden@));
                        assert(rules2 =~= rules.push((name, forbidden@)));
                        assert(strings_view(problems@) =~= lines.push(line@));
                        assert(first_shortest(pkgs, strings_view(path@), name, forbidden@));
                        assert(is_member(pkgs, forbidden@));
                        assert(line@ == name + " must not depend on `"@ + forbidden@ + "`, but does: "@
                            + join(strings_view(path@), " -> "@));
                        assert(rules2[rules.len() as int] == (name, forbidden@));
                        assert(strings_view(problems@)[rules.len() as int] == line@);
                        let rule = rules2[rules.len() as int];
                        assert(first_shortest(pkgs, strings_view(path@), rule.0, rule.1));
                        assert(describes(pkgs, rules2[rules.len() as int], strings_view(problems@)[rules.len() as int]));
                        assert forall|k: int| 0 <= k < rules2.len() implies #[trigger] describes(pkgs, rules2[k], strings_view(problems@)[k]) by {
                            if k < rules.len() {
                                assert(rules2[k] == rules[k]);
                                assert(strings_view(problems@)[k] == lines[k]);
                            }
                        }
                    }
                },
                None => {
                    proof {
                        let rules2 = broken_rules(pkgs, i as int) + broken_among(pkgs, name, forbids, j + 1);
                        assert(rules2 =~= rules);
                    }
                },
            }
            j += 1;
        }
        proof {
            assert(broken_rules(pkgs, i + 1) =~= broken_rules(pkgs, i as int) + broken_among(pkgs, name, forbids, package.forbids@.len() as int));
        }
        i += 1;
    }
    if problems.len() == 0 {
        return Ok(());
    }
    let mut message = String::from_str("layering: ");
    let joined = join_strings(&problems, "\n           ");
    message.append(joined.as_str());
    message.append("\nSee the layering rules in xtask/src/layering.rs.");
    Err(message)
}

} // verus!
