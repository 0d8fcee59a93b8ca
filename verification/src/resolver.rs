//! The packages to publish, in the order in which they are published.
//!
//! The names that a walk has seen are held in a `Vec<String>`, with
//! `name_set` as the set that it stands for. A `HashSet<String>` would
//! serve a caller as well, but vstd states what a hash set holds only for
//! keys whose hashing it models (integers, `bool`, boxes of them), and
//! `String` is not among them.

use crate::graph::{Metadata, Package};
use vstd::prelude::*;

verus! {

/// The set of the names in a list of names.
pub open spec fn name_set(names: Seq<String>) -> Set<Seq<char>> {
    Set::new(|n: Seq<char>| exists|i: int| 0 <= i < names.len() && (#[trigger] names[i])@ == n)
}

/// No name stands twice in the list.
pub open spec fn no_name_twice(names: Seq<String>) -> bool {
    forall|i: int, j: int|
        0 <= i < j < names.len() ==> (#[trigger] names[i])@ != (#[trigger] names[j])@
}

/// The names of the packages of a graph.
pub open spec fn graph_names(output: &Metadata) -> Set<Seq<char>> {
    output.packages@.map_values(|p: Package| p.name@).to_set()
}

/// How many names a walk from the package `name` can still see.
pub open spec fn unseen(output: &Metadata, name: Seq<char>, seen: Set<Seq<char>>) -> nat {
    graph_names(output).insert(name).difference(seen).len()
}

/// The names of the packages of `pkgs` from `lo` up to `hi`.
pub open spec fn names_between(pkgs: Seq<&Package>, lo: int, hi: int) -> Set<Seq<char>> {
    Set::new(
        |n: Seq<char>|
            exists|i: int| lo <= i < hi && 0 <= i < pkgs.len() && (#[trigger] pkgs[i]).name@ == n,
    )
}

/// From `start` on, no package of `pkgs` has a name of `seen` or the name
/// of another package of `pkgs` from `start` on.
pub open spec fn fresh_names(pkgs: Seq<&Package>, start: int, seen: Set<Seq<char>>) -> bool {
    &&& forall|i: int| start <= i < pkgs.len() ==> !seen.contains((#[trigger] pkgs[i]).name@)
    &&& forall|i: int, j: int|
        start <= i < j < pkgs.len() ==> (#[trigger] pkgs[i]).name@ != (#[trigger] pkgs[j]).name@
}

/// `child` is a local package of the graph that `parent` depends on.
pub open spec fn child_of(output: &Metadata, parent: &Package, child: &Package) -> bool {
    exists|d: int| #[trigger] output.depends_on(parent.id@, d) && output.packages@[d] == *child
}

/// The package at `i` is a local dependency of a package behind it in `pkgs`.
pub open spec fn has_parent_in(output: &Metadata, pkgs: Seq<&Package>, i: int) -> bool {
    exists|j: int| i < j < pkgs.len() && child_of(output, #[trigger] pkgs[j], pkgs[i])
}

/// From `start` on, the name of every local dependency of a package of
/// `pkgs` is in `seen`.
pub open spec fn closed_from(
    output: &Metadata,
    pkgs: Seq<&Package>,
    start: int,
    seen: Set<Seq<char>>,
) -> bool {
    forall|i: int, d: int|
        start <= i < pkgs.len() && #[trigger] output.depends_on(pkgs[i].id@, d) ==> seen.contains(
            output.packages@[d].name@,
        )
}

/// From `start` on, the name of every local dependency of a package of
/// `pkgs` was seen before or is the name of a package between `start` and
/// that package.
pub open spec fn ordered_from(
    output: &Metadata,
    pkgs: Seq<&Package>,
    start: int,
    seen_before: Set<Seq<char>>,
) -> bool {
    forall|i: int, d: int|
        start <= i < pkgs.len() && #[trigger] output.depends_on(pkgs[i].id@, d)
            ==> seen_before.contains(output.packages@[d].name@) || names_between(
            pkgs,
            start,
            i,
        ).contains(output.packages@[d].name@)
}

/// The rank of every name that `pkg` depends on is below the rank of its own name.
pub open spec fn respects(output: &Metadata, rank: spec_fn(Seq<char>) -> nat, pkg: &Package) -> bool {
    forall|d: int| #[trigger]
        output.depends_on(pkg.id@, d) ==> rank(output.packages@[d].name@) < rank(pkg.name@)
}

/// `rank` shows that the local dependencies of the graph have no cycle:
/// along each of them the rank of the name goes down.
pub open spec fn is_ranking(output: &Metadata, rank: spec_fn(Seq<char>) -> nat) -> bool {
    forall|j: int|
        0 <= j < output.packages@.len() ==> #[trigger] respects(output, rank, &output.packages@[j])
}

/// From `start` on, the rank of the name of every package of `pkgs` is below `bound`.
pub open spec fn ranked_below(
    pkgs: Seq<&Package>,
    start: int,
    rank: spec_fn(Seq<char>) -> nat,
    bound: int,
) -> bool {
    forall|i: int| start <= i < pkgs.len() ==> rank((#[trigger] pkgs[i]).name@) < bound
}

/// What a walk from `pkg` appends to `before` when the name of `pkg` was
/// not seen: `after` is `before`, then what the walk found, then `pkg`.
pub open spec fn appended(
    output: &Metadata,
    pkg: &Package,
    before: Seq<&Package>,
    after: Seq<&Package>,
    seen_before: Set<Seq<char>>,
    seen_after: Set<Seq<char>>,
) -> bool {
    &&& before.len() < after.len()
    &&& after.subrange(0, before.len() as int) == before
    &&& *after.last() == *pkg
    &&& seen_after == seen_before.union(names_between(after, before.len() as int, after.len() as int))
    &&& fresh_names(after, before.len() as int, seen_before)
    &&& closed_from(output, after, before.len() as int, seen_after)
    &&& forall|i: int| before.len() <= i < after.len() - 1 ==> #[trigger] has_parent_in(output, after, i)
    &&& forall|rank: spec_fn(Seq<char>) -> nat| #[trigger]
        is_ranking(output, rank) && respects(output, rank, pkg) ==> ordered_from(
            output,
            after,
            before.len() as int,
            seen_before,
        ) && ranked_below(after, before.len() as int, rank, (rank(pkg.name@) + 1) as int)
}

/// Appending a name to a list puts it into the set of the list.
pub proof fn lemma_name_set_push(names: Seq<String>, name: String)
    ensures
        name_set(names.push(name)) == name_set(names).insert(name@),
{
    let longer = names.push(name);
    assert forall|n: Seq<char>| name_set(longer).contains(n) implies name_set(names).insert(
        name@,
    ).contains(n) by {
        let i = choose|i: int| 0 <= i < longer.len() && (#[trigger] longer[i])@ == n;
        if i < names.len() {
            assert(names[i]@ == n);
        }
    }
    assert forall|n: Seq<char>| name_set(names).insert(name@).contains(n) implies name_set(
        longer,
    ).contains(n) by {
        if n == name@ {
            assert(longer[names.len() as int]@ == n);
        } else {
            let i = choose|i: int| 0 <= i < names.len() && (#[trigger] names[i])@ == n;
            assert(longer[i]@ == n);
        }
    }
    assert(name_set(longer) =~= name_set(names).insert(name@));
}

/// A walk from a package whose name was not seen can see fewer names than
/// the walk that it is part of.
pub proof fn lemma_unseen_decreases(
    output: &Metadata,
    outer: Seq<char>,
    d: int,
    seen_before: Set<Seq<char>>,
    seen_now: Set<Seq<char>>,
)
    requires
        0 <= d < output.packages@.len(),
        !seen_before.contains(outer),
        seen_before.subset_of(seen_now),
        seen_now.contains(outer),
    ensures
        unseen(output, output.packages@[d].name@, seen_now) < unseen(output, outer, seen_before),
{
    let names = output.packages@.map_values(|p: Package| p.name@);
    let g = graph_names(output);
    vstd::seq_lib::seq_to_set_is_finite(names);
    assert(names[d] == output.packages@[d].name@);
    assert(g.contains(output.packages@[d].name@));
    let inner = g.insert(output.packages@[d].name@).difference(seen_now);
    let whole = g.insert(outer).difference(seen_before);
    assert(g.insert(outer).finite());
    assert(whole.finite());
    assert(whole.contains(outer));
    assert(inner.subset_of(whole.remove(outer)));
    vstd::set_lib::lemma_len_subset(inner, whole.remove(outer));
}

/// Whether `name` is in a list of names.
pub fn contains_name(seen: &Vec<String>, name: &String) -> (r: bool)
    ensures
        r == name_set(seen@).contains(name@),
{
    let mut i: usize = 0;
    while i < seen.len()
        invariant
            i <= seen@.len(),
            forall|j: int| 0 <= j < i ==> (#[trigger] seen@[j])@ != name@,
        decreases seen@.len() - i,
    {
        if seen[i] == *name {
            return true;
        }
        i += 1;
    }
    false
}

/// A walk inside a walk: what the inner walk appended, the outer walk
/// appended too.
pub proof fn lemma_extended(
    before: Seq<&Package>,
    middle: Seq<&Package>,
    after: Seq<&Package>,
    seen_before: Set<Seq<char>>,
    seen_middle: Set<Seq<char>>,
    seen_after: Set<Seq<char>>,
)
    requires
        before.len() <= middle.len() < after.len(),
        middle.subrange(0, before.len() as int) == before,
        after.subrange(0, middle.len() as int) == middle,
        seen_middle == seen_before.union(
            names_between(middle, before.len() as int, middle.len() as int),
        ),
        seen_after == seen_middle.union(
            names_between(after, middle.len() as int, after.len() as int),
        ),
        fresh_names(middle, before.len() as int, seen_before),
        fresh_names(after, middle.len() as int, seen_middle),
    ensures
        after.subrange(0, before.len() as int) == before,
        seen_after == seen_before.union(
            names_between(after, before.len() as int, after.len() as int),
        ),
        fresh_names(after, before.len() as int, seen_before),
{
    let b = before.len() as int;
    let m = middle.len() as int;
    let a = after.len() as int;
    assert forall|i: int| 0 <= i < m implies after[i] == middle[i] by {
        assert(after.subrange(0, m)[i] == after[i]);
    }
    assert(after.subrange(0, b) =~= before) by {
        assert forall|i: int| 0 <= i < b implies after[i] == before[i] by {
            assert(middle.subrange(0, b)[i] == middle[i]);
        }
    }
    assert forall|n: Seq<char>| names_between(after, b, a).contains(n) <==> (names_between(
        middle,
        b,
        m,
    ).contains(n) || names_between(after, m, a).contains(n)) by {
        if names_between(after, b, a).contains(n) {
            let i = choose|i: int| b <= i < a && 0 <= i < after.len() && (#[trigger] after[i]).name@ == n;
            if i < m {
                assert(middle[i].name@ == n);
            }
        }
        if names_between(middle, b, m).contains(n) {
            let i = choose|i: int| b <= i < m && 0 <= i < middle.len() && (#[trigger] middle[i]).name@ == n;
            assert(after[i].name@ == n);
        }
        if names_between(after, m, a).contains(n) {
            let i = choose|i: int| m <= i < a && 0 <= i < after.len() && (#[trigger] after[i]).name@ == n;
            assert(after[i].name@ == n);
        }
    }
    assert(seen_after =~= seen_before.union(names_between(after, b, a)));
    assert forall|i: int| b <= i < a implies !seen_before.contains((#[trigger] after[i]).name@) by {
        if i < m {
            assert(middle[i].name@ == after[i].name@);
        }
    }
    assert forall|i: int, j: int| b <= i < j < a implies (#[trigger] after[i]).name@ != (
    #[trigger] after[j]).name@ by {
        if j < m {
            assert(middle[i] == after[i]);
            assert(middle[j] == after[j]);
        } else if i < m {
            assert(middle[i] == after[i]);
            assert(names_between(middle, b, m).contains(middle[i].name@));
            assert(seen_middle.contains(after[i].name@));
        }
    }
}


/// The place of the first package with the identifier `id`.
pub open spec fn first_package(output: &Metadata, id: Seq<char>) -> int {
    choose|j: int| output.is_first_package(id, j)
}

/// The place of the first node with the identifier `id`.
pub open spec fn first_node(output: &Metadata, id: Seq<char>) -> int {
    choose|n: int| output.is_first_node(id, n)
}

/// The walk from `pkg`, no deeper than `fuel` packages: the list and the
/// seen names after it. Where the name of `pkg` was seen, nothing changes.
/// Else the name is seen, the dependencies of the node of `pkg` are walked
/// in their order, and `pkg` is appended.
pub open spec fn walk<'a>(
    output: &'a Metadata,
    fuel: nat,
    pkg: &'a Package,
    pkgs: Seq<&'a Package>,
    seen: Seq<String>,
) -> (Seq<&'a Package>, Seq<String>)
    decreases fuel, 0nat,
{
    if fuel == 0 || name_set(seen).contains(pkg.name@) {
        (pkgs, seen)
    } else {
        let node = output.resolve.nodes@[first_node(output, pkg.id@)];
        let (p, s) = walk_dependencies(
            output,
            (fuel - 1) as nat,
            node.dependencies@,
            0,
            pkgs,
            seen.push(pkg.name),
        );
        (p.push(pkg), s)
    }
}

/// The walks from the dependencies from the `k`-th on, one after the
/// other: from each local one, and past each one with a source.
pub open spec fn walk_dependencies<'a>(
    output: &'a Metadata,
    fuel: nat,
    dependencies: Seq<String>,
    k: int,
    pkgs: Seq<&'a Package>,
    seen: Seq<String>,
) -> (Seq<&'a Package>, Seq<String>)
    decreases fuel, (if 0 <= k < dependencies.len() { dependencies.len() - k + 1 } else { 1 }) as nat,
{
    if k < 0 || k >= dependencies.len() {
        (pkgs, seen)
    } else {
        let dep = &output.packages@[first_package(output, dependencies[k]@)];
        let (p, s) = if dep.source is None {
            walk(output, fuel, dep, pkgs, seen)
        } else {
            (pkgs, seen)
        };
        walk_dependencies(output, fuel, dependencies, k + 1, p, s)
    }
}

/// The walk from `pkg`, as deep as it goes.
pub open spec fn fill_spec<'a>(
    output: &'a Metadata,
    pkg: &'a Package,
    pkgs: Seq<&'a Package>,
    seen: Seq<String>,
) -> (Seq<&'a Package>, Seq<String>) {
    walk(output, unseen(output, pkg.name@, name_set(seen)) + 1, pkg, pkgs, seen)
}

/// The walks from the roots from the `r`-th on, one after the other.
pub open spec fn walk_roots<'a>(
    output: &'a Metadata,
    roots: Seq<Package>,
    r: int,
    pkgs: Seq<&'a Package>,
    seen: Seq<String>,
) -> (Seq<&'a Package>, Seq<String>)
    decreases (if 0 <= r < roots.len() { roots.len() - r } else { 0 }) as nat,
{
    if r < 0 || r >= roots.len() {
        (pkgs, seen)
    } else {
        let (p, s) = fill_spec(output, &roots[r], pkgs, seen);
        walk_roots(output, roots, r + 1, p, s)
    }
}

/// The packages to publish for `roots`, in the order in which to publish them.
pub open spec fn resolve_spec<'a>(output: &'a Metadata, roots: Seq<Package>) -> Seq<&'a Package> {
    walk_roots(output, roots, 0, Seq::empty(), Seq::empty()).0
}

/// The first package with an identifier is one package.
pub proof fn lemma_first_package(output: &Metadata, id: Seq<char>, j: int)
    requires
        output.is_first_package(id, j),
    ensures
        first_package(output, id) == j,
{
    let c = first_package(output, id);
    assert(output.is_first_package(id, c));
    if c < j {
        assert(output.packages@[c].id@ != id);
    }
    if j < c {
        assert(output.packages@[j].id@ != id);
    }
}

/// The first node with an identifier is one node.
pub proof fn lemma_first_node(output: &Metadata, id: Seq<char>, n: int)
    requires
        output.is_first_node(id, n),
    ensures
        first_node(output, id) == n,
{
    let c = first_node(output, id);
    assert(output.is_first_node(id, c));
    if c < n {
        assert(output.resolve.nodes@[c].id@ != id);
    }
    if n < c {
        assert(output.resolve.nodes@[n].id@ != id);
    }
}

/// What holds in the middle of a walk from `pkg`, which began with the
/// list `before` and the names `seen_before`, and has come to the list
/// `now` and the names `seen_now`.
pub open spec fn walking(
    output: &Metadata,
    pkg: &Package,
    before: Seq<&Package>,
    now: Seq<&Package>,
    seen_before: Set<Seq<char>>,
    seen_now: Set<Seq<char>>,
) -> bool {
    let b = before.len() as int;
    &&& b <= now.len()
    &&& now.subrange(0, b) == before
    &&& !seen_before.contains(pkg.name@)
    &&& seen_now == seen_before.insert(pkg.name@).union(names_between(now, b, now.len() as int))
    &&& fresh_names(now, b, seen_before.insert(pkg.name@))
    &&& closed_from(output, now, b, seen_now)
    &&& forall|i: int|
        b <= i < now.len() ==> #[trigger] has_parent_in(output, now, i) || child_of(
            output,
            pkg,
            now[i],
        )
    &&& forall|rank: spec_fn(Seq<char>) -> nat| #[trigger]
        is_ranking(output, rank) && respects(output, rank, pkg) ==> ordered_from(
            output,
            now,
            b,
            seen_before,
        ) && ranked_below(now, b, rank, rank(pkg.name@) as int)
}

/// A walk begins.
pub proof fn lemma_walk_begins(
    output: &Metadata,
    pkg: &Package,
    before: Seq<&Package>,
    seen_before: Set<Seq<char>>,
)
    requires
        !seen_before.contains(pkg.name@),
    ensures
        walking(output, pkg, before, before, seen_before, seen_before.insert(pkg.name@)),
{
    let b = before.len() as int;
    assert(before.subrange(0, b) =~= before);
    assert(seen_before.insert(pkg.name@) =~= seen_before.insert(pkg.name@).union(
        names_between(before, b, b),
    ));
}

/// A walk goes on after the walk from one of its dependencies.
pub proof fn lemma_walk_goes_on(
    output: &Metadata,
    pkg: &Package,
    d: int,
    before: Seq<&Package>,
    middle: Seq<&Package>,
    after: Seq<&Package>,
    seen_before: Set<Seq<char>>,
    seen_middle: Set<Seq<char>>,
    seen_after: Set<Seq<char>>,
)
    requires
        0 <= d < output.packages@.len(),
        output.depends_on(pkg.id@, d),
        walking(output, pkg, before, middle, seen_before, seen_middle),
        appended(output, &output.packages@[d], middle, after, seen_middle, seen_after),
    ensures
        walking(output, pkg, before, after, seen_before, seen_after),
        seen_middle.subset_of(seen_after),
        seen_after.contains(output.packages@[d].name@),
{
    let b = before.len() as int;
    let m = middle.len() as int;
    let a = after.len() as int;
    let own = seen_before.insert(pkg.name@);
    lemma_extended(before, middle, after, own, seen_middle, seen_after);
    assert forall|i: int| 0 <= i < m implies after[i] == middle[i] by {
        assert(after.subrange(0, m)[i] == after[i]);
    }
    assert(after[a - 1].name@ == output.packages@[d].name@);
    assert(names_between(after, m, a).contains(output.packages@[d].name@));
    assert forall|i: int, e: int|
        b <= i < a && #[trigger] output.depends_on(after[i].id@, e) implies seen_after.contains(
        output.packages@[e].name@,
    ) by {
        if i < m {
            assert(output.depends_on(middle[i].id@, e));
        }
    }
    assert forall|i: int| b <= i < a implies #[trigger] has_parent_in(output, after, i) || child_of(
        output,
        pkg,
        after[i],
    ) by {
        if i < m {
            if has_parent_in(output, middle, i) {
                let j = choose|j: int|
                    i < j < middle.len() && child_of(output, #[trigger] middle[j], middle[i]);
                assert(child_of(output, after[j], after[i]));
            }
        } else if i == a - 1 {
            assert(output.packages@[d] == *after[i]);
        }
    }
    assert forall|rank: spec_fn(Seq<char>) -> nat| #[trigger]
        is_ranking(output, rank) && respects(output, rank, pkg) implies ordered_from(
        output,
        after,
        b,
        seen_before,
    ) && ranked_below(after, b, rank, rank(pkg.name@) as int) by {
        let top = &output.packages@[d];
        assert(respects(output, rank, top));
        assert(rank(top.name@) < rank(pkg.name@));
        assert(ordered_from(output, after, m, seen_middle));
        assert(ranked_below(after, m, rank, (rank(top.name@) + 1) as int));
        assert(ordered_from(output, middle, b, seen_before));
        assert(ranked_below(middle, b, rank, rank(pkg.name@) as int));
        assert forall|i: int| b <= i < a implies rank((#[trigger] after[i]).name@) < rank(
            pkg.name@,
        ) by {
            if i < m {
                assert(after[i] == middle[i]);
            }
        }
        assert forall|i: int, e: int|
            b <= i < a && #[trigger] output.depends_on(after[i].id@, e) implies (
            seen_before.contains(output.packages@[e].name@) || names_between(after, b, i).contains(
                output.packages@[e].name@,
            )) by {
            let name = output.packages@[e].name@;
            if i < m {
                assert(output.depends_on(middle[i].id@, e));
                if !seen_before.contains(name) {
                    let j = choose|j: int|
                        b <= j < i && 0 <= j < middle.len() && (#[trigger] middle[j]).name@ == name;
                    assert(after[j].name@ == name);
                }
            } else {
                assert(respects(output, rank, after[i])) by {
                    if i == a - 1 {
                        assert(*after[i] == output.packages@[d]);
                    } else {
                        assert(has_parent_in(output, after, i));
                        let j = choose|j: int|
                            i < j < after.len() && child_of(output, #[trigger] after[j], after[i]);
                        let x = choose|x: int| #[trigger]
                            output.depends_on(after[j].id@, x) && output.packages@[x] == *after[i];
                        let (n2, k2) = choose|n2: int, k2: int| #[trigger]
                            output.is_edge(after[j].id@, n2, k2, x);
                        assert(output.is_edge(after[j].id@, n2, k2, x));
                        assert(0 <= x < output.packages@.len());
                        assert(respects(output, rank, &output.packages@[x]));
                    }
                }
                assert(rank(name) < rank(after[i].name@));
                assert(name != pkg.name@);
                if names_between(after, m, i).contains(name) {
                    let j = choose|j: int|
                        m <= j < i && 0 <= j < after.len() && (#[trigger] after[j]).name@ == name;
                    assert(after[j].name@ == name);
                } else {
                    assert(seen_middle.contains(name));
                    if !seen_before.contains(name) {
                        assert(names_between(middle, b, m).contains(name));
                        let j = choose|j: int|
                            b <= j < m && 0 <= j < middle.len() && (#[trigger] middle[j]).name@
                                == name;
                        assert(after[j].name@ == name);
                    }
                }
            }
        }
    }
}

/// A walk ends: the package that it began from is appended.
pub proof fn lemma_walk_ends(
    output: &Metadata,
    pkg: &Package,
    before: Seq<&Package>,
    now: Seq<&Package>,
    seen_before: Set<Seq<char>>,
    seen_now: Set<Seq<char>>,
)
    requires
        walking(output, pkg, before, now, seen_before, seen_now),
        forall|d: int| #[trigger]
            output.depends_on(pkg.id@, d) ==> seen_now.contains(output.packages@[d].name@),
    ensures
        appended(output, pkg, before, now.push(pkg), seen_before, seen_now),
{
    let b = before.len() as int;
    let last = now.push(pkg);
    let a = last.len() as int;
    assert(last.subrange(0, b) =~= before);
    assert forall|i: int| 0 <= i < now.len() implies last[i] == now[i] by {}
    assert(seen_now =~= seen_before.union(names_between(last, b, a))) by {
        assert forall|m: Seq<char>| names_between(last, b, a).contains(m) implies (m == pkg.name@
            || names_between(now, b, now.len() as int).contains(m)) by {
            let i = choose|i: int| b <= i < a && 0 <= i < last.len() && (#[trigger] last[i]).name@ == m;
            if i < now.len() {
                assert(now[i].name@ == m);
            }
        }
        assert forall|m: Seq<char>|
            (m == pkg.name@ || names_between(now, b, now.len() as int).contains(
                m,
            )) implies names_between(last, b, a).contains(m) by {
            if names_between(now, b, now.len() as int).contains(m) {
                let i = choose|i: int|
                    b <= i < now.len() && 0 <= i < now.len() && (#[trigger] now[i]).name@ == m;
                assert(last[i].name@ == m);
            } else {
                assert(last[now.len() as int].name@ == m);
            }
        }
    }
    assert(fresh_names(last, b, seen_before)) by {
        assert forall|i: int| b <= i < a implies !seen_before.contains((#[trigger] last[i]).name@) by {
            if i < now.len() {
                assert(last[i] == now[i]);
            }
        }
        assert forall|i: int, j: int| b <= i < j < a implies (#[trigger] last[i]).name@ != (
        #[trigger] last[j]).name@ by {
            assert(last[i] == now[i]);
            if j < now.len() {
                assert(last[j] == now[j]);
            }
        }
    }
    assert(closed_from(output, last, b, seen_now)) by {
        assert forall|i: int, d: int|
            b <= i < a && #[trigger] output.depends_on(last[i].id@, d) implies seen_now.contains(
            output.packages@[d].name@,
        ) by {
            if i < now.len() {
                assert(output.depends_on(now[i].id@, d));
            }
        }
    }
    assert forall|i: int| b <= i < a - 1 implies #[trigger] has_parent_in(output, last, i) by {
        if has_parent_in(output, now, i) {
            let j = choose|j: int| i < j < now.len() && child_of(output, #[trigger] now[j], now[i]);
            assert(child_of(output, last[j], last[i]));
        } else {
            assert(child_of(output, last[a - 1], last[i]));
        }
    }
    assert forall|rank: spec_fn(Seq<char>) -> nat| #[trigger]
        is_ranking(output, rank) && respects(output, rank, pkg) implies ordered_from(
        output,
        last,
        b,
        seen_before,
    ) && ranked_below(last, b, rank, (rank(pkg.name@) + 1) as int) by {
        assert(ordered_from(output, now, b, seen_before));
        assert(ranked_below(now, b, rank, rank(pkg.name@) as int));
        assert forall|i: int| b <= i < a implies rank((#[trigger] last[i]).name@) < rank(pkg.name@)
            + 1 by {
            if i < now.len() {
                assert(last[i] == now[i]);
            }
        }
        assert forall|i: int, e: int|
            b <= i < a && #[trigger] output.depends_on(last[i].id@, e) implies (
            seen_before.contains(output.packages@[e].name@) || names_between(last, b, i).contains(
                output.packages@[e].name@,
            )) by {
            let name = output.packages@[e].name@;
            if i < now.len() {
                assert(output.depends_on(now[i].id@, e));
                if !seen_before.contains(name) {
                    let j = choose|j: int|
                        b <= j < i && 0 <= j < now.len() && (#[trigger] now[j]).name@ == name;
                    assert(last[j].name@ == name);
                }
            } else {
                assert(seen_now.contains(name));
                assert(rank(name) < rank(pkg.name@));
                if !seen_before.contains(name) {
                    assert(names_between(now, b, now.len() as int).contains(name));
                    let j = choose|j: int|
                        b <= j < now.len() && 0 <= j < now.len() && (#[trigger] now[j]).name@
                            == name;
                    assert(last[j].name@ == name);
                }
            }
        }
    }
}

/// Walks the local dependencies of `pkg`, depth first, and appends to
/// `pkgs` every package whose name was not seen yet, each after the
/// packages that it depends on, and `pkg` last. Does nothing where the name
/// of `pkg` was seen.
pub fn fill<'a>(
    output: &'a Metadata,
    pkg: &'a Package,
    pkgs: &mut Vec<&'a Package>,
    seen: &mut Vec<String>,
)
    requires
        name_set(old(seen)@).contains(pkg.name@) || (output.closed() && output.has_node(pkg.id@)),
    ensures
        name_set(old(seen)@).contains(pkg.name@) ==> final(pkgs)@ == old(pkgs)@ && final(seen)@
            == old(seen)@,
        !name_set(old(seen)@).contains(pkg.name@) ==> appended(
            output,
            pkg,
            old(pkgs)@,
            final(pkgs)@,
            name_set(old(seen)@),
            name_set(final(seen)@),
        ),
        forall|fuel: nat|
            fuel > unseen(output, pkg.name@, name_set(old(seen)@)) ==> #[trigger] walk(
                output,
                fuel,
                pkg,
                old(pkgs)@,
                old(seen)@,
            ) == (final(pkgs)@, final(seen)@),
        fill_spec(output, pkg, old(pkgs)@, old(seen)@) == (final(pkgs)@, final(seen)@),
        no_name_twice(old(seen)@) ==> no_name_twice(final(seen)@),
    decreases unseen(output, pkg.name@, name_set(old(seen)@)),
{
    if contains_name(seen, &pkg.name) {
        return ;
    }
    let ghost seen_list = seen@;
    let ghost bound = unseen(output, pkg.name@, name_set(seen@));
    let ghost before = pkgs@;
    let ghost seen_before = name_set(seen@);
    proof {
        lemma_name_set_push(seen@, pkg.name);
        lemma_walk_begins(output, pkg, before, seen_before);
    }
    seen.push(pkg.name.clone());
    let n: usize = output.find_node(&pkg.id).unwrap();
    let node = &output.resolve.nodes[n];
    let mut k: usize = 0;
    let ghost started = seen@;
    proof {
        lemma_first_node(output, pkg.id@, n as int);
        assert(started == seen_list.push(pkg.name));
    }
    while k < node.dependencies.len()
        invariant
            output.closed(),
            started == seen_list.push(pkg.name),
            seen_list == old(seen)@,
            no_name_twice(seen_list) ==> no_name_twice(seen@),
            bound == unseen(output, pkg.name@, name_set(seen_list)),
            forall|fuel: nat|
                fuel > bound ==> #[trigger] walk_dependencies(
                    output,
                    (fuel - 1) as nat,
                    node.dependencies@,
                    0,
                    before,
                    started,
                ) == walk_dependencies(
                    output,
                    (fuel - 1) as nat,
                    node.dependencies@,
                    k as int,
                    pkgs@,
                    seen@,
                ),
            output.is_first_node(pkg.id@, n as int),
            *node == output.resolve.nodes@[n as int],
            k <= node.dependencies@.len(),
            before == old(pkgs)@,
            seen_before == name_set(old(seen)@),
            walking(output, pkg, before, pkgs@, seen_before, name_set(seen@)),
            forall|t: int, d: int|
                0 <= t < k && #[trigger] output.is_edge(pkg.id@, n as int, t, d) ==> name_set(
                    seen@,
                ).contains(output.packages@[d].name@),
        decreases node.dependencies@.len() - k,
    {
        let d: usize = output.find_package(&node.dependencies[k]).unwrap();
        let dep = &output.packages[d];
        let ghost middle = pkgs@;
        let ghost seen_middle = name_set(seen@);
        let ghost list_middle = seen@;
        proof {
            lemma_first_package(output, node.dependencies@[k as int]@, d as int);
            lemma_unseen_decreases(output, pkg.name@, d as int, seen_before, seen_middle);
        }
        if dep.source.is_none() {
            proof {
                assert(output.is_edge(pkg.id@, n as int, k as int, d as int));
            }
            fill(output, dep, pkgs, seen);
            proof {
                if !seen_middle.contains(dep.name@) {
                    lemma_walk_goes_on(
                        output,
                        pkg,
                        d as int,
                        before,
                        middle,
                        pkgs@,
                        seen_before,
                        seen_middle,
                        name_set(seen@),
                    );
                }
            }
        }
        proof {
            assert forall|fuel: nat| fuel > bound implies #[trigger] walk_dependencies(
                output,
                (fuel - 1) as nat,
                node.dependencies@,
                0,
                before,
                started,
            ) == walk_dependencies(
                output,
                (fuel - 1) as nat,
                node.dependencies@,
                k + 1,
                pkgs@,
                seen@,
            ) by {
                let less = (fuel - 1) as nat;
                if dep.source is None {
                    assert(walk(output, less, dep, middle, list_middle) == (pkgs@, seen@));
                }
                assert(walk_dependencies(output, less, node.dependencies@, k as int, middle, list_middle)
                    == walk_dependencies(output, less, node.dependencies@, k + 1, pkgs@, seen@));
            }
            assert forall|t: int, e: int|
                0 <= t < k + 1 && #[trigger] output.is_edge(
                    pkg.id@,
                    n as int,
                    t,
                    e,
                ) implies name_set(seen@).contains(output.packages@[e].name@) by {
                if t == k {
                    assert(e == d);
                } else {
                    assert(seen_middle.contains(output.packages@[e].name@));
                }
            }
        }
        k += 1;
    }
    proof {
        assert forall|d: int| #[trigger] output.depends_on(pkg.id@, d) implies name_set(
            seen@,
        ).contains(output.packages@[d].name@) by {
            let (n2, k2) = choose|n2: int, k2: int| #[trigger] output.is_edge(pkg.id@, n2, k2, d);
            assert(n2 == n);
        }
        lemma_walk_ends(output, pkg, before, pkgs@, seen_before, name_set(seen@));
        assert forall|fuel: nat| fuel > bound implies #[trigger] walk(
            output,
            fuel,
            pkg,
            before,
            seen_list,
        ) == (pkgs@.push(pkg), seen@) by {
            let less = (fuel - 1) as nat;
            assert(walk_dependencies(output, less, node.dependencies@, 0, before, started)
                == walk_dependencies(
                output,
                less,
                node.dependencies@,
                node.dependencies@.len() as int,
                pkgs@,
                seen@,
            ));
        }
    }
    pkgs.push(pkg);
}

/// `pkg` is one of the first `done` roots.
pub open spec fn is_root(roots: Seq<Package>, done: int, pkg: &Package) -> bool {
    exists|t: int| 0 <= t < done && t < roots.len() && #[trigger] roots[t] == *pkg
}

/// The rank of every name that a root depends on is below the rank of the root's name.
pub open spec fn roots_respect(
    output: &Metadata,
    rank: spec_fn(Seq<char>) -> nat,
    roots: Seq<Package>,
) -> bool {
    forall|t: int| 0 <= t < roots.len() ==> #[trigger] respects(output, rank, &roots[t])
}

/// `out` is what is published for the first `done` of `roots`:
/// no two packages of `out` have one name; the name of each of these roots
/// is the name of a package of `out`; each package of `out` is one of these
/// roots or a local package of the graph that a package behind it in `out`
/// depends on; the name of every local dependency of a package of `out` is
/// the name of a package of `out`; and where the graph has no cycle, the
/// name of every local dependency of a package of `out` is the name of a
/// package before it.
pub open spec fn published(
    output: &Metadata,
    roots: Seq<Package>,
    done: int,
    out: Seq<&Package>,
) -> bool {
    &&& fresh_names(out, 0, Set::empty())
    &&& forall|t: int|
        0 <= t < done && t < roots.len() ==> names_between(out, 0, out.len() as int).contains(
            (#[trigger] roots[t]).name@,
        )
    &&& forall|i: int|
        0 <= i < out.len() ==> #[trigger] has_parent_in(output, out, i) || is_root(
            roots,
            done,
            out[i],
        )
    &&& closed_from(output, out, 0, names_between(out, 0, out.len() as int))
    &&& forall|rank: spec_fn(Seq<char>) -> nat| #[trigger]
        is_ranking(output, rank) && roots_respect(output, rank, roots) ==> ordered_from(
            output,
            out,
            0,
            Set::empty(),
        )
}

/// What is published for some roots, with the walk from the next root appended.
pub proof fn lemma_root_walked(
    output: &Metadata,
    roots: Seq<Package>,
    r: int,
    before: Seq<&Package>,
    after: Seq<&Package>,
    seen_before: Set<Seq<char>>,
    seen_after: Set<Seq<char>>,
)
    requires
        0 <= r < roots.len(),
        published(output, roots, r, before),
        seen_before == names_between(before, 0, before.len() as int),
        appended(output, &roots[r], before, after, seen_before, seen_after),
    ensures
        published(output, roots, r + 1, after),
        seen_after == names_between(after, 0, after.len() as int),
{
    let b = before.len() as int;
    let a = after.len() as int;
    assert forall|i: int| 0 <= i < b implies after[i] == before[i] by {
        assert(after.subrange(0, b)[i] == after[i]);
    }
    assert forall|n: Seq<char>| names_between(after, 0, a).contains(n) <==> (
    seen_before.contains(n) || names_between(after, b, a).contains(n)) by {
        if names_between(after, 0, a).contains(n) {
            let i = choose|i: int| 0 <= i < a && 0 <= i < after.len() && (#[trigger] after[i]).name@ == n;
            if i < b {
                assert(before[i].name@ == n);
            }
        }
        if seen_before.contains(n) {
            let i = choose|i: int| 0 <= i < b && 0 <= i < before.len() && (#[trigger] before[i]).name@ == n;
            assert(after[i].name@ == n);
        }
        if names_between(after, b, a).contains(n) {
            let i = choose|i: int| b <= i < a && 0 <= i < after.len() && (#[trigger] after[i]).name@ == n;
            assert(after[i].name@ == n);
        }
    }
    assert(seen_after =~= names_between(after, 0, a));
    assert forall|i: int, j: int| 0 <= i < j < a implies (#[trigger] after[i]).name@ != (
    #[trigger] after[j]).name@ by {
        if j < b {
            assert(before[i] == after[i]);
            assert(before[j] == after[j]);
        } else if i < b {
            assert(before[i].name@ == after[i].name@);
            assert(seen_before.contains(before[i].name@));
        }
    }
    assert forall|t: int| 0 <= t < r + 1 && t < roots.len() implies names_between(
        after,
        0,
        a,
    ).contains((#[trigger] roots[t]).name@) by {
        if t < r {
            assert(seen_before.contains(roots[t].name@));
        } else {
            assert(after[a - 1].name@ == roots[t].name@);
        }
    }
    assert forall|i: int| 0 <= i < a implies #[trigger] has_parent_in(output, after, i) || is_root(
        roots,
        r + 1,
        after[i],
    ) by {
        if i < b {
            if has_parent_in(output, before, i) {
                let j = choose|j: int|
                    i < j < before.len() && child_of(output, #[trigger] before[j], before[i]);
                assert(child_of(output, after[j], after[i]));
            } else {
                let t = choose|t: int| 0 <= t < r && t < roots.len() && #[trigger] roots[t] == *before[i];
                assert(roots[t] == *after[i]);
            }
        } else if i == a - 1 {
            assert(roots[r] == *after[i]);
        }
    }
    assert forall|i: int, d: int|
        0 <= i < a && #[trigger] output.depends_on(after[i].id@, d) implies names_between(
        after,
        0,
        a,
    ).contains(output.packages@[d].name@) by {
        if i < b {
            assert(output.depends_on(before[i].id@, d));
            assert(seen_before.contains(output.packages@[d].name@));
        }
    }
    assert forall|rank: spec_fn(Seq<char>) -> nat| #[trigger]
        is_ranking(output, rank) && roots_respect(output, rank, roots) implies ordered_from(
        output,
        after,
        0,
        Set::empty(),
    ) by {
        assert(respects(output, rank, &roots[r]));
        assert(ordered_from(output, after, b, seen_before));
        assert(ordered_from(output, before, 0, Set::empty()));
        assert forall|i: int, d: int|
            0 <= i < a && #[trigger] output.depends_on(after[i].id@, d) implies names_between(
            after,
            0,
            i,
        ).contains(output.packages@[d].name@) by {
            let name = output.packages@[d].name@;
            if i < b {
                assert(output.depends_on(before[i].id@, d));
                let j = choose|j: int|
                    0 <= j < i && 0 <= j < before.len() && (#[trigger] before[j]).name@ == name;
                assert(after[j].name@ == name);
            } else if seen_before.contains(name) {
                let j = choose|j: int|
                    0 <= j < b && 0 <= j < before.len() && (#[trigger] before[j]).name@ == name;
                assert(after[j].name@ == name);
            } else {
                let j = choose|j: int|
                    b <= j < i && 0 <= j < after.len() && (#[trigger] after[j]).name@ == name;
                assert(after[j].name@ == name);
            }
        }
    }
}

/// What is published for some roots is what is published for one root
/// more, where the name of that root is among the published names.
pub proof fn lemma_root_skipped(output: &Metadata, roots: Seq<Package>, r: int, out: Seq<&Package>)
    requires
        0 <= r < roots.len(),
        published(output, roots, r, out),
        names_between(out, 0, out.len() as int).contains(roots[r].name@),
    ensures
        published(output, roots, r + 1, out),
{
    assert forall|i: int| 0 <= i < out.len() implies #[trigger] has_parent_in(output, out, i)
        || is_root(roots, r + 1, out[i]) by {
        if !has_parent_in(output, out, i) {
            let t = choose|t: int| 0 <= t < r && t < roots.len() && #[trigger] roots[t] == *out[i];
            assert(roots[t] == *out[i]);
        }
    }
}

/// Why nothing can be published for a graph and its roots.
#[derive(Clone, Copy, Debug, PartialEq, Eq, Structural)]
pub enum ResolveError {
    /// A root has to be walked from, and the graph is not closed.
    GraphNotClosed,
    /// A root has to be walked from, and the graph, which is closed, has no node for it.
    RootWithoutNode,
}

/// What the walks from the roots from the `r`-th on fail on, if they
/// fail. A root whose name was seen is passed over, whatever the graph
/// holds. The first root whose name was not seen asks for a closed graph
/// and for a node of its own.
pub open spec fn first_failure<'a>(
    output: &'a Metadata,
    roots: Seq<Package>,
    r: int,
    pkgs: Seq<&'a Package>,
    seen: Seq<String>,
) -> Option<ResolveError>
    decreases (if 0 <= r < roots.len() { roots.len() - r } else { 0 }) as nat,
{
    if r < 0 || r >= roots.len() {
        None
    } else if name_set(seen).contains(roots[r].name@) {
        first_failure(output, roots, r + 1, pkgs, seen)
    } else if !output.closed() {
        Some(ResolveError::GraphNotClosed)
    } else if !output.has_node(roots[r].id@) {
        Some(ResolveError::RootWithoutNode)
    } else {
        let (p, s) = fill_spec(output, &roots[r], pkgs, seen);
        first_failure(output, roots, r + 1, p, s)
    }
}

/// What the walks from the roots fail on, if they fail.
pub open spec fn resolve_failure(output: &Metadata, roots: Seq<Package>) -> Option<ResolveError> {
    first_failure(output, roots, 0, Seq::empty(), Seq::empty())
}

/// Every root has a node in the graph.
pub open spec fn roots_have_nodes(graph: &Metadata, roots: Seq<Package>) -> bool {
    forall|t: int| 0 <= t < roots.len() ==> graph.has_node((#[trigger] roots[t]).id@)
}

/// In a closed graph with a node for every root, the walks from the roots do not fail.
pub proof fn lemma_closed_graph_resolves<'a>(
    output: &'a Metadata,
    roots: Seq<Package>,
    r: int,
    pkgs: Seq<&'a Package>,
    seen: Seq<String>,
)
    requires
        output.closed(),
        roots_have_nodes(output, roots),
    ensures
        first_failure(output, roots, r, pkgs, seen) is None,
    decreases (if 0 <= r < roots.len() { roots.len() - r } else { 0 }) as nat,
{
    if 0 <= r < roots.len() {
        assert(output.has_node(roots[r].id@));
        if name_set(seen).contains(roots[r].name@) {
            lemma_closed_graph_resolves(output, roots, r + 1, pkgs, seen);
        } else {
            let (p, s) = fill_spec(output, &roots[r], pkgs, seen);
            lemma_closed_graph_resolves(output, roots, r + 1, p, s);
        }
    }
}

/// What holds between the walks from two roots: `out` is what is published
/// for the first `r` roots, `seen` holds the names of `out`, each once, and
/// the walks from the other roots go on from there.
pub open spec fn resolving<'a>(
    output: &'a Metadata,
    roots: Seq<Package>,
    r: int,
    out: Seq<&'a Package>,
    seen: Seq<String>,
) -> bool {
    &&& 0 <= r <= roots.len()
    &&& published(output, roots, r, out)
    &&& name_set(seen) == names_between(out, 0, out.len() as int)
    &&& no_name_twice(seen)
    &&& walk_roots(output, roots, 0, Seq::empty(), Seq::empty()) == walk_roots(
        output,
        roots,
        r,
        out,
        seen,
    )
    &&& resolve_failure(output, roots) == first_failure(output, roots, r, out, seen)
}

/// The walk from the `r`-th root.
fn walk_root<'a>(
    graph: &'a Metadata,
    roots: &'a Vec<Package>,
    r: usize,
    out: &mut Vec<&'a Package>,
    seen: &mut Vec<String>,
)
    requires
        r < roots@.len(),
        resolving(graph, roots@, r as int, old(out)@, old(seen)@),
        name_set(old(seen)@).contains(roots@[r as int].name@) || (graph.closed() && graph.has_node(
            roots@[r as int].id@,
        )),
    ensures
        resolving(graph, roots@, r + 1, final(out)@, final(seen)@),
{
    let ghost before = out@;
    let ghost seen_before = name_set(seen@);
    fill(graph, &roots[r], out, seen);
    proof {
        if seen_before.contains(roots@[r as int].name@) {
            lemma_root_skipped(graph, roots@, r as int, before);
        } else {
            lemma_root_walked(
                graph,
                roots@,
                r as int,
                before,
                out@,
                seen_before,
                name_set(seen@),
            );
        }
    }
}

/// The packages to publish for `roots`, in the order in which to publish
/// them: walks from each root in turn, with one list and one set of seen
/// names for all of them. A closed graph with a node for every root is
/// enough for the walks not to fail.
pub fn resolve<'a>(graph: &'a Metadata, roots: &'a Vec<Package>) -> (out: Vec<&'a Package>)
    requires
        resolve_failure(graph, roots@) is None,
    ensures
        out@ == resolve_spec(graph, roots@),
        published(graph, roots@, roots@.len() as int, out@),
{
    let mut out: Vec<&'a Package> = Vec::new();
    let mut seen: Vec<String> = Vec::new();
    let mut r: usize = 0;
    proof {
        assert(name_set(seen@) =~= names_between(out@, 0, 0));
    }
    while r < roots.len()
        invariant
            resolve_failure(graph, roots@) is None,
            resolving(graph, roots@, r as int, out@, seen@),
        decreases roots@.len() - r,
    {
        walk_root(graph, roots, r, &mut out, &mut seen);
        r += 1;
    }
    out
}

/// The packages to publish for `roots`, or what the walks from the roots fail on.
pub fn try_resolve<'a>(graph: &'a Metadata, roots: &'a Vec<Package>) -> (r: Result<
    Vec<&'a Package>,
    ResolveError,
>)
    ensures
        match resolve_failure(graph, roots@) {
            Some(e) => r matches Err(x) && x == e,
            None => r matches Ok(out) && out@ == resolve_spec(graph, roots@) && published(
                graph,
                roots@,
                roots@.len() as int,
                out@,
            ),
        },
{
    let mut out: Vec<&'a Package> = Vec::new();
    let mut seen: Vec<String> = Vec::new();
    let mut closed: Option<bool> = None;
    let mut r: usize = 0;
    proof {
        assert(name_set(seen@) =~= names_between(out@, 0, 0));
    }
    while r < roots.len()
        invariant
            resolving(graph, roots@, r as int, out@, seen@),
            closed matches Some(b) ==> b == graph.closed(),
        decreases roots@.len() - r,
    {
        if !contains_name(&seen, &roots[r].name) {
            let is_closed = match closed {
                Some(b) => b,
                None => graph.is_closed(),
            };
            closed = Some(is_closed);
            if !is_closed {
                return Err(ResolveError::GraphNotClosed);
            }
            if graph.find_node(&roots[r].id).is_none() {
                return Err(ResolveError::RootWithoutNode);
            }
        }
        walk_root(graph, roots, r, &mut out, &mut seen);
        r += 1;
    }
    Ok(out)
}

/// Every published package is a root or a local package of the graph: one
/// with a source is published only as a root.
pub proof fn lemma_published_is_root_or_local(
    output: &Metadata,
    roots: Seq<Package>,
    out: Seq<&Package>,
    i: int,
)
    requires
        published(output, roots, roots.len() as int, out),
        0 <= i < out.len(),
    ensures
        is_root(roots, roots.len() as int, out[i]) || (out[i].source is None && exists|j: int|
            0 <= j < output.packages@.len() && #[trigger] output.packages@[j] == *out[i]),
{
    if has_parent_in(output, out, i) {
        let j = choose|j: int| i < j < out.len() && child_of(output, #[trigger] out[j], out[i]);
        let d = choose|d: int| #[trigger]
            output.depends_on(out[j].id@, d) && output.packages@[d] == *out[i];
        let (n, k) = choose|n: int, k: int| #[trigger] output.is_edge(out[j].id@, n, k, d);
        assert(output.is_edge(out[j].id@, n, k, d));
        assert(output.packages@[d] == *out[i]);
    }
}

/// Where the local dependencies of the graph have no cycle, every local
/// dependency of a published package has the name of a package that is
/// published before it.
pub proof fn lemma_dependencies_come_first(
    output: &Metadata,
    roots: Seq<Package>,
    out: Seq<&Package>,
    rank: spec_fn(Seq<char>) -> nat,
    i: int,
    d: int,
)
    requires
        published(output, roots, roots.len() as int, out),
        is_ranking(output, rank),
        roots_respect(output, rank, roots),
        0 <= i < out.len(),
        output.depends_on(out[i].id@, d),
    ensures
        exists|j: int| 0 <= j < i && (#[trigger] out[j]).name@ == output.packages@[d].name@,
{
    assert(ordered_from(output, out, 0, Set::empty()));
    assert(names_between(out, 0, i).contains(output.packages@[d].name@));
    let j = choose|j: int|
        0 <= j < i && 0 <= j < out.len() && (#[trigger] out[j]).name@ == output.packages@[d].name@;
    assert(out[j].name@ == output.packages@[d].name@);
}

/// The packages of the graph, then the roots.
pub open spec fn all_packages(output: &Metadata, roots: Seq<Package>) -> Seq<Package> {
    output.packages@ + roots
}

/// Among the packages of the graph and the roots, a name belongs to one identifier.
pub open spec fn names_identify(output: &Metadata, roots: Seq<Package>) -> bool {
    forall|i: int, j: int|
        0 <= i < all_packages(output, roots).len() && 0 <= j < all_packages(output, roots).len() && (
        #[trigger] all_packages(output, roots)[i]).name@ == (#[trigger] all_packages(
            output,
            roots,
        )[j]).name@ ==> all_packages(output, roots)[i].id@ == all_packages(output, roots)[j].id@
}

/// `path` leads from the root at `t` along local dependencies: its first
/// package is a local dependency of the root, and each further one a local
/// dependency of the one before it.
pub open spec fn is_path_from_root(
    output: &Metadata,
    roots: Seq<Package>,
    t: int,
    path: Seq<int>,
) -> bool {
    &&& 0 <= t < roots.len()
    &&& path.len() > 0
    &&& output.depends_on(roots[t].id@, path[0])
    &&& forall|k: int|
        0 <= k < path.len() - 1 ==> output.depends_on(
            output.packages@[#[trigger] path[k]].id@,
            path[k + 1],
        )
}

/// Where a name belongs to one identifier, every local package that a
/// root reaches along local dependencies has the name of a published package.
pub proof fn lemma_reachable_is_published(
    output: &Metadata,
    roots: Seq<Package>,
    out: Seq<&Package>,
    t: int,
    path: Seq<int>,
    n: int,
)
    requires
        published(output, roots, roots.len() as int, out),
        names_identify(output, roots),
        is_path_from_root(output, roots, t, path),
        0 <= n < path.len(),
    ensures
        0 <= path[n] < output.packages@.len(),
        output.packages@[path[n]].source is None,
        exists|i: int| 0 <= i < out.len() && (#[trigger] out[i]).name@ == output.packages@[path[n]].name@,
    decreases n,
{
    let all = all_packages(output, roots);
    let np = output.packages@.len() as int;
    let from: Package = if n == 0 {
        roots[t]
    } else {
        output.packages@[path[n - 1]]
    };
    let from_at: int = if n == 0 {
        np + t
    } else {
        path[n - 1]
    };
    if n > 0 {
        lemma_reachable_is_published(output, roots, out, t, path, n - 1);
        assert(output.depends_on(output.packages@[path[n - 1]].id@, path[n - 1 + 1]));
    } else {
        assert(names_between(out, 0, out.len() as int).contains(roots[t].name@));
    }
    assert(all[from_at] == from);
    assert(output.depends_on(from.id@, path[n]));
    let (e, k) = choose|e: int, k: int| #[trigger] output.is_edge(from.id@, e, k, path[n]);
    assert(output.is_edge(from.id@, e, k, path[n]));
    let i = choose|i: int| 0 <= i < out.len() && (#[trigger] out[i]).name@ == from.name@;
    lemma_published_is_root_or_local(output, roots, out, i);
    let here: int = if is_root(roots, roots.len() as int, out[i]) {
        np + choose|r: int| 0 <= r < roots.len() && r < roots.len() && #[trigger] roots[r] == *out[i]
    } else {
        choose|j: int| 0 <= j < output.packages@.len() && #[trigger] output.packages@[j] == *out[i]
    };
    assert(all[here] == *out[i]);
    assert(all[here].name@ == all[from_at].name@);
    assert(out[i].id@ == from.id@);
    assert(output.depends_on(out[i].id@, path[n]));
    let name = output.packages@[path[n]].name@;
    assert(names_between(out, 0, out.len() as int).contains(name));
    let w = choose|w: int| 0 <= w < out.len() && 0 <= w < out.len() && (#[trigger] out[w]).name@ == name;
    assert(out[w].name@ == name);
}

} // verus!
