use vstd::prelude::*;

use crate::analysis::{exclusive_of, importers_of, in_registry, main_set, registry_acyclic};
use crate::graph::{DepKind, PackageGraph};
use crate::reach::{lemma_reaches0_refl, lemma_reaches_last_step, lemma_reaches_reaches0};

verus! {

/// When the registry has no cycle, no package of it is among its own transitive
/// dependencies.
pub proof fn lemma_not_own_dependency(g: PackageGraph, roots: Set<usize>, n: usize)
    requires
        registry_acyclic(g, roots),
        in_registry(g, roots, n),
    ensures
        !g.deps_of(n).contains(n),
{
}

/// An edge that counts puts its target, and everything the target depends on, among
/// the transitive dependencies of its source.
pub proof fn lemma_edge_closure(g: PackageGraph, a: usize, b: usize)
    requires
        g.step(a, b),
    ensures
        g.deps_of(a).contains(b),
        g.deps_of(b).subset_of(g.deps_of(a)),
{
    lemma_reaches0_refl(g, b);
    assert(g.reaches(a, b));
    assert forall|c: usize| g.deps_of(b).contains(c) implies g.deps_of(a).contains(c) by {
        lemma_reaches_reaches0(g, b, c);
        assert(g.reaches(a, c));
    }
}

/// Two distinct main dependencies bring in nothing exclusively in common.
pub proof fn lemma_exclusive_disjoint(g: PackageGraph, roots: Set<usize>, d1: usize, d2: usize)
    requires
        main_set(g, roots).contains(d1),
        main_set(g, roots).contains(d2),
        d1 != d2,
    ensures
        exclusive_of(g, main_set(g, roots), d1).intersect(exclusive_of(g, main_set(g, roots), d2))
            == Set::<usize>::empty(),
{
    let m = main_set(g, roots);
    assert forall|b: usize| !(exclusive_of(g, m, d1).contains(b) && exclusive_of(g, m, d2).contains(b)) by {
        if exclusive_of(g, m, d1).contains(b) && exclusive_of(g, m, d2).contains(b) {
            lemma_reaches_reaches0(g, d1, b);
            assert(!g.reaches0(d1, b));
        }
    }
    assert(exclusive_of(g, m, d1).intersect(exclusive_of(g, m, d2)) =~= Set::<usize>::empty());
}

/// A package that two distinct main dependencies reach is brought in exclusively by
/// no main dependency.
pub proof fn lemma_shared_not_exclusive(g: PackageGraph, roots: Set<usize>, n: usize, d1: usize, d2: usize)
    requires
        main_set(g, roots).contains(d1),
        main_set(g, roots).contains(d2),
        d1 != d2,
        g.reaches(d1, n),
        g.reaches(d2, n),
    ensures
        forall|d: usize| !(#[trigger] exclusive_of(g, main_set(g, roots), d)).contains(n),
{
    let m = main_set(g, roots);
    lemma_reaches_reaches0(g, d1, n);
    lemma_reaches_reaches0(g, d2, n);
    assert forall|d: usize| !(#[trigger] exclusive_of(g, m, d)).contains(n) by {
        if exclusive_of(g, m, d).contains(n) {
            if d == d1 {
                assert(!g.reaches0(d2, n));
            } else {
                assert(!g.reaches0(d1, n));
            }
        }
    }
}

/// Every package of the registry has at least one analyzed root that depends on it.
pub proof fn lemma_registry_complete(g: PackageGraph, roots: Set<usize>, n: usize)
    requires
        in_registry(g, roots, n),
    ensures
        importers_of(g, roots, n) != Set::<usize>::empty(),
{
    let r = choose|r: usize| roots.contains(r) && #[trigger] g.reaches(r, n);
    assert(importers_of(g, roots, n).contains(r));
    assert(!Set::<usize>::empty().contains(r));
}

/// A package whose incoming edges are all dev-only is never in the registry.
pub proof fn lemma_dev_only_excluded(g: PackageGraph, roots: Set<usize>, n: usize)
    requires
        forall|i: int| 0 <= i < g.edges@.len() && (#[trigger] g.edges@[i]).to == n ==> g.edges@[i].kind == DepKind::Dev,
    ensures
        !in_registry(g, roots, n),
{
    if in_registry(g, roots, n) {
        let r = choose|r: usize| roots.contains(r) && #[trigger] g.reaches(r, n);
        lemma_reaches_last_step(g, r, n);
        let x = choose|x: usize| #[trigger] g.step(x, n);
        let i = choose|i: int|
            0 <= i < g.edges@.len() && g.follows(#[trigger] g.edges@[i]) && g.edges@[i].from == x && g.edges@[i].to == n;
    }
}

} // verus!
