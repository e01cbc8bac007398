use vstd::prelude::*;

use crate::graph::{PackageGraph, PackageNode};
use crate::reach::{
    enumerates, lemma_reaches_last_step, lemma_reaches_reaches0, lemma_step_in_graph, marked_indices,
    reach_from, seeded, strictly_increasing,
};
use crate::roots::{analyzed_set, resolve_roots, AnalysisError};

verus! {

/// The main dependencies: targets of edges that count, out of the analyzed roots.
pub open spec fn main_set(g: PackageGraph, roots: Set<usize>) -> Set<usize> {
    Set::new(|d: usize| exists|r: usize| roots.contains(r) && #[trigger] g.step(r, d))
}

/// Package `n` is reached from some analyzed root.
pub open spec fn in_registry(g: PackageGraph, roots: Set<usize>, n: usize) -> bool {
    exists|r: usize| roots.contains(r) && #[trigger] g.reaches(r, n)
}

/// The analyzed roots that depend on `n`, directly or transitively.
pub open spec fn importers_of(g: PackageGraph, roots: Set<usize>, n: usize) -> Set<usize> {
    Set::new(|r: usize| roots.contains(r) && g.reaches(r, n))
}

/// What main dependency `d` alone brings in: its transitive dependencies that no
/// other main dependency is or reaches. Empty when `d` is not a main dependency.
pub open spec fn exclusive_of(g: PackageGraph, main: Set<usize>, d: usize) -> Set<usize> {
    Set::new(
        |b: usize|
            main.contains(d) && g.reaches(d, b) && forall|e: usize|
                main.contains(e) && e != d ==> !#[trigger] g.reaches0(e, b),
    )
}

/// No package of the registry depends on itself.
pub open spec fn registry_acyclic(g: PackageGraph, roots: Set<usize>) -> bool {
    forall|n: usize| in_registry(g, roots, n) ==> !#[trigger] g.reaches(n, n)
}

/// Which main dependencies reach a package.
#[derive(Clone, Copy, Debug, PartialEq, Eq, Structural)]
pub enum Owner {
    Nobody,
    Only(usize),
    Shared,
}

/// Which of the dependencies `s` reach `b` (zero or more edges).
pub open spec fn owner_of(g: PackageGraph, s: Seq<usize>, b: usize) -> Owner
    decreases s.len(),
{
    if s.len() == 0 {
        Owner::Nobody
    } else {
        let o = owner_of(g, s.drop_last(), b);
        if g.reaches0(s.last(), b) {
            if o == Owner::Nobody {
                Owner::Only(s.last())
            } else {
                Owner::Shared
            }
        } else {
            o
        }
    }
}

pub proof fn lemma_owner_nobody(g: PackageGraph, s: Seq<usize>, b: usize)
    ensures
        owner_of(g, s, b) == Owner::Nobody <==> forall|k: int|
            0 <= k < s.len() ==> !#[trigger] g.reaches0(s[k], b),
    decreases s.len(),
{
    if s.len() > 0 {
        let t = s.drop_last();
        lemma_owner_nobody(g, t, b);
        if g.reaches0(s.last(), b) {
            assert(owner_of(g, s, b) != Owner::Nobody);
            assert(g.reaches0(s[s.len() - 1], b));
        } else {
            assert(owner_of(g, s, b) == owner_of(g, t, b));
            if forall|k: int| 0 <= k < t.len() ==> !#[trigger] g.reaches0(t[k], b) {
                assert forall|k: int| 0 <= k < s.len() implies !#[trigger] g.reaches0(s[k], b) by {
                    if k < t.len() {
                        assert(s[k] == t[k]);
                    }
                }
            }
            if forall|k: int| 0 <= k < s.len() ==> !#[trigger] g.reaches0(s[k], b) {
                assert forall|k: int| 0 <= k < t.len() implies !#[trigger] g.reaches0(t[k], b) by {
                    assert(s[k] == t[k]);
                }
            }
        }
    }
}

/// Over dependencies listed once each, `Only(d)` says that `d` is the one that reaches `b`.
pub proof fn lemma_owner_only(g: PackageGraph, s: Seq<usize>, b: usize, d: usize)
    requires
        strictly_increasing(s),
    ensures
        owner_of(g, s, b) == Owner::Only(d) <==> (s.contains(d) && g.reaches0(d, b) && forall|k: int|
            0 <= k < s.len() && s[k] != d ==> !#[trigger] g.reaches0(s[k], b)),
    decreases s.len(),
{
    if s.len() > 0 {
        let t = s.drop_last();
        let l = s.last();
        let last = s.len() - 1;
        assert(s[last] == l);
        assert forall|k: int| 0 <= k < t.len() implies #[trigger] t[k] == s[k] && s[k] != l by {}
        lemma_owner_only(g, t, b, d);
        lemma_owner_nobody(g, t, b);
        if g.reaches0(l, b) {
            if owner_of(g, t, b) == Owner::Nobody {
                assert(owner_of(g, s, b) == Owner::Only(l));
                if d == l {
                    assert forall|k: int| 0 <= k < s.len() && s[k] != d implies !#[trigger] g.reaches0(s[k], b) by {
                        assert(k < t.len());
                        assert(!g.reaches0(t[k], b));
                    }
                } else {
                    assert(s[last] != d);
                }
            } else {
                assert(owner_of(g, s, b) == Owner::Shared);
                let k = choose|k: int| 0 <= k < t.len() && #[trigger] g.reaches0(t[k], b);
                assert(g.reaches0(s[k], b));
                if d == l {
                    assert(s[k] != d);
                } else {
                    assert(s[last] != d);
                }
            }
        } else {
            assert(owner_of(g, s, b) == owner_of(g, t, b));
            if s.contains(d) && g.reaches0(d, b) {
                let k = choose|k: int| 0 <= k < s.len() && s[k] == d;
                assert(k != last);
                assert(t[k] == d);
            }
            if t.contains(d) {
                let k = choose|k: int| 0 <= k < t.len() && t[k] == d;
                assert(s[k] == d);
            }
            if forall|k: int| 0 <= k < t.len() && t[k] != d ==> !#[trigger] g.reaches0(t[k], b) {
                assert forall|k: int| 0 <= k < s.len() && s[k] != d implies !#[trigger] g.reaches0(s[k], b) by {
                    if k < t.len() {
                        assert(s[k] == t[k]);
                    }
                }
            }
            if forall|k: int| 0 <= k < s.len() && s[k] != d ==> !#[trigger] g.reaches0(s[k], b) {
                assert forall|k: int| 0 <= k < t.len() && t[k] != d implies !#[trigger] g.reaches0(t[k], b) by {
                    assert(s[k] == t[k]);
                }
            }
        }
    }
}

/// Following one edge that counts, then zero or more, is following one or more.
pub proof fn lemma_seeded_successors(g: PackageGraph, adj: Seq<Vec<usize>>, a: usize, b: usize)
    requires
        g.adjacency(adj),
        a < g.nodes@.len(),
    ensures
        seeded(g, adj[a as int]@, b) <==> g.reaches(a, b),
{
    let row = adj[a as int]@;
    if seeded(g, row, b) {
        let k = choose|k: int| 0 <= k < row.len() && #[trigger] g.reaches0(row[k], b);
        assert(g.step(a, row[k]));
    }
    if g.reaches(a, b) {
        let s = choose|s: usize| g.step(a, s) && g.reaches0(s, b);
        let k = choose|k: int| 0 <= k < row.len() && row[k] == s;
        assert(g.reaches0(row[k], b));
    }
}

/// Marks exactly the transitive dependencies of `a`.
pub fn deps_marks(g: &PackageGraph, adj: &Vec<Vec<usize>>, a: usize) -> (mark: Vec<bool>)
    requires
        g.wf(),
        g.adjacency(adj@),
        a < g.nodes@.len(),
    ensures
        mark@.len() == g.nodes@.len(),
        forall|b: usize| b < g.nodes@.len() ==> (mark@[b as int] <==> #[trigger] g.reaches(a, b)),
{
    let row = &adj[a];
    let mark = reach_from(g, adj, row);
    proof {
        assert forall|b: usize| b < g.nodes@.len() implies (mark@[b as int] <==> #[trigger] g.reaches(a, b)) by {
            lemma_seeded_successors(*g, adj@, a, b);
        }
    }
    mark
}

/// A vector of `n` entries `false`.
pub fn all_false(n: usize) -> (v: Vec<bool>)
    ensures
        v@.len() == n,
        forall|i: int| 0 <= i < n ==> !v@[i],
{
    let mut v: Vec<bool> = Vec::new();
    let mut i: usize = 0;
    while i < n
        invariant
            i <= n,
            v@.len() == i,
            forall|x: int| 0 <= x < i ==> !v@[x],
        decreases n - i,
    {
        v.push(false);
        i = i + 1;
    }
    v
}

/// The main dependencies of the analyzed roots `roots`, in increasing order.
pub fn main_dependencies(g: &PackageGraph, adj: &Vec<Vec<usize>>, roots: &Vec<usize>) -> (r: Vec<usize>)
    requires
        g.wf(),
        g.adjacency(adj@),
        forall|i: int| 0 <= i < roots@.len() ==> #[trigger] roots@[i] < g.nodes@.len(),
    ensures
        enumerates(r@, main_set(*g, roots@.to_set())),
{
    let n = g.nodes.len();
    let mut mark = all_false(n);
    let mut i: usize = 0;
    while i < roots.len()
        invariant
            g.wf(),
            g.adjacency(adj@),
            n == g.nodes@.len(),
            mark@.len() == n,
            i <= roots@.len(),
            forall|k: int| 0 <= k < roots@.len() ==> #[trigger] roots@[k] < n,
            forall|d: usize|
                d < n ==> (mark@[d as int] <==> exists|k: int|
                    0 <= k < i && #[trigger] g.step(roots@[k], d)),
        decreases roots@.len() - i,
    {
        let row = &adj[roots[i]];
        let mut j: usize = 0;
        while j < row.len()
            invariant
                g.wf(),
                g.adjacency(adj@),
                n == g.nodes@.len(),
                mark@.len() == n,
                i < roots@.len(),
                *row == adj@[roots@[i as int] as int],
                j <= row@.len(),
                forall|k: int| 0 <= k < roots@.len() ==> #[trigger] roots@[k] < n,
                forall|d: usize|
                    d < n ==> (mark@[d as int] <==> (exists|k: int|
                        0 <= k < i && #[trigger] g.step(roots@[k], d)) || exists|x: int|
                        0 <= x < j && row@[x] == d),
            decreases row@.len() - j,
        {
            let d = row[j];
            mark.set(d, true);
            j = j + 1;
        }
        proof {
            assert forall|d: usize|
                d < n implies (mark@[d as int] <==> exists|k: int|
                    0 <= k < i + 1 && #[trigger] g.step(roots@[k], d)) by {
                if g.step(roots@[i as int], d) {
                    assert(row@.contains(d));
                }
                if exists|x: int| 0 <= x < row@.len() && row@[x] == d {
                    let x = choose|x: int| 0 <= x < row@.len() && row@[x] == d;
                    assert(g.step(roots@[i as int], row@[x]));
                }
            }
        }
        i = i + 1;
    }
    let r = marked_indices(&mark);
    proof {
        let s = main_set(*g, roots@.to_set());
        assert forall|d: usize| r@.contains(d) <==> #[trigger] s.contains(d) by {
            if s.contains(d) {
                let x = choose|x: usize| roots@.to_set().contains(x) && #[trigger] g.step(x, d);
                let k = choose|k: int| 0 <= k < roots@.len() && roots@[k] == x;
                assert(g.step(roots@[k], d));
            }
            if r@.contains(d) {
                let k = choose|k: int| 0 <= k < roots@.len() && #[trigger] g.step(roots@[k], d);
                assert(roots@.to_set().contains(roots@[k]));
            }
        }
    }
    r
}

/// For each package, which of the main dependencies `main` reach it.
pub fn owners(g: &PackageGraph, adj: &Vec<Vec<usize>>, main: &Vec<usize>) -> (o: Vec<Owner>)
    requires
        g.wf(),
        g.adjacency(adj@),
        forall|i: int| 0 <= i < main@.len() ==> #[trigger] main@[i] < g.nodes@.len(),
    ensures
        o@.len() == g.nodes@.len(),
        forall|b: usize| b < g.nodes@.len() ==> o@[b as int] == #[trigger] owner_of(*g, main@, b),
{
    let n = g.nodes.len();
    let mut o: Vec<Owner> = Vec::new();
    let mut b: usize = 0;
    while b < n
        invariant
            b <= n,
            o@.len() == b,
            forall|x: int| 0 <= x < b ==> o@[x] == Owner::Nobody,
        decreases n - b,
    {
        o.push(Owner::Nobody);
        b = b + 1;
    }
    let mut i: usize = 0;
    while i < main.len()
        invariant
            g.wf(),
            g.adjacency(adj@),
            n == g.nodes@.len(),
            o@.len() == n,
            i <= main@.len(),
            forall|k: int| 0 <= k < main@.len() ==> #[trigger] main@[k] < n,
            forall|x: usize| x < n ==> o@[x as int] == #[trigger] owner_of(*g, main@.subrange(0, i as int), x),
        decreases main@.len() - i,
    {
        let d = main[i];
        let seeds = vec![d];
        let mark = reach_from(g, adj, &seeds);
        let ghost pre = main@.subrange(0, i as int);
        let ghost post = main@.subrange(0, i + 1);
        assert(post.drop_last() == pre);
        assert(post.last() == d);
        let mut x: usize = 0;
        while x < n
            invariant
                n == g.nodes@.len(),
                o@.len() == n,
                mark@.len() == n,
                x <= n,
                seeds@ == seq![d],
                post.len() == i + 1,
                post.drop_last() == pre,
                post.last() == d,
                forall|y: usize| y < n ==> (mark@[y as int] <==> #[trigger] seeded(*g, seeds@, y)),
                forall|y: usize| x <= y < n ==> o@[y as int] == #[trigger] owner_of(*g, pre, y),
                forall|y: usize| y < x ==> o@[y as int] == #[trigger] owner_of(*g, post, y),
            decreases n - x,
        {
            proof {
                if g.reaches0(d, x) {
                    assert(seeded(*g, seeds@, x)) by {
                        assert(seeds@[0] == d);
                    }
                }
                if seeded(*g, seeds@, x) {
                    let k = choose|k: int| 0 <= k < seeds@.len() && #[trigger] g.reaches0(seeds@[k], x);
                    assert(seeds@[k] == d);
                }
                assert(mark@[x as int] == g.reaches0(d, x));
                assert(o@[x as int] == owner_of(*g, pre, x));
            }
            if mark[x] {
                let cur = o[x];
                let next = match cur {
                    Owner::Nobody => Owner::Only(d),
                    _ => Owner::Shared,
                };
                o.set(x, next);
            }
            assert(o@[x as int] == owner_of(*g, post, x));
            x = x + 1;
        }
        i = i + 1;
    }
    assert(main@.subrange(0, main@.len() as int) == main@);
    o
}

/// The risk record of one package of the registry.
#[derive(Debug)]
pub struct PackageRisk {
    pub name: String,
    /// The versions seen under this identity.
    pub versions: Vec<String>,
    pub repo: Option<String>,
    pub description: Option<String>,
    pub manifest_path: String,
    /// Whether the package is built for the host target; filled in later.
    pub used: bool,
    /// The transitive dependencies, in increasing order.
    pub transitive_dependencies: Vec<usize>,
    /// The analyzed roots that depend on this package, in increasing order.
    pub root_importers: Vec<usize>,
    /// What this package alone brings in, when it is a main dependency.
    pub exclusive_deps_introduced: Vec<usize>,
    pub loc: u64,
    pub rust_loc: u64,
    pub unsafe_loc: u64,
    pub stargazers_count: Option<u64>,
    pub crates_io_dependent: Option<u64>,
}

/// The outcome of an analysis.
#[derive(Debug)]
pub struct RepoAnalysis {
    /// The names of the analyzed roots, one for each entry of `analyzed_roots`.
    pub root_crates: Vec<String>,
    /// The analyzed roots, in increasing order.
    pub analyzed_roots: Vec<usize>,
    /// The main dependencies, in increasing order.
    pub main_dependencies: Vec<usize>,
    /// One entry per package of the graph: its record when it is in the registry.
    pub analysis_result: Vec<Option<PackageRisk>>,
}

/// `risk` is the finished record of package `n` when `roots` are analyzed.
pub open spec fn risk_of(g: PackageGraph, roots: Set<usize>, n: usize, risk: PackageRisk) -> bool {
    let node = g.nodes@[n as int];
    &&& risk.name@ == node.name@
    &&& risk.versions@.len() == 1
    &&& risk.versions@[0]@ == node.version@
    &&& risk.repo == node.repo
    &&& risk.description == node.description
    &&& risk.manifest_path@ == node.manifest_path@
    &&& !risk.used
    &&& risk.loc == 0 && risk.rust_loc == 0 && risk.unsafe_loc == 0
    &&& risk.stargazers_count is None && risk.crates_io_dependent is None
    &&& enumerates(risk.transitive_dependencies@, g.deps_of(n))
    &&& enumerates(risk.root_importers@, importers_of(g, roots, n))
    &&& enumerates(risk.exclusive_deps_introduced@, exclusive_of(g, main_set(g, roots), n))
}

/// The entry for package `n`: a record exactly when `n` is in the registry.
pub open spec fn entry_of(g: PackageGraph, roots: Set<usize>, n: usize, e: Option<PackageRisk>) -> bool {
    match e {
        Some(risk) => in_registry(g, roots, n) && risk_of(g, roots, n, risk),
        None => !in_registry(g, roots, n),
    }
}

fn clone_opt(o: &Option<String>) -> (r: Option<String>)
    ensures
        r == *o,
{
    match o {
        Some(s) => Some(s.clone()),
        None => None,
    }
}

/// A record for `node` with the given lists and the later metrics left empty.
pub fn new_risk(node: &PackageNode, td: Vec<usize>, imp: Vec<usize>, ex: Vec<usize>) -> (r: PackageRisk)
    ensures
        r.name@ == node.name@,
        r.versions@.len() == 1,
        r.versions@[0]@ == node.version@,
        r.repo == node.repo,
        r.description == node.description,
        r.manifest_path@ == node.manifest_path@,
        !r.used,
        r.loc == 0 && r.rust_loc == 0 && r.unsafe_loc == 0,
        r.stargazers_count is None && r.crates_io_dependent is None,
        r.transitive_dependencies == td,
        r.root_importers == imp,
        r.exclusive_deps_introduced == ex,
{
    let mut versions: Vec<String> = Vec::new();
    versions.push(node.version.clone());
    PackageRisk {
        name: node.name.clone(),
        versions,
        repo: clone_opt(&node.repo),
        description: clone_opt(&node.description),
        manifest_path: node.manifest_path.clone(),
        used: false,
        transitive_dependencies: td,
        root_importers: imp,
        exclusive_deps_introduced: ex,
        loc: 0,
        rust_loc: 0,
        unsafe_loc: 0,
        stargazers_count: None,
        crates_io_dependent: None,
    }
}

/// The roots, among `roots`, whose marks hold package `x`, in increasing order.
pub fn importers_list(n: usize, roots: &Vec<usize>, marks: &Vec<Vec<bool>>, x: usize) -> (r: Vec<usize>)
    requires
        x < n,
        marks@.len() == roots@.len(),
        forall|i: int| 0 <= i < roots@.len() ==> #[trigger] roots@[i] < n,
        forall|i: int| 0 <= i < marks@.len() ==> (#[trigger] marks@[i])@.len() == n,
    ensures
        strictly_increasing(r@),
        forall|y: usize|
            r@.contains(y) <==> exists|i: int| 0 <= i < roots@.len() && roots@[i] == y && #[trigger] marks@[i]@[x as int],
{
    let mut imp = all_false(n);
    let mut i: usize = 0;
    while i < roots.len()
        invariant
            x < n,
            imp@.len() == n,
            i <= roots@.len(),
            marks@.len() == roots@.len(),
            forall|k: int| 0 <= k < roots@.len() ==> #[trigger] roots@[k] < n,
            forall|k: int| 0 <= k < marks@.len() ==> (#[trigger] marks@[k])@.len() == n,
            forall|y: usize|
                y < n ==> (imp@[y as int] <==> exists|k: int|
                    0 <= k < i && roots@[k] == y && #[trigger] marks@[k]@[x as int]),
        decreases roots@.len() - i,
    {
        if marks[i][x] {
            imp.set(roots[i], true);
        }
        i = i + 1;
    }
    let r = marked_indices(&imp);
    proof {
        assert forall|y: usize|
            r@.contains(y) <==> exists|i: int| 0 <= i < roots@.len() && roots@[i] == y && #[trigger] marks@[i]@[x as int] by {
            if exists|i: int| 0 <= i < roots@.len() && roots@[i] == y && #[trigger] marks@[i]@[x as int] {
                let i = choose|i: int| 0 <= i < roots@.len() && roots@[i] == y && #[trigger] marks@[i]@[x as int];
                assert(y < n);
            }
        }
    }
    r
}

/// Whether some mark of `marks` holds package `x`.
pub fn marked_by_any(marks: &Vec<Vec<bool>>, x: usize) -> (r: bool)
    requires
        forall|i: int| 0 <= i < marks@.len() ==> x < (#[trigger] marks@[i])@.len(),
    ensures
        r == exists|i: int| 0 <= i < marks@.len() && #[trigger] marks@[i]@[x as int],
{
    let mut i: usize = 0;
    while i < marks.len()
        invariant
            i <= marks@.len(),
            forall|k: int| 0 <= k < marks@.len() ==> x < (#[trigger] marks@[k])@.len(),
            forall|k: int| 0 <= k < i ==> !(#[trigger] marks@[k])@[x as int],
        decreases marks@.len() - i,
    {
        if marks[i][x] {
            return true;
        }
        i = i + 1;
    }
    false
}

/// The record of package `x` of the registry, or `CycleDetected` when `x` depends on itself.
pub fn record_for(
    g: &PackageGraph,
    adj: &Vec<Vec<usize>>,
    roots: &Vec<usize>,
    marks: &Vec<Vec<bool>>,
    main: &Vec<usize>,
    own: &Vec<Owner>,
    x: usize,
) -> (r: Result<PackageRisk, AnalysisError>)
    requires
        g.wf(),
        g.adjacency(adj@),
        x < g.nodes@.len(),
        in_registry(*g, roots@.to_set(), x),
        forall|i: int| 0 <= i < roots@.len() ==> #[trigger] roots@[i] < g.nodes@.len(),
        marks@.len() == roots@.len(),
        forall|i: int| 0 <= i < marks@.len() ==> (#[trigger] marks@[i])@.len() == g.nodes@.len(),
        forall|i: int, b: usize|
            0 <= i < marks@.len() && b < g.nodes@.len() ==> (marks@[i]@[b as int]
                <==> #[trigger] g.reaches(roots@[i], b)),
        enumerates(main@, main_set(*g, roots@.to_set())),
        own@.len() == g.nodes@.len(),
        forall|b: usize| b < g.nodes@.len() ==> own@[b as int] == #[trigger] owner_of(*g, main@, b),
    ensures
        match r {
            Ok(risk) => !g.reaches(x, x) && risk_of(*g, roots@.to_set(), x, risk),
            Err(e) => e == AnalysisError::CycleDetected && g.reaches(x, x),
        },
{
    let n = g.nodes.len();
    let ghost aset = roots@.to_set();
    let ghost mset = main_set(*g, aset);
    let tdn = deps_marks(g, adj, x);
    if tdn[x] {
        return Err(AnalysisError::CycleDetected);
    }
    let td = marked_indices(&tdn);
    assert forall|b: usize| td@.contains(b) <==> #[trigger] g.deps_of(x).contains(b) by {
        if g.reaches(x, b) {
            lemma_reaches_last_step(*g, x, b);
            let y = choose|y: usize| #[trigger] g.step(y, b);
            lemma_step_in_graph(*g, y, b);
        }
    }
    let imp = importers_list(n, roots, marks, x);
    assert forall|r: usize| imp@.contains(r) <==> #[trigger] importers_of(*g, aset, x).contains(r) by {
        if aset.contains(r) && g.reaches(r, x) {
            let i = choose|i: int| 0 <= i < roots@.len() && roots@[i] == r;
            assert(marks@[i]@[x as int]);
        }
    }
    let mut exm = all_false(n);
    let mut b: usize = 0;
    while b < n
        invariant
            n == g.nodes@.len(),
            tdn@.len() == n,
            own@.len() == n,
            exm@.len() == n,
            b <= n,
            forall|y: usize| y < b ==> (exm@[y as int] <==> (tdn@[y as int] && own@[y as int] == Owner::Only(x))),
            forall|y: usize| b <= y < n ==> !exm@[y as int],
        decreases n - b,
    {
        if tdn[b] && own[b] == Owner::Only(x) {
            exm.set(b, true);
        }
        b = b + 1;
    }
    let ex = marked_indices(&exm);
    assert forall|y: usize| ex@.contains(y) <==> #[trigger] exclusive_of(*g, mset, x).contains(y) by {
        lemma_owner_only(*g, main@, y, x);
        if ex@.contains(y) {
            lemma_reaches_reaches0(*g, x, y);
            assert forall|e: usize| mset.contains(e) && e != x implies !#[trigger] g.reaches0(e, y) by {
                assert(main@.contains(e));
                let k = choose|k: int| 0 <= k < main@.len() && main@[k] == e;
            }
        }
        if exclusive_of(*g, mset, x).contains(y) {
            lemma_reaches_last_step(*g, x, y);
            let z = choose|z: usize| #[trigger] g.step(z, y);
            lemma_step_in_graph(*g, z, y);
            lemma_reaches_reaches0(*g, x, y);
            assert(main@.contains(x));
            assert forall|k: int| 0 <= k < main@.len() && main@[k] != x implies !#[trigger] g.reaches0(main@[k], y) by {
                assert(mset.contains(main@[k]));
            }
        }
    }
    Ok(new_risk(&g.nodes[x], td, imp, ex))
}

/// Analyzes the roots that pass the name filter (`packages` keeps only the names it
/// lists; otherwise `to_ignore` drops the names it lists) and builds the risk
/// registry over the packages they reach.
pub fn analyze_repo(g: &PackageGraph, packages: Option<Vec<String>>, to_ignore: Option<Vec<String>>) -> (r:
    Result<RepoAnalysis, AnalysisError>)
    requires
        g.wf(),
    ensures
        ({
            let aset = analyzed_set(*g, packages, to_ignore);
            match r {
                Ok(a) => {
                    &&& aset != Set::<usize>::empty()
                    &&& registry_acyclic(*g, aset)
                    &&& enumerates(a.analyzed_roots@, aset)
                    &&& a.root_crates@.len() == a.analyzed_roots@.len()
                    &&& forall|i: int|
                        0 <= i < a.root_crates@.len() ==> (#[trigger] a.root_crates@[i])@
                            == g.nodes@[a.analyzed_roots@[i] as int].name@
                    &&& enumerates(a.main_dependencies@, main_set(*g, aset))
                    &&& a.analysis_result@.len() == g.nodes@.len()
                    &&& forall|n: usize|
                        n < g.nodes@.len() ==> #[trigger] entry_of(*g, aset, n, a.analysis_result@[n as int])
                },
                Err(AnalysisError::EmptyRootSet) => aset == Set::<usize>::empty(),
                Err(AnalysisError::CycleDetected) => aset != Set::<usize>::empty() && !registry_acyclic(*g, aset),
            }
        }),
{
    let ghost aset = analyzed_set(*g, packages, to_ignore);
    let roots = match resolve_roots(g, &packages, &to_ignore) {
        Ok(v) => v,
        Err(e) => {
            return Err(e);
        },
    };
    assert(roots@.to_set() =~= aset);
    assert(aset.contains(roots@[0]));
    let n = g.nodes.len();
    assert forall|k: int| 0 <= k < roots@.len() implies #[trigger] roots@[k] < n by {
        assert(roots@.contains(roots@[k]));
        assert(aset.contains(roots@[k]));
    }
    let adj = g.successors();
    let mut names: Vec<String> = Vec::new();
    let mut marks: Vec<Vec<bool>> = Vec::new();
    let mut i: usize = 0;
    while i < roots.len()
        invariant
            g.wf(),
            g.adjacency(adj@),
            n == g.nodes@.len(),
            i <= roots@.len(),
            enumerates(roots@, aset),
            forall|k: int| 0 <= k < roots@.len() ==> #[trigger] roots@[k] < n,
            names@.len() == i,
            marks@.len() == i,
            forall|k: int| 0 <= k < i ==> (#[trigger] names@[k])@ == g.nodes@[roots@[k] as int].name@,
            forall|k: int| 0 <= k < marks@.len() ==> (#[trigger] marks@[k])@.len() == n,
            forall|k: int, b: usize|
                0 <= k < marks@.len() && b < n ==> (marks@[k]@[b as int] <==> #[trigger] g.reaches(roots@[k], b)),
        decreases roots@.len() - i,
    {
        assert(aset.contains(roots@[i as int]));
        let r = roots[i];
        names.push(g.nodes[r].name.clone());
        marks.push(deps_marks(g, &adj, r));
        i = i + 1;
    }
    let main = main_dependencies(g, &adj, &roots);
    assert forall|k: int| 0 <= k < main@.len() implies #[trigger] main@[k] < n by {
        assert(main_set(*g, aset).contains(main@[k]));
        let r = choose|r: usize| aset.contains(r) && #[trigger] g.step(r, main@[k]);
        lemma_step_in_graph(*g, r, main@[k]);
    }
    let own = owners(g, &adj, &main);
    let ghost first = roots@[0];
    let mut result: Vec<Option<PackageRisk>> = Vec::new();
    let mut x: usize = 0;
    while x < n
        invariant
            g.wf(),
            g.adjacency(adj@),
            n == g.nodes@.len(),
            x <= n,
            aset == analyzed_set(*g, packages, to_ignore),
            roots@.to_set() == aset,
            aset.contains(first),
            forall|k: int| 0 <= k < roots@.len() ==> #[trigger] roots@[k] < n,
            marks@.len() == roots@.len(),
            forall|k: int| 0 <= k < marks@.len() ==> (#[trigger] marks@[k])@.len() == n,
            forall|k: int, b: usize|
                0 <= k < marks@.len() && b < n ==> (marks@[k]@[b as int] <==> #[trigger] g.reaches(roots@[k], b)),
            enumerates(main@, main_set(*g, aset)),
            own@.len() == n,
            forall|b: usize| b < n ==> own@[b as int] == #[trigger] owner_of(*g, main@, b),
            result@.len() == x,
            forall|k: usize| k < x ==> #[trigger] entry_of(*g, aset, k, result@[k as int]),
            forall|k: usize| k < x && in_registry(*g, aset, k) ==> !#[trigger] g.reaches(k, k),
        decreases n - x,
    {
        let reg = marked_by_any(&marks, x);
        assert(reg == in_registry(*g, aset, x)) by {
            if reg {
                let k = choose|k: int| 0 <= k < marks@.len() && #[trigger] marks@[k]@[x as int];
                assert(roots@.contains(roots@[k]));
                assert(aset.contains(roots@[k]));
                assert(g.reaches(roots@[k], x));
            }
            if in_registry(*g, aset, x) {
                let r = choose|r: usize| aset.contains(r) && #[trigger] g.reaches(r, x);
                assert(roots@.to_set().contains(r));
                let k = choose|k: int| 0 <= k < roots@.len() && roots@[k] == r;
                assert(g.reaches(roots@[k], x));
                assert(marks@[k]@[x as int]);
            }
        }
        if reg {
            match record_for(g, &adj, &roots, &marks, &main, &own, x) {
                Ok(risk) => {
                    result.push(Some(risk));
                },
                Err(e) => {
                    assert(in_registry(*g, aset, x) && g.reaches(x, x));
                    assert(!registry_acyclic(*g, aset));
                    assert(aset != Set::<usize>::empty()) by {
                        assert(!Set::<usize>::empty().contains(first));
                    }
                    return Err(e);
                },
            }
        } else {
            result.push(None);
        }
        assert(result@[x as int] == result@.last());
        x = x + 1;
    }
    assert forall|m: usize| in_registry(*g, aset, m) implies !#[trigger] g.reaches(m, m) by {
        let r = choose|r: usize| aset.contains(r) && #[trigger] g.reaches(r, m);
        lemma_reaches_last_step(*g, r, m);
        let y = choose|y: usize| #[trigger] g.step(y, m);
        lemma_step_in_graph(*g, y, m);
    }
    Ok(RepoAnalysis { root_crates: names, analyzed_roots: roots, main_dependencies: main, analysis_result: result })
}

} // verus!
