use vstd::prelude::*;

use crate::graph::PackageGraph;

verus! {

/// The elements of `v` rise strictly, so `v` lists a set once each, in order.
pub open spec fn strictly_increasing(v: Seq<usize>) -> bool {
    forall|i: int, j: int| 0 <= i < j < v.len() ==> v[i] < v[j]
}

/// `v` lists exactly the members of `s`, in increasing order.
pub open spec fn enumerates(v: Seq<usize>, s: Set<usize>) -> bool {
    &&& strictly_increasing(v)
    &&& forall|x: usize| v.contains(x) <==> #[trigger] s.contains(x)
}

/// Some seed reaches `b` by zero or more edges that count.
pub open spec fn seeded(g: PackageGraph, seeds: Seq<usize>, b: usize) -> bool {
    exists|k: int| 0 <= k < seeds.len() && #[trigger] g.reaches0(seeds[k], b)
}

pub proof fn lemma_reaches0_refl(g: PackageGraph, a: usize)
    ensures
        g.reaches0(a, a),
{
    assert(g.connects(seq![a], a, a));
}

/// A walk extended by one edge is a walk.
pub proof fn lemma_reaches0_extend(g: PackageGraph, a: usize, x: usize, b: usize)
    requires
        g.reaches0(a, x),
        g.step(x, b),
    ensures
        g.reaches0(a, b),
{
    let p = choose|p: Seq<usize>| g.connects(p, a, x);
    let q = p.push(b);
    assert forall|k: int| 0 <= k < q.len() - 1 implies #[trigger] g.step(q[k], q[k + 1]) by {
        if k < p.len() - 1 {
            assert(q[k] == p[k] && q[k + 1] == p[k + 1]);
        }
    }
    assert(g.connects(q, a, b));
}

/// An edge followed by a walk is a walk.
pub proof fn lemma_reaches0_prepend(g: PackageGraph, a: usize, s: usize, b: usize)
    requires
        g.step(a, s),
        g.reaches0(s, b),
    ensures
        g.reaches0(a, b),
{
    let p = choose|p: Seq<usize>| g.connects(p, s, b);
    let q = seq![a] + p;
    assert forall|k: int| 0 <= k < q.len() - 1 implies #[trigger] g.step(q[k], q[k + 1]) by {
        if k > 0 {
            assert(q[k] == p[k - 1] && q[k + 1] == p[k]);
            assert(g.step(p[k - 1], p[(k - 1) + 1]));
        }
    }
    assert(g.connects(q, a, b));
}

pub proof fn lemma_reaches_reaches0(g: PackageGraph, a: usize, b: usize)
    requires
        g.reaches(a, b),
    ensures
        g.reaches0(a, b),
{
    let s = choose|s: usize| g.step(a, s) && g.reaches0(s, b);
    lemma_reaches0_prepend(g, a, s, b);
}

/// Along a walk from a member of a set closed under the edges that count, every
/// package is a member.
proof fn lemma_closed_walk(g: PackageGraph, m: Seq<bool>, p: Seq<usize>, a: usize, b: usize, k: int)
    requires
        g.wf(),
        m.len() == g.nodes@.len(),
        a < m.len(),
        m[a as int],
        forall|x: usize, y: usize| x < m.len() && m[x as int] && #[trigger] g.step(x, y) ==> m[y as int],
        g.connects(p, a, b),
        0 <= k < p.len(),
    ensures
        p[k] < m.len() && m[p[k] as int],
    decreases k,
{
    if k > 0 {
        lemma_closed_walk(g, m, p, a, b, k - 1);
        assert(g.step(p[k - 1], p[(k - 1) + 1]));
        let i = choose|i: int|
            0 <= i < g.edges@.len() && g.follows(#[trigger] g.edges@[i]) && g.edges@[i].from == p[k - 1]
                && g.edges@[i].to == p[k];
    }
}

/// Whatever is reached by one or more edges is the target of some edge that counts.
pub proof fn lemma_reaches_last_step(g: PackageGraph, a: usize, b: usize)
    requires
        g.reaches(a, b),
    ensures
        exists|x: usize| #[trigger] g.step(x, b),
{
    let s = choose|s: usize| g.step(a, s) && g.reaches0(s, b);
    let p = choose|p: Seq<usize>| g.connects(p, s, b);
    if p.len() == 1 {
        assert(g.step(a, b));
    } else {
        assert(g.step(p[p.len() - 2], p[(p.len() - 2) + 1]));
    }
}

/// The target of an edge that counts is a package of the graph.
pub proof fn lemma_step_in_graph(g: PackageGraph, a: usize, b: usize)
    requires
        g.step(a, b),
    ensures
        b < g.nodes@.len(),
{
    let i = choose|i: int|
        0 <= i < g.edges@.len() && g.follows(#[trigger] g.edges@[i]) && g.edges@[i].from == a && g.edges@[i].to == b;
}

/// A set of packages that holds `a` and every target of its members' edges holds
/// everything that `a` reaches.
pub proof fn lemma_closed_holds(g: PackageGraph, m: Seq<bool>, a: usize, b: usize)
    requires
        g.wf(),
        m.len() == g.nodes@.len(),
        a < m.len(),
        m[a as int],
        forall|x: usize, y: usize| x < m.len() && m[x as int] && #[trigger] g.step(x, y) ==> m[y as int],
        g.reaches0(a, b),
    ensures
        b < m.len() && m[b as int],
{
    let p = choose|p: Seq<usize>| g.connects(p, a, b);
    lemma_closed_walk(g, m, p, a, b, p.len() - 1);
}

/// How many entries of `m` are `false`.
pub open spec fn count_false(m: Seq<bool>) -> nat
    decreases m.len(),
{
    if m.len() == 0 {
        0
    } else {
        count_false(m.drop_last()) + if m.last() { 0nat } else { 1nat }
    }
}

/// Setting a `false` entry to `true` lowers the count of `false` entries by one.
proof fn lemma_count_false_set(m: Seq<bool>, i: int)
    requires
        0 <= i < m.len(),
        !m[i],
    ensures
        count_false(m.update(i, true)) + 1 == count_false(m),
    decreases m.len(),
{
    let u = m.update(i, true);
    if i < m.len() - 1 {
        assert(u.drop_last() == m.drop_last().update(i, true));
        lemma_count_false_set(m.drop_last(), i);
    } else {
        assert(u.drop_last() == m.drop_last());
    }
}

/// Marks exactly the packages that some seed reaches by zero or more edges that count.
pub fn reach_from(g: &PackageGraph, adj: &Vec<Vec<usize>>, seeds: &Vec<usize>) -> (mark: Vec<bool>)
    requires
        g.wf(),
        g.adjacency(adj@),
        forall|k: int| 0 <= k < seeds@.len() ==> #[trigger] seeds@[k] < g.nodes@.len(),
    ensures
        mark@.len() == g.nodes@.len(),
        forall|b: usize| b < g.nodes@.len() ==> (mark@[b as int] <==> #[trigger] seeded(*g, seeds@, b)),
{
    let n = g.nodes.len();
    let mut mark: Vec<bool> = Vec::new();
    let mut i: usize = 0;
    while i < n
        invariant
            i <= n,
            mark@.len() == i,
            forall|x: int| 0 <= x < i ==> !mark@[x],
        decreases n - i,
    {
        mark.push(false);
        i = i + 1;
    }
    let mut todo: Vec<usize> = Vec::new();
    let mut k: usize = 0;
    while k < seeds.len()
        invariant
            n == g.nodes@.len(),
            mark@.len() == n,
            k <= seeds@.len(),
            forall|j: int| 0 <= j < seeds@.len() ==> #[trigger] seeds@[j] < n,
            forall|j: int| 0 <= j < k ==> mark@[#[trigger] seeds@[j] as int],
            forall|j: int| 0 <= j < todo@.len() ==> #[trigger] todo@[j] < n && mark@[todo@[j] as int],
            forall|x: usize| x < n && mark@[x as int] ==> todo@.contains(x),
            forall|x: usize| x < n && mark@[x as int] ==> seeded(*g, seeds@, x),
        decreases seeds@.len() - k,
    {
        let s = seeds[k];
        if !mark[s] {
            proof {
                lemma_reaches0_refl(*g, s);
            }
            let ghost before = todo@;
            mark.set(s, true);
            todo.push(s);
            assert forall|x: usize| x < n && mark@[x as int] implies todo@.contains(x) by {
                if x != s {
                    let j = choose|j: int| 0 <= j < before.len() && before[j] == x;
                    assert(todo@[j] == x);
                } else {
                    assert(todo@[todo@.len() - 1] == x);
                }
            }
            assert forall|j: int| 0 <= j < todo@.len() implies #[trigger] todo@[j] < n && mark@[todo@[j] as int] by {
                if j < before.len() {
                    assert(todo@[j] == before[j]);
                }
            }
        }
        k = k + 1;
    }
    while todo.len() > 0
        invariant
            g.wf(),
            g.adjacency(adj@),
            n == g.nodes@.len(),
            mark@.len() == n,
            forall|j: int| 0 <= j < seeds@.len() ==> #[trigger] seeds@[j] < n,
            forall|j: int| 0 <= j < seeds@.len() ==> mark@[#[trigger] seeds@[j] as int],
            forall|j: int| 0 <= j < todo@.len() ==> #[trigger] todo@[j] < n && mark@[todo@[j] as int],
            forall|x: usize| x < n && mark@[x as int] ==> seeded(*g, seeds@, x),
            forall|x: usize, j: int|
                x < n && mark@[x as int] && !todo@.contains(x) && 0 <= j < adj@[x as int]@.len()
                    ==> mark@[#[trigger] adj@[x as int]@[j] as int],
        decreases count_false(mark@), todo@.len(),
    {
        let ghost c0 = count_false(mark@);
        let ghost full = todo@;
        let x = todo.pop().unwrap();
        let ghost rest = todo@;
        proof {
            assert(full == rest.push(x));
            assert(full[full.len() - 1] == x);
            assert forall|y: usize| y != x && full.contains(y) implies rest.contains(y) by {
                let i = choose|i: int| 0 <= i < full.len() && full[i] == y;
                assert(rest[i] == y);
            }
            assert forall|j: int| 0 <= j < rest.len() implies #[trigger] rest[j] < n && mark@[rest[j] as int] by {
                assert(rest[j] == full[j]);
            }
        }
        let row = &adj[x];
        let mut j: usize = 0;
        while j < row.len()
            invariant
                g.wf(),
                g.adjacency(adj@),
                n == g.nodes@.len(),
                mark@.len() == n,
                x < n,
                mark@[x as int],
                *row == adj@[x as int],
                j <= row@.len(),
                count_false(mark@) < c0 || (count_false(mark@) == c0 && todo@ == rest),
                forall|i: int| 0 <= i < seeds@.len() ==> #[trigger] seeds@[i] < n,
                forall|i: int| 0 <= i < seeds@.len() ==> mark@[#[trigger] seeds@[i] as int],
                forall|i: int| 0 <= i < todo@.len() ==> #[trigger] todo@[i] < n && mark@[todo@[i] as int],
                forall|y: usize| y < n && mark@[y as int] ==> seeded(*g, seeds@, y),
                forall|i: int| 0 <= i < j ==> mark@[#[trigger] row@[i] as int],
                forall|y: usize, i: int|
                    y < n && y != x && mark@[y as int] && !todo@.contains(y) && 0 <= i < adj@[y as int]@.len()
                        ==> mark@[#[trigger] adj@[y as int]@[i] as int],
            decreases row@.len() - j,
        {
            let y = row[j];
            assert(y < n && g.step(x, y));
            if !mark[y] {
                proof {
                    let k = choose|k: int| 0 <= k < seeds@.len() && #[trigger] g.reaches0(seeds@[k], x);
                    lemma_reaches0_extend(*g, seeds@[k], x, y);
                    lemma_count_false_set(mark@, y as int);
                }
                let ghost before = todo@;
                mark.set(y, true);
                todo.push(y);
                assert forall|z: usize| before.contains(z) implies todo@.contains(z) by {
                    let i = choose|i: int| 0 <= i < before.len() && before[i] == z;
                    assert(todo@[i] == z);
                }
                assert(todo@[todo@.len() - 1] == y);
                assert forall|i: int| 0 <= i < todo@.len() implies #[trigger] todo@[i] < n && mark@[todo@[i] as int] by {
                    if i < before.len() {
                        assert(todo@[i] == before[i]);
                    }
                }
            }
            j = j + 1;
        }
    }
    proof {
        assert forall|b: usize| b < n implies (mark@[b as int] <==> #[trigger] seeded(*g, seeds@, b)) by {
            if seeded(*g, seeds@, b) {
                let k = choose|k: int| 0 <= k < seeds@.len() && #[trigger] g.reaches0(seeds@[k], b);
                assert forall|x: usize, y: usize|
                    x < mark@.len() && mark@[x as int] && #[trigger] g.step(x, y) implies mark@[y as int] by {
                    let j = choose|j: int| 0 <= j < adj@[x as int]@.len() && adj@[x as int]@[j] == y;
                }
                lemma_closed_holds(*g, mark@, seeds@[k], b);
            }
        }
    }
    mark
}

/// The indices at which `mark` holds `true`, in increasing order.
pub fn marked_indices(mark: &Vec<bool>) -> (r: Vec<usize>)
    ensures
        strictly_increasing(r@),
        forall|x: usize| r@.contains(x) <==> (x < mark@.len() && mark@[x as int]),
{
    let mut r: Vec<usize> = Vec::new();
    let mut i: usize = 0;
    while i < mark.len()
        invariant
            i <= mark@.len(),
            strictly_increasing(r@),
            forall|j: int| 0 <= j < r@.len() ==> #[trigger] r@[j] < i,
            forall|x: usize| r@.contains(x) <==> (x < i && mark@[x as int]),
        decreases mark@.len() - i,
    {
        if mark[i] {
            let ghost before = r@;
            r.push(i);
            assert forall|x: usize| r@.contains(x) <==> (x < i + 1 && mark@[x as int]) by {
                if before.contains(x) {
                    let j = choose|j: int| 0 <= j < before.len() && before[j] == x;
                    assert(r@[j] == x);
                }
                if x == i {
                    assert(r@[r@.len() - 1] == x);
                }
                if r@.contains(x) && x != i {
                    let j = choose|j: int| 0 <= j < r@.len() && r@[j] == x;
                    assert(before[j] == x);
                }
            }
        } else {
            assert forall|x: usize| r@.contains(x) <==> (x < i + 1 && mark@[x as int]) by {
                if r@.contains(x) {
                    let j = choose|j: int| 0 <= j < r@.len() && r@[j] == x;
                }
            }
        }
        i = i + 1;
    }
    r
}

} // verus!
