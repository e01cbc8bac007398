use vstd::prelude::*;

verus! {

/// The kind of a dependency link.
#[derive(Clone, Copy, Debug, PartialEq, Eq, Structural)]
pub enum DepKind {
    Normal,
    Build,
    /// A link used only for development and testing.
    Dev,
}

/// A package of the resolved graph. Its identity is its index in the graph.
#[derive(Debug)]
pub struct PackageNode {
    pub name: String,
    pub version: String,
    pub source: String,
    pub repo: Option<String>,
    pub description: Option<String>,
    pub manifest_path: String,
    /// Whether the package is a member of the analyzed workspace (a root).
    pub workspace_member: bool,
}

/// A dependency link between two packages, given by their indices.
#[derive(Clone, Copy, Debug)]
pub struct DependencyEdge {
    pub from: usize,
    pub to: usize,
    pub kind: DepKind,
}

/// An immutable, already-resolved package graph.
#[derive(Debug)]
pub struct PackageGraph {
    pub nodes: Vec<PackageNode>,
    pub edges: Vec<DependencyEdge>,
}

impl PackageGraph {
    /// Every edge links two packages of the graph.
    pub open spec fn wf(&self) -> bool {
        forall|i: int|
            0 <= i < self.edges@.len() ==> (#[trigger] self.edges@[i]).from < self.nodes@.len()
                && self.edges@[i].to < self.nodes@.len()
    }

    pub open spec fn is_root(&self, n: usize) -> bool {
        n < self.nodes@.len() && self.nodes@[n as int].workspace_member
    }

    /// An edge counts for risk: it is not dev-only and it does not lead into a root.
    pub open spec fn follows(&self, e: DependencyEdge) -> bool {
        e.kind != DepKind::Dev && e.to < self.nodes@.len() && !self.is_root(e.to)
    }

    /// `a` depends on `b` through one edge that counts.
    pub open spec fn step(&self, a: usize, b: usize) -> bool {
        exists|i: int|
            0 <= i < self.edges@.len() && self.follows(#[trigger] self.edges@[i])
                && self.edges@[i].from == a && self.edges@[i].to == b
    }

    /// `p` is a walk from `a` to `b` along edges that count (zero or more of them).
    pub open spec fn connects(&self, p: Seq<usize>, a: usize, b: usize) -> bool {
        &&& p.len() >= 1
        &&& p[0] == a
        &&& p.last() == b
        &&& forall|k: int| 0 <= k < p.len() - 1 ==> #[trigger] self.step(p[k], p[k + 1])
    }

    /// `b` is `a` or a transitive dependency of `a`.
    pub open spec fn reaches0(&self, a: usize, b: usize) -> bool {
        exists|p: Seq<usize>| #[trigger] self.connects(p, a, b)
    }

    /// `b` is reached from `a` by following one or more edges that count.
    pub open spec fn reaches(&self, a: usize, b: usize) -> bool {
        exists|s: usize| #[trigger] self.step(a, s) && self.reaches0(s, b)
    }

    /// The transitive dependencies of `a`.
    pub open spec fn deps_of(&self, a: usize) -> Set<usize> {
        Set::new(|b: usize| self.reaches(a, b))
    }

    /// Whether `adj` lists, for each package, exactly the targets of its edges that count.
    pub open spec fn adjacency(&self, adj: Seq<Vec<usize>>) -> bool {
        &&& adj.len() == self.nodes@.len()
        &&& forall|a: int, j: int|
            0 <= a < adj.len() && 0 <= j < adj[a]@.len() ==> #[trigger] adj[a]@[j] < adj.len()
                && self.step(a as usize, adj[a]@[j])
        &&& forall|a: usize, b: usize|
            #[trigger] self.step(a, b) ==> a < adj.len() && adj[a as int]@.contains(b)
    }

    /// Whether the edge `e` counts for risk.
    pub fn edge_counts(&self, e: &DependencyEdge) -> (r: bool)
        requires
            e.to < self.nodes@.len(),
        ensures
            r == self.follows(*e),
    {
        match e.kind {
            DepKind::Dev => false,
            _ => !self.nodes[e.to].workspace_member,
        }
    }

    /// For each package, the targets of its edges that count.
    pub fn successors(&self) -> (adj: Vec<Vec<usize>>)
        requires
            self.wf(),
        ensures
            self.adjacency(adj@),
    {
        let n = self.nodes.len();
        let mut adj: Vec<Vec<usize>> = Vec::new();
        let mut a: usize = 0;
        while a < n
            invariant
                self.wf(),
                n == self.nodes@.len(),
                a <= n,
                adj@.len() == a,
                forall|x: int, j: int|
                    0 <= x < a && 0 <= j < adj@[x]@.len() ==> #[trigger] adj@[x]@[j] < n
                        && self.step(x as usize, adj@[x]@[j]),
                forall|x: usize, b: usize|
                    x < a && #[trigger] self.step(x, b) ==> adj@[x as int]@.contains(b),
            decreases n - a,
        {
            let mut row: Vec<usize> = Vec::new();
            let mut i: usize = 0;
            while i < self.edges.len()
                invariant
                    self.wf(),
                    n == self.nodes@.len(),
                    a < n,
                    i <= self.edges@.len(),
                    forall|j: int|
                        0 <= j < row@.len() ==> #[trigger] row@[j] < n && self.step(a, row@[j]),
                    forall|k: int|
                        0 <= k < i && self.follows(#[trigger] self.edges@[k])
                            && self.edges@[k].from == a ==> row@.contains(self.edges@[k].to),
                decreases self.edges@.len() - i,
            {
                let e = &self.edges[i];
                assert(self.edges@[i as int].to < n);
                if e.from == a && self.edge_counts(e) {
                    let ghost before = row@;
                    row.push(e.to);
                    assert forall|y: usize| before.contains(y) implies row@.contains(y) by {
                        let j = choose|j: int| 0 <= j < before.len() && before[j] == y;
                        assert(row@[j] == y);
                    }
                    assert(row@[row@.len() - 1] == e.to);
                }
                i = i + 1;
            }
            assert forall|b: usize| #[trigger] self.step(a, b) implies row@.contains(b) by {
                let k = choose|k: int|
                    0 <= k < self.edges@.len() && self.follows(#[trigger] self.edges@[k])
                        && self.edges@[k].from == a && self.edges@[k].to == b;
            }
            adj.push(row);
            a = a + 1;
        }
        adj
    }
}

} // verus!
