use vstd::prelude::*;

use crate::graph::PackageGraph;
use crate::reach::{enumerates, marked_indices};

verus! {

/// Why an analysis produced no registry.
#[derive(Clone, Copy, Debug, PartialEq, Eq, Structural)]
pub enum AnalysisError {
    /// No workspace member is left once the name filter is applied.
    EmptyRootSet,
    /// A package of the registry depends on itself.
    CycleDetected,
}

/// Some entry of `names` is `name`.
pub open spec fn listed(names: Seq<String>, name: Seq<char>) -> bool {
    exists|j: int| 0 <= j < names.len() && (#[trigger] names[j])@ == name
}

/// Package `n` is a root that passes the filter: an allow-list keeps only the names
/// it lists; otherwise a deny-list drops the names it lists; otherwise every root stays.
pub open spec fn analyzed(
    g: PackageGraph,
    packages: Option<Vec<String>>,
    to_ignore: Option<Vec<String>>,
    n: usize,
) -> bool {
    &&& g.is_root(n)
    &&& match packages {
        Some(allow) => listed(allow@, g.nodes@[n as int].name@),
        None => match to_ignore {
            Some(deny) => !listed(deny@, g.nodes@[n as int].name@),
            None => true,
        },
    }
}

/// The roots to analyze.
pub open spec fn analyzed_set(
    g: PackageGraph,
    packages: Option<Vec<String>>,
    to_ignore: Option<Vec<String>>,
) -> Set<usize> {
    Set::new(|n: usize| analyzed(g, packages, to_ignore, n))
}

/// Whether `name` is one of `names`.
pub fn name_listed(names: &Vec<String>, name: &String) -> (r: bool)
    ensures
        r == listed(names@, name@),
{
    let mut j: usize = 0;
    while j < names.len()
        invariant
            j <= names@.len(),
            forall|i: int| 0 <= i < j ==> (#[trigger] names@[i])@ != name@,
        decreases names@.len() - j,
    {
        if names[j] == *name {
            return true;
        }
        j = j + 1;
    }
    false
}

/// The workspace members that pass the name filter, in increasing order; an empty
/// result is an error.
pub fn resolve_roots(
    g: &PackageGraph,
    packages: &Option<Vec<String>>,
    to_ignore: &Option<Vec<String>>,
) -> (r: Result<Vec<usize>, AnalysisError>)
    ensures
        match r {
            Ok(v) => v@.len() > 0 && enumerates(v@, analyzed_set(*g, *packages, *to_ignore)),
            Err(e) => e == AnalysisError::EmptyRootSet && analyzed_set(*g, *packages, *to_ignore)
                == Set::<usize>::empty(),
        },
{
    let n = g.nodes.len();
    let mut keep: Vec<bool> = Vec::new();
    let mut i: usize = 0;
    while i < n
        invariant
            n == g.nodes@.len(),
            i <= n,
            keep@.len() == i,
            forall|x: usize| x < i ==> (keep@[x as int] <==> analyzed(*g, *packages, *to_ignore, x)),
        decreases n - i,
    {
        let node = &g.nodes[i];
        let k = if !node.workspace_member {
            false
        } else {
            match packages {
                Some(allow) => name_listed(allow, &node.name),
                None => match to_ignore {
                    Some(deny) => !name_listed(deny, &node.name),
                    None => true,
                },
            }
        };
        keep.push(k);
        i = i + 1;
    }
    let v = marked_indices(&keep);
    let ghost s = analyzed_set(*g, *packages, *to_ignore);
    assert forall|x: usize| v@.contains(x) <==> #[trigger] s.contains(x) by {}
    if v.len() == 0 {
        assert forall|x: usize| !s.contains(x) by {
            if s.contains(x) {
                assert(v@.contains(x));
            }
        }
        assert(s =~= Set::<usize>::empty());
        Err(AnalysisError::EmptyRootSet)
    } else {
        Ok(v)
    }
}

} // verus!
