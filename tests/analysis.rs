use dephell::analysis::{analyze_repo, PackageRisk, RepoAnalysis};
use dephell::graph::{DepKind, DependencyEdge, PackageGraph, PackageNode};
use dephell::roots::{resolve_roots, AnalysisError};

fn node(name: &str, member: bool) -> PackageNode {
    PackageNode {
        name: name.to_string(),
        version: "1.0.0".to_string(),
        source: if member { "path".to_string() } else { "registry".to_string() },
        repo: if member { None } else { Some(format!("https://example.org/{}", name)) },
        description: None,
        manifest_path: format!("{}/Cargo.toml", name),
        workspace_member: member,
    }
}

fn edge(from: usize, to: usize, kind: DepKind) -> DependencyEdge {
    DependencyEdge { from, to, kind }
}

fn graph(nodes: Vec<PackageNode>, edges: Vec<(usize, usize, DepKind)>) -> PackageGraph {
    PackageGraph { nodes, edges: edges.into_iter().map(|(f, t, k)| edge(f, t, k)).collect() }
}

fn analyze(g: &PackageGraph) -> RepoAnalysis {
    analyze_repo(g, None, None).expect("analysis succeeds")
}

fn risk(a: &RepoAnalysis, n: usize) -> &PackageRisk {
    a.analysis_result[n].as_ref().expect("package is in the registry")
}

// Root R1 -> X, root R2 -> Y, X -> Z, Y -> Z.
fn shared_graph() -> PackageGraph {
    graph(
        vec![node("r1", true), node("r2", true), node("x", false), node("y", false), node("z", false)],
        vec![
            (0, 2, DepKind::Normal),
            (1, 3, DepKind::Normal),
            (2, 4, DepKind::Normal),
            (3, 4, DepKind::Normal),
        ],
    )
}

#[test]
fn shared_dependency_has_no_exclusive_owner() {
    let a = analyze(&shared_graph());
    assert_eq!(risk(&a, 2).transitive_dependencies, vec![4]);
    assert_eq!(risk(&a, 3).transitive_dependencies, vec![4]);
    assert!(risk(&a, 2).exclusive_deps_introduced.is_empty());
    assert!(risk(&a, 3).exclusive_deps_introduced.is_empty());
    assert_eq!(a.main_dependencies, vec![2, 3]);
    assert_eq!(a.analyzed_roots, vec![0, 1]);
    assert_eq!(a.root_crates, vec!["r1".to_string(), "r2".to_string()]);
    assert_eq!(risk(&a, 4).root_importers, vec![0, 1]);
    assert_eq!(risk(&a, 2).root_importers, vec![0]);
    assert!(a.analysis_result[0].is_none());
    assert!(a.analysis_result[1].is_none());
}

#[test]
fn exclusive_subtree_belongs_to_its_owner() {
    // Root R -> X only; X -> P, X -> Q.
    let g = graph(
        vec![node("r", true), node("x", false), node("p", false), node("q", false)],
        vec![(0, 1, DepKind::Normal), (1, 2, DepKind::Normal), (1, 3, DepKind::Build)],
    );
    let a = analyze(&g);
    assert_eq!(risk(&a, 1).exclusive_deps_introduced, vec![2, 3]);
    assert_eq!(risk(&a, 1).transitive_dependencies, vec![2, 3]);
    assert!(risk(&a, 2).exclusive_deps_introduced.is_empty());
    assert!(risk(&a, 2).transitive_dependencies.is_empty());
}

#[test]
fn allow_list_that_matches_nothing_is_an_error() {
    let g = graph(vec![node("a", true), node("b", true)], vec![]);
    let r = analyze_repo(&g, Some(vec!["c".to_string()]), None);
    assert_eq!(r.err(), Some(AnalysisError::EmptyRootSet));
}

#[test]
fn dev_only_dependency_is_ignored() {
    let g = graph(vec![node("r", true), node("t", false)], vec![(0, 1, DepKind::Dev)]);
    let a = analyze(&g);
    assert!(a.analysis_result[1].is_none());
    assert!(a.main_dependencies.is_empty());
}

#[test]
fn dev_edge_below_a_dependency_is_ignored() {
    let g = graph(
        vec![node("r", true), node("x", false), node("t", false)],
        vec![(0, 1, DepKind::Normal), (1, 2, DepKind::Dev)],
    );
    let a = analyze(&g);
    assert!(a.analysis_result[2].is_none());
    assert!(risk(&a, 1).transitive_dependencies.is_empty());
}

#[test]
fn no_package_is_its_own_dependency() {
    let a = analyze(&shared_graph());
    for (n, e) in a.analysis_result.iter().enumerate() {
        if let Some(r) = e {
            assert!(!r.transitive_dependencies.contains(&n));
        }
    }
}

#[test]
fn edge_target_and_its_closure_are_dependencies_of_source() {
    // R -> A -> B -> C
    let g = graph(
        vec![node("r", true), node("a", false), node("b", false), node("c", false)],
        vec![(0, 1, DepKind::Normal), (1, 2, DepKind::Normal), (2, 3, DepKind::Normal)],
    );
    let a = analyze(&g);
    assert_eq!(risk(&a, 1).transitive_dependencies, vec![2, 3]);
    assert_eq!(risk(&a, 2).transitive_dependencies, vec![3]);
    assert!(risk(&a, 3).transitive_dependencies.is_empty());
}

#[test]
fn exclusive_sets_of_two_main_dependencies_are_disjoint() {
    // R -> X, R -> Y; X -> P; Y -> Q; X -> S; Y -> S.
    let g = graph(
        vec![node("r", true), node("x", false), node("y", false), node("p", false), node("q", false), node("s", false)],
        vec![
            (0, 1, DepKind::Normal),
            (0, 2, DepKind::Normal),
            (1, 3, DepKind::Normal),
            (2, 4, DepKind::Normal),
            (1, 5, DepKind::Normal),
            (2, 5, DepKind::Normal),
        ],
    );
    let a = analyze(&g);
    assert_eq!(risk(&a, 1).exclusive_deps_introduced, vec![3]);
    assert_eq!(risk(&a, 2).exclusive_deps_introduced, vec![4]);
    assert_eq!(risk(&a, 1).transitive_dependencies, vec![3, 5]);
}

#[test]
fn main_dependency_reached_by_another_is_not_exclusive() {
    // R -> X, R -> Y, X -> Y, Y -> Z.
    let g = graph(
        vec![node("r", true), node("x", false), node("y", false), node("z", false)],
        vec![(0, 1, DepKind::Normal), (0, 2, DepKind::Normal), (1, 2, DepKind::Normal), (2, 3, DepKind::Normal)],
    );
    let a = analyze(&g);
    assert_eq!(risk(&a, 1).transitive_dependencies, vec![2, 3]);
    assert!(risk(&a, 1).exclusive_deps_introduced.is_empty());
    assert!(risk(&a, 2).exclusive_deps_introduced.is_empty());
}

#[test]
fn every_registry_package_has_an_importer() {
    let a = analyze(&shared_graph());
    let mut seen = 0;
    for e in a.analysis_result.iter().flatten() {
        assert!(!e.root_importers.is_empty());
        seen += 1;
    }
    assert_eq!(seen, 3);
}

#[test]
fn edges_between_roots_are_skipped() {
    // R1 -> R2 -> X; only R1 is analyzed.
    let g = graph(
        vec![node("r1", true), node("r2", true), node("x", false)],
        vec![(0, 1, DepKind::Normal), (1, 2, DepKind::Normal)],
    );
    let a = analyze_repo(&g, Some(vec!["r1".to_string()]), None).unwrap();
    assert_eq!(a.analyzed_roots, vec![0]);
    assert!(a.main_dependencies.is_empty());
    assert!(a.analysis_result.iter().all(|e| e.is_none()));
}

#[test]
fn deny_list_drops_named_roots() {
    let g = shared_graph();
    let a = analyze_repo(&g, None, Some(vec!["r2".to_string()])).unwrap();
    assert_eq!(a.analyzed_roots, vec![0]);
    assert_eq!(a.main_dependencies, vec![2]);
    assert!(a.analysis_result[3].is_none());
    assert_eq!(risk(&a, 4).root_importers, vec![0]);
    assert_eq!(risk(&a, 2).exclusive_deps_introduced, vec![4]);
}

#[test]
fn deny_list_of_every_root_is_an_error() {
    let g = shared_graph();
    let r = analyze_repo(&g, None, Some(vec!["r1".to_string(), "r2".to_string()]));
    assert_eq!(r.err(), Some(AnalysisError::EmptyRootSet));
}

#[test]
fn allow_list_wins_over_deny_list() {
    let g = shared_graph();
    let roots = resolve_roots(&g, &Some(vec!["r2".to_string()]), &Some(vec!["r2".to_string()])).unwrap();
    assert_eq!(roots, vec![1]);
}

#[test]
fn graph_without_members_is_an_error() {
    let g = graph(vec![node("x", false)], vec![]);
    assert_eq!(analyze_repo(&g, None, None).err(), Some(AnalysisError::EmptyRootSet));
    let empty = graph(vec![], vec![]);
    assert_eq!(analyze_repo(&empty, None, None).err(), Some(AnalysisError::EmptyRootSet));
}

#[test]
fn cycle_in_registry_is_detected() {
    // R -> X -> Y -> X.
    let g = graph(
        vec![node("r", true), node("x", false), node("y", false)],
        vec![(0, 1, DepKind::Normal), (1, 2, DepKind::Normal), (2, 1, DepKind::Normal)],
    );
    assert_eq!(analyze_repo(&g, None, None).err(), Some(AnalysisError::CycleDetected));
}

#[test]
fn cycle_outside_registry_is_harmless() {
    // R -> X; Y -> Z -> Y is unreachable.
    let g = graph(
        vec![node("r", true), node("x", false), node("y", false), node("z", false)],
        vec![(0, 1, DepKind::Normal), (2, 3, DepKind::Normal), (3, 2, DepKind::Normal)],
    );
    let a = analyze(&g);
    assert!(a.analysis_result[2].is_none());
    assert!(a.analysis_result[3].is_none());
}

#[test]
fn record_carries_package_metadata() {
    let a = analyze(&shared_graph());
    let z = risk(&a, 4);
    assert_eq!(z.name, "z");
    assert_eq!(z.versions, vec!["1.0.0".to_string()]);
    assert_eq!(z.repo, Some("https://example.org/z".to_string()));
    assert_eq!(z.description, None);
    assert_eq!(z.manifest_path, "z/Cargo.toml");
    assert!(!z.used);
    assert_eq!(z.loc, 0);
    assert_eq!(z.rust_loc, 0);
    assert_eq!(z.unsafe_loc, 0);
    assert_eq!(z.stargazers_count, None);
    assert_eq!(z.crates_io_dependent, None);
}

#[test]
fn shared_leaf_seen_twice_gets_one_record() {
    // R -> X, R -> Y, X -> Z, Y -> Z: one record for Z.
    let g = graph(
        vec![node("r", true), node("x", false), node("y", false), node("z", false)],
        vec![(0, 1, DepKind::Normal), (0, 2, DepKind::Normal), (1, 3, DepKind::Normal), (2, 3, DepKind::Normal)],
    );
    let a = analyze(&g);
    assert_eq!(risk(&a, 3).versions.len(), 1);
    assert_eq!(risk(&a, 3).root_importers, vec![0]);
}
