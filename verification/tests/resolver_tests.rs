use rustc_auto_publish::graph::{Metadata, Package, Resolve, ResolveNode};
use rustc_auto_publish::resolver::{contains_name, fill, resolve, try_resolve, ResolveError};

fn package(name: &str, source: Option<&str>) -> Package {
    Package {
        id: format!("{} 0.0.0 (path+file:///src/{})", name, name),
        name: name.to_string(),
        source: source.map(|s| s.to_string()),
        manifest_path: format!("/src/{}/Cargo.toml", name),
    }
}

fn node(name: &str, dependencies: &[&str]) -> ResolveNode {
    ResolveNode {
        id: package(name, None).id,
        dependencies: dependencies.iter().map(|d| package(d, None).id).collect(),
    }
}

fn graph(packages: Vec<Package>, nodes: Vec<ResolveNode>) -> Metadata {
    Metadata { packages, resolve: Resolve { nodes } }
}

fn names(pkgs: &Vec<&Package>) -> Vec<String> {
    pkgs.iter().map(|p| p.name.clone()).collect()
}

const REGISTRY: &str = "registry+https://github.com/rust-lang/crates.io-index";

#[test]
fn two_roots_share_a_local_dependency() {
    let g = graph(
        vec![package("A", None), package("B", None), package("C", None), package("D", Some(REGISTRY))],
        vec![node("A", &["C"]), node("B", &["C"]), node("C", &["D"]), node("D", &[])],
    );
    assert!(g.is_closed());
    let roots = vec![package("A", None), package("B", None)];
    let out = resolve(&g, &roots);
    assert_eq!(names(&out), vec!["C", "A", "B"]);
}

#[test]
fn root_without_local_dependencies_is_alone() {
    let g = graph(
        vec![package("A", None), package("D", Some(REGISTRY))],
        vec![node("A", &["D"]), node("D", &[])],
    );
    let roots = vec![package("A", None)];
    let out = resolve(&g, &roots);
    assert_eq!(names(&out), vec!["A"]);
}

#[test]
fn external_packages_are_left_out() {
    let g = graph(
        vec![
            package("A", None),
            package("B", None),
            package("X", Some(REGISTRY)),
            package("Y", Some(REGISTRY)),
        ],
        vec![node("A", &["X", "B", "Y"]), node("B", &["Y"]), node("X", &["Y"]), node("Y", &[])],
    );
    let roots = vec![package("A", None)];
    let out = resolve(&g, &roots);
    assert_eq!(names(&out), vec!["B", "A"]);
    assert!(out.iter().all(|p| p.source.is_none()));
}

#[test]
fn diamond_is_walked_once() {
    let g = graph(
        vec![package("A", None), package("B", None), package("C", None), package("D", None)],
        vec![node("A", &["B", "C"]), node("B", &["D"]), node("C", &["D"]), node("D", &[])],
    );
    let roots = vec![package("A", None)];
    let out = resolve(&g, &roots);
    assert_eq!(names(&out), vec!["D", "B", "C", "A"]);
}

#[test]
fn chain_comes_out_deepest_first() {
    let g = graph(
        vec![package("A", None), package("B", None), package("C", None)],
        vec![node("A", &["B"]), node("B", &["C"]), node("C", &[])],
    );
    let roots = vec![package("A", None)];
    assert_eq!(names(&resolve(&g, &roots)), vec!["C", "B", "A"]);
}

#[test]
fn cycle_ends() {
    let g = graph(
        vec![package("A", None), package("B", None), package("C", None)],
        vec![node("A", &["B"]), node("B", &["C"]), node("C", &["A"])],
    );
    let roots = vec![package("A", None)];
    assert_eq!(names(&resolve(&g, &roots)), vec!["C", "B", "A"]);
}

#[test]
fn self_dependency_ends() {
    let g = graph(vec![package("A", None)], vec![node("A", &["A"])]);
    let roots = vec![package("A", None)];
    assert_eq!(names(&resolve(&g, &roots)), vec!["A"]);
}

#[test]
fn later_root_adds_only_what_is_new() {
    let g = graph(
        vec![package("A", None), package("B", None), package("C", None), package("E", None)],
        vec![node("A", &["C"]), node("B", &["C", "E"]), node("C", &[]), node("E", &[])],
    );
    let roots = vec![package("A", None), package("B", None)];
    assert_eq!(names(&resolve(&g, &roots)), vec!["C", "A", "E", "B"]);
}

#[test]
fn root_that_was_a_dependency_is_not_repeated() {
    let g = graph(
        vec![package("A", None), package("B", None)],
        vec![node("A", &["B"]), node("B", &[])],
    );
    let roots = vec![package("A", None), package("B", None), package("A", None)];
    assert_eq!(names(&resolve(&g, &roots)), vec!["B", "A"]);
}

#[test]
fn no_roots_nothing_published() {
    let g = graph(vec![package("A", None)], vec![node("A", &[])]);
    let roots: Vec<Package> = Vec::new();
    assert!(resolve(&g, &roots).is_empty());
}

#[test]
fn same_name_under_two_identifiers_is_published_once() {
    let mut second = package("B", None);
    second.id = "B 2.0.0 (path+file:///other/B)".to_string();
    let g = graph(
        vec![package("A", None), package("B", None), second],
        vec![
            ResolveNode {
                id: package("A", None).id,
                dependencies: vec![
                    package("B", None).id,
                    "B 2.0.0 (path+file:///other/B)".to_string(),
                ],
            },
            node("B", &[]),
            ResolveNode { id: "B 2.0.0 (path+file:///other/B)".to_string(), dependencies: vec![] },
        ],
    );
    assert!(g.is_closed());
    let roots = vec![package("A", None)];
    let out = resolve(&g, &roots);
    assert_eq!(names(&out), vec!["B", "A"]);
    assert_eq!(out[0].id, package("B", None).id);
}

#[test]
fn fill_skips_a_seen_name() {
    let g = graph(
        vec![package("A", None), package("B", None)],
        vec![node("A", &["B"]), node("B", &[])],
    );
    let root = package("A", None);
    let mut pkgs: Vec<&Package> = Vec::new();
    let mut seen: Vec<String> = vec!["B".to_string()];
    fill(&g, &root, &mut pkgs, &mut seen);
    assert_eq!(names(&pkgs), vec!["A"]);
    assert_eq!(seen, vec!["B".to_string(), "A".to_string()]);
    fill(&g, &root, &mut pkgs, &mut seen);
    assert_eq!(names(&pkgs), vec!["A"]);
    assert_eq!(seen.len(), 2);
}

#[test]
fn fill_appends_to_what_is_there() {
    let g = graph(
        vec![package("A", None), package("B", None), package("C", None)],
        vec![node("A", &["B"]), node("B", &[]), node("C", &[])],
    );
    let first = package("C", None);
    let second = package("A", None);
    let mut pkgs: Vec<&Package> = Vec::new();
    let mut seen: Vec<String> = Vec::new();
    fill(&g, &first, &mut pkgs, &mut seen);
    fill(&g, &second, &mut pkgs, &mut seen);
    assert_eq!(names(&pkgs), vec!["C", "B", "A"]);
    assert!(contains_name(&seen, &"B".to_string()));
    assert!(!contains_name(&seen, &"D".to_string()));
}

#[test]
fn closed_graph_is_recognised() {
    let g = graph(
        vec![package("A", None), package("D", Some(REGISTRY))],
        vec![node("A", &["D"])],
    );
    assert!(g.is_closed());
}

#[test]
fn missing_dependency_is_not_closed() {
    let g = graph(vec![package("A", None)], vec![node("A", &["B"])]);
    assert!(!g.is_closed());
}

#[test]
fn local_package_without_node_is_not_closed() {
    let g = graph(vec![package("A", None), package("B", None)], vec![node("A", &["B"])]);
    assert!(!g.is_closed());
}

#[test]
fn packages_and_nodes_are_found() {
    let g = graph(
        vec![package("A", None), package("B", None)],
        vec![node("B", &[]), node("A", &["B"])],
    );
    assert_eq!(g.find_package(&package("B", None).id), Some(1));
    assert_eq!(g.find_package(&"nothing".to_string()), None);
    assert_eq!(g.find_node(&package("A", None).id), Some(1));
    assert_eq!(g.find_node(&"nothing".to_string()), None);
    assert_eq!(g.find_package_by_name(&"A".to_string()), Some(0));
    assert_eq!(g.find_package_by_name(&"rustc_ast".to_string()), None);
}

#[test]
fn try_resolve_gives_the_publish_order() {
    let g = graph(
        vec![package("A", None), package("B", None)],
        vec![node("A", &["B"]), node("B", &[])],
    );
    let roots = vec![package("A", None)];
    let out = try_resolve(&g, &roots).unwrap();
    assert_eq!(names(&out), vec!["B", "A"]);
}

#[test]
fn try_resolve_refuses_a_graph_that_is_not_closed() {
    let g = graph(vec![package("A", None)], vec![node("A", &["B"])]);
    let roots = vec![package("A", None)];
    assert_eq!(try_resolve(&g, &roots).unwrap_err(), ResolveError::GraphNotClosed);
}

#[test]
fn try_resolve_refuses_a_root_without_node() {
    let g = graph(vec![package("A", None)], vec![node("A", &[])]);
    let roots = vec![package("A", None), package("Z", None)];
    assert_eq!(try_resolve(&g, &roots).unwrap_err(), ResolveError::RootWithoutNode);
}

#[test]
fn seen_names_stay_distinct() {
    let g = graph(
        vec![package("A", None), package("B", None), package("C", None)],
        vec![node("A", &["B", "C"]), node("B", &["C"]), node("C", &["A"])],
    );
    let root = package("A", None);
    let mut pkgs: Vec<&Package> = Vec::new();
    let mut seen: Vec<String> = Vec::new();
    fill(&g, &root, &mut pkgs, &mut seen);
    assert_eq!(seen, vec!["A".to_string(), "B".to_string(), "C".to_string()]);
    assert_eq!(names(&pkgs), vec!["C", "B", "A"]);
}

#[test]
fn fill_on_a_seen_name_asks_nothing_of_the_graph() {
    let g = graph(vec![package("A", None)], vec![node("A", &["missing"])]);
    assert!(!g.is_closed());
    let stranger = package("Z", None);
    let mut pkgs: Vec<&Package> = Vec::new();
    let mut seen: Vec<String> = vec!["Z".to_string()];
    fill(&g, &stranger, &mut pkgs, &mut seen);
    assert!(pkgs.is_empty());
    assert_eq!(seen, vec!["Z".to_string()]);
}

#[test]
fn try_resolve_without_roots_asks_nothing_of_the_graph() {
    let g = graph(vec![package("A", None)], vec![node("A", &["missing"])]);
    let roots: Vec<Package> = Vec::new();
    assert!(try_resolve(&g, &roots).unwrap().is_empty());
}

#[test]
fn try_resolve_passes_over_a_root_whose_name_was_seen() {
    let g = graph(
        vec![package("A", None), package("B", None)],
        vec![node("A", &["B"]), node("B", &[])],
    );
    let mut again = package("B", None);
    again.id = "B 9.9.9 (path+file:///elsewhere/B)".to_string();
    let roots = vec![package("A", None), again];
    let out = try_resolve(&g, &roots).unwrap();
    assert_eq!(names(&out), vec!["B", "A"]);
    assert_eq!(names(&resolve(&g, &roots)), vec!["B", "A"]);
}

#[test]
fn try_resolve_reports_the_first_failure() {
    let g = graph(vec![package("A", None)], vec![node("A", &["missing"])]);
    let roots = vec![package("Z", None), package("A", None)];
    assert_eq!(try_resolve(&g, &roots).unwrap_err(), ResolveError::GraphNotClosed);
    let g = graph(vec![package("A", None)], vec![node("A", &[])]);
    let roots = vec![package("A", None), package("Z", None), package("Y", None)];
    assert_eq!(try_resolve(&g, &roots).unwrap_err(), ResolveError::RootWithoutNode);
}
