use graco::workspace::package::{find_package, Package, PackageName, Platform, Target};
use graco::workspace::{DepGraph, GlobalConfig, Workspace};
use graco::workspace::runner::Scope;

fn bare(name: &str) -> PackageName {
    PackageName { scope: None, name: name.to_string() }
}

fn package(index: usize, name: &str, dependencies: &[&str]) -> Package {
    Package {
        index,
        name: bare(name),
        root: format!("/ws/packages/{name}"),
        dependencies: dependencies.iter().map(|d| bare(d)).collect(),
        target: Target::Lib,
        platform: Platform::Node,
    }
}

fn sorted(mut items: Vec<usize>) -> Vec<usize> {
    items.sort();
    items
}

/// a <- b <- d, a <- c <- d, and e alone.
fn diamond() -> Vec<Package> {
    vec![
        package(0, "a", &[]),
        package(1, "b", &["a"]),
        package(2, "c", &["a"]),
        package(3, "d", &["b", "c"]),
        package(4, "e", &[]),
    ]
}

#[test]
fn build_accepts_acyclic_declarations() {
    let graph = DepGraph::build(&diamond()).expect("no cycle");
    assert_eq!(graph.package_count(), 5);
}

#[test]
fn immediate_dependencies_are_the_declared_ones() {
    let graph = DepGraph::build(&diamond()).unwrap();
    assert_eq!(graph.immediate_deps_for(0), Vec::<usize>::new());
    assert_eq!(graph.immediate_deps_for(1), vec![0]);
    assert_eq!(graph.immediate_deps_for(2), vec![0]);
    assert_eq!(graph.immediate_deps_for(4), Vec::<usize>::new());
}

#[test]
fn immediate_dependencies_come_latest_declaration_first() {
    let graph = DepGraph::build(&diamond()).unwrap();
    assert_eq!(graph.immediate_deps_for(3), vec![2, 1]);
}

#[test]
fn dependents_are_the_packages_that_declare_it() {
    let graph = DepGraph::build(&diamond()).unwrap();
    assert_eq!(graph.dependents_of(0), vec![2, 1]);
    assert_eq!(graph.dependents_of(1), vec![3]);
    assert_eq!(graph.dependents_of(3), Vec::<usize>::new());
    assert_eq!(graph.dependents_of(4), Vec::<usize>::new());
}

#[test]
fn transitive_dependencies_are_the_closure_without_the_package() {
    let graph = DepGraph::build(&diamond()).unwrap();
    assert_eq!(sorted(graph.all_deps_for(3)), vec![0, 1, 2]);
    assert_eq!(sorted(graph.all_deps_for(1)), vec![0]);
    assert_eq!(graph.all_deps_for(0), Vec::<usize>::new());
    assert_eq!(graph.all_deps_for(4), Vec::<usize>::new());
}

#[test]
fn transitive_dependencies_equal_repeated_immediate_dependencies() {
    let graph = DepGraph::build(&diamond()).unwrap();
    for start in 0..5 {
        let mut closure: Vec<usize> = Vec::new();
        let mut frontier = graph.immediate_deps_for(start);
        while let Some(next) = frontier.pop() {
            if !closure.contains(&next) {
                closure.push(next);
                frontier.extend(graph.immediate_deps_for(next));
            }
        }
        assert!(!closure.contains(&start));
        assert_eq!(sorted(graph.all_deps_for(start)), sorted(closure));
    }
}

#[test]
fn transitive_dependencies_list_a_package_after_what_it_needs() {
    let graph = DepGraph::build(&diamond()).unwrap();
    let order = graph.all_deps_for(3);
    let place = |p: usize| order.iter().position(|&q| q == p).unwrap();
    assert!(place(0) < place(1));
    assert!(place(0) < place(2));
}

#[test]
fn queries_on_an_unknown_index_are_empty() {
    let graph = DepGraph::build(&diamond()).unwrap();
    assert_eq!(graph.immediate_deps_for(5), Vec::<usize>::new());
    assert_eq!(graph.dependents_of(99), Vec::<usize>::new());
    assert_eq!(graph.all_deps_for(usize::MAX), Vec::<usize>::new());
}

#[test]
fn unknown_dependency_names_are_dropped() {
    let packages = vec![package(0, "a", &["react", "left-pad"]), package(1, "b", &["a", "vite"])];
    let graph = DepGraph::build(&packages).unwrap();
    assert_eq!(graph.immediate_deps_for(0), Vec::<usize>::new());
    assert_eq!(graph.immediate_deps_for(1), vec![0]);
}

#[test]
fn a_name_declared_twice_gives_two_edges() {
    let packages = vec![package(0, "a", &[]), package(1, "b", &["a", "a"])];
    let graph = DepGraph::build(&packages).unwrap();
    assert_eq!(graph.immediate_deps_for(1), vec![0, 0]);
    assert_eq!(graph.dependents_of(0), vec![1, 1]);
    assert_eq!(graph.all_deps_for(1), vec![0]);
}

#[test]
fn a_name_resolves_to_the_first_package_that_carries_it() {
    let packages = vec![package(0, "a", &[]), package(1, "a", &[]), package(2, "b", &["a"])];
    assert_eq!(find_package(&packages, &bare("a")), Some(0));
    assert_eq!(find_package(&packages, &bare("b")), Some(2));
    assert_eq!(find_package(&packages, &bare("c")), None);
    let graph = DepGraph::build(&packages).unwrap();
    assert_eq!(graph.immediate_deps_for(2), vec![0]);
}

#[test]
fn scoped_and_bare_names_differ() {
    let scoped = PackageName { scope: Some("org".to_string()), name: "a".to_string() };
    let mut first = package(0, "a", &[]);
    first.name = scoped.clone();
    let packages = vec![first, package(1, "a", &[])];
    assert_eq!(find_package(&packages, &bare("a")), Some(1));
    assert_eq!(find_package(&packages, &scoped), Some(0));
    assert!(scoped == scoped.clone());
    assert!(scoped != bare("a"));
}

#[test]
fn build_rejects_a_two_package_cycle() {
    let packages = vec![package(0, "a", &["b"]), package(1, "b", &["a"])];
    let error = DepGraph::build(&packages).err().expect("a cycle");
    assert!(error.package == 0 || error.package == 1);
    assert_eq!(error.cycle.first(), Some(&error.package));
    assert_eq!(error.cycle.last(), Some(&error.package));
    assert_eq!(error.cycle.len(), 3);
    assert!(error.cycle.iter().all(|&p| p == 0 || p == 1));
}

#[test]
fn build_rejects_a_package_that_depends_on_itself() {
    let packages = vec![package(0, "a", &["a"])];
    let error = DepGraph::build(&packages).err().expect("a cycle");
    assert_eq!(error.package, 0);
    assert_eq!(error.cycle, vec![0, 0]);
}

#[test]
fn build_names_a_package_on_the_cycle_not_one_behind_it() {
    // d depends on the cycle a -> b -> c -> a, and e is independent.
    let packages = vec![
        package(0, "d", &["a"]),
        package(1, "a", &["c"]),
        package(2, "b", &["a"]),
        package(3, "c", &["b"]),
        package(4, "e", &[]),
    ];
    let error = DepGraph::build(&packages).err().expect("a cycle");
    assert!((1..=3).contains(&error.package));
    assert_eq!(error.cycle.len(), 4);
    for pair in error.cycle.windows(2) {
        // each package of the cycle is declared by the next
        let dependent = &packages[pair[1]];
        assert!(dependent.dependencies.iter().any(|d| *d == packages[pair[0]].name));
    }
}

#[test]
fn build_of_no_packages_is_an_empty_graph() {
    let graph = DepGraph::build(&[]).unwrap();
    assert_eq!(graph.package_count(), 0);
    assert_eq!(graph.all_deps_for(0), Vec::<usize>::new());
}

#[test]
fn load_builds_the_graph_of_the_packages() {
    let config = GlobalConfig { root: "/home/me/.tool".to_string() };
    let workspace = Workspace::load(config, "/ws".to_string(), true, diamond()).ok().unwrap();
    let inner = workspace.get();
    assert_eq!(inner.root, "/ws");
    assert!(inner.monorepo);
    assert_eq!(inner.packages.len(), 5);
    assert_eq!(inner.global_config.root, "/home/me/.tool");
    assert_eq!(inner.dep_graph.immediate_deps_for(3), vec![2, 1]);
}

#[test]
fn load_rejects_a_cycle() {
    let config = GlobalConfig { root: String::new() };
    let packages = vec![package(0, "a", &["b"]), package(1, "b", &["a"])];
    let error = Workspace::load(config, "/ws".to_string(), true, packages).err().unwrap();
    assert!(error.package <= 1);
}

#[test]
fn scope_follows_the_named_package_and_the_flag() {
    let config = GlobalConfig { root: String::new() };
    let workspace = Workspace::load(config, "/ws".to_string(), true, diamond()).ok().unwrap();
    let inner = workspace.get();
    assert_eq!(inner.scope_for(None, false), Some(Scope::All));
    assert_eq!(inner.scope_for(None, true), Some(Scope::All));
    assert_eq!(inner.scope_for(Some(&bare("d")), false), Some(Scope::WithDependencies(3)));
    assert_eq!(inner.scope_for(Some(&bare("d")), true), Some(Scope::Only(3)));
    assert_eq!(inner.scope_for(Some(&bare("nope")), false), None);
}

#[test]
fn a_workspace_gives_its_contents_by_dereference() {
    let config = GlobalConfig { root: "/shared".to_string() };
    let workspace = Workspace::load(config, "/ws".to_string(), false, diamond()).ok().unwrap();
    let again = workspace.clone();
    assert_eq!(again.root, "/ws");
    assert!(!again.monorepo);
    assert_eq!(again.packages[3].name, bare("d"));
    assert_eq!(again.dep_graph.package_count(), 5);
}
