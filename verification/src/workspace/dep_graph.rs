//! The dependency graph of a workspace: one node per package, one edge from
//! each dependency to each package that declares it.

use vstd::prelude::*;

use super::cycle::find_cycle;
use super::digraph::{
    graph_dfs_post_order_reversed, graph_edges, graph_from_elements, graph_neighbors,
    graph_node_count, UnitGraph,
};
use super::package::{find_package, resolve, resolves_to, Package};
use super::relation::{
    acyclic, closed_walk, edges_in_range, has_edge, is_walk, lemma_edge_in_range,
    lemma_no_edges_out_of_range, lemma_ranked_acyclic, lemma_reaches_step, ranked,
    lemma_sources_into_contains, lemma_targets_from_contains, lemma_walk_in_range, reaches,
    sources_into, targets_from, Edge,
};

verus! {

/// The edges that the first `count` declared dependencies of the package at
/// position `dependent` contribute: one for each name that resolves to a
/// package of the list, in declaration order.
pub open spec fn package_edges(packages: Seq<Package>, dependent: int, count: int) -> Seq<Edge>
    decreases count,
{
    if count <= 0 {
        Seq::empty()
    } else {
        let earlier = package_edges(packages, dependent, count - 1);
        match resolve(packages, packages[dependent].dependencies@[count - 1]@) {
            Some(dependency) => earlier.push((dependency, dependent as usize)),
            None => earlier,
        }
    }
}

/// The edges that the first `count` packages contribute.
pub open spec fn edges_of_first(packages: Seq<Package>, count: int) -> Seq<Edge>
    decreases count,
{
    if count <= 0 {
        Seq::empty()
    } else {
        edges_of_first(packages, count - 1) + package_edges(
            packages,
            count - 1,
            packages[count - 1].dependencies@.len() as int,
        )
    }
}

/// The edges that a package list declares: for every package, in list order,
/// and every dependency name of it that resolves, in declaration order, the
/// edge from the dependency to the package.
pub open spec fn declared_edges(packages: Seq<Package>) -> Seq<Edge> {
    edges_of_first(packages, packages.len() as int)
}

/// The number of dependency names that the first `count` packages declare.
pub open spec fn declared_count(packages: Seq<Package>, count: int) -> nat
    decreases count,
{
    if count <= 0 {
        0
    } else {
        declared_count(packages, count - 1) + packages[count - 1].dependencies@.len()
    }
}

/// A package contributes at most one edge per declared name.
proof fn lemma_package_edges_bound(packages: Seq<Package>, dependent: int, count: int)
    requires
        count >= 0,
    ensures
        package_edges(packages, dependent, count).len() <= count,
    decreases count,
{
    if count > 0 {
        lemma_package_edges_bound(packages, dependent, count - 1);
    }
}

/// There are at most as many edges as declared names: a package list that
/// declares no more than `u32::MAX` names can be built.
pub proof fn lemma_declared_edges_bound(packages: Seq<Package>, count: int)
    requires
        0 <= count <= packages.len(),
    ensures
        edges_of_first(packages, count).len() <= declared_count(packages, count),
    decreases count,
{
    if count > 0 {
        lemma_declared_edges_bound(packages, count - 1);
        lemma_package_edges_bound(
            packages,
            count - 1,
            packages[count - 1].dependencies@.len() as int,
        );
    }
}

/// The declared dependencies of a workspace form a cycle.
#[derive(Debug, Clone)]
pub struct CycleError {
    /// A package on the cycle.
    pub package: usize,
    /// The whole cycle: it starts and ends at `package`, and each package in it
    /// is a direct dependency of the next.
    pub cycle: Vec<usize>,
}

/// The dependency graph. Its nodes are the positions of the package list it
/// was built from; its edges point from a dependency to its dependent.
pub struct DepGraph {
    graph: UnitGraph,
    size: usize,
    /// A topological numbering of the packages: the witness that the graph has
    /// no cycle.
    rank: Ghost<Seq<nat>>,
}

impl DepGraph {
    /// The number of packages.
    pub closed spec fn spec_package_count(&self) -> nat {
        self.size as nat
    }

    /// The edges `(dependency, dependent)`, in declaration order.
    pub closed spec fn edges(&self) -> Seq<Edge> {
        graph_edges(self.graph)
    }

    /// The place of a package in a topological numbering: a package is
    /// numbered higher than each of its dependencies.
    pub closed spec fn rank(&self, package: usize) -> nat {
        self.rank@[package as int]
    }

    /// The graph's invariant: every edge joins two packages, and the packages
    /// can be numbered so that the number grows along every edge; so no
    /// package depends on itself, directly or through others.
    pub closed spec fn wf(&self) -> bool {
        &&& self.size == graph_node_count(self.graph)
        &&& self.rank@.len() == self.size
        &&& ranked(self.edges(), self.rank@)
    }

    /// `dependent` declares `dependency`.
    pub open spec fn depends_on(&self, dependent: usize, dependency: usize) -> bool {
        has_edge(self.edges(), dependency, dependent)
    }

    /// `dependent` needs `dependency`, directly or through other packages.
    pub open spec fn needs(&self, dependent: usize, dependency: usize) -> bool {
        reaches(self.edges(), dependency, dependent)
    }

    /// The packages found by going from `package` to a direct dependency
    /// exactly `steps` times.
    pub open spec fn dependencies_at_depth(&self, package: usize, steps: nat) -> Set<usize>
        decreases steps,
    {
        if steps == 0 {
            set![package]
        } else {
            Set::new(
                |dependency: usize|
                    exists|dependent: usize|
                        #![trigger self.depends_on(dependent, dependency)]
                        self.dependencies_at_depth(package, (steps - 1) as nat).contains(dependent)
                            && self.depends_on(dependent, dependency),
            )
        }
    }

    /// What the invariant says, for those who cannot see inside.
    pub proof fn lemma_wf(&self)
        requires
            self.wf(),
        ensures
            self.spec_package_count() <= usize::MAX,
            edges_in_range(self.edges(), self.spec_package_count()),
            acyclic(self.edges()),
            forall|dependent: usize, dependency: usize|
                self.depends_on(dependent, dependency) ==> self.rank(dependency) < self.rank(
                    dependent,
                ),
    {
        lemma_ranked_acyclic(self.edges(), self.rank@);
        assert forall|dependent: usize, dependency: usize|
            self.depends_on(dependent, dependency) implies self.rank(dependency) < self.rank(
            dependent,
        ) by {
            let i = choose|i: int|
                0 <= i < self.edges().len() && self.edges()[i] == (dependency, dependent);
            assert(self.edges()[i].0 == dependency);
        }
    }

    /// Builds the graph of a package list and rejects a list whose declared
    /// dependencies form a cycle.
    pub fn build(packages: &[Package]) -> (built: Result<DepGraph, CycleError>)
        requires
            packages@.len() <= u32::MAX,
            declared_edges(packages@).len() <= u32::MAX,
        ensures
            built is Ok <==> acyclic(declared_edges(packages@)),
            built matches Ok(graph) ==> {
                &&& graph.wf()
                &&& graph.spec_package_count() == packages@.len()
                &&& graph.edges() == declared_edges(packages@)
            },
            built matches Err(error) ==> {
                &&& closed_walk(declared_edges(packages@), error.cycle@)
                &&& error.package == error.cycle@[0]
            },
    {
        let count = packages.len();
        let mut edges: Vec<Edge> = Vec::new();
        let mut dependent: usize = 0;
        while dependent < count
            invariant
                count == packages@.len(),
                dependent <= count,
                edges@ == edges_of_first(packages@, dependent as int),
                edges_in_range(edges@, count as nat),
            decreases count - dependent,
        {
            let package = &packages[dependent];
            let ghost before = edges@;
            let mut k: usize = 0;
            while k < package.dependencies.len()
                invariant
                    count == packages@.len(),
                    dependent < count,
                    *package == packages@[dependent as int],
                    k <= package.dependencies@.len(),
                    edges@ == before + package_edges(packages@, dependent as int, k as int),
                    edges_in_range(edges@, count as nat),
                decreases package.dependencies@.len() - k,
            {
                let ghost earlier = edges@;
                match find_package(packages, &package.dependencies[k]) {
                    Some(dependency) => {
                        proof {
                            let name = package.dependencies@[k as int]@;
                            let index = choose|index: int| resolves_to(packages@, name, index);
                            assert(resolves_to(packages@, name, index));
                            assert((before + package_edges(
                                packages@,
                                dependent as int,
                                k as int,
                            )).push((dependency, dependent)) =~= before + package_edges(
                                packages@,
                                dependent as int,
                                k + 1,
                            ));
                        }
                        edges.push((dependency, dependent));
                        assert forall|i: int| 0 <= i < edges@.len() implies (#[trigger] edges@[i]).0
                            < count && edges@[i].1 < count by {
                            if i < earlier.len() {
                                assert(edges@[i] == earlier[i]);
                            }
                        }
                    },
                    None => {},
                }
                k += 1;
            }
            dependent += 1;
        }
        let graph = graph_from_elements(count, &edges);
        let (found, rank) = find_cycle(&graph, count);
        match found {
            Some(cycle) => {
                proof {
                    assert(is_walk(declared_edges(packages@), cycle@));
                    assert(reaches(declared_edges(packages@), cycle@[0], cycle@[0]));
                }
                Err(CycleError { package: cycle[0], cycle })
            },
            None => {
                proof {
                    lemma_ranked_acyclic(graph_edges(graph), rank@);
                }
                Ok(DepGraph { graph, size: count, rank })
            },
        }
    }

    /// The number of packages.
    pub fn package_count(&self) -> (count: usize)
        ensures
            count == self.spec_package_count(),
    {
        self.size
    }

    /// The packages that must complete before `index` may start: the source of
    /// every edge into it, the most recently declared edge first.
    pub fn immediate_deps_for(&self, index: usize) -> (dependencies: Vec<usize>)
        requires
            self.wf(),
        ensures
            dependencies@ == sources_into(self.edges(), index),
            forall|dependency: usize|
                dependencies@.contains(dependency) <==> self.depends_on(index, dependency),
            forall|i: int|
                0 <= i < dependencies@.len() ==> (#[trigger] dependencies@[i])
                    < self.spec_package_count(),
    {
        proof {
            self.lemma_wf();
            assert forall|dependency: usize|
                sources_into(self.edges(), index).contains(dependency) <==> self.depends_on(
                    index,
                    dependency,
                ) by {
                lemma_sources_into_contains(self.edges(), index, dependency);
            }
            assert forall|i: int| 0 <= i < sources_into(self.edges(), index).len() implies (
            #[trigger] sources_into(self.edges(), index)[i]) < self.size by {
                let dependency = sources_into(self.edges(), index)[i];
                assert(sources_into(self.edges(), index).contains(dependency));
                lemma_sources_into_contains(self.edges(), index, dependency);
                lemma_edge_in_range(
                    self.edges(),
                    self.size as nat,
                    dependency,
                    index,
                );
            }
        }
        if index < self.size {
            graph_neighbors(&self.graph, index, true)
        } else {
            proof {
                lemma_no_edges_out_of_range(self.edges(), self.size as nat, index);
            }
            Vec::new()
        }
    }

    /// The packages that `index` unlocks: the target of every edge out of it,
    /// the most recently declared edge first.
    pub fn dependents_of(&self, index: usize) -> (dependents: Vec<usize>)
        requires
            self.wf(),
        ensures
            dependents@ == targets_from(self.edges(), index),
            forall|dependent: usize|
                dependents@.contains(dependent) <==> self.depends_on(dependent, index),
            forall|i: int|
                0 <= i < dependents@.len() ==> (#[trigger] dependents@[i])
                    < self.spec_package_count(),
    {
        proof {
            self.lemma_wf();
            assert forall|dependent: usize|
                targets_from(self.edges(), index).contains(dependent) <==> self.depends_on(
                    dependent,
                    index,
                ) by {
                lemma_targets_from_contains(self.edges(), index, dependent);
            }
            assert forall|i: int| 0 <= i < targets_from(self.edges(), index).len() implies (
            #[trigger] targets_from(self.edges(), index)[i]) < self.size by {
                let dependent = targets_from(self.edges(), index)[i];
                assert(targets_from(self.edges(), index).contains(dependent));
                lemma_targets_from_contains(self.edges(), index, dependent);
                lemma_edge_in_range(
                    self.edges(),
                    self.size as nat,
                    index,
                    dependent,
                );
            }
        }
        if index < self.size {
            graph_neighbors(&self.graph, index, false)
        } else {
            proof {
                lemma_no_edges_out_of_range(self.edges(), self.size as nat, index);
            }
            Vec::new()
        }
    }

    /// Every package that `index` needs, directly or through others, each once
    /// and never `index` itself. A package comes after all packages it needs.
    pub fn all_deps_for(&self, index: usize) -> (dependencies: Vec<usize>)
        requires
            self.wf(),
        ensures
            dependencies@.no_duplicates(),
            forall|dependency: usize|
                dependencies@.contains(dependency) <==> self.needs(index, dependency),
            forall|i: int, j: int|
                0 <= i < j < dependencies@.len() ==> !self.needs(
                    dependencies@[i],
                    dependencies@[j],
                ),
            forall|i: int|
                0 <= i < dependencies@.len() ==> (#[trigger] dependencies@[i])
                    < self.spec_package_count(),
    {
        let ghost edges = self.edges();
        proof {
            self.lemma_wf();
        }
        let mut dependencies: Vec<usize> = Vec::new();
        if index >= self.size {
            proof {
                assert forall|dependency: usize| !self.needs(index, dependency) by {
                    if reaches(edges, dependency, index) {
                        let walk = choose|walk: Seq<usize>|
                            #![trigger is_walk(edges, walk)]
                            is_walk(edges, walk) && walk.len() >= 2 && walk.first() == dependency
                                && walk.last() == index;
                        lemma_walk_in_range(edges, self.size as nat, walk, walk.len() - 1);
                    }
                }
            }
            return dependencies;
        }
        let order = graph_dfs_post_order_reversed(&self.graph, index);
        let mut i: usize = 0;
        while i < order.len()
            invariant
                i <= order.len(),
                edges == self.edges(),
                order@.no_duplicates(),
                forall|at: int|
                    0 <= at < dependencies@.len() ==> exists|from: int|
                        0 <= from < i && order@[from] == #[trigger] dependencies@[at],
                forall|from: int|
                    0 <= from < i && order@[from] != index ==> dependencies@.contains(
                        #[trigger] order@[from],
                    ),
                forall|at: int| 0 <= at < dependencies@.len() ==> #[trigger] dependencies@[at] != index,
                dependencies@.no_duplicates(),
                forall|a: int, b: int|
                    0 <= a < b < dependencies@.len() ==> !reaches(
                        edges,
                        dependencies@[b],
                        dependencies@[a],
                    ),
                forall|a: int, b: int|
                    0 <= a < b < order@.len() ==> !reaches(edges, order@[b], order@[a]),
            decreases order.len() - i,
        {
            let node = order[i];
            if node != index {
                let ghost before = dependencies@;
                proof {
                    assert forall|at: int| 0 <= at < before.len() implies before[at] != node
                        && !reaches(edges, node, before[at]) by {
                        let from = choose|from: int| 0 <= from < i && order@[from] == before[at];
                        assert(order@[from] != order@[i as int]);
                        assert(!reaches(edges, order@[i as int], order@[from]));
                    }
                }
                dependencies.push(node);
                proof {
                    assert forall|at: int| 0 <= at < dependencies@.len() implies exists|from: int|
                        0 <= from < i + 1 && order@[from] == #[trigger] dependencies@[at] by {
                        if at < before.len() {
                            let from = choose|from: int|
                                0 <= from < i && order@[from] == before[at];
                            assert(order@[from] == dependencies@[at]);
                        } else {
                            assert(order@[i as int] == dependencies@[at]);
                        }
                    }
                    assert forall|from: int|
                        0 <= from < i + 1 && order@[from] != index implies dependencies@.contains(
                        #[trigger] order@[from],
                    ) by {
                        if from < i {
                            assert(before.contains(order@[from]));
                            let at = choose|at: int|
                                0 <= at < before.len() && before[at] == order@[from];
                            assert(dependencies@[at] == order@[from]);
                        } else {
                            assert(dependencies@[dependencies@.len() - 1] == order@[from]);
                        }
                    }
                }
            }
            i += 1;
        }
        proof {
            assert forall|dependency: usize|
                dependencies@.contains(dependency) <==> self.needs(index, dependency) by {
                if dependencies@.contains(dependency) {
                    let at = choose|at: int|
                        0 <= at < dependencies@.len() && dependencies@[at] == dependency;
                    let from = choose|from: int|
                        0 <= from < i && order@[from] == dependencies@[at];
                    assert(order@.contains(dependency));
                }
                if self.needs(index, dependency) {
                    assert(dependency != index);
                    assert(order@.contains(dependency));
                    let from = choose|from: int|
                        0 <= from < order@.len() && order@[from] == dependency;
                    assert(dependencies@.contains(order@[from]));
                }
            }
            assert forall|at: int| 0 <= at < dependencies@.len() implies (
            #[trigger] dependencies@[at]) < self.size by {
                let dependency = dependencies@[at];
                assert(dependencies@.contains(dependency));
                let walk = choose|walk: Seq<usize>|
                    #![trigger is_walk(edges, walk)]
                    is_walk(edges, walk) && walk.len() >= 2 && walk.first() == dependency
                        && walk.last() == index;
                lemma_walk_in_range(edges, self.size as nat, walk, 0);
            }
        }
        dependencies
    }

    /// A walk of `steps` edges ends `steps` levels of direct dependency below
    /// its start.
    proof fn lemma_walk_depth(&self, walk: Seq<usize>, steps: nat)
        requires
            is_walk(self.edges(), walk),
            steps < walk.len(),
        ensures
            self.dependencies_at_depth(walk.last(), steps).contains(walk[walk.len() - 1 - steps]),
        decreases steps,
    {
        if steps > 0 {
            self.lemma_walk_depth(walk, (steps - 1) as nat);
            let at = walk.len() - 1 - steps;
            assert(has_edge(self.edges(), walk[at], walk[at + 1]));
            assert(self.depends_on(walk[at + 1], walk[at]));
        }
    }

    /// What lies some levels of direct dependency below a package is needed
    /// by it.
    proof fn lemma_depth_needed(&self, package: usize, steps: nat, dependency: usize)
        requires
            steps >= 1,
            self.dependencies_at_depth(package, steps).contains(dependency),
        ensures
            self.needs(package, dependency),
        decreases steps,
    {
        let dependent = choose|dependent: usize|
            #![trigger self.depends_on(dependent, dependency)]
            self.dependencies_at_depth(package, (steps - 1) as nat).contains(dependent)
                && self.depends_on(dependent, dependency);
        if steps > 1 {
            self.lemma_depth_needed(package, (steps - 1) as nat, dependent);
        }
        lemma_reaches_step(self.edges(), dependency, dependent, package);
    }

    /// The packages that `package` needs are the closure of "depends directly
    /// on", applied once or more, and `package` is not among them.
    pub proof fn lemma_needs_is_closure(&self, package: usize, dependency: usize)
        requires
            self.wf(),
        ensures
            self.needs(package, dependency) <==> exists|steps: nat|
                steps >= 1 && #[trigger] self.dependencies_at_depth(package, steps).contains(
                    dependency,
                ),
            !self.needs(package, package),
    {
        self.lemma_wf();
        if self.needs(package, dependency) {
            let walk = choose|walk: Seq<usize>|
                #![trigger is_walk(self.edges(), walk)]
                is_walk(self.edges(), walk) && walk.len() >= 2 && walk.first() == dependency
                    && walk.last() == package;
            let steps = (walk.len() - 1) as nat;
            self.lemma_walk_depth(walk, steps);
            assert(self.dependencies_at_depth(package, steps).contains(dependency));
        }
        if exists|steps: nat|
            steps >= 1 && #[trigger] self.dependencies_at_depth(package, steps).contains(
                dependency,
            ) {
            let steps = choose|steps: nat|
                steps >= 1 && #[trigger] self.dependencies_at_depth(package, steps).contains(
                    dependency,
                );
            self.lemma_depth_needed(package, steps, dependency);
        }
    }
}

} // verus!
