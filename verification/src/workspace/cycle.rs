//! Finding a dependency cycle, or showing that there is none.

use vstd::prelude::*;

use super::digraph::{graph_edges, graph_neighbors, graph_node_count, UnitGraph};
use super::marks::{count_unmarked, lemma_marks_grow, marked};
use super::relation::{
    closed_walk, count_of, count_outside, edges_in_range, has_edge, lemma_count_of_skip,
    lemma_count_targets, lemma_edge_in_range, lemma_sources_into_contains,
    lemma_targets_from_contains, lemma_unmet_counts_sources, lemma_unmet_settle,
    lemma_unmet_witness, lemma_unmet_zero, ranked, sources_into, targets_from, unmet,
};

verus! {

/// With nothing met, a package waits for each of its incoming edges.
proof fn lemma_count_outside_empty(items: Seq<usize>)
    ensures
        count_outside(items, Set::empty()) == items.len(),
    decreases items.len(),
{
    if items.len() > 0 {
        lemma_count_outside_empty(items.drop_first());
    }
}

/// The state of the topological sort between two steps.
spec fn sort_invariant(
    edges: Seq<(usize, usize)>,
    nodes: nat,
    sorted: Seq<bool>,
    remaining: Seq<usize>,
    ready: Seq<usize>,
    rank: Seq<nat>,
    next: nat,
) -> bool {
    &&& sorted.len() == nodes
    &&& remaining.len() == nodes
    &&& forall|p: usize|
        p < nodes ==> #[trigger] remaining[p as int] == unmet(edges, p, marked(sorted))
    &&& forall|p: usize| p < nodes && #[trigger] sorted[p as int] ==> remaining[p as int] == 0
    &&& forall|i: int|
        0 <= i < ready.len() ==> (#[trigger] ready[i]) < nodes && (sorted[ready[i] as int]
            || remaining[ready[i] as int] == 0)
    &&& forall|p: usize|
        p < nodes && !sorted[p as int] && #[trigger] remaining[p as int] == 0 ==> ready.contains(p)
    &&& rank.len() == nodes
    &&& forall|p: usize| p < nodes && #[trigger] sorted[p as int] ==> rank[p as int] < next
    &&& forall|i: int|
        0 <= i < edges.len() && sorted[(#[trigger] edges[i]).1 as int] ==> {
            &&& sorted[edges[i].0 as int]
            &&& rank[edges[i].0 as int] < rank[edges[i].1 as int]
        }
}

/// Places every package that a topological sort can place: a package is marked
/// once all its dependencies are, and is numbered in the order of marking. What
/// stays unmarked waits for an unmarked dependency; along an edge into a
/// marked package the number grows.
fn topological_marks(graph: &UnitGraph, nodes: usize) -> (placed: (Vec<bool>, Ghost<Seq<nat>>))
    requires
        nodes == graph_node_count(*graph),
        edges_in_range(graph_edges(*graph), nodes as nat),
    ensures
        placed.0@.len() == nodes,
        placed.1@.len() == nodes,
        forall|p: usize|
            p < nodes && !placed.0@[p as int] ==> unmet(graph_edges(*graph), p, marked(placed.0@))
                > 0,
        forall|i: int|
            0 <= i < graph_edges(*graph).len() && placed.0@[(#[trigger] graph_edges(
                *graph,
            )[i]).1 as int] ==> {
                &&& placed.0@[graph_edges(*graph)[i].0 as int]
                &&& placed.1@[graph_edges(*graph)[i].0 as int] < placed.1@[graph_edges(
                    *graph,
                )[i].1 as int]
            },
{
    let ghost edges = graph_edges(*graph);
    let mut remaining: Vec<usize> = Vec::new();
    let mut sorted: Vec<bool> = Vec::new();
    let mut ready: Vec<usize> = Vec::new();
    let ghost mut rank: Seq<nat> = Seq::new(nodes as nat, |i: int| 0nat);
    let ghost mut next: nat = 0;
    let mut p: usize = 0;
    while p < nodes
        invariant
            p <= nodes,
            nodes == graph_node_count(*graph),
            edges == graph_edges(*graph),
            remaining.len() == p,
            sorted.len() == p,
            forall|q: int| 0 <= q < p ==> !#[trigger] sorted@[q],
            forall|q: usize|
                q < p ==> #[trigger] remaining@[q as int] == unmet(edges, q, Set::empty()),
            forall|i: int|
                0 <= i < ready.len() ==> (#[trigger] ready@[i]) < p && remaining@[ready@[i] as int]
                    == 0,
            forall|q: usize| q < p && #[trigger] remaining@[q as int] == 0 ==> ready@.contains(q),
        decreases nodes - p,
    {
        let dependencies = graph_neighbors(graph, p, true);
        proof {
            lemma_unmet_counts_sources(edges, p, Set::empty());
            lemma_count_outside_empty(sources_into(edges, p));
        }
        let ghost before = ready@;
        if dependencies.len() == 0 {
            ready.push(p);
            assert(ready@[ready@.len() - 1] == p);
        }
        remaining.push(dependencies.len());
        sorted.push(false);
        proof {
            assert forall|q: usize|
                q < p + 1 && #[trigger] remaining@[q as int] == 0 implies ready@.contains(q) by {
                if q < p {
                    assert(before.contains(q));
                    let i = choose|i: int| 0 <= i < before.len() && before[i] == q;
                    assert(ready@[i] == q);
                }
            }
        }
        p += 1;
    }
    proof {
        assert(marked(sorted@) =~= Set::empty());
    }
    while ready.len() > 0
        invariant
            nodes == graph_node_count(*graph),
            edges == graph_edges(*graph),
            edges_in_range(edges, nodes as nat),
            sort_invariant(edges, nodes as nat, sorted@, remaining@, ready@, rank, next),
        decreases count_unmarked(sorted@), ready.len(),
    {
        let ghost ready_before = ready@;
        let node = ready.pop().unwrap();
        assert(ready_before[ready_before.len() - 1] == node);
        assert forall|p: usize|
            p < nodes && !sorted@[p as int] && p != node && #[trigger] remaining@[p as int]
                == 0 implies ready@.contains(p) by {
            assert(ready_before.contains(p));
            let i = choose|i: int| 0 <= i < ready_before.len() && ready_before[i] == p;
            assert(ready@[i] == p);
        }
        if !sorted[node] {
            let ghost sorted_before = sorted@;
            let ghost met_before = marked(sorted_before);
            sorted.set(node, true);
            let ghost met = marked(sorted@);
            proof {
                lemma_marks_grow(sorted_before, sorted@, node as int);
                assert(met =~= met_before.insert(node));
                let rank_before = rank;
                rank = rank.update(node as int, next);
                next = next + 1;
                assert forall|i: int|
                    0 <= i < edges.len() && sorted@[(#[trigger] edges[i]).1 as int] implies {
                    &&& sorted@[edges[i].0 as int]
                    &&& rank[edges[i].0 as int] < rank[edges[i].1 as int]
                } by {
                    if edges[i].1 == node {
                        assert(has_edge(edges, edges[i].0, node));
                        lemma_unmet_zero(edges, node, met_before, edges[i].0);
                        assert(sorted_before[edges[i].0 as int]);
                    } else {
                        assert(sorted_before[edges[i].1 as int]);
                    }
                }
                assert forall|p: usize| p < nodes implies #[trigger] remaining@[p as int] == unmet(
                    edges,
                    p,
                    met,
                ) + count_of(targets_from(edges, node), p) by {
                    lemma_unmet_settle(edges, p, met_before, node);
                    lemma_count_targets(edges, node, p);
                }
            }
            let dependents = graph_neighbors(graph, node, false);
            let mut k: usize = 0;
            assert(dependents@.skip(0) =~= dependents@);
            while k < dependents.len()
                invariant
                    k <= dependents.len(),
                    node < nodes,
                    edges_in_range(edges, nodes as nat),
                    dependents@ == targets_from(edges, node),
                    sorted@.len() == nodes,
                    remaining@.len() == nodes,
                    sorted@[node as int],
                    met == marked(sorted@),
                    rank.len() == nodes,
                    forall|p: usize|
                        p < nodes && #[trigger] sorted@[p as int] ==> rank[p as int] < next,
                    forall|i: int|
                        0 <= i < edges.len() && sorted@[(#[trigger] edges[i]).1 as int] ==> {
                            &&& sorted@[edges[i].0 as int]
                            &&& rank[edges[i].0 as int] < rank[edges[i].1 as int]
                        },
                    forall|p: usize|
                        p < nodes ==> #[trigger] remaining@[p as int] == unmet(edges, p, met)
                            + count_of(dependents@.skip(k as int), p),
                    forall|i: int|
                        0 <= i < ready.len() ==> (#[trigger] ready@[i]) < nodes && (
                        sorted@[ready@[i] as int] || remaining@[ready@[i] as int] == 0),
                    forall|p: usize|
                        p < nodes && !sorted@[p as int] && #[trigger] remaining@[p as int] == 0
                            ==> ready@.contains(p),
                decreases dependents.len() - k,
            {
                let dependent = dependents[k];
                proof {
                    assert(dependents@.contains(dependent));
                    lemma_targets_from_contains(edges, node, dependent);
                    lemma_edge_in_range(edges, nodes as nat, node, dependent);
                    lemma_count_of_skip(dependents@, dependent, k as int);
                    assert forall|p: usize| p < nodes implies count_of(
                        dependents@.skip(k as int),
                        p,
                    ) == count_of(dependents@.skip(k + 1), p) + if p == dependent {
                        1nat
                    } else {
                        0nat
                    } by {
                        lemma_count_of_skip(dependents@, p, k as int);
                    }
                }
                let ghost ready_then = ready@;
                let ghost remaining_then = remaining@;
                let left = remaining[dependent] - 1;
                remaining.set(dependent, left);
                if left == 0 {
                    ready.push(dependent);
                    assert(ready@[ready@.len() - 1] == dependent);
                }
                proof {
                    assert forall|p: usize|
                        p < nodes && !sorted@[p as int] && #[trigger] remaining@[p as int]
                            == 0 implies ready@.contains(p) by {
                        if p != dependent {
                            assert(remaining_then[p as int] == 0);
                            assert(ready_then.contains(p));
                            let i = choose|i: int| 0 <= i < ready_then.len() && ready_then[i] == p;
                            assert(ready@[i] == p);
                        }
                    }
                }
                k += 1;
            }
        }
    }
    proof {
        assert forall|p: usize| p < nodes && !sorted@[p as int] implies unmet(
            edges,
            p,
            marked(sorted@),
        ) > 0 by {
            if remaining@[p as int] == 0 {
                assert(ready@.contains(p));
            }
        }
    }
    (sorted, Ghost(rank))
}

/// Looks for a dependency cycle. Without one the packages have a topological
/// numbering; with one, the result is a closed walk along the edges: each package in it is a direct
/// dependency of the next, and the last is the first again.
pub(crate) fn find_cycle(graph: &UnitGraph, nodes: usize) -> (found: (
    Option<Vec<usize>>,
    Ghost<Seq<nat>>,
))
    requires
        nodes == graph_node_count(*graph),
        edges_in_range(graph_edges(*graph), nodes as nat),
    ensures
        found.0 is None ==> found.1@.len() == nodes && ranked(graph_edges(*graph), found.1@),
        found.0 matches Some(walk) ==> closed_walk(graph_edges(*graph), walk@),
{
    let ghost edges = graph_edges(*graph);
    let (sorted, Ghost(rank)) = topological_marks(graph, nodes);
    let mut start: usize = 0;
    while start < nodes && sorted[start]
        invariant
            start <= nodes,
            sorted@.len() == nodes,
            forall|q: int| 0 <= q < start ==> #[trigger] sorted@[q],
        decreases nodes - start,
    {
        start += 1;
    }
    if start == nodes {
        return (None, Ghost(rank));
    }
    let mut on_path: Vec<bool> = Vec::new();
    let mut filled: usize = 0;
    while filled < nodes
        invariant
            filled <= nodes,
            on_path@.len() == filled,
            forall|q: int| 0 <= q < filled ==> !#[trigger] on_path@[q],
        decreases nodes - filled,
    {
        on_path.push(false);
        filled += 1;
    }
    let mut path: Vec<usize> = Vec::new();
    path.push(start);
    on_path.set(start, true);
    assert(path@[0] == start);
    loop
        invariant
            nodes == graph_node_count(*graph),
            edges == graph_edges(*graph),
            edges_in_range(edges, nodes as nat),
            sorted@.len() == nodes,
            on_path@.len() == nodes,
            forall|p: usize|
                p < nodes && !sorted@[p as int] ==> unmet(edges, p, marked(sorted@)) > 0,
            path@.len() >= 1,
            forall|i: int|
                0 <= i < path@.len() ==> (#[trigger] path@[i]) < nodes && !sorted@[path@[i] as int]
                    && on_path@[path@[i] as int],
            forall|i: int|
                0 <= i < path@.len() - 1 ==> has_edge(edges, path@[i + 1], #[trigger] path@[i]),
            forall|p: usize| p < nodes && #[trigger] on_path@[p as int] ==> path@.contains(p),
        decreases count_unmarked(on_path@),
    {
        let current = path[path.len() - 1];
        let dependencies = graph_neighbors(graph, current, true);
        proof {
            assert forall|j: int| 0 <= j < dependencies@.len() implies (
            #[trigger] dependencies@[j]) < nodes by {
                assert(dependencies@.contains(dependencies@[j]));
                lemma_sources_into_contains(edges, current, dependencies@[j]);
                lemma_edge_in_range(edges, nodes as nat, dependencies@[j], current);
            }
        }
        let mut k: usize = 0;
        while k < dependencies.len() && sorted[dependencies[k]]
            invariant
                k <= dependencies.len(),
                sorted@.len() == nodes,
                forall|j: int| 0 <= j < dependencies@.len() ==> (#[trigger] dependencies@[j]) < nodes,
                forall|j: int| 0 <= j < k ==> sorted@[(#[trigger] dependencies@[j]) as int],
            decreases dependencies.len() - k,
        {
            k += 1;
        }
        proof {
            if k == dependencies.len() {
                let waiting_for = lemma_unmet_witness(edges, current, marked(sorted@));
                lemma_sources_into_contains(edges, current, waiting_for);
                let j = choose|j: int|
                    0 <= j < dependencies@.len() && dependencies@[j] == waiting_for;
                assert(sorted@[dependencies@[j] as int]);
                assert(marked(sorted@).contains(waiting_for));
            }
        }
        let dependency = dependencies[k];
        proof {
            assert(dependencies@.contains(dependency));
            lemma_sources_into_contains(edges, current, dependency);
        }
        if on_path[dependency] {
            let mut first: usize = 0;
            while path[first] != dependency
                invariant
                    first < path.len(),
                    path@.contains(dependency),
                    forall|i: int| 0 <= i < first ==> path@[i] != dependency,
                decreases path.len() - first,
            {
                proof {
                    let i = choose|i: int| 0 <= i < path@.len() && path@[i] == dependency;
                    assert(i > first);
                }
                first += 1;
            }
            let mut cycle: Vec<usize> = Vec::new();
            cycle.push(dependency);
            let mut i: usize = path.len();
            while i > first
                invariant
                    first <= i <= path@.len(),
                    cycle@.len() == path@.len() - i + 1,
                    cycle@[0] == dependency,
                    forall|m: int|
                        1 <= m < cycle@.len() ==> #[trigger] cycle@[m] == path@[path@.len() - m],
                decreases i,
            {
                i -= 1;
                cycle.push(path[i]);
            }
            proof {
                let walk = cycle@;
                let length = path@.len() as int;
                assert forall|m: int| 0 <= m < walk.len() - 1 implies has_edge(
                    edges,
                    #[trigger] walk[m],
                    walk[m + 1],
                ) by {
                    assert(walk[m + 1] == path@[length - (m + 1)]);
                    if m > 0 {
                        assert(walk[m] == path@[length - m]);
                        assert(has_edge(edges, path@[(length - m - 1) + 1], path@[length - m - 1]));
                    }
                }
                assert(walk[walk.len() - 1] == path@[length - (walk.len() - 1)]);
            }
            return (Some(cycle), Ghost(rank));
        }
        let ghost path_before = path@;
        let ghost on_path_before = on_path@;
        on_path.set(dependency, true);
        path.push(dependency);
        proof {
            lemma_marks_grow(on_path_before, on_path@, dependency as int);
            assert forall|p: usize| p < nodes && #[trigger] on_path@[p as int] implies path@.contains(
                p,
            ) by {
                if p == dependency {
                    assert(path@[path@.len() - 1] == p);
                } else {
                    assert(path_before.contains(p));
                    let i = choose|i: int| 0 <= i < path_before.len() && path_before[i] == p;
                    assert(path@[i] == p);
                }
            }
            assert forall|i: int| 0 <= i < path@.len() - 1 implies has_edge(
                edges,
                path@[i + 1],
                #[trigger] path@[i],
            ) by {
                if i < path_before.len() - 1 {
                    assert(has_edge(edges, path_before[i + 1], path_before[i]));
                }
            }
        }
    }
}

} // verus!
