//! Dependency relations as mathematics: a relation is a sequence of edges
//! `(dependency, dependent)`, in the order in which the edges were declared.

use vstd::prelude::*;

verus! {

/// An edge `(dependency, dependent)`: the first package must complete before
/// the second may start.
pub type Edge = (usize, usize);

/// Every endpoint of every edge names one of the `nodes` packages.
pub open spec fn edges_in_range(edges: Seq<Edge>, nodes: nat) -> bool {
    forall|i: int| 0 <= i < edges.len() ==> (#[trigger] edges[i]).0 < nodes && edges[i].1 < nodes
}

/// `dependent` depends directly on `dependency`.
pub open spec fn has_edge(edges: Seq<Edge>, dependency: usize, dependent: usize) -> bool {
    edges.contains((dependency, dependent))
}

/// The sources of the edges that point into `node`, the most recently declared
/// edge first.
pub open spec fn sources_into(edges: Seq<Edge>, node: usize) -> Seq<usize>
    decreases edges.len(),
{
    if edges.len() == 0 {
        Seq::empty()
    } else if edges.last().1 == node {
        seq![edges.last().0] + sources_into(edges.drop_last(), node)
    } else {
        sources_into(edges.drop_last(), node)
    }
}

/// The targets of the edges that leave `node`, the most recently declared edge
/// first.
pub open spec fn targets_from(edges: Seq<Edge>, node: usize) -> Seq<usize>
    decreases edges.len(),
{
    if edges.len() == 0 {
        Seq::empty()
    } else if edges.last().0 == node {
        seq![edges.last().1] + targets_from(edges.drop_last(), node)
    } else {
        targets_from(edges.drop_last(), node)
    }
}

/// `walk` follows edges: each package in it is a direct dependency of the next.
pub open spec fn is_walk(edges: Seq<Edge>, walk: Seq<usize>) -> bool {
    &&& walk.len() >= 1
    &&& forall|i: int| 0 <= i < walk.len() - 1 ==> has_edge(edges, #[trigger] walk[i], walk[i + 1])
}

/// `to` depends on `from`, directly or through other packages: a walk of at
/// least one edge leads from `from` to `to`.
pub open spec fn reaches(edges: Seq<Edge>, from: usize, to: usize) -> bool {
    exists|walk: Seq<usize>|
        #![trigger is_walk(edges, walk)]
        is_walk(edges, walk) && walk.len() >= 2 && walk.first() == from && walk.last() == to
}

/// No package depends on itself, directly or through other packages.
pub open spec fn acyclic(edges: Seq<Edge>) -> bool {
    forall|node: usize| !reaches(edges, node, node)
}

/// An edge into `node` shows up among the sources, and nothing else does.
pub proof fn lemma_sources_into_contains(edges: Seq<Edge>, node: usize, source: usize)
    ensures
        sources_into(edges, node).contains(source) <==> has_edge(edges, source, node),
    decreases edges.len(),
{
    if edges.len() == 0 {
    } else {
        let rest = edges.drop_last();
        lemma_sources_into_contains(rest, node, source);
        let tail = sources_into(rest, node);
        if has_edge(edges, source, node) {
            let i = choose|i: int| 0 <= i < edges.len() && edges[i] == (source, node);
            if i == edges.len() - 1 {
                assert(sources_into(edges, node)[0] == source);
            } else {
                assert(rest[i] == (source, node));
                assert(tail.contains(source));
                let j = choose|j: int| 0 <= j < tail.len() && tail[j] == source;
                if edges.last().1 == node {
                    assert(sources_into(edges, node)[j + 1] == source);
                }
            }
        }
        if sources_into(edges, node).contains(source) {
            let j = choose|j: int|
                0 <= j < sources_into(edges, node).len() && sources_into(edges, node)[j] == source;
            if edges.last().1 == node && j == 0 {
                assert(edges[edges.len() - 1] == (source, node));
            } else {
                if edges.last().1 == node {
                    assert(tail[j - 1] == source);
                }
                assert(tail.contains(source));
                let i = choose|i: int| 0 <= i < rest.len() && rest[i] == (source, node);
                assert(edges[i] == (source, node));
            }
        }
    }
}

/// An edge out of `node` shows up among the targets, and nothing else does.
pub proof fn lemma_targets_from_contains(edges: Seq<Edge>, node: usize, target: usize)
    ensures
        targets_from(edges, node).contains(target) <==> has_edge(edges, node, target),
    decreases edges.len(),
{
    if edges.len() == 0 {
    } else {
        let rest = edges.drop_last();
        lemma_targets_from_contains(rest, node, target);
        let tail = targets_from(rest, node);
        if has_edge(edges, node, target) {
            let i = choose|i: int| 0 <= i < edges.len() && edges[i] == (node, target);
            if i == edges.len() - 1 {
                assert(targets_from(edges, node)[0] == target);
            } else {
                assert(rest[i] == (node, target));
                assert(tail.contains(target));
                let j = choose|j: int| 0 <= j < tail.len() && tail[j] == target;
                if edges.last().0 == node {
                    assert(targets_from(edges, node)[j + 1] == target);
                }
            }
        }
        if targets_from(edges, node).contains(target) {
            let j = choose|j: int|
                0 <= j < targets_from(edges, node).len() && targets_from(edges, node)[j] == target;
            if edges.last().0 == node && j == 0 {
                assert(edges[edges.len() - 1] == (node, target));
            } else {
                if edges.last().0 == node {
                    assert(tail[j - 1] == target);
                }
                assert(tail.contains(target));
                let i = choose|i: int| 0 <= i < rest.len() && rest[i] == (node, target);
                assert(edges[i] == (node, target));
            }
        }
    }
}

/// A walk of at least one edge that ends where it starts.
pub open spec fn closed_walk(edges: Seq<Edge>, walk: Seq<usize>) -> bool {
    is_walk(edges, walk) && walk.len() >= 2 && walk.first() == walk.last()
}

/// How many of the edges are the edge from `dependency` to `dependent`.
pub open spec fn multiplicity(edges: Seq<Edge>, dependency: usize, dependent: usize) -> nat
    decreases edges.len(),
{
    if edges.len() == 0 {
        0
    } else {
        multiplicity(edges.drop_last(), dependency, dependent) + if edges.last() == (
            dependency,
            dependent,
        ) {
            1nat
        } else {
            0nat
        }
    }
}

/// How many edges into `node` come from a package outside `met`: the number of
/// dependencies, counted once per declaration, that `node` still waits for.
pub open spec fn unmet(edges: Seq<Edge>, node: usize, met: Set<usize>) -> nat
    decreases edges.len(),
{
    if edges.len() == 0 {
        0
    } else {
        unmet(edges.drop_last(), node, met) + if edges.last().1 == node && !met.contains(
            edges.last().0,
        ) {
            1nat
        } else {
            0nat
        }
    }
}

/// How often `value` occurs in `items`.
pub open spec fn count_of(items: Seq<usize>, value: usize) -> nat
    decreases items.len(),
{
    if items.len() == 0 {
        0
    } else {
        count_of(items.drop_first(), value) + if items.first() == value {
            1nat
        } else {
            0nat
        }
    }
}

/// How many entries of `items` lie outside `met`.
pub open spec fn count_outside(items: Seq<usize>, met: Set<usize>) -> nat
    decreases items.len(),
{
    if items.len() == 0 {
        0
    } else {
        count_outside(items.drop_first(), met) + if met.contains(items.first()) {
            0nat
        } else {
            1nat
        }
    }
}

/// Counting over a suffix: one more entry in front adds its own share.
pub proof fn lemma_count_of_skip(items: Seq<usize>, value: usize, from: int)
    requires
        0 <= from < items.len(),
    ensures
        count_of(items.skip(from), value) == count_of(items.skip(from + 1), value) + if items[from]
            == value {
            1nat
        } else {
            0nat
        },
{
    assert(items.skip(from).drop_first() =~= items.skip(from + 1));
}

/// Counting over a suffix: one more entry in front adds its own share.
pub proof fn lemma_count_outside_skip(items: Seq<usize>, met: Set<usize>, from: int)
    requires
        0 <= from < items.len(),
    ensures
        count_outside(items.skip(from), met) == count_outside(items.skip(from + 1), met)
            + if met.contains(items[from]) {
            0nat
        } else {
            1nat
        },
{
    assert(items.skip(from).drop_first() =~= items.skip(from + 1));
}

/// The targets of `node` list each dependent once per edge.
pub proof fn lemma_count_targets(edges: Seq<Edge>, node: usize, dependent: usize)
    ensures
        count_of(targets_from(edges, node), dependent) == multiplicity(edges, node, dependent),
    decreases edges.len(),
{
    if edges.len() > 0 {
        let rest = edges.drop_last();
        lemma_count_targets(rest, node, dependent);
        if edges.last().0 == node {
            let tail = targets_from(rest, node);
            assert((seq![edges.last().1] + tail).drop_first() =~= tail);
        }
    }
}

/// The unmet dependencies of `node` are the sources of its incoming edges that
/// lie outside `met`.
pub proof fn lemma_unmet_counts_sources(edges: Seq<Edge>, node: usize, met: Set<usize>)
    ensures
        unmet(edges, node, met) == count_outside(sources_into(edges, node), met),
    decreases edges.len(),
{
    if edges.len() > 0 {
        let rest = edges.drop_last();
        lemma_unmet_counts_sources(rest, node, met);
        if edges.last().1 == node {
            let tail = sources_into(rest, node);
            assert((seq![edges.last().0] + tail).drop_first() =~= tail);
        }
    }
}

/// Once `settled` is met, `node` waits for one dependency less per edge from
/// `settled` to `node`.
pub proof fn lemma_unmet_settle(edges: Seq<Edge>, node: usize, met: Set<usize>, settled: usize)
    requires
        !met.contains(settled),
    ensures
        unmet(edges, node, met.insert(settled)) + multiplicity(edges, settled, node) == unmet(
            edges,
            node,
            met,
        ),
    decreases edges.len(),
{
    if edges.len() > 0 {
        lemma_unmet_settle(edges.drop_last(), node, met, settled);
    }
}

/// A package that waits for nothing has all its direct dependencies met.
pub proof fn lemma_unmet_zero(edges: Seq<Edge>, node: usize, met: Set<usize>, dependency: usize)
    requires
        unmet(edges, node, met) == 0,
        has_edge(edges, dependency, node),
    ensures
        met.contains(dependency),
    decreases edges.len(),
{
    let i = choose|i: int| 0 <= i < edges.len() && edges[i] == (dependency, node);
    if i < edges.len() - 1 {
        assert(edges.drop_last()[i] == (dependency, node));
        lemma_unmet_zero(edges.drop_last(), node, met, dependency);
    }
}

/// A package that still waits has a direct dependency that is not met.
pub proof fn lemma_unmet_witness(edges: Seq<Edge>, node: usize, met: Set<usize>) -> (dependency:
    usize)
    requires
        unmet(edges, node, met) > 0,
    ensures
        has_edge(edges, dependency, node),
        !met.contains(dependency),
    decreases edges.len(),
{
    if edges.last().1 == node && !met.contains(edges.last().0) {
        assert(edges[edges.len() - 1] == (edges.last().0, node));
        edges.last().0
    } else {
        let dependency = lemma_unmet_witness(edges.drop_last(), node, met);
        let i = choose|i: int|
            0 <= i < edges.drop_last().len() && edges.drop_last()[i] == (dependency, node);
        assert(edges[i] == (dependency, node));
        dependency
    }
}

/// Edges between packages `0 .. nodes` neither enter nor leave another node.
pub proof fn lemma_no_edges_out_of_range(edges: Seq<Edge>, nodes: nat, node: usize)
    requires
        edges_in_range(edges, nodes),
        node >= nodes,
    ensures
        sources_into(edges, node) =~= Seq::empty(),
        targets_from(edges, node) =~= Seq::empty(),
    decreases edges.len(),
{
    if edges.len() > 0 {
        assert(edges[edges.len() - 1].0 < nodes && edges[edges.len() - 1].1 < nodes);
        assert(edges_in_range(edges.drop_last(), nodes)) by {
            assert forall|i: int| 0 <= i < edges.drop_last().len() implies (
            #[trigger] edges.drop_last()[i]).0 < nodes && edges.drop_last()[i].1 < nodes by {
                assert(edges.drop_last()[i] == edges[i]);
            }
        }
        lemma_no_edges_out_of_range(edges.drop_last(), nodes, node);
    }
}

/// Every package on a walk of at least one edge is an endpoint of an edge.
pub proof fn lemma_walk_in_range(edges: Seq<Edge>, nodes: nat, walk: Seq<usize>, at: int)
    requires
        edges_in_range(edges, nodes),
        is_walk(edges, walk),
        walk.len() >= 2,
        0 <= at < walk.len(),
    ensures
        walk[at] < nodes,
{
    if at < walk.len() - 1 {
        assert(has_edge(edges, walk[at], walk[at + 1]));
        let i = choose|i: int| 0 <= i < edges.len() && edges[i] == (walk[at], walk[at + 1]);
        assert(edges[i].0 < nodes);
    } else {
        assert(has_edge(edges, walk[at - 1], walk[at - 1 + 1]));
        let i = choose|i: int| 0 <= i < edges.len() && edges[i] == (walk[at - 1], walk[at]);
        assert(edges[i].1 < nodes);
    }
}

/// Both endpoints of an edge are packages.
pub proof fn lemma_edge_in_range(edges: Seq<Edge>, nodes: nat, dependency: usize, dependent: usize)
    requires
        edges_in_range(edges, nodes),
        has_edge(edges, dependency, dependent),
    ensures
        dependency < nodes,
        dependent < nodes,
{
    let i = choose|i: int| 0 <= i < edges.len() && edges[i] == (dependency, dependent);
    assert(edges[i].0 < nodes && edges[i].1 < nodes);
}

/// `rank` numbers the packages topologically: along every edge it grows.
pub open spec fn ranked(edges: Seq<Edge>, rank: Seq<nat>) -> bool {
    forall|i: int|
        0 <= i < edges.len() ==> {
            &&& (#[trigger] edges[i]).0 < rank.len()
            &&& edges[i].1 < rank.len()
            &&& rank[edges[i].0 as int] < rank[edges[i].1 as int]
        }
}

/// Along a walk of at least one edge the rank grows.
pub proof fn lemma_rank_along_walk(edges: Seq<Edge>, rank: Seq<nat>, walk: Seq<usize>)
    requires
        ranked(edges, rank),
        is_walk(edges, walk),
        walk.len() >= 2,
    ensures
        walk.first() < rank.len(),
        walk.last() < rank.len(),
        rank[walk.first() as int] < rank[walk.last() as int],
    decreases walk.len(),
{
    let last = walk.len() - 1;
    assert(has_edge(edges, walk[last - 1], walk[last - 1 + 1]));
    let i = choose|i: int| 0 <= i < edges.len() && edges[i] == (walk[last - 1], walk[last]);
    assert(edges[i].0 < rank.len());
    if walk.len() > 2 {
        let shorter = walk.drop_last();
        assert forall|k: int| 0 <= k < shorter.len() - 1 implies has_edge(
            edges,
            #[trigger] shorter[k],
            shorter[k + 1],
        ) by {
            assert(has_edge(edges, walk[k], walk[k + 1]));
        }
        lemma_rank_along_walk(edges, rank, shorter);
    }
}

/// A relation with a topological numbering has no cycle.
pub proof fn lemma_ranked_acyclic(edges: Seq<Edge>, rank: Seq<nat>)
    requires
        ranked(edges, rank),
    ensures
        acyclic(edges),
{
    assert forall|node: usize| !reaches(edges, node, node) by {
        if reaches(edges, node, node) {
            let walk = choose|walk: Seq<usize>|
                #![trigger is_walk(edges, walk)]
                is_walk(edges, walk) && walk.len() >= 2 && walk.first() == node && walk.last()
                    == node;
            lemma_rank_along_walk(edges, rank, walk);
        }
    }
}

/// An edge in front of a walk, or of nothing, gives a longer walk.
pub proof fn lemma_reaches_step(edges: Seq<Edge>, from: usize, middle: usize, to: usize)
    requires
        has_edge(edges, from, middle),
        middle == to || reaches(edges, middle, to),
    ensures
        reaches(edges, from, to),
{
    if middle == to {
        let walk = seq![from, to];
        assert(is_walk(edges, walk));
        assert(walk.first() == from && walk.last() == to);
    } else {
        let rest = choose|walk: Seq<usize>|
            #![trigger is_walk(edges, walk)]
            is_walk(edges, walk) && walk.len() >= 2 && walk.first() == middle && walk.last() == to;
        let walk = seq![from] + rest;
        assert forall|i: int| 0 <= i < walk.len() - 1 implies has_edge(
            edges,
            #[trigger] walk[i],
            walk[i + 1],
        ) by {
            if i > 0 {
                assert(has_edge(edges, rest[i - 1], rest[i - 1 + 1]));
            }
        }
        assert(is_walk(edges, walk));
        assert(walk.first() == from && walk.last() == to);
    }
}

/// A walk followed by an edge gives a longer walk.
pub proof fn lemma_reaches_then_edge(edges: Seq<Edge>, from: usize, middle: usize, to: usize)
    requires
        from == middle || reaches(edges, from, middle),
        has_edge(edges, middle, to),
    ensures
        reaches(edges, from, to),
{
    if from == middle {
        lemma_reaches_step(edges, from, to, to);
    } else {
        let first = choose|walk: Seq<usize>|
            #![trigger is_walk(edges, walk)]
            is_walk(edges, walk) && walk.len() >= 2 && walk.first() == from && walk.last() == middle;
        let walk = first.push(to);
        assert forall|i: int| 0 <= i < walk.len() - 1 implies has_edge(
            edges,
            #[trigger] walk[i],
            walk[i + 1],
        ) by {
            if i < first.len() - 1 {
                assert(has_edge(edges, first[i], first[i + 1]));
            }
        }
        assert(is_walk(edges, walk));
        assert(walk.first() == from && walk.last() == to);
    }
}

} // verus!
