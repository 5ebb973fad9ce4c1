//! The schedule of a run as mathematics: the state of every package, the
//! steps that lead from one state to the next, and what holds in every state
//! that a run can reach.

use vstd::prelude::*;

use super::dep_graph::DepGraph;
use super::relation::{
    has_edge, is_walk, lemma_edge_in_range, lemma_reaches_step, lemma_reaches_then_edge,
    lemma_unmet_witness, lemma_unmet_zero, unmet,
};

verus! {

/// What became of one package in a run.
#[derive(Debug, Clone, PartialEq, Eq)]
pub enum ExecutionOutcome {
    /// The action ran and reported success.
    Success,
    /// The action ran and reported failure, with this detail.
    Failure(String),
    /// The action never ran, because this package, which it needs, failed.
    Skipped(usize),
}

/// Where one package stands during a run.
#[derive(Debug, Clone, PartialEq, Eq)]
pub enum PackageState {
    /// Outside the scope of the run: never considered.
    Excluded,
    /// In scope, and some direct dependency has not succeeded yet.
    Waiting,
    /// Admitted: the action may run, or runs.
    Running,
    /// Done, with this outcome.
    Finished(ExecutionOutcome),
}

/// Which packages a run covers.
#[derive(Debug, Clone, Copy, PartialEq, Eq, Structural)]
pub enum Scope {
    /// Every package of the workspace.
    All,
    /// One package and all that it needs.
    WithDependencies(usize),
    /// One package, whatever it depends on.
    Only(usize),
}

impl Scope {
    /// The run covers `package`.
    pub open spec fn covers(self, graph: &DepGraph, package: usize) -> bool {
        match self {
            Scope::All => true,
            Scope::WithDependencies(target) => package == target || graph.needs(target, package),
            Scope::Only(target) => package == target,
        }
    }

    /// The packages of the graph that the run leaves out.
    pub open spec fn outside(self, graph: &DepGraph) -> Set<usize> {
        Set::new(|package: usize| package < graph.spec_package_count() && !self.covers(graph, package))
    }

    /// For each package, whether the run covers it.
    pub fn members(self, graph: &DepGraph) -> (members: Vec<bool>)
        requires
            graph.wf(),
        ensures
            members@.len() == graph.spec_package_count(),
            forall|package: usize|
                package < members@.len() ==> #[trigger] members@[package as int] == self.covers(
                    graph,
                    package,
                ),
    {
        let count = graph.package_count();
        let everything = match self {
            Scope::All => true,
            _ => false,
        };
        let mut members: Vec<bool> = Vec::new();
        let mut filled: usize = 0;
        while filled < count
            invariant
                filled <= count,
                members@.len() == filled,
                forall|package: int| 0 <= package < filled ==> #[trigger] members@[package] == everything,
            decreases count - filled,
        {
            members.push(everything);
            filled += 1;
        }
        match self {
            Scope::All => {},
            Scope::Only(target) => {
                if target < count {
                    members.set(target, true);
                }
            },
            Scope::WithDependencies(target) => {
                if target < count {
                    members.set(target, true);
                }
                let needed = graph.all_deps_for(target);
                let mut k: usize = 0;
                while k < needed.len()
                    invariant
                        k <= needed.len(),
                        members@.len() == count,
                        forall|i: int| 0 <= i < needed@.len() ==> (#[trigger] needed@[i]) < count,
                        forall|package: usize|
                            package < count ==> (#[trigger] members@[package as int] <==> (package
                                == target || needed@.take(k as int).contains(package))),
                    decreases needed.len() - k,
                {
                    let ghost before = members@;
                    members.set(needed[k], true);
                    proof {
                        let shorter = needed@.take(k as int);
                        let longer = needed@.take(k + 1);
                        assert forall|package: usize| package < count implies (
                        #[trigger] members@[package as int] <==> (package == target
                            || longer.contains(package))) by {
                            if shorter.contains(package) {
                                let j = choose|j: int| 0 <= j < shorter.len() && shorter[j] == package;
                                assert(longer[j] == package);
                            }
                            if package == needed@[k as int] {
                                assert(longer[k as int] == package);
                            }
                            if longer.contains(package) {
                                let j = choose|j: int| 0 <= j < longer.len() && longer[j] == package;
                                if j < k {
                                    assert(shorter[j] == package);
                                }
                            }
                        }
                    }
                    k += 1;
                }
                assert(needed@.take(k as int) =~= needed@);
            },
        }
        members
    }
}

/// The action of the package ran, or may run.
pub open spec fn is_started(state: PackageState) -> bool {
    match state {
        PackageState::Running => true,
        PackageState::Finished(outcome) => !(outcome is Skipped),
        _ => false,
    }
}

/// The package failed or was skipped: what depends on it cannot run.
pub open spec fn is_lost(state: PackageState) -> bool {
    match state {
        PackageState::Finished(outcome) => !(outcome is Success),
        _ => false,
    }
}

/// Nothing more will happen to the package.
pub open spec fn is_settled(state: PackageState) -> bool {
    state is Excluded || state is Finished
}

/// The packages nobody has to wait for: those that succeeded and those
/// outside the scope.
pub open spec fn met(states: Seq<PackageState>) -> Set<usize> {
    Set::new(
        |package: usize|
            package < states.len() && (states[package as int] is Excluded
                || states[package as int] matches PackageState::Finished(
                ExecutionOutcome::Success,
            )),
    )
}

/// The scope is closed under dependencies, or holds at most one package.
pub open spec fn scope_shaped(graph: &DepGraph, states: Seq<PackageState>) -> bool {
    ||| forall|i: int|
        0 <= i < graph.edges().len() && !(states[(#[trigger] graph.edges()[i]).1 as int]
            is Excluded) ==> !(states[graph.edges()[i].0 as int] is Excluded)
    ||| forall|one: usize, other: usize|
        one < states.len() && other < states.len() && !(#[trigger] states[one as int] is Excluded)
            && !(#[trigger] states[other as int] is Excluded) ==> one == other
}

/// What depends directly on a failed or skipped package is skipped, unless it
/// lies outside the scope.
pub open spec fn loss_spreads(graph: &DepGraph, states: Seq<PackageState>) -> bool {
    forall|i: int|
        0 <= i < graph.edges().len() && is_lost(states[(#[trigger] graph.edges()[i]).0 as int])
            ==> {
            ||| states[graph.edges()[i].1 as int] is Excluded
            ||| states[graph.edges()[i].1 as int] matches PackageState::Finished(
                ExecutionOutcome::Skipped(_),
            )
        }
}

/// What holds of the states of a run at every moment.
pub open spec fn consistent(graph: &DepGraph, states: Seq<PackageState>) -> bool {
    &&& states.len() == graph.spec_package_count()
    // A package whose action started has every direct dependency met.
    &&& forall|i: int|
        0 <= i < graph.edges().len() && is_started(states[(#[trigger] graph.edges()[i]).1 as int])
            ==> met(states).contains(graph.edges()[i].0)
    // A waiting package waits for a direct dependency.
    &&& forall|package: usize|
        package < states.len() && #[trigger] states[package as int] is Waiting ==> unmet(
            graph.edges(),
            package,
            met(states),
        ) > 0
    // A skipped package names a failed package that it needs.
    &&& forall|package: usize|
        package < states.len() ==> (#[trigger] states[package as int] matches PackageState::Finished(
            ExecutionOutcome::Skipped(cause),
        ) ==> {
            &&& cause < states.len()
            &&& states[cause as int] matches PackageState::Finished(ExecutionOutcome::Failure(_))
            &&& graph.needs(package, cause)
        })
    &&& loss_spreads(graph, states)
    &&& scope_shaped(graph, states)
}

/// Ordering: while a package runs, and after it ran, each package that it
/// depends on directly has succeeded, unless it lies outside the scope.
pub proof fn lemma_started_after_dependencies(
    graph: &DepGraph,
    states: Seq<PackageState>,
    package: usize,
    dependency: usize,
)
    requires
        graph.wf(),
        consistent(graph, states),
        package < states.len(),
        is_started(states[package as int]),
        graph.depends_on(package, dependency),
    ensures
        dependency < states.len(),
        states[dependency as int] is Excluded
            || states[dependency as int] matches PackageState::Finished(ExecutionOutcome::Success),
{
    let i = choose|i: int|
        0 <= i < graph.edges().len() && graph.edges()[i] == (dependency, package);
    assert(graph.edges()[i].1 == package);
    assert(met(states).contains(graph.edges()[i].0));
}

/// A walk that starts at a failed or skipped package and ends inside the scope
/// ends at a skipped package.
proof fn lemma_lost_along_walk(graph: &DepGraph, states: Seq<PackageState>, walk: Seq<usize>)
    requires
        graph.wf(),
        states.len() == graph.spec_package_count(),
        loss_spreads(graph, states),
        is_walk(graph.edges(), walk),
        walk.len() >= 2,
        walk.first() < states.len(),
        is_lost(states[walk.first() as int]),
        walk.last() < states.len(),
        !(states[walk.last() as int] is Excluded),
        forall|i: int|
            0 <= i < graph.edges().len() && !(states[(#[trigger] graph.edges()[i]).1 as int]
                is Excluded) ==> !(states[graph.edges()[i].0 as int] is Excluded),
    ensures
        states[walk.last() as int] matches PackageState::Finished(ExecutionOutcome::Skipped(_)),
    decreases walk.len(),
{
    let edges = graph.edges();
    let last = walk.len() - 1;
    assert(has_edge(edges, walk[last - 1], walk[last - 1 + 1]));
    let i = choose|i: int| 0 <= i < edges.len() && edges[i] == (walk[last - 1], walk[last]);
    assert(edges[i].1 == walk[last]);
    assert(edges[i].0 == walk[last - 1]);
    if walk.len() > 2 {
        let shorter = walk.drop_last();
        assert forall|k: int| 0 <= k < shorter.len() - 1 implies has_edge(
            edges,
            #[trigger] shorter[k],
            shorter[k + 1],
        ) by {
            assert(has_edge(edges, walk[k], walk[k + 1]));
        }
        graph.lemma_wf();
        lemma_edge_in_range(edges, graph.spec_package_count(), walk[last - 1], walk[last]);
        lemma_lost_along_walk(graph, states, shorter);
    }
}

/// Loss reaches every package in scope that needs the lost package.
proof fn lemma_loss_reaches(
    graph: &DepGraph,
    states: Seq<PackageState>,
    package: usize,
    lost: usize,
)
    requires
        graph.wf(),
        states.len() == graph.spec_package_count(),
        loss_spreads(graph, states),
        scope_shaped(graph, states),
        package < states.len(),
        lost < states.len(),
        is_lost(states[lost as int]),
        graph.needs(package, lost),
        !(states[package as int] is Excluded),
    ensures
        states[package as int] matches PackageState::Finished(ExecutionOutcome::Skipped(_)),
{
    graph.lemma_wf();
    if forall|i: int|
        0 <= i < graph.edges().len() && !(states[(#[trigger] graph.edges()[i]).1 as int]
            is Excluded) ==> !(states[graph.edges()[i].0 as int] is Excluded) {
        let walk = choose|walk: Seq<usize>|
            #![trigger is_walk(graph.edges(), walk)]
            is_walk(graph.edges(), walk) && walk.len() >= 2 && walk.first() == lost && walk.last()
                == package;
        lemma_lost_along_walk(graph, states, walk);
    } else {
        assert(!(states[lost as int] is Excluded));
        assert(lost == package);
    }
}

/// Failure propagation: a package in scope that needs a failed or skipped
/// package is skipped.
pub proof fn lemma_loss_propagates(
    graph: &DepGraph,
    states: Seq<PackageState>,
    package: usize,
    lost: usize,
)
    requires
        graph.wf(),
        consistent(graph, states),
        package < states.len(),
        lost < states.len(),
        is_lost(states[lost as int]),
        graph.needs(package, lost),
        !(states[package as int] is Excluded),
    ensures
        states[package as int] matches PackageState::Finished(ExecutionOutcome::Skipped(_)),
{
    lemma_loss_reaches(graph, states, package, lost);
}

/// The other side of failure propagation: a package in scope that needs no
/// failed package is never skipped, so once settled it holds what its own
/// action reported.
pub proof fn lemma_unaffected_not_skipped(
    graph: &DepGraph,
    states: Seq<PackageState>,
    package: usize,
)
    requires
        graph.wf(),
        consistent(graph, states),
        package < states.len(),
        is_settled(states[package as int]),
        !(states[package as int] is Excluded),
        forall|dependency: usize|
            dependency < states.len() && graph.needs(package, dependency) ==> !(
            #[trigger] states[dependency as int] matches PackageState::Finished(
                ExecutionOutcome::Failure(_),
            )),
    ensures
        states[package as int] matches PackageState::Finished(outcome) && !(outcome is Skipped),
{
}

/// Where no action reported a failure, a finished run holds a success for
/// every package in scope: whenever and in whatever order the actions ran.
pub proof fn lemma_all_succeed(graph: &DepGraph, states: Seq<PackageState>, package: usize)
    requires
        graph.wf(),
        consistent(graph, states),
        forall|other: usize|
            other < states.len() ==> {
                &&& is_settled(#[trigger] states[other as int])
                &&& !(states[other as int] matches PackageState::Finished(
                    ExecutionOutcome::Failure(_),
                ))
            },
        package < states.len(),
        !(states[package as int] is Excluded),
    ensures
        states[package as int] == PackageState::Finished(ExecutionOutcome::Success),
{
    assert(is_settled(states[package as int]));
    match states[package as int] {
        PackageState::Finished(ExecutionOutcome::Skipped(cause)) => {
            assert(is_settled(states[cause as int]));
        },
        _ => {},
    }
}

/// No waiting package has a rank below `bound` while nothing runs.
proof fn lemma_no_waiting_below(graph: &DepGraph, states: Seq<PackageState>, bound: nat)
    requires
        graph.wf(),
        consistent(graph, states),
        forall|package: usize|
            package < states.len() ==> !(#[trigger] states[package as int] is Running),
    ensures
        forall|package: usize|
            package < states.len() && graph.rank(package) < bound ==> !(
            #[trigger] states[package as int] is Waiting),
    decreases bound,
{
    if bound > 0 {
        lemma_no_waiting_below(graph, states, (bound - 1) as nat);
        graph.lemma_wf();
        let edges = graph.edges();
        assert forall|package: usize|
            package < states.len() && graph.rank(package) < bound implies !(
        #[trigger] states[package as int] is Waiting) by {
            if states[package as int] is Waiting {
                let dependency = lemma_unmet_witness(edges, package, met(states));
                lemma_edge_in_range(edges, graph.spec_package_count(), dependency, package);
                assert(graph.depends_on(package, dependency));
                assert(graph.rank(dependency) < bound - 1);
                assert(!(states[dependency as int] is Waiting));
                assert(!(states[dependency as int] is Running));
                assert(is_lost(states[dependency as int]));
                let i = choose|i: int| 0 <= i < edges.len() && edges[i] == (dependency, package);
                assert(edges[i].0 == dependency);
                assert(edges[i].1 == package);
            }
        }
    }
}

/// Progress: while a package waits, some package runs. So a run whose caller
/// reports every admitted package back ends with every package settled.
pub proof fn lemma_idle_means_done(graph: &DepGraph, states: Seq<PackageState>)
    requires
        graph.wf(),
        consistent(graph, states),
        forall|package: usize|
            package < states.len() ==> !(#[trigger] states[package as int] is Running),
    ensures
        forall|package: usize|
            package < states.len() ==> is_settled(#[trigger] states[package as int]),
{
    assert forall|package: usize| package < states.len() implies is_settled(
        #[trigger] states[package as int],
    ) by {
        lemma_no_waiting_below(graph, states, graph.rank(package) + 1);
    }
}

/// The states at the start of a run: what the scope leaves out is excluded;
/// of the rest, a package with no dependency in scope runs at once, and every
/// other package waits.
pub open spec fn initial_states(graph: &DepGraph, scope: Scope) -> Seq<PackageState> {
    Seq::new(
        graph.spec_package_count(),
        |package: int|
            if !scope.covers(graph, package as usize) {
                PackageState::Excluded
            } else if unmet(graph.edges(), package as usize, scope.outside(graph)) == 0 {
                PackageState::Running
            } else {
                PackageState::Waiting
            },
    )
}

/// A run starts in a consistent state.
pub proof fn lemma_initial_consistent(graph: &DepGraph, scope: Scope)
    requires
        graph.wf(),
    ensures
        consistent(graph, initial_states(graph, scope)),
        met(initial_states(graph, scope)) == scope.outside(graph),
{
    let states = initial_states(graph, scope);
    let edges = graph.edges();
    graph.lemma_wf();
    assert(met(states) =~= scope.outside(graph));
    assert forall|i: int| 0 <= i < edges.len() && is_started(states[(#[trigger] edges[i]).1 as int])
        implies met(states).contains(edges[i].0) by {
        assert(has_edge(edges, edges[i].0, edges[i].1));
        lemma_unmet_zero(edges, edges[i].1, met(states), edges[i].0);
    }
    match scope {
        Scope::WithDependencies(target) => {
            assert forall|i: int|
                0 <= i < edges.len() && !(states[(#[trigger] edges[i]).1 as int]
                    is Excluded) implies !(states[edges[i].0 as int] is Excluded) by {
                assert(has_edge(edges, edges[i].0, edges[i].1));
                lemma_reaches_step(edges, edges[i].0, edges[i].1, target);
            }
        },
        _ => {},
    }
}

/// The outcome that a reported result stands for.
pub open spec fn outcome_of(result: Result<(), String>) -> ExecutionOutcome {
    match result {
        Ok(_) => ExecutionOutcome::Success,
        Err(detail) => ExecutionOutcome::Failure(detail),
    }
}

/// The states after the action of `finished` reported `result`. The package
/// itself is finished with that outcome. After a success, every waiting package
/// whose dependencies are now all met runs. After a failure, every waiting
/// package that needs `finished` is skipped. Nothing else changes.
pub open spec fn next_states(
    graph: &DepGraph,
    states: Seq<PackageState>,
    finished: usize,
    result: Result<(), String>,
) -> Seq<PackageState> {
    Seq::new(
        states.len(),
        |package: int|
            if package == finished {
                PackageState::Finished(outcome_of(result))
            } else if states[package] is Waiting {
                match result {
                    Ok(_) => if unmet(
                        graph.edges(),
                        package as usize,
                        met(states).insert(finished),
                    ) == 0 {
                        PackageState::Running
                    } else {
                        PackageState::Waiting
                    },
                    Err(_) => if graph.needs(package as usize, finished) {
                        PackageState::Finished(ExecutionOutcome::Skipped(finished))
                    } else {
                        PackageState::Waiting
                    },
                }
            } else {
                states[package]
            },
    )
}

/// A reported success keeps the run consistent, and adds the package to those
/// that nobody waits for.
pub proof fn lemma_success_consistent(
    graph: &DepGraph,
    states: Seq<PackageState>,
    finished: usize,
)
    requires
        graph.wf(),
        consistent(graph, states),
        finished < states.len(),
        states[finished as int] is Running,
    ensures
        consistent(graph, next_states(graph, states, finished, Ok(()))),
        met(next_states(graph, states, finished, Ok(()))) == met(states).insert(finished),
{
    let after = next_states(graph, states, finished, Ok(()));
    let edges = graph.edges();
    graph.lemma_wf();
    assert(met(after) =~= met(states).insert(finished));
    assert forall|i: int| 0 <= i < edges.len() && is_started(after[(#[trigger] edges[i]).1 as int])
        implies met(after).contains(edges[i].0) by {
        let dependent = edges[i].1;
        if dependent != finished && states[dependent as int] is Waiting {
            assert(has_edge(edges, edges[i].0, dependent));
            lemma_unmet_zero(edges, dependent, met(after), edges[i].0);
        } else {
            assert(is_started(states[dependent as int]));
            assert(met(states).contains(edges[i].0));
        }
    }
    assert forall|package: usize| package < after.len() implies (
    #[trigger] after[package as int] matches PackageState::Finished(
        ExecutionOutcome::Skipped(cause),
    ) ==> {
        &&& cause < after.len()
        &&& after[cause as int] matches PackageState::Finished(ExecutionOutcome::Failure(_))
        &&& graph.needs(package, cause)
    }) by {
        if package < after.len() {
            assert(after[package as int] is Finished ==> after[package as int] == states[package as int]
                || package == finished);
        }
    }
    assert forall|i: int| 0 <= i < edges.len() && is_lost(after[(#[trigger] edges[i]).0 as int])
        implies {
        ||| after[edges[i].1 as int] is Excluded
        ||| after[edges[i].1 as int] matches PackageState::Finished(ExecutionOutcome::Skipped(_))
    } by {
        assert(is_lost(states[edges[i].0 as int]));
    }
    lemma_scope_stays(graph, states, after);
}

/// A step leaves the scope as it is, and with it the shape of the scope.
proof fn lemma_scope_stays(graph: &DepGraph, states: Seq<PackageState>, after: Seq<PackageState>)
    requires
        scope_shaped(graph, states),
        after.len() == states.len(),
        states.len() == graph.spec_package_count(),
        graph.wf(),
        forall|package: int|
            0 <= package < after.len() ==> (#[trigger] after[package] is Excluded
                <==> states[package] is Excluded),
    ensures
        scope_shaped(graph, after),
{
    let edges = graph.edges();
    graph.lemma_wf();
    if forall|i: int|
        0 <= i < edges.len() && !(states[(#[trigger] edges[i]).1 as int] is Excluded) ==> !(
        states[edges[i].0 as int] is Excluded) {
        assert forall|i: int|
            0 <= i < edges.len() && !(after[(#[trigger] edges[i]).1 as int] is Excluded) implies !(
        after[edges[i].0 as int] is Excluded) by {
            assert(after[edges[i].1 as int] is Excluded <==> states[edges[i].1 as int] is Excluded);
            assert(after[edges[i].0 as int] is Excluded <==> states[edges[i].0 as int] is Excluded);
        }
    } else {
        assert forall|one: usize, other: usize|
            one < after.len() && other < after.len() && !(#[trigger] after[one as int] is Excluded)
                && !(#[trigger] after[other as int] is Excluded) implies one == other by {
            assert(!(states[one as int] is Excluded));
            assert(!(states[other as int] is Excluded));
        }
    }
}

/// A reported failure keeps the run consistent, and leaves alone the set of
/// packages that nobody waits for.
pub proof fn lemma_failure_consistent(
    graph: &DepGraph,
    states: Seq<PackageState>,
    finished: usize,
    detail: String,
)
    requires
        graph.wf(),
        consistent(graph, states),
        finished < states.len(),
        states[finished as int] is Running,
    ensures
        consistent(graph, next_states(graph, states, finished, Err(detail))),
        met(next_states(graph, states, finished, Err(detail))) == met(states),
{
    let after = next_states(graph, states, finished, Err(detail));
    let edges = graph.edges();
    graph.lemma_wf();
    assert(met(after) =~= met(states));
    assert forall|i: int| 0 <= i < edges.len() && is_started(after[(#[trigger] edges[i]).1 as int])
        implies met(after).contains(edges[i].0) by {
        assert(is_started(states[edges[i].1 as int]));
    }
    assert forall|package: usize| package < after.len() implies (
    #[trigger] after[package as int] matches PackageState::Finished(
        ExecutionOutcome::Skipped(cause),
    ) ==> {
        &&& cause < after.len()
        &&& after[cause as int] matches PackageState::Finished(ExecutionOutcome::Failure(_))
        &&& graph.needs(package, cause)
    }) by {
        if package != finished && !(states[package as int] is Waiting) {
            match states[package as int] {
                PackageState::Finished(ExecutionOutcome::Skipped(cause)) => {
                    assert(cause != finished);
                    assert(after[cause as int] == states[cause as int]);
                },
                _ => {},
            }
        }
    }
    assert forall|i: int| 0 <= i < edges.len() && is_lost(after[(#[trigger] edges[i]).0 as int])
        implies {
        ||| after[edges[i].1 as int] is Excluded
        ||| after[edges[i].1 as int] matches PackageState::Finished(ExecutionOutcome::Skipped(_))
    } by {
        let from = edges[i].0;
        let to = edges[i].1;
        assert(has_edge(edges, from, to));
        if is_lost(states[from as int]) {
            assert(to != finished);
        } else {
            // `from` is the failed package, or needs it and was skipped now
            assert(!met(states).contains(from));
            assert(!is_started(states[to as int]));
            if states[to as int] is Waiting {
                lemma_reaches_then_edge(edges, finished, from, to);
            }
        }
    }
    lemma_scope_stays(graph, states, after);
}

/// What the loop over the dependents of a failed package leaves behind is the
/// step that [`next_states`] describes.
pub(crate) proof fn lemma_failure_walked(
    graph: &DepGraph,
    states: Seq<PackageState>,
    after: Seq<PackageState>,
    finished: usize,
    detail: String,
)
    requires
        graph.wf(),
        consistent(graph, states),
        finished < states.len(),
        states[finished as int] is Running,
        after.len() == states.len(),
        after[finished as int] == PackageState::Finished(ExecutionOutcome::Failure(detail)),
        forall|p: usize|
            p < states.len() && p != finished ==> {
                ||| #[trigger] after[p as int] == states[p as int]
                ||| {
                    &&& states[p as int] is Waiting
                    &&& after[p as int] == PackageState::Finished(
                        ExecutionOutcome::Skipped(finished),
                    )
                    &&& graph.needs(p, finished)
                }
            },
        loss_spreads(graph, after),
    ensures
        after == next_states(graph, states, finished, Err(detail)),
{
    graph.lemma_wf();
    assert forall|package: int| 0 <= package < after.len() implies (#[trigger] after[package]
        is Excluded <==> states[package] is Excluded) by {
        let p = package as usize;
        if p != finished {
            assert(after[p as int] == states[p as int] || states[p as int] is Waiting);
        }
    }
    lemma_scope_stays(graph, states, after);
    let expected = next_states(graph, states, finished, Err(detail));
    assert forall|p: int| 0 <= p < after.len() implies after[p] == expected[p] by {
        let package = p as usize;
        if package != finished {
            assert(after[package as int] == states[package as int] || states[package as int]
                is Waiting);
            if states[p] is Waiting && graph.needs(package, finished) {
                lemma_loss_reaches(graph, after, package, finished);
            }
        }
    }
    assert(after =~= expected);
}

} // verus!
