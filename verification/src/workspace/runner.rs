//! The scheduler: which packages may run now, and what a finished package
//! means for those that depend on it.
//!
//! The scheduler performs no action itself. Its caller starts the action of
//! every package that the scheduler admits, in any order and as concurrently
//! as it likes, and reports each result back with [`Scheduler::complete`].

use vstd::prelude::*;

use super::dep_graph::DepGraph;
use super::marks::{count_unmarked, lemma_marks_grow};
use super::relation::{
    count_of, count_outside, has_edge, lemma_count_of_skip, lemma_count_outside_skip,
    lemma_count_targets, lemma_reaches_then_edge, lemma_targets_from_contains,
    lemma_unmet_counts_sources, lemma_unmet_settle, targets_from, unmet,
};
use super::schedule::{
    consistent, initial_states, is_lost, is_settled, is_started, lemma_failure_consistent,
    lemma_failure_walked, lemma_idle_means_done, lemma_initial_consistent,
    lemma_success_consistent, met, next_states,
};

pub use super::schedule::{ExecutionOutcome, PackageState, Scope};

verus! {

/// The marks of the packages to which nothing more will happen.
pub open spec fn settled(states: Seq<PackageState>) -> Seq<bool> {
    Seq::new(states.len(), |package: int| is_settled(states[package]))
}

/// A copy of an outcome.
pub fn copy_outcome(outcome: &ExecutionOutcome) -> (copy: ExecutionOutcome)
    ensures
        copy == *outcome,
{
    match outcome {
        ExecutionOutcome::Success => ExecutionOutcome::Success,
        ExecutionOutcome::Failure(detail) => ExecutionOutcome::Failure(detail.clone()),
        ExecutionOutcome::Skipped(cause) => ExecutionOutcome::Skipped(*cause),
    }
}

/// The marks of the packages that do not wait.
pub open spec fn not_waiting(states: Seq<PackageState>) -> Seq<bool> {
    Seq::new(states.len(), |package: int| !(states[package] is Waiting))
}

/// The bookkeeping of one run: the state of every package, and for every
/// waiting package the number of dependencies it still waits for.
pub struct Scheduler {
    states: Vec<PackageState>,
    remaining: Vec<usize>,
}

impl View for Scheduler {
    type V = Seq<PackageState>;

    closed spec fn view(&self) -> Seq<PackageState> {
        self.states@
    }
}

impl Scheduler {
    /// The scheduler's invariant over the graph it runs on: the states are
    /// consistent, and each waiting package's counter is the number of
    /// dependency declarations of it that are not met.
    pub closed spec fn wf(&self, graph: &DepGraph) -> bool {
        &&& consistent(graph, self.states@)
        &&& self.remaining@.len() == self.states@.len()
        &&& forall|package: usize|
            package < self.states@.len() && #[trigger] self.states@[package as int] is Waiting
                ==> self.remaining@[package as int] == unmet(
                graph.edges(),
                package,
                met(self.states@),
            )
    }

    /// A well-formed scheduler is in a consistent state.
    pub proof fn lemma_consistent(&self, graph: &DepGraph)
        requires
            self.wf(graph),
        ensures
            consistent(graph, self@),
    {
    }

    /// Starts a run over `scope`. Returns the scheduler and the packages it
    /// admits at once, in ascending order: the caller starts their actions.
    pub fn new(graph: &DepGraph, scope: Scope) -> (started: (Scheduler, Vec<usize>))
        requires
            graph.wf(),
        ensures
            started.0.wf(graph),
            started.0@ == initial_states(graph, scope),
            forall|i: int, j: int|
                0 <= i < j < started.1@.len() ==> started.1@[i] < started.1@[j],
            forall|package: usize|
                started.1@.contains(package) <==> (package < started.0@.len()
                    && started.0@[package as int] is Running),
    {
        let count = graph.package_count();
        let members = scope.members(graph);
        let ghost edges = graph.edges();
        let ghost outside = scope.outside(graph);
        let ghost expected = initial_states(graph, scope);
        let mut states: Vec<PackageState> = Vec::new();
        let mut remaining: Vec<usize> = Vec::new();
        let mut admitted: Vec<usize> = Vec::new();
        let mut package: usize = 0;
        while package < count
            invariant
                graph.wf(),
                count == graph.spec_package_count(),
                edges == graph.edges(),
                outside == scope.outside(graph),
                expected == initial_states(graph, scope),
                members@.len() == count,
                forall|p: usize|
                    p < count ==> #[trigger] members@[p as int] == scope.covers(graph, p),
                package <= count,
                states@.len() == package,
                remaining@.len() == package,
                forall|p: int| 0 <= p < package ==> #[trigger] states@[p] == expected[p],
                forall|p: usize|
                    p < package && #[trigger] states@[p as int] is Waiting ==> remaining@[p as int]
                        == unmet(edges, p, outside),
                forall|i: int, j: int| 0 <= i < j < admitted@.len() ==> admitted@[i] < admitted@[j],
                forall|i: int| 0 <= i < admitted@.len() ==> (#[trigger] admitted@[i]) < package,
                forall|p: usize|
                    admitted@.contains(p) <==> (p < package && states@[p as int] is Running),
            decreases count - package,
        {
            let ghost admitted_before = admitted@;
            let ghost states_before = states@;
            if !members[package] {
                states.push(PackageState::Excluded);
                remaining.push(0);
            } else {
                let dependencies = graph.immediate_deps_for(package);
                let mut waiting_for: usize = 0;
                let mut k: usize = 0;
                assert(dependencies@.skip(0) =~= dependencies@);
                while k < dependencies.len()
                    invariant
                        k <= dependencies.len(),
                        waiting_for <= k,
                        count == graph.spec_package_count(),
                        outside == scope.outside(graph),
                        members@.len() == count,
                        forall|p: usize|
                            p < count ==> #[trigger] members@[p as int] == scope.covers(graph, p),
                        forall|i: int|
                            0 <= i < dependencies@.len() ==> (#[trigger] dependencies@[i]) < count,
                        waiting_for + count_outside(dependencies@.skip(k as int), outside)
                            == count_outside(dependencies@, outside),
                    decreases dependencies.len() - k,
                {
                    proof {
                        lemma_count_outside_skip(dependencies@, outside, k as int);
                    }
                    if members[dependencies[k]] {
                        waiting_for += 1;
                    }
                    k += 1;
                }
                proof {
                    lemma_unmet_counts_sources(edges, package, outside);
                }
                if waiting_for == 0 {
                    states.push(PackageState::Running);
                    admitted.push(package);
                } else {
                    states.push(PackageState::Waiting);
                }
                remaining.push(waiting_for);
            }
            proof {
                assert forall|p: usize|
                    admitted@.contains(p) <==> (p < package + 1 && states@[p as int] is Running) by {
                    if admitted@.contains(p) {
                        let i = choose|i: int| 0 <= i < admitted@.len() && admitted@[i] == p;
                        if i < admitted_before.len() {
                            assert(admitted_before[i] == p);
                            assert(admitted_before.contains(p));
                        }
                    }
                    if p < package + 1 && states@[p as int] is Running {
                        if p < package {
                            assert(states_before[p as int] is Running);
                            assert(admitted_before.contains(p));
                            let i = choose|i: int|
                                0 <= i < admitted_before.len() && admitted_before[i] == p;
                            assert(admitted@[i] == p);
                        } else {
                            assert(admitted@[admitted@.len() - 1] == p);
                        }
                    }
                }
            }
            package += 1;
        }
        proof {
            assert(states@ =~= expected);
            lemma_initial_consistent(graph, scope);
        }
        (Scheduler { states, remaining }, admitted)
    }

    /// The success half of [`Scheduler::complete`].
    fn complete_success(&mut self, graph: &DepGraph, finished: usize) -> (admitted: Vec<usize>)
        requires
            graph.wf(),
            old(self).wf(graph),
            finished < old(self)@.len(),
            old(self)@[finished as int] is Running,
        ensures
            final(self).wf(graph),
            final(self)@ == next_states(graph, old(self)@, finished, Ok(())),
            admitted@.no_duplicates(),
            forall|package: usize|
                admitted@.contains(package) <==> (package < old(self)@.len()
                    && old(self)@[package as int] is Waiting
                    && final(self)@[package as int] is Running),
    {
        let ghost before = self.states@;
        let ghost edges = graph.edges();
        let ghost met_before = met(before);
        let count = self.states.len();
        proof {
            graph.lemma_wf();
        }
        self.states.set(finished, PackageState::Finished(ExecutionOutcome::Success));
        let ghost met_now = met_before.insert(finished);
        let dependents = graph.dependents_of(finished);
        proof {
            assert(dependents@.skip(0) =~= dependents@);
            assert forall|p: usize|
                p < count && #[trigger] self.states@[p as int] is Waiting implies self.remaining@[p as int]
                == unmet(edges, p, met_now) + count_of(dependents@.skip(0), p)
                && self.remaining@[p as int] > 0 by {
                assert(before[p as int] is Waiting);
                lemma_unmet_settle(edges, p, met_before, finished);
                lemma_count_targets(edges, finished, p);
            }
        }
        let mut admitted: Vec<usize> = Vec::new();
        let mut k: usize = 0;
        while k < dependents.len()
            invariant
                k <= dependents.len(),
                count == before.len(),
                self.states@.len() == count,
                self.remaining@.len() == count,
                finished < count,
                before[finished as int] is Running,
                edges == graph.edges(),
                dependents@ == targets_from(edges, finished),
                forall|i: int| 0 <= i < dependents@.len() ==> (#[trigger] dependents@[i]) < count,
                self.states@[finished as int] == PackageState::Finished(ExecutionOutcome::Success),
                forall|p: usize|
                    p < count && p != finished ==> {
                        &&& before[p as int] is Waiting ==> (#[trigger] self.states@[p as int]
                            is Waiting || self.states@[p as int] is Running)
                        &&& !(before[p as int] is Waiting) ==> self.states@[p as int]
                            == before[p as int]
                    },
                forall|p: usize|
                    p < count && #[trigger] self.states@[p as int] is Waiting ==> {
                        &&& self.remaining@[p as int] == unmet(edges, p, met_now) + count_of(
                            dependents@.skip(k as int),
                            p,
                        )
                        &&& self.remaining@[p as int] > 0
                    },
                forall|p: usize|
                    p < count && before[p as int] is Waiting && #[trigger] self.states@[p as int]
                        is Running ==> unmet(edges, p, met_now) == 0,
                admitted@.no_duplicates(),
                forall|p: usize|
                    admitted@.contains(p) <==> (p < count && before[p as int] is Waiting
                        && self.states@[p as int] is Running),
            decreases dependents.len() - k,
        {
            let dependent = dependents[k];
            proof {
                assert forall|p: usize| p < count implies count_of(dependents@.skip(k as int), p)
                    == count_of(dependents@.skip(k + 1), p) + if p == dependent {
                    1nat
                } else {
                    0nat
                } by {
                    lemma_count_of_skip(dependents@, p, k as int);
                }
            }
            let waits = match &self.states[dependent] {
                PackageState::Waiting => true,
                _ => false,
            };
            if waits {
                let left = self.remaining[dependent] - 1;
                self.remaining.set(dependent, left);
                if left == 0 {
                    let ghost admitted_before = admitted@;
                    self.states.set(dependent, PackageState::Running);
                    admitted.push(dependent);
                    proof {
                        assert forall|p: usize|
                            admitted@.contains(p) <==> (p < count && before[p as int] is Waiting
                                && self.states@[p as int] is Running) by {
                            if admitted@.contains(p) {
                                let i = choose|i: int| 0 <= i < admitted@.len() && admitted@[i] == p;
                                if i < admitted_before.len() {
                                    assert(admitted_before[i] == p);
                                    assert(admitted_before.contains(p));
                                }
                            }
                            if p < count && before[p as int] is Waiting && self.states@[p as int]
                                is Running {
                                if p == dependent {
                                    assert(admitted@[admitted@.len() - 1] == p);
                                } else {
                                    assert(admitted_before.contains(p));
                                    let i = choose|i: int|
                                        0 <= i < admitted_before.len() && admitted_before[i] == p;
                                    assert(admitted@[i] == p);
                                }
                            }
                        }
                        assert(!admitted_before.contains(dependent));
                    }
                }
            }
            k += 1;
        }
        proof {
            let after = self.states@;
            assert(after =~= next_states(graph, before, finished, Ok(())));
            lemma_success_consistent(graph, before, finished);
        }
        admitted
    }

    /// The failure half of [`Scheduler::complete`]: walks from the failed
    /// package along the edges and skips every waiting package it meets.
    fn complete_failure(&mut self, graph: &DepGraph, finished: usize, detail: String)
        requires
            graph.wf(),
            old(self).wf(graph),
            finished < old(self)@.len(),
            old(self)@[finished as int] is Running,
        ensures
            final(self).wf(graph),
            final(self)@ == next_states(graph, old(self)@, finished, Err(detail)),
    {
        let ghost before = self.states@;
        let ghost counters = self.remaining@;
        let ghost edges = graph.edges();
        let count = self.states.len();
        proof {
            graph.lemma_wf();
        }
        self.states.set(finished, PackageState::Finished(ExecutionOutcome::Failure(detail)));
        let mut worklist: Vec<usize> = Vec::new();
        worklist.push(finished);
        proof {
            assert(worklist@[0] == finished);
            assert forall|i: int|
                0 <= i < edges.len() && is_lost(self.states@[(#[trigger] edges[i]).0 as int])
                    && !worklist@.contains(edges[i].0) implies {
                ||| self.states@[edges[i].1 as int] is Excluded
                ||| self.states@[edges[i].1 as int] matches PackageState::Finished(
                    ExecutionOutcome::Skipped(_),
                )
            } by {
                assert(edges[i].0 != finished);
                assert(is_lost(before[edges[i].0 as int]));
                assert(edges[i].1 != finished);
            }
        }
        while worklist.len() > 0
            invariant
                graph.wf(),
                consistent(graph, before),
                edges == graph.edges(),
                count == before.len(),
                self.states@.len() == count,
                self.remaining@ == counters,
                finished < count,
                before[finished as int] is Running,
                self.states@[finished as int] == PackageState::Finished(
                    ExecutionOutcome::Failure(detail),
                ),
                forall|p: usize|
                    p < count && p != finished ==> {
                        ||| #[trigger] self.states@[p as int] == before[p as int]
                        ||| {
                            &&& before[p as int] is Waiting
                            &&& self.states@[p as int] == PackageState::Finished(
                                ExecutionOutcome::Skipped(finished),
                            )
                            &&& graph.needs(p, finished)
                        }
                    },
                forall|i: int|
                    0 <= i < worklist@.len() ==> {
                        &&& (#[trigger] worklist@[i]) < count
                        &&& is_lost(self.states@[worklist@[i] as int])
                        &&& !(before[worklist@[i] as int] is Excluded)
                        &&& !(before[worklist@[i] as int] matches PackageState::Finished(
                            ExecutionOutcome::Success,
                        ))
                        &&& (worklist@[i] == finished || graph.needs(worklist@[i], finished))
                    },
                forall|i: int|
                    0 <= i < edges.len() && is_lost(self.states@[(#[trigger] edges[i]).0 as int])
                        && !worklist@.contains(edges[i].0) ==> {
                        ||| self.states@[edges[i].1 as int] is Excluded
                        ||| self.states@[edges[i].1 as int] matches PackageState::Finished(
                            ExecutionOutcome::Skipped(_),
                        )
                    },
            decreases count_unmarked(not_waiting(self.states@)), worklist.len(),
        {
            let ghost worklist_before = worklist@;
            let ghost states_before = self.states@;
            let source = worklist.pop().unwrap();
            assert(worklist_before[worklist_before.len() - 1] == source);
            proof {
                assert forall|i: int|
                    0 <= i < edges.len() && is_lost(self.states@[(#[trigger] edges[i]).0 as int])
                        && edges[i].0 != source && !worklist@.contains(edges[i].0) implies {
                    ||| self.states@[edges[i].1 as int] is Excluded
                    ||| self.states@[edges[i].1 as int] matches PackageState::Finished(
                        ExecutionOutcome::Skipped(_),
                    )
                } by {
                    if worklist_before.contains(edges[i].0) {
                        let j = choose|j: int|
                            0 <= j < worklist_before.len() && worklist_before[j] == edges[i].0;
                        assert(worklist@[j] == edges[i].0);
                    }
                }
            }
            let dependents = graph.dependents_of(source);
            let mut k: usize = 0;
            while k < dependents.len()
                invariant
                    k <= dependents.len(),
                    graph.wf(),
                    consistent(graph, before),
                    edges == graph.edges(),
                    count == before.len(),
                    self.states@.len() == count,
                    self.remaining@ == counters,
                    finished < count,
                    source < count,
                    before[finished as int] is Running,
                    is_lost(self.states@[source as int]),
                    !(before[source as int] is Excluded),
                    !(before[source as int] matches PackageState::Finished(
                        ExecutionOutcome::Success,
                    )),
                    source == finished || graph.needs(source, finished),
                    dependents@ == targets_from(edges, source),
                    forall|i: int|
                        0 <= i < dependents@.len() ==> (#[trigger] dependents@[i]) < count,
                    self.states@[finished as int] == PackageState::Finished(
                        ExecutionOutcome::Failure(detail),
                    ),
                    forall|p: usize|
                        p < count && p != finished ==> {
                            ||| #[trigger] self.states@[p as int] == before[p as int]
                            ||| {
                                &&& before[p as int] is Waiting
                                &&& self.states@[p as int] == PackageState::Finished(
                                    ExecutionOutcome::Skipped(finished),
                                )
                                &&& graph.needs(p, finished)
                            }
                        },
                    forall|i: int|
                        0 <= i < worklist@.len() ==> {
                            &&& (#[trigger] worklist@[i]) < count
                            &&& is_lost(self.states@[worklist@[i] as int])
                            &&& !(before[worklist@[i] as int] is Excluded)
                            &&& !(before[worklist@[i] as int] matches PackageState::Finished(
                                ExecutionOutcome::Success,
                            ))
                            &&& (worklist@[i] == finished || graph.needs(worklist@[i], finished))
                        },
                    forall|i: int|
                        0 <= i < edges.len() && is_lost(
                            self.states@[(#[trigger] edges[i]).0 as int],
                        ) && edges[i].0 != source && !worklist@.contains(edges[i].0) ==> {
                            ||| self.states@[edges[i].1 as int] is Excluded
                            ||| self.states@[edges[i].1 as int] matches PackageState::Finished(
                                ExecutionOutcome::Skipped(_),
                            )
                        },
                    forall|j: int|
                        0 <= j < k ==> {
                            ||| self.states@[(#[trigger] dependents@[j]) as int] is Excluded
                            ||| self.states@[dependents@[j] as int] matches PackageState::Finished(
                                ExecutionOutcome::Skipped(_),
                            )
                        },
                    worklist@.len() + 1 >= worklist_before.len(),
                    count_unmarked(not_waiting(self.states@)) <= count_unmarked(
                        not_waiting(states_before),
                    ),
                    worklist@.len() >= worklist_before.len() ==> count_unmarked(
                        not_waiting(self.states@),
                    ) < count_unmarked(not_waiting(states_before)),
                decreases dependents.len() - k,
            {
                let dependent = dependents[k];
                proof {
                    assert(dependents@.contains(dependent));
                    lemma_targets_from_contains(edges, source, dependent);
                    let i = choose|i: int| 0 <= i < edges.len() && edges[i] == (source, dependent);
                    assert(edges[i].1 == dependent && edges[i].0 == source);
                    assert(!met(before).contains(source));
                    assert(!is_started(before[dependent as int]));
                }
                let waits = match &self.states[dependent] {
                    PackageState::Waiting => true,
                    _ => false,
                };
                if waits {
                    let ghost states_then = self.states@;
                    let ghost worklist_then = worklist@;
                    self.states.set(
                        dependent,
                        PackageState::Finished(ExecutionOutcome::Skipped(finished)),
                    );
                    worklist.push(dependent);
                    proof {
                        lemma_reaches_then_edge(edges, finished, source, dependent);
                        lemma_marks_grow(
                            not_waiting(states_then),
                            not_waiting(self.states@),
                            dependent as int,
                        );
                        assert(worklist@[worklist@.len() - 1] == dependent);
                        assert(worklist@.contains(dependent));
                        assert forall|i: int|
                            0 <= i < edges.len() && is_lost(
                                self.states@[(#[trigger] edges[i]).0 as int],
                            ) && edges[i].0 != source && !worklist@.contains(
                                edges[i].0,
                            ) implies {
                            ||| self.states@[edges[i].1 as int] is Excluded
                            ||| self.states@[edges[i].1 as int] matches PackageState::Finished(
                                ExecutionOutcome::Skipped(_),
                            )
                        } by {
                            let from = edges[i].0;
                            graph.lemma_wf();
                            assert(from < count && edges[i].1 < count);
                            assert(from != dependent);
                            assert(self.states@[from as int] == states_then[from as int]);
                            if worklist_then.contains(from) {
                                let j = choose|j: int|
                                    0 <= j < worklist_then.len() && worklist_then[j] == from;
                                assert(worklist@[j] == from);
                            }
                            if edges[i].1 != dependent {
                                assert(self.states@[edges[i].1 as int]
                                    == states_then[edges[i].1 as int]);
                            }
                        }
                    }
                }
                k += 1;
            }
            proof {
                assert forall|i: int|
                    0 <= i < edges.len() && is_lost(self.states@[(#[trigger] edges[i]).0 as int])
                        && !worklist@.contains(edges[i].0) implies {
                    ||| self.states@[edges[i].1 as int] is Excluded
                    ||| self.states@[edges[i].1 as int] matches PackageState::Finished(
                        ExecutionOutcome::Skipped(_),
                    )
                } by {
                    if edges[i].0 == source {
                        assert(has_edge(edges, source, edges[i].1));
                        lemma_targets_from_contains(edges, source, edges[i].1);
                        let j = choose|j: int|
                            0 <= j < dependents@.len() && dependents@[j] == edges[i].1;
                        assert(dependents@[j] == edges[i].1);
                    }
                }
            }
        }
        proof {
            assert forall|i: int|
                0 <= i < edges.len() && is_lost(
                    self.states@[(#[trigger] edges[i]).0 as int],
                ) implies {
                ||| self.states@[edges[i].1 as int] is Excluded
                ||| self.states@[edges[i].1 as int] matches PackageState::Finished(
                    ExecutionOutcome::Skipped(_),
                )
            } by {
                assert(!worklist@.contains(edges[i].0));
            }
            lemma_failure_walked(graph, before, self.states@, finished, detail);
            lemma_failure_consistent(graph, before, finished, detail);
        }
    }

    /// Reports that the action of `finished` ended with `result`. Returns the
    /// packages that this admits: the caller starts their actions. A report
    /// for a package that is not running changes nothing and returns `None`.
    pub fn complete(&mut self, graph: &DepGraph, finished: usize, result: Result<(), String>) -> (admitted:
        Option<Vec<usize>>)
        requires
            graph.wf(),
            old(self).wf(graph),
        ensures
            final(self).wf(graph),
            admitted is Some <==> (finished < old(self)@.len()
                && old(self)@[finished as int] is Running),
            admitted is None ==> final(self)@ == old(self)@,
            admitted matches Some(packages) ==> {
                &&& final(self)@ == next_states(graph, old(self)@, finished, result)
                &&& packages@.no_duplicates()
                &&& forall|package: usize|
                    packages@.contains(package) <==> (package < old(self)@.len()
                        && old(self)@[package as int] is Waiting
                        && final(self)@[package as int] is Running)
            },
    {
        if finished >= self.states.len() {
            return None;
        }
        let runs = match &self.states[finished] {
            PackageState::Running => true,
            _ => false,
        };
        if !runs {
            return None;
        }
        match result {
            Ok(_) => Some(self.complete_success(graph, finished)),
            Err(detail) => {
                self.complete_failure(graph, finished, detail);
                Some(Vec::new())
            },
        }
    }

    /// The number of packages of the run's graph.
    pub fn package_count(&self) -> (count: usize)
        ensures
            count == self@.len(),
    {
        self.states.len()
    }

    /// Whether the action of `package` is admitted and not reported back yet.
    pub fn is_running(&self, package: usize) -> (running: bool)
        ensures
            running <==> (package < self@.len() && self@[package as int] is Running),
    {
        if package < self.states.len() {
            match &self.states[package] {
                PackageState::Running => true,
                _ => false,
            }
        } else {
            false
        }
    }

    /// The outcome of `package`, once it has one.
    pub fn outcome(&self, package: usize) -> (outcome: Option<ExecutionOutcome>)
        ensures
            outcome == if package < self@.len() {
                match self@[package as int] {
                    PackageState::Finished(outcome) => Some(outcome),
                    _ => None,
                }
            } else {
                None
            },
    {
        if package < self.states.len() {
            match &self.states[package] {
                PackageState::Finished(outcome) => Some(copy_outcome(outcome)),
                _ => None,
            }
        } else {
            None
        }
    }

    /// Whether the run is over: no package waits or runs.
    pub fn is_finished(&self) -> (finished: bool)
        ensures
            finished <==> forall|package: int|
                0 <= package < self@.len() ==> is_settled(#[trigger] self@[package]),
    {
        let mut package: usize = 0;
        while package < self.states.len()
            invariant
                package <= self.states@.len(),
                forall|p: int| 0 <= p < package ==> is_settled(#[trigger] self.states@[p]),
            decreases self.states@.len() - package,
        {
            let open = match &self.states[package] {
                PackageState::Waiting => true,
                PackageState::Running => true,
                _ => false,
            };
            if open {
                assert(!is_settled(self@[package as int]));
                return false;
            }
            package += 1;
        }
        true
    }

    /// The result of the run as a whole: success only if every package in
    /// scope succeeded.
    pub fn succeeded(&self) -> (success: bool)
        ensures
            success <==> forall|package: int|
                0 <= package < self@.len() ==> (#[trigger] self@[package] is Excluded
                    || self@[package] matches PackageState::Finished(ExecutionOutcome::Success)),
    {
        let mut package: usize = 0;
        while package < self.states.len()
            invariant
                package <= self.states@.len(),
                forall|p: int|
                    0 <= p < package ==> (#[trigger] self.states@[p] is Excluded
                        || self.states@[p] matches PackageState::Finished(
                        ExecutionOutcome::Success,
                    )),
            decreases self.states@.len() - package,
        {
            let good = match &self.states[package] {
                PackageState::Excluded => true,
                PackageState::Finished(ExecutionOutcome::Success) => true,
                _ => false,
            };
            if !good {
                assert(!(self@[package as int] is Excluded));
                return false;
            }
            package += 1;
        }
        true
    }

    /// The packages that failed or were skipped, in ascending order, each with
    /// its outcome: what a run has to tell its user when it did not succeed.
    pub fn unsuccessful(&self) -> (lost: Vec<(usize, ExecutionOutcome)>)
        ensures
            forall|i: int, j: int| 0 <= i < j < lost@.len() ==> lost@[i].0 < lost@[j].0,
            forall|i: int|
                0 <= i < lost@.len() ==> {
                    &&& (#[trigger] lost@[i]).0 < self@.len()
                    &&& self@[lost@[i].0 as int] == PackageState::Finished(lost@[i].1)
                    &&& !(lost@[i].1 is Success)
                },
            forall|package: usize|
                package < self@.len() && is_lost(self@[package as int]) ==> exists|i: int|
                    0 <= i < lost@.len() && (#[trigger] lost@[i]).0 == package,
    {
        let mut lost: Vec<(usize, ExecutionOutcome)> = Vec::new();
        let mut package: usize = 0;
        while package < self.states.len()
            invariant
                package <= self.states@.len(),
                forall|i: int, j: int| 0 <= i < j < lost@.len() ==> lost@[i].0 < lost@[j].0,
                forall|i: int|
                    0 <= i < lost@.len() ==> {
                        &&& (#[trigger] lost@[i]).0 < package
                        &&& self.states@[lost@[i].0 as int] == PackageState::Finished(lost@[i].1)
                        &&& !(lost@[i].1 is Success)
                    },
                forall|p: usize|
                    p < package && is_lost(self.states@[p as int]) ==> exists|i: int|
                        0 <= i < lost@.len() && (#[trigger] lost@[i]).0 == p,
            decreases self.states@.len() - package,
        {
            let ghost before = lost@;
            match &self.states[package] {
                PackageState::Finished(outcome) => {
                    match outcome {
                        ExecutionOutcome::Success => {},
                        _ => {
                            lost.push((package, copy_outcome(outcome)));
                        },
                    }
                },
                _ => {},
            }
            proof {
                assert forall|p: usize|
                    p < package + 1 && is_lost(self.states@[p as int]) implies exists|i: int|
                    0 <= i < lost@.len() && (#[trigger] lost@[i]).0 == p by {
                    if p < package {
                        let i = choose|i: int|
                            0 <= i < before.len() && (#[trigger] before[i]).0 == p;
                        assert(lost@[i].0 == p);
                    } else {
                        assert(lost@[lost@.len() - 1].0 == p);
                    }
                }
            }
            package += 1;
        }
        lost
    }

    /// Ends the bookkeeping and hands out the state of every package.
    pub fn into_states(self) -> (states: Vec<PackageState>)
        ensures
            states@ == self@,
    {
        self.states
    }
}

/// A state that holds a success or a failure holds what `action` returned for
/// the package.
pub open spec fn reported_by<F: Fn(usize) -> Result<(), String>>(
    action: F,
    package: usize,
    state: PackageState,
) -> bool {
    match state {
        PackageState::Finished(ExecutionOutcome::Success) => call_ensures(
            action,
            (package,),
            Ok(()),
        ),
        PackageState::Finished(ExecutionOutcome::Failure(detail)) => call_ensures(
            action,
            (package,),
            Err(detail),
        ),
        _ => true,
    }
}

/// Runs `action` for every package of `scope`, one package at a time, in an
/// order that the dependencies allow, and returns the state in which each
/// package ended.
pub fn run_sequentially<F: Fn(usize) -> Result<(), String>>(
    graph: &DepGraph,
    scope: Scope,
    action: F,
) -> (states: Vec<PackageState>)
    requires
        graph.wf(),
        forall|package: usize|
            package < graph.spec_package_count() && scope.covers(graph, package) ==> call_requires(
                action,
                (package,),
            ),
    ensures
        consistent(graph, states@),
        forall|package: usize|
            package < states@.len() ==> (#[trigger] states@[package as int] is Excluded
                <==> !scope.covers(graph, package)),
        forall|package: usize|
            package < states@.len() ==> is_settled(#[trigger] states@[package as int]),
        forall|package: usize|
            package < states@.len() ==> reported_by(action, package, #[trigger] states@[package as int]),
        (forall|package: usize, result: Result<(), String>|
            #[trigger] call_ensures(action, (package,), result) ==> result is Ok) ==> forall|
            package: usize,
        |
            package < states@.len() && scope.covers(graph, package)
                ==> #[trigger] states@[package as int] == PackageState::Finished(
                ExecutionOutcome::Success,
            ),
{
    let ghost never_fails = forall|package: usize, result: Result<(), String>|
        #[trigger] call_ensures(action, (package,), result) ==> result is Ok;
    let (mut scheduler, mut worklist) = Scheduler::new(graph, scope);
    proof {
        lemma_initial_consistent(graph, scope);
        assert forall|i: int, j: int| 0 <= i < j < worklist@.len() implies worklist@[i]
            != worklist@[j] by {}
    }
    while worklist.len() > 0
        invariant
            graph.wf(),
            scheduler.wf(graph),
            scheduler@.len() == graph.spec_package_count(),
            never_fails == (forall|package: usize, result: Result<(), String>|
                #[trigger] call_ensures(action, (package,), result) ==> result is Ok),
            forall|package: usize|
                package < graph.spec_package_count() && scope.covers(graph, package)
                    ==> call_requires(action, (package,)),
            worklist@.no_duplicates(),
            forall|package: usize|
                worklist@.contains(package) <==> (package < scheduler@.len()
                    && scheduler@[package as int] is Running),
            forall|package: usize|
                package < scheduler@.len() ==> (#[trigger] scheduler@[package as int] is Excluded
                    <==> !scope.covers(graph, package)),
            forall|package: usize|
                package < scheduler@.len() ==> reported_by(
                    action,
                    package,
                    #[trigger] scheduler@[package as int],
                ),
            never_fails ==> forall|package: usize|
                package < scheduler@.len() ==> !is_lost(#[trigger] scheduler@[package as int]),
        decreases count_unmarked(settled(scheduler@)),
    {
        let ghost before = scheduler@;
        let ghost worklist_before = worklist@;
        let package = worklist.pop().unwrap();
        proof {
            assert(worklist_before[worklist_before.len() - 1] == package);
            assert(worklist_before.contains(package));
        }
        let result = action(package);
        let ghost reported = result;
        let admitted = scheduler.complete(graph, package, result);
        let mut more = match admitted {
            Some(more) => more,
            None => Vec::new(),
        };
        proof {
            let after = scheduler@;
            assert(after == next_states(graph, before, package, reported));
            lemma_marks_grow(settled(before), settled(after), package as int);
            assert forall|i: int, j: int|
                0 <= i < worklist@.len() && 0 <= j < more@.len() implies worklist@[i]
                != more@[j] by {
                assert(worklist_before[i] == worklist@[i]);
                assert(worklist_before.contains(worklist@[i]));
                assert(more@.contains(more@[j]));
            }
            vstd::seq_lib::lemma_no_dup_in_concat(worklist@, more@);
            let joined = worklist@ + more@;
            assert forall|p: usize|
                joined.contains(p) <==> (p < after.len() && after[p as int] is Running) by {
                if joined.contains(p) {
                    let i = choose|i: int| 0 <= i < joined.len() && joined[i] == p;
                    if i < worklist@.len() {
                        assert(worklist_before[i] == p);
                        assert(worklist_before.contains(p));
                        assert(p != package);
                    } else {
                        assert(more@[i - worklist@.len()] == p);
                        assert(more@.contains(p));
                    }
                }
                if p < after.len() && after[p as int] is Running {
                    if before[p as int] is Running {
                        assert(worklist_before.contains(p));
                        let i = choose|i: int|
                            0 <= i < worklist_before.len() && worklist_before[i] == p;
                        assert(i < worklist@.len());
                        assert(joined[i] == p);
                    } else {
                        assert(more@.contains(p));
                        let j = choose|j: int| 0 <= j < more@.len() && more@[j] == p;
                        assert(joined[worklist@.len() + j] == p);
                    }
                }
            }
            match reported {
                Ok(unit) => {
                    assert(unit == ());
                    assert(reported == Ok::<(), String>(()));
                },
                Err(_) => {},
            }
        }
        worklist.append(&mut more);
    }
    proof {
        scheduler.lemma_consistent(graph);
        assert forall|package: usize| package < scheduler@.len() implies !(
        #[trigger] scheduler@[package as int] is Running) by {
            if scheduler@[package as int] is Running {
                assert(worklist@.contains(package));
            }
        }
        lemma_idle_means_done(graph, scheduler@);
    }
    scheduler.into_states()
}

} // verus!
