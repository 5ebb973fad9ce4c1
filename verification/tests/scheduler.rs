use graco::workspace::package::{Package, PackageName, Platform, Target};
use graco::workspace::runner::{
    run_sequentially, ExecutionOutcome, PackageState, Scheduler, Scope,
};
use graco::workspace::DepGraph;
use std::cell::RefCell;

fn pkg(index: usize, name: &str, dependencies: &[&str]) -> Package {
    Package {
        index,
        name: PackageName { scope: None, name: name.to_string() },
        root: format!("/ws/packages/{name}"),
        dependencies: dependencies
            .iter()
            .map(|d| PackageName { scope: None, name: d.to_string() })
            .collect(),
        target: Target::Lib,
        platform: Platform::Node,
    }
}

/// a <- b <- c
fn chain() -> DepGraph {
    DepGraph::build(&vec![pkg(0, "a", &[]), pkg(1, "b", &["a"]), pkg(2, "c", &["b"])]).unwrap()
}

/// a <- b <- d, a <- c <- d, and e alone.
fn diamond() -> DepGraph {
    DepGraph::build(&vec![
        pkg(0, "a", &[]),
        pkg(1, "b", &["a"]),
        pkg(2, "c", &["a"]),
        pkg(3, "d", &["b", "c"]),
        pkg(4, "e", &[]),
    ])
    .unwrap()
}

fn success() -> PackageState {
    PackageState::Finished(ExecutionOutcome::Success)
}

fn failure(detail: &str) -> PackageState {
    PackageState::Finished(ExecutionOutcome::Failure(detail.to_string()))
}

fn skipped(cause: usize) -> PackageState {
    PackageState::Finished(ExecutionOutcome::Skipped(cause))
}

#[test]
fn chain_runs_one_after_the_other() {
    let graph = chain();
    let (mut scheduler, ready) = Scheduler::new(&graph, Scope::All);
    assert_eq!(ready, vec![0]);
    assert!(scheduler.is_running(0));
    assert!(!scheduler.is_running(1));
    assert!(!scheduler.is_running(2));
    assert!(!scheduler.is_finished());

    // b starts only once a has completed, c only once b has
    assert_eq!(scheduler.complete(&graph, 0, Ok(())), Some(vec![1]));
    assert!(scheduler.is_running(1));
    assert!(!scheduler.is_running(2));
    assert_eq!(scheduler.complete(&graph, 1, Ok(())), Some(vec![2]));
    assert!(scheduler.is_running(2));
    assert_eq!(scheduler.complete(&graph, 2, Ok(())), Some(vec![]));

    assert!(scheduler.is_finished());
    assert!(scheduler.succeeded());
    assert_eq!(scheduler.into_states(), vec![success(), success(), success()]);
}

#[test]
fn failure_skips_the_dependents() {
    let graph = chain();
    let (mut scheduler, ready) = Scheduler::new(&graph, Scope::All);
    assert_eq!(ready, vec![0]);
    assert_eq!(scheduler.complete(&graph, 0, Ok(())), Some(vec![1]));
    assert_eq!(scheduler.complete(&graph, 1, Err("boom".to_string())), Some(vec![]));
    assert!(scheduler.is_finished());
    assert!(!scheduler.succeeded());
    assert_eq!(scheduler.outcome(0), Some(ExecutionOutcome::Success));
    assert_eq!(scheduler.outcome(1), Some(ExecutionOutcome::Failure("boom".to_string())));
    assert_eq!(scheduler.outcome(2), Some(ExecutionOutcome::Skipped(1)));
    assert!(!scheduler.is_running(2));
}

#[test]
fn independent_packages_run_at_the_same_time() {
    let graph = DepGraph::build(&vec![pkg(0, "a", &[]), pkg(1, "b", &[])]).unwrap();
    let (mut scheduler, ready) = Scheduler::new(&graph, Scope::All);
    // both are admitted before either has completed
    assert_eq!(ready, vec![0, 1]);
    assert!(scheduler.is_running(0) && scheduler.is_running(1));
    assert_eq!(scheduler.complete(&graph, 1, Ok(())), Some(vec![]));
    assert!(scheduler.is_running(0));
    assert_eq!(scheduler.complete(&graph, 0, Ok(())), Some(vec![]));
    assert!(scheduler.succeeded());
    assert_eq!(scheduler.into_states(), vec![success(), success()]);
}

#[test]
fn a_dependent_starts_as_soon_as_its_own_dependencies_are_done() {
    // a <- b, c <- d: b does not wait for c, its sibling in the first layer
    let graph = DepGraph::build(&vec![
        pkg(0, "a", &[]),
        pkg(1, "b", &["a"]),
        pkg(2, "c", &[]),
        pkg(3, "d", &["c"]),
    ])
    .unwrap();
    let (mut scheduler, ready) = Scheduler::new(&graph, Scope::All);
    assert_eq!(ready, vec![0, 2]);
    assert_eq!(scheduler.complete(&graph, 0, Ok(())), Some(vec![1]));
    assert!(scheduler.is_running(2));
    assert_eq!(scheduler.complete(&graph, 1, Ok(())), Some(vec![]));
    assert_eq!(scheduler.complete(&graph, 2, Ok(())), Some(vec![3]));
    assert_eq!(scheduler.complete(&graph, 3, Ok(())), Some(vec![]));
    assert!(scheduler.succeeded());
}

#[test]
fn a_package_waits_for_all_its_dependencies() {
    let graph = diamond();
    let (mut scheduler, ready) = Scheduler::new(&graph, Scope::All);
    assert_eq!(ready, vec![0, 4]);
    let mut admitted = scheduler.complete(&graph, 0, Ok(())).unwrap();
    admitted.sort();
    assert_eq!(admitted, vec![1, 2]);
    assert_eq!(scheduler.complete(&graph, 1, Ok(())), Some(vec![]));
    assert!(!scheduler.is_running(3));
    assert_eq!(scheduler.complete(&graph, 2, Ok(())), Some(vec![3]));
    assert!(scheduler.is_running(3));
}

#[test]
fn a_failure_leaves_unrelated_branches_alone() {
    let graph = diamond();
    let (mut scheduler, _) = Scheduler::new(&graph, Scope::All);
    scheduler.complete(&graph, 0, Ok(())).unwrap();
    // b fails while c still runs: d is lost, c and e go on
    assert_eq!(scheduler.complete(&graph, 1, Err("b broke".to_string())), Some(vec![]));
    assert_eq!(scheduler.outcome(3), Some(ExecutionOutcome::Skipped(1)));
    assert!(scheduler.is_running(2));
    assert!(scheduler.is_running(4));
    assert!(!scheduler.is_finished());
    assert_eq!(scheduler.complete(&graph, 2, Ok(())), Some(vec![]));
    assert_eq!(scheduler.complete(&graph, 4, Err("e broke".to_string())), Some(vec![]));
    assert!(scheduler.is_finished());
    assert!(!scheduler.succeeded());
    assert_eq!(
        scheduler.unsuccessful(),
        vec![
            (1, ExecutionOutcome::Failure("b broke".to_string())),
            (3, ExecutionOutcome::Skipped(1)),
            (4, ExecutionOutcome::Failure("e broke".to_string())),
        ]
    );
    assert_eq!(
        scheduler.into_states(),
        vec![success(), failure("b broke"), success(), skipped(1), failure("e broke")]
    );
}

#[test]
fn a_failure_at_the_root_skips_everything_that_needs_it() {
    let graph = diamond();
    let (mut scheduler, _) = Scheduler::new(&graph, Scope::All);
    assert_eq!(scheduler.complete(&graph, 0, Err("a broke".to_string())), Some(vec![]));
    assert_eq!(scheduler.outcome(1), Some(ExecutionOutcome::Skipped(0)));
    assert_eq!(scheduler.outcome(2), Some(ExecutionOutcome::Skipped(0)));
    assert_eq!(scheduler.outcome(3), Some(ExecutionOutcome::Skipped(0)));
    assert_eq!(scheduler.outcome(4), None);
    assert!(scheduler.is_running(4));
}

#[test]
fn the_first_failure_is_the_cause_of_a_skip() {
    let graph = diamond();
    let (mut scheduler, _) = Scheduler::new(&graph, Scope::All);
    scheduler.complete(&graph, 0, Ok(())).unwrap();
    scheduler.complete(&graph, 2, Err("c broke".to_string())).unwrap();
    scheduler.complete(&graph, 1, Err("b broke".to_string())).unwrap();
    assert_eq!(scheduler.outcome(3), Some(ExecutionOutcome::Skipped(2)));
}

#[test]
fn a_report_for_a_package_that_does_not_run_changes_nothing() {
    let graph = chain();
    let (mut scheduler, _) = Scheduler::new(&graph, Scope::All);
    assert_eq!(scheduler.complete(&graph, 1, Ok(())), None);
    assert_eq!(scheduler.complete(&graph, 7, Ok(())), None);
    assert_eq!(scheduler.complete(&graph, 0, Ok(())), Some(vec![1]));
    assert_eq!(scheduler.complete(&graph, 0, Err("late".to_string())), None);
    assert_eq!(scheduler.outcome(0), Some(ExecutionOutcome::Success));
    assert_eq!(scheduler.package_count(), 3);
}

#[test]
fn a_dependency_declared_twice_is_waited_for_once() {
    let graph = DepGraph::build(&vec![pkg(0, "a", &[]), pkg(1, "b", &["a", "a"])]).unwrap();
    let (mut scheduler, ready) = Scheduler::new(&graph, Scope::All);
    assert_eq!(ready, vec![0]);
    assert_eq!(scheduler.complete(&graph, 0, Ok(())), Some(vec![1]));
    assert_eq!(scheduler.complete(&graph, 1, Ok(())), Some(vec![]));
    assert!(scheduler.succeeded());
}

#[test]
fn scope_with_dependencies_covers_the_target_and_what_it_needs() {
    let graph = diamond();
    assert_eq!(Scope::All.members(&graph), vec![true; 5]);
    assert_eq!(Scope::WithDependencies(1).members(&graph), vec![true, true, false, false, false]);
    assert_eq!(Scope::WithDependencies(3).members(&graph), vec![true, true, true, true, false]);
    assert_eq!(Scope::Only(3).members(&graph), vec![false, false, false, true, false]);
    assert_eq!(Scope::Only(9).members(&graph), vec![false; 5]);
    assert_eq!(Scope::WithDependencies(9).members(&graph), vec![false; 5]);
}

#[test]
fn a_scoped_run_leaves_the_rest_out() {
    let graph = diamond();
    let (mut scheduler, ready) = Scheduler::new(&graph, Scope::WithDependencies(1));
    assert_eq!(ready, vec![0]);
    assert_eq!(scheduler.complete(&graph, 0, Ok(())), Some(vec![1]));
    assert_eq!(scheduler.complete(&graph, 1, Ok(())), Some(vec![]));
    assert!(scheduler.is_finished());
    assert!(scheduler.succeeded());
    assert_eq!(
        scheduler.into_states(),
        vec![
            success(),
            success(),
            PackageState::Excluded,
            PackageState::Excluded,
            PackageState::Excluded
        ]
    );
}

#[test]
fn ignoring_dependencies_runs_the_target_at_once() {
    let graph = diamond();
    let (mut scheduler, ready) = Scheduler::new(&graph, Scope::Only(3));
    assert_eq!(ready, vec![3]);
    assert_eq!(scheduler.complete(&graph, 3, Err("no build".to_string())), Some(vec![]));
    assert!(scheduler.is_finished());
    assert_eq!(scheduler.outcome(3), Some(ExecutionOutcome::Failure("no build".to_string())));
    assert_eq!(scheduler.outcome(0), None);
}

#[test]
fn an_empty_workspace_is_finished_at_once() {
    let graph = DepGraph::build(&[]).unwrap();
    let (scheduler, ready) = Scheduler::new(&graph, Scope::All);
    assert!(ready.is_empty());
    assert!(scheduler.is_finished());
    assert!(scheduler.succeeded());
}

#[test]
fn sequential_run_with_success_everywhere() {
    let graph = chain();
    let log = RefCell::new(Vec::new());
    let states = run_sequentially(&graph, Scope::All, |package| {
        log.borrow_mut().push(package);
        Ok(())
    });
    assert_eq!(states, vec![success(), success(), success()]);
    assert_eq!(log.into_inner(), vec![0, 1, 2]);
}

#[test]
fn sequential_run_twice_gives_the_same_outcomes() {
    let graph = diamond();
    let first = run_sequentially(&graph, Scope::All, |_| Ok(()));
    let second = run_sequentially(&graph, Scope::All, |_| Ok(()));
    assert_eq!(first, second);
    assert_eq!(first, vec![success(); 5]);
}

#[test]
fn sequential_run_never_calls_a_skipped_package() {
    let graph = chain();
    let log = RefCell::new(Vec::new());
    let states = run_sequentially(&graph, Scope::All, |package| {
        log.borrow_mut().push(package);
        if package == 1 {
            Err("b failed".to_string())
        } else {
            Ok(())
        }
    });
    assert_eq!(states, vec![success(), failure("b failed"), skipped(1)]);
    assert_eq!(log.into_inner(), vec![0, 1]);
}

#[test]
fn sequential_run_calls_a_package_after_its_dependencies() {
    let graph = diamond();
    let log = RefCell::new(Vec::new());
    let states = run_sequentially(&graph, Scope::All, |package| {
        log.borrow_mut().push(package);
        Ok(())
    });
    assert_eq!(states, vec![success(); 5]);
    let log = log.into_inner();
    assert_eq!(log.len(), 5);
    let place = |p: usize| log.iter().position(|&q| q == p).unwrap();
    assert!(place(0) < place(1));
    assert!(place(0) < place(2));
    assert!(place(1) < place(3));
    assert!(place(2) < place(3));
}

#[test]
fn sequential_run_over_a_scope() {
    let graph = diamond();
    let states = run_sequentially(&graph, Scope::WithDependencies(2), |_| Ok(()));
    assert_eq!(
        states,
        vec![
            success(),
            PackageState::Excluded,
            success(),
            PackageState::Excluded,
            PackageState::Excluded
        ]
    );
}
