//! The workspace: its packages, their dependency graph, and the scheduler.

pub mod cycle;
pub mod dep_graph;
pub mod digraph;
pub mod marks;
pub mod package;
pub mod relation;
pub mod resolver;
pub mod runner;
pub mod schedule;

pub use self::dep_graph::{CycleError, DepGraph};
pub use self::package::{Package, PackageName, Platform, Target};
pub use self::resolver::{find_workspace_root, workspace_root_candidates, ResolutionError};

use self::dep_graph::declared_edges;
use self::package::{find_package, resolve, PackageNameView};
use self::relation::acyclic;
use self::schedule::Scope;
use std::sync::Arc;
use vstd::prelude::*;

verus! {

/// What the tool has set up once for all workspaces.
#[derive(Debug, Clone)]
pub struct GlobalConfig {
    /// The directory in which the tool keeps its shared installation.
    pub root: String,
}

/// A loaded workspace.
pub struct WorkspaceInner {
    /// The workspace root.
    pub root: String,
    /// The packages; each package's index is its position.
    pub packages: Vec<Package>,
    /// Whether the workspace holds its packages in a `packages` directory,
    /// or is one package itself.
    pub monorepo: bool,
    pub global_config: GlobalConfig,
    pub dep_graph: DepGraph,
}

/// A loaded workspace, shared by everything that runs over it. Nothing changes
/// it after it was loaded.
#[derive(Clone)]
pub struct Workspace(Arc<WorkspaceInner>);

/// Every package's index is its position in the list.
pub open spec fn indexed(packages: Seq<Package>) -> bool {
    forall|i: int| 0 <= i < packages.len() ==> (#[trigger] packages[i]).index == i
}

/// The packages that a command covers: all of them where no package is named;
/// else the named package, with what it needs unless dependencies are to be
/// ignored. A name of no package selects nothing.
pub open spec fn selected_scope(
    packages: Seq<Package>,
    only_run: Option<PackageNameView>,
    ignore_dependencies: bool,
) -> Option<Scope> {
    match only_run {
        None => Some(Scope::All),
        Some(name) => match resolve(packages, name) {
            Some(target) => Some(
                if ignore_dependencies {
                    Scope::Only(target)
                } else {
                    Scope::WithDependencies(target)
                },
            ),
            None => None,
        },
    }
}

impl WorkspaceInner {
    /// The workspace's invariant: the packages are indexed by position, and
    /// the graph is the graph of their declared dependencies.
    pub open spec fn wf(&self) -> bool {
        &&& indexed(self.packages@)
        &&& self.dep_graph.wf()
        &&& self.dep_graph.spec_package_count() == self.packages@.len()
        &&& self.dep_graph.edges() == declared_edges(self.packages@)
    }

    /// The packages that a command covers.
    pub fn scope_for(&self, only_run: Option<&PackageName>, ignore_dependencies: bool) -> (scope:
        Option<Scope>)
        ensures
            scope == selected_scope(
                self.packages@,
                match only_run {
                    Some(name) => Some(name@),
                    None => None,
                },
                ignore_dependencies,
            ),
    {
        match only_run {
            None => Some(Scope::All),
            Some(name) => match find_package(&self.packages, name) {
                Some(target) => Some(
                    if ignore_dependencies {
                        Scope::Only(target)
                    } else {
                        Scope::WithDependencies(target)
                    },
                ),
                None => None,
            },
        }
    }
}

impl Workspace {
    /// What the workspace holds.
    pub closed spec fn inner(&self) -> WorkspaceInner {
        *self.0
    }

    /// Puts a workspace together from what was found on disk: builds the
    /// dependency graph of the packages, and fails where they depend on each
    /// other in a cycle.
    pub fn load(global_config: GlobalConfig, root: String, monorepo: bool, packages: Vec<Package>) -> (loaded:
        Result<Workspace, CycleError>)
        requires
            indexed(packages@),
            packages@.len() <= u32::MAX,
            declared_edges(packages@).len() <= u32::MAX,
        ensures
            loaded is Ok <==> acyclic(declared_edges(packages@)),
            loaded matches Ok(workspace) ==> {
                &&& workspace.inner().wf()
                &&& workspace.inner().root == root
                &&& workspace.inner().monorepo == monorepo
                &&& workspace.inner().packages == packages
                &&& workspace.inner().global_config == global_config
            },
            loaded matches Err(error) ==> {
                &&& relation::closed_walk(declared_edges(packages@), error.cycle@)
                &&& error.package == error.cycle@[0]
            },
    {
        match DepGraph::build(&packages) {
            Ok(dep_graph) => Ok(
                Workspace(
                    Arc::new(WorkspaceInner { root, packages, monorepo, global_config, dep_graph }),
                ),
            ),
            Err(error) => Err(error),
        }
    }

    /// What the workspace holds.
    pub fn get(&self) -> (inner: &WorkspaceInner)
        ensures
            *inner == self.inner(),
    {
        &*self.0
    }
}

impl std::ops::Deref for Workspace {
    type Target = WorkspaceInner;

    fn deref(&self) -> (inner: &WorkspaceInner)
        ensures
            *inner == self.inner(),
    {
        &*self.0
    }
}

/// A command that runs once per package.
pub trait PackageCommand {
    /// The one package to run the command for, if the user named one.
    fn only_run(&self) -> Option<&PackageName>;

    /// Whether to leave out the packages that the named package needs. A
    /// command that says nothing else runs them too.
    fn ignore_dependencies(&self) -> (ignored: bool)
        default_ensures
            !ignored,
    {
        false
    }
}

} // verus!
