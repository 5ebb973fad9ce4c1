//! The commands of the tool, and which runs each of them asks of the
//! workspace.

pub mod init;
pub mod test;

use vstd::prelude::*;

verus! {

/// The commands of the tool.
#[derive(Debug, Clone, Copy, PartialEq, Eq, Structural)]
pub enum CommandKind {
    Setup,
    New,
    Init,
    Build,
    Test,
    Fmt,
    Clean,
    Doc,
}

/// How a command is run over a workspace.
#[derive(Debug, Clone, Copy, PartialEq, Eq, Structural)]
pub enum RunMode {
    /// Once for the workspace as a whole, and when that is done, once for
    /// each package.
    Both,
    /// Once for each package, in dependency order.
    Packages,
    /// Once for the workspace as a whole.
    Workspace,
}

/// One run of one command.
#[derive(Debug, Clone, Copy, PartialEq, Eq, Structural)]
pub struct Step {
    pub command: CommandKind,
    pub mode: RunMode,
}

/// The runs that a command consists of, in order: a build initialises first, a
/// test initialises and builds first. Setting the tool up and creating a
/// package run nothing over a workspace.
pub open spec fn steps_of(command: CommandKind) -> Seq<Step> {
    let init = Step { command: CommandKind::Init, mode: RunMode::Both };
    let build = Step { command: CommandKind::Build, mode: RunMode::Packages };
    match command {
        CommandKind::Setup => seq![],
        CommandKind::New => seq![],
        CommandKind::Init => seq![init],
        CommandKind::Build => seq![init, build],
        CommandKind::Test => seq![
            init,
            build,
            Step { command: CommandKind::Test, mode: RunMode::Packages },
        ],
        CommandKind::Fmt => seq![Step { command: CommandKind::Fmt, mode: RunMode::Packages }],
        CommandKind::Clean => seq![Step { command: CommandKind::Clean, mode: RunMode::Both }],
        CommandKind::Doc => seq![Step { command: CommandKind::Doc, mode: RunMode::Workspace }],
    }
}

/// The runs that a command consists of, in order.
pub fn plan(command: CommandKind) -> (steps: Vec<Step>)
    ensures
        steps@ == steps_of(command),
{
    let init = Step { command: CommandKind::Init, mode: RunMode::Both };
    let build = Step { command: CommandKind::Build, mode: RunMode::Packages };
    let mut steps: Vec<Step> = Vec::new();
    match command {
        CommandKind::Setup => {},
        CommandKind::New => {},
        CommandKind::Init => {
            steps.push(init);
        },
        CommandKind::Build => {
            steps.push(init);
            steps.push(build);
        },
        CommandKind::Test => {
            steps.push(init);
            steps.push(build);
            steps.push(Step { command: CommandKind::Test, mode: RunMode::Packages });
        },
        CommandKind::Fmt => {
            steps.push(Step { command: CommandKind::Fmt, mode: RunMode::Packages });
        },
        CommandKind::Clean => {
            steps.push(Step { command: CommandKind::Clean, mode: RunMode::Both });
        },
        CommandKind::Doc => {
            steps.push(Step { command: CommandKind::Doc, mode: RunMode::Workspace });
        },
    }
    assert(steps@ =~= steps_of(command));
    steps
}

/// Whether a command reads the tool's global configuration: every command but
/// the one that writes it.
pub fn needs_global_config(command: CommandKind) -> (needed: bool)
    ensures
        needed <==> command != CommandKind::Setup,
{
    match command {
        CommandKind::Setup => false,
        _ => true,
    }
}

/// Whether a command runs over a loaded workspace.
pub fn needs_workspace(command: CommandKind) -> (needed: bool)
    ensures
        needed <==> steps_of(command).len() > 0,
{
    match command {
        CommandKind::Setup => false,
        CommandKind::New => false,
        _ => true,
    }
}

/// One part of a run.
#[derive(Debug, Clone, Copy, PartialEq, Eq, Structural)]
pub enum Phase {
    /// The command runs once, with the whole workspace before it.
    Workspace,
    /// The command runs once for each package, in dependency order.
    Packages,
}

impl RunMode {
    /// The parts of a run in this mode, in order. Where the command runs both
    /// for the workspace and for each package, the run for the workspace comes
    /// first and ends before any package's run starts: a package's run may
    /// count on what the workspace's run set up.
    pub open spec fn phases_of(self) -> Seq<Phase> {
        match self {
            RunMode::Both => seq![Phase::Workspace, Phase::Packages],
            RunMode::Packages => seq![Phase::Packages],
            RunMode::Workspace => seq![Phase::Workspace],
        }
    }

    /// The parts of a run in this mode, in order.
    pub fn phases(self) -> (phases: Vec<Phase>)
        ensures
            phases@ == self.phases_of(),
    {
        let mut phases: Vec<Phase> = Vec::new();
        match self {
            RunMode::Both => {
                phases.push(Phase::Workspace);
                phases.push(Phase::Packages);
            },
            RunMode::Packages => {
                phases.push(Phase::Packages);
            },
            RunMode::Workspace => {
                phases.push(Phase::Workspace);
            },
        }
        assert(phases@ =~= self.phases_of());
        phases
    }
}

} // verus!
