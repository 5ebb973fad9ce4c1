//! `init`: links the tools that the packages need into their `node_modules`.

use vstd::prelude::*;

use crate::workspace::package::{PackageName, Platform, Target};
use crate::workspace::PackageCommand;

verus! {

/// The arguments of `init`.
#[derive(Debug, Clone, Copy, PartialEq, Eq, Default, Structural)]
pub struct InitArgs {}

/// The `init` command.
pub struct InitCommand {
    #[allow(unused)]
    args: InitArgs,
}

/// The tools linked into the workspace root.
pub open spec fn workspace_links() -> Seq<&'static str> {
    seq!["@trivago/prettier-plugin-sort-imports"]
}

/// The tools linked into a package: the bundler that its target asks for, the
/// browser stand-in where it runs in a browser, and the test tools.
pub open spec fn package_links(target: Target, platform: Platform) -> Seq<&'static str> {
    let bundler: Seq<&'static str> = match target {
        Target::Script => seq!["esbuild"],
        Target::Site => seq!["@vitejs/plugin-react"],
        Target::Lib => seq![],
    };
    let stand_in: Seq<&'static str> = match platform {
        Platform::Browser => seq!["jsdom"],
        Platform::Node => seq![],
    };
    bundler + stand_in + seq!["vite", "vitest"]
}

/// The directory that holds the packages of a scope, if the name has one: an
/// `@` followed by the scope.
pub open spec fn scope_directory(name: PackageName) -> Option<Seq<char>> {
    match name.scope {
        Some(scope) => Some(seq!['@'] + scope@),
        None => None,
    }
}

impl InitCommand {
    /// The arguments the command was made with.
    pub closed spec fn args(&self) -> InitArgs {
        self.args
    }

    pub fn new(args: InitArgs) -> (command: InitCommand)
        ensures
            command.args() == args,
    {
        InitCommand { args }
    }

    /// The tools to link into the workspace root.
    pub fn workspace_packages_to_link(&self) -> (links: Vec<&'static str>)
        ensures
            links@ == workspace_links(),
    {
        let mut links: Vec<&'static str> = Vec::new();
        links.push("@trivago/prettier-plugin-sort-imports");
        assert(links@ =~= workspace_links());
        links
    }

    /// The tools to link into a package of this target and platform.
    pub fn packages_to_link(&self, target: Target, platform: Platform) -> (links: Vec<
        &'static str,
    >)
        ensures
            links@ == package_links(target, platform),
    {
        let mut links: Vec<&'static str> = Vec::new();
        match target {
            Target::Script => {
                links.push("esbuild");
            },
            Target::Site => {
                links.push("@vitejs/plugin-react");
            },
            Target::Lib => {},
        }
        match platform {
            Platform::Browser => {
                links.push("jsdom");
            },
            Platform::Node => {},
        }
        links.push("vite");
        links.push("vitest");
        assert(links@ =~= package_links(target, platform));
        links
    }

    /// The directory to create before a scoped package is linked.
    pub fn scope_directory_of(&self, name: &PackageName) -> (directory: Option<String>)
        ensures
            match scope_directory(*name) {
                Some(text) => directory matches Some(made) && made@ == text,
                None => directory is None,
            },
    {
        match &name.scope {
            Some(scope) => {
                let mut directory = "@".to_owned();
                proof {
                    reveal_strlit("@");
                    assert("@"@ =~= seq!['@']);
                }
                directory.append(scope.as_str());
                Some(directory)
            },
            None => None,
        }
    }
}

impl PackageCommand for InitCommand {
    /// `init` runs for every package.
    fn only_run(&self) -> (selected: Option<&PackageName>)
        ensures
            selected is None,
    {
        None
    }
}

} // verus!
