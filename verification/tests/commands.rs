use graco::commands::init::{InitArgs, InitCommand};
use graco::commands::test::{vitest_command_line, TestArgs, TestCommand, TestError};
use graco::commands::{
    needs_global_config, needs_workspace, plan, CommandKind, Phase, RunMode, Step,
};
use graco::workspace::package::{PackageName, Platform, Target};
use graco::workspace::PackageCommand;

fn words(items: &[&str]) -> Vec<String> {
    items.iter().map(|w| w.to_string()).collect()
}

fn test_command(watch: bool, vitest_args: Option<&str>) -> TestCommand {
    TestCommand::new(TestArgs {
        watch,
        vitest_args: vitest_args.map(|a| a.to_string()),
        package: None,
    })
}

#[test]
fn init_links_the_formatter_plugin_into_the_workspace() {
    let init = InitCommand::new(InitArgs {});
    assert_eq!(init.workspace_packages_to_link(), vec!["@trivago/prettier-plugin-sort-imports"]);
}

#[test]
fn init_links_what_target_and_platform_ask_for() {
    let init = InitCommand::new(InitArgs::default());
    assert_eq!(
        init.packages_to_link(Target::Script, Platform::Node),
        vec!["esbuild", "vite", "vitest"]
    );
    assert_eq!(
        init.packages_to_link(Target::Site, Platform::Browser),
        vec!["@vitejs/plugin-react", "jsdom", "vite", "vitest"]
    );
    assert_eq!(init.packages_to_link(Target::Lib, Platform::Browser), vec!["jsdom", "vite", "vitest"]);
    assert_eq!(init.packages_to_link(Target::Lib, Platform::Node), vec!["vite", "vitest"]);
}

#[test]
fn init_makes_a_directory_for_a_scope() {
    let init = InitCommand::new(InitArgs {});
    let scoped = PackageName::parse("@trivago/prettier-plugin-sort-imports");
    assert_eq!(init.scope_directory_of(&scoped), Some("@trivago".to_string()));
    assert_eq!(init.scope_directory_of(&PackageName::parse("vite")), None);
}

#[test]
fn init_runs_for_every_package() {
    let init = InitCommand::new(InitArgs {});
    assert!(init.only_run().is_none());
    assert!(!init.ignore_dependencies());
}

#[test]
fn test_runs_for_the_named_package_and_what_it_needs() {
    let name = PackageName::parse("app");
    let command =
        TestCommand::new(TestArgs { watch: false, vitest_args: None, package: Some(name.clone()) });
    assert_eq!(command.only_run(), Some(&name));
    assert!(!command.ignore_dependencies());
    assert!(test_command(false, None).only_run().is_none());
}

#[test]
fn test_runs_nothing_in_a_package_without_tests() {
    assert_eq!(test_command(false, None).invocation(false), Ok(None));
    // not even the extra arguments are looked at
    assert_eq!(test_command(true, Some("'unclosed")).invocation(false), Ok(None));
}

#[test]
fn test_runs_once_or_watches() {
    assert_eq!(
        test_command(false, None).invocation(true),
        Ok(Some(words(&["run", "--passWithNoTests"])))
    );
    assert_eq!(
        test_command(true, None).invocation(true),
        Ok(Some(words(&["watch", "--passWithNoTests"])))
    );
}

#[test]
fn test_splits_the_extra_arguments_as_a_shell_would() {
    assert_eq!(
        test_command(false, Some("--reporter dot -t \"my test\" 'a b'")).invocation(true),
        Ok(Some(words(&["run", "--passWithNoTests", "--reporter", "dot", "-t", "my test", "a b"])))
    );
    assert_eq!(
        test_command(false, Some("")).invocation(true),
        Ok(Some(words(&["run", "--passWithNoTests"])))
    );
}

#[test]
fn test_rejects_extra_arguments_that_cannot_be_split() {
    assert_eq!(test_command(false, Some("\"unclosed")).invocation(true), Err(TestError::VitestArgs));
    assert_eq!(test_command(true, Some("trailing\\")).invocation(true), Err(TestError::VitestArgs));
}

#[test]
fn command_line_keeps_the_extra_words_in_order() {
    assert_eq!(
        vitest_command_line(true, words(&["b", "a"])),
        words(&["watch", "--passWithNoTests", "b", "a"])
    );
    assert_eq!(vitest_command_line(false, Vec::new()), words(&["run", "--passWithNoTests"]));
}

#[test]
fn plan_of_each_command() {
    let init = Step { command: CommandKind::Init, mode: RunMode::Both };
    let build = Step { command: CommandKind::Build, mode: RunMode::Packages };
    let test = Step { command: CommandKind::Test, mode: RunMode::Packages };
    assert_eq!(plan(CommandKind::Setup), vec![]);
    assert_eq!(plan(CommandKind::New), vec![]);
    assert_eq!(plan(CommandKind::Init), vec![init]);
    assert_eq!(plan(CommandKind::Build), vec![init, build]);
    assert_eq!(plan(CommandKind::Test), vec![init, build, test]);
    assert_eq!(
        plan(CommandKind::Fmt),
        vec![Step { command: CommandKind::Fmt, mode: RunMode::Packages }]
    );
    assert_eq!(
        plan(CommandKind::Clean),
        vec![Step { command: CommandKind::Clean, mode: RunMode::Both }]
    );
    assert_eq!(
        plan(CommandKind::Doc),
        vec![Step { command: CommandKind::Doc, mode: RunMode::Workspace }]
    );
}

#[test]
fn what_a_command_needs_before_it_runs() {
    assert!(!needs_global_config(CommandKind::Setup));
    assert!(needs_global_config(CommandKind::New));
    assert!(needs_global_config(CommandKind::Test));
    assert!(!needs_workspace(CommandKind::Setup));
    assert!(!needs_workspace(CommandKind::New));
    assert!(needs_workspace(CommandKind::Init));
    assert!(needs_workspace(CommandKind::Doc));
}

#[test]
fn a_combined_run_does_the_workspace_first() {
    assert_eq!(RunMode::Both.phases(), vec![Phase::Workspace, Phase::Packages]);
    assert_eq!(RunMode::Packages.phases(), vec![Phase::Packages]);
    assert_eq!(RunMode::Workspace.phases(), vec![Phase::Workspace]);
}
