//! `test`: runs the test runner in every package that has tests.

use vstd::prelude::*;

use crate::workspace::package::PackageName;
use crate::workspace::PackageCommand;

verus! {

/// The arguments of `test`.
#[derive(Debug, Clone)]
pub struct TestArgs {
    /// Keep running and repeat the tests when a file changes.
    pub watch: bool,
    /// More arguments for the test runner, as one shell-quoted string.
    pub vitest_args: Option<String>,
    /// Test this package only.
    pub package: Option<PackageName>,
}

/// The `test` command.
pub struct TestCommand {
    args: TestArgs,
}

/// The extra arguments for the test runner cannot be split into words.
#[derive(Debug, Clone, Copy, PartialEq, Eq, Structural)]
pub enum TestError {
    VitestArgs,
}

/// The words into which `shlex::split` splits a string, or `None` where it
/// reports the string as erroneous.
pub uninterp spec fn shlex_words(input: Seq<char>) -> Option<Seq<Seq<char>>>;

/// The texts of a list of strings.
pub open spec fn texts(strings: Seq<String>) -> Seq<Seq<char>> {
    strings.map_values(|text: String| text@)
}

/// `shlex::split`. Trusted: its result is a function of the input string
/// alone, named [`shlex_words`].
#[verifier::external_body]
fn split_words(input: &str) -> (words: Option<Vec<String>>)
    ensures
        match shlex_words(input@) {
            Some(expected) => words matches Some(found) && texts(found@) == expected,
            None => words is None,
        },
{
    shlex::split(input)
}

/// The arguments of one call of the test runner: the subcommand, the flag
/// that lets a package without tests pass, and then the extra words.
pub open spec fn command_line(watch: bool, extra: Seq<Seq<char>>) -> Seq<Seq<char>> {
    seq![
        if watch {
            "watch"@
        } else {
            "run"@
        },
        "--passWithNoTests"@,
    ] + extra
}

/// The arguments of one call of the test runner.
pub fn vitest_command_line(watch: bool, extra: Vec<String>) -> (line: Vec<String>)
    ensures
        texts(line@) == command_line(watch, texts(extra@)),
{
    let mut line: Vec<String> = Vec::new();
    let subcommand = if watch {
        "watch"
    } else {
        "run"
    };
    line.push(subcommand.to_owned());
    line.push("--passWithNoTests".to_owned());
    let mut extra = extra;
    let ghost words = extra@;
    line.append(&mut extra);
    assert(texts(line@) =~= command_line(watch, texts(words)));
    line
}

impl TestCommand {
    /// The arguments the command was made with.
    pub closed spec fn args(&self) -> TestArgs {
        self.args
    }

    pub fn new(args: TestArgs) -> (command: TestCommand)
        ensures
            command.args() == args,
    {
        TestCommand { args }
    }

    /// What to run in a package: nothing where the package has no tests;
    /// else the test runner with the arguments of [`command_line`], the extra
    /// arguments split into words as a shell would. Extra arguments that
    /// cannot be split are an error.
    pub fn invocation(&self, has_tests: bool) -> (call: Result<Option<Vec<String>>, TestError>)
        ensures
            !has_tests ==> call == Ok::<Option<Vec<String>>, TestError>(None),
            has_tests ==> match self.args().vitest_args {
                None => call matches Ok(Some(line)) && texts(line@) == command_line(
                    self.args().watch,
                    seq![],
                ),
                Some(text) => match shlex_words(text@) {
                    Some(words) => call matches Ok(Some(line)) && texts(line@) == command_line(
                        self.args().watch,
                        words,
                    ),
                    None => call == Err::<Option<Vec<String>>, TestError>(TestError::VitestArgs),
                },
            },
    {
        if !has_tests {
            return Ok(None);
        }
        let extra = match &self.args.vitest_args {
            Some(text) => match split_words(text.as_str()) {
                Some(words) => words,
                None => {
                    return Err(TestError::VitestArgs);
                },
            },
            None => {
                let none: Vec<String> = Vec::new();
                assert(texts(none@) =~= seq![]);
                none
            },
        };
        Ok(Some(vitest_command_line(self.args.watch, extra)))
    }
}

impl PackageCommand for TestCommand {
    /// `test` runs for the package that the arguments name, if they name one.
    fn only_run(&self) -> (selected: Option<&PackageName>)
        ensures
            match self.args().package {
                Some(name) => selected == Some(&name),
                None => selected is None,
            },
    {
        self.args.package.as_ref()
    }
}

} // verus!
