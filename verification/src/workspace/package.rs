//! Packages: what the dependency graph and the scheduler need to know of one.

use vstd::prelude::*;

verus! {

/// The identity of a package: an optional scope and a bare name.
#[derive(Debug, Clone)]
pub struct PackageName {
    pub scope: Option<String>,
    pub name: String,
}

/// A package identity as mathematics.
pub struct PackageNameView {
    pub scope: Option<Seq<char>>,
    pub name: Seq<char>,
}

impl View for PackageName {
    type V = PackageNameView;

    open spec fn view(&self) -> PackageNameView {
        PackageNameView {
            scope: match self.scope {
                Some(scope) => Some(scope@),
                None => None,
            },
            name: self.name@,
        }
    }
}

/// The position of the first `/` of `token`, or its length if it has none.
pub open spec fn first_slash(token: Seq<char>) -> int
    decreases token.len(),
{
    if token.len() == 0 || token[0] == '/' {
        0
    } else {
        1 + first_slash(token.drop_first())
    }
}

/// The first slash lies inside the token or at its end, and nothing before it
/// is a slash.
pub proof fn lemma_first_slash(token: Seq<char>)
    ensures
        0 <= first_slash(token) <= token.len(),
        first_slash(token) < token.len() ==> token[first_slash(token)] == '/',
        forall|i: int| 0 <= i < first_slash(token) ==> token[i] != '/',
    decreases token.len(),
{
    if token.len() > 0 && token[0] != '/' {
        let rest = token.drop_first();
        lemma_first_slash(rest);
        assert forall|i: int| 0 <= i < first_slash(token) implies token[i] != '/' by {
            if i > 0 {
                assert(token[i] == rest[i - 1]);
            }
        }
    }
}

/// What a token names. A token `scope/name` or `@scope/name` names `name` in
/// `scope`: it is split at its first slash, and a leading `@` is no part of the
/// scope. A token without a slash is a bare name.
pub open spec fn parse_token(token: Seq<char>) -> PackageNameView {
    let slash = first_slash(token);
    if slash < token.len() {
        let scope = token.take(slash);
        PackageNameView {
            scope: Some(
                if scope.len() > 0 && scope[0] == '@' {
                    scope.drop_first()
                } else {
                    scope
                },
            ),
            name: token.skip(slash + 1),
        }
    } else {
        PackageNameView { scope: None, name: token }
    }
}

/// How a name is written: `@scope/name`, or the bare name.
pub open spec fn render_name(name: PackageNameView) -> Seq<char> {
    match name.scope {
        Some(scope) => seq!['@'] + scope + seq!['/'] + name.name,
        None => name.name,
    }
}

impl PackageName {
    /// Reads a package name from one token.
    pub fn parse(token: &str) -> (name: PackageName)
        ensures
            name@ == parse_token(token@),
    {
        let length = token.unicode_len();
        let mut slash: usize = 0;
        while slash < length && token.get_char(slash) != '/'
            invariant
                slash <= length,
                length == token@.len(),
                forall|i: int| 0 <= i < slash ==> token@[i] != '/',
            decreases length - slash,
        {
            slash += 1;
        }
        proof {
            lemma_first_slash(token@);
            let expected = first_slash(token@);
            if expected < slash {
                assert(token@[expected] != '/');
            }
        }
        if slash < length {
            let from: usize = if slash > 0 && token.get_char(0) == '@' {
                1
            } else {
                0
            };
            let scope = token.substring_char(from, slash).to_owned();
            let name = token.substring_char(slash + 1, length).to_owned();
            proof {
                let head = token@.take(slash as int);
                assert(token@.subrange(from as int, slash as int) =~= if head.len() > 0 && head[0]
                    == '@' {
                    head.drop_first()
                } else {
                    head
                });
                assert(token@.subrange(slash + 1, length as int) =~= token@.skip(slash + 1));
            }
            PackageName { scope: Some(scope), name }
        } else {
            PackageName { scope: None, name: token.to_owned() }
        }
    }

    /// The name as it is written: `@scope/name`, or the bare name.
    pub fn render(&self) -> (text: String)
        ensures
            text@ == render_name(self@),
    {
        match &self.scope {
            Some(scope) => {
                let mut text = "@".to_owned();
                proof {
                    reveal_strlit("@");
                    reveal_strlit("/");
                    assert("@"@ =~= seq!['@']);
                    assert("/"@ =~= seq!['/']);
                }
                text.append(scope.as_str());
                text.append("/");
                text.append(self.name.as_str());
                text
            },
            None => self.name.clone(),
        }
    }
}

impl PartialEq for PackageName {
    fn eq(&self, other: &PackageName) -> (equal: bool) {
        let same_scope = match &self.scope {
            Some(mine) => match &other.scope {
                Some(theirs) => *mine == *theirs,
                None => false,
            },
            None => other.scope.is_none(),
        };
        same_scope && self.name == other.name
    }
}

impl vstd::std_specs::cmp::PartialEqSpecImpl for PackageName {
    open spec fn obeys_eq_spec() -> bool {
        true
    }

    open spec fn eq_spec(&self, other: &PackageName) -> bool {
        self@ == other@
    }
}

/// What a package is built into.
#[derive(Debug, Clone, Copy, PartialEq, Eq, Structural)]
pub enum Target {
    Script,
    Site,
    Lib,
}

/// Where a package's code runs.
#[derive(Debug, Clone, Copy, PartialEq, Eq, Structural)]
pub enum Platform {
    Browser,
    Node,
}

/// The target that a manifest declares with this word.
pub open spec fn target_named(word: Seq<char>) -> Option<Target> {
    if word == "script"@ {
        Some(Target::Script)
    } else if word == "site"@ {
        Some(Target::Site)
    } else if word == "lib"@ {
        Some(Target::Lib)
    } else {
        None
    }
}

/// The platform that a manifest declares with this word.
pub open spec fn platform_named(word: Seq<char>) -> Option<Platform> {
    if word == "browser"@ {
        Some(Platform::Browser)
    } else if word == "node"@ {
        Some(Platform::Node)
    } else {
        None
    }
}

/// Whether a text is this word.
fn is_word(text: &str, word: &str) -> (same: bool)
    ensures
        same <==> text@ == word@,
{
    text.to_owned() == word.to_owned()
}

impl Target {
    /// Reads the target that a manifest declares: `script`, `site` or `lib`.
    pub fn parse(word: &str) -> (target: Option<Target>)
        ensures
            target == target_named(word@),
    {
        if is_word(word, "script") {
            Some(Target::Script)
        } else if is_word(word, "site") {
            Some(Target::Site)
        } else if is_word(word, "lib") {
            Some(Target::Lib)
        } else {
            None
        }
    }
}

impl Platform {
    /// Reads the platform that a manifest declares: `browser` or `node`.
    pub fn parse(word: &str) -> (platform: Option<Platform>)
        ensures
            platform == platform_named(word@),
    {
        if is_word(word, "browser") {
            Some(Platform::Browser)
        } else if is_word(word, "node") {
            Some(Platform::Node)
        } else {
            None
        }
    }
}

/// One package of the workspace.
#[derive(Debug, Clone)]
pub struct Package {
    /// Position of the package in the workspace's package list.
    pub index: usize,
    pub name: PackageName,
    /// Directory of the package.
    pub root: String,
    /// The names this package declares as dependencies, in declaration order.
    /// Names of no package of the workspace are external and play no role.
    pub dependencies: Vec<PackageName>,
    pub target: Target,
    pub platform: Platform,
}

/// `index` is the first position in `packages` that carries `name`.
pub open spec fn resolves_to(packages: Seq<Package>, name: PackageNameView, index: int) -> bool {
    &&& 0 <= index < packages.len()
    &&& packages[index].name@ == name
    &&& forall|j: int| 0 <= j < index ==> (#[trigger] packages[j]).name@ != name
}

/// The package that `name` refers to: the first of that name, if there is one.
pub open spec fn resolve(packages: Seq<Package>, name: PackageNameView) -> Option<usize> {
    if exists|index: int| resolves_to(packages, name, index) {
        Some((choose|index: int| resolves_to(packages, name, index)) as usize)
    } else {
        None
    }
}

/// At most one position resolves a name.
pub proof fn lemma_resolves_to_unique(
    packages: Seq<Package>,
    name: PackageNameView,
    first: int,
    second: int,
)
    requires
        resolves_to(packages, name, first),
        resolves_to(packages, name, second),
    ensures
        first == second,
{
    if first < second {
        assert(packages[first].name@ != name);
    } else if second < first {
        assert(packages[second].name@ != name);
    }
}

/// Looks a name up in the package list.
pub fn find_package(packages: &[Package], name: &PackageName) -> (found: Option<usize>)
    ensures
        found == resolve(packages@, name@),
{
    let mut i: usize = 0;
    while i < packages.len()
        invariant
            i <= packages.len(),
            forall|j: int| 0 <= j < i ==> (#[trigger] packages@[j]).name@ != name@,
        decreases packages.len() - i,
    {
        if packages[i].name == *name {
            proof {
                assert(resolves_to(packages@, name@, i as int));
                let chosen = choose|index: int| resolves_to(packages@, name@, index);
                lemma_resolves_to_unique(packages@, name@, i as int, chosen);
            }
            return Some(i);
        }
        i += 1;
    }
    proof {
        assert forall|index: int| !resolves_to(packages@, name@, index) by {
            if 0 <= index < packages@.len() {
                assert(packages@[index].name@ != name@);
            }
        }
    }
    None
}

} // verus!
