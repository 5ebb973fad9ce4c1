//! Finding the workspace root: the outermost directory with a package
//! manifest, between a bounding ancestor and the working directory.
//!
//! A path is the sequence of its components. Whether a directory holds a
//! manifest is for the caller to find out; the candidates to probe are given by
//! [`workspace_root_candidates`].

use vstd::prelude::*;

verus! {

/// No directory between the bounding ancestor and the working directory holds
/// a package manifest.
#[derive(Debug, Clone, PartialEq, Eq)]
pub struct ResolutionError {
    /// The working directory at which the search started.
    pub working_dir: Vec<String>,
}

/// `prefix` is made of the first components of `path`.
pub open spec fn is_prefix(prefix: Seq<String>, path: Seq<String>) -> bool {
    &&& prefix.len() <= path.len()
    &&& forall|i: int| 0 <= i < prefix.len() ==> (#[trigger] prefix[i])@ == path[i]@
}

/// The first index at which `found` holds `true`, if there is one.
pub open spec fn first_found(found: Seq<bool>) -> Option<int> {
    if exists|i: int| 0 <= i < found.len() && #[trigger] found[i] {
        Some(
            choose|i: int|
                0 <= i < found.len() && #[trigger] found[i] && forall|j: int|
                    0 <= j < i ==> !#[trigger] found[j],
        )
    } else {
        None
    }
}

/// `at` is the first index at which `found` holds `true`.
pub proof fn lemma_first_found(found: Seq<bool>, at: int)
    requires
        0 <= at < found.len(),
        found[at],
        forall|j: int| 0 <= j < at ==> !#[trigger] found[j],
    ensures
        first_found(found) == Some(at),
{
    let chosen = choose|i: int|
        0 <= i < found.len() && #[trigger] found[i] && forall|j: int|
            0 <= j < i ==> !#[trigger] found[j];
    assert(0 <= chosen < found.len() && found[chosen] && forall|j: int|
        0 <= j < chosen ==> !#[trigger] found[j]);
    if chosen < at {
        assert(!found[chosen]);
    } else if at < chosen {
        assert(!found[at]);
    }
}

/// The first `length` components of `path`.
fn leading(path: &Vec<String>, length: usize) -> (start: Vec<String>)
    requires
        length <= path@.len(),
    ensures
        start@ == path@.take(length as int),
{
    let mut start: Vec<String> = Vec::new();
    let mut i: usize = 0;
    while i < length
        invariant
            i <= length <= path@.len(),
            start@ == path@.take(i as int),
        decreases length - i,
    {
        start.push(path[i].clone());
        assert(path@.take(i as int).push(path@[i as int]) =~= path@.take(i + 1));
        i += 1;
    }
    start
}

/// The directories to probe for a manifest, outermost first: `max_ancestor`
/// itself, then one more component of `cwd` at a time, down to `cwd`.
pub fn workspace_root_candidates(max_ancestor: &Vec<String>, cwd: &Vec<String>) -> (candidates:
    Vec<Vec<String>>)
    requires
        is_prefix(max_ancestor@, cwd@),
    ensures
        candidates@.len() == cwd@.len() - max_ancestor@.len() + 1,
        forall|i: int|
            0 <= i < candidates@.len() ==> (#[trigger] candidates@[i])@ == cwd@.take(
                max_ancestor@.len() + i,
            ),
{
    let mut candidates: Vec<Vec<String>> = Vec::new();
    let mut length: usize = max_ancestor.len();
    loop
        invariant_except_break
            max_ancestor@.len() <= length <= cwd@.len(),
            candidates@.len() == length - max_ancestor@.len(),
            forall|i: int|
                0 <= i < candidates@.len() ==> (#[trigger] candidates@[i])@ == cwd@.take(
                    max_ancestor@.len() + i,
                ),
        ensures
            candidates@.len() == cwd@.len() - max_ancestor@.len() + 1,
            forall|i: int|
                0 <= i < candidates@.len() ==> (#[trigger] candidates@[i])@ == cwd@.take(
                    max_ancestor@.len() + i,
                ),
        decreases cwd@.len() - length,
    {
        candidates.push(leading(cwd, length));
        if length == cwd.len() {
            break ;
        }
        length += 1;
    }
    candidates
}

/// The workspace root: the outermost candidate with a manifest, where
/// `has_manifest` says of each candidate of [`workspace_root_candidates`], in
/// that order, whether it holds one. Without any, the search fails and names
/// the working directory.
pub fn find_workspace_root(
    max_ancestor: &Vec<String>,
    cwd: &Vec<String>,
    has_manifest: &Vec<bool>,
) -> (root: Result<Vec<String>, ResolutionError>)
    requires
        is_prefix(max_ancestor@, cwd@),
        has_manifest@.len() == cwd@.len() - max_ancestor@.len() + 1,
    ensures
        match first_found(has_manifest@) {
            Some(depth) => root matches Ok(directory) && directory@ == cwd@.take(
                max_ancestor@.len() + depth,
            ),
            None => root matches Err(error) && error.working_dir@ == cwd@,
        },
{
    let total = cwd.len();
    let mut depth: usize = 0;
    while depth < has_manifest.len()
        invariant
            total == cwd@.len(),
            depth <= has_manifest@.len(),
            has_manifest@.len() == cwd@.len() - max_ancestor@.len() + 1,
            max_ancestor@.len() <= cwd@.len(),
            forall|j: int| 0 <= j < depth ==> !#[trigger] has_manifest@[j],
        decreases has_manifest@.len() - depth,
    {
        if has_manifest[depth] {
            proof {
                lemma_first_found(has_manifest@, depth as int);
            }
            return Ok(leading(cwd, max_ancestor.len() + depth));
        }
        depth += 1;
    }
    let working_dir = leading(cwd, cwd.len());
    assert(cwd@.take(cwd@.len() as int) =~= cwd@);
    Err(ResolutionError { working_dir })
}

} // verus!
