use graco::workspace::{find_workspace_root, workspace_root_candidates, ResolutionError};

fn path(components: &[&str]) -> Vec<String> {
    components.iter().map(|c| c.to_string()).collect()
}

#[test]
fn resolves_to_the_repository_root_three_levels_up() {
    let git_root = path(&["/", "home", "me", "repo"]);
    let cwd = path(&["/", "home", "me", "repo", "packages", "app", "src"]);
    let has_manifest = vec![true, false, false, false];
    assert_eq!(find_workspace_root(&git_root, &cwd, &has_manifest), Ok(git_root.clone()));
}

#[test]
fn the_outermost_manifest_wins_over_the_nearest() {
    let git_root = path(&["/", "repo"]);
    let cwd = path(&["/", "repo", "packages", "app"]);
    // the repository root and the leaf package both hold a manifest
    let has_manifest = vec![true, false, true];
    assert_eq!(find_workspace_root(&git_root, &cwd, &has_manifest), Ok(path(&["/", "repo"])));
    let has_manifest = vec![false, false, true];
    assert_eq!(find_workspace_root(&git_root, &cwd, &has_manifest), Ok(cwd.clone()));
    let has_manifest = vec![false, true, true];
    assert_eq!(
        find_workspace_root(&git_root, &cwd, &has_manifest),
        Ok(path(&["/", "repo", "packages"]))
    );
}

#[test]
fn no_manifest_is_an_error_that_names_the_working_directory() {
    let root = path(&["/"]);
    let cwd = path(&["/", "tmp", "x"]);
    assert_eq!(
        find_workspace_root(&root, &cwd, &vec![false, false, false]),
        Err(ResolutionError { working_dir: cwd.clone() })
    );
}

#[test]
fn the_working_directory_may_be_the_bound_itself() {
    let root = path(&["/", "repo"]);
    assert_eq!(find_workspace_root(&root, &root, &vec![true]), Ok(root.clone()));
    assert_eq!(
        find_workspace_root(&root, &root, &vec![false]),
        Err(ResolutionError { working_dir: root.clone() })
    );
}

#[test]
fn candidates_descend_from_the_bound_to_the_working_directory() {
    let root = path(&["/", "repo"]);
    let cwd = path(&["/", "repo", "packages", "app"]);
    assert_eq!(
        workspace_root_candidates(&root, &cwd),
        vec![
            path(&["/", "repo"]),
            path(&["/", "repo", "packages"]),
            path(&["/", "repo", "packages", "app"]),
        ]
    );
    assert_eq!(workspace_root_candidates(&cwd, &cwd), vec![cwd.clone()]);
    let nothing: Vec<String> = Vec::new();
    assert_eq!(workspace_root_candidates(&nothing, &root).len(), 3);
}
