use sam_core::error::SamError;
use sam_core::git::{
    add_sparse, changed_files, changed_files_args, checkout_domain, clone_args, count_tree_files,
    count_tree_files_args, dir_from_url, dir_has_files, dir_has_files_args, disable_sparse,
    domain_exists, domain_exists_args, init_sparse, is_worktree_args, list_all_dirs,
    list_all_dirs_args, list_sparse, list_sparse_args, list_top_level_dirs, list_tree_entries,
    list_tree_entries_args, remove_sparse, run_git_result, set_sparse, split_whitespace_str,
    top_level_args, DEFAULT_MAX_DEPTH,
};

fn strings(v: &[&str]) -> Vec<String> {
    v.iter().map(|s| s.to_string()).collect()
}

#[test]
fn dir_from_url_examples() {
    assert_eq!(dir_from_url("git@github.com:org/repo.git"), "repo");
    assert_eq!(dir_from_url("https://github.com/org/repo.git"), "repo");
    assert_eq!(dir_from_url("https://github.com/org/repo"), "repo");
}

#[test]
fn dir_from_url_edge_cases() {
    assert_eq!(dir_from_url("https://github.com/org/repo/"), "repo");
    assert_eq!(dir_from_url("https://github.com/org/repo.git//"), "repo");
    assert_eq!(dir_from_url("git@host:repo.git"), "repo");
    assert_eq!(dir_from_url("repo.git.git"), "repo");
    assert_eq!(dir_from_url("plain"), "plain");
    assert_eq!(dir_from_url(""), "");
    assert_eq!(dir_from_url(".git"), "");
}

#[test]
fn git_result_trims_output() {
    assert_eq!(run_git_result(true, "  out\n", "err").unwrap(), "out");
    match run_git_result(false, "out", "  fatal: nope\n") {
        Err(SamError::GitError(m)) => assert_eq!(m, "fatal: nope"),
        _ => panic!("expected GitError"),
    }
}

#[test]
fn command_arguments() {
    assert_eq!(
        clone_args("u", "d"),
        strings(&["clone", "--filter=blob:none", "--sparse", "u", "d"])
    );
    assert_eq!(init_sparse(), strings(&["sparse-checkout", "init", "--no-cone"]));
    assert_eq!(disable_sparse(), strings(&["sparse-checkout", "disable"]));
    assert_eq!(list_sparse_args(), strings(&["sparse-checkout", "list"]));
    assert_eq!(checkout_domain("apis/x"), strings(&["checkout", "HEAD", "--", "apis/x"]));
    assert_eq!(is_worktree_args(), strings(&["rev-parse", "--is-inside-work-tree"]));
    assert_eq!(top_level_args(), strings(&["rev-parse", "--show-toplevel"]));
    assert_eq!(domain_exists_args("d"), strings(&["ls-tree", "--name-only", "HEAD", "d"]));
    assert_eq!(count_tree_files_args("d"), strings(&["ls-tree", "-r", "--name-only", "HEAD", "d"]));
    assert_eq!(list_all_dirs_args(), strings(&["ls-tree", "-r", "-d", "--name-only", "HEAD"]));
    assert_eq!(dir_has_files_args("a/b"), strings(&["ls-tree", "HEAD:a/b"]));
    assert_eq!(list_tree_entries_args(""), strings(&["ls-tree", "HEAD"]));
    assert_eq!(list_tree_entries_args("src"), strings(&["ls-tree", "HEAD:src"]));
    let c = changed_files_args();
    assert_eq!(c.len(), 3);
    assert_eq!(c[0], strings(&["diff", "--name-only"]));
    assert_eq!(c[1], strings(&["diff", "--cached", "--name-only"]));
    assert_eq!(c[2], strings(&["log", "@{upstream}..HEAD", "--name-only", "--format="]));
}

#[test]
fn set_sparse_replaces_patterns() {
    assert_eq!(
        set_sparse(&strings(&["a", "b"])),
        strings(&["sparse-checkout", "set", "a", "b"])
    );
}

#[test]
fn add_sparse_always_includes_sam_dir() {
    assert_eq!(
        add_sparse(&strings(&["apis/x"])),
        strings(&["sparse-checkout", "add", "apis/x", ".sam"])
    );
    assert_eq!(
        add_sparse(&strings(&[".sam", "apis/x"])),
        strings(&["sparse-checkout", "add", ".sam", "apis/x"])
    );
    assert_eq!(add_sparse(&vec![]), strings(&["sparse-checkout", "add", ".sam"]));
}

#[test]
fn remove_sparse_rebuilds_without_target() {
    assert_eq!(
        remove_sparse(&strings(&["a", "b", "a", "c"]), "a"),
        strings(&["sparse-checkout", "set", ".sam", "b", "c"])
    );
    assert_eq!(remove_sparse(&vec![], "a"), strings(&["sparse-checkout", "set", ".sam"]));
}

#[test]
fn list_sparse_skips_empty_lines() {
    assert_eq!(list_sparse("/*\n!/*/\n\n.sam"), strings(&["/*", "!/*/", ".sam"]));
    assert_eq!(list_sparse(""), Vec::<String>::new());
}

#[test]
fn domain_exists_reads_output() {
    assert!(domain_exists(Ok("apis/x".into())).unwrap());
    assert!(!domain_exists(Ok("".into())).unwrap());
    assert!(!domain_exists(Err(SamError::GitError("bad".into()))).unwrap());
    assert!(matches!(
        domain_exists(Err(SamError::IoError("io".into()))),
        Err(SamError::IoError(_))
    ));
}

#[test]
fn count_tree_files_counts_lines() {
    assert_eq!(count_tree_files(""), 0);
    assert_eq!(count_tree_files("a"), 1);
    assert_eq!(count_tree_files("a\nb\r\nc"), 3);
    assert_eq!(count_tree_files("a\n\nc"), 3);
}

#[test]
fn list_all_dirs_filters_and_sorts() {
    let out = "shared/auth\napis\n.github\napis/v1/users/deep/x\napis/.hidden\napis/v1\n\nb/c";
    assert_eq!(
        list_all_dirs(out, 4),
        strings(&["apis", "apis/v1", "b/c", "shared/auth"])
    );
    assert_eq!(list_all_dirs(out, 1), strings(&["apis"]));
    assert_eq!(list_top_level_dirs("a/b/c/d\na/b/c/d/e"), strings(&["a/b/c/d"]));
    assert_eq!(DEFAULT_MAX_DEPTH, 4);
}

#[test]
fn dir_has_files_detects_blobs() {
    let tree_only = "040000 tree 1234\tsub\n040000 tree 5678\tother";
    assert!(!dir_has_files(tree_only));
    let with_file = "040000 tree 1234\tsub\n100644 blob abcd\tREADME.md";
    assert!(dir_has_files(with_file));
    assert!(!dir_has_files(""));
    assert!(!dir_has_files("100644 blob"));
}

#[test]
fn split_whitespace_words() {
    assert_eq!(split_whitespace_str("  a  bb\tc \n"), strings(&["a", "bb", "c"]));
    assert_eq!(split_whitespace_str(""), Vec::<String>::new());
}

#[test]
fn list_tree_entries_parses_lines() {
    let out = "100644 blob aaa\tREADME.md\n040000 tree bbb\tsrc\nbroken line\n100644 blob\tx";
    let e = list_tree_entries("", out);
    assert_eq!(e.len(), 2);
    assert_eq!(e[0].mode, "100644");
    assert_eq!(e[0].kind, "blob");
    assert_eq!(e[0].hash, "aaa");
    assert_eq!(e[0].path, "README.md");
    assert_eq!(e[1].kind, "tree");
    assert_eq!(e[1].path, "src");
    let nested = list_tree_entries("apis/x", "100644 blob ccc\tmain.go");
    assert_eq!(nested[0].path, "apis/x/main.go");
}

#[test]
fn changed_files_union_sorted_unique() {
    let r = changed_files(
        Some("b.go\na.go".into()),
        Some("a.go\n\nc.go".into()),
        None,
    );
    assert_eq!(r, strings(&["a.go", "b.go", "c.go"]));
    assert_eq!(changed_files(None, None, None), Vec::<String>::new());
    assert_eq!(changed_files(None, None, Some("z\ny".into())), strings(&["y", "z"]));
}
