//! Revisions and how the sides of a review are resolved.

use npb::git::{
    apply_merge, classify_patch, commit_arg, commit_identity, commit_source, compare_expr,
    compare_label, compare_url, conflict_message, diff_has_binary, dirty_display, ensure_distinct_trees,
    fetch_result, force_refspec, head_ref, is_dirty, is_full_sha, merge_commit_args, merge_ref,
    merge_source, merge_tree_args, pin_compare, pin_endpoint, raw_output, resolve_compare_head,
    resolve_local, resolve_pr, resolve_systems, system_double, tree_arg, trimmed_output,
    unresolved_message, worktree_commit_args, worktree_rev, CompareStep, GitError, HeadChoice,
    PatchSource, Pin, PrStep, Shape, UPSTREAM, WORKTREE,
};
use npb::model::Rev;

fn rev(tree: &str, label: &str, display: &str) -> Rev {
    Rev {
        tree: tree.into(),
        commit: format!("c-{tree}"),
        label: label.into(),
        display: display.into(),
    }
}

fn strings(v: &[&str]) -> Vec<String> {
    v.iter().map(|s| s.to_string()).collect()
}

#[test]
fn a_failed_command_says_what_it_printed() {
    let args = strings(&["rev-parse", "x"]);
    assert_eq!(
        trimmed_output(&args, true, b" abc \n".to_vec(), b"").unwrap(),
        "abc"
    );
    assert_eq!(
        raw_output(&args, true, b" abc \n".to_vec(), b"").unwrap(),
        " abc \n"
    );
    match trimmed_output(&args, false, vec![], b" fatal: no\n") {
        Err(GitError::Failed(m)) => assert_eq!(m, "git rev-parse x failed: fatal: no"),
        other => panic!("{other:?}"),
    }
    assert!(matches!(
        trimmed_output(&args, true, vec![0xff], b""),
        Err(GitError::NotUtf8)
    ));
}

#[test]
fn a_missing_ref_is_no_failure() {
    assert_eq!(force_refspec("refs/pull/1/merge"), "+refs/pull/1/merge:refs/pull/1/merge");
    assert!(fetch_result(true, b"", "r", "u").unwrap());
    assert!(!fetch_result(false, b"fatal: couldn't find remote ref r", "r", "u").unwrap());
    assert_eq!(
        fetch_result(false, b" unreachable \n", "r", "u").unwrap_err(),
        "git fetch r from u failed: unreachable"
    );
}

#[test]
fn binary_files_are_told_from_the_counts() {
    assert!(!diff_has_binary("1\t2\tf.txt\n"));
    assert!(diff_has_binary("1\t2\tf.txt\n-\t-\tblob.bin\n"));
    assert!(!diff_has_binary(""));
    assert!(!diff_has_binary("1\t2\t-\t-\t"));
}

#[test]
fn systems_default_to_the_host() {
    assert_eq!(system_double("aarch64", "macos"), "aarch64-darwin");
    assert_eq!(system_double("x86_64", "linux"), "x86_64-linux");
    assert_eq!(resolve_systems(vec![], "h".into()), vec!["h"]);
    assert_eq!(
        resolve_systems(strings(&["a", "b"]), "h".into()),
        vec!["a", "b"]
    );
}

#[test]
fn revisions_are_named_for_git() {
    assert_eq!(commit_arg("HEAD~1"), "HEAD~1^{commit}");
    assert_eq!(tree_arg("abc"), "abc^{tree}");
    assert_eq!(
        unresolved_message("no\"pe", "/repo"),
        "cannot resolve revision \"no\\\"pe\" in /repo"
    );
    let r = commit_source("sha".into(), "tree".into(), "master".into());
    assert_eq!(
        (r.tree.as_str(), r.commit.as_str(), r.label.as_str(), r.display.as_str()),
        ("tree", "sha", "sha", "master")
    );
}

#[test]
fn synthetic_commits_are_deterministic() {
    assert!(is_dirty("abc"));
    assert!(!is_dirty(""));
    assert_eq!(dirty_display("HEAD"), "HEAD*");
    let id = commit_identity();
    assert_eq!(id.len(), 6);
    assert!(id.contains(&("GIT_AUTHOR_DATE".into(), "1970-01-01T00:00:00Z".into())));
    assert_eq!(
        worktree_commit_args("t", "p"),
        vec!["commit-tree", "t", "-p", "p", "-m", "npb: uncommitted working tree"]
    );
    let w = worktree_rev("t".into(), "c".into(), "HEAD*".into());
    assert_eq!(w.label, WORKTREE);
    assert_eq!(w.label, "worktree");
}

#[test]
fn merges_are_made_on_one_base() {
    assert_eq!(
        merge_tree_args("m", "b", "h"),
        vec!["merge-tree", "--write-tree", "--merge-base=m", "b", "h"]
    );
    assert_eq!(
        merge_commit_args("t", "b", "h"),
        vec!["commit-tree", "t", "-p", "b", "-p", "h", "-m", "npb: synthetic merge"]
    );
    let (base, head) = (rev("b", "bl", "master"), rev("h", "hl", "HEAD"));
    let conflict = conflict_message(&base, &head);
    assert!(conflict.contains("--no-merge"), "{conflict}");
    assert!(conflict.starts_with("cannot merge hl onto bl: they conflict."), "{conflict}");
    // A fast-forward is the head; a drift is a merge of its own.
    let ff = merge_source(&base, &head, "h".into(), "m".into());
    assert_eq!((ff.display.as_str(), ff.label.as_str()), ("HEAD", "hl"));
    let drift = merge_source(&base, &head, "x".into(), "m".into());
    assert_eq!(drift.display, "merge(master, HEAD)");
    assert_eq!((drift.tree.as_str(), drift.commit.as_str()), ("x", "m"));
    assert!(matches!(apply_merge(&base, &head, false), Shape::Merge));
    match apply_merge(&base, &head, true) {
        Shape::ForkPoint { base_display } => assert_eq!(base_display, "merge-base(master, HEAD)"),
        Shape::Merge => panic!("merged"),
    }
}

#[test]
fn one_tree_on_both_sides_is_rejected() {
    let err = ensure_distinct_trees(&rev("t", "a", "a"), &rev("t", "b", "b")).unwrap_err();
    assert!(err.contains("same tree"), "{err}");
    assert!(err.contains("nothing to review"), "{err}");
    ensure_distinct_trees(&rev("t", "a", "a"), &rev("u", "b", "b")).unwrap();
}

#[test]
fn a_pull_request_is_resolved_from_its_refs() {
    assert_eq!(head_ref(7), "refs/pull/7/head");
    assert_eq!(merge_ref(7), "refs/pull/7/merge");
    match resolve_pr(UPSTREAM, 7, false, true, None) {
        PrStep::Merge { base, head, base_display, head_display } => {
            assert_eq!(base, "refs/pull/7/merge^1");
            assert_eq!(head, "refs/pull/7/merge^2");
            assert_eq!(base_display, "#7 base");
            assert_eq!(head_display, "#7 head");
        }
        _ => panic!("no merge"),
    }
    match resolve_pr(UPSTREAM, 7, true, true, None) {
        PrStep::Fork { base, head, base_display, .. } => {
            assert_eq!(base, "refs/pull/7/merge^1");
            assert_eq!(head, "refs/pull/7/merge^2");
            assert_eq!(base_display, "merge-base(#7 base, #7 head)");
        }
        _ => panic!("no fork"),
    }
    assert!(matches!(resolve_pr(UPSTREAM, 7, true, false, None), PrStep::FetchHead));
    match resolve_pr(UPSTREAM, 7, true, false, Some(true)) {
        PrStep::Fork { base, head, .. } => {
            assert_eq!(base, "master");
            assert_eq!(head, "refs/pull/7/head");
        }
        _ => panic!("no fork"),
    }
    match resolve_pr(UPSTREAM, 7, false, false, Some(true)) {
        PrStep::Fail(m) => {
            assert!(m.contains("no test-merge commit"), "{m}");
            assert!(m.contains("--no-merge"), "{m}");
        }
        _ => panic!("no failure"),
    }
    match resolve_pr("up", 99, false, false, Some(false)) {
        PrStep::Fail(m) => assert_eq!(m, "PR #99 not found on up"),
        _ => panic!("no failure"),
    }
}

#[test]
fn a_patched_head_comes_before_a_named_one() {
    assert!(matches!(
        resolve_local(Some("h".into()), None, Some(rev("t", "l", "d"))),
        HeadChoice::Patched(_)
    ));
    match resolve_local(Some("h".into()), None, None) {
        HeadChoice::Explicit { rev, display } => assert_eq!((rev, display), ("h".into(), "h".into())),
        _ => panic!("not explicit"),
    }
    match resolve_local(Some("h".into()), Some("d".into()), None) {
        HeadChoice::Explicit { display, .. } => assert_eq!(display, "d"),
        _ => panic!("not explicit"),
    }
    assert!(matches!(resolve_local(None, None, None), HeadChoice::Default));
}

#[test]
fn a_patch_is_a_path_or_a_compare_expression() {
    assert!(matches!(classify_patch("./x.diff"), Ok(PatchSource::File)));
    assert!(matches!(classify_patch("a/b...c"), Ok(PatchSource::File)));
    assert!(matches!(classify_patch("a...b"), Ok(PatchSource::Compare)));
    let err = match classify_patch("x.diff") {
        Err(m) => m,
        Ok(_) => panic!("accepted"),
    };
    assert!(err.ends_with("got \"x.diff\""), "{err}");
    assert_eq!(
        compare_url("a...b"),
        "https://github.com/NixOS/nixpkgs/compare/a...b.diff"
    );
}

#[test]
fn endpoints_are_pinned_to_shas() {
    let sha = "5f96e8fa57f8703504fe54b642bfcb4264aa9d4d";
    assert!(is_full_sha(sha));
    assert!(!is_full_sha(&sha[1..]));
    assert!(!is_full_sha("5f96e8fa57f8703504fe54b642bfcb4264aa9d4g"));
    // A full sha stays; an uppercase sha normalizes to lowercase.
    match pin_endpoint(&sha.to_ascii_uppercase()) {
        Pin::Sha(s) => assert_eq!(s, sha),
        Pin::Resolve(n) => panic!("{n} is a sha"),
    }
    match pin_compare(&format!("{sha}...master")) {
        Ok((Pin::Sha(a), Pin::Resolve(b))) => {
            assert_eq!(a, sha);
            assert_eq!(b, "master");
            assert_eq!(compare_expr(&a, sha), format!("{sha}...{sha}"));
        }
        _ => panic!("not pinned"),
    }
    assert!(pin_compare("only-one-side").is_err());
}

#[test]
fn a_cached_head_needs_no_download() {
    assert!(matches!(
        resolve_compare_head(Some("t".into()), false),
        CompareStep::Mint(t) if t == "t"
    ));
    assert!(matches!(
        resolve_compare_head(Some("t".into()), true),
        CompareStep::Download
    ));
    assert!(matches!(resolve_compare_head(None, false), CompareStep::Download));
}

#[test]
fn a_compare_expression_is_shown_as_it_is() {
    assert_eq!(compare_label(Some("a...b")), Some("a...b"));
    assert_eq!(compare_label(Some("./x.diff")), None);
    assert_eq!(compare_label(None), None);
}
