//! A review, from what changed to what is reported, and its reproduction.

use std::collections::HashSet;

use npb::evalfile::{
    changed_set, eval_path, read_eval, read_line, write_eval, write_line, ChangedAttr,
};
use npb::model::{AttrEval, BuildPolicy, Observation, Outcome, Profile, Rev};
use npb::report::State;
use npb::repro::{
    compare_head_display, plan_head, pr_head, repro_command, worktree_head, HeadPlan, HeadRepro,
};
use npb::review::{
    assemble_changes, assemble_targets, changed_names, entry_of, instantiate_requests, ready, reveal_system_tests,
};

fn ca(
    attr: &str,
    base_drv: Option<&str>,
    head_drv: Option<&str>,
    base_threw: bool,
    head_threw: bool,
) -> ChangedAttr {
    ChangedAttr {
        attr: attr.into(),
        base_drv: base_drv.map(str::to_string),
        head_drv: head_drv.map(str::to_string),
        base_threw,
        head_threw,
    }
}

#[test]
fn assemble_targets_dedups_by_drv() {
    let changed = vec![
        // Same drv on both sides ⇒ one target.
        ca("same", Some("/d/x"), Some("/d/x"), false, false),
        // Distinct base/head drvs ⇒ two targets.
        ca("bumped", Some("/d/b0"), Some("/d/b1"), false, false),
        // Aliases sharing one head drv ⇒ that drv appears once.
        ca("tool", Some("/d/t0"), Some("/d/shared"), false, false),
        ca("tool-cuda", None, Some("/d/shared"), false, false),
        // A side that threw carries no drv, so it contributes no target; the
        // built head side still does.
        ca("threw-base", None, Some("/d/only-head"), true, false),
    ];
    let targets = assemble_targets(&[("sys".into(), changed)]);
    let drvs: HashSet<&str> = targets.iter().map(|t| t.drv_path.as_str()).collect();
    // Each distinct drv once: x, b0, b1, t0, shared, only-head.
    assert_eq!(targets.len(), 6);
    assert_eq!(
        drvs,
        [
            "/d/x",
            "/d/b0",
            "/d/b1",
            "/d/t0",
            "/d/shared",
            "/d/only-head"
        ]
        .into_iter()
        .collect()
    );
}

#[test]
fn assemble_targets_dedups_a_shared_drv_across_systems() {
    // A drv path is system-specific, so a real drv never recurs across
    // systems; but were the same drv to appear on both, it's one recipe and
    // dedups to a single target.
    let a = vec![ca("x", None, Some("/d/x"), false, false)];
    let b = vec![ca("x", None, Some("/d/x"), false, false)];
    let targets = assemble_targets(&[("sysA".into(), a), ("sysB".into(), b)]);
    assert_eq!(targets.len(), 1);
    assert_eq!(targets[0].drv_path, "/d/x");
}

#[test]
fn compare_head_display_names_the_reviewed_side() {
    // The shape of a pull request's own reproduction (`--head <A> --patch
    // <A>...<B>`): the head is B's content, so the heading names B.
    assert_eq!(compare_head_display("aaa", "aaa...bbb"), "bbb");
    // A compare applied onto a *different* anchor is a genuine synthetic edit.
    assert_eq!(compare_head_display("ccc", "aaa...bbb"), "ccc\\*");
    // Malformed (no `...`) falls back to the synthetic form, never panics.
    assert_eq!(compare_head_display("ccc", "aaa"), "ccc\\*");
}

const STRICT: Profile = Profile {
    broken: false,
    unsupported: false,
    insecure: false,
};

#[test]
fn repro_command_forms() {
    let strict = STRICT;
    let all = Profile {
        broken: true,
        unsupported: true,
        insecure: true,
    };
    // Committed head: plain --base/--head, only report-shaping flags echoed.
    let cmd = repro_command(
        "aaa",
        &HeadRepro::Commit("bbb".into()),
        false,
        strict,
        false,
        &["x86_64-linux".into()],
    );
    assert_eq!(cmd, "npb --base aaa --head bbb -s x86_64-linux");
    // Every widening flag echoed, in token order (u, b, i → the flags below).
    let cmd = repro_command(
        "aaa",
        &HeadRepro::Commit("bbb".into()),
        true,
        all,
        true,
        &["a".into(), "b".into()],
    );
    assert_eq!(
        cmd,
        "npb --base aaa --head bbb --no-merge --allow-broken --allow-unsupported \
         --allow-insecure --no-tests -s a -s b"
    );

    // Compare (PR): --patch is the compare expression, applied onto --head.
    let cmd = repro_command(
        "m1",
        &HeadRepro::Compare {
            anchor: "fork".into(),
            expr: "fork...m2".into(),
        },
        false,
        strict,
        false,
        &["sys".into()],
    );
    assert_eq!(cmd, "npb --base m1 --head fork --patch fork...m2 -s sys");

    // Embed (working tree): a heredoc straight into `--patch /dev/stdin`.
    let cmd = repro_command(
        "b",
        &HeadRepro::Embed {
            anchor: "h".into(),
            diff: "--- a\n+++ b\n".into(),
        },
        false,
        strict,
        false,
        &["sys".into()],
    );
    assert_eq!(
        cmd,
        "npb --base b --head h --patch /dev/stdin -s sys <<'PATCH'\n--- a\n+++ b\nPATCH"
    );
}

#[test]
fn an_embedded_diff_ends_its_last_line() {
    let embed = |diff: &str| {
        repro_command(
            "b",
            &HeadRepro::Embed {
                anchor: "h".into(),
                diff: diff.into(),
            },
            false,
            STRICT,
            false,
            &[],
        )
    };
    assert_eq!(
        embed("+x"),
        "npb --base b --head h --patch /dev/stdin <<'PATCH'\n+x\nPATCH"
    );
    assert_eq!(
        embed(""),
        "npb --base b --head h --patch /dev/stdin <<'PATCH'\n\nPATCH"
    );
}

fn rev(tree: &str, label: &str) -> Rev {
    Rev {
        tree: tree.into(),
        commit: format!("c-{label}"),
        label: label.into(),
        display: label.into(),
    }
}

#[test]
fn the_head_is_named_by_where_it_comes_from() {
    assert!(matches!(
        plan_head(true, None, None, None, &rev("t", "x")),
        HeadPlan::Pr
    ));
    assert!(matches!(
        plan_head(false, None, None, None, &rev("t", "worktree")),
        HeadPlan::Worktree
    ));
    assert!(matches!(
        plan_head(false, Some(&rev("t", "worktree")), Some("a...b".into()), None, &rev("t", "x")),
        HeadPlan::Worktree
    ));
    match plan_head(false, None, None, None, &rev("t", "sha")) {
        HeadPlan::Known { display, repro: HeadRepro::Commit(c) } => {
            assert_eq!((display.as_str(), c.as_str()), ("sha", "sha"));
        }
        _ => panic!("not a commit"),
    }
    let anchor = rev("t", "a");
    match plan_head(false, Some(&anchor), Some("c-a...b".into()), None, &rev("t", "worktree")) {
        HeadPlan::Known { display, repro: HeadRepro::Compare { anchor, expr } } => {
            assert_eq!(display, "b");
            assert_eq!((anchor.as_str(), expr.as_str()), ("c-a", "c-a...b"));
        }
        _ => panic!("not a compare"),
    }
    match plan_head(false, Some(&anchor), None, Some("+x\n".into()), &rev("t", "worktree")) {
        HeadPlan::Known { display, repro: HeadRepro::Embed { anchor, diff } } => {
            assert_eq!(display, "c-a\\*");
            assert_eq!((anchor.as_str(), diff.as_str()), ("c-a", "+x\n"));
        }
        _ => panic!("not embedded"),
    }
}

#[test]
fn a_pull_request_is_reproduced_from_its_fork_point() {
    let head = rev("t", "tip");
    let (display, repro) = pr_head("fork".into(), &head, None);
    assert_eq!(display, "tip");
    match &repro {
        HeadRepro::Compare { anchor, expr } => {
            assert_eq!((anchor.as_str(), expr.as_str()), ("fork", "fork...tip"));
            // The reproduction is headed as the review was.
            assert_eq!(compare_head_display(anchor, expr), display);
        }
        _ => panic!("not a compare"),
    }
    let (_, repro) = pr_head("fork".into(), &head, Some("bin".into()));
    assert!(matches!(repro, HeadRepro::Embed { anchor, diff } if anchor == "fork" && diff == "bin"));
    let (display, repro) = worktree_head("h".into(), "d".into());
    assert_eq!(display, "h\\*");
    assert!(matches!(repro, HeadRepro::Embed { .. }));
}

fn eval(attr: &str, drv: Option<&str>, skipped: bool) -> AttrEval {
    AttrEval {
        attr: attr.into(),
        drv_path: drv.map(str::to_string),
        skipped,
    }
}

#[test]
fn what_differs_has_changed() {
    let base = [
        eval("same", Some("/s"), false),
        eval("bumped", Some("/b0"), false),
        eval("gone", Some("/g"), true),
        eval("broke", Some("/k"), false),
    ];
    let head = [
        eval("same", Some("/s"), true),
        eval("bumped", Some("/b1"), true),
        eval("broke", None, false),
        eval("fresh", Some("/f"), false),
        eval("errors", None, false),
    ];
    let changed = changed_set(&base, &head);
    let got: Vec<(&str, Option<&str>, Option<&str>, bool, bool)> = changed
        .iter()
        .map(|c| {
            (
                c.attr.as_str(),
                c.base_drv.as_deref(),
                c.head_drv.as_deref(),
                c.base_threw,
                c.head_threw,
            )
        })
        .collect();
    assert_eq!(
        got,
        vec![
            ("bumped", Some("/b0"), Some("/b1"), false, true),
            ("gone", Some("/g"), None, true, false),
            ("broke", Some("/k"), None, false, false),
            ("fresh", None, Some("/f"), false, false),
        ]
    );
}

#[test]
fn evaluations_are_read_as_they_were_written() {
    assert_eq!(eval_path("tree", "sys"), "sys/tree.tsv.zst");
    assert_eq!(write_line(&eval("a", Some("/nix/store/x.drv"), true)), "a\tx\t!");
    assert_eq!(write_line(&eval("err", None, false)), "err\t");
    for e in [
        eval("hello", Some("/nix/store/abc-hello.drv"), false),
        eval("brk", Some("/nix/store/abc-brk.drv"), true),
        eval("odd", Some("/d/odd"), false),
        eval("err", None, false),
    ] {
        let back = read_line(&write_line(&e));
        assert_eq!(back.attr, e.attr);
        assert_eq!(back.drv_path, e.drv_path);
        assert_eq!(back.skipped, e.skipped);
    }
}

#[test]
fn names_are_sorted_and_each_comes_once() {
    let changed = [
        ca("b", Some("/b"), None, false, false),
        ca("a", Some("/a"), Some("/a1"), false, false),
        ca("b", Some("/b"), None, false, false),
        ca("c", None, Some("/c"), true, false),
    ];
    let (base, head) = changed_names(&changed);
    assert_eq!(base, vec!["a", "b"]);
    assert_eq!(head, vec!["a", "c"]);
}

#[test]
fn only_uncached_packages_have_their_tests_listed() {
    let changed = [
        ca("a", Some("/a"), Some("/a1"), false, false),
        ca("b", Some("/b"), Some("/b1"), false, false),
    ];
    let (base, head) = (rev("t0", "master"), rev("t1", "HEAD"));
    let none: Vec<String> = vec![];
    let all = vec!["a".to_string(), "b".to_string()];
    let got = reveal_system_tests(&base, &head, "sys", &changed, &all, &none[..]);
    assert_eq!(got.len(), 1);
    assert_eq!((got[0].0.display.as_str(), got[0].1.as_str()), ("HEAD", "sys"));
    assert_eq!(got[0].2, all);
    let got = reveal_system_tests(&base, &head, "sys", &changed, &all[..1], &all);
    assert_eq!(got.len(), 1);
    assert_eq!(got[0].2, vec!["b"]);
    // What was listed is not listed again.
    assert!(reveal_system_tests(&base, &head, "sys", &changed, &all, &all).is_empty());
    // One tree is asked once.
    let got = reveal_system_tests(&base, &base, "sys", &changed, &none, &none);
    assert_eq!(got.len(), 1);
}

#[test]
fn only_what_the_build_needs_is_instantiated() {
    let changed = vec![
        ca("a", Some("/a"), Some("/a1"), false, false),
        ca("b", None, Some("/b1"), false, false),
    ];
    let (base, head) = (rev("t0", "master"), rev("t1", "HEAD"));
    let need = vec!["/a".to_string(), "/b1".to_string()];
    let got = instantiate_requests(&base, &head, &[("sys".into(), changed)], &need);
    assert_eq!(got.len(), 2);
    assert_eq!((got[0].0.display.as_str(), &got[0].2), ("master", &vec!["a".to_string()]));
    assert_eq!((got[1].0.display.as_str(), &got[1].2), ("HEAD", &vec!["b".to_string()]));
}

#[test]
fn an_entry_shows_the_state_of_each_side() {
    let obs = |outcome| Observation {
        drv_path: "/x".into(),
        outcome,
        blocker: vec![],
    };
    let c = ca("a", Some("/a"), Some("/a1"), false, true);
    let e = entry_of(&c, &[obs(Outcome::Built)], &[obs(Outcome::Failed)], BuildPolicy::default());
    assert_eq!((e.base, e.head), (State::Built, State::Skipped));
    assert_eq!(e.attr, "a");
    assert_eq!(e.head_drv.as_deref(), Some("/a1"));
    let all = BuildPolicy {
        retry: false,
        no_skip: true,
    };
    let e = entry_of(&c, &[], &[obs(Outcome::Failed)], all);
    assert_eq!((e.base, e.head), (State::Unknown, State::Failed));
}

#[test]
fn a_system_is_diffed_once_both_sides_are_there() {
    let done = vec!["s1".to_string()];
    assert!(ready(false, &done, "s2", true, true));
    assert!(!ready(false, &done, "s1", true, true));
    assert!(!ready(false, &done, "s2", true, false));
    assert!(!ready(true, &done, "s2", true, true));
}

#[test]
fn an_evaluation_is_sorted_by_attribute() {
    let rows = vec![
        eval("b", Some("/nix/store/bb.drv"), true),
        eval("c", None, false),
        eval("a", Some("/nix/store/aa.drv"), false),
    ];
    let text = write_eval(rows);
    assert_eq!(text, "a\taa\nb\tbb\t!\nc\t\n");
    let back = read_eval(&text);
    let names: Vec<&str> = back.iter().map(|e| e.attr.as_str()).collect();
    assert_eq!(names, vec!["a", "b", "c"]);
    assert_eq!(back[0].drv_path.as_deref(), Some("/nix/store/aa.drv"));
    assert!(back[1].skipped && !back[0].skipped);
    assert_eq!(back[2].drv_path, None);
    // An evaluation without attributes is an empty file.
    assert_eq!(write_eval(Vec::new()), "");
    assert!(read_eval("").is_empty());
}

#[test]
fn changes_stand_in_the_order_of_the_systems() {
    let systems: Vec<String> = ["x", "y", "z", "x"].iter().map(|s| s.to_string()).collect();
    let found = vec![
        ("y".to_string(), vec![ca("b", None, Some("/b"), false, false)]),
        ("x".to_string(), vec![ca("a", Some("/a"), None, false, false)]),
    ];
    let attrs = |all: &[(String, Vec<ChangedAttr>)]| -> Vec<(String, Vec<String>)> {
        all.iter()
            .map(|(s, cs)| (s.clone(), cs.iter().map(|c| c.attr.clone()).collect()))
            .collect()
    };
    let pair = |s: &str, attrs: &[&str]| {
        (s.to_string(), attrs.iter().map(|a| a.to_string()).collect::<Vec<_>>())
    };
    let diffs = assemble_changes(&systems, &found, None);
    assert_eq!(
        attrs(&diffs),
        vec![pair("x", &["a"]), pair("y", &["b"]), pair("z", &[]), pair("x", &[])]
    );
    assert_eq!(diffs[0].1[0].base_drv.as_deref(), Some("/a"));
    let tests = vec![
        vec![ca("a.tests.t", None, Some("/t"), false, false)],
        Vec::new(),
        Vec::new(),
        Vec::new(),
    ];
    let all = assemble_changes(&systems, &found, Some(&tests));
    assert_eq!(
        attrs(&all),
        vec![pair("x", &["a", "a.tests.t"]), pair("y", &["b"]), pair("z", &[]), pair("x", &[])]
    );
}
