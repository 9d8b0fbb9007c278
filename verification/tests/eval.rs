//! Evaluation: the expressions, the jobs, the machine, and the plans.

use npb::eval::{
    add_phase, eval_pairs, eval_tests, eval_two, evaluate_job, instantiate, instantiate_job,
    nameless, tests_job, EvalOpts, Leaf, Pair, Request, DEFAULT_WORKER_MEM_MB, NAMES_PER_SHARD,
};
use npb::expr::{
    build_expr, build_tests_expr, names_expr, nix_escape, nix_string_list, select_expr, shard_expr,
};
use npb::jobs::{
    enumerate_failure, enumerate_names, gate, job_args, keep_names, lift_marks, meta_skipped, raw_to_attr_eval,
    raw_to_test_job, RawJob, RawMeta, Tail, KEEP,
};
use npb::live::Tree;
use npb::machine::{
    cgroup_mem_limit_mb, cgroup_path, default_slots, eval_slots, needs_sysctl, physical_mem_mb,
    tests_slots, total_mem_mb, FALLBACK_MEM_MB, SLOT_MEM_MB, TESTS_SLOT_MEM_MB,
};
use npb::model::{AttrEval, Profile, Rev};
use npb::shards::Shard;

/// A job as it stands in one line of the evaluator's output.
fn raw(line: &str) -> RawJob {
    let v: serde_json::Value = serde_json::from_str(line).unwrap();
    let flag = |m: &serde_json::Value, k: &str| m.get(k).and_then(|b| b.as_bool());
    RawJob {
        attr: v["attr"].as_str().unwrap_or_default().to_string(),
        attr_path: v["attrPath"]
            .as_array()
            .map(|a| {
                a.iter()
                    .map(|s| s.as_str().unwrap().to_string())
                    .collect()
            })
            .unwrap_or_default(),
        drv_path: v.get("drvPath").map(|d| d.as_str().unwrap().to_string()),
        meta: v.get("meta").map(|m| RawMeta {
            broken: flag(m, "broken"),
            unsupported: flag(m, "unsupported"),
            insecure: flag(m, "insecure"),
        }),
    }
}

#[test]
fn parses_success_skipped_and_error_lines() {
    // Any of meta.broken/unsupported/insecure folds into the one `skipped`
    // bit; an errored attr has no drvPath (and no meta). Unknown fields
    // (system, fatal, …) are simply ignored.
    let stdout = [
        r#"{"attr":"hello","attrPath":["hello"],"drvPath":"/nix/store/a-hello.drv","meta":{"broken":false,"unsupported":false},"system":"aarch64-linux"}"#,
        r#"{"attr":"br","attrPath":["br"],"drvPath":"/nix/store/b-br.drv","meta":{"broken":true}}"#,
        r#"{"attr":"unsup","attrPath":["unsup"],"drvPath":"/nix/store/c-unsup.drv","meta":{"unsupported":true}}"#,
        r#"{"attr":"bad","attrPath":["bad"],"error":"boom","fatal":false}"#,
    ];
    let attrs: Vec<AttrEval> = stdout.iter().map(|l| raw_to_attr_eval(raw(l))).collect();
    assert_eq!(attrs.len(), 4);

    assert_eq!(attrs[0].attr, "hello");
    assert_eq!(attrs[0].drv_path.as_deref(), Some("/nix/store/a-hello.drv"));
    assert!(!attrs[0].skipped);

    assert!(attrs[1].skipped);
    assert!(attrs[1].drv_path.is_some());
    assert!(attrs[2].skipped);

    assert_eq!(attrs[3].attr, "bad");
    assert_eq!(attrs[3].drv_path, None);
    assert!(!attrs[3].skipped);
}

#[test]
fn full_expr_fetches_and_imports() {
    let full = build_expr("/repo", "abc123", "aarch64-linux");
    assert!(full.contains(r#"builtins.fetchGit { url = "/repo"; rev = "abc123"; }"#));
    assert!(full.contains("allowBroken = true"));
}

#[test]
fn eval_slots_from_invariants() {
    const G: u64 = 1024;
    // Core-bound when RAM is plentiful; RAM-bound (total / per-slot budget)
    // when it isn't; never zero; --eval-slots wins verbatim (floored at 1).
    // At the default SLOT_MEM_MB (~2 GiB) the three benchmark boxes get:
    assert_eq!(eval_slots(32, 62 * G, SLOT_MEM_MB, None), 31); // amd64 (core-bound near 32)
    assert_eq!(eval_slots(18, 31 * G, SLOT_MEM_MB, None), 15); // aarch64-linux
    assert_eq!(eval_slots(18, 16 * G, SLOT_MEM_MB, None), 8); //  darwin
    assert_eq!(eval_slots(18, 256 * G, SLOT_MEM_MB, None), 18); // core-bound
    assert_eq!(eval_slots(4, 2 * G, SLOT_MEM_MB, None), 1); //    never zero
    assert_eq!(eval_slots(18, 31 * G, SLOT_MEM_MB, Some(3)), 3); // --eval-slots wins
    assert_eq!(eval_slots(18, 31 * G, SLOT_MEM_MB, Some(0)), 1);
}

#[test]
fn shard_expr_subsets_the_import() {
    let e = shard_expr(
        "/repo",
        "abc123",
        "aarch64-linux",
        &["hello".into(), "with\"quote".into()],
    );
    // The same import as the whole-set walk, narrowed via listToAttrs,
    // names escaped.
    assert!(e.contains(r#"builtins.fetchGit { url = "/repo"; rev = "abc123"; }"#));
    assert!(e.contains("builtins.listToAttrs"));
    assert!(e.contains(r#""hello" "#));
    assert!(e.contains(r#""with\"quote" "#));
}

#[test]
fn every_kind_of_mark_skips() {
    let meta = |broken, unsupported, insecure| RawMeta {
        broken,
        unsupported,
        insecure,
    };
    assert!(!meta_skipped(&meta(None, None, None)));
    assert!(!meta_skipped(&meta(Some(false), Some(false), Some(false))));
    assert!(meta_skipped(&meta(Some(true), None, None)));
    assert!(meta_skipped(&meta(None, Some(true), None)));
    assert!(meta_skipped(&meta(None, None, Some(true))));
    assert!(!meta_skipped(&RawMeta::default()));
}

#[test]
fn a_test_job_is_named_by_its_path() {
    let job = raw_to_test_job(raw(
        r#"{"attr":"x","attrPath":["hello","tests","run"],"drvPath":"/nix/store/a.drv","meta":{"insecure":true}}"#,
    ));
    assert_eq!(job.pkg_attr, "hello");
    assert_eq!(job.test_attr, "hello.tests.run");
    assert_eq!(job.drv_path.as_deref(), Some("/nix/store/a.drv"));
    assert!(job.skipped);
    let none = raw_to_test_job(raw(r#"{"attr":"x"}"#));
    assert_eq!((none.pkg_attr, none.test_attr), (String::new(), String::new()));
}

#[test]
fn nix_strings_are_escaped() {
    assert_eq!(nix_escape(r#"a\b"c"#), r#"a\\b\"c"#);
    assert_eq!(nix_escape("${x}"), "\\${x}");
    assert_eq!(nix_escape("$5"), "$5");
    assert_eq!(
        nix_string_list(&["a".to_string(), "b\"".to_string()]),
        "\"a\" \"b\\\"\" "
    );
    assert_eq!(nix_string_list(&[]), "");
}

#[test]
fn the_other_expressions_import_the_same_set() {
    let import = build_expr("/repo", "abc", "sys");
    assert_eq!(
        names_expr("/repo", "abc", "sys"),
        format!("builtins.attrNames ({import})")
    );
    let paths = ["python3Packages.numpy".to_string()];
    let select = select_expr("/repo", "abc", "sys", &paths);
    assert!(select.contains(r#""python3Packages.numpy" "#), "{select}");
    assert!(select.contains("fetchGit"), "{select}");
    let tests = build_tests_expr("/repo", "abc", "sys", &["hello".to_string()]);
    assert!(tests.contains(r#""hello" "#), "{tests}");
    assert!(tests.contains("pkg.tests or null"), "{tests}");
    assert!(tests.contains("sys"), "{tests}");
}

#[test]
fn evaluators_are_told_their_limits() {
    assert_eq!(
        job_args(1, 4096, false),
        vec![
            "--meta",
            "--workers",
            "1",
            "--max-memory-size",
            "4096",
            "--no-instantiate"
        ]
    );
    assert_eq!(job_args(2, 10, true).len(), 5);
}

#[test]
fn only_the_last_lines_are_kept() {
    let mut tail = Tail::new();
    assert_eq!(tail.text(), "");
    for i in 0..KEEP + 5 {
        tail.push(format!("line {i}"));
    }
    let text = tail.text();
    assert_eq!(text.lines().count(), KEEP);
    assert!(text.starts_with("line 5\n"), "{text}");
    assert!(text.ends_with(&format!("line {}", KEEP + 4)), "{text}");
}

#[test]
fn a_truncated_evaluation_is_not_taken() {
    assert_eq!(gate(vec![1, 2], true, "l", "ok", "").unwrap(), vec![1, 2]);
    let err = gate(vec![1, 2], false, "HEAD sys", "signal: 9", "the end").unwrap_err();
    assert!(err.contains("HEAD sys"), "{err}");
    assert!(err.contains("it exited signal: 9 after streaming 2 attr(s)"), "{err}");
    assert!(err.ends_with("\nthe end"), "{err}");
}

#[test]
fn names_are_read_from_json() {
    assert_eq!(
        enumerate_names(r#"["a","recurseForDerivations","b é"]"#.as_bytes()).unwrap(),
        vec!["a", "b é"]
    );
    assert!(enumerate_names(b"not json").is_err());
    assert!(enumerate_names(b"[1]").is_err());
    assert_eq!(
        keep_names(vec!["recurseForDerivations".to_string(), "x".to_string()]),
        vec!["x"]
    );
    assert_eq!(
        enumerate_failure("r", "s", b"boom\xff"),
        "enumerating top-level attrs of r (s) failed:\nboom\u{fffd}"
    );
}

#[test]
fn memory_is_what_is_there_and_allowed() {
    assert_eq!(total_mem_mb(8000, None), 8000);
    assert_eq!(total_mem_mb(8000, Some(4000)), 4000);
    assert_eq!(total_mem_mb(8000, Some(9000)), 8000);
    assert_eq!(
        cgroup_path("12:cpu:/x\n0::/user.slice/a \n").as_deref(),
        Some("/user.slice/a")
    );
    assert_eq!(cgroup_path("12:cpu:/x\n"), None);
    let limits = ["max\n".to_string(), "2097152\n".to_string(), "1048576".to_string()];
    assert_eq!(cgroup_mem_limit_mb(&limits), Some(1));
    assert_eq!(cgroup_mem_limit_mb(&limits[..1]), None);
    assert_eq!(
        physical_mem_mb(Some("MemFree: 1 kB\nMemTotal:       16384 kB\n"), None),
        16
    );
    assert_eq!(physical_mem_mb(None, Some("17179869184\n")), 16384);
    assert_eq!(physical_mem_mb(None, None), FALLBACK_MEM_MB);
    assert!(needs_sysctl(None));
    assert!(needs_sysctl(Some("MemTotal:\n")));
    assert!(!needs_sysctl(Some("MemTotal: 5 kB")));
}

#[test]
fn there_is_always_a_slot() {
    for cores in [1, 4, 64] {
        for mem in [0, 1, 2048, 1 << 40] {
            for user in [None, Some(0), Some(5)] {
                assert!(eval_slots(cores, mem, 0, user) >= 1);
                assert!(default_slots(Some(cores), mem, user) >= 1);
            }
        }
    }
    assert_eq!(default_slots(None, 1 << 40, None), 4);
}

#[test]
fn options_default_and_override() {
    let d = EvalOpts::default();
    assert_eq!(d.per_worker_mb(), DEFAULT_WORKER_MEM_MB);
    assert_eq!(d.names_per_shard(), NAMES_PER_SHARD);
    let o = EvalOpts {
        slots: None,
        worker_mem_mb: Some(7),
        shard_size: Some(9),
    };
    assert_eq!(o.per_worker_mb(), 7);
    assert_eq!(o.names_per_shard(), 9);
}

fn rev(tree: &str, display: &str) -> Rev {
    Rev {
        tree: tree.into(),
        commit: format!("commit-{tree}"),
        label: display.into(),
        display: display.into(),
    }
}

fn shard(group: usize, start: usize, end: usize) -> Shard {
    Shard { group, start, end }
}

#[test]
fn each_test_listing_is_one_shard() {
    assert!(eval_tests(&[], 4).is_none());
    let names = |n: usize| (0..n).map(|i| format!("p{i}")).collect::<Vec<_>>();
    let requests: Vec<Request> = vec![
        (rev("a", "master"), "sys".into(), names(10)),
        (rev("b", "HEAD"), "sys".into(), names(7)),
    ];
    let batch = eval_tests(&requests, 2).unwrap();
    assert_eq!(batch.labels, vec!["tests master (sys)", "tests HEAD (sys)"]);
    assert_eq!(batch.items, vec![names(10), names(7)]);
    assert_eq!(batch.shard_size, 10); // no request is cut
    assert_eq!(batch.slots, 2);
    assert_eq!(
        tests_job("/repo", &requests[0], shard(0, 5, 7)),
        build_tests_expr("/repo", "commit-a", "sys", &names(10)[5..7])
    );
}

#[test]
fn instantiation_drops_what_has_nothing_to_do() {
    let mut tree = Tree::with_color(0, false, false);
    let requests: Vec<Request> = vec![
        (rev("a", "master"), "sys".into(), vec![]),
        (rev("b", "HEAD"), "sys".into(), vec!["x".into(), "y".into()]),
    ];
    assert!(instantiate(&requests[..1], 4, &mut tree).is_none());
    assert!(tree.is_empty());
    let plan = instantiate(&requests, 4, &mut tree).unwrap();
    assert_eq!(plan.requests, vec![1]);
    assert_eq!(plan.batch.items, vec![vec!["x", "y"]]);
    assert!(plan.batch.known_total);
    assert!(plan.batch.shard_size >= 2);
    let labels: Vec<&str> = tree.nodes.iter().map(|n| n.label.as_str()).collect();
    assert_eq!(labels, vec!["instantiate", "HEAD"]);
    assert_eq!(plan.nodes, vec![1]);
    assert_eq!(
        instantiate_job("/repo", &requests[1], shard(0, 0, 2)),
        select_expr("/repo", "commit-b", "sys", &requests[1].2)
    );
}

#[test]
fn pairs_are_evaluated_once_unless_cached() {
    let pairs: Vec<Pair> = eval_two(
        &rev("a", "master"),
        &rev("b", "HEAD"),
        &["s1".to_string(), "s2".to_string()],
    );
    let order: Vec<(&str, &str)> = pairs
        .iter()
        .map(|(r, s)| (r.display.as_str(), s.as_str()))
        .collect();
    assert_eq!(
        order,
        vec![("master", "s1"), ("HEAD", "s1"), ("master", "s2"), ("HEAD", "s2")]
    );
    let mut tree = Tree::with_color(0, true, false);
    assert!(eval_pairs(&pairs, &[true; 4], EvalOpts::default(), &mut tree).is_none());
    assert!(tree.is_empty());
    let plan = eval_pairs(
        &pairs,
        &[true, false, false, false],
        EvalOpts::default(),
        &mut tree,
    )
    .unwrap();
    assert_eq!(plan.todo, vec![1, 2, 3]);
    assert_eq!(plan.cached, vec!["s1"]);
    assert_eq!(plan.enum_nodes.len(), 3);
    assert_eq!(plan.eval_nodes.len(), 3);
    let first = plan.enumerate_batch(5);
    assert_eq!(first.shard_size, 1);
    assert!(first.items.iter().all(|i| i.len() == 1));
    let second = plan.evaluate_batch(vec![vec!["x".into()], vec![], vec![]], 5);
    assert_eq!(second.shard_size, NAMES_PER_SHARD);
    assert_eq!(second.slots, 5);
    // One tree on both sides is one evaluation.
    let same = eval_two(&rev("a", "m"), &rev("a", "h"), &["s1".to_string()]);
    let mut tree = Tree::with_color(0, false, false);
    let plan = eval_pairs(&same, &[false, false], EvalOpts::default(), &mut tree).unwrap();
    assert_eq!(plan.todo, vec![0]);
    let names = vec!["x".to_string(), "y".to_string()];
    assert_eq!(
        evaluate_job("/repo", &same[0], &names, shard(0, 1, 2)),
        shard_expr("/repo", "commit-a", "s1", &names[1..])
    );
}

#[test]
fn a_phase_groups_leaves_by_system() {
    let mut tree = Tree::with_color(0, true, false);
    let groups = [
        ("s1".to_string(), "a".to_string()),
        ("s2".to_string(), "b".to_string()),
        ("s1".to_string(), "c".to_string()),
    ];
    let at = add_phase(&mut tree, "evaluate", &groups, Leaf::Count);
    let shown: Vec<(&str, usize)> = tree
        .nodes
        .iter()
        .map(|n| (n.label.as_str(), n.depth))
        .collect();
    assert_eq!(
        shown,
        vec![("evaluate", 0), ("s1", 1), ("a", 2), ("c", 2), ("s2", 1), ("b", 2)]
    );
    assert_eq!(at, vec![2, 5, 3]);
}

#[test]
fn a_profile_lifts_each_mark_by_itself() {
    let job = |broken: bool, insecure: bool| RawJob {
        attr: "x".into(),
        attr_path: vec!["x".into()],
        drv_path: None,
        meta: Some(RawMeta {
            broken: Some(broken),
            unsupported: None,
            insecure: Some(insecure),
        }),
    };
    let allow_broken = Profile {
        broken: true,
        unsupported: false,
        insecure: false,
    };
    let skipped = |raw: RawJob, p: Profile| raw_to_attr_eval(lift_marks(raw, p)).skipped;
    assert!(!skipped(job(true, false), allow_broken));
    assert!(skipped(job(true, true), allow_broken));
    assert!(skipped(job(false, true), allow_broken));
    let strict = Profile {
        broken: false,
        ..allow_broken
    };
    assert!(skipped(job(true, false), strict));
    assert!(!skipped(job(false, false), strict));
}

#[test]
fn a_pair_without_names_is_told() {
    let names = vec![vec!["a".to_string()], vec![], vec!["b".to_string()], vec![]];
    assert_eq!(nameless(&names), vec![1, 3]);
    assert!(nameless(&[]).is_empty());
}

#[test]
fn a_worker_for_tests_is_heavy() {
    assert_eq!(TESTS_SLOT_MEM_MB, DEFAULT_WORKER_MEM_MB);
    assert_eq!(tests_slots(Some(8), 16384, None), 4);
    assert_eq!(default_slots(Some(8), 16384, None), 8);
    assert_eq!(tests_slots(Some(8), 16384, Some(6)), 6);
    assert_eq!(tests_slots(None, 1 << 20, None), 4);
}
