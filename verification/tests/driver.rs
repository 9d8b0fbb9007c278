//! The build driver.

use npb::driver::{
    any_invalid, block_is_stale, blocked_fact, build_args, cache_hit, culprits, drv_built,
    drvs_needing_instantiation, drvs_to_materialize, event_text, has_fact, healed, leftover, leftover_fact, local_fact,
    propagates, recheck_fact, still_failing, stopped_fact, to_build, to_probe, to_recheck, BuildLog, Failing,
    Known, NixEvent, Target, ACT_BUILD,
};
use npb::model::{BuildPolicy, Observation, Outcome};
use npb::store::{Record, Source};

fn strings(v: &[&str]) -> Vec<String> {
    v.iter().map(|s| s.to_string()).collect()
}

fn record(drv: &str, outcome: Outcome, blocker: &[&str]) -> Record {
    local_fact(drv, outcome, 1, &strings(blocker))
}

fn known(drv: &str, skipped: bool, records: Vec<Record>) -> Known {
    Known {
        target: Target {
            system: "sys".into(),
            drv_path: drv.into(),
            skipped,
        },
        records,
    }
}

#[test]
fn only_what_is_unknown_is_probed() {
    let set = [
        known("/new", false, vec![]),
        known("/built", false, vec![record("/built", Outcome::Built, &[])]),
        known("/failed", false, vec![record("/failed", Outcome::Failed, &[])]),
        known("/marked", true, vec![]),
        known("/new", false, vec![]),
    ];
    let p = BuildPolicy::default();
    assert_eq!(to_probe(&set, p), vec!["/new"]);
    let all = BuildPolicy {
        no_skip: true,
        retry: false,
    };
    assert_eq!(to_probe(&set, all), vec!["/new", "/marked"]);
    assert!(has_fact(&set[1].records));
    assert!(!has_fact(&set[0].records));
}

#[test]
fn facts_say_where_they_come_from() {
    let hit = cache_hit("/d", 7);
    assert_eq!(hit.source, Source::Cache);
    assert_eq!(hit.outcome, Outcome::Built);
    assert_eq!((hit.drv_path.as_str(), hit.when), ("/d", 7));
    let fact = local_fact("/d", Outcome::DepFailed, 8, &strings(&["/o"]));
    assert_eq!(fact.source, Source::Local);
    assert_eq!(fact.blocker, vec!["/o"]);
}

#[test]
fn a_build_succeeded_if_all_its_outputs_are_valid() {
    let outs = strings(&["/o1", "/o2"]);
    assert!(drv_built(&outs, &[]));
    assert!(!drv_built(&outs, &strings(&["/o2"])));
    assert!(!drv_built(&[], &[]));
    assert!(any_invalid(&outs, &strings(&["/x", "/o1"])));
    assert!(!any_invalid(&outs, &strings(&["/x"])));
}

#[test]
fn a_block_is_stale_once_its_culprit_is_built() {
    let obs = |blocker: &[&str]| Observation {
        drv_path: "/d".into(),
        outcome: Outcome::DepFailed,
        blocker: strings(blocker),
    };
    assert!(block_is_stale(&[obs(&["/o"])], &[]));
    assert!(!block_is_stale(&[obs(&["/o"])], &strings(&["/o"])));
    // A block that names no culprit is taken to hold.
    assert!(!block_is_stale(&[obs(&[])], &[]));
    // Every block has to be stale.
    assert!(!block_is_stale(&[obs(&["/a"]), obs(&["/b"])], &strings(&["/b"])));
}

#[test]
fn the_policy_decides_what_is_built() {
    let set = [
        known("/new", false, vec![]),
        known("/built", false, vec![record("/built", Outcome::Built, &[])]),
        known("/failed", false, vec![record("/failed", Outcome::Failed, &[])]),
        known("/marked", true, vec![]),
        known("/healed", false, vec![record("/healed", Outcome::DepFailed, &["/o"])]),
        known("/held", false, vec![record("/held", Outcome::DepFailed, &["/bad"])]),
    ];
    let bad = strings(&["/bad"]);
    assert_eq!(to_build(&set, BuildPolicy::default(), &bad), vec![0, 4]);
    let retry = BuildPolicy {
        retry: true,
        no_skip: false,
    };
    assert_eq!(to_build(&set, retry, &bad), vec![0, 2, 4, 5]);
    // What is probed and what is built has to be in the store.
    assert_eq!(
        drvs_to_materialize(&set, BuildPolicy::default(), &bad),
        vec!["/new", "/new", "/healed", "/failed"]
    );
}

#[test]
fn all_outputs_are_built_in_one_batch() {
    let args = build_args(&strings(&["/a.drv", "/b.drv"]), false);
    assert_eq!(&args[..3], &["build", "/a.drv^*", "/b.drv^*"]);
    assert!(args.contains(&"--keep-going".to_string()));
    assert!(!args.contains(&"--rebuild".to_string()));
    assert!(build_args(&strings(&["/a.drv"]), true).contains(&"--rebuild".to_string()));
}

fn event(action: &str, id: u64, typ: Option<i64>, field: Option<&str>) -> NixEvent {
    NixEvent {
        action: action.into(),
        id: Some(id),
        typ,
        first_field: field.map(str::to_string),
    }
}

#[test]
fn a_build_is_finished_when_its_activity_stops() {
    let mut log = BuildLog::new();
    let start = event("start", 1, Some(ACT_BUILD), Some("/a.drv"));
    assert_eq!(log.on_event(&start), None);
    let dep = event("start", 2, Some(ACT_BUILD), Some("/dep.drv"));
    assert_eq!(log.on_event(&dep), None);
    let other = event("start", 3, Some(100), Some("/c.drv"));
    assert_eq!(log.on_event(&other), None);
    // A dependency that was not asked for finishes too.
    assert_eq!(
        log.on_event(&event("stop", 2, None, None)).as_deref(),
        Some("/dep.drv")
    );
    assert_eq!(log.on_event(&event("stop", 3, None, None)), None);
    assert_eq!(
        log.on_event(&event("stop", 1, None, None)).as_deref(),
        Some("/a.drv")
    );
    assert_eq!(log.on_event(&event("stop", 1, None, None)), None);
    assert!(log.attempted.contains(&"/a.drv".to_string()));
    assert!(!log.attempted.contains(&"/c.drv".to_string()));
}

#[test]
fn events_stand_behind_a_prefix() {
    assert_eq!(event_text("@nix {\"a\":1}"), Some("{\"a\":1}"));
    assert_eq!(event_text("building..."), None);
}

#[test]
fn a_build_that_stopped_is_told_by_its_outputs() {
    let outs = strings(&["/o1", "/o2"]);
    let built = stopped_fact("/d", true, &outs, &[], 5).unwrap();
    assert_eq!((built.outcome, built.source), (Outcome::Built, Source::Local));
    assert!(built.blocker.is_empty());
    // A failure names the outputs that decide it anew.
    let failed = stopped_fact("/d", true, &outs, &strings(&["/o2"]), 5).unwrap();
    assert_eq!(failed.outcome, Outcome::Failed);
    assert_eq!(failed.blocker, vec!["/o1", "/o2"]);
    assert_eq!(failed.when, 5);
    // Of a dependency only a failure is recorded.
    assert!(stopped_fact("/dep", false, &outs, &[], 5).is_none());
    let dep = stopped_fact("/dep", false, &outs, &strings(&["/o1"]), 5).unwrap();
    assert_eq!((dep.drv_path.as_str(), dep.outcome), ("/dep", Outcome::Failed));
}

#[test]
fn a_failure_heals_once_its_outputs_are_valid() {
    let set = [
        known("/healed", false, vec![record("/healed", Outcome::Failed, &["/o"])]),
        known("/held", false, vec![record("/held", Outcome::Failed, &["/bad"])]),
        known("/unnamed", false, vec![record("/unnamed", Outcome::Failed, &[])]),
        known(
            "/built",
            false,
            vec![
                record("/built", Outcome::Failed, &["/o"]),
                record("/built", Outcome::Built, &[]),
            ],
        ),
        known("/blocked", false, vec![record("/blocked", Outcome::DepFailed, &["/o"])]),
    ];
    let bad = strings(&["/bad"]);
    assert_eq!(healed(&set, &bad), vec![0]);
    assert_eq!(healed(&set, &[]), vec![0, 1]);
    // A failure that names no outputs is decided anew from its derivation.
    assert_eq!(to_recheck(&set, BuildPolicy::default()), vec!["/unnamed"]);
    let again = recheck_fact("/unnamed", &strings(&["/bad"]), &bad, 9).unwrap();
    assert_eq!((again.outcome, again.blocker), (Outcome::Failed, strings(&["/bad"])));
    let built = recheck_fact("/unnamed", &strings(&["/o"]), &bad, 9).unwrap();
    assert_eq!(built.outcome, Outcome::Built);
    assert!(recheck_fact("/unnamed", &[], &bad, 9).is_none());
    let marked = [known("/m", true, vec![record("/m", Outcome::Failed, &[])])];
    assert!(to_recheck(&marked, BuildPolicy::default()).is_empty());
}

#[test]
fn nothing_is_blamed_without_a_culprit() {
    let failing = |drv: &str, outs: &[&str]| Failing {
        drv_path: drv.into(),
        outputs: strings(outs),
    };
    let known_failing = [
        failing("/fixed", &["/f"]),
        failing("/odd", &[]),
        failing("/dep", &["/d1", "/d2"]),
        failing("/dep2", &["/e"]),
        failing("/self", &["/s"]),
    ];
    let invalid = strings(&["/d2", "/e", "/s"]);
    assert_eq!(still_failing(&known_failing, &invalid), vec!["/dep", "/dep2", "/self"]);
    let closure = strings(&["/fixed", "/dep", "/dep2", "/self"]);
    let fact = blocked_fact("/self", &closure, &known_failing, &invalid, 3).unwrap();
    assert_eq!(fact.outcome, Outcome::DepFailed);
    assert_eq!(fact.blocker, vec!["/d1", "/d2"]);
    // Nothing that still fails is in this closure.
    let free = strings(&["/fixed", "/odd", "/self"]);
    assert!(blocked_fact("/self", &free, &known_failing, &invalid, 3).is_none());
    let outs = strings(&["/s"]);
    let settle = |outs: &[String], closure: &[String], invalid: &[String]| {
        leftover_fact("/self", outs, closure, &known_failing, invalid, 3).map(|r| r.outcome)
    };
    assert_eq!(settle(&outs, &closure, &invalid), Some(Outcome::DepFailed));
    assert_eq!(settle(&outs, &closure, &strings(&["/e"])), Some(Outcome::Built));
    // One that was never reached, and that nothing blocks, stays unknown.
    assert_eq!(settle(&outs, &free, &invalid), None);
}

#[test]
fn what_has_no_outcome_is_left_over() {
    assert_eq!(
        leftover(&strings(&["/a", "/b", "/a", "/c"]), &strings(&["/b"])),
        vec!["/a", "/c"]
    );
}

#[test]
fn a_derivation_is_blocked_by_what_fails_in_its_closure() {
    let closure = strings(&["/dep", "/ok", "/self"]);
    let failing = strings(&["/self", "/dep", "/other"]);
    assert_eq!(culprits("/self", &closure, &failing), vec!["/dep"]);
    assert!(culprits("/self", &closure, &[]).is_empty());
}

#[test]
fn a_known_set_is_not_probed() {
    let set = [
        known("/hit", false, vec![cache_hit("/hit", 1)]),
        known("/failed", false, vec![record("/failed", Outcome::Failed, &[])]),
        known("/blocked", false, vec![record("/blocked", Outcome::DepFailed, &[])]),
    ];
    for no_skip in [false, true] {
        let policy = BuildPolicy { retry: true, no_skip };
        assert!(to_probe(&set, policy).is_empty());
        // What was seen built is not built again, even on a retry.
        assert_eq!(to_build(&set, policy, &[]), vec![1, 2]);
    }
}

#[test]
fn what_is_in_the_store_is_not_instantiated() {
    let drvs = strings(&["/a", "/b", "/a", "/c"]);
    let invalid = strings(&["/a", "/c", "/x"]);
    assert_eq!(drvs_needing_instantiation(&drvs, &invalid), vec!["/a", "/a", "/c"]);
    assert!(drvs_needing_instantiation(&drvs, &[]).is_empty());
}

#[test]
fn blocks_are_looked_for_where_something_fails() {
    let failing = strings(&["/a"]);
    let policy = BuildPolicy::default();
    assert!(propagates(policy, &failing));
    assert!(!propagates(policy, &[]));
    let retry = BuildPolicy {
        retry: true,
        no_skip: false,
    };
    assert!(!propagates(retry, &failing));
}
