//! The build policy, and the keys that evaluations are stored under.

use npb::model::{
    has_outcome, BuildPolicy, Decision, Observation, Outcome, Profile, Rev,
};

fn obs(outcome: Outcome) -> Observation {
    Observation {
        drv_path: "/nix/store/x.drv".into(),
        outcome,
        blocker: Vec::new(),
    }
}

#[test]
fn never_observed_builds() {
    assert_eq!(
        BuildPolicy::default().decide(&[], false, false),
        Decision::Build
    );
}

#[test]
fn recorded_success_skips() {
    // A Built fact — a local build or a recorded cache hit, which the log
    // doesn't distinguish — decides SkipOk.
    let o = [obs(Outcome::Built)];
    assert_eq!(
        BuildPolicy::default().decide(&o, false, false),
        Decision::SkipOk
    );
}

#[test]
fn only_failures_skip_unless_retry() {
    let o = [obs(Outcome::Failed)];
    assert_eq!(
        BuildPolicy::default().decide(&o, false, false),
        Decision::SkipFail
    );
    let p = BuildPolicy {
        retry: true,
        ..Default::default()
    };
    assert_eq!(p.decide(&o, false, false), Decision::Build);
}

#[test]
fn flaky_success_wins() {
    let o = [obs(Outcome::Failed), obs(Outcome::Built)];
    assert_eq!(
        BuildPolicy::default().decide(&o, false, false),
        Decision::SkipOk
    );
}

#[test]
fn dep_block_holds_until_culprit_heals() {
    // A dependency block (DepFailed, no direct failure) is skipped while its
    // culprit still fails, but re-attempted the moment the block goes stale —
    // no --retry needed. This is the self-healing property.
    let o = [obs(Outcome::DepFailed)];
    assert_eq!(
        BuildPolicy::default().decide(&o, false, false),
        Decision::SkipFail
    );
    assert_eq!(
        BuildPolicy::default().decide(&o, false, true),
        Decision::Build
    );
}

#[test]
fn direct_failure_stays_sticky_even_when_a_dep_block_is_stale() {
    // A drv that failed *directly* is sticky regardless of dep staleness: a
    // stale sibling dep-block must not resurrect a real direct failure.
    // --retry is the only escape.
    let o = [obs(Outcome::Failed), obs(Outcome::DepFailed)];
    assert_eq!(
        BuildPolicy::default().decide(&o, false, true),
        Decision::SkipFail
    );
    let retry = BuildPolicy {
        retry: true,
        ..Default::default()
    };
    assert_eq!(retry.decide(&o, false, true), Decision::Build);
}

#[test]
fn skipped_stays_skipped_unless_no_skip() {
    // Meta-blocked: never attempted by default, not even under --retry.
    let p = BuildPolicy::default();
    assert_eq!(p.decide(&[], true, false), Decision::Skipped);
    let retry = BuildPolicy {
        retry: true,
        ..Default::default()
    };
    assert_eq!(
        retry.decide(&[obs(Outcome::Failed)], true, false),
        Decision::Skipped
    );

    // The marking masks recorded facts: even a drv an earlier --no-skip run
    // built (or found in the cache) stays Skipped on a default run, so its
    // behavior doesn't depend on what past runs happened to learn.
    let o = [obs(Outcome::Built)];
    assert_eq!(p.decide(&o, true, false), Decision::Skipped);

    // --no-skip restores the normal policy.
    let ns = BuildPolicy {
        no_skip: true,
        ..Default::default()
    };
    assert_eq!(ns.decide(&[], true, false), Decision::Build);
    assert_eq!(ns.decide(&o, true, false), Decision::SkipOk);
}

#[test]
fn the_order_of_facts_is_irrelevant() {
    let all = [Outcome::Built, Outcome::Failed, Outcome::DepFailed];
    for a in all {
        for b in all {
            for retry in [false, true] {
                for stale in [false, true] {
                    let p = BuildPolicy {
                        retry,
                        no_skip: false,
                    };
                    assert_eq!(
                        p.decide(&[obs(a), obs(b)], false, stale),
                        p.decide(&[obs(b), obs(a)], false, stale)
                    );
                }
            }
        }
    }
}

#[test]
fn a_success_is_final_even_under_retry() {
    let p = BuildPolicy {
        retry: true,
        no_skip: true,
    };
    let o = [obs(Outcome::Failed), obs(Outcome::Built)];
    assert_eq!(p.decide(&o, true, true), Decision::SkipOk);
}

#[test]
fn outcomes_are_found_among_facts() {
    let o = [obs(Outcome::Failed)];
    assert!(has_outcome(&o, Outcome::Failed));
    assert!(!has_outcome(&o, Outcome::Built));
    assert!(!has_outcome(&[], Outcome::Failed));
}

#[test]
fn every_profile_has_a_key_of_its_own() {
    let mut keys = std::collections::HashSet::new();
    for bits in 0..8 {
        let p = Profile {
            broken: bits & 1 != 0,
            unsupported: bits & 2 != 0,
            insecure: bits & 4 != 0,
        };
        assert!(keys.insert(p.qualify("x86_64-linux")));
    }
    let strict = Profile {
        broken: false,
        unsupported: false,
        insecure: false,
    };
    assert_eq!(strict.qualify("x86_64-linux"), "---/x86_64-linux");
}

#[test]
fn a_revision_is_cloned_whole() {
    let r = Rev {
        tree: "t".into(),
        commit: "c".into(),
        label: "l".into(),
        display: "d".into(),
    };
    let s = r.clone();
    assert_eq!(
        (s.tree, s.commit, s.label, s.display),
        (r.tree, r.commit, r.label, r.display)
    );
}
