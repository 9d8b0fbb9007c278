//! The rows of the store.

use npb::model::{Outcome, TestJob};
use npb::store::{
    add_observation, cache_test_eval, cached_pkgs_sql, failing_drvs, load_many_sql,
    load_observations, load_observations_many, outcome_from, outcome_str, placeholders, read_row,
    read_rows, restore_drv, source_from, source_str, strip_drv, test_drvs_sql, tests_drvs_for, Record, Row, Source,
    StoreError,
};

/// What a store that was given `records` reads back.
fn read_back(records: &[Record]) -> Vec<Record> {
    let rows: Vec<_> = records.iter().map(add_observation).collect();
    read_rows(&rows).unwrap()
}

#[test]
fn observations_append_and_load() {
    let mk = |outcome, when| Record {
        drv_path: "/nix/store/x.drv".into(),
        source: Source::Local,
        outcome,
        when,
        blocker: Vec::new(),
    };
    assert!(load_observations(&read_back(&[]), "/nix/store/x.drv").is_empty());

    let mut log = vec![mk(Outcome::Failed, 100), mk(Outcome::Built, 200)];
    let back = read_back(&log);
    assert_eq!(back[1].source, Source::Local);
    let got = load_observations(&back, "/nix/store/x.drv");
    assert_eq!(got.len(), 2);
    assert_eq!(got[0].outcome, Outcome::Failed); // oldest first
    assert_eq!(got[1].outcome, Outcome::Built);
    // a different drv is independent
    assert!(load_observations(&back, "/nix/store/y.drv").is_empty());

    // A dep-failed's culprit output paths round-trip through the blocker
    // column (newline-joined); a non-dep-failed carries none.
    let mut dep = mk(Outcome::DepFailed, 300);
    dep.drv_path = "/nix/store/z.drv".into();
    dep.blocker = vec!["/nix/store/o1".into(), "/nix/store/o2".into()];
    log.push(dep);
    let back = read_back(&log);
    let got = load_observations(&back, "/nix/store/z.drv");
    assert_eq!(got[0].blocker, vec!["/nix/store/o1", "/nix/store/o2"]);
    assert!(load_observations(&back, "/nix/store/x.drv")[0]
        .blocker
        .is_empty());
}

#[test]
fn many_derivations_are_read_in_one_pass() {
    let mk = |drv: &str, outcome, when| Record {
        drv_path: drv.into(),
        source: Source::Local,
        outcome,
        when,
        blocker: vec![format!("/out/{when}")],
    };
    let back = read_back(&[
        mk("/a.drv", Outcome::Failed, 1),
        mk("/b.drv", Outcome::Built, 2),
        mk("/a.drv", Outcome::Built, 3),
        mk("/c.drv", Outcome::Failed, 4),
    ]);
    let drvs: Vec<String> = ["/b.drv", "/none.drv", "/a.drv", "/b.drv"]
        .iter()
        .map(|d| d.to_string())
        .collect();
    let found = load_observations_many(&back, &drvs);
    let times: Vec<Vec<i64>> = found
        .iter()
        .map(|records| records.iter().map(|r| r.when).collect())
        .collect();
    assert_eq!(times, vec![vec![2], vec![], vec![1, 3], vec![2]]);
    assert_eq!(found[2][1].drv_path, "/a.drv");
    assert_eq!(found[2][1].outcome, Outcome::Built);
    assert_eq!(found[2][1].blocker, vec!["/out/3"]);
    assert!(load_observations_many(&back, &[]).is_empty());
    assert_eq!(load_observations_many(&[], &drvs).len(), 4);
}

#[test]
fn failing_drvs_are_failures_only() {
    let obs = |drv: &str, source, outcome, when| Record {
        drv_path: drv.into(),
        source,
        outcome,
        when,
        blocker: Vec::new(),
    };
    let log = [
        // a: only local failures -> failing.
        obs("/a.drv", Source::Local, Outcome::Failed, 1),
        obs("/a.drv", Source::Local, Outcome::DepFailed, 2),
        // b: failed then built (flaky success) -> NOT failing.
        obs("/b.drv", Source::Local, Outcome::Failed, 1),
        obs("/b.drv", Source::Local, Outcome::Built, 2),
        // c: local failure but substitutable (Cache/Built) -> NOT failing.
        obs("/c.drv", Source::Local, Outcome::Failed, 1),
        obs("/c.drv", Source::Cache, Outcome::Built, 2),
        // d: only a cache hit (never failed locally) -> NOT failing.
        obs("/d.drv", Source::Cache, Outcome::Built, 1),
        // e: dep-failed only -> failing.
        obs("/e.drv", Source::Local, Outcome::DepFailed, 1),
    ];
    let failing: std::collections::HashSet<String> =
        failing_drvs(&read_back(&log)).into_iter().collect();
    assert_eq!(
        failing,
        ["/a.drv".to_string(), "/e.drv".to_string()]
            .into_iter()
            .collect()
    );
}

#[test]
fn only_tests_with_a_derivation_are_cached() {
    let job = |t: &str, drv: Option<&str>, skipped| TestJob {
        pkg_attr: "hello".into(),
        test_attr: t.into(),
        drv_path: drv.map(str::to_string),
        skipped,
    };
    // hello has two tests (one skipped); one test errored (no drv).
    let rows = cache_test_eval(&[
        job("hello.tests.run", Some("/nix/store/a.drv"), false),
        job("hello.tests.err", None, false),
        job("hello.tests.version", Some("/nix/store/b.drv"), true),
    ]);
    assert_eq!(rows.len(), 2);
    assert_eq!(rows[0].drv_path, "a");
    assert_eq!(rows[0].pkg_attr, "hello");
    let back = tests_drvs_for(&rows);
    let got: Vec<(&str, Option<&str>, bool)> = back
        .iter()
        .map(|e| (e.attr.as_str(), e.drv_path.as_deref(), e.skipped))
        .collect();
    assert_eq!(
        got,
        vec![
            ("hello.tests.run", Some("/nix/store/a.drv"), false),
            ("hello.tests.version", Some("/nix/store/b.drv"), true),
        ]
    );
}

#[test]
fn labels_are_read_as_they_were_written() {
    for s in [Source::Local, Source::Cache] {
        assert_eq!(source_from(source_str(s)).unwrap(), s);
    }
    for o in [Outcome::Built, Outcome::Failed, Outcome::DepFailed] {
        assert_eq!(outcome_from(outcome_str(o)).unwrap(), o);
    }
}

#[test]
fn unknown_labels_are_errors() {
    let err = source_from("hydra").unwrap_err();
    assert!(matches!(&err, StoreError::UnknownSource(s) if s == "hydra"));
    assert_eq!(
        err.message(),
        "unknown observation source in store: \"hydra\""
    );
    let err = outcome_from("bui\"lt").unwrap_err();
    assert!(matches!(&err, StoreError::UnknownOutcome(_)));
    assert_eq!(
        err.message(),
        "unknown observation outcome in store: \"bui\\\"lt\""
    );
    let mut row = add_observation(&Record {
        drv_path: "/x".into(),
        source: Source::Local,
        outcome: Outcome::Built,
        when: 5,
        blocker: vec![],
    });
    assert_eq!(row.blocker, None);
    assert_eq!(read_row(&row).unwrap().when, 5);
    row.outcome = "odd".into();
    assert!(read_row(&row).is_err());
    assert!(read_rows(&[row]).is_err());
}

#[test]
fn derivation_paths_are_stored_without_their_affixes() {
    assert_eq!(strip_drv("/nix/store/abc-x.drv"), "abc-x");
    assert_eq!(restore_drv("abc-x"), "/nix/store/abc-x.drv");
    for odd in ["/d/x", "/nix/store/abc-x", "/elsewhere/abc.drv"] {
        assert_eq!(strip_drv(odd), odd);
        assert_eq!(restore_drv(odd), odd);
    }
    // A second slash is not restored.
    assert_eq!(restore_drv(&strip_drv("/nix/store//x.drv")), "/x");
}

#[test]
fn queries_have_a_place_for_every_parameter() {
    assert_eq!(placeholders(3), "?,?,?");
    assert_eq!(placeholders(1), "?");
    assert_eq!(placeholders(0), "");
    assert_eq!(
        load_many_sql(2),
        "SELECT drv_path, source, outcome, when_, blocker FROM observation \
         WHERE drv_path IN (?,?) ORDER BY when_, id"
    );
    assert_eq!(
        cached_pkgs_sql(2),
        "SELECT pkg_attr FROM test_pkg WHERE key_id = ?1 AND pkg_attr IN (?,?)"
    );
    assert_eq!(
        test_drvs_sql(1),
        "SELECT test_attr, drv_path, skipped FROM test_drv WHERE key_id = ?1 AND pkg_attr IN (?)"
    );
}

#[test]
fn a_database_gives_back_what_was_recorded() {
    let conn = rusqlite::Connection::open_in_memory().unwrap();
    conn.execute_batch(
        "CREATE TABLE observation (id INTEGER PRIMARY KEY, drv_path TEXT NOT NULL, \
         source TEXT NOT NULL, outcome TEXT NOT NULL, when_ INTEGER NOT NULL, blocker TEXT) STRICT;",
    )
    .unwrap();
    let record = |drv: &str, outcome, when, blocker: &[&str]| Record {
        drv_path: drv.into(),
        source: Source::Local,
        outcome,
        when,
        blocker: blocker.iter().map(|s| s.to_string()).collect(),
    };
    // Recorded out of order: what is read comes oldest first.
    for r in [
        record("/a", Outcome::Built, 20, &[]),
        record("/b", Outcome::Failed, 15, &[]),
        record("/a", Outcome::DepFailed, 10, &["/o1", "/o2"]),
    ] {
        let row = add_observation(&r);
        conn.execute(
            "INSERT INTO observation (drv_path, source, outcome, when_, blocker) \
             VALUES (?1, ?2, ?3, ?4, ?5)",
            (row.drv_path, row.source, row.outcome, row.when, row.blocker),
        )
        .unwrap();
    }
    let mut stmt = conn.prepare(&load_many_sql(2)).unwrap();
    let rows: Vec<Row> = stmt
        .query_map(("/a", "/none"), |r| {
            Ok(Row {
                drv_path: r.get(0)?,
                source: r.get(1)?,
                outcome: r.get(2)?,
                when: r.get(3)?,
                blocker: r.get(4)?,
            })
        })
        .unwrap()
        .map(|r| r.unwrap())
        .collect();
    let back = read_rows(&rows).unwrap();
    assert_eq!(back.len(), 2);
    assert_eq!((back[0].when, back[1].when), (10, 20));
    assert_eq!(back[0].blocker, vec!["/o1", "/o2"]);
    assert_eq!(back[1].outcome, Outcome::Built);
    let seen = load_observations(&back, "/a");
    assert_eq!(seen.len(), 2);
    assert_eq!(seen[0].outcome, Outcome::DepFailed);
}

#[test]
fn the_first_row_that_cannot_be_read_is_told() {
    let row = |source: &str, outcome: &str| Row {
        drv_path: "/x.drv".into(),
        source: source.into(),
        outcome: outcome.into(),
        when: 1,
        blocker: None,
    };
    let good = add_observation(&Record {
        drv_path: "/x.drv".into(),
        source: Source::Cache,
        outcome: Outcome::Built,
        when: 1,
        blocker: Vec::new(),
    });
    let rows = vec![good, row("local", "odd"), row("hydra", "built")];
    let err = read_rows(&rows).unwrap_err();
    assert!(matches!(&err, StoreError::UnknownOutcome(s) if s == "odd"));
    assert_eq!(read_rows(&rows[..1]).unwrap().len(), 1);
}
