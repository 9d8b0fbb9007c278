//! The shard scheduler.

use npb::shards::{Run, Shard, Step};

fn items(n: usize) -> Vec<String> {
    (0..n).map(|i| format!("i{i}")).collect()
}

#[test]
fn items_are_cut_into_shards_and_all_land() {
    let groups = [items(5), items(0), items(3)];
    let mut run: Run<String, String> = Run::new(&groups, 2, 4);
    assert_eq!(run.slots, 4);
    let mut rows: Vec<Option<Vec<String>>> = vec![None, None, None];
    let mut shards = Vec::new();
    loop {
        match run.next(0) {
            Step::Stop => break,
            Step::Wait => panic!("nothing is running"),
            Step::Work(s) => {
                shards.push((s.group, s.start, s.end));
                let out = groups[s.group][s.start..s.end].to_vec();
                if let Some(all) = run.land(s, out) {
                    rows[s.group] = Some(all);
                }
                run.finish(s);
            }
        }
    }
    assert_eq!(
        shards,
        vec![(0, 0, 2), (0, 2, 4), (0, 4, 5), (2, 0, 2), (2, 2, 3)]
    );
    assert_eq!(rows[0], Some(items(5)));
    assert_eq!(rows[1], None);
    assert_eq!(rows[2], Some(items(3)));
    assert!(run.outcome().is_ok());
}

#[test]
fn an_aborted_shard_comes_back_on_fewer_slots() {
    let groups = [items(8)];
    let mut run: Run<u32, String> = Run::new(&groups, 1, 8);
    assert_eq!(run.target, 8);
    let first = match run.next(0) {
        Step::Work(s) => s,
        other => panic!("{other:?}"),
    };
    let note = run.abort(first, "HEAD sys");
    assert_eq!(run.target, 4);
    assert!(note.contains("HEAD sys"), "{note}");
    assert!(note.contains("slots 8 -> 4"), "{note}");
    // Workers at or over the target wait.
    assert_eq!(run.next(4), Step::Wait);
    let mut last = first;
    let mut done = 0;
    while let Step::Work(s) = run.next(0) {
        last = s;
        run.land(s, vec![]);
        run.finish(s);
        done += 1;
    }
    assert_eq!(done, 8);
    assert_eq!(last, first); // it went to the end of the queue
    assert_eq!(run.target, 6); // one more for every four successes
    assert_eq!(run.next(0), Step::Stop);
}

#[test]
fn the_target_never_falls_below_one() {
    let groups = [items(2)];
    let mut run: Run<u32, String> = Run::new(&groups, 1, 2);
    for _ in 0..5 {
        if let Step::Work(s) = run.next(0) {
            run.abort(s, "x");
        }
    }
    assert_eq!(run.target, 1);
    assert!(matches!(run.next(0), Step::Work(_)));
}

#[test]
fn the_first_error_fails_the_run() {
    let groups = [items(3)];
    let mut run: Run<u32, &str> = Run::new(&groups, 1, 1);
    run.fail("first");
    run.fail("second");
    assert_eq!(run.next(0), Step::Stop);
    assert_eq!(run.outcome(), Err("first"));
}

#[test]
fn an_idle_worker_waits_for_what_may_come_back() {
    let groups = [items(2)];
    let mut run: Run<u32, String> = Run::new(&groups, 1, 2);
    let a = match run.next(0) {
        Step::Work(s) => s,
        other => panic!("{other:?}"),
    };
    let b = match run.next(1) {
        Step::Work(s) => s,
        other => panic!("{other:?}"),
    };
    assert_eq!(run.next(0), Step::Wait);
    assert_eq!(run.land(b, vec![2]), None);
    run.finish(b);
    assert_eq!(run.next(0), Step::Wait);
    // The rows come out in the order in which the shards landed.
    assert_eq!(run.land(a, vec![1]), Some(vec![2, 1]));
    run.finish(a);
    assert_eq!(run.next(0), Step::Stop);
}

#[test]
fn a_shard_has_at_least_one_item() {
    let groups = [items(2)];
    let run: Run<u32, String> = Run::new(&groups, 0, 9);
    assert_eq!(run.queue.len(), 2);
    assert_eq!(run.slots, 2); // no more workers than shards
    assert_eq!(
        run.queue[1],
        Shard {
            group: 0,
            start: 1,
            end: 2
        }
    );
    let empty: Run<u32, String> = Run::new(&[], 5, 3);
    assert_eq!(empty.slots, 0);
    assert_eq!(empty.outstanding, 0);
}
