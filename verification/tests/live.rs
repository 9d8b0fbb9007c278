//! The progress tree and the block that it is drawn in.

use npb::live::{
    human_elapsed, plan_label_width, separator, spinner, width, windowed, Live, Progress, Tree,
};

#[test]
fn elapsed_is_a_fixed_width_clock() {
    // h/m/s fields dropping empty leading ones, starting at `0s`, right-padded
    // to a constant width so the text after the timer doesn't shift as it grows.
    assert_eq!(human_elapsed(0), "      0s");
    assert_eq!(human_elapsed(51), "     51s");
    assert_eq!(human_elapsed(89), "   1m29s");
    assert_eq!(human_elapsed(90), "   1m30s");
    assert_eq!(human_elapsed(3600), "1h00m00s");
    assert_eq!(human_elapsed(5400), "1h30m00s");
    // Every rendering up to ~10h is the same width; `9h59m59s` is the widest.
    for s in [0, 51, 599, 3600, 35999] {
        assert_eq!(human_elapsed(s).len(), 8);
    }
}

/// All node lines except the (time-dependent) footer.
fn node_lines(tree: &Tree) -> Vec<String> {
    let mut lines = tree.render(0);
    lines.pop(); // drop the spinner + clock footer
    lines
}

#[test]
fn renders_states_counts_and_totals() {
    // Single system: phase → commit. Colors live only on the label; the count
    // is plain, the ` / total` dim, nothing bold. A done side collapses to a
    // bare count; a running side shows `count / total`.
    let mut tree = Tree::new(0, false);
    tree.node("evaluate", 0);
    let base = tree.counter("master", 1, -1);
    let head = tree.counter("HEAD", 1, -1);
    tree.at(base).set_running();
    tree.at(base).set_count(114230);
    tree.at(base).set_done();
    tree.at(head).set_running();
    tree.at(head).set_total(114231);
    tree.at(head).add_count(107347);

    let lines = node_lines(&tree);
    assert_eq!(
        lines,
        vec![
            // rollup: a running child → the phase is yellow.
            "\x1b[33mevaluate\x1b[0m".to_string(),
            // done → green label, bare plain count, aligned in the 8-wide column.
            "\x1b[32m  master\x1b[0m  114230".to_string(),
            // running → yellow label, plain count, dim ` / total`.
            "\x1b[33m  HEAD  \x1b[0m  107347\x1b[90m / 114231\x1b[0m".to_string(),
        ]
    );
}

#[test]
fn waiting_counter_shows_no_number() {
    // A counter still in WAIT renders as a bare colored label — no `0`.
    let mut tree = Tree::new(0, false);
    tree.node("tests", 0);
    tree.counter("HEAD", 1, -1); // left in WAIT
    assert_eq!(
        node_lines(&tree),
        vec![
            "\x1b[34mtests\x1b[0m".to_string(),
            "\x1b[34m  HEAD\x1b[0m".to_string(),
        ]
    );
}

#[test]
fn rollup_all_done_is_green() {
    let mut tree = Tree::new(0, false);
    tree.node("enumerate", 0);
    for c in ["master", "HEAD"] {
        let n = tree.counter(c, 1, -1);
        tree.at(n).set_running();
        tree.at(n).set_count(100);
        tree.at(n).set_done();
    }
    assert_eq!(node_lines(&tree)[0], "\x1b[32menumerate\x1b[0m");
}

#[test]
fn empty_tree_draws_nothing() {
    let tree = Tree::new(11, false);
    assert!(tree.is_empty());
    assert!(tree.render(0).is_empty());
    assert!(tree.render_frozen().is_empty());
}

#[test]
fn plan_width_clears_every_label() {
    // Single system: the longest phase name (`instantiate`, 11) is the floor.
    assert_eq!(plan_label_width(&["aarch64-linux".into()], None, None), 11);
    // Multi-system: a system name at depth 1 is widest (2 + 13).
    assert_eq!(
        plan_label_width(&["aarch64-linux".into(), "x86_64-linux".into()], None, None),
        15
    );
    // A PR fetch ref at depth 1 (2 + 19) beats them all.
    assert_eq!(
        plan_label_width(&["aarch64-linux".into()], Some(431), None),
        21
    );
}

#[test]
fn a_compare_expression_widens_the_labels() {
    let expr = "aaaaaaaaaaaaaaaaaaaa...bbbbbbbbbbbbbbbbbbbb";
    assert_eq!(plan_label_width(&[], None, Some(expr)), expr.len() + 2);
    assert_eq!(plan_label_width(&[], None, Some("a...b")), 11);
}

#[test]
fn a_finished_node_does_not_start_again() {
    let mut tree = Tree::new(0, true);
    assert!(tree.multi());
    let n = tree.node("fetch", 0);
    assert_eq!(tree.at(n).state, Progress::Wait);
    tree.at(n).set_running();
    assert_eq!(tree.at(n).state, Progress::Run);
    tree.at(n).set_done();
    assert_eq!(tree.at(n).state, Progress::Done);
}

#[test]
fn a_frame_without_colours_is_plain_text() {
    let mut tree = Tree::with_color(10, false, false);
    tree.node("evaluate", 0);
    let n = tree.counter("HEAD", 1, 20);
    tree.at(n).set_running();
    tree.at(n).add_count(7);
    let lines = tree.lines(None, false, 61);
    assert_eq!(lines.len(), 3);
    assert_eq!(lines[0], "evaluate");
    assert_eq!(lines[1], "  HEAD           7 /     20");
    assert!(lines[2].contains("1m01s"), "{}", lines[2]);
    assert!(!lines.iter().any(|l| l.contains('\x1b')));
}

#[test]
fn the_spinner_turns() {
    for n in 0..20 {
        assert!(spinner(n).contains(
            ["⠋", "⠙", "⠹", "⠸", "⠼", "⠴", "⠦", "⠧", "⠇", "⠏"][n % 10]
        ));
    }
}

#[test]
fn a_terminal_without_a_width_has_eighty_columns() {
    assert_eq!(width(None), 80);
    assert_eq!(width(Some(120)), 120);
}

fn strings(lines: &[&str]) -> Vec<String> {
    lines.iter().map(|s| s.to_string()).collect()
}

#[test]
fn only_changed_lines_are_rewritten() {
    let mut live = Live::new();
    let first = live.draw(&strings(&["one", "two"]), Some(80)).unwrap();
    assert_eq!(
        first,
        "\x1b[?2026h\rone\x1b[K\r\ntwo\x1b[K\r\n\x1b[?2026l"
    );
    let second = live.draw(&strings(&["one", "TWO"]), Some(80)).unwrap();
    assert_eq!(second, "\x1b[?2026h\x1b[2A\r\r\nTWO\x1b[K\r\n\x1b[?2026l");
    let steady = live.draw(&strings(&["one", "TWO"]), Some(80)).unwrap();
    assert_eq!(steady, "\x1b[?2026h\x1b[2A\r\r\n\r\n\x1b[?2026l");
    let fewer = live.draw(&strings(&["one"]), Some(80)).unwrap();
    assert_eq!(fewer, "\x1b[?2026h\x1b[2A\rone\x1b[K\r\n\x1b[J\x1b[?2026l");
    // A line is cut to the width.
    let cut = live.draw(&strings(&["abcdef"]), Some(3)).unwrap();
    assert_eq!(cut, "\x1b[?2026h\x1b[1A\rabc\x1b[K\r\n\x1b[?2026l");
    assert_eq!(live.draw(&strings(&["x"]), None), None);
}

#[test]
fn a_message_goes_above_the_block() {
    let mut live = Live::new();
    assert_eq!(live.print_above("hello", None), "hello\n");
    live.draw(&strings(&["one"]), Some(80));
    assert_eq!(
        live.print_above("a\nb", Some(80)),
        "\x1b[?2026h\x1b[1A\r\x1b[Ja\x1b[K\r\nb\x1b[K\r\n\x1b[?2026l"
    );
    assert_eq!(live.clear(true), None);
    live.draw(&strings(&["one"]), Some(80));
    assert_eq!(live.clear(true).as_deref(), Some("\x1b[1A\r\x1b[J"));
    assert_eq!(live.clear(true), None);
}

#[test]
fn the_separator_is_dim_on_a_terminal() {
    assert_eq!(separator(true), "\n\x1b[90m---\x1b[0m\n\n");
    assert_eq!(separator(false), "\n---\n\n");
}

#[test]
fn the_numbers_stand_in_one_column() {
    let mut tree = Tree::with_color(0, true, false);
    tree.node("evaluate", 0);
    tree.node("x86_64-linux", 1);
    for (label, count) in [("a", 7), ("a-longer-name", 123456)] {
        let n = tree.counter(label, 2, -1);
        tree.at(n).set_running();
        tree.at(n).set_count(count);
    }
    let lines = tree.lines(None, false, 0);
    assert_eq!(lines[2], "    a                   7");
    assert_eq!(lines[3], "    a-longer-name  123456");
    assert_eq!(lines[2].len(), lines[3].len());
}

#[test]
fn a_phase_is_done_once_its_leaves_are() {
    let mut tree = Tree::with_color(0, false, true);
    tree.node("evaluate", 0);
    let a = tree.counter("a", 1, -1);
    tree.counter("b", 1, -1);
    assert!(tree.lines(None, true, 0)[0].starts_with("\x1b[34m"));
    tree.at(a).set_running();
    tree.at(a).set_done();
    // One is done and one waits.
    assert!(tree.lines(None, true, 0)[0].starts_with("\x1b[33m"));
}

#[test]
fn an_evaluation_shows_how_much_has_landed() {
    let mut tree = Tree::with_color(0, false, false);
    tree.node("evaluate", 0);
    let head = tree.percent("HEAD", 1);
    let plain = tree.counter("x", 1, -1);
    tree.at(head).set_shards_total(3);
    tree.at(head).set_running();
    tree.at(head).add_count(120);
    // A node without shards takes no notice.
    tree.at(plain).set_shards_total(3);
    tree.at(plain).shard_progress(1);
    tree.at(plain).set_running();
    let line = |tree: &Tree, i: usize| tree.lines(None, false, 0)[i].clone();
    assert_eq!(line(&tree, 1), "  HEAD       120    0%");
    tree.at(head).shard_progress(2);
    assert_eq!(line(&tree, 1), "  HEAD       120   66%");
    assert_eq!(
        tree.lines(None, true, 0)[1],
        "\x1b[33m  HEAD  \x1b[0m     120\x1b[90m   66%\x1b[0m"
    );
    tree.at(head).shard_progress(3);
    assert_eq!(line(&tree, 1), "  HEAD       120  100%");
    assert_eq!(line(&tree, 2), "  x            0");
    tree.at(head).set_done();
    assert_eq!(line(&tree, 1), "  HEAD       120");
}

#[test]
fn a_long_block_is_folded_at_its_top() {
    let lines: Vec<String> = (0..10).map(|i| format!("line {i}")).collect();
    assert_eq!(windowed(&lines, 11), lines);
    assert_eq!(
        windowed(&lines, 4),
        vec!["\x1b[90m⋯ 8 more\x1b[0m", "line 8", "line 9"]
    );
    assert_eq!(windowed(&lines, 10).len(), 9);
    assert_eq!(windowed(&lines, 2), vec!["\x1b[90m⋯ 10 more\x1b[0m"]);
    assert!(windowed(&lines, 1).is_empty());
    assert!(windowed(&lines, 0).is_empty());
    assert!(windowed(&[], 1).is_empty());
}

#[test]
fn colours_change_nothing_but_the_colour() {
    let mut tree = Tree::with_color(0, false, false);
    tree.node("evaluate", 0);
    let base = tree.percent("master", 1);
    let head = tree.counter("HEAD", 1, 9);
    tree.at(base).set_running();
    tree.at(head).set_running();
    let mut plain = tree.lines(None, false, 0);
    let mut coloured = tree.lines(None, true, 0);
    plain.pop();
    coloured.pop();
    assert_ne!(plain, coloured);
    let codes = ["\x1b[34m", "\x1b[33m", "\x1b[32m", "\x1b[90m", "\x1b[0m"];
    for (p, c) in plain.iter().zip(coloured) {
        let stripped = codes.iter().fold(c, |s, code| s.replace(code, ""));
        assert_eq!(&stripped, p);
    }
}

#[test]
fn nodes_do_not_restart_the_clock() {
    let mut tree = Tree::with_color(0, false, false);
    let start = tree.start;
    tree.node("evaluate", 0);
    tree.counter("a", 1, -1);
    let b = tree.percent("b", 1);
    tree.at(b).set_running();
    assert_eq!(tree.start, start);
}
