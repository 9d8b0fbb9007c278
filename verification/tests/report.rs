//! The report.

use npb::model::{Observation, Outcome};
use npb::report::{
    longest_backtick_run, priority, render, render_at, render_section, section_before, side_state,
    Entry, State,
};
use npb::report::State::{Absent, Blocked, Built, Failed, Skipped, Unknown};
use npb::URL;

fn obs(outcome: Outcome) -> Observation {
    Observation {
        drv_path: "/nix/store/x.drv".into(),
        outcome,
        blocker: Vec::new(),
    }
}

#[test]
fn state_reduction() {
    // No drv on a side is Absent, not Unknown.
    assert_eq!(side_state(&None, false, &[]), State::Absent);
    // A drv with no facts is Unknown (distinct from Absent).
    let d = Some("/nix/store/x.drv".to_string());
    assert_eq!(side_state(&d, false, &[]), State::Unknown);
    // Direct vs transitive failures are distinguished.
    assert_eq!(
        side_state(&d, false, &[obs(Outcome::Failed)]),
        State::Failed
    );
    assert_eq!(
        side_state(&d, false, &[obs(Outcome::DepFailed)]),
        State::Blocked
    );
    // A success ever recorded — a local build or a cache hit, which the log
    // doesn't distinguish — wins over a failure: flakiness reads as
    // "it can build".
    assert_eq!(side_state(&d, false, &[obs(Outcome::Built)]), State::Built);
    let s = side_state(&d, false, &[obs(Outcome::Built), obs(Outcome::Failed)]);
    assert_eq!(s, State::Built);
    // The effective meta-blocked bit masks recorded facts — a default run
    // shows ⏩ even for a drv an earlier --no-skip run built or failed, so
    // its report doesn't depend on what past runs learned. (Under --no-skip
    // the caller passes skipped = false, exposing the real outcome.)
    assert_eq!(side_state(&d, true, &[]), State::Skipped);
    assert_eq!(side_state(&d, true, &[obs(Outcome::Built)]), State::Skipped);
    assert_eq!(
        side_state(&d, true, &[obs(Outcome::Failed)]),
        State::Skipped
    );
    // No drv is still Absent, even when meta-blocked.
    assert_eq!(side_state(&None, true, &[]), State::Absent);
}

#[test]
fn reproduction_fence_outgrows_embedded_backticks() {
    // A working-tree reproduction embeds its diff, which can contain a ```
    // run (editing a Markdown file). The fence must be longer so the report
    // block doesn't close early.
    let cmd = "git apply --cached <<'PATCH'\n+```sh hi\nPATCH";
    let out = render("b", "h", cmd, &[]);
    assert!(out.contains("\n````sh\n"), "{out}");
    // The block closes on its own oversized fence, then the <details> wrapping it.
    assert!(out.contains("\n````\n</details>\n"), "{out}");
    // The common (no-backtick) command still gets a plain triple fence.
    let out = render("b", "h", "npd --base a --head b", &[]);
    assert!(out.contains("\n```sh\n"), "{out}");
}

#[test]
fn priority_orders_worst_delta_first() {
    let mut pairs: Vec<(State, State)> = State::all()
        .iter()
        .flat_map(|&b| State::all().into_iter().map(move |h| (b, h)))
        .collect();

    // The full sort key (priority + the (base, head) tie-break render uses)
    // is a total order: every pair gets a distinct slot, so section order is
    // deterministic.
    let mut seen = std::collections::HashSet::new();
    for &(b, h) in &pairs {
        assert!(
            seen.insert((priority(b, h), b, h)),
            "duplicate slot {b:?}→{h:?}"
        );
    }
    assert_eq!(seen.len(), 36);

    pairs.sort_by_key(|&(b, h)| (priority(b, h), b, h));
    let at = |p| pairs.iter().position(|&x| x == p).unwrap();
    // The steepest fall leads; a regression outranks unchanged, which
    // outranks any improvement.
    assert_eq!(pairs[0], (Built, Failed));
    assert!(at((Built, Skipped)) < at((Built, Built)));
    assert!(at((Built, Built)) < at((Failed, Built)));
    // Equal deltas break by a worse current state: Δ=-2 lands
    // ⏩→❌ before ➖→🚫 before ✅→⏩.
    assert!(at((Skipped, Failed)) < at((Absent, Blocked)));
    assert!(at((Absent, Blocked)) < at((Built, Skipped)));
    // No measured delta (either side Unknown) sinks to a final contiguous tier.
    let first_unknown = pairs
        .iter()
        .position(|&(b, h)| b == Unknown || h == Unknown)
        .unwrap();
    assert!(pairs[first_unknown..]
        .iter()
        .all(|&(b, h)| b == Unknown || h == Unknown));
}

fn entry(attr: &str, base: State, head: State, bd: Option<&str>, hd: Option<&str>) -> Entry {
    Entry {
        attr: attr.into(),
        base_drv: bd.map(str::to_string),
        head_drv: hd.map(str::to_string),
        base,
        head,
    }
}

#[test]
fn render_sections_tokens_grouping_and_folding() {
    let entries = vec![
        // a regression
        entry(
            "pkgA",
            State::Built,
            State::Failed,
            Some("/b/a.drv"),
            Some("/h/a.drv"),
        ),
        // two distinct blocked drvs, transitive glyph 🚫
        entry(
            "dep1",
            State::Built,
            State::Blocked,
            Some("/b/d1"),
            Some("/h/d1"),
        ),
        entry(
            "dep2",
            State::Built,
            State::Blocked,
            Some("/b/d2"),
            Some("/h/d2"),
        ),
        // newly skipped (meta), distinct from dep-blocked
        entry(
            "brk",
            State::Built,
            State::Skipped,
            Some("/b/k"),
            Some("/h/k"),
        ),
        // two attrs sharing one drv, unchanged (grouped onto one line)
        entry(
            "z.foo",
            State::Built,
            State::Built,
            Some("/b/f"),
            Some("/h/f"),
        ),
        entry(
            "foo",
            State::Built,
            State::Built,
            Some("/b/f"),
            Some("/h/f"),
        ),
    ];
    let out = render(
        "base",
        "head",
        "npd --base base --head head",
        &[("aarch64-linux".into(), entries)],
    );

    // The reproduction command sits in a code block behind a folded <details>.
    assert!(
        out.contains(
            "<details><summary>Expand this for a reproducible command.</summary>\n\n\
             ```sh\nnpd --base base --head head\n```\n</details>\n"
        ),
        "{out}"
    );
    // The glyph legend is a second folded <details>, one bullet per state.
    assert!(
        out.contains("<details><summary>Expand this for a legend of all symbols below.</summary>"),
        "{out}"
    );
    assert!(out.contains("- ✅ = successfully built\n"), "{out}");
    assert!(out.contains("- ❔ = couldn't try to build\n"), "{out}");

    // Composable glyph tokens with a plain package count; the transitive
    // distinction shows through 🚫.
    assert!(out.contains("✅ → ❌ · 1 package"), "{out}");
    assert!(out.contains("✅ → 🚫 · 2 packages"), "{out}");
    assert!(out.contains("✅ → ⏩ · 1 package"), "{out}");
    // Grouping: shared drv collapses to one equals-joined line, shortest first.
    assert!(out.contains("- `foo` = `z.foo`"), "{out}");
    // Two attrs, one derivation: the total counts, the distinct count notes.
    assert!(out.contains("✅ → ✅ · 2 packages (1 unique)"), "{out}");
    // All sections are folded closed.
    assert!(out.contains("<details><summary>✅ → ❌"), "{out}");
    assert!(out.contains("<details><summary>✅ → ✅"), "{out}");
    assert!(!out.contains("<details open>"), "{out}");
    // Ordering: regression before blocked before newly-skipped before unchanged.
    let reg = out.find("→ ❌").unwrap();
    let blk = out.find("→ 🚫").unwrap();
    let brk = out.find("→ ⏩").unwrap();
    let unch = out.find("✅ → ✅").unwrap();
    assert!(reg < blk && blk < brk && brk < unch, "{out}");
}

#[test]
fn sections_sort_as_their_priorities_do() {
    let pairs: Vec<(State, State)> = State::all()
        .iter()
        .flat_map(|&b| State::all().into_iter().map(move |h| (b, h)))
        .collect();
    for &p in &pairs {
        for &q in &pairs {
            let by_key = (priority(p.0, p.1), p.0, p.1) <= (priority(q.0, q.1), q.0, q.1);
            assert_eq!(section_before(p, q), by_key, "{p:?} {q:?}");
        }
    }
}

#[test]
fn a_section_reads_line_by_line() {
    let a = entry("bb", State::Built, State::Failed, Some("/1"), Some("/2"));
    let b = entry("a", State::Built, State::Failed, Some("/3"), Some("/4"));
    let c = entry("aa", State::Built, State::Failed, Some("/1"), Some("/2"));
    let text = render_section(State::Built, State::Failed, &[&a, &b, &c]);
    assert!(
        text.contains("✅ → ❌ · 3 packages (2 unique)"),
        "{text}"
    );
    let one = text.find("- `a`\n").unwrap();
    let two = text.find("- `aa` = `bb`\n").unwrap();
    assert!(one < two, "{text}");
}

#[test]
fn a_run_of_backticks_is_the_longest() {
    assert_eq!(longest_backtick_run(""), 0);
    assert_eq!(longest_backtick_run("no ticks"), 0);
    assert_eq!(longest_backtick_run("`a``b```c`"), 3);
    assert_eq!(longest_backtick_run("````"), 4);
}

#[test]
fn the_heading_names_both_sides_and_the_source() {
    let out = render("basesha", "headsha", "cmd", &[]);
    let first = out.lines().next().unwrap();
    assert!(first.contains("basesha") && first.contains("headsha"), "{first}");
    assert!(first.contains(URL), "{first}");
    let elsewhere = render_at("https://example.org/x", "b", "h", "cmd", &[]);
    assert!(elsewhere.lines().next().unwrap().contains("https://example.org/x"));
}

#[test]
fn every_state_has_a_glyph_and_a_label_of_its_own() {
    let mut glyphs = std::collections::HashSet::new();
    let mut labels = std::collections::HashSet::new();
    for s in State::all() {
        assert!(glyphs.insert(s.glyph()));
        assert!(labels.insert(s.label()));
    }
    assert!(State::Built.goodness() > State::Failed.goodness());
}

#[test]
fn a_report_does_not_depend_on_the_order_of_its_entries() {
    let make = || {
        vec![
            entry("b", Built, Failed, Some("/1"), Some("/2")),
            entry("aa", Built, Failed, Some("/1"), Some("/2")),
            entry("c", Failed, Built, Some("/3"), Some("/4")),
            entry("d", Built, Failed, Some("/5"), Some("/6")),
        ]
    };
    let text = |entries: Vec<Entry>| render("x", "y", "npb", &[("sys".to_string(), entries)]);
    let forward = text(make());
    let mut reversed = make();
    reversed.reverse();
    assert_eq!(text(reversed), forward);
    let mut turned = make();
    turned.rotate_left(2);
    assert_eq!(text(turned), forward);
}
