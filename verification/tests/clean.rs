//! Eviction: what an argument asks for, what it evicts, and what the user is told.

use npb::amount::{human_bytes, parse_duration_secs, parse_size};
use npb::calendar::{civil_from_days, days_from_civil};
use npb::clean::{
    aborted_message, confirmed, eval_file_tree, evicted_message, fmt_date, is_yes, parse_date, plan,
    short_tree, unix_secs, victims, CleanSpec, Eval, Plan,
};

#[test]
fn parses_sizes() {
    assert_eq!(parse_size("1024"), Some(1024)); // bare = bytes
    assert_eq!(parse_size("500MB"), Some(500_000_000));
    assert_eq!(parse_size("4GiB"), Some(4 * 1024 * 1024 * 1024));
    assert_eq!(parse_size("1.5GB"), Some(1_500_000_000));
    assert_eq!(parse_size("2mo"), None); // a duration, not a size
    assert_eq!(parse_size("2026-07-15"), None); // a date
}

#[test]
fn parses_durations() {
    assert_eq!(parse_duration_secs("30d"), Some(30 * 86_400));
    assert_eq!(parse_duration_secs("2mo"), Some(2 * 2_592_000));
    assert_eq!(parse_duration_secs("1yr"), Some(31_536_000));
    assert_eq!(parse_duration_secs("1y"), Some(31_536_000));
    assert_eq!(parse_duration_secs("500MB"), None);
}

#[test]
fn parses_dates() {
    // 2026-07-15 is 20649 days after the epoch.
    assert_eq!(parse_date("2026-07-15"), Some(20649 * 86_400));
    assert_eq!(parse_date("1970-01-01"), Some(0));
    assert_eq!(parse_date("2026-7-15"), None); // not zero-padded
    assert_eq!(parse_date("2026-13-01"), None); // bad month
    assert_eq!(parse_date("notadate"), None);
}

#[test]
fn spec_dispatch_is_disjoint() {
    assert_eq!(
        CleanSpec::parse("4GiB").unwrap(),
        CleanSpec::Budget(4 << 30)
    );
    assert!(matches!(
        CleanSpec::parse("2026-07-15").unwrap(),
        CleanSpec::Before(_)
    ));
    assert!(matches!(
        CleanSpec::parse("2mo").unwrap(),
        CleanSpec::Before(_)
    ));
    assert!(CleanSpec::parse("garbage").is_err());
}

/// An `Eval` with just the fields that `victims` reads.
fn ev(size: u64, mtime: u64) -> Eval {
    Eval {
        tree: String::new(),
        system: String::new(),
        size,
        mtime,
    }
}

#[test]
fn budget_evicts_least_recently_used_first() {
    // Three 100-byte files, distinct mtimes. Budget 250 keeps the two
    // newest (200 ≤ 250) and evicts the oldest.
    let files = [ev(100, 30), ev(100, 10), ev(100, 20)];
    let mut got = victims(&files, &CleanSpec::Budget(250));
    got.sort();
    assert_eq!(got, vec![1]); // index 1 has the oldest mtime (10)

    // Budget 50 fits nothing → evict all.
    let mut all = victims(&files, &CleanSpec::Budget(50));
    all.sort();
    assert_eq!(all, vec![0, 1, 2]);

    // Budget above the total evicts nothing.
    assert!(victims(&files, &CleanSpec::Budget(1000)).is_empty());
}

#[test]
fn budget_evicts_tail_not_cheapest() {
    // Newest is big (doesn't fit), older two are small (would fit). Strict
    // LRU evicts the newest-that-overflows and everything OLDER — it must
    // not skip the big newest file to keep the older small ones.
    let files = [ev(300, 30), ev(50, 20), ev(50, 10)];
    let mut got = victims(&files, &CleanSpec::Budget(150));
    got.sort();
    assert_eq!(got, vec![0, 1, 2]);
}

#[test]
fn before_evicts_older_than_cutoff() {
    let files = [ev(1, 100), ev(1, 200), ev(1, 300)];
    let mut got = victims(&files, &CleanSpec::Before(250));
    got.sort();
    assert_eq!(got, vec![0, 1]);
}

#[test]
fn human_bytes_reads_well() {
    assert_eq!(human_bytes(512), "512 B");
    assert_eq!(human_bytes(1536), "1.5 KiB");
    assert_eq!(human_bytes(3 * 1024 * 1024 * 1024), "3.0 GiB");
}

#[test]
fn confirmation_needs_an_explicit_yes() {
    for ok in ["y", "Y", "yes", "YES", " yes \n", "y\n"] {
        assert!(is_yes(ok), "{ok:?} should confirm");
    }
    for no in ["", "\n", "n", "no", "nope", "yep", "sure", "1"] {
        assert!(!is_yes(no), "{no:?} should NOT confirm");
    }
}

#[test]
fn date_formatting_round_trips_the_cutoff_parser() {
    // fmt_date is the inverse of parse_date's civil arithmetic.
    assert_eq!(fmt_date(0), "1970-01-01");
    assert_eq!(fmt_date(20649 * 86_400), "2026-07-15");
    // Round-trip a spread of dates through days_from_civil -> civil_from_days.
    for &(y, m, d) in &[(1970, 1, 1), (2000, 2, 29), (2026, 7, 17), (2038, 12, 31)] {
        assert_eq!(civil_from_days(days_from_civil(y, m, d)), (y, m, d));
    }
}

#[test]
fn short_tree_is_a_prefix() {
    assert_eq!(
        short_tree("6ad2cd58bc5c3fe03106020942764b763300789b"),
        "6ad2cd58bc5c"
    );
    assert_eq!(short_tree("abc"), "abc"); // shorter than 12 is fine
}

#[test]
fn sizes_take_every_unit_and_no_other() {
    assert_eq!(parse_size("7B"), Some(7));
    assert_eq!(parse_size("2KB"), Some(2_000));
    assert_eq!(parse_size("2KiB"), Some(2_048));
    assert_eq!(parse_size("1MiB"), Some(1_048_576));
    assert_eq!(parse_size("1TB"), Some(1_000_000_000_000));
    assert_eq!(parse_size("1TiB"), Some(1_099_511_627_776));
    assert_eq!(parse_size("1GB"), Some(1_000_000_000));
    assert_eq!(parse_size(" 12 MB"), Some(12_000_000));
    assert_eq!(parse_size("+12"), Some(12));
    assert_eq!(parse_size("-0"), Some(0));
    assert_eq!(parse_size("12MB "), None);
    assert_eq!(parse_size("2kb"), None);
    assert_eq!(parse_size("0.5KiB"), Some(512));
    assert_eq!(parse_size(".5KB"), Some(500));
    assert_eq!(parse_size("5."), Some(5));
    assert_eq!(parse_size(""), None);
    assert_eq!(parse_size("MB"), None);
    assert_eq!(parse_size("."), None);
    assert_eq!(parse_size("1.2.3"), None);
    assert_eq!(parse_size("-1"), None);
    assert_eq!(parse_size("5PB"), None);
}

#[test]
fn fractions_of_a_byte_are_dropped() {
    assert_eq!(parse_size("1.9"), Some(1));
    assert_eq!(parse_size("0.9"), Some(0));
    assert_eq!(parse_size("1.0019KB"), Some(1_001));
    assert_eq!(parse_duration_secs("1.5d"), Some(129_600));
}

#[test]
fn amounts_beyond_the_limit_saturate() {
    assert_eq!(parse_size("99999999999999999999"), Some(u64::MAX));
    assert_eq!(parse_size("99999999TiB"), Some(u64::MAX));
}

#[test]
fn durations_take_every_unit() {
    assert_eq!(parse_duration_secs("2h"), Some(7_200));
    assert_eq!(parse_duration_secs("1w"), Some(604_800));
    assert_eq!(parse_duration_secs("5"), None);
    assert_eq!(parse_duration_secs("5m"), None);
    assert_eq!(parse_duration_secs("5s"), None);
    assert_eq!(parse_duration_secs("-1d"), None);
}

#[test]
fn a_duration_counts_back_from_now() {
    assert_eq!(
        CleanSpec::parse_at("1d", 100_000).unwrap(),
        CleanSpec::Before(13_600)
    );
    // One that reaches past the epoch stops there.
    assert_eq!(
        CleanSpec::parse_at("10yr", 100_000).unwrap(),
        CleanSpec::Before(0)
    );
    assert_eq!(
        CleanSpec::parse_at("2026-07-15", 5).unwrap(),
        CleanSpec::Before(20649 * 86_400)
    );
}

#[test]
fn an_argument_of_no_form_is_named_in_the_error() {
    let err = CleanSpec::parse("garb\"age").unwrap_err();
    assert_eq!(err.arg, "garb\"age");
    assert!(err.message().contains("\"garb\\\"age\""), "{}", err.message());
}

#[test]
fn dates_before_the_epoch_are_none() {
    assert_eq!(parse_date("1969-12-31"), None);
    assert_eq!(parse_date("2026-02-00"), None);
    assert_eq!(parse_date("2026-02-32"), None);
    assert_eq!(parse_date("2026-00-10"), None);
    assert_eq!(parse_date("2026-07-15x"), None);
    assert_eq!(parse_date("2000-02-29"), Some(11_016 * 86_400));
}

#[test]
fn every_day_of_some_centuries_round_trips() {
    for day in -800_000..800_000 {
        let (y, m, d) = civil_from_days(day);
        assert!((1..=12).contains(&m) && (1..=31).contains(&d));
        assert_eq!(days_from_civil(y, m, d), day);
    }
}

#[test]
fn bytes_scale_to_every_unit() {
    assert_eq!(human_bytes(0), "0 B");
    assert_eq!(human_bytes(1023), "1023 B");
    assert_eq!(human_bytes(1024), "1.0 KiB");
    assert_eq!(human_bytes(1024 * 1024), "1.0 MiB");
    assert_eq!(human_bytes(1024 * 1024 * 1024 * 1024), "1.0 TiB");
    assert_eq!(human_bytes(1587), "1.5 KiB");
    assert_eq!(human_bytes(1588), "1.6 KiB");
}

#[test]
fn files_of_another_suffix_are_no_evals() {
    assert_eq!(eval_file_tree("0123abc.tsv.zst"), Some("0123abc"));
    assert_eq!(eval_file_tree("0123abc.tsv.zst.tmp"), None);
    assert_eq!(eval_file_tree("readme"), None);
}

#[test]
fn only_an_answer_confirms() {
    assert!(confirmed(Some("yes")));
    assert!(!confirmed(Some("no")));
    assert!(!confirmed(None));
}

fn named(tree: &str, system: &str, size: u64, mtime: u64) -> Eval {
    Eval {
        tree: tree.to_string(),
        system: system.to_string(),
        size,
        mtime,
    }
}

#[test]
fn a_plan_lists_the_victims_and_what_remains() {
    let files = [
        named("aaaaaaaaaaaaaaaaaaaa", "x86_64-linux", 2048, 86_400),
        named("bbbbbbbbbbbbbbbbbbbb", "x86_64-linux", 1024, 2 * 86_400),
    ];
    match plan(&files, &CleanSpec::Budget(1500)) {
        Plan::Evict {
            victims,
            freed,
            remains,
            preview,
        } => {
            assert_eq!(victims, vec![0]);
            assert_eq!(freed, 2048);
            assert_eq!(remains, 1024);
            assert_eq!(
                preview,
                vec![
                    "Would evict 1 of 2 eval file(s), freeing 2.0 KiB (1.0 KiB would remain). \
                     Each also drops that eval's --tests cache rows:",
                    "  x86_64-linux/aaaaaaaaaaaa    2.0 KiB  last used 1970-01-02",
                ]
            );
        }
        Plan::Nothing(m) => panic!("nothing to evict: {m}"),
    }
    match plan(&files, &CleanSpec::Budget(4096)) {
        Plan::Nothing(m) => assert_eq!(
            m,
            "nothing to evict: 3.0 KiB in 2 eval file(s) already within budget"
        ),
        Plan::Evict { .. } => panic!("all fits"),
    }
    assert!(matches!(plan(&[], &CleanSpec::Budget(0)), Plan::Nothing(_)));
}

#[test]
fn the_user_is_told_what_happened() {
    assert_eq!(aborted_message(), "Aborted; nothing deleted.");
    assert_eq!(
        evicted_message(2, 2048, 7, 1024),
        "Evicted 2 eval file(s) (2.0 KiB freed, 7 test row(s) purged); \
         1.0 KiB of eval cache remains."
    );
}

#[test]
fn what_stays_within_a_budget_fits_it() {
    let files: Vec<Eval> = (0..40)
        .map(|i| ev(i * 37 % 101, i * 7919 % 257))
        .collect();
    for budget in [0, 1, 50, 500, 1000, 2000, 5000] {
        let gone = victims(&files, &CleanSpec::Budget(budget));
        let kept: u64 = (0..files.len())
            .filter(|i| !gone.contains(i))
            .map(|i| files[i].size)
            .sum();
        assert!(kept <= budget);
        for v in &gone {
            for (k, f) in files.iter().enumerate() {
                if !gone.contains(&k) {
                    assert!(files[*v].mtime <= f.mtime);
                }
            }
        }
    }
}

#[test]
fn a_clock_before_the_epoch_reads_zero() {
    assert_eq!(unix_secs(Some(1_784_073_600)), 1_784_073_600);
    assert_eq!(unix_secs(Some(0)), 0);
    assert_eq!(unix_secs(None), 0);
}

#[test]
fn a_date_is_digits_only() {
    assert_eq!(parse_date("+026-07-15"), None);
    assert_eq!(parse_date("2026-+7-15"), None);
    assert_eq!(parse_date("2026-07-+5"), None);
    assert_eq!(parse_date("2026-07-15"), Some(1_784_073_600));
    assert!(CleanSpec::parse_at("2026-+7-15", 5).is_err());
}

/// What double precision makes of an amount.
fn in_doubles(num: &str, mult: f64) -> Option<u64> {
    let n: f64 = num.parse().unwrap();
    if n >= 0.0 {
        Some((n * mult) as u64)
    } else {
        None
    }
}

#[test]
fn amounts_are_of_double_precision() {
    assert_eq!(parse_size("1.005KB"), Some(1004));
    let tiny = format!("-0.{}1", "0".repeat(330));
    let least = format!("-0.{}5", "0".repeat(323));
    let long = format!("{}.{}", "1234567890", "987654321".repeat(90));
    let tie = "9007199254740993";
    let past_tie = "9007199254740993.0000000000000000000000000001";
    let nums = [
        "0", "1.005", "0.1", "0.29", "1.1", "2.675", "8.41", "4.35", "1023.9999999999999999",
        "0.9999999999999999999999", "0.99999999999999994", "0.99999999999999995",
        "18446744073709551615", "18446744073709551614.9", "18446744073709549568",
        "4503599627370497.5", "9007199254740992.5", "36028797018963970", "123456789.987654321", "16777215.999999999",
        "-0", "-0.0", "-3.5", ".5", "5.", "+7.25", "00012.5000", "0.000000000000000000000000001",
        tie, past_tie, &tiny, &least, &long,
    ];
    let units = [
        ("B", 1.0),
        ("KB", 1e3),
        ("MB", 1e6),
        ("GB", 1e9),
        ("TB", 1e12),
        ("KiB", 1024.0),
        ("MiB", 1048576.0),
        ("GiB", 1073741824.0),
        ("TiB", 1099511627776.0),
    ];
    for num in nums {
        for (unit, mult) in units {
            assert_eq!(
                parse_size(&format!("{num}{unit}")),
                in_doubles(num, mult),
                "{num} {unit}"
            );
        }
        for (unit, mult) in [("h", 3600.0), ("d", 86400.0), ("yr", 31536000.0)] {
            assert_eq!(
                parse_duration_secs(&format!("{num}{unit}")),
                in_doubles(num, mult),
                "{num} {unit}"
            );
        }
    }
    // Decimals all over the place.
    let mut seed: u64 = 88172645463325252;
    for _ in 0..500 {
        seed ^= seed << 13;
        seed ^= seed >> 7;
        seed ^= seed << 17;
        let digits = seed.to_string();
        let at = (seed % digits.len() as u64) as usize;
        let num = format!("{}.{}", &digits[..at], &digits[at..]);
        assert_eq!(parse_size(&format!("{num}KB")), in_doubles(&num, 1e3), "{num}");
        assert_eq!(parse_size(&format!("{num}TiB")), in_doubles(&num, 1099511627776.0), "{num}");
        let small = format!("0.{}{digits}", "0".repeat(at));
        assert_eq!(parse_size(&format!("{small}TB")), in_doubles(&small, 1e12), "{small}");
    }
}

#[test]
fn a_tree_is_cut_by_bytes() {
    assert_eq!(short_tree("ééééééé"), "éééééé");
    assert_eq!(short_tree("abcdefghijkl"), "abcdefghijkl");
    assert_eq!(short_tree("aé"), "aé");
    assert_eq!(short_tree(""), "");
}
