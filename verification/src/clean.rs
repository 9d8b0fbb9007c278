//! `--clean`: bounding the cache on disk by evicting eval files.
//!
//! Each eval file stands on its own and can be derived again, so the cache is
//! bounded by dropping whole files. When a file was last used is its modification
//! time, which every cache hit renews. Evicting a file also purges the rows of
//! the test cache for its tree and system; the log of build observations is left
//! alone.

use vstd::prelude::*;
use vstd::utf8::{
    decode_utf8, encode_utf8, encode_utf8_decode_utf8, encode_utf8_valid_utf8, is_ascii_chars,
    is_ascii_chars_encode_utf8, is_char_boundary, is_char_boundary_iff_not_is_continuation_byte,
    is_char_boundary_start_end_of_seq,
};

use crate::amount::{
    bytes_text, duration_value, human_bytes, parse_duration_secs, parse_size, size_value,
};
use crate::calendar::{civil, civil_from_days, day_number, days_from_civil};
use crate::order::{in_order, sort, total_preorder};
use crate::outside::{quoted, quoted_text, seconds_since_epoch};
use crate::search::{lowered, parts, split, strip_suffix, to_lower, trim, trimmed, without_suffix};
use crate::text::{
    all_digits, decimal, digits_value, joined, parse_u64, push_decimal, push_right_aligned,
    right_aligned, texts,
};

verus! {

// --- what to clean ----------------------------------------------------------

/// What `--clean` reduces the eval cache to.
#[derive(Debug, Clone, Copy, PartialEq, Eq, Structural)]
pub enum CleanSpec {
    /// Keep the most recently used eval files whose combined size fits in this
    /// many bytes; evict the least recently used rest.
    Budget(u64),
    /// Evict every eval file last used strictly before this Unix time (seconds):
    /// how both a date and a duration ago are expressed.
    Before(u64),
}

/// A `--clean` argument that is neither a size, nor a date, nor a duration.
#[derive(Debug)]
pub struct CleanError {
    pub arg: String,
}

impl CleanError {
    /// What to tell the user.
    pub fn message(&self) -> (out: String)
        ensures
            out@ == "could not parse --clean "@ + quoted_text(self.arg@)
                + ": expected a size (4GiB, 500MB), a date (2026-07-15), or a duration (2mo, 1yr, 30d)"@,
    {
        let mut out = String::new();
        out.append("could not parse --clean ");
        out.append(quoted(self.arg.as_str()).as_str());
        out.append(
            ": expected a size (4GiB, 500MB), a date (2026-07-15), or a duration (2mo, 1yr, 30d)",
        );
        assert(out@ =~= "could not parse --clean "@ + quoted_text(self.arg@)
            + ": expected a size (4GiB, 500MB), a date (2026-07-15), or a duration (2mo, 1yr, 30d)"@);
        out
    }
}

/// Whether `s` is `width` digits and nothing else.
pub open spec fn is_field(s: Seq<char>, width: nat) -> bool {
    s.len() == width && all_digits(s)
}

/// The Unix time of the midnight (UTC) that starts the date `s`, if `s` is a
/// `YYYY-MM-DD` date, in digits, that does not lie before 1970.
pub open spec fn date_value(s: Seq<char>) -> Option<u64> {
    let ps = parts(s, '-');
    if ps.len() == 3 && is_field(ps[0], 4) && is_field(ps[1], 2) && is_field(ps[2], 2) {
        let (y, m, d) = (digits_value(ps[0]), digits_value(ps[1]), digits_value(ps[2]));
        let days = day_number(y, m, d);
        if 1 <= m <= 12 && 1 <= d <= 31 && days >= 0 {
            Some((days * 86_400) as u64)
        } else {
            None
        }
    } else {
        None
    }
}

/// What a `--clean` argument means at the Unix time `now`: a date, a size budget
/// or a duration ago.
pub open spec fn spec_at(s: Seq<char>, now: u64) -> Option<CleanSpec> {
    match date_value(s) {
        Some(secs) => Some(CleanSpec::Before(secs)),
        None => match size_value(s) {
            Some(bytes) => Some(CleanSpec::Budget(bytes)),
            None => match duration_value(s) {
                Some(ago) => Some(
                    CleanSpec::Before(
                        if ago <= now {
                            (now - ago) as u64
                        } else {
                            0
                        },
                    ),
                ),
                None => None,
            },
        },
    }
}

/// Four digits denote a number below ten thousand.
proof fn lemma_short_number(s: Seq<char>)
    requires
        s.len() <= 4,
        all_digits(s),
    ensures
        0 <= digits_value(s) <= 9999,
{
    reveal_with_fuel(crate::text::digits_value, 5);
    assert forall|i: int| 0 <= i < s.len() implies 0 <= crate::text::digit_value(#[trigger] s[i])
        <= 9 by {
        assert(crate::text::is_digit(s[i]));
    }
}

/// One field of a date: the number that its `width` digits denote.
fn date_field(s: &str, width: usize) -> (value: Option<i64>)
    requires
        1 <= width <= 4,
    ensures
        match value {
            Some(v) => is_field(s@, width as nat) && v == digits_value(s@) && 0 <= v <= 9999,
            None => !is_field(s@, width as nat),
        },
{
    if s.unicode_len() != width {
        return None;
    }
    if s.get_char(0) == '+' {
        assert(!crate::text::is_digit(s@[0]));
        return None;
    }
    proof {
        if all_digits(s@) {
            lemma_short_number(s@);
        }
    }
    match parse_u64(s) {
        Some(v) => Some(v as i64),
        None => None,
    }
}

/// The day number of a date from year 0 to 9999 is small.
proof fn lemma_small_day(y: int, m: int, d: int)
    requires
        0 <= y <= 9999,
        1 <= m <= 12,
        1 <= d <= 31,
    ensures
        -719_600 <= day_number(y, m, d) <= 3_000_000,
{
    crate::calendar::lemma_day_bounds(y, m, d);
}

/// A `YYYY-MM-DD` date as the Unix time of its midnight (UTC).
pub fn parse_date(s: &str) -> (secs: Option<u64>)
    ensures
        secs == date_value(s@),
{
    let ps = split(s, '-');
    let ghost want = parts(s@, '-');
    assert(texts(ps@).len() == ps@.len());
    if ps.len() != 3 {
        return None;
    }
    assert(want[0] == ps@[0]@ && want[1] == ps@[1]@ && want[2] == ps@[2]@);
    let (y, m, d) = match (
        date_field(ps[0].as_str(), 4),
        date_field(ps[1].as_str(), 2),
        date_field(ps[2].as_str(), 2),
    ) {
        (Some(y), Some(m), Some(d)) => (y, m, d),
        _ => {
            return None;
        },
    };
    if m < 1 || m > 12 || d < 1 || d > 31 {
        return None;
    }
    let days: i64 = days_from_civil(y, m, d);
    proof {
        lemma_small_day(y as int, m as int, d as int);
    }
    if days < 0 {
        return None;
    }
    Some(days as u64 * 86_400)
}

/// The Unix time, as the clock gives it. Nothing is claimed of what time it is.
fn now_secs() -> (secs: u64)
{
    unix_secs(seconds_since_epoch())
}

/// The Unix time of a clock that reads so many seconds since the epoch, or zero where
/// it is before the epoch and reads none.
pub fn unix_secs(reading: Option<u64>) -> (secs: u64)
    ensures
        secs == (match reading {
            Some(since) => since,
            None => 0,
        }),
{
    match reading {
        Some(since) => since,
        None => 0,
    }
}

impl CleanSpec {
    /// Parses a `--clean` argument: a size budget (`4GiB`, `500MB`, `1048576`), an
    /// absolute date (`2026-07-15`, UTC midnight), or a duration ago (`2mo`,
    /// `1yr`, `30d`). Only a duration depends on the time at which it is parsed.
    pub fn parse(s: &str) -> (out: Result<CleanSpec, CleanError>)
        ensures
            exists|now: u64|
                match out {
                    Ok(spec) => #[trigger] spec_at(trimmed(s@), now) == Some(spec),
                    Err(e) => spec_at(trimmed(s@), now) is None && e.arg@ == trimmed(s@),
                },
    {
        let now = now_secs();
        let out = CleanSpec::parse_at(s, now);
        assert(match out {
            Ok(spec) => spec_at(trimmed(s@), now) == Some(spec),
            Err(e) => spec_at(trimmed(s@), now) is None && e.arg@ == trimmed(s@),
        });
        out
    }

    /// Parses a `--clean` argument at the Unix time `now`.
    pub fn parse_at(s: &str, now: u64) -> (out: Result<CleanSpec, CleanError>)
        ensures
            match out {
                Ok(spec) => spec_at(trimmed(s@), now) == Some(spec),
                Err(e) => spec_at(trimmed(s@), now) is None && e.arg@ == trimmed(s@),
            },
    {
        let s = trim(s);
        if let Some(secs) = parse_date(s) {
            return Ok(CleanSpec::Before(secs));
        }
        if let Some(bytes) = parse_size(s) {
            return Ok(CleanSpec::Budget(bytes));
        }
        if let Some(ago) = parse_duration_secs(s) {
            let cutoff: u64 = if ago <= now {
                now - ago
            } else {
                0
            };
            return Ok(CleanSpec::Before(cutoff));
        }
        Err(CleanError { arg: s.to_owned() })
    }
}

// --- which files to evict ---------------------------------------------------

/// One eval file: the tree and system that it caches, its size, and when it was
/// last used.
#[derive(Debug)]
pub struct Eval {
    pub tree: String,
    pub system: String,
    pub size: u64,
    pub mtime: u64,
}

/// The tree that an eval file caches, from the file's name; nothing where the
/// file is no eval file.
pub fn eval_file_tree(name: &str) -> (tree: Option<&str>)
    ensures
        crate::text::opt_str(tree) == without_suffix(name@, ".tsv.zst"@),
{
    strip_suffix(name, ".tsv.zst")
}

/// When a file was last used, its size, and where it stands in the list.
#[derive(Debug, Clone, Copy, PartialEq, Eq, Structural)]
pub struct Used {
    pub mtime: u64,
    pub size: u64,
    pub index: usize,
}

/// What the choice of victims looks at of file `i`.
pub open spec fn used(files: Seq<Eval>, i: int) -> Used {
    Used { mtime: files[i].mtime, size: files[i].size, index: i as usize }
}

/// What the choice of victims looks at.
pub open spec fn uses(files: Seq<Eval>) -> Seq<Used> {
    Seq::new(files.len(), |i: int| used(files, i))
}

/// Newest first; of files used at the same time the smaller one first, then the
/// one that stands first.
pub open spec fn newer_first() -> spec_fn(Used, Used) -> bool {
    |a: Used, b: Used|
        a.mtime > b.mtime || (a.mtime == b.mtime && (a.size < b.size || (a.size == b.size
            && a.index <= b.index)))
}

/// Least recently used first.
pub open spec fn older_first() -> spec_fn(Used, Used) -> bool {
    |a: Used, b: Used| a.mtime <= b.mtime
}

/// The files, newest first.
pub open spec fn ranked(files: Seq<Eval>) -> Seq<Used> {
    in_order(uses(files), newer_first())
}

/// The combined size of files.
pub open spec fn size_of(us: Seq<Used>) -> int
    decreases us.len(),
{
    if us.len() == 0 {
        0
    } else {
        size_of(us.drop_last()) + us.last().size
    }
}

/// How many of some files, taken in order, fit into `budget` bytes.
pub open spec fn fitting(us: Seq<Used>, budget: int) -> int
    decreases us.len(),
{
    if us.len() > 0 && us[0].size <= budget {
        1 + fitting(us.skip(1), budget - us[0].size)
    } else {
        0
    }
}

/// The files that a budget keeps, newest first.
pub open spec fn kept(files: Seq<Eval>, budget: u64) -> Seq<Used> {
    ranked(files).take(fitting(ranked(files), budget as int))
}

/// The files to evict.
pub open spec fn evicted(files: Seq<Eval>, spec: CleanSpec) -> Seq<Used> {
    match spec {
        CleanSpec::Before(cutoff) => uses(files).filter(|u: Used| u.mtime < cutoff),
        CleanSpec::Budget(budget) => ranked(files).skip(fitting(ranked(files), budget as int)),
    }
}

/// Where files stand in the list.
pub open spec fn indices_of(us: Seq<Used>) -> Seq<usize> {
    us.map_values(|u: Used| u.index)
}

/// No more files fit than there are; those that fit do, and one more would not.
proof fn lemma_fitting(us: Seq<Used>, budget: int)
    requires
        budget >= 0,
    ensures
        0 <= fitting(us, budget) <= us.len(),
        size_of(us.take(fitting(us, budget))) <= budget,
        fitting(us, budget) < us.len() ==> size_of(us.take(fitting(us, budget) + 1)) > budget,
    decreases us.len(),
{
    let n = fitting(us, budget);
    if us.len() > 0 && us[0].size <= budget {
        let rest = us.skip(1);
        lemma_fitting(rest, budget - us[0].size);
        lemma_size_front(us.take(n));
        assert(us.take(n).skip(1) =~= rest.take(n - 1));
        if n < us.len() {
            lemma_size_front(us.take(n + 1));
            assert(us.take(n + 1).skip(1) =~= rest.take(n));
        }
    } else {
        assert(us.take(0) =~= Seq::<Used>::empty());
        if us.len() > 0 {
            lemma_size_front(us.take(1));
            assert(us.take(1).skip(1) =~= Seq::<Used>::empty());
        }
    }
}

/// The first file's size counts.
proof fn lemma_size_front(us: Seq<Used>)
    requires
        us.len() > 0,
    ensures
        size_of(us) == us[0].size + size_of(us.skip(1)),
    decreases us.len(),
{
    if us.len() > 1 {
        lemma_size_front(us.drop_last());
        assert(us.drop_last().skip(1) =~= us.skip(1).drop_last());
    } else {
        assert(us.drop_last() =~= Seq::<Used>::empty());
        assert(us.skip(1) =~= Seq::<Used>::empty());
        reveal_with_fuel(size_of, 2);
    }
}

/// The order in which a budget keeps files compares every two consistently.
proof fn lemma_newer_first()
    ensures
        total_preorder(newer_first()),
{
}

/// A budget keeps files of no more than that size together, and keeps as many of
/// the newest as that allows.
pub proof fn lemma_budget_is_kept(files: Seq<Eval>, budget: u64)
    ensures
        size_of(kept(files, budget)) <= budget,
        kept(files, budget).len() < files.len() ==> size_of(
            kept(files, budget).push(evicted(files, CleanSpec::Budget(budget))[0]),
        ) > budget,
{
    let order = ranked(files);
    let n = fitting(order, budget as int);
    lemma_fitting(order, budget as int);
    crate::order::lemma_in_order_keeps(uses(files), newer_first());
    if n < order.len() {
        assert(order.take(n + 1) =~= order.take(n).push(order.skip(n)[0]));
    }
}

/// A budget evicts the least recently used: no file that it evicts was used later
/// than one that it keeps.
pub proof fn lemma_strict_lru(files: Seq<Eval>, budget: u64, k: int, v: int)
    requires
        0 <= k < kept(files, budget).len(),
        0 <= v < evicted(files, CleanSpec::Budget(budget)).len(),
    ensures
        evicted(files, CleanSpec::Budget(budget))[v].mtime <= kept(files, budget)[k].mtime,
{
    let order = ranked(files);
    let n = fitting(order, budget as int);
    lemma_fitting(order, budget as int);
    lemma_newer_first();
    crate::order::lemma_in_order_sorted(uses(files), newer_first());
    assert(newer_first()(order[k], order[n + v]));
}

/// A budget keeps or evicts every file, and none twice.
pub proof fn lemma_budget_splits(files: Seq<Eval>, budget: u64)
    ensures
        (kept(files, budget) + evicted(files, CleanSpec::Budget(budget))).to_multiset() == uses(
            files,
        ).to_multiset(),
{
    let order = ranked(files);
    let n = fitting(order, budget as int);
    lemma_fitting(order, budget as int);
    assert(order.take(n) + order.skip(n) =~= order);
    crate::order::lemma_in_order_keeps(uses(files), newer_first());
}

/// A cutoff evicts a file if and only if it was last used before it.
pub proof fn lemma_cutoff(files: Seq<Eval>, cutoff: u64, i: int)
    requires
        0 <= i < files.len(),
    ensures
        evicted(files, CleanSpec::Before(cutoff)).contains(used(files, i)) <==> files[i].mtime
            < cutoff,
{
    let pred = |u: Used| u.mtime < cutoff;
    let all = uses(files);
    let u = used(files, i);
    assert(all[i] == u);
    if pred(u) {
        all.lemma_filter_contains(pred, i);
    }
    if all.filter(pred).contains(u) {
        let k = choose|k: int| 0 <= k < all.filter(pred).len() && all.filter(pred)[k] == u;
        all.lemma_filter_pred(pred, k);
    }
}

/// What the choice of victims looks at.
fn list_uses(files: &[Eval]) -> (out: Vec<Used>)
    ensures
        out@ == uses(files@),
{
    let mut out: Vec<Used> = Vec::new();
    let mut i: usize = 0;
    while i < files.len()
        invariant
            i <= files@.len(),
            out@ == uses(files@).take(i as int),
        decreases files@.len() - i,
    {
        out.push(Used { mtime: files[i].mtime, size: files[i].size, index: i });
        i += 1;
        assert(out@ =~= uses(files@).take(i as int));
    }
    assert(out@ =~= uses(files@));
    out
}

/// The files to evict, as [`victims`] chooses them.
fn choose_victims(files: &[Eval], spec: &CleanSpec) -> (out: Vec<Used>)
    ensures
        out@ == evicted(files@, *spec),
{
    let all = list_uses(files);
    let mut out: Vec<Used> = Vec::new();
    match *spec {
        CleanSpec::Before(cutoff) => {
            let ghost pred = |u: Used| u.mtime < cutoff;
            let mut i: usize = 0;
            assert(all@.take(0).filter(pred) =~= Seq::<Used>::empty()) by {
                reveal(Seq::filter);
            }
            while i < all.len()
                invariant
                    i <= all@.len(),
                    pred == (|u: Used| u.mtime < cutoff),
                    out@ == all@.take(i as int).filter(pred),
                decreases all@.len() - i,
            {
                proof {
                    reveal(Seq::filter);
                    assert(all@.take(i + 1).drop_last() =~= all@.take(i as int));
                }
                if all[i].mtime < cutoff {
                    out.push(all[i]);
                }
                i += 1;
            }
            assert(all@.take(i as int) =~= all@);
        },
        CleanSpec::Budget(budget) => {
            let before = |a: &Used, b: &Used| -> (yes: bool)
                ensures
                    yes == newer_first()(*a, *b),
                {
                    a.mtime > b.mtime || (a.mtime == b.mtime && (a.size < b.size || (a.size
                        == b.size && a.index <= b.index)))
                };
            let order = sort(all, &before, Ghost(newer_first()));
            let mut left: u64 = budget;
            let mut n: usize = 0;
            assert(order@.skip(0) =~= order@);
            while n < order.len() && order[n].size <= left
                invariant
                    n <= order@.len(),
                    fitting(order@, budget as int) == n + fitting(
                        order@.skip(n as int),
                        left as int,
                    ),
                decreases order@.len() - n,
            {
                assert(order@.skip(n as int).skip(1) =~= order@.skip(n + 1));
                left = left - order[n].size;
                n += 1;
            }
            let ghost first = n;
            while n < order.len()
                invariant
                    first <= n <= order@.len(),
                    out@ == order@.subrange(first as int, n as int),
                decreases order@.len() - n,
            {
                out.push(order[n]);
                n += 1;
                assert(out@ =~= order@.subrange(first as int, n as int));
            }
            assert(out@ =~= order@.skip(first as int));
        },
    }
    out
}

/// The indices of `files` to evict under `spec`:
/// - a budget keeps files, newest first, while they fit, then evicts the first
///   one that does not and every older one;
/// - a cutoff evicts every file last used before it.
pub fn victims(files: &[Eval], spec: &CleanSpec) -> (out: Vec<usize>)
    ensures
        out@ == indices_of(evicted(files@, *spec)),
{
    let chosen = choose_victims(files, spec);
    let mut out: Vec<usize> = Vec::new();
    let mut i: usize = 0;
    while i < chosen.len()
        invariant
            i <= chosen@.len(),
            out@ == indices_of(chosen@).take(i as int),
        decreases chosen@.len() - i,
    {
        out.push(chosen[i].index);
        i += 1;
        assert(out@ =~= indices_of(chosen@).take(i as int));
    }
    assert(out@ =~= indices_of(chosen@));
    out
}

// --- sizes add up -----------------------------------------------------------

/// Sizes add up over two lists.
proof fn lemma_size_concat(a: Seq<Used>, b: Seq<Used>)
    ensures
        size_of(a + b) == size_of(a) + size_of(b),
    decreases b.len(),
{
    if b.len() == 0 {
        assert(a + b =~= a);
    } else {
        lemma_size_concat(a, b.drop_last());
        assert((a + b).drop_last() =~= a + b.drop_last());
    }
}

/// Placing a file adds its size.
proof fn lemma_size_placed(x: Used, s: Seq<Used>, leq: spec_fn(Used, Used) -> bool)
    ensures
        size_of(crate::order::placed(x, s, leq)) == x.size + size_of(s),
    decreases s.len(),
{
    let p = crate::order::placed(x, s, leq);
    lemma_size_front(p);
    if s.len() == 0 || leq(x, s[0]) {
        assert(p.skip(1) =~= s);
    } else {
        lemma_size_placed(x, s.skip(1), leq);
        assert(p.skip(1) =~= crate::order::placed(x, s.skip(1), leq));
        lemma_size_front(s);
    }
}

/// Sorting keeps the combined size.
proof fn lemma_size_in_order(s: Seq<Used>, leq: spec_fn(Used, Used) -> bool)
    ensures
        size_of(in_order(s, leq)) == size_of(s),
    decreases s.len(),
{
    if s.len() > 0 {
        lemma_size_in_order(s.skip(1), leq);
        lemma_size_placed(s[0], in_order(s.skip(1), leq), leq);
        lemma_size_front(s);
    }
}

/// Some of the files are no larger than all of them.
proof fn lemma_size_filter(s: Seq<Used>, pred: spec_fn(Used) -> bool)
    ensures
        0 <= size_of(s.filter(pred)) <= size_of(s),
    decreases s.len(),
{
    reveal(Seq::filter);
    if s.len() > 0 {
        lemma_size_filter(s.drop_last(), pred);
        if pred(s.last()) {
            assert(s.filter(pred).drop_last() =~= s.drop_last().filter(pred));
        }
    }
}

/// Sizes are not negative.
proof fn lemma_size_nonnegative(s: Seq<Used>)
    ensures
        0 <= size_of(s),
    decreases s.len(),
{
    if s.len() > 0 {
        lemma_size_nonnegative(s.drop_last());
    }
}

/// What is evicted is no larger than all there is.
pub proof fn lemma_freed_fits(files: Seq<Eval>, spec: CleanSpec)
    ensures
        0 <= size_of(evicted(files, spec)) <= size_of(uses(files)),
{
    match spec {
        CleanSpec::Before(cutoff) => {
            lemma_size_filter(uses(files), |u: Used| u.mtime < cutoff);
        },
        CleanSpec::Budget(budget) => {
            let order = ranked(files);
            let n = fitting(order, budget as int);
            lemma_fitting(order, budget as int);
            lemma_size_concat(order.take(n), order.skip(n));
            assert(order.take(n) + order.skip(n) =~= order);
            lemma_size_in_order(uses(files), newer_first());
            lemma_size_nonnegative(order.take(n));
            lemma_size_nonnegative(order.skip(n));
        },
    }
}

/// The combined size of files, where it fits in 64 bits.
fn total_size(us: &[Used]) -> (total: u64)
    requires
        size_of(us@) <= u64::MAX,
    ensures
        total == size_of(us@),
{
    let mut total: u64 = 0;
    let mut i: usize = 0;
    assert(us@.take(0) =~= Seq::<Used>::empty());
    while i < us.len()
        invariant
            i <= us@.len(),
            size_of(us@) <= u64::MAX,
            total == size_of(us@.take(i as int)),
        decreases us@.len() - i,
    {
        proof {
            assert(us@.take(i + 1).drop_last() =~= us@.take(i as int));
            lemma_size_concat(us@.take(i + 1), us@.skip(i + 1));
            assert(us@.take(i + 1) + us@.skip(i + 1) =~= us@);
            lemma_size_nonnegative(us@.skip(i + 1));
        }
        total = total + us[i].size;
        i += 1;
    }
    assert(us@.take(i as int) =~= us@);
    total
}

// --- what the user sees -----------------------------------------------------

/// How many bytes of a tree hash are shown: 12, or all of a shorter one.
pub open spec fn shown_bytes(tree: Seq<char>) -> int {
    if encode_utf8(tree).len() < 12 {
        encode_utf8(tree).len() as int
    } else {
        12
    }
}

/// Whether a tree hash can be cut to what is shown of it: no character stands across
/// the cut. In a hash, which is hexadecimal, none does.
pub open spec fn cuttable(tree: Seq<char>) -> bool {
    is_char_boundary(encode_utf8(tree), shown_bytes(tree))
}

/// The first 12 bytes of a tree hash, or all of a shorter one.
pub open spec fn short(tree: Seq<char>) -> Seq<char> {
    decode_utf8(encode_utf8(tree).take(shown_bytes(tree)))
}

/// The first 12 hex characters of a tree hash: enough to recognise, short enough
/// to list.
pub fn short_tree(tree: &str) -> (out: &str)
    requires
        cuttable(tree@),
    ensures
        out@ == short(tree@),
{
    let len: usize = tree.as_bytes().len();
    let (out, _) = tree.split_at(
        if len < 12 {
            len
        } else {
            12
        },
    );
    proof {
        encode_utf8_decode_utf8(out@);
        assert(encode_utf8(out@) =~= encode_utf8(tree@).take(shown_bytes(tree@)));
    }
    out
}

/// A hash of ASCII characters can be cut, and what is shown of it are its first 12
/// characters.
pub proof fn lemma_short_hash(tree: Seq<char>)
    requires
        is_ascii_chars(tree),
    ensures
        cuttable(tree),
        short(tree) == tree.take(if tree.len() < 12 {
            tree.len() as int
        } else {
            12
        }),
{
    let bytes = encode_utf8(tree);
    is_ascii_chars_encode_utf8(tree);
    let n = shown_bytes(tree);
    let front = tree.take(n);
    assert(is_ascii_chars(front)) by {
        assert forall|i: int| 0 <= i < front.len() implies '\0' <= #[trigger] front[i] <= '\u{7f}' by {
            assert(front[i] == tree[i]);
        }
    }
    is_ascii_chars_encode_utf8(front);
    assert forall|i: int| 0 <= i < n implies encode_utf8(front)[i] == #[trigger] bytes[i] by {
        assert(front[i] == tree[i]);
    }
    assert(encode_utf8(front) =~= bytes.take(n));
    encode_utf8_decode_utf8(front);
    encode_utf8_valid_utf8(tree);
    if n == bytes.len() {
        is_char_boundary_start_end_of_seq(bytes);
    } else {
        assert(tree[n] as u8 == bytes[n]);
        is_char_boundary_iff_not_is_continuation_byte(bytes, n);
    }
}

/// A date as `YYYY-MM-DD`.
pub open spec fn date_text(date: (int, int, int)) -> Seq<char> {
    right_aligned(decimal(date.0 as nat), 4, '0') + "-"@ + right_aligned(
        decimal(date.1 as nat),
        2,
        '0',
    ) + "-"@ + right_aligned(decimal(date.2 as nat), 2, '0')
}

/// Appends a number, padded with zeros.
fn push_padded(out: &mut String, n: u64, width: usize)
    ensures
        final(out)@ == old(out)@ + right_aligned(decimal(n as nat), width as nat, '0'),
{
    let mut digits = String::new();
    push_decimal(&mut digits, n);
    assert(digits@ =~= decimal(n as nat));
    push_right_aligned(out, digits.as_str(), width, '0');
}

/// A Unix time (seconds) as a UTC `YYYY-MM-DD` date.
pub fn fmt_date(secs: u64) -> (out: String)
    ensures
        out@ == date_text(civil(secs as int / 86_400)),
{
    let day: u64 = secs / 86_400;
    let (y, m, d) = civil_from_days(day as i64);
    proof {
        crate::calendar::lemma_year_of_day(y as int, m as int, d as int);
    }
    let mut out = String::new();
    push_padded(&mut out, y as u64, 4);
    out.append("-");
    push_padded(&mut out, m as u64, 2);
    out.append("-");
    push_padded(&mut out, d as u64, 2);
    assert(out@ =~= date_text(civil(secs as int / 86_400)));
    out
}

/// Whether a prompt answer means yes (`y`/`yes`, whatever its case and the white
/// space around it).
pub open spec fn means_yes(line: Seq<char>) -> bool {
    let answer = lowered(trimmed(line));
    answer == "y"@ || answer == "yes"@
}

/// Whether a prompt answer means yes (`y`/`yes`, case- and space-insensitive).
pub fn is_yes(line: &str) -> (yes: bool)
    ensures
        yes == means_yes(line@),
{
    let answer = to_lower(trim(line));
    *answer.as_str() == *"y" || *answer.as_str() == *"yes"
}

/// Whether the answer to the prompt confirms: an explicit yes does, the end of the
/// input does not.
pub fn confirmed(answer: Option<&str>) -> (yes: bool)
    ensures
        yes == (match answer {
            Some(line) => means_yes(line@),
            None => false,
        }),
{
    match answer {
        Some(line) => is_yes(line),
        None => false,
    }
}

/// What `--clean` is about to do.
pub enum Plan {
    /// Nothing: what to tell the user.
    Nothing(String),
    /// Evict these files, once the user has seen the preview and agreed.
    Evict { victims: Vec<usize>, freed: u64, remains: u64, preview: Vec<String> },
}

/// The message that nothing is to be done.
pub open spec fn nothing_text(total: int, files: nat) -> Seq<char> {
    "nothing to evict: "@ + bytes_text(total) + " in "@ + decimal(files)
        + " eval file(s) already within budget"@
}

/// The heading of the preview.
pub open spec fn heading_text(victims: nat, files: nat, freed: int, remains: int) -> Seq<char> {
    "Would evict "@ + decimal(victims) + " of "@ + decimal(files) + " eval file(s), freeing "@
        + bytes_text(freed) + " ("@ + bytes_text(remains)
        + " would remain). Each also drops that eval's --tests cache rows:"@
}

/// The preview's line for a file.
pub open spec fn file_text(file: Eval) -> Seq<char> {
    "  "@ + file.system@ + "/"@ + short(file.tree@) + "  "@ + right_aligned(
        bytes_text(file.size as int),
        9,
        ' ',
    ) + "  last used "@ + date_text(civil(file.mtime as int / 86_400))
}

/// The preview: the heading, then the files to evict, least recently used first.
pub open spec fn preview_text(files: Seq<Eval>, spec: CleanSpec) -> Seq<Seq<char>> {
    let gone = evicted(files, spec);
    let freed = size_of(gone);
    seq![heading_text(gone.len(), files.len(), freed, size_of(uses(files)) - freed)] + in_order(
        gone,
        older_first(),
    ).map_values(|u: Used| file_text(files[u.index as int]))
}

/// What is evicted stands in the list.
proof fn lemma_evicted_in_range(files: Seq<Eval>, spec: CleanSpec, u: Used)
    requires
        files.len() <= usize::MAX,
        evicted(files, spec).contains(u),
    ensures
        u.index < files.len(),
        u == used(files, u.index as int),
{
    let all = uses(files);
    assert(all.contains(u)) by {
        match spec {
            CleanSpec::Before(cutoff) => {
                all.lemma_filter_contains_rev(|u: Used| u.mtime < cutoff, u);
            },
            CleanSpec::Budget(budget) => {
                let order = ranked(files);
                let n = fitting(order, budget as int);
                lemma_fitting(order, budget as int);
                let k = choose|k: int| 0 <= k < order.skip(n).len() && order.skip(n)[k] == u;
                assert(order[n + k] == u);
                crate::order::lemma_in_order_contains(all, newer_first(), u);
            },
        }
    }
    let i = choose|i: int| 0 <= i < all.len() && all[i] == u;
    assert(all[i] == used(files, i));
}

/// The message that nothing is to be done.
fn nothing_message(total: u64, files: usize) -> (out: String)
    ensures
        out@ == nothing_text(total as int, files as nat),
{
    let mut out = String::new();
    out.append("nothing to evict: ");
    out.append(human_bytes(total).as_str());
    out.append(" in ");
    push_decimal(&mut out, files as u64);
    out.append(" eval file(s) already within budget");
    assert(out@ =~= nothing_text(total as int, files as nat));
    out
}

/// The heading of the preview.
fn heading(victims: usize, files: usize, freed: u64, remains: u64) -> (out: String)
    ensures
        out@ == heading_text(victims as nat, files as nat, freed as int, remains as int),
{
    let mut out = String::new();
    out.append("Would evict ");
    push_decimal(&mut out, victims as u64);
    out.append(" of ");
    push_decimal(&mut out, files as u64);
    out.append(" eval file(s), freeing ");
    out.append(human_bytes(freed).as_str());
    out.append(" (");
    out.append(human_bytes(remains).as_str());
    out.append(" would remain). Each also drops that eval's --tests cache rows:");
    assert(out@ =~= heading_text(victims as nat, files as nat, freed as int, remains as int));
    out
}

/// The preview's line for a file.
fn file_line(file: &Eval) -> (out: String)
    requires
        cuttable(file.tree@),
    ensures
        out@ == file_text(*file),
{
    let mut out = String::new();
    out.append("  ");
    out.append(file.system.as_str());
    out.append("/");
    out.append(short_tree(file.tree.as_str()));
    out.append("  ");
    push_right_aligned(&mut out, human_bytes(file.size).as_str(), 9, ' ');
    out.append("  last used ");
    out.append(fmt_date(file.mtime).as_str());
    assert(out@ =~= file_text(*file));
    out
}

/// Plans a cleaning of the eval cache: which files go, and the preview of it.
pub fn plan(files: &[Eval], spec: &CleanSpec) -> (out: Plan)
    requires
        size_of(uses(files@)) <= u64::MAX,
        forall|u: Used| #[trigger]
            evicted(files@, *spec).contains(u) ==> cuttable(files@[u.index as int].tree@),
    ensures
        match out {
            Plan::Nothing(message) => {
                &&& evicted(files@, *spec).len() == 0
                &&& message@ == nothing_text(size_of(uses(files@)), files@.len())
            },
            Plan::Evict { victims, freed, remains, preview } => {
                &&& evicted(files@, *spec).len() > 0
                &&& victims@ == indices_of(evicted(files@, *spec))
                &&& freed == size_of(evicted(files@, *spec))
                &&& remains == size_of(uses(files@)) - freed
                &&& texts(preview@) == preview_text(files@, *spec)
            },
        },
{
    let all = list_uses(files);
    let total: u64 = total_size(&all);
    let chosen = choose_victims(files, spec);
    if chosen.len() == 0 {
        return Plan::Nothing(nothing_message(total, files.len()));
    }
    proof {
        lemma_freed_fits(files@, *spec);
    }
    let count: usize = chosen.len();
    let ghost len = files.len();
    let freed: u64 = total_size(&chosen);
    let remains: u64 = total - freed;
    let older = |a: &Used, b: &Used| -> (yes: bool)
        ensures
            yes == older_first()(*a, *b),
        { a.mtime <= b.mtime };
    let shown = sort(chosen, &older, Ghost(older_first()));
    let ghost gone = evicted(files@, *spec);
    let ghost wanted = preview_text(files@, *spec);
    let mut preview: Vec<String> = Vec::new();
    preview.push(heading(count, files.len(), freed, remains));
    let mut i: usize = 0;
    assert(shown@ == in_order(gone, older_first()));
    assert(texts(preview@) =~= wanted.take(1));
    while i < shown.len()
        invariant
            i <= shown@.len(),
            files@.len() == len,
            forall|u: Used| #[trigger]
                evicted(files@, *spec).contains(u) ==> cuttable(files@[u.index as int].tree@),
            shown@ == in_order(gone, older_first()),
            gone == evicted(files@, *spec),
            wanted == preview_text(files@, *spec),
            texts(preview@) == wanted.take(i + 1),
        decreases shown@.len() - i,
    {
        let ghost u = shown@[i as int];
        proof {
            crate::order::lemma_in_order_contains(gone, older_first(), u);
            assert(shown@.contains(u));
            lemma_evicted_in_range(files@, *spec, u);
        }
        let ghost before = texts(preview@);
        preview.push(file_line(&files[shown[i].index]));
        assert(texts(preview@) =~= before.push(file_text(files@[u.index as int])));
        assert(wanted[i + 1] == file_text(files@[u.index as int]));
        assert(wanted.take(i + 2) =~= wanted.take(i + 1).push(wanted[i + 1]));
        i += 1;
    }
    assert(wanted.take(i + 1) =~= wanted);
    Plan::Evict { victims: victims(files, spec), freed, remains, preview }
}

/// What to tell the user who did not agree.
pub fn aborted_message() -> (out: String)
    ensures
        out@ == "Aborted; nothing deleted."@,
{
    "Aborted; nothing deleted.".to_owned()
}

/// What to tell the user once the files are gone.
pub fn evicted_message(files: usize, freed: u64, rows: usize, remains: u64) -> (out: String)
    ensures
        out@ == "Evicted "@ + decimal(files as nat) + " eval file(s) ("@ + bytes_text(freed as int)
            + " freed, "@ + decimal(rows as nat) + " test row(s) purged); "@ + bytes_text(
            remains as int,
        ) + " of eval cache remains."@,
{
    let mut out = String::new();
    out.append("Evicted ");
    push_decimal(&mut out, files as u64);
    out.append(" eval file(s) (");
    out.append(human_bytes(freed).as_str());
    out.append(" freed, ");
    push_decimal(&mut out, rows as u64);
    out.append(" test row(s) purged); ");
    out.append(human_bytes(remains).as_str());
    out.append(" of eval cache remains.");
    assert(out@ =~= "Evicted "@ + decimal(files as nat) + " eval file(s) ("@ + bytes_text(
        freed as int,
    ) + " freed, "@ + decimal(rows as nat) + " test row(s) purged); "@ + bytes_text(
        remains as int,
    ) + " of eval cache remains."@);
    out
}

// --- laws -------------------------------------------------------------------

/// The victims are files, and none is a victim twice.
pub proof fn lemma_victims_once(files: Seq<Eval>, spec: CleanSpec)
    requires
        files.len() <= usize::MAX,
    ensures
        indices_of(evicted(files, spec)).no_duplicates(),
        forall|k: int|
            0 <= k < indices_of(evicted(files, spec)).len() ==> (#[trigger] indices_of(
                evicted(files, spec),
            )[k]) < files.len(),
{
    let gone = evicted(files, spec);
    let at = indices_of(gone);
    let all = uses(files);
    assert forall|k: int| 0 <= k < at.len() implies (#[trigger] at[k]) < files.len() by {
        assert(gone.contains(gone[k]));
        lemma_evicted_in_range(files, spec, gone[k]);
    }
    assert(all.no_duplicates()) by {
        assert forall|a: int, b: int| 0 <= a < all.len() && 0 <= b < all.len() && a != b implies all[a]
            != all[b] by {
            assert(all[a].index == a && all[b].index == b);
        }
    }
    assert(gone.no_duplicates()) by {
        match spec {
            CleanSpec::Before(cutoff) => {
                lemma_filter_once(all, |u: Used| u.mtime < cutoff);
            },
            CleanSpec::Budget(budget) => {
                let order = ranked(files);
                let n = fitting(order, budget as int);
                lemma_fitting(order, budget as int);
                crate::order::lemma_in_order_keeps(all, newer_first());
                all.lemma_multiset_has_no_duplicates();
                order.lemma_multiset_has_no_duplicates_conv();
                assert forall|a: int, b: int|
                    0 <= a < gone.len() && 0 <= b < gone.len() && a != b implies gone[a]
                    != gone[b] by {
                    assert(gone[a] == order[n + a] && gone[b] == order[n + b]);
                }
            },
        }
    }
    assert forall|a: int, b: int| 0 <= a < at.len() && 0 <= b < at.len() && a != b implies at[a]
        != at[b] by {
        assert(gone.contains(gone[a]) && gone.contains(gone[b]));
        lemma_evicted_in_range(files, spec, gone[a]);
        lemma_evicted_in_range(files, spec, gone[b]);
        assert(gone[a] != gone[b]);
    }
}

/// Choosing keeps what stands once standing once.
proof fn lemma_filter_once(s: Seq<Used>, pred: spec_fn(Used) -> bool)
    requires
        s.no_duplicates(),
    ensures
        s.filter(pred).no_duplicates(),
    decreases s.len(),
{
    reveal(Seq::filter);
    if s.len() > 0 {
        let front = s.drop_last();
        lemma_filter_once(front, pred);
        let kept = front.filter(pred);
        if kept.contains(s.last()) {
            front.lemma_filter_contains_rev(pred, s.last());
            let k = choose|k: int| 0 <= k < front.len() && front[k] == s.last();
            assert(s[k] == s[s.len() - 1]);
        }
        assert forall|a: int| 0 <= a < kept.len() implies kept[a] != s.last() by {
            assert(kept.contains(kept[a]));
        }
    }
}

/// A file is a victim of a cutoff if and only if it was last used before it.
pub proof fn lemma_cutoff_victims(files: Seq<Eval>, cutoff: u64, i: int)
    requires
        0 <= i < files.len() <= usize::MAX,
    ensures
        indices_of(evicted(files, CleanSpec::Before(cutoff))).contains(i as usize)
            <==> files[i].mtime < cutoff,
{
    let gone = evicted(files, CleanSpec::Before(cutoff));
    lemma_cutoff(files, cutoff, i);
    lemma_victim_is_used(files, CleanSpec::Before(cutoff), i);
}

/// A file is a victim if and only if what is known of its use is evicted.
proof fn lemma_victim_is_used(files: Seq<Eval>, spec: CleanSpec, i: int)
    requires
        0 <= i < files.len() <= usize::MAX,
    ensures
        indices_of(evicted(files, spec)).contains(i as usize) <==> evicted(files, spec).contains(
            used(files, i),
        ),
{
    let gone = evicted(files, spec);
    let at = indices_of(gone);
    if at.contains(i as usize) {
        let k = choose|k: int| 0 <= k < at.len() && at[k] == i as usize;
        assert(gone.contains(gone[k]));
        lemma_evicted_in_range(files, spec, gone[k]);
    }
    if gone.contains(used(files, i)) {
        let k = choose|k: int| 0 <= k < gone.len() && gone[k] == used(files, i);
        assert(at[k] == i as usize);
    }
}

/// A budget takes the files by their last use: a victim was used no later than a file
/// that stays; of two that were last used together the larger one goes first, and of two
/// alike the one that is listed later.
pub proof fn lemma_budget_victims(files: Seq<Eval>, budget: u64, gone: int, stays: int)
    requires
        0 <= gone < files.len() <= usize::MAX,
        0 <= stays < files.len(),
        indices_of(evicted(files, CleanSpec::Budget(budget))).contains(gone as usize),
        !indices_of(evicted(files, CleanSpec::Budget(budget))).contains(stays as usize),
    ensures
        files[gone].mtime < files[stays].mtime || (files[gone].mtime == files[stays].mtime && (
        files[gone].size > files[stays].size || (files[gone].size == files[stays].size && gone
            > stays))),
{
    let spec = CleanSpec::Budget(budget);
    let order = ranked(files);
    let n = fitting(order, budget as int);
    let (g, s) = (used(files, gone), used(files, stays));
    lemma_fitting(order, budget as int);
    lemma_victim_is_used(files, spec, gone);
    lemma_victim_is_used(files, spec, stays);
    lemma_newer_first();
    crate::order::lemma_in_order_sorted(uses(files), newer_first());
    assert(uses(files)[stays] == s);
    assert(uses(files).contains(s));
    crate::order::lemma_in_order_contains(uses(files), newer_first(), s);
    let a = choose|a: int| 0 <= a < order.len() && order[a] == s;
    let v = choose|v: int| 0 <= v < order.skip(n).len() && order.skip(n)[v] == g;
    assert(order[n + v] == g);
    if a >= n {
        assert(order.skip(n)[a - n] == s);
    }
    assert(newer_first()(order[a], order[n + v]));
}

/// The preview has a heading and then a line for each victim, the one that was used
/// longest ago first.
pub proof fn lemma_preview_lines(files: Seq<Eval>, spec: CleanSpec)
    ensures
        preview_text(files, spec).len() == 1 + evicted(files, spec).len(),
        exists|order: Seq<Used>| #[trigger]
            order.to_multiset() == evicted(files, spec).to_multiset() && (forall|a: int, b: int|
                0 <= a < b < order.len() ==> (#[trigger] order[a]).mtime <= (
                #[trigger] order[b]).mtime) && forall|k: int|
                0 <= k < order.len() ==> preview_text(files, spec)[k + 1] == file_text(
                    files[(#[trigger] order[k]).index as int],
                ),
{
    let gone = evicted(files, spec);
    let order = in_order(gone, older_first());
    crate::order::lemma_in_order_keeps(gone, older_first());
    assert(total_preorder(older_first()));
    crate::order::lemma_in_order_sorted(gone, older_first());
    assert forall|a: int, b: int| 0 <= a < b < order.len() implies (#[trigger] order[a]).mtime <= (
    #[trigger] order[b]).mtime by {
        assert(older_first()(order[a], order[b]));
    }
    gone.to_multiset_ensures();
    order.to_multiset_ensures();
    assert(order.to_multiset() == gone.to_multiset());
}

/// A file's line is of the file: its system and its tree stand at the start, and the
/// day on which it was last used at the end.
pub proof fn lemma_file_line(file: Eval)
    ensures
        ("  "@ + file.system@ + "/"@ + short(file.tree@) + " "@).is_prefix_of(file_text(file)),
        ("  last used "@ + date_text(civil(file.mtime as int / 86_400))).is_suffix_of(
            file_text(file),
        ),
        crate::search::holds(
            file_text(file),
            "  "@ + right_aligned(bytes_text(file.size as int), 9, ' ') + "  "@,
        ),
{
    let line = file_text(file);
    let name = "  "@ + file.system@ + "/"@ + short(file.tree@);
    let size = "  "@ + right_aligned(bytes_text(file.size as int), 9, ' ') + "  "@;
    let used = "last used "@ + date_text(civil(file.mtime as int / 86_400));
    assert("  "@ + "last used "@ =~= "  last used "@) by {
        reveal_strlit("  ");
        reveal_strlit("last used ");
        reveal_strlit("  last used ");
    }
    assert(line =~= name + size + used);
    crate::search::lemma_holds(name, size, used);
    let front = "  "@ + file.system@ + "/"@ + short(file.tree@) + " "@;
    let back = "  last used "@ + date_text(civil(file.mtime as int / 86_400));
    reveal_strlit(" ");
    reveal_strlit("  ");
    assert(line.subrange(0, front.len() as int) =~= front);
    assert(line.subrange(line.len() - back.len(), line.len() as int) =~= back);
}


/// A date that is written and read again is the same date, up to the year 9999.
pub proof fn lemma_date_round_trip(secs: u64)
    requires
        civil(secs as int / 86_400).0 <= 9999,
    ensures
        date_value(date_text(civil(secs as int / 86_400))) == Some(
            ((secs as int / 86_400) * 86_400) as u64,
        ),
{
    let day = secs as int / 86_400;
    let (y, m, d) = civil(day);
    crate::calendar::lemma_day_of_civil(day);
    crate::calendar::lemma_year_of_day(y, m, d);
    let a = right_aligned(decimal(y as nat), 4, '0');
    let b = right_aligned(decimal(m as nat), 2, '0');
    let c = right_aligned(decimal(d as nat), 2, '0');
    crate::text::lemma_decimal_value(y as nat);
    crate::text::lemma_decimal_value(m as nat);
    crate::text::lemma_decimal_value(d as nat);
    crate::text::lemma_padded_value(decimal(y as nat), 4);
    crate::text::lemma_padded_value(decimal(m as nat), 2);
    crate::text::lemma_padded_value(decimal(d as nat), 2);
    let ps = seq![a, b, c];
    assert forall|i: int| 0 <= i < ps.len() implies !(#[trigger] ps[i]).contains('-') by {
        lemma_no_dash(ps[i]);
    }
    crate::search::lemma_parts_of_joined(ps, '-');
    reveal_strlit("-");
    assert("-"@ =~= seq!['-']);
    assert(ps.drop_last().drop_last() =~= seq![a]);
    assert(ps.drop_last() =~= seq![a, b]);
    reveal_with_fuel(crate::text::joined, 3);
    assert(crate::text::joined(ps, seq!['-']) =~= date_text(civil(day)));
    assert(crate::text::is_digit(a[0]) && crate::text::is_digit(b[0]) && crate::text::is_digit(
        c[0],
    ));
}

/// Digits hold no dash.
proof fn lemma_no_dash(s: Seq<char>)
    requires
        crate::text::all_digits(s),
    ensures
        !s.contains('-'),
{
    if s.contains('-') {
        let i = choose|i: int| 0 <= i < s.len() && s[i] == '-';
        assert(crate::text::is_digit(s[i]));
    }
}

/// The three forms of a `--clean` argument are disjoint: no text is two of a date,
/// a size and a duration.
pub proof fn lemma_forms_disjoint(s: Seq<char>)
    ensures
        !(date_value(s) is Some && size_value(s) is Some),
        !(date_value(s) is Some && duration_value(s) is Some),
        !(size_value(s) is Some && duration_value(s) is Some),
{
    if date_value(s) is Some {
        lemma_date_is_no_number(s);
    }
    reveal_strlit("");
    reveal_strlit("B");
    reveal_strlit("KB");
    reveal_strlit("MB");
    reveal_strlit("GB");
    reveal_strlit("TB");
    reveal_strlit("KiB");
    reveal_strlit("MiB");
    reveal_strlit("GiB");
    reveal_strlit("TiB");
    reveal_strlit("h");
    reveal_strlit("d");
    reveal_strlit("w");
    reveal_strlit("mo");
    reveal_strlit("y");
    reveal_strlit("yr");
    let unit = crate::amount::unit_text(s);
    if crate::amount::size_unit(unit) is Some && crate::amount::time_unit(unit) is Some {
        assert(unit.len() > 0);
        assert(unit[0] == 'h' || unit[0] == 'd' || unit[0] == 'w' || unit[0] == 'm' || unit[0]
            == 'y');
        assert(unit[0] == 'B' || unit[0] == 'K' || unit[0] == 'M' || unit[0] == 'G' || unit[0]
            == 'T');
    }
}

/// A date is not the number of a size or a duration.
proof fn lemma_date_is_no_number(s: Seq<char>)
    requires
        date_value(s) is Some,
    ensures
        size_value(s) is None,
        duration_value(s) is None,
{
    let ps = parts(s, '-');
    reveal_with_fuel(parts, 4);
    let i = crate::search::char_position(s, '-');
    crate::search::lemma_char_position(s, '-');
    assert(0 <= i < s.len());
    let rest = s.skip(i + 1);
    let j = crate::search::char_position(rest, '-');
    crate::search::lemma_char_position(rest, '-');
    assert(ps =~= seq![s.take(i)] + parts(rest, '-'));
    assert(0 <= j < rest.len());
    let last = rest.skip(j + 1);
    let k = crate::search::char_position(last, '-');
    crate::search::lemma_char_position(last, '-');
    assert(parts(rest, '-') =~= seq![rest.take(j)] + parts(last, '-'));
    assert(ps[0] == s.take(i) && ps[1] == rest.take(j));
    assert(k == last.len());
    assert(ps[2] == last);
    assert(i == 4 && j == 2 && s.len() == 10);
    assert forall|n: int| 0 <= n < s.len() implies crate::text::is_digit(#[trigger] s[n]) || s[n]
        == '-' by {
        if n < 4 {
            assert(crate::text::is_digit(ps[0][n]));
        } else if n == 4 || n == 7 {
            assert(n == 7 ==> rest[2] == s[7]);
        } else if n < 7 {
            assert(crate::text::is_digit(ps[1][n - 5]));
        } else {
            assert(crate::text::is_digit(ps[2][n - 8]));
        }
    }
    assert(s[4] == '-');
    assert(crate::text::is_digit(s[0])) by {
        assert(crate::text::is_digit(ps[0][0]));
    }
    crate::amount::lemma_letter_position(s);
    let p = crate::amount::letter_position(s);
    if p < s.len() {
        assert(crate::text::is_digit(s[p]) || s[p] == '-');
    }
    assert(s.take(p) =~= s);
    assert(!crate::search::is_space(s[0]) && !crate::search::is_space(s[9]));
    assert(trimmed(s) == s);
    let body = crate::amount::unsigned(s);
    assert(body[4] == '-');
    lemma_dash_is_no_number(body, 4);
}

/// A text with a dash in it is no unsigned number.
proof fn lemma_dash_is_no_number(body: Seq<char>, at: int)
    requires
        0 <= at < body.len(),
        body[at] == '-',
    ensures
        crate::amount::decimal_digits(body) is None,
{
    let dot = crate::search::char_position(body, '.');
    crate::search::lemma_char_position(body, '.');
    let whole = body.take(dot);
    if at < dot {
        assert(whole[at] == '-');
        assert(!crate::text::is_digit(whole[at]));
    } else {
        assert(at > dot);
        let fraction = body.skip(dot + 1);
        assert(fraction[at - dot - 1] == '-');
        assert(!crate::text::is_digit(fraction[at - dot - 1]));
    }
}

/// What an argument asks for: a date its own midnight, whenever it is read; a size a
/// budget; a duration the time that long ago, and the beginning of time where that was
/// before it; and nothing else anything.
pub proof fn lemma_spec_cases(s: Seq<char>, now: u64, later: u64)
    ensures
        date_value(s) matches Some(secs) ==> spec_at(s, now) == Some(CleanSpec::Before(secs)),
        size_value(s) matches Some(bytes) ==> spec_at(s, now) == Some(CleanSpec::Budget(bytes)),
        duration_value(s) matches Some(ago) ==> (spec_at(s, now) matches Some(
            CleanSpec::Before(cutoff),
        ) && (if ago <= now {
            cutoff + ago == now
        } else {
            cutoff == 0
        })),
        spec_at(s, now) is None <==> date_value(s) is None && size_value(s) is None
            && duration_value(s) is None,
        duration_value(s) is None ==> spec_at(s, now) == spec_at(s, later),
{
    lemma_forms_disjoint(s);
}

/// The heading says how many files go and how many there are, how much that frees and how
/// much is left of all of them.
pub proof fn lemma_preview_heading(files: Seq<Eval>, spec: CleanSpec)
    ensures
        ({
            let gone = evicted(files, spec);
            let kept = size_of(uses(files)) - size_of(gone);
            ("Would evict "@ + decimal(gone.len()) + " of "@ + decimal(files.len())
                + " eval file(s), freeing "@ + bytes_text(size_of(gone)) + " ("@ + bytes_text(kept)
                + " would remain)"@).is_prefix_of(preview_text(files, spec)[0])
        }),
{
    let gone = evicted(files, spec);
    let kept = size_of(uses(files)) - size_of(gone);
    let line = preview_text(files, spec)[0];
    reveal_strlit(" would remain)");
    reveal_strlit(" would remain). Each also drops that eval's --tests cache rows:");
    let start = "Would evict "@ + decimal(gone.len()) + " of "@ + decimal(files.len())
        + " eval file(s), freeing "@ + bytes_text(size_of(gone)) + " ("@ + bytes_text(kept)
        + " would remain)"@;
    assert(line.subrange(0, start.len() as int) =~= start);
}

/// The size of some files is the sum of their sizes.
pub proof fn lemma_sizes_add(a: Seq<Used>, b: Seq<Used>, one: Used)
    ensures
        size_of(a + b) == size_of(a) + size_of(b),
        size_of(seq![one]) == one.size,
        size_of(Seq::empty()) == 0,
{
    lemma_size_concat(a, b);
    assert(seq![one].drop_last() =~= Seq::empty());
    assert(size_of(seq![one].drop_last()) == 0);
}

/// An answer confirms if and only if it is a yes, in full or by its first letter, in any
/// case, with white space around it or not.
pub proof fn lemma_answers(line: Seq<char>)
    ensures
        ({
            let t = trimmed(line);
            means_yes(line) <==> (t.len() == 1 && (t[0] == 'y' || t[0] == 'Y')) || (t.len() == 3 && (
            t[0] == 'y' || t[0] == 'Y') && (t[1] == 'e' || t[1] == 'E') && (t[2] == 's' || t[2]
                == 'S'))
        }),
{
    reveal_strlit("y");
    reveal_strlit("yes");
    let t = trimmed(line);
    let l = lowered(t);
    if t.len() == 1 {
        assert(l =~= "y"@ <==> l[0] == 'y');
    }
    if t.len() == 3 {
        assert(l =~= "yes"@ <==> l[0] == 'y' && l[1] == 'e' && l[2] == 's');
    }
    assert(means_yes(line) ==> l.len() == 1 || l.len() == 3);
}

/// Where nothing goes, it is told how much there is, and in how many files.
pub proof fn lemma_nothing_told(total: int, files: nat)
    ensures
        ("nothing to evict: "@ + bytes_text(total) + " in "@ + decimal(files)
            + " eval file(s)"@).is_prefix_of(nothing_text(total, files)),
{
    let text = nothing_text(total, files);
    let start = "nothing to evict: "@ + bytes_text(total) + " in "@ + decimal(files)
        + " eval file(s)"@;
    reveal_strlit(" eval file(s)");
    reveal_strlit(" eval file(s) already within budget");
    assert(text.subrange(0, start.len() as int) =~= start);
}

/// A date is a year of four digits, a month and a day of two, each after a dash; it stands
/// for midnight where the month is one of twelve, the day one of thirty-one, and that is
/// not before the beginning of time; and anything else is none.
pub proof fn lemma_date_cases(y: Seq<char>, m: Seq<char>, d: Seq<char>)
    requires
        y.len() == 4,
        m.len() == 2,
        d.len() == 2,
        all_digits(y),
        all_digits(m),
        all_digits(d),
    ensures
        ({
            let s = y + seq!['-'] + m + seq!['-'] + d;
            let days = day_number(digits_value(y), digits_value(m), digits_value(d));
            &&& date_value(s) is Some <==> 1 <= digits_value(m) <= 12 && 1 <= digits_value(d) <= 31
                && days >= 0
            &&& date_value(s) matches Some(secs) ==> secs == (days * 86_400) as u64
        }),
{
    let s = y + seq!['-'] + m + seq!['-'] + d;
    let ps = seq![y, m, d];
    assert forall|i: int| 0 <= i < ps.len() implies !(#[trigger] ps[i]).contains('-') by {
        lemma_no_dash(ps[i]);
    }
    crate::search::lemma_parts_of_joined(ps, '-');
    assert(ps.drop_last() =~= seq![y, m]);
    assert(ps.drop_last().drop_last() =~= seq![y]);
    assert(joined(seq![y], seq!['-']) == y);
    assert(joined(seq![y, m], seq!['-']) == y + seq!['-'] + m);
    assert(joined(ps, seq!['-']) =~= s);
}

} // verus!
