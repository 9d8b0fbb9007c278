//! Sizes and durations: reading them with a unit, and writing sizes to be read by
//! people. Numbers are of double precision.

use vstd::prelude::*;

use crate::precision::{
    are_digits, capped, double_of, double_times, lemma_double_beyond, lemma_pow10, lemma_weight,
    low_first, pow10, read_double, round_half_even, rounded, significant, spacing_of, times,
};
use crate::search::{char_position, is_letter, lemma_char_position_is, trim, trimmed};
use crate::text::{
    all_digits, chars_of, decimal, digits_value, is_digit, lemma_digits_value_bounds, push_decimal,
};

verus! {

// --- numbers ----------------------------------------------------------------

/// The digits before and after the point of an unsigned decimal number: one digit
/// at least, and a point or none.
pub open spec fn decimal_digits(s: Seq<char>) -> Option<(Seq<char>, Seq<char>)> {
    let dot = char_position(s, '.');
    let whole = s.take(dot);
    let fraction = if dot < s.len() {
        s.skip(dot + 1)
    } else {
        Seq::empty()
    };
    if all_digits(whole) && all_digits(fraction) && whole.len() + fraction.len() > 0 {
        Some((whole, fraction))
    } else {
        None
    }
}

/// What a sign stands before.
pub open spec fn unsigned(s: Seq<char>) -> Seq<char> {
    if s.len() > 0 && (s[0] == '-' || s[0] == '+') {
        s.skip(1)
    } else {
        s
    }
}

/// The decimal number `s` times `unit`, both steps in double precision, rounded down;
/// nothing where `s` is no number or a negative one. One that is too small to be told
/// from zero is zero, whatever its sign.
pub open spec fn scaled(s: Seq<char>, unit: int) -> Option<int> {
    match decimal_digits(unsigned(s)) {
        Some((whole, fraction)) => {
            let steps = double_of(digits_value(whole + fraction), fraction.len());
            if s[0] == '-' && steps != 0 {
                None
            } else {
                Some(double_times(steps, unit))
            }
        },
        None => None,
    }
}

/// The number that two runs of digits denote together.
proof fn lemma_digits_concat(a: Seq<char>, b: Seq<char>)
    ensures
        digits_value(a + b) == digits_value(a) * pow10(b.len()) + digits_value(b),
    decreases b.len(),
{
    if b.len() == 0 {
        assert(a + b =~= a);
    } else {
        lemma_digits_concat(a, b.drop_last());
        assert((a + b).drop_last() =~= a + b.drop_last());
        let p = pow10((b.len() - 1) as nat);
        assert((digits_value(a) * p) * 10 == digits_value(a) * (10 * p)) by (nonlinear_arith);
    }
}

/// Whether `cs[from..to]` holds digits only.
fn digits_only(cs: &Vec<char>, from: usize, to: usize) -> (yes: bool)
    requires
        from <= to <= cs@.len(),
    ensures
        yes == all_digits(cs@.subrange(from as int, to as int)),
{
    let ghost part = cs@.subrange(from as int, to as int);
    let mut i: usize = from;
    while i < to
        invariant
            from <= i <= to <= cs@.len(),
            part == cs@.subrange(from as int, to as int),
            forall|k: int| 0 <= k < i - from ==> is_digit(#[trigger] part[k]),
        decreases to - i,
    {
        if cs[i] < '0' || cs[i] > '9' {
            assert(!is_digit(part[i - from]));
            return false;
        }
        i += 1;
    }
    true
}

/// The number that the digits `cs[0..to]` denote, or the largest one, and whether
/// it is larger than that.
fn whole_part(cs: &Vec<char>, from: usize, to: usize) -> (out: (u64, bool))
    requires
        from <= to <= cs@.len(),
        all_digits(cs@.subrange(from as int, to as int)),
    ensures
        ({
            let v = digits_value(cs@.subrange(from as int, to as int));
            if out.1 {
                v > u64::MAX
            } else {
                out.0 == v
            }
        }),
{
    let ghost part = cs@.subrange(from as int, to as int);
    let mut v: u64 = 0;
    let mut over = false;
    let mut i: usize = from;
    while i < to
        invariant
            from <= i <= to <= cs@.len(),
            part == cs@.subrange(from as int, to as int),
            all_digits(part),
            !over ==> v == digits_value(part.take(i - from)),
            over ==> digits_value(part.take(i - from)) > u64::MAX,
        decreases to - i,
    {
        let ghost next = part.take(i - from + 1);
        assert(next.drop_last() =~= part.take(i - from));
        assert(is_digit(part[i - from]));
        let d: u64 = cs[i] as u64 - 48;
        if !over {
            if v > (u64::MAX - d) / 10 {
                over = true;
            } else {
                v = v * 10 + d;
            }
        }
        i += 1;
    }
    assert(part.take(i - from) =~= part);
    (v, over)
}

/// The digits `cs[from..]`, the last place first.
fn fraction_digits(cs: &Vec<char>, from: usize) -> (out: Vec<u8>)
    requires
        from <= cs@.len(),
        all_digits(cs@.skip(from as int)),
    ensures
        are_digits(out@),
        out@.len() == cs@.skip(from as int).len(),
        low_first(out@) == digits_value(cs@.skip(from as int)),
{
    let ghost part = cs@.skip(from as int);
    let mut out: Vec<u8> = Vec::new();
    let mut i: usize = cs.len();
    assert(part.skip(i - from) =~= Seq::<char>::empty());
    while i > from
        invariant
            from <= i <= cs@.len(),
            part == cs@.skip(from as int),
            all_digits(part),
            are_digits(out@),
            out@.len() == cs@.len() - i,
            low_first(out@) == digits_value(part.skip(i - from)),
        decreases i,
    {
        let ghost before = out@;
        i -= 1;
        assert(is_digit(part[i - from]));
        let d: u8 = (cs[i] as u64 - 48) as u8;
        out.push(d);
        proof {
            let rest = part.skip(i - from + 1);
            let first = part.skip(i - from).take(1);
            lemma_digits_concat(first, rest);
            assert(first + rest =~= part.skip(i - from));
            assert(digits_value(first) == d) by {
                reveal_with_fuel(digits_value, 2);
                assert(first.drop_last() =~= Seq::<char>::empty());
                assert(first.last() == cs@[i as int]);
            }
            assert(out@.drop_last() =~= before);
        }
    }
    assert(part.skip(0) =~= part);
    out
}

/// Where the point of the number `cs[from..]` is, and where its fraction starts;
/// nothing where it is no unsigned decimal number.
fn find_point(cs: &Vec<char>, from: usize) -> (out: Option<(usize, usize)>)
    requires
        from <= cs@.len(),
    ensures
        match out {
            Some((dot, after)) => {
                &&& from <= dot <= after <= cs@.len()
                &&& decimal_digits(cs@.skip(from as int)) == Some(
                    (cs@.subrange(from as int, dot as int), cs@.skip(after as int)),
                )
            },
            None => decimal_digits(cs@.skip(from as int)) is None,
        },
{
    let ghost body = cs@.skip(from as int);
    let mut dot: usize = from;
    while dot < cs.len() && cs[dot] != '.'
        invariant
            from <= dot <= cs@.len(),
            body == cs@.skip(from as int),
            forall|k: int| 0 <= k < dot - from ==> #[trigger] body[k] != '.',
        decreases cs@.len() - dot,
    {
        assert(body[dot - from] == cs@[dot as int]);
        dot += 1;
    }
    let after: usize = if dot < cs.len() {
        dot + 1
    } else {
        dot
    };
    let ghost whole = cs@.subrange(from as int, dot as int);
    let ghost fraction = cs@.skip(after as int);
    proof {
        lemma_char_position_is(body, '.', dot - from);
        assert(body.take(dot - from) =~= whole);
        if dot < cs.len() {
            assert(body.skip(dot - from + 1) =~= fraction);
        } else {
            assert(fraction =~= Seq::<char>::empty());
        }
        assert(cs@.subrange(after as int, cs@.len() as int) =~= fraction);
    }
    if digits_only(cs, from, dot) && digits_only(cs, after, cs.len()) && (dot > from || cs.len()
        > after) {
        Some((dot, after))
    } else {
        None
    }
}

/// The decimal number `s` times `unit`, in double precision, rounded down, or the
/// largest 64-bit number where that is larger.
fn parse_scaled(s: &str, unit: u64) -> (out: Option<u64>)
    requires
        1 <= unit <= 0x100_0000_0000,
    ensures
        out == (match scaled(s@, unit as int) {
            Some(v) => Some(capped(v)),
            None => None,
        }),
{
    let cs = chars_of(s);
    let from: usize = if cs.len() > 0 && (cs[0] == '-' || cs[0] == '+') {
        1
    } else {
        0
    };
    assert(unsigned(s@) =~= cs@.skip(from as int));
    let (dot, after) = match find_point(&cs, from) {
        Some(parts) => parts,
        None => {
            return None;
        },
    };
    let ghost whole = cs@.subrange(from as int, dot as int);
    let ghost fraction = cs@.skip(after as int);
    let negative = cs[0] == '-';
    let (v, over) = whole_part(&cs, from, dot);
    proof {
        lemma_digits_concat(whole, fraction);
        lemma_digits_value_bounds(fraction);
    }
    if over {
        proof {
            let (w, b) = (digits_value(whole), pow10(fraction.len()));
            lemma_pow10(fraction.len());
            assert(w * b >= 0x1_0000_0000_0000_0000 * b) by (nonlinear_arith)
                requires
                    w >= 0x1_0000_0000_0000_0000,
                    b > 0,
            ;
            lemma_double_beyond(
                digits_value(whole + fraction),
                fraction.len(),
                unit as int,
            );
        }
        return if negative {
            None
        } else {
            Some(u64::MAX)
        };
    }
    let x = read_double(v, fraction_digits(&cs, after));
    proof {
        lemma_weight(x);
    }
    if negative && x.digits != 0 {
        return None;
    }
    Some(times(&x, unit))
}

// --- units ------------------------------------------------------------------

/// The position of the first ASCII letter of `s`, or the length of `s`.
pub open spec fn letter_position(s: Seq<char>) -> int
    decreases s.len(),
{
    if s.len() == 0 || is_letter(s[0]) {
        0
    } else {
        1 + letter_position(s.skip(1))
    }
}

/// The number of a `<number><unit>` text: what stands before the first letter.
pub open spec fn number_text(s: Seq<char>) -> Seq<char> {
    trimmed(s.take(letter_position(s)))
}

/// The unit of a `<number><unit>` text: all from the first letter on.
pub open spec fn unit_text(s: Seq<char>) -> Seq<char> {
    s.skip(letter_position(s))
}

/// The bytes in a unit of size: powers of 1000, or of 1024 for the `i` units.
pub open spec fn size_unit(unit: Seq<char>) -> Option<int> {
    if unit == ""@ || unit == "B"@ {
        Some(1)
    } else if unit == "KB"@ {
        Some(1_000)
    } else if unit == "MB"@ {
        Some(1_000_000)
    } else if unit == "GB"@ {
        Some(1_000_000_000)
    } else if unit == "TB"@ {
        Some(1_000_000_000_000)
    } else if unit == "KiB"@ {
        Some(0x400)
    } else if unit == "MiB"@ {
        Some(0x10_0000)
    } else if unit == "GiB"@ {
        Some(0x4000_0000)
    } else if unit == "TiB"@ {
        Some(0x100_0000_0000)
    } else {
        None
    }
}

/// The seconds in a unit of time. A month has 30 days, a year 365.
pub open spec fn time_unit(unit: Seq<char>) -> Option<int> {
    if unit == "h"@ {
        Some(3_600)
    } else if unit == "d"@ {
        Some(86_400)
    } else if unit == "w"@ {
        Some(604_800)
    } else if unit == "mo"@ {
        Some(2_592_000)
    } else if unit == "y"@ || unit == "yr"@ {
        Some(31_536_000)
    } else {
        None
    }
}

/// A number of units.
pub open spec fn amount(s: Seq<char>, unit: Option<int>) -> Option<u64> {
    match unit {
        Some(unit) => match scaled(number_text(s), unit) {
            Some(v) => Some(capped(v)),
            None => None,
        },
        None => None,
    }
}

/// The byte count that `s` writes.
pub open spec fn size_value(s: Seq<char>) -> Option<u64> {
    amount(s, size_unit(unit_text(s)))
}

/// The seconds that `s` writes.
pub open spec fn duration_value(s: Seq<char>) -> Option<u64> {
    amount(s, time_unit(unit_text(s)))
}

/// The position of the first letter is within the text.
pub proof fn lemma_letter_position(s: Seq<char>)
    ensures
        0 <= letter_position(s) <= s.len(),
        forall|i: int| 0 <= i < letter_position(s) ==> !is_letter(#[trigger] s[i]),
        letter_position(s) < s.len() ==> is_letter(s[letter_position(s)]),
    decreases s.len(),
{
    if s.len() > 0 && !is_letter(s[0]) {
        lemma_letter_position(s.skip(1));
        assert forall|i: int| 0 <= i < letter_position(s) implies !is_letter(#[trigger] s[i]) by {
            if i > 0 {
                assert(s.skip(1)[i - 1] == s[i]);
            }
        }
    }
}

/// Splits a `<number><unit>` text into the number, without white space around it,
/// and the unit.
fn split_num_unit(s: &str) -> (parts: (&str, &str))
    ensures
        parts.0@ == number_text(s@),
        parts.1@ == unit_text(s@),
{
    let cs = chars_of(s);
    let mut i: usize = 0;
    assert(cs@.skip(0) =~= s@);
    while i < cs.len() && !(('a' <= cs[i] && cs[i] <= 'z') || ('A' <= cs[i] && cs[i] <= 'Z'))
        invariant
            i <= cs@.len(),
            cs@ == s@,
            letter_position(s@) == i + letter_position(cs@.skip(i as int)),
        decreases cs@.len() - i,
    {
        assert(cs@.skip(i as int).skip(1) =~= cs@.skip(i + 1));
        i += 1;
    }
    let num = s.substring_char(0, i);
    let unit = s.substring_char(i, cs.len());
    assert(num@ =~= s@.take(i as int));
    assert(unit@ =~= s@.skip(i as int));
    (trim(num), unit)
}

/// A byte count: `4GiB`, `500MB`, `1.5GB`, or bare digits (bytes). Decimal units
/// are powers of 1000, `i` units powers of 1024.
pub fn parse_size(s: &str) -> (bytes: Option<u64>)
    ensures
        bytes == size_value(s@),
{
    let (num, unit) = split_num_unit(s);
    let mult: u64 = if *unit == *"" || *unit == *"B" {
        1
    } else if *unit == *"KB" {
        1_000
    } else if *unit == *"MB" {
        1_000_000
    } else if *unit == *"GB" {
        1_000_000_000
    } else if *unit == *"TB" {
        1_000_000_000_000
    } else if *unit == *"KiB" {
        0x400
    } else if *unit == *"MiB" {
        0x10_0000
    } else if *unit == *"GiB" {
        0x4000_0000
    } else if *unit == *"TiB" {
        0x100_0000_0000
    } else {
        return None;
    };
    parse_scaled(num, mult)
}

/// A duration in seconds: `30d`, `2mo`, `1yr`. Months are 30 days, years 365.
pub fn parse_duration_secs(s: &str) -> (secs: Option<u64>)
    ensures
        secs == duration_value(s@),
{
    let (num, unit) = split_num_unit(s);
    let mult: u64 = if *unit == *"h" {
        3_600
    } else if *unit == *"d" {
        86_400
    } else if *unit == *"w" {
        604_800
    } else if *unit == *"mo" {
        2_592_000
    } else if *unit == *"y" || *unit == *"yr" {
        31_536_000
    } else {
        return None;
    };
    parse_scaled(num, mult)
}

// --- sizes for people -------------------------------------------------------

/// The binary unit in which a byte count is written: its name and its bytes.
pub open spec fn binary_unit(n: int) -> (Seq<char>, int) {
    if n < 0x10_0000 {
        (" KiB"@, 0x400)
    } else if n < 0x4000_0000 {
        (" MiB"@, 0x10_0000)
    } else if n < 0x100_0000_0000 {
        (" GiB"@, 0x4000_0000)
    } else {
        (" TiB"@, 0x100_0000_0000)
    }
}

/// A byte count as it is written: in full below 1024, else in the largest binary
/// unit that it reaches, to one decimal place.
pub open spec fn bytes_text(n: int) -> Seq<char> {
    if n < 1024 {
        decimal(n as nat) + " B"@
    } else {
        let (name, unit) = binary_unit(n);
        let tenths = rounded(significant(n) * 10, unit);
        decimal((tenths / 10) as nat) + "."@ + decimal((tenths % 10) as nat) + name
    }
}

/// A byte count in binary units, e.g. `3.4 GiB` (exact `B` under 1 KiB).
pub fn human_bytes(n: u64) -> (out: String)
    ensures
        out@ == bytes_text(n as int),
{
    let mut out = String::new();
    if n < 1024 {
        push_decimal(&mut out, n);
        out.append(" B");
        assert(out@ =~= bytes_text(n as int));
        return out;
    }
    let step: u64 = spacing_of(n);
    let whole: u128 = round_half_even(n as u128, step as u128);
    assert(whole * step <= n + step && 0 <= whole * step) by (nonlinear_arith)
        requires
            whole <= n / step + 1,
            step >= 1,
            n >= 0,
            whole >= 0,
    ;
    let v: u128 = whole * (step as u128);
    let unit: u64 = if n < 0x10_0000 {
        0x400
    } else if n < 0x4000_0000 {
        0x10_0000
    } else if n < 0x100_0000_0000 {
        0x4000_0000
    } else {
        0x100_0000_0000
    };
    let tenths: u128 = round_half_even(v * 10, unit as u128);
    assert(tenths <= 0xffff_ffff_ffff_ffff) by {
        assert(v * 10 <= 0xffff_ffff_ffff_ffff_f);
        assert(unit >= 0x400);
        assert((v * 10) / (unit as int) <= (v * 10) / 0x400) by (nonlinear_arith)
            requires
                unit >= 0x400,
                v >= 0,
        ;
    }
    push_decimal(&mut out, (tenths / 10) as u64);
    out.append(".");
    push_decimal(&mut out, (tenths % 10) as u64);
    out.append(if n < 0x10_0000 {
        " KiB"
    } else if n < 0x4000_0000 {
        " MiB"
    } else if n < 0x100_0000_0000 {
        " GiB"
    } else {
        " TiB"
    });
    assert(out@ =~= bytes_text(n as int));
    out
}

// --- laws -------------------------------------------------------------------

/// What each unit of size stands for: a thousand, or 1024, of the one before it.
pub proof fn lemma_size_units()
    ensures
        size_unit(""@) == Some(1int) && size_unit("B"@) == Some(1int),
        size_unit("KB"@) == Some(1000int),
        size_unit("MB"@) == Some(1000 * 1000int),
        size_unit("GB"@) == Some(1000 * 1000 * 1000int),
        size_unit("TB"@) == Some(1000 * 1000 * 1000 * 1000int),
        size_unit("KiB"@) == Some(1024int),
        size_unit("MiB"@) == Some(1024 * 1024int),
        size_unit("GiB"@) == Some(1024 * 1024 * 1024int),
        size_unit("TiB"@) == Some(1024 * 1024 * 1024 * 1024int),
{
    reveal_strlit("");
    reveal_strlit("B");
    reveal_strlit("KB");
    reveal_strlit("MB");
    reveal_strlit("GB");
    reveal_strlit("TB");
    reveal_strlit("KiB");
    reveal_strlit("MiB");
    reveal_strlit("GiB");
    reveal_strlit("TiB");
    assert(""@.len() == 0 && "B"@.len() == 1 && "KB"@.len() == 2 && "MB"@.len() == 2);
    assert("GB"@.len() == 2 && "TB"@.len() == 2 && "KiB"@.len() == 3 && "MiB"@.len() == 3);
    assert("GiB"@.len() == 3 && "TiB"@.len() == 3);
    assert("KB"@[0] != "MB"@[0] && "KB"@[0] != "GB"@[0] && "KB"@[0] != "TB"@[0]);
    assert("MB"@[0] != "GB"@[0] && "MB"@[0] != "TB"@[0] && "GB"@[0] != "TB"@[0]);
    assert("KiB"@[0] != "MiB"@[0] && "KiB"@[0] != "GiB"@[0] && "KiB"@[0] != "TiB"@[0]);
    assert("MiB"@[0] != "GiB"@[0] && "MiB"@[0] != "TiB"@[0] && "GiB"@[0] != "TiB"@[0]);
}

/// What each unit of time stands for, in seconds: a day is 24 hours, a week seven days, a
/// month thirty and a year 365.
pub proof fn lemma_time_units()
    ensures
        time_unit("h"@) == Some(60 * 60int),
        time_unit("d"@) == Some(24 * 60 * 60int),
        time_unit("w"@) == Some(7 * 24 * 60 * 60int),
        time_unit("mo"@) == Some(30 * 24 * 60 * 60int),
        time_unit("y"@) == Some(365 * 24 * 60 * 60int),
        time_unit("yr"@) == Some(365 * 24 * 60 * 60int),
{
    reveal_strlit("h");
    reveal_strlit("d");
    reveal_strlit("w");
    reveal_strlit("mo");
    reveal_strlit("y");
    reveal_strlit("yr");
    assert("h"@.len() == 1 && "d"@.len() == 1 && "w"@.len() == 1 && "y"@.len() == 1);
    assert("mo"@.len() == 2 && "yr"@.len() == 2);
    assert("h"@[0] != "d"@[0] && "h"@[0] != "w"@[0] && "h"@[0] != "y"@[0]);
    assert("d"@[0] != "w"@[0] && "d"@[0] != "y"@[0] && "w"@[0] != "y"@[0]);
    assert("mo"@[0] != "yr"@[0]);
}

/// A whole number with a unit is that many of the unit, exactly, as long as that stays
/// below two to the fifty-third.
pub proof fn lemma_whole_amount(n: nat, unit: Seq<char>)
    requires
        unit.len() == 0 || is_letter(unit[0]),
    ensures
        size_unit(unit) matches Some(u) ==> n * u < 0x20_0000_0000_0000 && n
            < 0x20_0000_0000_0000 ==> size_value(decimal(n) + unit) == Some((n * u) as u64),
        size_unit(unit) is None ==> size_value(decimal(n) + unit) is None,
        time_unit(unit) matches Some(u) ==> n * u < 0x20_0000_0000_0000 && n
            < 0x20_0000_0000_0000 ==> duration_value(decimal(n) + unit) == Some((n * u) as u64),
        time_unit(unit) is None ==> duration_value(decimal(n) + unit) is None,
{
    let digits = decimal(n);
    let s = digits + unit;
    crate::text::lemma_decimal_value(n);
    lemma_letter_position(s);
    let at = letter_position(s);
    assert(at == digits.len()) by {
        if at < digits.len() {
            assert(is_digit(digits[at]));
            assert(s[at] == digits[at]);
        }
        if at > digits.len() {
            assert(s[digits.len() as int] == unit[0]);
        }
    }
    assert(s.take(at) =~= digits);
    assert(s.skip(at) =~= unit);
    assert(is_digit(digits[0]) && is_digit(digits[digits.len() - 1]));
    assert(trimmed(digits) == digits);
    assert(unsigned(digits) == digits);
    assert forall|j: int| 0 <= j < digits.len() implies digits[j] != '.' by {
        assert(is_digit(digits[j]));
    }
    lemma_char_position_is(digits, '.', digits.len() as int);
    assert(digits.take(digits.len() as int) =~= digits);
    assert(digits + Seq::<char>::empty() =~= digits);
    assert(decimal_digits(digits) == Some((digits, Seq::<char>::empty())));
    assert(is_digit(digits[0]) ==> digits[0] != '-');
    match size_unit(unit) {
        Some(u) => {
            if n * u < 0x20_0000_0000_0000 && n < 0x20_0000_0000_0000 {
                crate::precision::lemma_whole_is_exact(n as int, u);
            }
        },
        None => {},
    }
    match time_unit(unit) {
        Some(u) => {
            if n * u < 0x20_0000_0000_0000 && n < 0x20_0000_0000_0000 {
                crate::precision::lemma_whole_is_exact(n as int, u);
            }
        },
        None => {},
    }
}

/// A size is shown in the largest unit that it holds one of, and exactly where it is less
/// than a kibibyte.
pub proof fn lemma_shown_unit(n: int)
    requires
        0 <= n,
    ensures
        n < 1024 ==> bytes_text(n) == decimal(n as nat) + " B"@,
        1024 <= n < 1024 * 1024 ==> " KiB"@.is_suffix_of(bytes_text(n)),
        1024 * 1024 <= n < 1024 * 1024 * 1024 ==> " MiB"@.is_suffix_of(bytes_text(n)),
        1024 * 1024 * 1024 <= n < 1024 * 1024 * 1024 * 1024 ==> " GiB"@.is_suffix_of(
            bytes_text(n),
        ),
        n >= 1024 * 1024 * 1024 * 1024 ==> " TiB"@.is_suffix_of(bytes_text(n)),
{
    let text = bytes_text(n);
    if n >= 1024 {
        let name = binary_unit(n).0;
        assert(text.subrange(text.len() - name.len(), text.len() as int) =~= name);
    }
}

/// The number that a size is shown as is that of its unit in tenths: no further from it
/// than half a tenth, where the size is one that double precision holds.
pub proof fn lemma_shown_tenths(n: int)
    requires
        1024 <= n < 0x20_0000_0000_0000,
    ensures
        exists|tenths: int|
            #![trigger decimal((tenths / 10) as nat)]
            tenths >= 0 && (decimal((tenths / 10) as nat) + "."@ + decimal((tenths % 10) as nat)
                + " "@).is_prefix_of(bytes_text(n)) && -binary_unit(n).1 <= 2 * (tenths
                * binary_unit(n).1 - 10 * n) <= binary_unit(n).1,
{
    let (name, unit) = binary_unit(n);
    let tenths = rounded(significant(n) * 10, unit);
    assert(significant(n) == n);
    let q = (10 * n) / unit;
    let r = (10 * n) % unit;
    vstd::arithmetic::div_mod::lemma_fundamental_div_mod(10 * n, unit);
    assert(10 * n == unit * q + r);
    vstd::arithmetic::div_mod::lemma_mod_bound(10 * n, unit);
    assert(tenths == q || tenths == q + 1);
    assert((q + 1) * unit == unit * q + unit) by (nonlinear_arith);
    assert(q * unit == unit * q) by (nonlinear_arith);
    assert(q >= 0) by {
        vstd::arithmetic::div_mod::lemma_div_pos_is_pos(10 * n, unit);
    }
    let text = bytes_text(n);
    let start = decimal((tenths / 10) as nat) + "."@ + decimal((tenths % 10) as nat) + " "@;
    reveal_strlit(" ");
    reveal_strlit(" KiB");
    reveal_strlit(" MiB");
    reveal_strlit(" GiB");
    reveal_strlit(" TiB");
    assert(text.subrange(0, start.len() as int) =~= start);
}

/// A plus before a number changes nothing, and a minus is taken only before a nought.
pub proof fn lemma_signs(s: Seq<char>, unit: int)
    requires
        s.len() > 0,
        s[0] != '+',
        s[0] != '-',
    ensures
        scaled(seq!['+'] + s, unit) == scaled(s, unit),
        scaled(seq!['-'] + s, unit) is Some ==> scaled(s, unit) == Some(double_times(0, unit)),
        scaled(s, unit) is None ==> scaled(seq!['-'] + s, unit) is None,
{
    assert((seq!['+'] + s).skip(1) =~= s);
    assert((seq!['-'] + s).skip(1) =~= s);
}

/// A number is digits, with a point among them or without, one digit at least; what stands
/// before the point counts whole units, and what stands after it their fractions.
pub proof fn lemma_number_digits(whole: Seq<char>, fraction: Seq<char>, unit: int)
    requires
        all_digits(whole),
        all_digits(fraction),
        whole.len() > 0,
    ensures
        scaled(whole, unit) == Some(double_times(double_of(digits_value(whole), 0), unit)),
        scaled(whole + "."@ + fraction, unit) == Some(
            double_times(double_of(digits_value(whole + fraction), fraction.len()), unit),
        ),
{
    reveal_strlit(".");
    let s = whole + "."@ + fraction;
    assert(is_digit(whole[0]));
    assert forall|j: int| 0 <= j < whole.len() implies whole[j] != '.' by {
        assert(is_digit(whole[j]));
    }
    lemma_char_position_is(whole, '.', whole.len() as int);
    assert(whole.take(whole.len() as int) =~= whole);
    assert(whole + Seq::<char>::empty() =~= whole);
    assert forall|j: int| 0 <= j < whole.len() implies s[j] != '.' by {
        assert(s[j] == whole[j]);
    }
    lemma_char_position_is(s, '.', whole.len() as int);
    assert(s.take(whole.len() as int) =~= whole);
    assert(s.skip(whole.len() as int + 1) =~= fraction);
    assert(s[0] == whole[0]);
}

/// What is taken for a number holds digits and no more than one point, beside its sign.
pub proof fn lemma_number_shape(s: Seq<char>, unit: int)
    requires
        scaled(s, unit) is Some,
    ensures
        unsigned(s).len() >= 1,
        forall|i: int|
            0 <= i < unsigned(s).len() ==> '0' <= #[trigger] unsigned(s)[i] <= '9' || unsigned(s)[i]
                == '.',
        forall|i: int, j: int|
            0 <= i < j < unsigned(s).len() ==> #[trigger] unsigned(s)[i] != '.'
                || #[trigger] unsigned(s)[j] != '.',
{
    let t = unsigned(s);
    let dot = char_position(t, '.');
    crate::search::lemma_char_position(t, '.');
    assert(decimal_digits(t) is Some);
    let whole = t.take(dot);
    assert forall|i: int| 0 <= i < t.len() && i != dot implies '0' <= #[trigger] t[i] <= '9' by {
        if i < dot {
            assert(whole[i] == t[i]);
            assert(is_digit(whole[i]));
        } else {
            let fraction = t.skip(dot + 1);
            assert(fraction[i - dot - 1] == t[i]);
            assert(is_digit(fraction[i - dot - 1]));
        }
    }
    assert(dot < t.len() ==> t[dot] == '.');
}

} // verus!
