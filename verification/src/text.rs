//! Text as sequences of characters: the small vocabulary that every other
//! module states its strings in, and the functions that compute it.

use vstd::prelude::*;

verus! {

/// The characters of each string of a list.
pub open spec fn texts(v: Seq<String>) -> Seq<Seq<char>> {
    v.map_values(|s: String| s@)
}

/// The characters of an optional string.
pub open spec fn opt_text(s: Option<String>) -> Option<Seq<char>> {
    match s {
        Some(s) => Some(s@),
        None => None,
    }
}

/// The characters of an optional string slice.
pub open spec fn opt_str(s: Option<&str>) -> Option<Seq<char>> {
    match s {
        Some(s) => Some(s@),
        None => None,
    }
}

// --- characters and strings -------------------------------------------------

/// The characters of `s`, as a vector.
pub fn chars_of(s: &str) -> (out: Vec<char>)
    ensures
        out@ == s@,
{
    let mut out: Vec<char> = Vec::new();
    for c in it: s.chars()
        invariant
            out@ == it.seq().take(it.index() as int),
    {
        out.push(c);
    }
    out
}

/// The string made of the characters `cs[from..to]`.
pub fn string_of(cs: &Vec<char>, from: usize, to: usize) -> (out: String)
    requires
        from <= to <= cs@.len(),
    ensures
        out@ == cs@.subrange(from as int, to as int),
{
    let mut out = String::new();
    let mut i: usize = from;
    while i < to
        invariant
            from <= i <= to <= cs@.len(),
            out@ == cs@.subrange(from as int, i as int),
        decreases to - i,
    {
        out.push(cs[i]);
        i += 1;
        assert(cs@.subrange(from as int, i as int) =~= cs@.subrange(from as int, i - 1).push(cs@[i - 1]));
    }
    out
}

/// A copy of an optional string.
pub fn clone_opt(s: &Option<String>) -> (out: Option<String>)
    ensures
        out == *s,
{
    match s {
        Some(s) => Some(s.clone()),
        None => None,
    }
}

/// A copy of a list of strings.
pub fn clone_texts(v: &[String]) -> (out: Vec<String>)
    ensures
        out@ == v@,
{
    let mut out: Vec<String> = Vec::new();
    let mut i: usize = 0;
    while i < v.len()
        invariant
            i <= v.len(),
            out@ == v@.take(i as int),
        decreases v.len() - i,
    {
        out.push(v[i].clone());
        i += 1;
        assert(v@.take(i as int) =~= v@.take(i - 1).push(v@[i - 1]));
    }
    assert(v@.take(i as int) =~= v@);
    out
}

/// Whether two optional strings are equal.
pub fn same_opt(a: &Option<String>, b: &Option<String>) -> (same: bool)
    ensures
        same == (opt_text(*a) == opt_text(*b)),
{
    match (a, b) {
        (Some(x), Some(y)) => *x == *y,
        (None, None) => true,
        _ => false,
    }
}

/// Whether `item` is one of the strings of `v`.
pub fn contains_text(v: &[String], item: &str) -> (found: bool)
    ensures
        found == texts(v@).contains(item@),
{
    let mut i: usize = 0;
    while i < v.len()
        invariant
            i <= v.len(),
            forall|j: int| 0 <= j < i ==> texts(v@)[j] != item@,
        decreases v.len() - i,
    {
        if *v[i].as_str() == *item {
            assert(texts(v@)[i as int] == item@);
            return true;
        }
        i += 1;
    }
    false
}

/// `n` copies of `s`, one after the other.
pub open spec fn repeated(s: Seq<char>, n: nat) -> Seq<char>
    decreases n,
{
    if n == 0 {
        Seq::empty()
    } else {
        repeated(s, (n - 1) as nat) + s
    }
}

/// Appends `n` copies of `s` to `out`.
pub fn push_repeated(out: &mut String, s: &str, n: usize)
    ensures
        final(out)@ == old(out)@ + repeated(s@, n as nat),
{
    let ghost start = out@;
    let mut i: usize = 0;
    assert(out@ =~= start + repeated(s@, 0));
    while i < n
        invariant
            i <= n,
            out@ == start + repeated(s@, i as nat),
        decreases n - i,
    {
        out.append(s);
        i += 1;
        assert(start + repeated(s@, i as nat) =~= (start + repeated(s@, (i - 1) as nat)) + s@);
    }
}

/// The strings of `parts`, with `sep` between each two neighbours.
pub open spec fn joined(parts: Seq<Seq<char>>, sep: Seq<char>) -> Seq<char>
    decreases parts.len(),
{
    if parts.len() == 0 {
        Seq::empty()
    } else if parts.len() == 1 {
        parts[0]
    } else {
        joined(parts.drop_last(), sep) + sep + parts.last()
    }
}

/// Joins a list of strings with `sep`.
pub fn join(parts: &[String], sep: &str) -> (out: String)
    ensures
        out@ == joined(texts(parts@), sep@),
{
    let mut out = String::new();
    let mut i: usize = 0;
    while i < parts.len()
        invariant
            i <= parts.len(),
            out@ == joined(texts(parts@.take(i as int)), sep@),
        decreases parts.len() - i,
    {
        if i > 0 {
            out.append(sep);
        }
        out.append(parts[i].as_str());
        i += 1;
        let ghost now = texts(parts@.take(i as int));
        assert(now.drop_last() =~= texts(parts@.take(i - 1)));
        assert(now.last() == parts@[i - 1]@);
        assert(i == 1 ==> out@ =~= now[0]);
    }
    assert(parts@.take(i as int) =~= parts@);
    out
}

// --- numbers ----------------------------------------------------------------

/// The decimal digit of value `d`.
pub open spec fn digit_char(d: int) -> char {
    (48 + d) as char
}

/// Whether `c` is one of `0` to `9`.
pub open spec fn is_digit(c: char) -> bool {
    '0' <= c <= '9'
}

/// The value of a decimal digit.
pub open spec fn digit_value(c: char) -> int {
    c as int - 48
}

/// `n` in decimal, without leading zeros.
pub open spec fn decimal(n: nat) -> Seq<char>
    decreases n,
{
    if n < 10 {
        seq![digit_char(n as int)]
    } else {
        decimal(n / 10).push(digit_char((n % 10) as int))
    }
}

/// `i` in decimal, with a leading `-` when it is negative.
pub open spec fn signed_decimal(i: int) -> Seq<char> {
    if i < 0 {
        seq!['-'] + decimal((-i) as nat)
    } else {
        decimal(i as nat)
    }
}

fn push_digit(out: &mut String, d: u8)
    requires
        d < 10,
    ensures
        final(out)@ == old(out)@.push(digit_char(d as int)),
{
    let c: char = (48 + d) as char;
    out.push(c);
}

/// Appends `n` in decimal.
pub fn push_decimal(out: &mut String, n: u64)
    ensures
        final(out)@ == old(out)@ + decimal(n as nat),
    decreases n,
{
    let ghost start = out@;
    if n >= 10 {
        push_decimal(out, n / 10);
    }
    push_digit(out, (n % 10) as u8);
    assert(out@ =~= start + decimal(n as nat));
}

/// Appends `i` in decimal.
pub fn push_signed_decimal(out: &mut String, i: i64)
    ensures
        final(out)@ == old(out)@ + signed_decimal(i as int),
{
    let ghost start = out@;
    if i < 0 {
        out.push('-');
        if i == i64::MIN {
            push_decimal(out, 9223372036854775808u64);
        } else {
            push_decimal(out, (-i) as u64);
        }
        assert(out@ =~= start + (seq!['-'] + decimal((-i) as nat)));
    } else {
        push_decimal(out, i as u64);
    }
}

/// `s`, right-aligned in a field of `width` filled with `fill`.
pub open spec fn right_aligned(s: Seq<char>, width: nat, fill: char) -> Seq<char> {
    if s.len() >= width {
        s
    } else {
        Seq::new((width - s.len()) as nat, |i: int| fill) + s
    }
}

/// Appends `s`, right-aligned in a field of `width` filled with `fill`.
pub fn push_right_aligned(out: &mut String, s: &str, width: usize, fill: char)
    ensures
        final(out)@ == old(out)@ + right_aligned(s@, width as nat, fill),
{
    let ghost start = out@;
    let len = s.unicode_len();
    let mut i: usize = len;
    assert(out@ =~= start + Seq::new(0nat, |j: int| fill));
    while i < width
        invariant
            len == s@.len(),
            len <= i,
            len <= width ==> i <= width,
            len > width ==> i == len,
            out@ == start + Seq::new((i - len) as nat, |j: int| fill),
        decreases width - i,
    {
        out.push(fill);
        i += 1;
        assert(out@ =~= start + Seq::new((i - len) as nat, |j: int| fill));
    }
    out.append(s);
    assert(out@ =~= start + right_aligned(s@, width as nat, fill));
}

/// The number that a run of decimal digits denotes.
pub open spec fn digits_value(s: Seq<char>) -> int
    decreases s.len(),
{
    if s.len() == 0 {
        0
    } else {
        digits_value(s.drop_last()) * 10 + digit_value(s.last())
    }
}

/// Whether every character of `s` is a decimal digit.
pub open spec fn all_digits(s: Seq<char>) -> bool {
    forall|i: int| 0 <= i < s.len() ==> is_digit(#[trigger] s[i])
}

/// An unsigned number in decimal: an optional `+`, then one digit or more.
pub open spec fn number_value(s: Seq<char>) -> Option<int> {
    let digits = if s.len() > 0 && s[0] == '+' {
        s.skip(1)
    } else {
        s
    };
    if digits.len() > 0 && all_digits(digits) {
        Some(digits_value(digits))
    } else {
        None
    }
}

/// The number that `s` denotes, where it is one and fits in 64 bits.
pub open spec fn u64_value(s: Seq<char>) -> Option<u64> {
    match number_value(s) {
        Some(v) => if v <= u64::MAX {
            Some(v as u64)
        } else {
            None
        },
        None => None,
    }
}

/// A run of digits denotes no negative number.
pub proof fn lemma_digits_value_bounds(s: Seq<char>)
    requires
        all_digits(s),
    ensures
        digits_value(s) >= 0,
    decreases s.len(),
{
    if s.len() > 0 {
        assert(is_digit(s[s.len() - 1]));
        assert forall|i: int| 0 <= i < s.drop_last().len() implies is_digit(
            #[trigger] s.drop_last()[i],
        ) by {
            assert(is_digit(s[i]));
        }
        lemma_digits_value_bounds(s.drop_last());
    }
}

/// Reads an unsigned 64-bit number in decimal.
pub fn parse_u64(s: &str) -> (out: Option<u64>)
    ensures
        out == u64_value(s@),
{
    let cs = chars_of(s);
    let start: usize = if cs.len() > 0 && cs[0] == '+' {
        1
    } else {
        0
    };
    let ghost digits = cs@.skip(start as int);
    assert(start == 0 ==> digits =~= s@);
    assert(number_value(s@) == (if digits.len() > 0 && all_digits(digits) {
        Some(digits_value(digits))
    } else {
        None
    }));
    if cs.len() == start {
        return None;
    }
    let mut v: u64 = 0;
    let mut over = false;
    let mut i: usize = start;
    while i < cs.len()
        invariant
            start <= i <= cs.len(),
            digits == cs@.skip(start as int),
            number_value(s@) == (if digits.len() > 0 && all_digits(digits) {
                Some(digits_value(digits))
            } else {
                None
            }),
            all_digits(digits.take(i - start)),
            !over ==> v == digits_value(digits.take(i - start)),
            over ==> digits_value(digits.take(i - start)) > u64::MAX,
        decreases cs.len() - i,
    {
        let c = cs[i];
        let ghost prev = digits.take(i - start);
        let ghost next = digits.take(i - start + 1);
        assert(next.drop_last() =~= prev);
        assert(next.last() == c);
        if c < '0' || c > '9' {
            assert(!is_digit(digits[i - start]));
            return None;
        }
        let d: u64 = c as u64 - 48;
        proof {
            lemma_digits_value_bounds(prev);
        }
        if !over {
            if v > (u64::MAX - d) / 10 {
                over = true;
            } else {
                v = v * 10 + d;
            }
        }
        i += 1;
        assert forall|j: int| 0 <= j < next.len() implies is_digit(#[trigger] next[j]) by {
            if j < prev.len() {
                assert(is_digit(prev[j]));
            }
        }
    }
    assert(digits.take(i - start) =~= digits);
    if over {
        None
    } else {
        Some(v)
    }
}

/// A number's decimal digits denote that number.
pub proof fn lemma_decimal_value(n: nat)
    ensures
        all_digits(decimal(n)),
        decimal(n).len() > 0,
        digits_value(decimal(n)) == n,
        n < 10 ==> decimal(n).len() == 1,
        10 <= n < 100 ==> decimal(n).len() == 2,
        n < 10_000 ==> decimal(n).len() <= 4,
    decreases n,
{
    reveal_with_fuel(decimal, 5);
    if n < 10 {
        let d = decimal(n);
        assert(d.drop_last() =~= Seq::<char>::empty());
        assert(digits_value(d.drop_last()) == 0);
        assert(d.last() == digit_char(n as int));
    } else {
        lemma_decimal_value(n / 10);
        let d = decimal(n);
        assert(d.drop_last() =~= decimal(n / 10));
        assert(d.last() == digit_char((n % 10) as int));
        assert forall|i: int| 0 <= i < d.len() implies is_digit(#[trigger] d[i]) by {
            if i < d.len() - 1 {
                assert(d[i] == decimal(n / 10)[i]);
            }
        }
    }
}

/// Zeros before a number do not change it.
pub proof fn lemma_padded_value(s: Seq<char>, width: nat)
    requires
        all_digits(s),
    ensures
        all_digits(right_aligned(s, width, '0')),
        digits_value(right_aligned(s, width, '0')) == digits_value(s),
        s.len() <= width ==> right_aligned(s, width, '0').len() == width,
    decreases s.len(),
{
    let p = right_aligned(s, width, '0');
    if s.len() >= width {
    } else if s.len() == 0 {
        lemma_zeros_value(width);
        assert(p =~= Seq::new(width, |i: int| '0'));
        assert(digits_value(p) == 0);
    } else {
        let front = s.drop_last();
        assert forall|i: int| 0 <= i < front.len() implies is_digit(#[trigger] front[i]) by {
            assert(is_digit(s[i]));
        }
        lemma_padded_value(front, (width - 1) as nat);
        assert(p.drop_last() =~= right_aligned(front, (width - 1) as nat, '0'));
        assert(p.last() == s.last());
        assert forall|i: int| 0 <= i < p.len() implies is_digit(#[trigger] p[i]) by {
            if i >= width - s.len() {
                assert(p[i] == s[i - (width - s.len())]);
            }
        }
    }
}

/// Zeros denote zero.
proof fn lemma_zeros_value(n: nat)
    ensures
        digits_value(Seq::new(n, |i: int| '0')) == 0,
    decreases n,
{
    if n > 0 {
        lemma_zeros_value((n - 1) as nat);
        assert(Seq::new(n, |i: int| '0').drop_last() =~= Seq::new((n - 1) as nat, |i: int| '0'));
    }
}

/// Aligning to the right fills a text up to the width, in front of it, and cuts nothing.
pub proof fn lemma_right_aligned(s: Seq<char>, width: nat, fill: char)
    ensures
        s.is_suffix_of(right_aligned(s, width, fill)),
        right_aligned(s, width, fill).len() == (if s.len() < width {
            width
        } else {
            s.len()
        }),
        forall|i: int|
            0 <= i < width - s.len() ==> #[trigger] right_aligned(s, width, fill)[i] == fill,
{
    let out = right_aligned(s, width, fill);
    assert(out.subrange(out.len() - s.len(), out.len() as int) =~= s);
}

/// Two numbers are written alike only where they are one.
pub proof fn lemma_decimals_distinct(a: nat, b: nat)
    requires
        decimal(a) == decimal(b),
    ensures
        a == b,
{
    lemma_decimal_value(a);
    lemma_decimal_value(b);
}

/// A number is read back from its decimal digits, with a plus before them or without, and
/// a text that holds something else is none.
pub proof fn lemma_number_read(n: nat, s: Seq<char>)
    ensures
        n <= u64::MAX ==> u64_value(decimal(n)) == Some(n as u64),
        n <= u64::MAX ==> u64_value(seq!['+'] + decimal(n)) == Some(n as u64),
        n > u64::MAX ==> u64_value(decimal(n)) is None,
        u64_value(s) is Some ==> s.len() > 0 && forall|i: int|
            0 < i < s.len() ==> '0' <= #[trigger] s[i] <= '9',
        u64_value(s) is Some ==> s[0] == '+' || '0' <= s[0] <= '9',
{
    let d = decimal(n);
    lemma_decimal_value(n);
    assert(is_digit(d[0]));
    assert((seq!['+'] + d).skip(1) =~= d);
    if u64_value(s) is Some {
        if s[0] == '+' {
            assert forall|i: int| 0 < i < s.len() implies '0' <= #[trigger] s[i] <= '9' by {
                assert(is_digit(s.skip(1)[i - 1]));
            }
        } else {
            assert forall|i: int| 0 <= i < s.len() implies '0' <= #[trigger] s[i] <= '9' by {
                assert(is_digit(s[i]));
            }
        }
    }
}

/// A text repeated is as long as all its copies, and is the text again at each of them.
pub proof fn lemma_repeated(s: Seq<char>, a: nat, b: nat)
    ensures
        repeated(s, a + b) == repeated(s, a) + repeated(s, b),
        repeated(s, 1) == s,
        repeated(s, 0).len() == 0,
    decreases b,
{
    assert(repeated(s, 0) =~= Seq::empty());
    assert(repeated(s, 1) =~= s) by {
        reveal_with_fuel(repeated, 2);
        assert(Seq::<char>::empty() + s =~= s);
    }
    if b == 0 {
        assert(repeated(s, a) + repeated(s, 0) =~= repeated(s, a));
    } else {
        lemma_repeated(s, a, (b - 1) as nat);
        assert(repeated(s, a) + (repeated(s, (b - 1) as nat) + s) =~= repeated(s, a) + repeated(
            s,
            (b - 1) as nat,
        ) + s);
    }
}

/// A number below nought is written with a dash before its digits, and any other as its
/// digits.
pub proof fn lemma_signed(n: nat)
    ensures
        signed_decimal(n as int) == decimal(n),
        n > 0 ==> signed_decimal(-n) == seq!['-'] + decimal(n),
{
}

} // verus!
