//! Searching, trimming, splitting and replacing in text.

use vstd::prelude::*;

use crate::text::{chars_of, joined, string_of, texts};

verus! {

// --- white space ------------------------------------------------------------

/// The characters with the Unicode property `White_Space`.
pub open spec fn is_space(c: char) -> bool {
    ||| '\u{9}' <= c <= '\u{d}'
    ||| c == '\u{20}'
    ||| c == '\u{85}'
    ||| c == '\u{a0}'
    ||| c == '\u{1680}'
    ||| '\u{2000}' <= c <= '\u{200a}'
    ||| c == '\u{2028}'
    ||| c == '\u{2029}'
    ||| c == '\u{202f}'
    ||| c == '\u{205f}'
    ||| c == '\u{3000}'
}

/// Whether `c` is white space.
pub fn space(c: char) -> (yes: bool)
    ensures
        yes == is_space(c),
{
    ('\u{9}' <= c && c <= '\u{d}') || c == '\u{20}' || c == '\u{85}' || c == '\u{a0}' || c
        == '\u{1680}' || ('\u{2000}' <= c && c <= '\u{200a}') || c == '\u{2028}' || c == '\u{2029}'
        || c == '\u{202f}' || c == '\u{205f}' || c == '\u{3000}'
}

/// `s` without the white space at its start.
pub open spec fn trimmed_start(s: Seq<char>) -> Seq<char>
    decreases s.len(),
{
    if s.len() > 0 && is_space(s[0]) {
        trimmed_start(s.skip(1))
    } else {
        s
    }
}

/// `s` without the white space at its end.
pub open spec fn trimmed_end(s: Seq<char>) -> Seq<char>
    decreases s.len(),
{
    if s.len() > 0 && is_space(s.last()) {
        trimmed_end(s.drop_last())
    } else {
        s
    }
}

/// `s` without the white space at either end.
pub open spec fn trimmed(s: Seq<char>) -> Seq<char> {
    trimmed_end(trimmed_start(s))
}

/// `s` without the white space at either end.
pub fn trim(s: &str) -> (out: &str)
    ensures
        out@ == trimmed(s@),
{
    let cs = chars_of(s);
    let mut from: usize = 0;
    assert(cs@.skip(0) =~= s@);
    while from < cs.len() && space(cs[from])
        invariant
            from <= cs.len(),
            cs@ == s@,
            trimmed_start(cs@.skip(from as int)) == trimmed_start(s@),
        decreases cs.len() - from,
    {
        assert(cs@.skip(from as int).skip(1) =~= cs@.skip(from + 1));
        from += 1;
    }
    let ghost rest = cs@.skip(from as int);
    assert(trimmed_start(s@) == rest);
    let mut to: usize = cs.len();
    assert(cs@.subrange(from as int, to as int) =~= rest);
    while to > from && space(cs[to - 1])
        invariant
            from <= to <= cs.len(),
            cs@ == s@,
            trimmed_end(cs@.subrange(from as int, to as int)) == trimmed_end(rest),
        decreases to,
    {
        assert(cs@.subrange(from as int, to as int).drop_last() =~= cs@.subrange(
            from as int,
            to - 1,
        ));
        to -= 1;
    }
    s.substring_char(from, to)
}

/// The position of the first white space of `s`, or the length of `s`.
pub open spec fn space_position(s: Seq<char>) -> int
    decreases s.len(),
{
    if s.len() == 0 || is_space(s[0]) {
        0
    } else {
        1 + space_position(s.skip(1))
    }
}

/// The position of the first white space is within the text, and past its start
/// where the text does not start with white space.
pub proof fn lemma_space_position(s: Seq<char>)
    ensures
        0 <= space_position(s) <= s.len(),
        s.len() > 0 && !is_space(s[0]) ==> space_position(s) > 0,
    decreases s.len(),
{
    if s.len() > 0 && !is_space(s[0]) {
        lemma_space_position(s.skip(1));
    }
}

/// What trimming the start leaves is no longer, and starts with no white space.
pub proof fn lemma_trimmed_start(s: Seq<char>)
    ensures
        trimmed_start(s).len() <= s.len(),
        trimmed_start(s).len() > 0 ==> !is_space(trimmed_start(s)[0]),
    decreases s.len(),
{
    if s.len() > 0 && is_space(s[0]) {
        lemma_trimmed_start(s.skip(1));
    }
}

/// The words of `s`: what stands between white space.
pub open spec fn words(s: Seq<char>) -> Seq<Seq<char>>
    decreases s.len(),
{
    let t = trimmed_start(s);
    let n = space_position(t);
    if t.len() == 0 {
        Seq::empty()
    } else {
        proof {
            lemma_trimmed_start(s);
            lemma_space_position(t);
        }
        seq![t.take(n)] + words(t.skip(n))
    }
}

/// Splits `s` at white space.
pub fn split_words(s: &str) -> (out: Vec<String>)
    ensures
        texts(out@) == words(s@),
{
    let cs = chars_of(s);
    let mut out: Vec<String> = Vec::new();
    let mut i: usize = 0;
    assert(cs@.skip(0) =~= s@);
    assert(texts(out@) + words(s@) =~= words(s@));
    while i < cs.len()
        invariant
            i <= cs@.len(),
            texts(out@) + words(cs@.skip(i as int)) == words(s@),
        decreases cs@.len() - i,
    {
        let ghost rest = cs@.skip(i as int);
        if space(cs[i]) {
            assert(rest.skip(1) =~= cs@.skip(i + 1));
            i += 1;
        } else {
            let mut j: usize = i;
            let ghost before = texts(out@);
            while j < cs.len() && !space(cs[j])
                invariant
                    i <= j <= cs@.len(),
                    rest == cs@.skip(i as int),
                    space_position(rest) == j - i + space_position(cs@.skip(j as int)),
                decreases cs@.len() - j,
            {
                assert(cs@.skip(j as int).skip(1) =~= cs@.skip(j + 1));
                j += 1;
            }
            proof {
                lemma_space_position(rest);
                assert(space_position(rest) == j - i);
                assert(trimmed_start(rest) == rest);
                assert(rest.take(j - i) =~= cs@.subrange(i as int, j as int));
                assert(rest.skip(j - i) =~= cs@.skip(j as int));
            }
            out.push(string_of(&cs, i, j));
            assert(texts(out@) =~= before.push(rest.take(j - i)));
            assert(texts(out@) + words(cs@.skip(j as int)) =~= before + words(rest));
            i = j;
        }
    }
    assert(texts(out@) + words(cs@.skip(i as int)) =~= texts(out@));
    out
}

// --- prefixes and suffixes --------------------------------------------------

/// `s` without `prefix` at its start, or nothing where it does not start so.
pub open spec fn without_prefix(s: Seq<char>, prefix: Seq<char>) -> Option<Seq<char>> {
    if prefix.is_prefix_of(s) {
        Some(s.skip(prefix.len() as int))
    } else {
        None
    }
}

/// `s` without `suffix` at its end, or nothing where it does not end so.
pub open spec fn without_suffix(s: Seq<char>, suffix: Seq<char>) -> Option<Seq<char>> {
    if suffix.is_suffix_of(s) {
        Some(s.take(s.len() - suffix.len()))
    } else {
        None
    }
}

/// Whether `pat` stands in `cs` at `at`.
fn stands_at(cs: &Vec<char>, pat: &Vec<char>, at: usize) -> (yes: bool)
    requires
        at <= cs@.len(),
    ensures
        yes == pat@.is_prefix_of(cs@.skip(at as int)),
{
    if pat.len() > cs.len() - at {
        return false;
    }
    let ghost rest = cs@.skip(at as int);
    let mut j: usize = 0;
    while j < pat.len()
        invariant
            j <= pat.len(),
            pat.len() <= cs.len() - at,
            at <= cs.len(),
            rest == cs@.skip(at as int),
            forall|k: int| 0 <= k < j ==> pat@[k] == rest[k],
        decreases pat.len() - j,
    {
        if cs[at + j] != pat[j] {
            assert(rest[j as int] != pat@[j as int]);
            assert(rest.subrange(0, pat@.len() as int)[j as int] == rest[j as int]);
            return false;
        }
        j += 1;
    }
    assert(pat@ =~= rest.subrange(0, pat@.len() as int));
    true
}

/// Whether `s` starts with `prefix`.
pub fn starts_with(s: &str, prefix: &str) -> (yes: bool)
    ensures
        yes == prefix@.is_prefix_of(s@),
{
    let cs = chars_of(s);
    assert(cs@.skip(0) =~= s@);
    stands_at(&cs, &chars_of(prefix), 0)
}

/// `s` without `prefix` at its start, where it starts so.
pub fn strip_prefix<'a>(s: &'a str, prefix: &str) -> (out: Option<&'a str>)
    ensures
        crate::text::opt_str(out) == without_prefix(s@, prefix@),
{
    if starts_with(s, prefix) {
        let out = s.substring_char(prefix.unicode_len(), s.unicode_len());
        assert(out@ =~= s@.skip(prefix@.len() as int));
        Some(out)
    } else {
        None
    }
}

/// `s` without `suffix` at its end, where it ends so.
pub fn strip_suffix<'a>(s: &'a str, suffix: &str) -> (out: Option<&'a str>)
    ensures
        crate::text::opt_str(out) == without_suffix(s@, suffix@),
{
    let cs = chars_of(s);
    let pat = chars_of(suffix);
    if pat.len() > cs.len() {
        return None;
    }
    let at: usize = cs.len() - pat.len();
    assert(pat@.is_prefix_of(cs@.skip(at as int)) == suffix@.is_suffix_of(s@)) by {
        assert(cs@.skip(at as int).subrange(0, pat@.len() as int) =~= cs@.subrange(
            at as int,
            cs@.len() as int,
        ));
    }
    if stands_at(&cs, &pat, at) {
        let out = s.substring_char(0, at);
        assert(out@ =~= s@.take(at as int));
        Some(out)
    } else {
        None
    }
}

// --- finding ----------------------------------------------------------------

/// The first position of `c` in `s`, or the length of `s`.
pub open spec fn char_position(s: Seq<char>, c: char) -> int
    decreases s.len(),
{
    if s.len() == 0 || s[0] == c {
        0
    } else {
        1 + char_position(s.skip(1), c)
    }
}

/// The first position at which `pat` stands in `s`.
pub open spec fn position_of(s: Seq<char>, pat: Seq<char>) -> Option<int>
    decreases s.len(),
{
    if pat.is_prefix_of(s) {
        Some(0)
    } else if s.len() == 0 {
        None
    } else {
        match position_of(s.skip(1), pat) {
            Some(i) => Some(i + 1),
            None => None,
        }
    }
}

/// Whether `pat` stands anywhere in `s`.
pub open spec fn holds(s: Seq<char>, pat: Seq<char>) -> bool {
    position_of(s, pat) is Some
}

/// The position of a character is the first place where it stands.
pub proof fn lemma_char_position(s: Seq<char>, c: char)
    ensures
        0 <= char_position(s, c) <= s.len(),
        char_position(s, c) < s.len() ==> s[char_position(s, c)] == c,
        forall|i: int| 0 <= i < char_position(s, c) ==> s[i] != c,
        s.contains(c) <==> char_position(s, c) < s.len(),
    decreases s.len(),
{
    if s.len() == 0 || s[0] == c {
        if s.len() > 0 {
            assert(s.contains(s[0]));
        }
    } else {
        let rest = s.skip(1);
        lemma_char_position(rest, c);
        assert forall|i: int| 0 <= i < char_position(s, c) implies s[i] != c by {
            if i > 0 {
                assert(rest[i - 1] == s[i]);
            }
        }
        if s.contains(c) {
            let k = choose|k: int| 0 <= k < s.len() && s[k] == c;
            assert(rest[k - 1] == c);
        }
    }
}

/// A position that is known to be the first one is the position.
pub proof fn lemma_char_position_is(s: Seq<char>, c: char, i: int)
    requires
        0 <= i <= s.len(),
        forall|j: int| 0 <= j < i ==> s[j] != c,
        i < s.len() ==> s[i] == c,
    ensures
        char_position(s, c) == i,
{
    lemma_char_position(s, c);
    let p = char_position(s, c);
    if p < i {
        assert(s[p] != c);
    }
}

/// The first position of `c` in `s`, or the length of `s`.
pub fn find_char(cs: &Vec<char>, c: char) -> (at: usize)
    ensures
        at == char_position(cs@, c),
        at <= cs@.len(),
{
    let mut i: usize = 0;
    while i < cs.len()
        invariant
            i <= cs.len(),
            forall|j: int| 0 <= j < i ==> cs@[j] != c,
        decreases cs.len() - i,
    {
        if cs[i] == c {
            proof {
                lemma_char_position_is(cs@, c, i as int);
            }
            return i;
        }
        i += 1;
    }
    proof {
        lemma_char_position_is(cs@, c, i as int);
    }
    i
}

/// Whether `s` holds the character `c`.
pub fn contains_char(s: &str, c: char) -> (yes: bool)
    ensures
        yes == s@.contains(c),
{
    let cs = chars_of(s);
    proof {
        lemma_char_position(s@, c);
    }
    find_char(&cs, c) < cs.len()
}

/// The position of a match is where the pattern stands, and within the text.
pub proof fn lemma_position_of(s: Seq<char>, pat: Seq<char>)
    ensures
        position_of(s, pat) matches Some(i) ==> 0 <= i && i + pat.len() <= s.len() && s.subrange(
            i,
            i + pat.len(),
        ) == pat,
    decreases s.len(),
{
    if pat.is_prefix_of(s) {
    } else if s.len() > 0 {
        lemma_position_of(s.skip(1), pat);
        match position_of(s.skip(1), pat) {
            Some(i) => {
                assert(s.skip(1).subrange(i, i + pat.len()) =~= s.subrange(
                    i + 1,
                    i + 1 + pat.len(),
                ));
            },
            None => {},
        }
    }
}

/// A text holds what stands in it.
pub proof fn lemma_holds(before: Seq<char>, pat: Seq<char>, after: Seq<char>)
    ensures
        holds(before + pat + after, pat),
    decreases before.len(),
{
    let s = before + pat + after;
    if pat.is_prefix_of(s) {
    } else if before.len() == 0 {
        assert(s.subrange(0, pat.len() as int) =~= pat);
    } else {
        lemma_holds(before.skip(1), pat, after);
        assert(s.skip(1) =~= before.skip(1) + pat + after);
    }
}

/// What stands in a part of a text stands in the text.
pub proof fn lemma_holds_within(before: Seq<char>, part: Seq<char>, after: Seq<char>, pat: Seq<char>)
    requires
        holds(part, pat),
    ensures
        holds(before + part + after, pat),
{
    lemma_position_of(part, pat);
    let i = position_of(part, pat)->0;
    let a = before + part.take(i);
    let b = part.skip(i + pat.len()) + after;
    lemma_holds(a, pat, b);
    assert(part =~= part.take(i) + pat + part.skip(i + pat.len()));
    assert(before + part + after =~= a + pat + b);
}

/// The first position at which `pat` stands in `s`, in characters.
pub fn find(s: &str, pat: &str) -> (at: Option<usize>)
    ensures
        match at {
            Some(i) => position_of(s@, pat@) == Some(i as int) && i + pat@.len() <= s@.len(),
            None => position_of(s@, pat@) is None,
        },
{
    let cs = chars_of(s);
    let ps = chars_of(pat);
    let mut i: usize = 0;
    assert(cs@.skip(0) =~= s@);
    loop
        invariant
            i <= cs.len(),
            cs@ == s@,
            ps@ == pat@,
            position_of(s@, pat@) == (match position_of(cs@.skip(i as int), pat@) {
                Some(k) => Some(k + i),
                None => None,
            }),
        decreases cs.len() - i,
    {
        if stands_at(&cs, &ps, i) {
            proof {
                lemma_position_of(s@, pat@);
            }
            return Some(i);
        }
        if i == cs.len() {
            return None;
        }
        assert(cs@.skip(i as int).skip(1) =~= cs@.skip(i + 1));
        i += 1;
    }
}

/// Whether `pat` stands anywhere in `s`.
pub fn contains(s: &str, pat: &str) -> (yes: bool)
    ensures
        yes == holds(s@, pat@),
{
    find(s, pat).is_some()
}

// --- splitting --------------------------------------------------------------

/// The parts of `s` on either side of the first `sep`.
pub open spec fn cut(s: Seq<char>, sep: Seq<char>) -> Option<(Seq<char>, Seq<char>)> {
    match position_of(s, sep) {
        Some(i) => Some((s.take(i), s.skip(i + sep.len()))),
        None => None,
    }
}

/// The parts of `s` on either side of the first `sep`.
pub fn split_once<'a>(s: &'a str, sep: &str) -> (out: Option<(&'a str, &'a str)>)
    ensures
        match out {
            Some((a, b)) => cut(s@, sep@) == Some((a@, b@)),
            None => cut(s@, sep@) is None,
        },
{
    match find(s, sep) {
        Some(i) => {
            let len: usize = s.unicode_len();
            let a = s.substring_char(0, i);
            let b = s.substring_char(i + sep.unicode_len(), len);
            assert(a@ =~= s@.take(i as int));
            assert(b@ =~= s@.skip(i + sep@.len()));
            Some((a, b))
        },
        None => None,
    }
}

/// The parts of `s` between the occurrences of `c`.
pub open spec fn parts(s: Seq<char>, c: char) -> Seq<Seq<char>>
    decreases s.len(),
{
    let i = char_position(s, c);
    if 0 <= i < s.len() {
        seq![s.take(i)] + parts(s.skip(i + 1), c)
    } else {
        seq![s]
    }
}

/// Splits `s` at each `c`.
pub fn split(s: &str, c: char) -> (out: Vec<String>)
    ensures
        texts(out@) == parts(s@, c),
{
    let cs = chars_of(s);
    let mut out: Vec<String> = Vec::new();
    let mut from: usize = 0;
    let mut i: usize = 0;
    assert(cs@.skip(0) =~= s@);
    assert(texts(out@) + parts(s@, c) =~= parts(s@, c));
    while i < cs.len()
        invariant
            from <= i <= cs.len(),
            cs@ == s@,
            forall|j: int| from <= j < i ==> cs@[j] != c,
            texts(out@) + parts(cs@.skip(from as int), c) == parts(s@, c),
        decreases cs.len() - i,
    {
        if cs[i] == c {
            let ghost rest = cs@.skip(from as int);
            let ghost before = texts(out@);
            proof {
                lemma_char_position_is(rest, c, i - from);
            }
            out.push(string_of(&cs, from, i));
            assert(rest.take(i - from) =~= cs@.subrange(from as int, i as int));
            assert(rest.skip(i - from + 1) =~= cs@.skip(i + 1));
            assert(texts(out@) =~= before.push(rest.take(i - from)));
            assert(texts(out@) + parts(cs@.skip(i + 1), c) =~= before + parts(rest, c));
            from = i + 1;
        }
        i += 1;
    }
    let ghost rest = cs@.skip(from as int);
    proof {
        lemma_char_position_is(rest, c, rest.len() as int);
    }
    let ghost before = texts(out@);
    out.push(string_of(&cs, from, cs.len()));
    assert(cs@.subrange(from as int, cs@.len() as int) =~= rest);
    assert(texts(out@) =~= before + parts(rest, c));
    out
}

/// Splitting what was joined gives the parts back, where no part holds the
/// separator.
pub proof fn lemma_parts_of_joined(ps: Seq<Seq<char>>, c: char)
    requires
        ps.len() > 0,
        forall|i: int| 0 <= i < ps.len() ==> !(#[trigger] ps[i]).contains(c),
    ensures
        parts(joined(ps, seq![c]), c) == ps,
    decreases ps.len(),
{
    if ps.len() == 1 {
        lemma_char_position(ps[0], c);
        assert(parts(ps[0], c) =~= ps);
    } else {
        let tail = ps.skip(1);
        assert forall|i: int| 0 <= i < tail.len() implies !(#[trigger] tail[i]).contains(c) by {
            assert(!ps[i + 1].contains(c));
        }
        lemma_joined_front(ps, seq![c]);
        lemma_parts_of_joined(tail, c);
        let whole = joined(ps, seq![c]);
        let rest = joined(tail, seq![c]);
        assert(whole =~= ps[0] + seq![c] + rest);
        assert forall|j: int| 0 <= j < ps[0].len() implies whole[j] != c by {
            assert(ps[0].contains(ps[0][j]));
        }
        lemma_char_position_is(whole, c, ps[0].len() as int);
        assert(whole.take(ps[0].len() as int) =~= ps[0]);
        assert(whole.skip(ps[0].len() as int + 1) =~= rest);
        assert(seq![ps[0]] + tail =~= ps);
    }
}

/// Joining one more part puts the separator before it.
pub proof fn lemma_joined_push(ps: Seq<Seq<char>>, p: Seq<char>, sep: Seq<char>)
    requires
        ps.len() > 0,
    ensures
        joined(ps.push(p), sep) == joined(ps, sep) + sep + p,
{
    assert(ps.push(p).drop_last() =~= ps);
}

/// What was joined holds a character only where a part or the separator holds it.
pub proof fn lemma_joined_lacks(ps: Seq<Seq<char>>, sep: Seq<char>, c: char)
    requires
        forall|i: int| 0 <= i < ps.len() ==> !(#[trigger] ps[i]).contains(c),
        !sep.contains(c),
    ensures
        !joined(ps, sep).contains(c),
    decreases ps.len(),
{
    let whole = joined(ps, sep);
    if ps.len() > 1 {
        let front = joined(ps.drop_last(), sep);
        assert forall|i: int| 0 <= i < ps.drop_last().len() implies !(
        #[trigger] ps.drop_last()[i]).contains(c) by {
            assert(!ps[i].contains(c));
        }
        lemma_joined_lacks(ps.drop_last(), sep, c);
        assert(!ps.last().contains(c));
        assert forall|k: int| 0 <= k < whole.len() implies whole[k] != c by {
            if k < front.len() {
                assert(front.contains(front[k]));
            } else if k < front.len() + sep.len() {
                assert(sep.contains(sep[k - front.len()]));
            } else {
                assert(ps.last().contains(ps.last()[k - front.len() - sep.len()]));
            }
        }
    } else if ps.len() == 1 {
        assert(!ps[0].contains(c));
    }
}

/// Whether none of the first `n` characters of `s` is `c`.
pub open spec fn lacks(s: Seq<char>, c: char, n: int) -> bool
    decreases n,
{
    n <= 0 || (s[n - 1] != c && lacks(s, c, n - 1))
}

/// A text that lacks a character does not hold it.
pub proof fn lemma_lacks(s: Seq<char>, c: char, n: int)
    requires
        lacks(s, c, n),
        0 <= n <= s.len(),
    ensures
        forall|i: int| 0 <= i < n ==> s[i] != c,
        n == s.len() ==> !s.contains(c),
    decreases n,
{
    if n > 0 {
        lemma_lacks(s, c, n - 1);
    }
}

/// A joined list starts with its first part.
pub proof fn lemma_joined_front(ps: Seq<Seq<char>>, sep: Seq<char>)
    requires
        ps.len() > 1,
    ensures
        joined(ps, sep) == ps[0] + sep + joined(ps.skip(1), sep),
    decreases ps.len(),
{
    let tail = ps.skip(1);
    if ps.len() == 2 {
        assert(ps.drop_last() =~= seq![ps[0]]);
        assert(tail =~= seq![ps[1]]);
        assert(joined(ps.drop_last(), sep) == ps[0]);
        assert(joined(tail, sep) == ps[1]);
    } else {
        lemma_joined_front(ps.drop_last(), sep);
        assert(ps.drop_last().skip(1) =~= tail.drop_last());
        assert(joined(ps, sep) =~= ps[0] + sep + joined(tail, sep));
    }
}

/// The last part is what follows the last separator.
pub proof fn lemma_last_part(s: Seq<char>, c: char, k: int)
    requires
        0 <= k <= s.len(),
        k == 0 || s[k - 1] == c,
        forall|j: int| k <= j < s.len() ==> s[j] != c,
    ensures
        parts(s, c).last() == s.skip(k),
    decreases s.len(),
{
    let i = char_position(s, c);
    lemma_char_position(s, c);
    if i < s.len() {
        assert(i < k) by {
            if k <= i {
                assert(s[i] != c);
            }
        }
        let rest = s.skip(i + 1);
        let m = k - i - 1;
        if m > 0 {
            assert(rest[m - 1] == s[k - 1]);
        }
        lemma_last_part(rest, c, m);
        assert(rest.skip(m) =~= s.skip(k));
        lemma_parts_nonempty(rest, c);
        assert(parts(s, c).last() == parts(rest, c).last());
    } else {
        if k > 0 {
            assert(s[k - 1] != c);
        }
        assert(s.skip(0) =~= s);
    }
}

/// `line` without a carriage return at its end.
pub open spec fn without_return(line: Seq<char>) -> Seq<char> {
    if line.len() > 0 && line.last() == '\r' {
        line.drop_last()
    } else {
        line
    }
}

/// The lines of `s`: the parts that end in a line feed, each without the line
/// feed and a carriage return before it, then what follows the last line feed,
/// unless that is empty.
pub open spec fn line_texts(s: Seq<char>) -> Seq<Seq<char>> {
    let ps = parts(s, '\n');
    let ended = ps.drop_last().map_values(|p: Seq<char>| without_return(p));
    if ps.last().len() == 0 {
        ended
    } else {
        ended.push(ps.last())
    }
}

/// Splitting gives one part at least.
pub proof fn lemma_parts_nonempty(s: Seq<char>, c: char)
    ensures
        parts(s, c).len() > 0,
{
}

/// The lines of `s`.
pub fn split_lines(s: &str) -> (out: Vec<String>)
    ensures
        texts(out@) == line_texts(s@),
{
    let ps = split(s, '\n');
    proof {
        lemma_parts_nonempty(s@, '\n');
        assert(texts(ps@).len() == ps@.len());
    }
    let mut out: Vec<String> = Vec::new();
    let ghost ended = parts(s@, '\n').drop_last().map_values(|p: Seq<char>| without_return(p));
    let mut i: usize = 0;
    let last: usize = ps.len() - 1;
    while i < last
        invariant
            i <= last,
            last == ps.len() - 1,
            texts(ps@) == parts(s@, '\n'),
            ended == parts(s@, '\n').drop_last().map_values(|p: Seq<char>| without_return(p)),
            texts(out@) == ended.take(i as int),
        decreases last - i,
    {
        let cs = chars_of(ps[i].as_str());
        assert(cs@ == texts(ps@)[i as int]);
        let ghost before = texts(out@);
        if cs.len() > 0 && cs[cs.len() - 1] == '\r' {
            out.push(string_of(&cs, 0, cs.len() - 1));
            assert(cs@.subrange(0, cs@.len() - 1) =~= cs@.drop_last());
        } else {
            out.push(ps[i].clone());
        }
        assert(texts(out@) =~= before.push(without_return(cs@)));
        i += 1;
        assert(ended.take(i as int) =~= ended.take(i - 1).push(ended[i - 1]));
    }
    assert(ended.take(i as int) =~= ended);
    let ghost before = texts(out@);
    assert(texts(ps@)[last as int] == ps@[last as int]@);
    if ps[last].as_str().unicode_len() > 0 {
        out.push(ps[last].clone());
        assert(texts(out@) =~= before.push(ps@[last as int]@));
    }
    out
}

// --- replacing --------------------------------------------------------------

/// `s` with each occurrence of `pat`, taken from the left and without overlap,
/// replaced by `by`.
pub open spec fn replaced(s: Seq<char>, pat: Seq<char>, by: Seq<char>) -> Seq<char>
    decreases s.len(),
{
    if pat.len() == 0 || s.len() == 0 {
        s
    } else if pat.is_prefix_of(s) {
        by + replaced(s.skip(pat.len() as int), pat, by)
    } else {
        seq![s[0]] + replaced(s.skip(1), pat, by)
    }
}

/// Replaces each occurrence of `pat` in `s` by `by`.
pub fn replace(s: &str, pat: &str, by: &str) -> (out: String)
    requires
        pat@.len() > 0,
    ensures
        out@ == replaced(s@, pat@, by@),
{
    let cs = chars_of(s);
    let ps = chars_of(pat);
    let mut out = String::new();
    let mut i: usize = 0;
    assert(cs@.skip(0) =~= s@);
    assert(out@ + replaced(s@, pat@, by@) =~= replaced(s@, pat@, by@));
    while i < cs.len()
        invariant
            i <= cs.len(),
            cs@ == s@,
            ps@ == pat@,
            pat@.len() > 0,
            out@ + replaced(cs@.skip(i as int), pat@, by@) == replaced(s@, pat@, by@),
        decreases cs.len() - i,
    {
        let ghost rest = cs@.skip(i as int);
        let ghost before = out@;
        if stands_at(&cs, &ps, i) {
            out.append(by);
            assert(rest.skip(pat@.len() as int) =~= cs@.skip(i + pat@.len()));
            assert(out@ + replaced(cs@.skip(i + pat@.len()), pat@, by@) =~= before + replaced(
                rest,
                pat@,
                by@,
            ));
            i += ps.len();
        } else {
            out.push(cs[i]);
            assert(rest.skip(1) =~= cs@.skip(i + 1));
            assert(out@ + replaced(cs@.skip(i + 1), pat@, by@) =~= before + replaced(
                rest,
                pat@,
                by@,
            ));
            i += 1;
        }
    }
    assert(out@ + replaced(cs@.skip(i as int), pat@, by@) =~= out@);
    out
}

/// A text that does not hold the pattern stays as it is, before one that starts with a
/// character that the pattern lacks.
pub proof fn lemma_replaced_after(u: Seq<char>, v: Seq<char>, pat: Seq<char>, by: Seq<char>)
    requires
        pat.len() > 0,
        !holds(u, pat),
        v.len() > 0,
        !pat.contains(v[0]),
    ensures
        replaced(u + v, pat, by) == u + replaced(v, pat, by),
    decreases u.len(),
{
    let s = u + v;
    if u.len() == 0 {
        assert(s =~= v);
        assert(u + replaced(v, pat, by) =~= replaced(v, pat, by));
    } else {
        assert(!pat.is_prefix_of(s)) by {
            if pat.is_prefix_of(s) {
                assert(forall|k: int| 0 <= k < pat.len() ==> pat[k] == s.subrange(0, pat.len() as int)[k]);
                if pat.len() <= u.len() {
                    assert(pat =~= u.subrange(0, pat.len() as int));
                } else {
                    assert(pat[u.len() as int] == v[0]);
                    assert(pat.contains(v[0]));
                }
            }
        }
        assert(!holds(u.skip(1), pat));
        lemma_replaced_after(u.skip(1), v, pat, by);
        assert(s.skip(1) =~= u.skip(1) + v);
        assert(seq![s[0]] + (u.skip(1) + replaced(v, pat, by)) =~= u + replaced(v, pat, by));
    }
}

/// A text that lacks the first character of a pattern stays as it is, whatever follows.
pub proof fn lemma_replaced_lacking(u: Seq<char>, v: Seq<char>, pat: Seq<char>, by: Seq<char>)
    requires
        pat.len() > 0,
        !u.contains(pat[0]),
    ensures
        replaced(u + v, pat, by) == u + replaced(v, pat, by),
    decreases u.len(),
{
    let s = u + v;
    if u.len() == 0 {
        assert(s =~= v);
        assert(u + replaced(v, pat, by) =~= replaced(v, pat, by));
    } else {
        assert(!pat.is_prefix_of(s)) by {
            if pat.is_prefix_of(s) {
                assert(s.subrange(0, pat.len() as int)[0] == u[0]);
                assert(u.contains(u[0]));
            }
        }
        assert forall|i: int| 0 <= i < u.skip(1).len() implies u.skip(1)[i] != pat[0] by {
            assert(u.contains(u[i + 1]));
        }
        lemma_replaced_lacking(u.skip(1), v, pat, by);
        assert(s.skip(1) =~= u.skip(1) + v);
        assert(seq![s[0]] + (u.skip(1) + replaced(v, pat, by)) =~= u + replaced(v, pat, by));
    }
}

/// Where the pattern stands, the replacement stands after replacing.
pub proof fn lemma_replaced_at(pat: Seq<char>, v: Seq<char>, by: Seq<char>)
    requires
        pat.len() > 0,
    ensures
        replaced(pat + v, pat, by) == by + replaced(v, pat, by),
{
    let s = pat + v;
    assert(s.subrange(0, pat.len() as int) =~= pat);
    assert(s.skip(pat.len() as int) =~= v);
}

// --- letters ----------------------------------------------------------------

/// Whether `c` is an ASCII letter.
pub open spec fn is_letter(c: char) -> bool {
    'a' <= c <= 'z' || 'A' <= c <= 'Z'
}

/// `c` in lower case, where it is an ASCII letter.
pub open spec fn lower(c: char) -> char {
    if 'A' <= c <= 'Z' {
        (c as int + 32) as char
    } else {
        c
    }
}

/// `s` with its ASCII letters in lower case.
pub open spec fn lowered(s: Seq<char>) -> Seq<char> {
    s.map_values(|c: char| lower(c))
}

/// `s` with its ASCII letters in lower case.
pub fn to_lower(s: &str) -> (out: String)
    ensures
        out@ == lowered(s@),
{
    let cs = chars_of(s);
    let mut out = String::new();
    let mut i: usize = 0;
    while i < cs.len()
        invariant
            i <= cs.len(),
            cs@ == s@,
            out@ == lowered(s@).take(i as int),
        decreases cs.len() - i,
    {
        let c = cs[i];
        if 'A' <= c && c <= 'Z' {
            out.push((c as u8 + 32) as char);
        } else {
            out.push(c);
        }
        i += 1;
        assert(lowered(s@).take(i as int) =~= lowered(s@).take(i - 1).push(lower(c)));
    }
    assert(lowered(s@).take(i as int) =~= lowered(s@));
    out
}

// --- laws -------------------------------------------------------------------

/// Trimming takes white space away at both ends and nothing else, and leaves none there.
pub proof fn lemma_trimmed(s: Seq<char>)
    ensures
        exists|a: Seq<char>, b: Seq<char>|
            #![trigger a + trimmed(s) + b]
            s == a + trimmed(s) + b && (forall|i: int| 0 <= i < a.len() ==> is_space(#[trigger] a[i]))
                && forall|i: int| 0 <= i < b.len() ==> is_space(#[trigger] b[i]),
        trimmed(s).len() > 0 ==> !is_space(trimmed(s)[0]) && !is_space(trimmed(s).last()),
{
    let t = trimmed_start(s);
    let a = lemma_start_taken(s);
    let b = lemma_end_taken(t);
    lemma_trimmed_start(s);
    assert(s =~= a + trimmed(s) + b);
    if trimmed(s).len() > 0 {
        assert(t[0] == trimmed(s)[0]);
    }
}

/// What is taken away at the start is white space.
proof fn lemma_start_taken(s: Seq<char>) -> (a: Seq<char>)
    ensures
        s == a + trimmed_start(s),
        forall|i: int| 0 <= i < a.len() ==> is_space(#[trigger] a[i]),
    decreases s.len(),
{
    if s.len() > 0 && is_space(s[0]) {
        let rest = lemma_start_taken(s.skip(1));
        let a = seq![s[0]] + rest;
        assert(s =~= seq![s[0]] + s.skip(1));
        assert(s =~= a + trimmed_start(s));
        a
    } else {
        assert(s =~= Seq::<char>::empty() + s);
        Seq::empty()
    }
}

/// What is taken away at the end is white space, and none is left there.
proof fn lemma_end_taken(s: Seq<char>) -> (b: Seq<char>)
    ensures
        s == trimmed_end(s) + b,
        forall|i: int| 0 <= i < b.len() ==> is_space(#[trigger] b[i]),
        trimmed_end(s).len() > 0 ==> !is_space(trimmed_end(s).last()),
    decreases s.len(),
{
    if s.len() > 0 && is_space(s.last()) {
        let rest = lemma_end_taken(s.drop_last());
        let b = rest.push(s.last());
        assert(s =~= s.drop_last().push(s.last()));
        assert(s =~= trimmed_end(s) + b);
        b
    } else {
        assert(s =~= s + Seq::<char>::empty());
        Seq::empty()
    }
}

/// Splitting is undone by joining, and no part holds the separator.
pub proof fn lemma_parts_join(s: Seq<char>, c: char)
    ensures
        joined(parts(s, c), seq![c]) == s,
        forall|i: int| 0 <= i < parts(s, c).len() ==> !(#[trigger] parts(s, c)[i]).contains(c),
    decreases s.len(),
{
    let i = char_position(s, c);
    lemma_char_position(s, c);
    let ps = parts(s, c);
    if i < s.len() {
        let rest = s.skip(i + 1);
        lemma_parts_join(rest, c);
        lemma_parts_nonempty(rest, c);
        lemma_joined_front(ps, seq![c]);
        assert(ps.skip(1) =~= parts(rest, c));
        assert(s =~= s.take(i) + seq![c] + rest);
        assert forall|k: int| 0 <= k < ps.len() implies !(#[trigger] ps[k]).contains(c) by {
            if k > 0 {
                assert(ps[k] == parts(rest, c)[k - 1]);
            } else {
                assert forall|j: int| 0 <= j < s.take(i).len() implies s.take(i)[j] != c by {
                    assert(s[j] != c);
                }
            }
        }
    }
}

/// A text holds a pattern if and only if the pattern stands at some place, and the first
/// such place is the position of the pattern.
pub proof fn lemma_first_position(s: Seq<char>, pat: Seq<char>, k: int)
    requires
        0 <= k,
        k + pat.len() <= s.len(),
        s.subrange(k, k + pat.len()) == pat,
    ensures
        position_of(s, pat) matches Some(i) && 0 <= i <= k && s.subrange(i, i + pat.len()) == pat,
    decreases s.len(),
{
    lemma_position_of(s, pat);
    if !pat.is_prefix_of(s) {
        if k == 0 {
            assert(s.subrange(0, pat.len() as int) == pat);
        }
        assert(s.skip(1).subrange(k - 1, k - 1 + pat.len()) =~= s.subrange(k, k + pat.len()));
        lemma_first_position(s.skip(1), pat, k - 1);
    }
}

/// The words of a text hold no white space and are not empty.
pub proof fn lemma_words(s: Seq<char>)
    ensures
        forall|k: int, i: int|
            0 <= k < words(s).len() && 0 <= i < words(s)[k].len() ==> !is_space(
                #[trigger] words(s)[k][i],
            ),
        forall|k: int| 0 <= k < words(s).len() ==> (#[trigger] words(s)[k]).len() > 0,
    decreases s.len(),
{
    let t = trimmed_start(s);
    let n = space_position(t);
    lemma_trimmed_start(s);
    lemma_space_position(t);
    if t.len() > 0 {
        lemma_words(t.skip(n));
        lemma_before_space(t);
        let rest = words(t.skip(n));
        let ws = words(s);
        assert(ws =~= seq![t.take(n)] + rest);
        assert forall|k: int, i: int| 0 <= k < ws.len() && 0 <= i < ws[k].len() implies !is_space(
            #[trigger] ws[k][i],
        ) by {
            if k > 0 {
                assert(ws[k] == rest[k - 1]);
            } else {
                assert(ws[0][i] == t[i]);
            }
        }
        assert forall|k: int| 0 <= k < ws.len() implies (#[trigger] ws[k]).len() > 0 by {
            if k > 0 {
                assert(ws[k] == rest[k - 1]);
            }
        }
    }
}

/// Nothing before the first white space is white space.
proof fn lemma_before_space(s: Seq<char>)
    ensures
        forall|i: int| 0 <= i < space_position(s) ==> !is_space(#[trigger] s[i]),
        space_position(s) < s.len() ==> is_space(s[space_position(s)]),
    decreases s.len(),
{
    lemma_space_position(s);
    if s.len() > 0 && !is_space(s[0]) {
        let rest = s.skip(1);
        lemma_before_space(rest);
        assert forall|i: int| 0 <= i < space_position(s) implies !is_space(#[trigger] s[i]) by {
            if i > 0 {
                assert(rest[i - 1] == s[i]);
            }
        }
        if space_position(s) < s.len() {
            assert(rest[space_position(rest)] == s[space_position(s)]);
        }
    }
}

/// The lines of a text in which each line ends with a line feed are these lines, where
/// none holds a line feed or ends with a carriage return.
pub proof fn lemma_lines_of(lines: Seq<Seq<char>>)
    requires
        forall|i: int|
            0 <= i < lines.len() ==> !(#[trigger] lines[i]).contains('\n') && (lines[i].len() == 0
                || lines[i].last() != '\r'),
    ensures
        line_texts(joined(lines.push(Seq::empty()), seq!['\n'])) == lines,
{
    let ps = lines.push(Seq::empty());
    assert forall|i: int| 0 <= i < ps.len() implies !(#[trigger] ps[i]).contains('\n') by {
        if i < lines.len() {
            assert(!lines[i].contains('\n'));
        }
    }
    lemma_parts_of_joined(ps, '\n');
    let ended = ps.drop_last().map_values(|p: Seq<char>| without_return(p));
    assert(ps.last().len() == 0);
    assert(ended =~= lines) by {
        assert forall|i: int| 0 <= i < lines.len() implies ended[i] == lines[i] by {
            assert(ps.drop_last()[i] == lines[i]);
        }
    }
}

/// Cutting a text gives what stands on either side of the first separator.
pub proof fn lemma_cut(s: Seq<char>, sep: Seq<char>)
    requires
        sep.len() > 0,
    ensures
        cut(s, sep) is Some <==> holds(s, sep),
        cut(s, sep) matches Some((a, b)) ==> s == a + sep + b && !holds(
            (a + sep).drop_last(),
            sep,
        ),
{
    lemma_position_of(s, sep);
    if let Some((a, b)) = cut(s, sep) {
        let i = position_of(s, sep)->0;
        assert(s =~= a + sep + b);
        let front = (a + sep).drop_last();
        lemma_position_of(front, sep);
        if holds(front, sep) {
            let k = position_of(front, sep)->0;
            assert(s.subrange(k, k + sep.len()) =~= front.subrange(k, k + sep.len()));
            lemma_first_position(s, sep, k);
        }
    }
}

/// What is left of a text without its prefix or its suffix makes the text up with it.
pub proof fn lemma_without(s: Seq<char>, part: Seq<char>)
    ensures
        without_prefix(s, part) is Some <==> part.is_prefix_of(s),
        without_prefix(s, part) matches Some(rest) ==> s == part + rest,
        without_suffix(s, part) is Some <==> part.is_suffix_of(s),
        without_suffix(s, part) matches Some(rest) ==> s == rest + part,
{
    if part.is_prefix_of(s) {
        assert(s =~= part + s.skip(part.len() as int));
    }
    if part.is_suffix_of(s) {
        assert(s =~= s.take(s.len() - part.len()) + part);
    }
}

/// In lower case a text has the same length, its capital letters are the small ones, and
/// everything else is as it was.
pub proof fn lemma_lowered(s: Seq<char>, i: int)
    requires
        0 <= i < s.len(),
    ensures
        lowered(s).len() == s.len(),
        'A' <= s[i] <= 'Z' ==> lowered(s)[i] as int == s[i] as int + ('a' as int - 'A' as int),
        !('A' <= s[i] <= 'Z') ==> lowered(s)[i] == s[i],
{
}

/// The words of a text with a blank between each two are these words.
pub proof fn lemma_words_of(ws: Seq<Seq<char>>)
    requires
        forall|k: int|
            0 <= k < ws.len() ==> (#[trigger] ws[k]).len() > 0 && forall|i: int|
                0 <= i < ws[k].len() ==> !is_space(#[trigger] ws[k][i]),
    ensures
        words(joined(ws, seq![' '])) == ws,
    decreases ws.len(),
{
    let s = joined(ws, seq![' ']);
    if ws.len() == 0 {
        assert(s =~= Seq::<char>::empty());
        assert(words(s) =~= ws);
    } else {
        let tail = ws.skip(1);
        let rest = if ws.len() == 1 {
            Seq::empty()
        } else {
            seq![' '] + joined(tail, seq![' '])
        };
        assert forall|k: int| 0 <= k < tail.len() implies (#[trigger] tail[k]).len() > 0 && forall|
            i: int,
        |
            0 <= i < tail[k].len() ==> !is_space(#[trigger] tail[k][i]) by {
            assert(ws[k + 1].len() > 0);
        }
        lemma_words_of(tail);
        if ws.len() > 1 {
            lemma_joined_front(ws, seq![' ']);
        }
        assert(s =~= ws[0] + rest);
        assert(ws[0].len() > 0);
        assert(!is_space(ws[0][0]));
        assert(trimmed_start(s) == s);
        lemma_space_position_is(s, ws[0].len() as int);
        assert(s.take(ws[0].len() as int) =~= ws[0]);
        assert(s.skip(ws[0].len() as int) =~= rest);
        if ws.len() == 1 {
            assert(words(rest) =~= Seq::<Seq<char>>::empty());
            assert(words(s) =~= ws);
        } else {
            assert(rest.skip(1) =~= joined(tail, seq![' ']));
            assert(trimmed_start(rest) == trimmed_start(rest.skip(1)));
            assert(words(rest) == words(rest.skip(1)));
            assert(seq![ws[0]] + tail =~= ws);
        }
    }
}

/// A position that is known to be that of the first white space is it.
proof fn lemma_space_position_is(s: Seq<char>, n: int)
    requires
        0 <= n <= s.len(),
        forall|i: int| 0 <= i < n ==> !is_space(#[trigger] s[i]),
        n < s.len() ==> is_space(s[n]),
    ensures
        space_position(s) == n,
{
    lemma_space_position(s);
    lemma_before_space(s);
    let p = space_position(s);
    if p < n {
        assert(!is_space(s[p]));
    }
}

/// White space is the blank, the tabs, feeds and returns, and the other spaces and
/// separators of Unicode; letters, digits and the other printing characters of ASCII are
/// none.
pub proof fn lemma_spaces(c: char)
    ensures
        is_space(' ') && is_space('\t') && is_space('\n') && is_space('\r'),
        is_space('\u{b}') && is_space('\u{c}') && is_space('\u{85}') && is_space('\u{a0}'),
        is_space('\u{1680}') && is_space('\u{2028}') && is_space('\u{2029}'),
        is_space('\u{202f}') && is_space('\u{205f}') && is_space('\u{3000}'),
        '\u{2000}' <= c <= '\u{200a}' ==> is_space(c),
        '!' <= c <= '~' ==> !is_space(c),
        c > '\u{3000}' ==> !is_space(c),
        c < '\t' ==> !is_space(c),
{
}

} // verus!
