//! What the library asks of the crates around it and of the standard library,
//! and what it takes their answers to be.

use vstd::prelude::*;

verus! {

// --- the clock --------------------------------------------------------------

/// `std::time::Instant`: a point in time, which nothing here looks into.
#[verifier::external_type_specification]
#[verifier::external_body]
pub struct ExInstant(std::time::Instant);

/// `std::time::Instant::now`. Nothing is claimed of the time that it is.
#[verifier::external_body]
pub(crate) fn now() -> (at: std::time::Instant)
{
    std::time::Instant::now()
}

/// The whole seconds of `std::time::Instant::elapsed`. Nothing is claimed of how
/// many they are.
#[verifier::external_body]
pub(crate) fn seconds_since(start: &std::time::Instant) -> (secs: u64)
{
    start.elapsed().as_secs()
}

/// The whole seconds of `std::time::SystemTime::elapsed` since
/// `std::time::SystemTime::UNIX_EPOCH`, or nothing where the clock is before it.
/// Nothing is claimed of how many they are.
#[verifier::external_body]
pub(crate) fn seconds_since_epoch() -> (secs: Option<u64>)
{
    std::time::SystemTime::UNIX_EPOCH.elapsed().ok().map(|d| d.as_secs())
}

// --- text -------------------------------------------------------------------

/// `String::push`: appends one character to the end of the string.
pub assume_specification[ String::push ](s: &mut String, c: char)
    ensures
        final(s)@ == old(s)@.push(c),
;

/// `==` on string slices: true exactly when both hold the same characters.
pub assume_specification[ <str as PartialEq>::eq ](a: &str, b: &str) -> (same: bool)
    ensures
        same == (a@ == b@),
;

/// What `std::fmt::Debug` writes for a text.
pub uninterp spec fn quoted_text(text: Seq<char>) -> Seq<char>;

/// `std::fmt::Debug` of a string slice: the text in quotes, with escapes. It
/// depends on the text alone; which characters are escaped is the standard
/// library's to say.
#[verifier::external_body]
pub(crate) fn quoted(text: &str) -> (out: String)
    ensures
        out@ == quoted_text(text@),
{
    format!("{text:?}")
}

/// What `String::from_utf8_lossy` makes of some bytes.
pub uninterp spec fn lossy_text(bytes: Seq<u8>) -> Seq<char>;

/// `String::from_utf8_lossy`: the bytes as text. Bytes that are not UTF-8 come out
/// as replacement characters, in a way that the standard library lays down; a
/// text's own bytes come out as that text.
#[verifier::external_body]
pub(crate) fn lossy(bytes: &[u8]) -> (out: String)
    ensures
        out@ == lossy_text(bytes@),
        vstd::utf8::valid_utf8(bytes@) ==> vstd::utf8::encode_utf8(out@) == bytes@,
{
    String::from_utf8_lossy(bytes).into_owned()
}

/// `String::from_utf8`: the text that some bytes encode, or nothing where they are
/// not UTF-8.
#[verifier::external_body]
pub(crate) fn utf8(bytes: Vec<u8>) -> (out: Option<String>)
    ensures
        match out {
            Some(text) => vstd::utf8::encode_utf8(text@) == bytes@,
            None => !vstd::utf8::valid_utf8(bytes@),
        },
{
    String::from_utf8(bytes).ok()
}

// --- JSON -------------------------------------------------------------------

/// The list of texts that `serde_json` reads from some bytes, or what it says of
/// bytes that are none.
pub uninterp spec fn attr_names(bytes: Seq<u8>) -> Result<Seq<Seq<char>>, Seq<char>>;

/// `serde_json::from_slice` into a list of strings, and the `Display` of its error.
/// It depends on the bytes alone: which bytes are JSON, which texts they write, and
/// what an error says, is the crate's to say.
#[verifier::external_body]
pub(crate) fn read_names(bytes: &[u8]) -> (out: Result<Vec<String>, String>)
    ensures
        match out {
            Ok(names) => attr_names(bytes@) == Ok::<Seq<Seq<char>>, Seq<char>>(
                crate::text::texts(names@),
            ),
            Err(message) => attr_names(bytes@) == Err::<Seq<Seq<char>>, Seq<char>>(message@),
        },
{
    serde_json::from_slice::<Vec<String>>(bytes).map_err(|e| e.to_string())
}

// --- the terminal -----------------------------------------------------------

/// `console::Term::is_term` of `console::Term::stderr`. Nothing is claimed of
/// the answer, which is the machine's.
#[verifier::external_body]
pub(crate) fn stderr_is_term() -> (yes: bool)
{
    console::Term::stderr().is_term()
}

/// `console::style` in cyan, as text. The crate colours only where colours are
/// enabled for standard output: the text comes back as it is, or between the
/// escape sequences for cyan and for no colour.
#[verifier::external_body]
pub(crate) fn cyan(text: &str) -> (out: String)
    ensures
        out@ == text@ || out@ == "\x1b[36m"@ + text@ + "\x1b[0m"@,
{
    console::style(text).cyan().to_string()
}

/// What `console::truncate_str` makes of a text, a width and a tail.
pub uninterp spec fn truncated(text: Seq<char>, width: int, tail: Seq<char>) -> Seq<char>;

/// `console::truncate_str`: `text` cut to `width` columns, escape sequences kept
/// and not counted, with `tail` at the cut. It depends on its arguments alone;
/// how many columns each character takes is the crate's to say.
#[verifier::external_body]
pub(crate) fn truncate(text: &str, width: usize, tail: &str) -> (out: String)
    ensures
        out@ == truncated(text@, width as int, tail@),
{
    console::truncate_str(text, width, tail).into_owned()
}

} // verus!
