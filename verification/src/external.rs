//! The calls this library makes into other crates. Each function here makes
//! one outside call and states what the outside crate's source and
//! documentation give for it; nothing in this file is proved, everything in
//! the rest of the library is proved against these statements.

use vstd::prelude::*;
use vstd::utf8::{decode_utf8, encode_utf8, valid_utf8};

verus! {

// ---------------------------------------------------------------------------
// percent-encoding
// ---------------------------------------------------------------------------

/// The value of a hexadecimal digit byte in either letter case, as
/// `char::from(b).to_digit(16)` reads it.
pub open spec fn hex_digit_value(b: u8) -> Option<u8> {
    if 0x30 <= b <= 0x39 {
        Some((b - 0x30) as u8)
    } else if 0x41 <= b <= 0x46 {
        Some((b - 0x37) as u8)
    } else if 0x61 <= b <= 0x66 {
        Some((b - 0x57) as u8)
    } else {
        None
    }
}

/// The bytes that `percent_encoding::percent_decode` yields: each `%`
/// followed by two hexadecimal digits becomes the byte they spell; every
/// other byte, a `%` without two hexadecimal digits after it included,
/// stays as it is.
pub open spec fn percent_decoded_bytes(b: Seq<u8>) -> Seq<u8>
    decreases b.len(),
{
    if b.len() == 0 {
        seq![]
    } else if b[0] == 0x25 && b.len() >= 3 && hex_digit_value(b[1]) is Some && hex_digit_value(
        b[2],
    ) is Some {
        seq![(hex_digit_value(b[1])->Some_0 * 16 + hex_digit_value(b[2])->Some_0) as u8]
            + percent_decoded_bytes(b.skip(3))
    } else {
        seq![b[0]] + percent_decoded_bytes(b.drop_first())
    }
}

/// The bytes that percent-decoding the text `s` gives.
pub open spec fn percent_decoded_text_bytes(s: Seq<char>) -> Seq<u8> {
    percent_decoded_bytes(encode_utf8(s))
}

/// `percent_encoding::percent_decode_str(s).decode_utf8()`. Claimed: the
/// call succeeds exactly when the decoded bytes are well-formed UTF-8, and
/// then gives the text they encode (`decode_utf8` reads its bytes with
/// `str::from_utf8` or `String::from_utf8`).
#[verifier::external_body]
pub(crate) fn percent_decode_utf8(s: &str) -> (r: Option<String>)
    ensures
        r is Some <==> valid_utf8(percent_decoded_text_bytes(s@)),
        r matches Some(t) ==> t@ == decode_utf8(percent_decoded_text_bytes(s@)),
{
    percent_encoding::percent_decode_str(s).decode_utf8().ok().map(|t| t.into_owned())
}

/// The text that `percent_decode_str(s).decode_utf8_lossy()` gives: the
/// decoded bytes read by `String::from_utf8_lossy`, which puts U+FFFD in
/// place of each ill-formed part.
pub uninterp spec fn percent_decoded_lossy(s: Seq<char>) -> Seq<char>;

/// `percent_encoding::PercentDecode::decode_utf8_lossy` on
/// `percent_decode_str(s)`. Claimed: the result is
/// `percent_decoded_lossy(s)`, and where the decoded bytes are well-formed
/// UTF-8 it is the text they encode (`String::from_utf8_lossy` replaces
/// nothing then). Which characters replace ill-formed bytes is left unsaid.
#[verifier::external_body]
pub(crate) fn percent_decode_lossy(s: &str) -> (r: String)
    ensures
        r@ == percent_decoded_lossy(s@),
        valid_utf8(percent_decoded_text_bytes(s@)) ==> r@ == decode_utf8(
            percent_decoded_text_bytes(s@),
        ),
{
    percent_encoding::percent_decode_str(s).decode_utf8_lossy().into_owned()
}

// ---------------------------------------------------------------------------
// unicode-normalization
// ---------------------------------------------------------------------------

/// Unicode normalization form KC of `s`.
pub uninterp spec fn nfkc(s: Seq<char>) -> Seq<char>;

/// `unicode_normalization::UnicodeNormalization::nfkc`, collected into a
/// `String`. Claimed: the result is `nfkc(s)`.
#[verifier::external_body]
pub(crate) fn nfkc_string(s: &str) -> (r: String)
    ensures
        r@ == nfkc(s@),
{
    unicode_normalization::UnicodeNormalization::nfkc(s).collect::<String>()
}

// ---------------------------------------------------------------------------
// unicode-width
// ---------------------------------------------------------------------------

/// The displayed width of `s` in terminal columns (ambiguous-width
/// characters count as one column).
pub uninterp spec fn str_width(s: Seq<char>) -> nat;

/// The displayed width of the single character `c`, `None` for a control
/// character.
pub uninterp spec fn char_width(c: char) -> Option<nat>;

/// `unicode_width::UnicodeWidthStr::width`. Claimed: the result is
/// `str_width(s)`.
#[verifier::external_body]
pub(crate) fn display_width(s: &str) -> (r: usize)
    ensures
        r == str_width(s@),
{
    unicode_width::UnicodeWidthStr::width(s)
}

/// `unicode_width::UnicodeWidthChar::width`. Claimed: the result is
/// `char_width(c)`, and a character is at most three columns wide (the
/// crate's documented rules give widths 0 to 3).
#[verifier::external_body]
pub(crate) fn char_display_width(c: char) -> (r: Option<usize>)
    ensures
        r is Some <==> char_width(c) is Some,
        r matches Some(w) ==> char_width(c) == Some(w as nat),
        r matches Some(w) ==> w <= 3,
{
    unicode_width::UnicodeWidthChar::width(c)
}

// ---------------------------------------------------------------------------
// textwrap
// ---------------------------------------------------------------------------

/// The lines that `textwrap::wrap` gives for `text` at `width` columns,
/// with long words broken when `break_words` holds and every line after the
/// first indented by `subsequent_indent`.
pub uninterp spec fn wrapped_lines(
    text: Seq<char>,
    width: usize,
    break_words: bool,
    subsequent_indent: Seq<char>,
) -> Seq<Seq<char>>;

/// `textwrap::wrap` with `Options::new(width)`, `break_words` and
/// `subsequent_indent` set as given, each line copied into a `String`.
/// Claimed: the lines are `wrapped_lines(..)` of the arguments.
#[verifier::external_body]
pub(crate) fn wrap_text(text: &str, width: usize, break_words: bool, subsequent_indent: &str) -> (r: Vec<
    String,
>)
    ensures
        r@.map_values(|l: String| l@) == wrapped_lines(text@, width, break_words, subsequent_indent@),
{
    let options = textwrap::Options::new(width).break_words(break_words).subsequent_indent(
        subsequent_indent,
    );
    textwrap::wrap(text, options).into_iter().map(|line| line.into_owned()).collect()
}

// ---------------------------------------------------------------------------
// regex
// ---------------------------------------------------------------------------

/// `regex::Regex::new(pattern)` succeeds.
pub uninterp spec fn regex_compiles(pattern: Seq<char>) -> bool;

/// The text that `Regex::replace_all(haystack, replacement)` gives for the
/// regex compiled from `pattern` (`$name` in the replacement stands for the
/// named group's match).
pub uninterp spec fn regex_replaced(
    pattern: Seq<char>,
    haystack: Seq<char>,
    replacement: Seq<char>,
) -> Seq<char>;

/// `regex::Regex::new`, telling only whether the pattern compiles.
/// Claimed: the result is `regex_compiles(pattern)`.
#[verifier::external_body]
pub(crate) fn regex_pattern_compiles(pattern: &str) -> (ok: bool)
    ensures
        ok == regex_compiles(pattern@),
{
    regex::Regex::new(pattern).is_ok()
}

/// `regex::Regex::replace_all` on the regex that `Regex::new(pattern)`
/// builds (the pattern is compiled here, from the argument, and the call
/// panics where it does not compile). Claimed: the result is
/// `regex_replaced(..)` of the arguments.
#[verifier::external_body]
pub(crate) fn regex_replace_all(pattern: &str, haystack: &str, replacement: &str) -> (r: String)
    requires
        regex_compiles(pattern@),
    ensures
        r@ == regex_replaced(pattern@, haystack@, replacement@),
{
    let re = regex::Regex::new(pattern).expect("pattern compiles");
    re.replace_all(haystack, replacement).into_owned()
}

} // verus!
