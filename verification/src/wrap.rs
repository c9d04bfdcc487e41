//! Text normalization, measuring, padding and line wrapping for the
//! terminal tables.

use vstd::prelude::*;
use crate::external::{char_display_width, char_width, display_width, nfkc, nfkc_string, str_width, wrap_text, wrapped_lines};
use crate::text::{
    all_white_space, append_chars, append_str, byte_len, char_utf8_len, chars_of, has_prefix,
    is_white_space, is_whitespace_char, lines, lines_of, replace, replace_chars,
    starts_with_chars, string_of, string_views, str_is_blank, sub_chars, trim, trim_chars,
    trim_end, trim_start, char_views, skip_white_space, skip_white_space_back,
    lemma_trim_start_at, lemma_trim_end_at,
};

verus! {

broadcast use vstd::string::group_string_axioms;

// ---------------------------------------------------------------------------
// Normalization
// ---------------------------------------------------------------------------

/// API text with its escaped line breaks (`\r\n`, `\n`, `\r` written out
/// as backslash sequences) turned into real newlines.
pub open spec fn unescaped_breaks(value: Seq<char>) -> Seq<char> {
    replace(
        replace(replace(value, seq!['\\', 'r', '\\', 'n'], seq!['\n']), seq!['\\', 'n'], seq!['\n']),
        seq!['\\', 'r'],
        seq!['\n'],
    )
}

/// API text as it is shown: escaped line breaks made real, then NFKC
/// normalization (full-width letters and digits become ASCII).
pub open spec fn normalized(value: Seq<char>) -> Seq<char> {
    nfkc(unescaped_breaks(value))
}

/// Normalizes API text for display.
pub fn normalize_display_text(value: &str) -> (text: String)
    ensures
        text@ == normalized(value@),
{
    let chars = chars_of(value);
    let crlf: Vec<char> = vec!['\\', 'r', '\\', 'n'];
    let lf: Vec<char> = vec!['\\', 'n'];
    let cr: Vec<char> = vec!['\\', 'r'];
    let newline: Vec<char> = vec!['\n'];
    proof {
        assert(crlf@ =~= seq!['\\', 'r', '\\', 'n']);
        assert(lf@ =~= seq!['\\', 'n']);
        assert(cr@ =~= seq!['\\', 'r']);
        assert(newline@ =~= seq!['\n']);
    }
    let step1 = replace_chars(&chars, &crlf, &newline);
    let step2 = replace_chars(&step1, &lf, &newline);
    let step3 = replace_chars(&step2, &cr, &newline);
    let unescaped = string_of(&step3);
    nfkc_string(unescaped.as_str())
}

/// The lines of normalized API text.
pub open spec fn display_lines(value: Seq<char>) -> Seq<Seq<char>> {
    lines(normalized(value))
}

fn display_lines_of(value: &str) -> (out: Vec<Vec<char>>)
    ensures
        char_views(out@) == display_lines(value@),
{
    let normalized = normalize_display_text(value);
    let chars = chars_of(normalized.as_str());
    lines_of(&chars)
}

// ---------------------------------------------------------------------------
// Small formatting helpers
// ---------------------------------------------------------------------------

/// A field as shown: `-` when it is blank.
pub open spec fn dash_if_blank(value: Seq<char>) -> Seq<char> {
    if all_white_space(value) {
        "-"@
    } else {
        value
    }
}

/// Shows `-` for a blank field.
pub fn empty_dash(value: &str) -> (shown: &str)
    ensures
        shown@ == dash_if_blank(value@),
{
    if str_is_blank(value) {
        "-"
    } else {
        value
    }
}

/// `n` spaces.
pub open spec fn spaces(n: nat) -> Seq<char> {
    Seq::new(n, |i: int| ' ')
}

/// `a - b`, or 0 when `b` is larger (`usize::saturating_sub`).
pub open spec fn sat_sub(a: int, b: int) -> nat {
    if a > b {
        (a - b) as nat
    } else {
        0
    }
}

/// Appends `n` spaces.
pub fn push_spaces(out: &mut Vec<char>, n: usize)
    ensures
        final(out)@ == old(out)@ + spaces(n as nat),
{
    let mut k: usize = 0;
    while k < n
        invariant
            k <= n,
            out@ == old(out)@ + spaces(k as nat),
        decreases n - k,
    {
        out.push(' ');
        proof {
            assert(old(out)@ + spaces((k + 1) as nat) =~= old(out)@ + spaces(k as nat) + seq![' ']);
        }
        k = k + 1;
    }
}

/// `value` padded with spaces on the right to `width` columns.
pub open spec fn padded_right(value: Seq<char>, width: usize) -> Seq<char> {
    value + spaces(sat_sub(width as int, str_width(value) as int))
}

/// `value` padded with spaces on the left to `width` columns.
pub open spec fn padded_left(value: Seq<char>, width: usize) -> Seq<char> {
    spaces(sat_sub(width as int, str_width(value) as int)) + value
}

/// Pads `value` on the right to `width` display columns.
pub fn pad_right(value: &str, width: usize) -> (padded: String)
    ensures
        padded@ == padded_right(value@, width),
{
    let w = display_width(value);
    let padding = width.saturating_sub(w);
    let mut out = chars_of(value);
    push_spaces(&mut out, padding);
    string_of(&out)
}

/// Pads `value` on the left to `width` display columns.
pub fn pad_left(value: &str, width: usize) -> (padded: String)
    ensures
        padded@ == padded_left(value@, width),
{
    let w = display_width(value);
    let padding = width.saturating_sub(w);
    let mut out: Vec<char> = Vec::new();
    push_spaces(&mut out, padding);
    append_str(&mut out, value);
    string_of(&out)
}

/// The largest of a sequence of naturals, 0 for none.
pub open spec fn max_of(s: Seq<nat>) -> nat
    decreases s.len(),
{
    if s.len() == 0 {
        0
    } else if max_of(s.drop_last()) >= s.last() {
        max_of(s.drop_last())
    } else {
        s.last()
    }
}

/// The display widths of some lines.
pub open spec fn line_widths(ls: Seq<Seq<char>>) -> Seq<nat> {
    ls.map_values(|l: Seq<char>| str_width(l))
}

/// The widest line of normalized text, in display columns.
pub open spec fn max_line_width(value: Seq<char>) -> nat {
    max_of(line_widths(display_lines(value)))
}

/// The display width of the widest line of `ls`.
fn max_width_of_lines(ls: &Vec<Vec<char>>) -> (w: usize)
    ensures
        w == max_of(line_widths(char_views(ls@))),
{
    let mut best: usize = 0;
    let mut i: usize = 0;
    while i < ls.len()
        invariant
            i <= ls.len(),
            best == max_of(line_widths(char_views(ls@)).take(i as int)),
        decreases ls.len() - i,
    {
        let line = string_of(&ls[i]);
        let w = display_width(line.as_str());
        proof {
            assert(line_widths(char_views(ls@)).take(i + 1).drop_last() =~= line_widths(
                char_views(ls@),
            ).take(i as int));
            assert(line_widths(char_views(ls@))[i as int] == str_width(ls@[i as int]@));
        }
        if w > best {
            best = w;
        }
        i = i + 1;
    }
    proof {
        assert(line_widths(char_views(ls@)).take(ls@.len() as int) =~= line_widths(char_views(ls@)));
    }
    best
}

/// The display width of the widest line of the normalized text.
pub fn max_display_line_width(value: &str) -> (w: usize)
    ensures
        w == max_line_width(value@),
{
    let ls = display_lines_of(value);
    max_width_of_lines(&ls)
}

/// The display width of the widest line of `ls`, for lines held as strings.
pub fn max_width_of_strings(ls: &Vec<String>) -> (w: usize)
    ensures
        w == max_of(line_widths(string_views(ls@))),
{
    let mut best: usize = 0;
    let mut i: usize = 0;
    while i < ls.len()
        invariant
            i <= ls.len(),
            best == max_of(line_widths(string_views(ls@)).take(i as int)),
        decreases ls.len() - i,
    {
        let w = display_width(ls[i].as_str());
        proof {
            assert(line_widths(string_views(ls@)).take(i + 1).drop_last() =~= line_widths(
                string_views(ls@),
            ).take(i as int));
            assert(line_widths(string_views(ls@))[i as int] == str_width(ls@[i as int]@));
        }
        if w > best {
            best = w;
        }
        i = i + 1;
    }
    proof {
        assert(line_widths(string_views(ls@)).take(ls@.len() as int) =~= line_widths(
            string_views(ls@),
        ));
    }
    best
}

/// A horizontal rule of `width` box-drawing characters.
pub open spec fn rule(width: nat) -> Seq<char> {
    Seq::new(width, |i: int| '─')
}

/// The rule printed above and below each table.
pub fn rule_line(width: usize) -> (line: String)
    ensures
        line@ == rule(width as nat),
{
    let mut out: Vec<char> = Vec::new();
    let mut k: usize = 0;
    while k < width
        invariant
            k <= width,
            out@ == rule(k as nat),
        decreases width - k,
    {
        out.push('─');
        proof {
            assert(rule((k + 1) as nat) =~= rule(k as nat).push('─'));
        }
        k = k + 1;
    }
    string_of(&out)
}

/// `x.clamp(lo, hi)` for `lo <= hi`.
pub open spec fn clamp(x: int, lo: int, hi: int) -> int {
    if x < lo {
        lo
    } else if x > hi {
        hi
    } else {
        x
    }
}

/// The terminal width to lay tables out for: the terminal's column count
/// (100 when it is unknown), kept between 60 and 160.
pub fn terminal_width_from(columns: Option<u16>) -> (width: usize)
    ensures
        width == clamp(
            match columns {
                Some(c) => c as int,
                None => 100,
            },
            60,
            160,
        ),
{
    let w: usize = match columns {
        Some(c) => c as usize,
        None => 100,
    };
    if w < 60 {
        60
    } else if w > 160 {
        160
    } else {
        w
    }
}


// ---------------------------------------------------------------------------
// Wrapping with textwrap
// ---------------------------------------------------------------------------

/// The bullet that starts each radio-wave row.
pub open spec fn bullet() -> Seq<char> {
    seq!['・', ' ']
}

/// The wrapped lines of one line of text: blank lines stay one empty line;
/// other lines are trimmed and wrapped by textwrap, bullet rows with their
/// continuation lines indented by two spaces.
pub open spec fn wrap_one_line(line: Seq<char>, width: usize) -> Seq<Seq<char>> {
    let t = trim(line);
    if t.len() == 0 {
        seq![seq![]]
    } else if has_prefix(t, bullet()) {
        wrapped_lines(t, width, true, seq![' ', ' '])
    } else {
        wrapped_lines(t, width, true, seq![])
    }
}

/// The wrapped lines of several lines, in order.
pub open spec fn wrap_all_lines(ls: Seq<Seq<char>>, width: usize) -> Seq<Seq<char>>
    decreases ls.len(),
{
    if ls.len() == 0 {
        seq![]
    } else {
        wrap_all_lines(ls.drop_last(), width) + wrap_one_line(ls.last(), width)
    }
}

/// At least one line: an empty result becomes a single empty line.
pub open spec fn at_least_one_line(ls: Seq<Seq<char>>) -> Seq<Seq<char>> {
    if ls.len() == 0 {
        seq![seq![]]
    } else {
        ls
    }
}

/// A value as wrapped text lines of at most `width` columns (as textwrap
/// counts them).
pub open spec fn wrapped_value(value: Seq<char>, width: usize) -> Seq<Seq<char>> {
    at_least_one_line(wrap_all_lines(display_lines(value), width))
}

proof fn lemma_wrap_all_parts(ls: Seq<Seq<char>>, width: usize)
    ensures
        wrap_all_lines(ls, width) == ls.map_values(|l: Seq<char>| wrap_one_line(l, width)).flatten(),
    decreases ls.len(),
{
    if ls.len() > 0 {
        let rest = ls.drop_last();
        lemma_wrap_all_parts(rest, width);
        let parts = ls.map_values(|l: Seq<char>| wrap_one_line(l, width));
        assert(parts =~= rest.map_values(|l: Seq<char>| wrap_one_line(l, width)).push(
            wrap_one_line(ls.last(), width),
        ));
        rest.map_values(|l: Seq<char>| wrap_one_line(l, width)).lemma_flatten_push(
            wrap_one_line(ls.last(), width),
        );
    }
}

/// Wrapping a value wraps each of its lines on its own and puts the results
/// one after another, in order: a blank line stays one empty line, and a
/// value without lines gives one empty line.
pub proof fn law_wrapped_value_joins_lines(value: Seq<char>, width: usize)
    ensures
        ({
            let parts = display_lines(value).map_values(|l: Seq<char>| wrap_one_line(l, width));
            wrapped_value(value, width) == if parts.flatten().len() == 0 {
                seq![seq![]]
            } else {
                parts.flatten()
            }
        }),
        forall|l: Seq<char>| all_white_space(l) ==> #[trigger] wrap_one_line(l, width) == seq![
            Seq::<char>::empty(),
        ],
{
    lemma_wrap_all_parts(display_lines(value), width);
    assert forall|l: Seq<char>| all_white_space(l) implies #[trigger] wrap_one_line(l, width)
        == seq![Seq::<char>::empty()] by {
        crate::text::lemma_trim_all_white_space(l);
    }
}

/// Appends the strings of `src` to `dst`.
pub fn append_strings(dst: &mut Vec<String>, src: &Vec<String>)
    ensures
        string_views(final(dst)@) == string_views(old(dst)@) + string_views(src@),
{
    let mut i: usize = 0;
    while i < src.len()
        invariant
            i <= src.len(),
            string_views(dst@) =~= string_views(old(dst)@) + string_views(src@).take(i as int),
        decreases src.len() - i,
    {
        let s = src[i].clone();
        let ghost before = dst@;
        dst.push(s);
        proof {
            assert(s@ == src@[i as int]@);
            assert(dst@ =~= before.push(s));
            assert(string_views(dst@) =~= string_views(before).push(s@));
            assert(string_views(src@).take(i + 1) =~= string_views(src@).take(i as int).push(s@));
            assert(string_views(dst@) =~= string_views(old(dst)@) + string_views(src@).take(i + 1));
        }
        i = i + 1;
    }
    proof {
        assert(string_views(src@).take(src@.len() as int) =~= string_views(src@));
    }
}

/// Wraps one line of text.
fn wrap_one(line: &Vec<char>, width: usize) -> (out: Vec<String>)
    ensures
        string_views(out@) == wrap_one_line(line@, width),
{
    let t = trim_chars(line);
    if t.len() == 0 {
        let mut out: Vec<String> = Vec::new();
        out.push(String::new());
        proof {
            assert(string_views(out@) =~= seq![Seq::<char>::empty()]);
        }
        return out;
    }
    let bullet_chars: Vec<char> = vec!['・', ' '];
    proof {
        assert(bullet_chars@ =~= bullet());
    }
    let indent_chars: Vec<char> = if starts_with_chars(&t, &bullet_chars) {
        vec![' ', ' ']
    } else {
        Vec::new()
    };
    proof {
        if has_prefix(t@, bullet()) {
            assert(indent_chars@ =~= seq![' ', ' ']);
        } else {
            assert(indent_chars@ =~= Seq::<char>::empty());
        }
    }
    let indent = string_of(&indent_chars);
    let text = string_of(&t);
    wrap_text(text.as_str(), width, true, indent.as_str())
}

/// Wraps a value to `width` columns, line by line.
pub fn wrap_value(value: &str, width: usize) -> (out: Vec<String>)
    ensures
        string_views(out@) == wrapped_value(value@, width),
{
    let ls = display_lines_of(value);
    let mut out: Vec<String> = Vec::new();
    let mut i: usize = 0;
    while i < ls.len()
        invariant
            i <= ls.len(),
            string_views(out@) == wrap_all_lines(char_views(ls@).take(i as int), width),
        decreases ls.len() - i,
    {
        let piece = wrap_one(&ls[i], width);
        append_strings(&mut out, &piece);
        proof {
            assert(char_views(ls@).take(i + 1).drop_last() =~= char_views(ls@).take(i as int));
            assert(char_views(ls@).take(i + 1).last() == ls@[i as int]@);
        }
        i = i + 1;
    }
    proof {
        assert(char_views(ls@).take(ls@.len() as int) =~= char_views(ls@));
    }
    if out.len() == 0 {
        out.push(String::new());
        proof {
            assert(string_views(out@) =~= seq![Seq::<char>::empty()]);
        }
    }
    out
}


// ---------------------------------------------------------------------------
// Wrapping that keeps the spacing inside a line
// ---------------------------------------------------------------------------

/// The columns a character takes in the splitting rule (control characters
/// count as 0).
pub open spec fn char_cols(c: char) -> nat {
    match char_width(c) {
        Some(w) => w,
        None => 0,
    }
}

/// Where to split `s` to fit `width` columns, scanning from character `i`
/// with `current` columns used so far and `fallback` the last whitespace
/// seen: at the last whitespace before the first character that does not
/// fit, else at that character; `None` when everything fits.
pub open spec fn split_point_from(
    s: Seq<char>,
    width: int,
    i: int,
    current: int,
    fallback: Option<int>,
) -> Option<int>
    decreases s.len() - i,
{
    if i < 0 || i >= s.len() {
        None
    } else if current + char_cols(s[i]) > width {
        match fallback {
            Some(f) => Some(f),
            None => Some(i),
        }
    } else {
        split_point_from(
            s,
            width,
            i + 1,
            current + char_cols(s[i]),
            if is_white_space(s[i]) {
                Some(i)
            } else {
                fallback
            },
        )
    }
}

/// The character index at which to split `s` to fit `width` columns.
pub open spec fn split_point(s: Seq<char>, width: usize) -> Option<int> {
    split_point_from(s, width as int, 0, 0, None)
}

/// The columns the characters of `s` take together in the splitting rule.
pub open spec fn cols(s: Seq<char>) -> nat
    decreases s.len(),
{
    if s.len() == 0 {
        0
    } else {
        cols(s.drop_last()) + char_cols(s.last())
    }
}

proof fn lemma_cols_step(s: Seq<char>, i: int)
    requires
        0 <= i < s.len(),
    ensures
        cols(s.take(i + 1)) == cols(s.take(i)) + char_cols(s[i]),
{
    assert(s.take(i + 1).drop_last() =~= s.take(i));
}

proof fn lemma_cols_prefix(s: Seq<char>, a: int, b: int)
    requires
        0 <= a <= b <= s.len(),
    ensures
        cols(s.take(a)) <= cols(s.take(b)),
    decreases b - a,
{
    if a < b {
        lemma_cols_step(s, b - 1);
        lemma_cols_prefix(s, a, b - 1);
    }
}

proof fn lemma_split_point_from_fits(
    s: Seq<char>,
    width: int,
    i: int,
    current: int,
    fallback: Option<int>,
)
    requires
        0 <= i <= s.len(),
        current == cols(s.take(i)),
        current <= width,
        fallback matches Some(f) ==> 0 <= f < i && is_white_space(s[f]),
    ensures
        match split_point_from(s, width, i, current, fallback) {
            Some(j) => 0 <= j < s.len() && cols(s.take(j)) <= width && cols(s) > width && (
            is_white_space(s[j]) || cols(s.take(j + 1)) > width),
            None => cols(s) <= width,
        },
    decreases s.len() - i,
{
    if i >= s.len() {
        assert(s.take(i) =~= s);
    } else {
        lemma_cols_step(s, i);
        lemma_cols_prefix(s, i + 1, s.len() as int);
        assert(s.take(s.len() as int) =~= s);
        if current + char_cols(s[i]) > width {
            match fallback {
                Some(f) => {
                    lemma_cols_prefix(s, f, i);
                },
                None => {},
            }
        } else {
            lemma_split_point_from_fits(
                s,
                width,
                i + 1,
                current + char_cols(s[i]),
                if is_white_space(s[i]) {
                    Some(i)
                } else {
                    fallback
                },
            );
        }
    }
}

/// A line is cut exactly when it does not fit: then what comes before the
/// cut fits, and the cut is at whitespace or at the first character that
/// does not fit.
pub proof fn law_split_point_fits(s: Seq<char>, width: usize)
    ensures
        match split_point(s, width) {
            Some(j) => 0 <= j < s.len() && cols(s.take(j)) <= width && cols(s) > width && (
            is_white_space(s[j]) || cols(s.take(j + 1)) > width),
            None => cols(s) <= width,
        },
{
    assert(s.take(0) =~= Seq::<char>::empty());
    lemma_split_point_from_fits(s, width as int, 0, 0, None);
}

/// The character index at which to split `v` to fit `width` columns.
fn split_point_chars(v: &Vec<char>, width: usize) -> (r: Option<usize>)
    ensures
        match split_point(v@, width) {
            Some(j) => r == Some(j as usize) && 0 <= j < v@.len(),
            None => r is None,
        },
{
    let mut current: usize = 0;
    let mut fallback: Option<usize> = None;
    let mut i: usize = 0;
    while i < v.len()
        invariant
            i <= v.len(),
            current <= width,
            forall|f: usize| fallback == Some(f) ==> f < i,
            split_point(v@, width) == split_point_from(
                v@,
                width as int,
                i as int,
                current as int,
                match fallback {
                    Some(f) => Some(f as int),
                    None => None,
                },
            ),
        decreases v.len() - i,
    {
        let c = v[i];
        let cw: usize = match char_display_width(c) {
            Some(w) => w,
            None => 0,
        };
        if cw > width - current {
            return match fallback {
                Some(f) => Some(f),
                None => Some(i),
            };
        }
        if is_whitespace_char(c) {
            fallback = Some(i);
        }
        current = current + cw;
        i = i + 1;
    }
    None
}

/// Where to split `value` to fit `width` display columns, as a byte offset
/// into `value`: at the last whitespace before the first character that
/// does not fit, else at that character; `None` when it all fits.
pub fn split_at_width(value: &str, width: usize) -> (r: Option<usize>)
    requires
        byte_len(value@) <= usize::MAX,
    ensures
        match split_point(value@, width) {
            Some(j) => r == Some(byte_len(value@.take(j)) as usize),
            None => r is None,
        },
{
    let v = chars_of(value);
    match split_point_chars(&v, width) {
        Some(j) => {
            let mut bytes: usize = 0;
            let mut k: usize = 0;
            while k < j
                invariant
                    k <= j < v@.len(),
                    v@ == value@,
                    byte_len(value@) <= usize::MAX,
                    bytes == byte_len(v@.take(k as int)),
                decreases j - k,
            {
                proof {
                    assert(v@.take(k + 1).drop_last() =~= v@.take(k as int));
                    crate::text::lemma_byte_len_prefix_grows(v@, k + 1, v@.len() as int);
                    assert(v@.take(v@.len() as int) =~= v@);
                }
                bytes = bytes + char_utf8_len(v[k]);
                k = k + 1;
            }
            Some(bytes)
        },
        None => None,
    }
}

/// The split index of a too-wide remainder: the split point, or the whole
/// remainder when every character fits.
pub open spec fn split_index(r: Seq<char>, width: usize) -> int {
    match split_point(r, width) {
        Some(j) => j,
        None => r.len() as int,
    }
}

/// The line cut off the front of a too-wide remainder.
pub open spec fn wrap_head(r: Seq<char>, width: usize) -> Seq<char> {
    trim_end(r.take(split_index(r, width)))
}

/// What is left after cutting a line off: trimmed at the front, and
/// indented by two spaces in a bullet row.
pub open spec fn wrap_rest(r: Seq<char>, width: usize, is_bullet: bool) -> Seq<char> {
    let tail = trim_start(r.skip(split_index(r, width)));
    if is_bullet && tail.len() > 0 {
        seq![' ', ' '] + tail
    } else {
        tail
    }
}

/// The lines that wrapping the remainder `r` of a line gives; `None` when
/// the wrapping never ends (a cut that leaves the remainder unchanged).
/// `first` marks the whole line, before any cut.
pub open spec fn preserve_wrap_from(r: Seq<char>, width: usize, is_bullet: bool, first: bool) -> Option<
    Seq<Seq<char>>,
>
    decreases r.len() + (if first {
        3int
    } else {
        0int
    }),
{
    if str_width(r) <= width {
        Some(
            if r.len() == 0 {
                seq![]
            } else {
                seq![r]
            },
        )
    } else {
        let next = wrap_rest(r, width, is_bullet);
        if next.len() == 0 {
            Some(seq![wrap_head(r, width)])
        } else if next == r {
            None
        } else if next.len() < r.len() || (first && next.len() <= r.len() + 2) {
            match preserve_wrap_from(next, width, is_bullet, false) {
                Some(rest) => Some(seq![wrap_head(r, width)] + rest),
                None => None,
            }
        } else {
            None
        }
    }
}

/// The shape of a remainder while a line is being wrapped: non-empty, and
/// after the first cut it starts with a non-whitespace character, behind
/// the two-space indent in a bullet row.
pub open spec fn wrap_remainder_shape(r: Seq<char>, is_bullet: bool, first: bool) -> bool {
    &&& r.len() > 0
    &&& !first ==> if is_bullet {
        r.len() >= 3 && r[0] == ' ' && r[1] == ' ' && !is_white_space(r[2])
    } else {
        !is_white_space(r[0])
    }
}

proof fn lemma_trim_start_shape(s: Seq<char>)
    ensures
        trim_start(s).len() <= s.len(),
        trim_start(s).len() > 0 ==> !is_white_space(trim_start(s)[0]),
        s.len() > 0 && is_white_space(s[0]) ==> trim_start(s).len() < s.len(),
        !(s.len() > 0 && is_white_space(s[0])) ==> trim_start(s) == s,
    decreases s.len(),
{
    if s.len() > 0 && is_white_space(s[0]) {
        lemma_trim_start_shape(s.drop_first());
    }
}

/// Each cut of a too-wide line either finishes it, leaves the remainder as
/// it was (the wrapping would then never end), or leaves a shorter
/// remainder of the same shape; only the first cut of a bullet row may
/// lengthen it, by the two-space indent.
pub proof fn law_wrap_cut_progresses(r: Seq<char>, width: usize, is_bullet: bool, first: bool)
    requires
        wrap_remainder_shape(r, is_bullet, first),
        str_width(r) > width,
        wrap_rest(r, width, is_bullet).len() > 0,
        wrap_rest(r, width, is_bullet) != r,
    ensures
        wrap_rest(r, width, is_bullet).len() < r.len() || (first && wrap_rest(r, width, is_bullet).len()
            <= r.len() + 2),
        wrap_remainder_shape(wrap_rest(r, width, is_bullet), is_bullet, false),
{
    law_split_point_fits(r, width);
    let k = split_index(r, width);
    assert(0 <= k <= r.len());
    let tail = trim_start(r.skip(k));
    lemma_trim_start_shape(r.skip(k));
    let next = wrap_rest(r, width, is_bullet);
    assert(tail.len() > 0);
    if is_bullet {
        assert(next =~= seq![' ', ' '] + tail);
        assert(next[2] == tail[0]);
        if !first && k <= 2 {
            assert(r.skip(k).skip(2 - k) =~= r.skip(2));
            assert(forall|m: int| 0 <= m < 2 - k ==> #[trigger] r.skip(k)[m] == r[k + m]);
            lemma_trim_start_at(r.skip(k), 2 - k);
            assert(seq![' ', ' '] + r.skip(2) =~= r);
        }
    } else {
        assert(next == tail);
        if k == 0 {
            assert(r.skip(0) =~= r);
        }
    }
}

/// The wrapped lines of one line of a spacing-preserving value.
pub open spec fn preserve_line(raw: Seq<char>, width: usize) -> Option<Seq<Seq<char>>> {
    let r = trim_end(raw);
    if r.len() == 0 {
        Some(seq![seq![]])
    } else {
        preserve_wrap_from(r, width, has_prefix(raw, bullet()), true)
    }
}

/// The wrapped lines of several lines, in order; `None` when one of them
/// never finishes wrapping.
pub open spec fn preserve_all_lines(ls: Seq<Seq<char>>, width: usize) -> Option<Seq<Seq<char>>>
    decreases ls.len(),
{
    if ls.len() == 0 {
        Some(seq![])
    } else {
        match (preserve_all_lines(ls.drop_last(), width), preserve_line(ls.last(), width)) {
            (Some(a), Some(b)) => Some(a + b),
            _ => None,
        }
    }
}

/// A value wrapped to `width` columns without collapsing the spaces inside
/// its lines; `None` when the wrapping never ends.
pub open spec fn preserved_value(value: Seq<char>, width: usize) -> Option<Seq<Seq<char>>> {
    match preserve_all_lines(display_lines(value), width) {
        Some(ls) => Some(at_least_one_line(ls)),
        None => None,
    }
}

proof fn lemma_preserve_all_parts(ls: Seq<Seq<char>>, width: usize) -> (parts: Seq<Seq<Seq<char>>>)
    requires
        preserve_all_lines(ls, width) is Some,
    ensures
        parts.len() == ls.len(),
        forall|i: int| 0 <= i < ls.len() ==> preserve_line(ls[i], width) == Some(#[trigger] parts[i]),
        preserve_all_lines(ls, width) == Some(parts.flatten()),
    decreases ls.len(),
{
    if ls.len() == 0 {
        Seq::empty()
    } else {
        let rest = ls.drop_last();
        let p = lemma_preserve_all_parts(rest, width);
        let b = preserve_line(ls.last(), width)->Some_0;
        let parts = p.push(b);
        p.lemma_flatten_push(b);
        assert forall|i: int| 0 <= i < ls.len() implies preserve_line(ls[i], width) == Some(
            #[trigger] parts[i],
        ) by {
            if i < rest.len() {
                assert(ls[i] == rest[i]);
            }
        }
        parts
    }
}

/// Wrapping a value while keeping its spacing wraps each of its lines on
/// its own and puts the results one after another, in order; a value
/// without lines gives one empty line.
pub proof fn law_preserved_value_joins_lines(value: Seq<char>, width: usize)
    requires
        preserved_value(value, width) is Some,
    ensures
        exists|parts: Seq<Seq<Seq<char>>>|
            {
                &&& parts.len() == display_lines(value).len()
                &&& forall|i: int|
                    0 <= i < parts.len() ==> preserve_line(display_lines(value)[i], width) == Some(
                        #[trigger] parts[i],
                    )
                &&& preserved_value(value, width) == Some(
                    if parts.flatten().len() == 0 {
                        seq![seq![]]
                    } else {
                        parts.flatten()
                    },
                )
            },
{
    let parts = lemma_preserve_all_parts(display_lines(value), width);
    assert(parts.len() == display_lines(value).len());
}

proof fn lemma_preserve_fitting_lines(ls: Seq<Seq<char>>, width: usize)
    requires
        forall|i: int| 0 <= i < ls.len() ==> str_width(trim_end(#[trigger] ls[i])) <= width,
    ensures
        preserve_all_lines(ls, width) == Some(ls.map_values(|l: Seq<char>| trim_end(l))),
    decreases ls.len(),
{
    if ls.len() > 0 {
        let rest = ls.drop_last();
        assert forall|i: int| 0 <= i < rest.len() implies str_width(trim_end(#[trigger] rest[i]))
            <= width by {
            assert(rest[i] == ls[i]);
        }
        lemma_preserve_fitting_lines(rest, width);
        let r = trim_end(ls.last());
        assert(str_width(trim_end(ls[ls.len() - 1])) <= width);
        if r.len() == 0 {
            assert(r =~= Seq::<char>::empty());
        } else {
            assert(preserve_wrap_from(r, width, has_prefix(ls.last(), bullet()), true) == Some(
                seq![r],
            ));
        }
        assert(preserve_line(ls.last(), width) == Some(seq![trim_end(ls.last())]));
        assert(ls.map_values(|l: Seq<char>| trim_end(l)) =~= rest.map_values(
            |l: Seq<char>| trim_end(l),
        ) + seq![trim_end(ls.last())]);
    }
}

/// When every line of a value fits the width, wrapping it while keeping
/// its spacing changes nothing but trailing whitespace: the result is the
/// value's lines, each trimmed at the end (one empty line for none).
pub proof fn law_preserved_value_keeps_fitting_lines(value: Seq<char>, width: usize)
    requires
        forall|i: int|
            0 <= i < display_lines(value).len() ==> str_width(
                trim_end(#[trigger] display_lines(value)[i]),
            ) <= width,
    ensures
        preserved_value(value, width) == Some(
            if display_lines(value).len() == 0 {
                seq![seq![]]
            } else {
                display_lines(value).map_values(|l: Seq<char>| trim_end(l))
            },
        ),
{
    lemma_preserve_fitting_lines(display_lines(value), width);
}

/// `Some` of the lines `acc` followed by those of `o`, `None` if `o` is.
pub open spec fn prepend_lines(acc: Seq<Seq<char>>, o: Option<Seq<Seq<char>>>) -> Option<
    Seq<Seq<char>>,
> {
    match o {
        Some(rest) => Some(acc + rest),
        None => None,
    }
}

/// `v[from..]` trimmed at the front.
fn trimmed_tail(v: &Vec<char>, from: usize) -> (t: Vec<char>)
    requires
        from <= v.len(),
    ensures
        t@ == trim_start(v@.skip(from as int)),
{
    let i = skip_white_space(v, from, v.len());
    proof {
        let s = v@.skip(from as int);
        assert forall|k: int| 0 <= k < i - from implies #[trigger] is_white_space(s[k]) by {
            assert(s[k] == v@[k + from]);
        }
        if i < v.len() {
            assert(s[i - from] == v@[i as int]);
        }
        lemma_trim_start_at(s, i - from);
        assert(s.skip(i - from) =~= v@.subrange(i as int, v@.len() as int));
    }
    sub_chars(v, i, v.len())
}

/// `v[..to]` trimmed at the end.
fn trimmed_head(v: &Vec<char>, to: usize) -> (h: Vec<char>)
    requires
        to <= v.len(),
    ensures
        h@ == trim_end(v@.take(to as int)),
{
    let j = skip_white_space_back(v, 0, to);
    proof {
        let s = v@.take(to as int);
        assert forall|k: int| j <= k < s.len() implies #[trigger] is_white_space(s[k]) by {
            assert(s[k] == v@[k]);
        }
        if j > 0 {
            assert(s[j - 1] == v@[j - 1]);
        }
        lemma_trim_end_at(s, j as int);
        assert(s.take(j as int) =~= v@.subrange(0, j as int));
    }
    sub_chars(v, 0, j)
}

/// Wraps one line keeping its spacing; `None` when the wrapping would never
/// end.
fn preserve_wrap_line(raw: &Vec<char>, width: usize) -> (out: Option<Vec<String>>)
    ensures
        match out {
            Some(ls) => preserve_line(raw@, width) == Some(string_views(ls@)),
            None => preserve_line(raw@, width) is None,
        },
{
    let remaining0 = trimmed_head(raw, raw.len());
    proof {
        assert(raw@.take(raw@.len() as int) =~= raw@);
    }
    let mut lines: Vec<String> = Vec::new();
    if remaining0.len() == 0 {
        lines.push(String::new());
        proof {
            assert(string_views(lines@) =~= seq![Seq::<char>::empty()]);
        }
        return Some(lines);
    }
    let bullet_chars: Vec<char> = vec!['・', ' '];
    proof {
        assert(bullet_chars@ =~= bullet());
    }
    let is_bullet = starts_with_chars(raw, &bullet_chars);
    let mut remaining = remaining0;
    let mut first = true;
    loop
        invariant
            wrap_remainder_shape(remaining@, is_bullet, first),
            preserve_line(raw@, width) == prepend_lines(
                string_views(lines@),
                preserve_wrap_from(remaining@, width, is_bullet, first),
            ),
            is_bullet == has_prefix(raw@, bullet()),
        decreases remaining@.len() + (if first {
            3int
        } else {
            0int
        }),
    {
        let text = string_of(&remaining);
        if display_width(text.as_str()) <= width {
            let ghost before = string_views(lines@);
            lines.push(text);
            proof {
                assert(string_views(lines@) =~= before + seq![remaining@]);
            }
            return Some(lines);
        }
        let k: usize = match split_point_chars(&remaining, width) {
            Some(j) => j,
            None => remaining.len(),
        };
        let head = trimmed_head(&remaining, k);
        let tail = trimmed_tail(&remaining, k);
        let next: Vec<char> = if is_bullet && tail.len() > 0 {
            let mut n: Vec<char> = vec![' ', ' '];
            append_chars(&mut n, &tail);
            n
        } else {
            tail
        };
        proof {
            assert(next@ =~= wrap_rest(remaining@, width, is_bullet));
        }
        let head_text = string_of(&head);
        let ghost before = string_views(lines@);
        if next.len() == 0 {
            lines.push(head_text);
            proof {
                assert(string_views(lines@) =~= before + seq![head@]);
            }
            return Some(lines);
        }
        if crate::text::chars_equal(&next, &remaining) {
            return None;
        }
        proof {
            law_wrap_cut_progresses(remaining@, width, is_bullet, first);
        }
        lines.push(head_text);
        proof {
            assert(string_views(lines@) =~= before + seq![head@]);
            assert(before + (seq![head@] + Seq::<Seq<char>>::empty()) =~= string_views(lines@));
            let o = preserve_wrap_from(next@, width, is_bullet, false);
            if o is Some {
                assert(before + (seq![head@] + o->Some_0) =~= string_views(lines@) + o->Some_0);
            }
        }
        remaining = next;
        first = false;
    }
}

/// Wraps a value keeping the spacing inside its lines; `None` when the
/// wrapping of some line would never end.
fn wrap_preserving_spaces_checked(value: &str, width: usize) -> (out: Option<Vec<String>>)
    ensures
        match out {
            Some(ls) => preserved_value(value@, width) == Some(string_views(ls@)),
            None => preserved_value(value@, width) is None,
        },
{
    let ls = display_lines_of(value);
    let mut out: Vec<String> = Vec::new();
    let mut i: usize = 0;
    while i < ls.len()
        invariant
            i <= ls.len(),
            preserve_all_lines(char_views(ls@).take(i as int), width) == Some(string_views(out@)),
            char_views(ls@) == display_lines(value@),
        decreases ls.len() - i,
    {
        proof {
            assert(char_views(ls@).take(i + 1).drop_last() =~= char_views(ls@).take(i as int));
            assert(char_views(ls@).take(i + 1).last() == ls@[i as int]@);
        }
        match preserve_wrap_line(&ls[i], width) {
            Some(piece) => {
                append_strings(&mut out, &piece);
            },
            None => {
                proof {
                    lemma_preserve_all_none(char_views(ls@), i + 1, width);
                    assert(char_views(ls@).take(ls@.len() as int) =~= char_views(ls@));
                }
                return None;
            },
        }
        i = i + 1;
    }
    proof {
        assert(char_views(ls@).take(ls@.len() as int) =~= char_views(ls@));
    }
    if out.len() == 0 {
        out.push(String::new());
        proof {
            assert(string_views(out@) =~= seq![Seq::<char>::empty()]);
        }
    }
    Some(out)
}

/// Whether wrapping `value` at `width` columns while keeping its spacing
/// finishes.
pub fn preserving_wrap_finishes(value: &str, width: usize) -> (b: bool)
    ensures
        b == preserved_value(value@, width) is Some,
{
    wrap_preserving_spaces_checked(value, width).is_some()
}

/// Once a prefix of the lines fails to finish wrapping, so do all lines.
proof fn lemma_preserve_all_none(ls: Seq<Seq<char>>, i: int, width: usize)
    requires
        0 <= i <= ls.len(),
        preserve_all_lines(ls.take(i), width) is None,
    ensures
        preserve_all_lines(ls, width) is None,
    decreases ls.len() - i,
{
    if i < ls.len() {
        assert(ls.take(i + 1).drop_last() =~= ls.take(i));
        lemma_preserve_all_none(ls, i + 1, width);
    } else {
        assert(ls.take(i) =~= ls);
    }
}

/// Wraps a value to `width` columns without collapsing the spaces inside
/// its lines (the radio-wave rows are aligned with spaces). Each too-wide
/// line is cut where `split_at_width` says; continuation lines of a bullet
/// row are indented by two spaces.
pub fn wrap_preserving_spaces(value: &str, width: usize) -> (out: Vec<String>)
    requires
        preserved_value(value@, width) is Some,
    ensures
        preserved_value(value@, width) == Some(string_views(out@)),
{
    match wrap_preserving_spaces_checked(value, width) {
        Some(ls) => ls,
        None => {
            proof {
                assert(false);
            }
            Vec::new()
        },
    }
}

} // verus!
