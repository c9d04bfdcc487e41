//! The radio-wave column of a certification record (`elecWave`): dense API
//! text such as `Ｇ１Ｄ　2412～2472ＭＨz 6.4mW/MHz` split into rows of
//! radio type and frequency, power value and power unit, with the power
//! columns aligned.

use vstd::prelude::*;
use crate::external::{regex_compiles, regex_pattern_compiles, regex_replace_all, regex_replaced, str_width, display_width};
use crate::text::{
    append_str, char_views, chars_equal, chars_of, ends_with_chars, has_prefix, has_suffix,
    is_white_space, is_whitespace_char, join, join_chars, string_of, sub_chars, trim, trim_chars,
    words, words_of,
};
use crate::wrap::{bullet, display_lines, padded_left, pad_left, push_spaces, sat_sub, spaces};

verus! {

broadcast use vstd::string::group_string_axioms;

// ---------------------------------------------------------------------------
// Spacing
// ---------------------------------------------------------------------------

/// A space after each comma that is directly followed by something other
/// than whitespace or another comma.
pub open spec fn comma_spaced(s: Seq<char>) -> Seq<char>
    decreases s.len(),
{
    if s.len() == 0 {
        seq![]
    } else if s[0] == ',' && s.len() > 1 && !is_white_space(s[1]) && s[1] != ',' {
        seq![',', ' '] + comma_spaced(s.drop_first())
    } else {
        seq![s[0]] + comma_spaced(s.drop_first())
    }
}

proof fn lemma_comma_spaced_first(s: Seq<char>)
    requires
        s.len() > 0,
    ensures
        comma_spaced(s).len() > 0,
        comma_spaced(s)[0] == s[0],
{
}

/// Spacing commas a second time changes nothing.
pub proof fn law_comma_spacing_idempotent(s: Seq<char>)
    ensures
        comma_spaced(comma_spaced(s)) == comma_spaced(s),
    decreases s.len(),
{
    if s.len() > 0 {
        let rest = s.drop_first();
        law_comma_spacing_idempotent(rest);
        let once = comma_spaced(s);
        if s[0] == ',' && s.len() > 1 && !is_white_space(s[1]) && s[1] != ',' {
            let tail = seq![' '] + comma_spaced(rest);
            assert(once.drop_first() =~= tail);
            assert(tail.drop_first() =~= comma_spaced(rest));
            assert(comma_spaced(tail) == seq![' '] + comma_spaced(comma_spaced(rest)));
            assert(comma_spaced(once) =~= once);
        } else {
            assert(once.drop_first() =~= comma_spaced(rest));
            if rest.len() > 0 {
                lemma_comma_spaced_first(rest);
                assert(once[1] == rest[0]);
            }
            assert(comma_spaced(once) =~= once);
        }
    }
}

/// Inserts a space after each comma that runs into the next item.
pub fn add_space_after_commas(value: &str) -> (out: String)
    ensures
        out@ == comma_spaced(value@),
{
    let v = chars_of(value);
    let mut out: Vec<char> = Vec::new();
    let mut i: usize = 0;
    proof {
        assert(v@.skip(0) =~= v@);
    }
    while i < v.len()
        invariant
            i <= v.len(),
            out@ + comma_spaced(v@.skip(i as int)) == comma_spaced(v@),
            v@ == value@,
        decreases v.len() - i,
    {
        let ghost rest = v@.skip(i as int);
        let ghost before = out@;
        proof {
            assert(rest.drop_first() =~= v@.skip(i + 1));
            assert(rest[0] == v@[i as int]);
            if rest.len() > 1 {
                assert(rest[1] == v@[i + 1]);
            }
        }
        let character = v[i];
        out.push(character);
        if character == ',' && i + 1 < v.len() && !is_whitespace_char(v[i + 1]) && v[i + 1] != ',' {
            out.push(' ');
            proof {
                assert(before + (seq![',', ' '] + comma_spaced(rest.drop_first())) =~= out@
                    + comma_spaced(v@.skip(i + 1)));
            }
        } else {
            proof {
                assert(before + (seq![rest[0]] + comma_spaced(rest.drop_first())) =~= out@
                    + comma_spaced(v@.skip(i + 1)));
            }
        }
        i = i + 1;
    }
    proof {
        assert(v@.skip(i as int) =~= Seq::<char>::empty());
        assert(out@ + Seq::<char>::empty() =~= out@);
    }
    string_of(&out)
}

/// The regex for a number run into its unit, such as `2402MHz` (the unit
/// must not be followed by a letter).
pub const NUMBER_UNIT_PATTERN: &'static str = r"(?P<prefix>^|[^A-Za-z])(?P<number>\d(?:[\d.]*\d)?)(?P<unit>mW/MHz|W/MHz|GHz|MHz|kHz|mW|W|dBm)(?P<suffix>[^A-Za-z]|$)";

/// The replacement that puts a space between the number and the unit.
pub const NUMBER_UNIT_REPLACEMENT: &'static str = "$prefix$number $unit$suffix";

/// The regex for a spaced frequency step such as `20 MHz間隔`.
pub const INTERVAL_UNIT_PATTERN: &'static str = r"(?P<number>\d(?:[\d.]*\d)?) (?P<unit>GHz|MHz|kHz)間隔";

/// The replacement that joins a frequency step back to `20MHz間隔`.
pub const INTERVAL_UNIT_REPLACEMENT: &'static str = "$number$unit間隔";

/// Both spacing regexes compile.
pub open spec fn unit_patterns_compile() -> bool {
    regex_compiles(NUMBER_UNIT_PATTERN@) && regex_compiles(INTERVAL_UNIT_PATTERN@)
}

/// Whether both spacing regexes compile.
pub fn check_unit_patterns() -> (ok: bool)
    ensures
        ok == unit_patterns_compile(),
{
    regex_pattern_compiles(NUMBER_UNIT_PATTERN) && regex_pattern_compiles(INTERVAL_UNIT_PATTERN)
}

/// Up to `rounds` rounds of number-unit spacing, stopping at the first
/// round that changes nothing.
pub open spec fn unit_spacing_rounds(s: Seq<char>, rounds: nat) -> Seq<char>
    decreases rounds,
{
    if rounds == 0 {
        s
    } else {
        let next = regex_replaced(NUMBER_UNIT_PATTERN@, s, NUMBER_UNIT_REPLACEMENT@);
        if next == s {
            s
        } else {
            unit_spacing_rounds(next, (rounds - 1) as nat)
        }
    }
}

/// A frequency step with the space before its unit removed.
pub open spec fn interval_joined(s: Seq<char>) -> Seq<char> {
    regex_replaced(INTERVAL_UNIT_PATTERN@, s, INTERVAL_UNIT_REPLACEMENT@)
}

/// Numbers and units spaced apart (four rounds at most, since one match
/// can hide the next), frequency steps joined again.
pub open spec fn unit_spaced(s: Seq<char>) -> Seq<char> {
    interval_joined(unit_spacing_rounds(s, 4))
}

/// Joins frequency steps such as `20 MHz間隔` back to `20MHz間隔`.
pub fn remove_space_before_interval_unit(value: &str) -> (out: String)
    requires
        unit_patterns_compile(),
    ensures
        out@ == interval_joined(value@),
{
    regex_replace_all(INTERVAL_UNIT_PATTERN, value, INTERVAL_UNIT_REPLACEMENT)
}

/// Puts a space between each number and the power or frequency unit run
/// into it, keeping frequency steps (`20MHz間隔`) joined.
pub fn add_space_between_number_and_unit(value: &str) -> (out: String)
    requires
        unit_patterns_compile(),
    ensures
        out@ == unit_spaced(value@),
{
    let mut current = string_of(&chars_of(value));
    let mut round: usize = 0;
    while round < 4
        invariant
            round <= 4,
            unit_patterns_compile(),
            unit_spacing_rounds(value@, 4) == unit_spacing_rounds(current@, (4 - round) as nat),
        decreases 4 - round,
    {
        let next = regex_replace_all(NUMBER_UNIT_PATTERN, current.as_str(), NUMBER_UNIT_REPLACEMENT);
        if chars_equal(&chars_of(next.as_str()), &chars_of(current.as_str())) {
            return remove_space_before_interval_unit(current.as_str());
        }
        current = next;
        round = round + 1;
    }
    remove_space_before_interval_unit(current.as_str())
}

// ---------------------------------------------------------------------------
// Power values and units
// ---------------------------------------------------------------------------

/// A power value: at least one digit, and only digits, `.`, `~` and `-`.
pub open spec fn power_number(s: Seq<char>) -> bool {
    &&& exists|i: int| 0 <= i < s.len() && '0' <= #[trigger] s[i] <= '9'
    &&& forall|i: int|
        0 <= i < s.len() ==> ('0' <= #[trigger] s[i] <= '9' || s[i] == '.' || s[i] == '~' || s[i]
            == '-')
}

/// Whether `value` is a power value.
pub fn is_power_number(value: &str) -> (b: bool)
    ensures
        b == power_number(value@),
{
    let v = chars_of(value);
    let mut any_digit = false;
    let mut i: usize = 0;
    while i < v.len()
        invariant
            i <= v.len(),
            v@ == value@,
            any_digit <==> exists|k: int| 0 <= k < i && '0' <= #[trigger] v@[k] <= '9',
            forall|k: int|
                0 <= k < i ==> ('0' <= #[trigger] v@[k] <= '9' || v@[k] == '.' || v@[k] == '~'
                    || v@[k] == '-'),
        decreases v.len() - i,
    {
        let c = v[i];
        let is_digit = '0' <= c && c <= '9';
        if !(is_digit || c == '.' || c == '~' || c == '-') {
            return false;
        }
        if is_digit {
            any_digit = true;
        }
        i = i + 1;
    }
    any_digit
}

/// The power units, in the order a run-together token is tried against them.
pub open spec fn compact_units() -> Seq<Seq<char>> {
    seq!["mW/MHz"@, "W/MHz"@, "dBm"@, "mW"@, "W"@]
}

/// A power unit.
pub open spec fn power_unit(s: Seq<char>) -> bool {
    s == "mW/MHz"@ || s == "W/MHz"@ || s == "mW"@ || s == "W"@ || s == "dBm"@
}

/// Whether `value` is a power unit.
pub fn is_power_unit(value: &str) -> (b: bool)
    ensures
        b == power_unit(value@),
{
    let v = chars_of(value);
    chars_equal(&v, &chars_of("mW/MHz")) || chars_equal(&v, &chars_of("W/MHz")) || chars_equal(
        &v,
        &chars_of("mW"),
    ) || chars_equal(&v, &chars_of("W")) || chars_equal(&v, &chars_of("dBm"))
}

/// The split of a token like `6.4mW/MHz` into power value and unit, trying
/// the units in order.
pub open spec fn compact_power_from(value: Seq<char>, units: Seq<Seq<char>>) -> Option<
    (Seq<char>, Seq<char>),
>
    decreases units.len(),
{
    if units.len() == 0 {
        None
    } else {
        let u = units[0];
        if has_suffix(value, u) && power_number(value.take(value.len() - u.len())) {
            Some((value.take(value.len() - u.len()), u))
        } else {
            compact_power_from(value, units.drop_first())
        }
    }
}

/// The split of a run-together power token into value and unit.
pub open spec fn compact_power(value: Seq<char>) -> Option<(Seq<char>, Seq<char>)> {
    compact_power_from(value, compact_units())
}

/// The text pair an optional pair of strings holds.
pub open spec fn pair_view(o: Option<(String, String)>) -> Option<(Seq<char>, Seq<char>)> {
    match o {
        Some((a, b)) => Some((a@, b@)),
        None => None,
    }
}

/// Splits a run-together power token such as `6.4mW/MHz` into value and
/// unit.
pub fn split_compact_power_token(value: &str) -> (r: Option<(String, String)>)
    ensures
        pair_view(r) == compact_power(value@),
{
    let v = chars_of(value);
    let units: Vec<&str> = vec!["mW/MHz", "W/MHz", "dBm", "mW", "W"];
    let ghost all = compact_units();
    proof {
        assert(all[0] == units@[0]@);
        assert(all[1] == units@[1]@);
        assert(all[2] == units@[2]@);
        assert(all[3] == units@[3]@);
        assert(all[4] == units@[4]@);
        assert(all.skip(0) =~= all);
    }
    let mut i: usize = 0;
    while i < units.len()
        invariant
            i <= units.len() == 5 == all.len(),
            v@ == value@,
            forall|k: int| 0 <= k < 5 ==> all[k] == #[trigger] units@[k]@,
            compact_power(value@) == compact_power_from(value@, all.skip(i as int)),
        decreases units.len() - i,
    {
        let unit = units[i];
        let u = chars_of(unit);
        proof {
            assert(all.skip(i as int)[0] == u@);
            assert(all.skip(i as int).drop_first() =~= all.skip(i + 1));
        }
        if ends_with_chars(&v, &u) {
            let number = string_of(&sub_chars(&v, 0, v.len() - u.len()));
            proof {
                assert(v@.subrange(0, v@.len() - u@.len()) =~= v@.take(v@.len() - u@.len()));
            }
            if is_power_number(number.as_str()) {
                return Some((number, string_of(&u)));
            }
        }
        i = i + 1;
    }
    proof {
        assert(all.skip(5) =~= Seq::<Seq<char>>::empty());
    }
    None
}

// ---------------------------------------------------------------------------
// Rows
// ---------------------------------------------------------------------------

/// One row of the radio-wave column.
pub enum ElecWaveRow {
    /// Radio type and frequency, then a power value and unit.
    WithPower { prefix: String, power_value: String, power_unit: String },
    /// A row without a recognisable power.
    Plain(String),
}

/// What an `ElecWaveRow` holds, as plain values.
pub enum ElecWaveRowView {
    WithPower { prefix: Seq<char>, power_value: Seq<char>, power_unit: Seq<char> },
    Plain(Seq<char>),
}

impl ElecWaveRow {
    pub open spec fn view(&self) -> ElecWaveRowView {
        match self {
            ElecWaveRow::WithPower { prefix, power_value, power_unit } => ElecWaveRowView::WithPower {
                prefix: prefix@,
                power_value: power_value@,
                power_unit: power_unit@,
            },
            ElecWaveRow::Plain(line) => ElecWaveRowView::Plain(line@),
        }
    }
}

/// The tokens of a radio-wave line once commas and units are spaced out.
pub open spec fn elec_wave_tokens(line: Seq<char>) -> Seq<Seq<char>> {
    words(unit_spaced(comma_spaced(line)))
}

/// The row a radio-wave line becomes: a trailing power value and unit
/// (given as two tokens, or run together in the last token) are split off
/// the rest of the line.
pub open spec fn elec_wave_row_of(line: Seq<char>) -> ElecWaveRowView {
    let t = elec_wave_tokens(line);
    let n = t.len();
    if n >= 3 && power_number(t[n - 2]) && power_unit(t[n - 1]) {
        ElecWaveRowView::WithPower {
            prefix: join(t.take(n - 2), seq![' ']),
            power_value: t[n - 2],
            power_unit: t[n - 1],
        }
    } else if n >= 1 {
        let prefix = join(t.take(n - 1), seq![' ']);
        match compact_power(t[n - 1]) {
            Some((v, u)) => if prefix.len() > 0 {
                ElecWaveRowView::WithPower { prefix, power_value: v, power_unit: u }
            } else {
                ElecWaveRowView::Plain(join(t, seq![' ']))
            },
            None => ElecWaveRowView::Plain(join(t, seq![' '])),
        }
    } else {
        ElecWaveRowView::Plain(seq![])
    }
}

fn strings_of(vs: &Vec<Vec<char>>, from: usize, to: usize) -> (r: Vec<Vec<char>>)
    requires
        from <= to <= vs.len(),
    ensures
        char_views(r@) == char_views(vs@).subrange(from as int, to as int),
{
    let mut r: Vec<Vec<char>> = Vec::new();
    let mut k = from;
    while k < to
        invariant
            from <= k <= to <= vs.len(),
            char_views(r@) =~= char_views(vs@).subrange(from as int, k as int),
        decreases to - k,
    {
        let ghost before = r@;
        r.push(sub_chars(&vs[k], 0, vs[k].len()));
        proof {
            assert(vs@[k as int]@.subrange(0, vs@[k as int]@.len() as int) =~= vs@[k as int]@);
            assert(r@ =~= before.push(r@.last()));
            assert(char_views(r@) =~= char_views(before).push(vs@[k as int]@));
        }
        k = k + 1;
    }
    r
}

/// Splits the trailing power value and unit off a radio-wave line.
pub fn split_elec_wave_power(line: &str) -> (row: ElecWaveRow)
    requires
        unit_patterns_compile(),
    ensures
        row.view() == elec_wave_row_of(line@),
{
    let commas = add_space_after_commas(line);
    let spaced = add_space_between_number_and_unit(commas.as_str());
    let spaced_chars = chars_of(spaced.as_str());
    let tokens = words_of(&spaced_chars);
    let ghost t = char_views(tokens@);
    let n = tokens.len();
    let space: Vec<char> = vec![' '];
    proof {
        assert(space@ =~= seq![' ']);
    }
    if n >= 3 {
        let number = string_of(&tokens[n - 2]);
        let unit = string_of(&tokens[n - 1]);
        proof {
            assert(t[n - 2] == number@);
            assert(t[n - 1] == unit@);
        }
        if is_power_number(number.as_str()) && is_power_unit(unit.as_str()) {
            let head = strings_of(&tokens, 0, n - 2);
            proof {
                assert(t.subrange(0, n - 2) =~= t.take(n - 2));
            }
            let prefix = string_of(&join_chars(&head, &space));
            return ElecWaveRow::WithPower { prefix, power_value: number, power_unit: unit };
        }
    }
    if n >= 1 {
        let head = strings_of(&tokens, 0, n - 1);
        proof {
            assert(t.subrange(0, n - 1) =~= t.take(n - 1));
        }
        let prefix = join_chars(&head, &space);
        let last = string_of(&tokens[n - 1]);
        proof {
            assert(t[n - 1] == last@);
        }
        match split_compact_power_token(last.as_str()) {
            Some((power_value, power_unit)) => {
                if prefix.len() > 0 {
                    return ElecWaveRow::WithPower {
                        prefix: string_of(&prefix),
                        power_value,
                        power_unit,
                    };
                }
            },
            None => {},
        }
        ElecWaveRow::Plain(string_of(&join_chars(&tokens, &space)))
    } else {
        ElecWaveRow::Plain(String::new())
    }
}

/// The rows of a radio-wave value: its non-blank lines, trimmed, each
/// split into a row.
pub open spec fn elec_wave_rows_of(ls: Seq<Seq<char>>) -> Seq<ElecWaveRowView>
    decreases ls.len(),
{
    if ls.len() == 0 {
        seq![]
    } else {
        let t = trim(ls.last());
        elec_wave_rows_of(ls.drop_last()) + (if t.len() == 0 {
            seq![]
        } else {
            seq![elec_wave_row_of(t)]
        })
    }
}

/// The views of a vector of rows.
pub open spec fn row_views(rows: Seq<ElecWaveRow>) -> Seq<ElecWaveRowView> {
    rows.map_values(|r: ElecWaveRow| r.view())
}

/// Splits a radio-wave value into rows.
pub fn elec_wave_rows(value: &str) -> (rows: Vec<ElecWaveRow>)
    requires
        unit_patterns_compile(),
    ensures
        row_views(rows@) == elec_wave_rows_of(display_lines(value@)),
{
    let normalized = crate::wrap::normalize_display_text(value);
    let chars = chars_of(normalized.as_str());
    let ls = crate::text::lines_of(&chars);
    let ghost lv = char_views(ls@);
    let mut rows: Vec<ElecWaveRow> = Vec::new();
    let mut i: usize = 0;
    while i < ls.len()
        invariant
            i <= ls.len(),
            unit_patterns_compile(),
            lv == char_views(ls@),
            row_views(rows@) == elec_wave_rows_of(lv.take(i as int)),
        decreases ls.len() - i,
    {
        proof {
            assert(lv.take(i + 1).drop_last() =~= lv.take(i as int));
            assert(lv.take(i + 1).last() == ls@[i as int]@);
        }
        let t = trim_chars(&ls[i]);
        if t.len() > 0 {
            let text = string_of(&t);
            let row = split_elec_wave_power(text.as_str());
            let ghost before = rows@;
            let ghost rv = row.view();
            rows.push(row);
            proof {
                assert(rows@ =~= before.push(rows@.last()));
                assert(row_views(rows@) =~= row_views(before) + seq![rv]);
            }
        } else {
            proof {
                assert(row_views(rows@) + Seq::<ElecWaveRowView>::empty() =~= row_views(rows@));
            }
        }
        i = i + 1;
    }
    proof {
        assert(lv.take(ls@.len() as int) =~= lv);
    }
    rows
}


// ---------------------------------------------------------------------------
// Formatting
// ---------------------------------------------------------------------------

/// A row as shown: after a bullet, the prefix padded to `prefix_column`
/// columns, two spaces, the power value right-aligned in
/// `power_value_column` columns, a space and the unit.
pub open spec fn formatted_row(row: ElecWaveRowView, prefix_column: usize, power_value_column: usize) -> Seq<char> {
    match row {
        ElecWaveRowView::WithPower { prefix, power_value, power_unit } => bullet() + prefix + spaces(
            sat_sub(prefix_column as int, str_width(prefix) as int),
        ) + seq![' ', ' '] + padded_left(power_value, power_value_column) + seq![' '] + power_unit,
        ElecWaveRowView::Plain(line) => bullet() + line,
    }
}

/// A formatted radio-wave line is the bullet and then: for a row with a
/// power, its prefix, only spaces (two, plus what pads the prefix to the
/// prefix column), and at the end the power value left-padded with spaces
/// to the value column, one space and the power unit; for a plain row, its
/// text.
pub proof fn law_formatted_row_parts(row: ElecWaveRowView, prefix_column: usize, power_value_column: usize)
    ensures
        has_prefix(formatted_row(row, prefix_column, power_value_column), bullet()),
        match row {
            ElecWaveRowView::WithPower { prefix, power_value, power_unit } => {
                let line = formatted_row(row, prefix_column, power_value_column);
                let tail = spaces(sat_sub(power_value_column as int, str_width(power_value) as int))
                    + power_value + seq![' '] + power_unit;
                let gap = sat_sub(prefix_column as int, str_width(prefix) as int) + 2;
                &&& has_prefix(line.skip(2), prefix)
                &&& has_suffix(line, tail)
                &&& line.len() == 2 + prefix.len() + gap + tail.len()
                &&& forall|i: int|
                    2 + prefix.len() <= i < 2 + prefix.len() + gap ==> #[trigger] line[i] == ' '
            },
            ElecWaveRowView::Plain(text) => formatted_row(row, prefix_column, power_value_column)
                == bullet() + text,
        },
{
    let line = formatted_row(row, prefix_column, power_value_column);
    match row {
        ElecWaveRowView::WithPower { prefix, power_value, power_unit } => {
            let pad = spaces(sat_sub(prefix_column as int, str_width(prefix) as int));
            let tail = spaces(sat_sub(power_value_column as int, str_width(power_value) as int))
                + power_value + seq![' '] + power_unit;
            let mid = pad + seq![' ', ' '];
            assert(line =~= bullet() + prefix + mid + tail);
            assert(line.take(2) =~= bullet());
            assert(line.skip(2).take(prefix.len() as int) =~= prefix);
            assert(line.skip(line.len() - tail.len()) =~= tail);
            assert forall|i: int|
                2 + prefix.len() <= i < 2 + prefix.len() + mid.len() implies #[trigger] line[i]
                == ' ' by {
                assert(line[i] == mid[i - 2 - prefix.len()]);
            }
        },
        ElecWaveRowView::Plain(text) => {
            assert(line.take(2) =~= bullet());
        },
    }
}

/// Formats one radio-wave row for the given column widths.
pub fn format_elec_wave_row(row: ElecWaveRow, prefix_column: usize, power_value_column: usize) -> (text: String)
    ensures
        text@ == formatted_row(row.view(), prefix_column, power_value_column),
{
    let mut out: Vec<char> = vec!['・', ' '];
    proof {
        assert(out@ =~= bullet());
    }
    match row {
        ElecWaveRow::WithPower { prefix, power_value, power_unit } => {
            let prefix_padding = prefix_column.saturating_sub(display_width(prefix.as_str()));
            append_str(&mut out, prefix.as_str());
            push_spaces(&mut out, prefix_padding);
            out.push(' ');
            out.push(' ');
            let value = pad_left(power_value.as_str(), power_value_column);
            append_str(&mut out, value.as_str());
            out.push(' ');
            append_str(&mut out, power_unit.as_str());
            proof {
                assert(out@ =~= formatted_row(
                    ElecWaveRowView::WithPower {
                        prefix: prefix@,
                        power_value: power_value@,
                        power_unit: power_unit@,
                    },
                    prefix_column,
                    power_value_column,
                ));
            }
        },
        ElecWaveRow::Plain(line) => {
            append_str(&mut out, line.as_str());
        },
    }
    string_of(&out)
}

/// The widest prefix among the rows with a power, in display columns.
pub open spec fn prefix_column_of(rows: Seq<ElecWaveRowView>) -> nat
    decreases rows.len(),
{
    if rows.len() == 0 {
        0
    } else {
        let rest = prefix_column_of(rows.drop_last());
        match rows.last() {
            ElecWaveRowView::WithPower { prefix, .. } => if str_width(prefix) > rest {
                str_width(prefix)
            } else {
                rest
            },
            ElecWaveRowView::Plain(_) => rest,
        }
    }
}

/// The widest power value among the rows with a power, in display columns.
pub open spec fn power_value_column_of(rows: Seq<ElecWaveRowView>) -> nat
    decreases rows.len(),
{
    if rows.len() == 0 {
        0
    } else {
        let rest = power_value_column_of(rows.drop_last());
        match rows.last() {
            ElecWaveRowView::WithPower { power_value, .. } => if str_width(power_value) > rest {
                str_width(power_value)
            } else {
                rest
            },
            ElecWaveRowView::Plain(_) => rest,
        }
    }
}

/// The formatted rows, in order.
pub open spec fn formatted_rows(rows: Seq<ElecWaveRowView>, prefix_column: usize, power_value_column: usize) -> Seq<Seq<char>> {
    rows.map_values(|r: ElecWaveRowView| formatted_row(r, prefix_column, power_value_column))
}

/// The radio-wave column as shown: one bulleted line per row, prefixes and
/// power values padded to the widest of them.
pub open spec fn formatted_elec_wave(value: Seq<char>) -> Seq<char> {
    let rows = elec_wave_rows_of(display_lines(value));
    join(
        formatted_rows(rows, prefix_column_of(rows) as usize, power_value_column_of(rows) as usize),
        seq!['\n'],
    )
}

/// Formats the radio-wave column of a record.
pub fn format_elec_wave(value: &str) -> (text: String)
    requires
        unit_patterns_compile(),
    ensures
        text@ == formatted_elec_wave(value@),
{
    let rows = elec_wave_rows(value);
    let ghost rv = row_views(rows@);
    let mut prefix_column: usize = 0;
    let mut power_value_column: usize = 0;
    let mut i: usize = 0;
    while i < rows.len()
        invariant
            i <= rows.len(),
            rv == row_views(rows@),
            prefix_column == prefix_column_of(rv.take(i as int)),
            power_value_column == power_value_column_of(rv.take(i as int)),
        decreases rows.len() - i,
    {
        proof {
            assert(rv.take(i + 1).drop_last() =~= rv.take(i as int));
            assert(rv.take(i + 1).last() == rows@[i as int].view());
        }
        match &rows[i] {
            ElecWaveRow::WithPower { prefix, power_value, .. } => {
                let w = display_width(prefix.as_str());
                if w > prefix_column {
                    prefix_column = w;
                }
                let w = display_width(power_value.as_str());
                if w > power_value_column {
                    power_value_column = w;
                }
            },
            ElecWaveRow::Plain(_) => {},
        }
        i = i + 1;
    }
    proof {
        assert(rv.take(rows@.len() as int) =~= rv);
    }
    let ghost formatted = formatted_rows(rv, prefix_column, power_value_column);
    let mut lines: Vec<Vec<char>> = Vec::new();
    let mut rows = rows;
    let n = rows.len();
    let mut rev: Vec<Vec<char>> = Vec::new();
    let mut k: usize = 0;
    // Format from the last row backwards, then restore the order.
    while k < n
        invariant
            k <= n == rv.len(),
            rows.len() == n - k,
            forall|m: int| 0 <= m < rows.len() ==> #[trigger] rows@[m].view() == rv[m],
            rev.len() == k,
            forall|m: int| 0 <= m < k ==> #[trigger] rev@[m]@ == formatted[n - 1 - m],
            formatted == formatted_rows(rv, prefix_column, power_value_column),
        decreases n - k,
    {
        let row = rows.pop().unwrap();
        proof {
            assert(row.view() == rv[n - 1 - k]);
        }
        let text = format_elec_wave_row(row, prefix_column, power_value_column);
        rev.push(chars_of(text.as_str()));
        k = k + 1;
    }
    let mut j: usize = 0;
    while j < n
        invariant
            j <= n == rv.len(),
            rev.len() == n - j,
            forall|m: int| 0 <= m < rev.len() ==> #[trigger] rev@[m]@ == formatted[n - 1 - m],
            char_views(lines@) =~= formatted.take(j as int),
            formatted.len() == n,
        decreases n - j,
    {
        let line = rev.pop().unwrap();
        proof {
            assert(line@ == formatted[j as int]);
        }
        let ghost before = lines@;
        lines.push(line);
        proof {
            assert(lines@ =~= before.push(line));
            assert(char_views(lines@) =~= char_views(before).push(line@));
            assert(formatted.take(j + 1) =~= formatted.take(j as int).push(formatted[j as int]));
            assert(char_views(lines@) =~= formatted.take(j + 1));
        }
        j = j + 1;
    }
    proof {
        assert(formatted.take(n as int) =~= formatted);
    }
    let newline: Vec<char> = vec!['\n'];
    proof {
        assert(newline@ =~= seq!['\n']);
    }
    string_of(&join_chars(&lines, &newline))
}

/// The power columns of the radio-wave column line up: every row with a
/// power has its prefix padded exactly to the common prefix column and its
/// value padded exactly to the common value column, so the units of all
/// rows start at the same column.
pub proof fn law_power_columns_align(value: Seq<char>, i: int)
    requires
        0 <= i < elec_wave_rows_of(display_lines(value)).len(),
        elec_wave_rows_of(display_lines(value))[i] is WithPower,
    ensures
        ({
            let rows = elec_wave_rows_of(display_lines(value));
            let row = rows[i];
            str_width(row->prefix) + sat_sub(prefix_column_of(rows) as int, str_width(row->prefix) as int)
                == prefix_column_of(rows) && str_width(row->power_value) + sat_sub(
                power_value_column_of(rows) as int,
                str_width(row->power_value) as int,
            ) == power_value_column_of(rows)
        }),
{
    let rows = elec_wave_rows_of(display_lines(value));
    lemma_columns_bound(rows, i);
}

proof fn lemma_columns_bound(rows: Seq<ElecWaveRowView>, i: int)
    requires
        0 <= i < rows.len(),
        rows[i] is WithPower,
    ensures
        str_width(rows[i]->prefix) <= prefix_column_of(rows),
        str_width(rows[i]->power_value) <= power_value_column_of(rows),
    decreases rows.len(),
{
    if i < rows.len() - 1 {
        lemma_columns_bound(rows.drop_last(), i);
        assert(rows.drop_last()[i] == rows[i]);
    }
}

} // verus!
