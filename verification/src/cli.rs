//! The search and attachment options of the command line, and how they
//! become API query parameters.

use vstd::prelude::*;
use crate::api::{ListQuery, FileQuery};
use crate::text::{append_chars, chars_of, opt_view, replace, string_of, sub_chars};

verus! {

broadcast use vstd::string::group_string_axioms;

/// The output format the API is asked for (`OF`).
#[derive(Clone, Copy, Debug, PartialEq, Eq, Structural)]
pub enum ApiFormat {
    Csv,
    Json,
    Xml,
}

/// The API's code for a format: CSV 1, JSON 2, XML 3.
pub open spec fn format_code(format: ApiFormat) -> u8 {
    match format {
        ApiFormat::Csv => 1,
        ApiFormat::Json => 2,
        ApiFormat::Xml => 3,
    }
}

impl ApiFormat {
    /// The API's code for this format.
    pub fn as_code(self) -> (code: u8)
        ensures
            code == format_code(self),
    {
        match self {
            ApiFormat::Csv => 1,
            ApiFormat::Json => 2,
            ApiFormat::Xml => 3,
        }
    }
}

/// The options of a search.
pub struct SearchArgs {
    /// The certification number given as the positional argument.
    pub number_arg: Option<String>,
    /// The certification number given with `--number`.
    pub number: Option<String>,
    pub name: Option<String>,
    pub model_name: Option<String>,
    pub organ_code: Option<String>,
    pub from_date: Option<String>,
    pub to_date: Option<String>,
    pub radio_equipment_code: Option<String>,
    pub tech_code: Option<String>,
    pub attachments: bool,
    pub body_sar: bool,
    /// How many records to show, 1 to 1000.
    pub limit: u16,
    pub offset: u32,
    /// The API sort key, 1 to 22.
    pub sort: u8,
    pub api_format: ApiFormat,
    pub json: bool,
}

/// The options of an attachment download.
pub struct FileArgs {
    pub attachment_key: String,
    /// `AFT`, 1 or 2.
    pub attachment_type: Option<u8>,
    /// `AFN`, 1 to 99; only meaningful together with a type.
    pub attachment_number: Option<u8>,
    /// The directory to save into.
    pub output: String,
}

/// Why options were refused.
#[derive(Clone, Copy, Debug, PartialEq, Eq, Structural)]
pub enum CliError {
    /// A search was asked for with no condition at all.
    NoSearchCondition,
    /// An attachment number was given without an attachment type.
    NumberWithoutType,
}

impl CliError {
    /// The message shown for this error.
    pub fn message(&self) -> (text: &'static str)
        ensures
            *self == CliError::NoSearchCondition ==> text@
                == "At least one search condition is required. Example: giteki --name Ubiquiti"@,
            *self == CliError::NumberWithoutType ==> text@ == "--type is required when --number is set"@,
    {
        match self {
            CliError::NoSearchCondition => "At least one search condition is required. Example: giteki --name Ubiquiti",
            CliError::NumberWithoutType => "--type is required when --number is set",
        }
    }
}

/// The search names at least one condition.
pub open spec fn has_search_criteria(args: SearchArgs) -> bool {
    ||| args.number_arg is Some
    ||| args.number is Some
    ||| args.name is Some
    ||| args.model_name is Some
    ||| args.organ_code is Some
    ||| args.from_date is Some
    ||| args.to_date is Some
    ||| args.radio_equipment_code is Some
    ||| args.tech_code is Some
    ||| args.attachments
    ||| args.body_sar
}

/// The text an optional borrowed string holds.
pub open spec fn opt_str_view(o: Option<&str>) -> Option<Seq<char>> {
    match o {
        Some(s) => Some(s@),
        None => None,
    }
}

/// `Option::as_deref` on an optional `String`.
fn opt_as_str(o: &Option<String>) -> (r: Option<&str>)
    ensures
        opt_str_view(r) == opt_view(*o),
{
    match o {
        Some(s) => Some(s.as_str()),
        None => None,
    }
}

/// The page-size code `DC` for showing `limit` records: the smallest page
/// of 10, 20, 30, 50, 100, 500 or 1000 rows (codes 1 to 7) that holds them;
/// 0 and anything above 500 get code 7.
pub open spec fn page_code(limit: u16) -> u8 {
    if limit == 0 {
        7
    } else if limit <= 10 {
        1
    } else if limit <= 20 {
        2
    } else if limit <= 30 {
        3
    } else if limit <= 50 {
        4
    } else if limit <= 100 {
        5
    } else if limit <= 500 {
        6
    } else {
        7
    }
}

/// The number of rows a page of code `code` holds.
pub open spec fn page_rows(code: u8) -> nat {
    if code == 1 {
        10
    } else if code == 2 {
        20
    } else if code == 3 {
        30
    } else if code == 4 {
        50
    } else if code == 5 {
        100
    } else if code == 6 {
        500
    } else {
        1000
    }
}

impl SearchArgs {
    /// Accepts the search only when it names at least one condition.
    pub fn validate(&self) -> (r: Result<(), CliError>)
        ensures
            r is Ok <==> has_search_criteria(*self),
            r is Err ==> r == Err::<(), CliError>(CliError::NoSearchCondition),
    {
        if !self.has_criteria() {
            return Err(CliError::NoSearchCondition);
        }
        Ok(())
    }

    /// Whether the search names at least one condition.
    pub fn has_criteria(&self) -> (b: bool)
        ensures
            b == has_search_criteria(*self),
    {
        self.number_arg.is_some() || self.number.is_some() || self.name.is_some()
            || self.model_name.is_some() || self.organ_code.is_some() || self.from_date.is_some()
            || self.to_date.is_some() || self.radio_equipment_code.is_some()
            || self.tech_code.is_some() || self.attachments || self.body_sar
    }

    /// The API parameters of this search.
    pub fn query(&self) -> (q: ListQuery<'_>)
        ensures
            q.sc == self.offset,
            q.dc == page_code(self.limit),
            q.of == format_code(self.api_format),
            opt_str_view(q.nam) == opt_view(self.name),
            opt_str_view(q.num) == (if self.number is Some {
                opt_view(self.number)
            } else {
                opt_view(self.number_arg)
            }),
            opt_str_view(q.tn) == opt_view(self.model_name),
            opt_str_view(q.oc) == opt_view(self.organ_code),
            opt_str_view(q.ds) == opt_view(self.from_date),
            opt_str_view(q.de) == opt_view(self.to_date),
            q.afp == (if self.attachments {
                Some(1u8)
            } else {
                None
            }),
            q.bs == (if self.body_sar {
                Some(1u8)
            } else {
                None
            }),
            opt_str_view(q.rec) == opt_view(self.radio_equipment_code),
            opt_str_view(q.tec) == opt_view(self.tech_code),
            q.sk == self.sort,
    {
        let num = match opt_as_str(&self.number) {
            Some(n) => Some(n),
            None => opt_as_str(&self.number_arg),
        };
        ListQuery {
            sc: self.offset,
            dc: dc_for_limit(self.limit),
            of: self.api_format.as_code(),
            nam: opt_as_str(&self.name),
            num,
            tn: opt_as_str(&self.model_name),
            oc: opt_as_str(&self.organ_code),
            ds: opt_as_str(&self.from_date),
            de: opt_as_str(&self.to_date),
            afp: if self.attachments {
                Some(1)
            } else {
                None
            },
            bs: if self.body_sar {
                Some(1)
            } else {
                None
            },
            rec: opt_as_str(&self.radio_equipment_code),
            tec: opt_as_str(&self.tech_code),
            sk: self.sort,
        }
    }
}

impl FileArgs {
    /// Refuses an attachment number given without an attachment type.
    pub fn validate(&self) -> (r: Result<(), CliError>)
        ensures
            r is Err <==> (self.attachment_number is Some && self.attachment_type is None),
            r is Err ==> r == Err::<(), CliError>(CliError::NumberWithoutType),
    {
        if self.attachment_number.is_some() && self.attachment_type.is_none() {
            return Err(CliError::NumberWithoutType);
        }
        Ok(())
    }

    /// The API parameters of this download, for the decoded attachment key.
    pub fn query<'a>(&self, attachment_key: &'a str) -> (q: FileQuery<'a>)
        ensures
            q.afk@ == attachment_key@,
            q.aft == self.attachment_type,
            q.afn == self.attachment_number,
    {
        FileQuery { afk: attachment_key, aft: self.attachment_type, afn: self.attachment_number }
    }
}

/// The page-size code `DC` for showing `limit` records.
pub fn dc_for_limit(limit: u16) -> (code: u8)
    ensures
        code == page_code(limit),
{
    if 1 <= limit && limit <= 10 {
        1
    } else if 11 <= limit && limit <= 20 {
        2
    } else if 21 <= limit && limit <= 30 {
        3
    } else if 31 <= limit && limit <= 50 {
        4
    } else if 51 <= limit && limit <= 100 {
        5
    } else if 101 <= limit && limit <= 500 {
        6
    } else {
        7
    }
}

/// The message for a date that is neither `YYYYMMDD` nor `YYYY-MM-DD`.
pub open spec fn date_error() -> Seq<char> {
    "DATE must be YYYYMMDD or YYYY-MM-DD"@
}

/// Only ASCII digits.
pub open spec fn all_ascii_digits(s: Seq<char>) -> bool {
    forall|i: int| 0 <= i < s.len() ==> '0' <= #[trigger] s[i] <= '9'
}

/// A date written `YYYY-MM-DD`: ten characters, dashes at the fifth and
/// eighth, ASCII digits elsewhere.
pub open spec fn is_dashed_date(value: Seq<char>) -> bool {
    &&& value.len() == 10
    &&& value[4] == '-'
    &&& value[7] == '-'
    &&& all_ascii_digits(value.take(4))
    &&& all_ascii_digits(value.subrange(5, 7))
    &&& all_ascii_digits(value.subrange(8, 10))
}

/// A date option as `YYYYMMDD`: given as eight ASCII digits, kept as it
/// is; given as `YYYY-MM-DD`, its digits without the dashes; in any other
/// form, none.
pub open spec fn compact_date(value: Seq<char>) -> Option<Seq<char>> {
    if value.len() == 8 && all_ascii_digits(value) {
        Some(value)
    } else if is_dashed_date(value) {
        Some(value.take(4) + value.subrange(5, 7) + value.subrange(8, 10))
    } else {
        None
    }
}

/// Decides whether `v[from..to]` holds only ASCII digits.
fn digits_between(v: &Vec<char>, from: usize, to: usize) -> (b: bool)
    requires
        from <= to <= v.len(),
    ensures
        b == all_ascii_digits(v@.subrange(from as int, to as int)),
{
    let mut i = from;
    while i < to
        invariant
            from <= i <= to <= v.len(),
            forall|k: int| from <= k < i ==> '0' <= #[trigger] v@[k] <= '9',
        decreases to - i,
    {
        if !('0' <= v[i] && v[i] <= '9') {
            proof {
                assert(v@.subrange(from as int, to as int)[i - from] == v@[i as int]);
            }
            return false;
        }
        i = i + 1;
    }
    proof {
        assert forall|k: int| 0 <= k < to - from implies '0' <= #[trigger] v@.subrange(
            from as int,
            to as int,
        )[k] <= '9' by {
            assert(v@.subrange(from as int, to as int)[k] == v@[from + k]);
        }
    }
    true
}

/// Reads a date option given as `YYYYMMDD` or `YYYY-MM-DD`, into `YYYYMMDD`.
pub fn parse_date(value: &str) -> (r: Result<String, String>)
    ensures
        match compact_date(value@) {
            Some(compact) => r is Ok && r->Ok_0@ == compact,
            None => r is Err && r->Err_0@ == date_error(),
        },
{
    let chars = chars_of(value);
    let n = chars.len();
    if n == 8 && digits_between(&chars, 0, 8) {
        proof {
            assert(chars@.subrange(0, 8) =~= chars@);
        }
        return Ok(string_of(&chars));
    }
    if n == 10 && chars[4] == '-' && chars[7] == '-' && digits_between(&chars, 0, 4)
        && digits_between(&chars, 5, 7) && digits_between(&chars, 8, 10) {
        let mut out = sub_chars(&chars, 0, 4);
        append_chars(&mut out, &sub_chars(&chars, 5, 7));
        append_chars(&mut out, &sub_chars(&chars, 8, 10));
        proof {
            assert(chars@.subrange(0, 4) =~= chars@.take(4));
        }
        return Ok(string_of(&out));
    }
    proof {
        if n == 10 {
            assert(chars@.subrange(0, 4) =~= chars@.take(4));
        }
    }
    Err(string_of(&chars_of("DATE must be YYYYMMDD or YYYY-MM-DD")))
}

/// The page fetched for a search holds every record that will be shown: for
/// each limit from 1 to 1000, the page of code `page_code(limit)` has room
/// for `limit` rows and the next smaller page would not.
pub proof fn law_page_holds_limit(limit: u16)
    requires
        1 <= limit <= 1000,
    ensures
        limit <= page_rows(page_code(limit)),
        page_code(limit) > 1 ==> page_rows((page_code(limit) - 1) as u8) < limit,
        1 <= page_code(limit) <= 7,
{
}

/// Eight ASCII digits.
pub open spec fn is_compact_date(d: Seq<char>) -> bool {
    d.len() == 8 && forall|i: int| 0 <= i < 8 ==> '0' <= #[trigger] d[i] <= '9'
}

proof fn lemma_replace_without_pattern(s: Seq<char>)
    requires
        !s.contains('-'),
    ensures
        replace(s, seq!['-'], seq![]) == s,
    decreases s.len(),
{
    if s.len() > 0 {
        assert(!crate::text::has_prefix(s, seq!['-'])) by {
            if crate::text::has_prefix(s, seq!['-']) {
                assert(s.take(1)[0] == s[0]);
                assert(s.contains(s[0]));
            }
        }
        assert(!s.drop_first().contains('-')) by {
            if s.drop_first().contains('-') {
                let k = choose|k: int| 0 <= k < s.drop_first().len() && s.drop_first()[k] == '-';
                assert(s[k + 1] == '-');
            }
        }
        lemma_replace_without_pattern(s.drop_first());
        assert(seq![s[0]] + s.drop_first() =~= s);
    }
}

/// Both date forms the command line documents are accepted and mean the
/// same day: for eight digits `d`, both `d` and `d` written as
/// `YYYY-MM-DD` read as `d`.
pub proof fn law_date_forms(d: Seq<char>)
    requires
        is_compact_date(d),
    ensures
        compact_date(d) == Some(d),
        compact_date(d.take(4) + seq!['-'] + d.subrange(4, 6) + seq!['-'] + d.subrange(6, 8))
            == Some(d),
{
    let dashed = d.take(4) + seq!['-'] + d.subrange(4, 6) + seq!['-'] + d.subrange(6, 8);
    assert(dashed.take(4) =~= d.take(4));
    assert(dashed.subrange(5, 7) =~= d.subrange(4, 6));
    assert(dashed.subrange(8, 10) =~= d.subrange(6, 8));
    assert(d.take(4) + d.subrange(4, 6) + d.subrange(6, 8) =~= d);
}

/// Every accepted date reads as eight digits: the text given with its
/// dashes removed.
pub proof fn law_date_reads_digits(value: Seq<char>)
    requires
        compact_date(value) is Some,
    ensures
        is_compact_date(compact_date(value)->Some_0),
        compact_date(value)->Some_0 == replace(value, seq!['-'], seq![]),
{
    let pat = seq!['-'];
    let empty = Seq::<char>::empty();
    assert forall|t: Seq<char>| all_ascii_digits(t) implies replace(t, pat, empty) == t by {
        assert(!t.contains('-')) by {
            if t.contains('-') {
                let k = choose|k: int| 0 <= k < t.len() && t[k] == '-';
                assert('0' <= t[k] <= '9');
            }
        }
        lemma_replace_without_pattern(t);
    }
    if value.len() == 8 && all_ascii_digits(value) {
    } else {
        let a = value.take(4);
        let b = value.subrange(5, 7);
        let c = value.subrange(8, 10);
        assert(value =~= a + pat + b + pat + c);
        assert(replace(pat, pat, empty) =~= empty) by {
            assert(pat.take(1) =~= pat);
            assert(crate::text::has_prefix(pat, pat));
            assert(pat.skip(1) =~= empty);
            assert(replace(empty, pat, empty) == empty);
            assert(empty + empty =~= empty);
        }
        lemma_replace_char_concat(a, pat + b + pat + c);
        lemma_replace_char_concat(pat, b + pat + c);
        lemma_replace_char_concat(b, pat + c);
        lemma_replace_char_concat(pat, c);
        assert(a + pat + b + pat + c =~= a + (pat + (b + (pat + c))));
        assert(pat + b + pat + c =~= pat + (b + (pat + c)));
        assert(b + pat + c =~= b + (pat + c));
        let r = a + b + c;
        assert forall|i: int| 0 <= i < 8 implies '0' <= #[trigger] r[i] <= '9' by {
            if i < 4 {
                assert(r[i] == a[i]);
            } else if i < 6 {
                assert(r[i] == b[i - 4]);
            } else {
                assert(r[i] == c[i - 6]);
            }
        }
    }
}

/// Removing dashes works piece by piece.
proof fn lemma_replace_char_concat(x: Seq<char>, y: Seq<char>)
    ensures
        replace(x + y, seq!['-'], seq![]) == replace(x, seq!['-'], seq![]) + replace(
            y,
            seq!['-'],
            seq![],
        ),
    decreases x.len(),
{
    let pat = seq!['-'];
    let empty = Seq::<char>::empty();
    if x.len() == 0 {
        assert(x + y =~= y);
        assert(empty + replace(y, pat, empty) =~= replace(y, pat, empty));
    } else {
        lemma_replace_char_concat(x.drop_first(), y);
        assert((x + y).drop_first() =~= x.drop_first() + y);
        assert((x + y)[0] == x[0]);
        assert(crate::text::has_prefix(x + y, pat) == crate::text::has_prefix(x, pat)) by {
            assert((x + y).take(1)[0] == x[0]);
            assert(x.take(1)[0] == x[0]);
            if x[0] == '-' {
                assert((x + y).take(1) =~= pat);
                assert(x.take(1) =~= pat);
            }
        }
        if x[0] == '-' {
            assert((x + y).skip(1) =~= x.drop_first() + y);
            assert(x.skip(1) =~= x.drop_first());
            assert(empty + replace(x.drop_first() + y, pat, empty) =~= replace(x.drop_first() + y, pat, empty));
            assert(empty + replace(x.drop_first(), pat, empty) =~= replace(x.drop_first(), pat, empty));
        } else {
            assert(seq![x[0]] + (replace(x.drop_first(), pat, empty) + replace(y, pat, empty)) =~= (seq![x[0]] + replace(x.drop_first(), pat, empty)) + replace(y, pat, empty));
        }
    }
}

} // verus!
