//! Records of the MIC certification API, and the rules for reading what the
//! API returns: attachment keys, `Content-Disposition` file names, numeric
//! fields, and error excerpts of response bodies.

use vstd::prelude::*;
use crate::external::{
    percent_decode_lossy, percent_decode_utf8, percent_decoded_bytes, percent_decoded_lossy,
    percent_decoded_text_bytes,
};
use vstd::utf8::{decode_utf8, encode_scalar, encode_utf8, valid_utf8};
use crate::text::{
    all_white_space, append_str, byte_len, char_utf8_len, char_views, chars_of, decimal,
    digit_char, has_prefix, lemma_byte_len_concat, lemma_byte_len_prefix_grows, lemma_trim_end_at,
    lemma_trim_start_at, opt_view, push_char, replace, replace_chars, split_char, split_chars,
    starts_with_chars, str_is_blank, string_of, sub_chars, trim, trim_char, trim_chars,
    trim_matches_char,
};

verus! {

broadcast use vstd::string::group_string_axioms;

// ---------------------------------------------------------------------------
// Records
// ---------------------------------------------------------------------------

/// One certification record (`gitekiInfo`) of the detail-list API.
pub struct GitekiInfo {
    pub no: u32,
    pub tech_code: String,
    pub number: String,
    pub date: String,
    pub name: String,
    pub radio_equipment_code: String,
    pub model_name: String,
    pub elec_wave: String,
    pub spurious_rules: String,
    pub body_sar: String,
    pub fq_maintain_func: String,
    pub note: String,
    pub organ_name: String,
    pub attachment_file_name: String,
    pub attachment_file_key: String,
    pub attachment_file_cnt_for_cd_1: String,
    pub attachment_file_cnt_for_cd_2: String,
}

/// The header of a detail-list response (`gitekiInformation`).
pub struct GitekiInformation {
    pub last_update_date: String,
    pub total_count: u32,
}

/// A detail-list response: its header and its records.
pub struct GitekiListResponse {
    pub information: GitekiInformation,
    pub giteki: Vec<GitekiItem>,
}

/// A record as the API sends it: either wrapped in a `gitekiInfo` object or
/// given directly.
pub enum GitekiItem {
    Wrapped { giteki_info: GitekiInfo },
    Direct(GitekiInfo),
}

/// The record an item carries, whichever shape it came in.
pub open spec fn item_info(item: GitekiItem) -> GitekiInfo {
    match item {
        GitekiItem::Wrapped { giteki_info } => giteki_info,
        GitekiItem::Direct(giteki_info) => giteki_info,
    }
}

impl GitekiItem {
    /// The record this item carries.
    pub fn into_info(self) -> (info: GitekiInfo)
        ensures
            info == item_info(self),
    {
        match self {
            GitekiItem::Wrapped { giteki_info } => giteki_info,
            GitekiItem::Direct(giteki_info) => giteki_info,
        }
    }
}

/// An attachment as downloaded: its bytes and the file name that the
/// response's `Content-Disposition` header gave, if any.
pub struct FileDownload {
    pub bytes: Vec<u8>,
    pub filename: Option<String>,
}

/// The query parameters of the detail-list endpoint (`SC`, `DC`, `OF`, ...).
pub struct ListQuery<'a> {
    pub sc: u32,
    pub dc: u8,
    pub of: u8,
    pub nam: Option<&'a str>,
    pub num: Option<&'a str>,
    pub tn: Option<&'a str>,
    pub oc: Option<&'a str>,
    pub ds: Option<&'a str>,
    pub de: Option<&'a str>,
    pub afp: Option<u8>,
    pub bs: Option<u8>,
    pub rec: Option<&'a str>,
    pub tec: Option<&'a str>,
    pub sk: u8,
}

/// The query parameters of the attachment endpoint (`AFK`, `AFT`, `AFN`).
pub struct FileQuery<'a> {
    pub afk: &'a str,
    pub aft: Option<u8>,
    pub afn: Option<u8>,
}

/// The records a search shows: each item's record, in order, at most
/// `limit` of them.
pub open spec fn shown_records(items: Seq<GitekiItem>, limit: u16) -> Seq<GitekiInfo> {
    let all = items.map_values(|i: GitekiItem| item_info(i));
    if all.len() > limit as nat {
        all.take(limit as int)
    } else {
        all
    }
}

/// A search shows `min(items, limit)` records: the first ones of the
/// response, in its order, each the record its item carries.
pub proof fn law_shown_records_are_first_ones(items: Seq<GitekiItem>, limit: u16)
    ensures
        shown_records(items, limit).len() == (if items.len() < limit as nat {
            items.len()
        } else {
            limit as nat
        }),
        forall|i: int|
            0 <= i < shown_records(items, limit).len() ==> #[trigger] shown_records(items, limit)[i]
                == item_info(items[i]),
{
}

/// Takes the records out of the response's items and keeps the first
/// `limit` (the API returns whole pages).
pub fn select_records(items: Vec<GitekiItem>, limit: u16) -> (records: Vec<GitekiInfo>)
    ensures
        records@ == shown_records(items@, limit),
{
    let ghost all = items@.map_values(|i: GitekiItem| item_info(i));
    let n = items.len();
    let mut items = items;
    let mut reversed: Vec<GitekiInfo> = Vec::new();
    let mut k: usize = 0;
    while k < n
        invariant
            k <= n == all.len(),
            items.len() == n - k,
            forall|m: int| 0 <= m < items.len() ==> item_info(#[trigger] items@[m]) == all[m],
            reversed.len() == k,
            forall|m: int| 0 <= m < k ==> #[trigger] reversed@[m] == all[n - 1 - m],
        decreases n - k,
    {
        let item = items.pop().unwrap();
        proof {
            assert(item_info(item) == all[n - 1 - k]);
        }
        reversed.push(item.into_info());
        k = k + 1;
    }
    let keep: usize = if n > limit as usize {
        limit as usize
    } else {
        n
    };
    let mut records: Vec<GitekiInfo> = Vec::new();
    let mut j: usize = 0;
    while j < keep
        invariant
            j <= keep <= n == all.len(),
            reversed.len() == n - j,
            forall|m: int| 0 <= m < reversed.len() ==> #[trigger] reversed@[m] == all[n - 1 - m],
            records@ =~= all.take(j as int),
        decreases keep - j,
    {
        let record = reversed.pop().unwrap();
        proof {
            assert(record == all[j as int]);
        }
        records.push(record);
        j = j + 1;
    }
    proof {
        if all.len() <= limit as nat {
            assert(all.take(n as int) =~= all);
        }
    }
    records
}

/// What the raw (CSV or XML) output prints: the body, ending in a newline.
pub open spec fn raw_output(body: Seq<char>) -> Seq<char> {
    if body.len() > 0 && body.last() == '\n' {
        body
    } else {
        body.push('\n')
    }
}

/// The text printed for a raw (CSV or XML) response body.
pub fn raw_output_text(body: &str) -> (text: String)
    ensures
        text@ == raw_output(body@),
{
    let mut v = chars_of(body);
    let n = v.len();
    if n == 0 || v[n - 1] != '\n' {
        v.push('\n');
    }
    string_of(&v)
}

// ---------------------------------------------------------------------------
// Attachment keys and file names
// ---------------------------------------------------------------------------

/// Decodes the `%XX` escapes of an attachment key as the API returns it
/// (ill-formed UTF-8 becomes U+FFFD).
pub fn decode_attachment_key(value: &str) -> (key: String)
    ensures
        key@ == percent_decoded_lossy(value@),
        valid_utf8(percent_decoded_text_bytes(value@)) ==> key@ == decode_utf8(
            percent_decoded_text_bytes(value@),
        ),
{
    percent_decode_lossy(value)
}

/// The value of an RFC 5987 `filename*` parameter with its quotes and a
/// `UTF-8''` charset prefix removed, before percent-decoding.
pub open spec fn rfc5987_encoded(value: Seq<char>) -> Seq<char> {
    let unquoted = trim_char(value, '"');
    if has_prefix(unquoted, "UTF-8''"@) {
        unquoted.skip("UTF-8''"@.len() as int)
    } else {
        unquoted
    }
}

/// The file name that an RFC 5987 `filename*` value decodes to; `None` when
/// the decoded bytes are not UTF-8.
pub open spec fn rfc5987_filename(value: Seq<char>) -> Option<Seq<char>> {
    let bytes = percent_decoded_text_bytes(rfc5987_encoded(value));
    if valid_utf8(bytes) {
        Some(decode_utf8(bytes))
    } else {
        None
    }
}

/// Decodes the value of a `filename*` parameter.
pub fn decode_rfc5987_filename(value: &str) -> (name: Option<String>)
    ensures
        name is Some <==> rfc5987_filename(value@) is Some,
        name matches Some(n) ==> rfc5987_filename(value@) == Some(n@),
{
    let chars = chars_of(value);
    let unquoted = trim_matches_char(&chars, '"');
    let prefix = chars_of("UTF-8''");
    let encoded = if starts_with_chars(&unquoted, &prefix) {
        sub_chars(&unquoted, prefix.len(), unquoted.len())
    } else {
        unquoted
    };
    let encoded = string_of(&encoded);
    percent_decode_utf8(encoded.as_str())
}

proof fn lemma_encode_scalar_no_percent(c: char)
    requires
        c != '%',
    ensures
        forall|i: int|
            0 <= i < encode_scalar(c as u32).len() ==> #[trigger] encode_scalar(c as u32)[i]
                != 0x25u8,
{
    let v = c as u32;
    assert(v != 0x25u32);
    assert(v <= 0x7f && v != 0x25 ==> (v & 0x7F) as u8 != 0x25u8) by (bit_vector);
    assert((0xC0u8 | ((v >> 6) & 0x1F) as u8) != 0x25u8) by (bit_vector);
    assert((0xE0u8 | ((v >> 12) & 0x0F) as u8) != 0x25u8) by (bit_vector);
    assert((0xF0u8 | ((v >> 18) & 0x7) as u8) != 0x25u8) by (bit_vector);
    assert((0x80u8 | (v & 0x3F) as u8) != 0x25u8) by (bit_vector);
    assert((0x80u8 | ((v >> 6) & 0x3F) as u8) != 0x25u8) by (bit_vector);
    assert((0x80u8 | ((v >> 12) & 0x3F) as u8) != 0x25u8) by (bit_vector);
}

proof fn lemma_encode_no_percent(s: Seq<char>)
    requires
        !s.contains('%'),
    ensures
        forall|i: int| 0 <= i < encode_utf8(s).len() ==> #[trigger] encode_utf8(s)[i] != 0x25u8,
    decreases s.len(),
{
    if s.len() > 0 {
        assert(s[0] != '%') by {
            if s[0] == '%' {
                assert(s.contains(s[0]));
            }
        }
        assert(!s.drop_first().contains('%')) by {
            if s.drop_first().contains('%') {
                let k = choose|k: int| 0 <= k < s.drop_first().len() && s.drop_first()[k] == '%';
                assert(s[k + 1] == '%');
            }
        }
        lemma_encode_scalar_no_percent(s[0]);
        lemma_encode_no_percent(s.drop_first());
        let head = encode_scalar(s[0] as u32);
        let tail = encode_utf8(s.drop_first());
        assert forall|i: int| 0 <= i < encode_utf8(s).len() implies #[trigger] encode_utf8(s)[i]
            != 0x25u8 by {
            if i < head.len() {
                assert(encode_utf8(s)[i] == head[i]);
            } else {
                assert(encode_utf8(s)[i] == tail[i - head.len()]);
            }
        }
    }
}

proof fn lemma_decode_without_percent(b: Seq<u8>)
    requires
        forall|i: int| 0 <= i < b.len() ==> #[trigger] b[i] != 0x25u8,
    ensures
        percent_decoded_bytes(b) == b,
    decreases b.len(),
{
    if b.len() > 0 {
        assert forall|i: int| 0 <= i < b.drop_first().len() implies #[trigger] b.drop_first()[i]
            != 0x25u8 by {
            assert(b.drop_first()[i] == b[i + 1]);
        }
        lemma_decode_without_percent(b.drop_first());
        assert(seq![b[0]] + b.drop_first() =~= b);
    }
}

/// Text without a `%` percent-decodes to itself: an attachment key or a
/// `filename*` value without escapes is read as it is.
pub proof fn law_unescaped_text_decodes_to_itself(s: Seq<char>)
    requires
        !s.contains('%'),
    ensures
        valid_utf8(percent_decoded_text_bytes(s)),
        decode_utf8(percent_decoded_text_bytes(s)) == s,
{
    lemma_encode_no_percent(s);
    lemma_decode_without_percent(encode_utf8(s));
    vstd::utf8::encode_utf8_valid_utf8(s);
    vstd::utf8::encode_utf8_decode_utf8(s);
}

/// A quoted-string's content with its backslash escapes resolved; a lone
/// trailing backslash is dropped.
pub open spec fn unescape(s: Seq<char>) -> Seq<char>
    decreases s.len(),
{
    if s.len() == 0 {
        seq![]
    } else if s[0] == '\\' {
        if s.len() >= 2 {
            seq![s[1]] + unescape(s.skip(2))
        } else {
            seq![]
        }
    } else {
        seq![s[0]] + unescape(s.drop_first())
    }
}

/// A header parameter value: trimmed, and if it is a quoted string, its
/// unescaped content.
pub open spec fn unquoted(value: Seq<char>) -> Seq<char> {
    let t = trim(value);
    if t.len() >= 2 && t[0] == '"' && t.last() == '"' {
        unescape(t.subrange(1, t.len() - 1))
    } else {
        t
    }
}

/// Reads a header parameter value, undoing quoted-string quoting.
pub fn unquote_header_value(value: &str) -> (out: String)
    ensures
        out@ == unquoted(value@),
{
    let all = chars_of(value);
    let t = trim_chars(&all);
    let n = t.len();
    if !(n >= 2 && t[0] == '"' && t[n - 1] == '"') {
        return string_of(&t);
    }
    let mut output = String::new();
    let mut i: usize = 1;
    let end = n - 1;
    let ghost inner = t@.subrange(1, end as int);
    proof {
        assert(t@.subrange(1, end as int).skip(0) =~= inner);
    }
    while i < end
        invariant
            1 <= i <= end + 1,
            end == n - 1,
            n == t@.len(),
            inner == t@.subrange(1, end as int),
            i <= end ==> output@ + unescape(t@.subrange(i as int, end as int)) == unescape(inner),
            i > end ==> output@ == unescape(inner),
        decreases end + 1 - i,
    {
        let ghost rest = t@.subrange(i as int, end as int);
        let character = t[i];
        if character == '\\' {
            if i + 1 < end {
                let escaped = t[i + 1];
                let ghost before = output@;
                push_char(&mut output, escaped);
                proof {
                    assert(rest.skip(2) =~= t@.subrange(i + 2, end as int));
                    assert(before + (seq![rest[1]] + unescape(rest.skip(2))) =~= output@ + unescape(
                        t@.subrange(i + 2, end as int),
                    ));
                }
                i = i + 2;
            } else {
                proof {
                    assert(output@ + Seq::<char>::empty() =~= output@);
                }
                i = i + 2;
            }
        } else {
            let ghost before = output@;
            push_char(&mut output, character);
            proof {
                assert(rest.drop_first() =~= t@.subrange(i + 1, end as int));
                assert(before + (seq![rest[0]] + unescape(rest.drop_first())) =~= output@ + unescape(
                    t@.subrange(i + 1, end as int),
                ));
            }
            i = i + 1;
        }
    }
    proof {
        if i == end {
            assert(t@.subrange(i as int, end as int) =~= Seq::<char>::empty());
            assert(output@ + Seq::<char>::empty() =~= output@);
        }
    }
    output
}


/// A parameter of a `Content-Disposition` header, as far as the file name
/// goes.
pub enum DispositionParam {
    /// A `filename*` parameter, with the file name its value decoded to
    /// (`None` when it did not decode).
    Extended(Option<String>),
    /// A `filename` parameter, with its raw value.
    Plain(String),
    /// Any other parameter.
    Other,
}

/// What a `DispositionParam` holds, as plain values.
pub enum DispositionParamView {
    Extended(Option<Seq<char>>),
    Plain(Seq<char>),
    Other,
}

impl DispositionParam {
    pub open spec fn view(&self) -> DispositionParamView {
        match self {
            DispositionParam::Extended(name) => DispositionParamView::Extended(opt_view(*name)),
            DispositionParam::Plain(raw) => DispositionParamView::Plain(raw@),
            DispositionParam::Other => DispositionParamView::Other,
        }
    }
}

/// The file name the parameters give: the first `filename*` that decoded,
/// else the unquoted value of the last `filename`, else `fallback`.
pub open spec fn picked_filename(
    params: Seq<DispositionParamView>,
    fallback: Option<Seq<char>>,
) -> Option<Seq<char>>
    decreases params.len(),
{
    if params.len() == 0 {
        fallback
    } else {
        match params[0] {
            DispositionParamView::Extended(Some(name)) => Some(name),
            DispositionParamView::Plain(raw) => picked_filename(
                params.drop_first(),
                Some(unquoted(raw)),
            ),
            _ => picked_filename(params.drop_first(), fallback),
        }
    }
}

/// An RFC 5987 `filename*` that decodes wins over every `filename`, before it
/// or after it: the first such `filename*` is the name chosen.
pub proof fn law_extended_filename_wins(
    params: Seq<DispositionParamView>,
    k: int,
    fallback: Option<Seq<char>>,
)
    requires
        0 <= k < params.len(),
        params[k] is Extended,
        params[k]->Extended_0 is Some,
        forall|j: int| 0 <= j < k ==> !(#[trigger] params[j] matches DispositionParamView::Extended(Some(_))),
    ensures
        picked_filename(params, fallback) == params[k]->Extended_0,
    decreases k,
{
    if k > 0 {
        let next = match params[0] {
            DispositionParamView::Plain(raw) => Some(unquoted(raw)),
            _ => fallback,
        };
        assert forall|j: int| 0 <= j < k - 1 implies !(#[trigger] params.drop_first()[j] matches DispositionParamView::Extended(Some(_))) by {
            assert(params.drop_first()[j] == params[j + 1]);
        }
        law_extended_filename_wins(params.drop_first(), k - 1, next);
    }
}

/// Without a `filename*` that decodes or a `filename`, no parameter gives a
/// name: the one already chosen stays.
pub proof fn law_no_filename_keeps_fallback(
    params: Seq<DispositionParamView>,
    fallback: Option<Seq<char>>,
)
    requires
        forall|j: int|
            0 <= j < params.len() ==> !(#[trigger] params[j] matches DispositionParamView::Extended(
                Some(_),
            )) && !(params[j] is Plain),
    ensures
        picked_filename(params, fallback) == fallback,
    decreases params.len(),
{
    if params.len() > 0 {
        assert forall|j: int| 0 <= j < params.len() - 1 implies !(
        #[trigger] params.drop_first()[j] matches DispositionParamView::Extended(Some(_)))
            && !(params.drop_first()[j] is Plain) by {
            assert(params.drop_first()[j] == params[j + 1]);
        }
        law_no_filename_keeps_fallback(params.drop_first(), fallback);
    }
}

/// Without a `filename*` that decodes, the last `filename` gives the name,
/// its value unquoted.
pub proof fn law_last_plain_filename_wins(
    params: Seq<DispositionParamView>,
    k: int,
    fallback: Option<Seq<char>>,
)
    requires
        0 <= k < params.len(),
        params[k] is Plain,
        forall|j: int|
            0 <= j < params.len() ==> !(#[trigger] params[j] matches DispositionParamView::Extended(
                Some(_),
            )),
        forall|m: int| k < m < params.len() ==> !(#[trigger] params[m] is Plain),
    ensures
        picked_filename(params, fallback) == Some(unquoted(params[k]->Plain_0)),
    decreases k,
{
    let rest = params.drop_first();
    assert forall|j: int| 0 <= j < rest.len() implies !(
    #[trigger] rest[j] matches DispositionParamView::Extended(Some(_))) by {
        assert(rest[j] == params[j + 1]);
    }
    if k == 0 {
        assert forall|j: int| 0 <= j < rest.len() implies !(
        #[trigger] rest[j] matches DispositionParamView::Extended(Some(_))) && !(rest[j] is Plain) by {
            assert(rest[j] == params[j + 1]);
        }
        law_no_filename_keeps_fallback(rest, Some(unquoted(params[0]->Plain_0)));
    } else {
        let next = match params[0] {
            DispositionParamView::Plain(raw) => Some(unquoted(raw)),
            _ => fallback,
        };
        assert forall|m: int| k - 1 < m < rest.len() implies !(#[trigger] rest[m] is Plain) by {
            assert(rest[m] == params[m + 1]);
        }
        law_last_plain_filename_wins(rest, k - 1, next);
    }
}

/// The views of a vector of parameters.
pub open spec fn param_views(params: Seq<DispositionParam>) -> Seq<DispositionParamView> {
    params.map_values(|p: DispositionParam| p.view())
}

/// Chooses the file name among the parameters of a `Content-Disposition`
/// header: an RFC 5987 `filename*` wins over `filename`.
pub fn pick_filename(params: &Vec<DispositionParam>) -> (name: Option<String>)
    ensures
        opt_view(name) == picked_filename(param_views(params@), None),
{
    let mut fallback: Option<String> = None;
    let mut i: usize = 0;
    proof {
        assert(param_views(params@).skip(0) =~= param_views(params@));
    }
    while i < params.len()
        invariant
            i <= params.len(),
            picked_filename(param_views(params@).skip(i as int), opt_view(fallback))
                == picked_filename(param_views(params@), None),
        decreases params.len() - i,
    {
        let ghost rest = param_views(params@).skip(i as int);
        proof {
            assert(rest.drop_first() =~= param_views(params@).skip(i + 1));
            assert(rest[0] == params@[i as int].view());
        }
        match &params[i] {
            DispositionParam::Extended(Some(name)) => {
                return Some(name.clone());
            },
            DispositionParam::Plain(raw) => {
                fallback = Some(unquote_header_value(raw.as_str()));
            },
            _ => {},
        }
        i = i + 1;
    }
    proof {
        assert(param_views(params@).skip(i as int).len() == 0);
    }
    fallback
}

/// The parameter that one `;`-separated piece of a `Content-Disposition`
/// header is.
pub open spec fn param_of_part(part: Seq<char>) -> DispositionParamView {
    let p = trim(part);
    if has_prefix(p, "filename*="@) {
        DispositionParamView::Extended(rfc5987_filename(p.skip("filename*="@.len() as int)))
    } else if has_prefix(p, "filename="@) {
        DispositionParamView::Plain(p.skip("filename="@.len() as int))
    } else {
        DispositionParamView::Other
    }
}

/// The file name that a `Content-Disposition` header value gives.
pub open spec fn disposition_filename(value: Seq<char>) -> Option<Seq<char>> {
    picked_filename(split_char(value, ';').map_values(|p: Seq<char>| param_of_part(p)), None)
}

/// Reads the parameter that one piece of a `Content-Disposition` header is.
fn parse_disposition_param(part: &Vec<char>) -> (param: DispositionParam)
    ensures
        param.view() == param_of_part(part@),
{
    let p = trim_chars(part);
    let extended = chars_of("filename*=");
    let plain = chars_of("filename=");
    if starts_with_chars(&p, &extended) {
        let raw = string_of(&sub_chars(&p, extended.len(), p.len()));
        DispositionParam::Extended(decode_rfc5987_filename(raw.as_str()))
    } else if starts_with_chars(&p, &plain) {
        DispositionParam::Plain(string_of(&sub_chars(&p, plain.len(), p.len())))
    } else {
        DispositionParam::Other
    }
}

/// The attachment's file name from a `Content-Disposition` header value:
/// the first `filename*` that decodes, else the last `filename`.
pub fn content_disposition_filename(value: &str) -> (name: Option<String>)
    ensures
        opt_view(name) == disposition_filename(value@),
{
    let chars = chars_of(value);
    let parts = split_chars(&chars, ';');
    let ghost pieces = split_char(value@, ';');
    let mut params: Vec<DispositionParam> = Vec::new();
    let mut i: usize = 0;
    while i < parts.len()
        invariant
            i <= parts.len(),
            params.len() == i,
            char_views(parts@) == pieces,
            param_views(params@) == pieces.take(i as int).map_values(
                |p: Seq<char>| param_of_part(p),
            ),
        decreases parts.len() - i,
    {
        let param = parse_disposition_param(&parts[i]);
        let ghost before = param_views(params@);
        let ghost pv = param.view();
        let ghost old_params = params;
        params.push(param);
        proof {
            assert(char_views(parts@)[i as int] == parts@[i as int]@);
            assert(pieces[i as int] == parts@[i as int]@);
            assert(param_views(params@)[i as int] == pv);
            assert forall|k: int| 0 <= k < i implies param_views(params@)[k] == param_of_part(
                pieces[k],
            ) by {
                assert(params@[k] == old_params@[k]);
                assert(before[k] == param_of_part(pieces.take(i as int)[k]));
            }
            assert(param_views(params@) =~= pieces.take(i + 1).map_values(
                |p: Seq<char>| param_of_part(p),
            ));
        }
        i = i + 1;
    }
    proof {
        assert(pieces.take(i as int) =~= pieces);
    }
    pick_filename(&params)
}


/// A file name as a quoted string: `"` around it and a backslash before
/// each `"` and `\` in it.
pub open spec fn quoted(s: Seq<char>) -> Seq<char> {
    seq!['"'] + escape(s) + seq!['"']
}

/// The backslash escaping of a quoted string's content.
pub open spec fn escape(s: Seq<char>) -> Seq<char>
    decreases s.len(),
{
    if s.len() == 0 {
        seq![]
    } else if s[0] == '"' || s[0] == '\\' {
        seq!['\\', s[0]] + escape(s.drop_first())
    } else {
        seq![s[0]] + escape(s.drop_first())
    }
}

proof fn lemma_unescape_escape(s: Seq<char>)
    ensures
        unescape(escape(s)) == s,
    decreases s.len(),
{
    if s.len() > 0 {
        lemma_unescape_escape(s.drop_first());
        let e = escape(s);
        if s[0] == '"' || s[0] == '\\' {
            assert(e.skip(2) =~= escape(s.drop_first()));
        } else {
            assert(e.drop_first() =~= escape(s.drop_first()));
        }
        assert(seq![s[0]] + s.drop_first() =~= s);
    } else {
        assert(escape(s) =~= Seq::<char>::empty());
    }
}

/// Reading a header value undoes quoting: for every text `s`, the quoted
/// string of `s` reads back as `s`.
pub proof fn law_unquote_reads_quoted(s: Seq<char>)
    ensures
        unquoted(quoted(s)) == s,
{
    let q = quoted(s);
    lemma_trim_start_at(q, 0);
    assert(q.skip(0) =~= q);
    assert(q.last() == '"');
    lemma_trim_end_at(q, q.len() as int);
    assert(q.take(q.len() as int) =~= q);
    assert(q.subrange(1, q.len() - 1) =~= escape(s));
    lemma_unescape_escape(s);
}

// ---------------------------------------------------------------------------
// Error excerpts
// ---------------------------------------------------------------------------

/// How many bytes of a response body an error message quotes.
pub const ERROR_EXCERPT_BYTES: usize = 300;

/// A response body on one line: each newline becomes a space.
pub open spec fn single_line(body: Seq<char>) -> Seq<char> {
    replace(body, seq!['\n'], seq![' '])
}

/// A body with its newlines replaced holds no newline.
pub proof fn lemma_single_line_has_no_newline(body: Seq<char>)
    ensures
        forall|i: int| 0 <= i < single_line(body).len() ==> single_line(body)[i] != '\n',
    decreases body.len(),
{
    if body.len() > 0 {
        if has_prefix(body, seq!['\n']) {
            lemma_single_line_has_no_newline(body.skip(1));
            assert forall|i: int| 0 <= i < single_line(body).len() implies single_line(body)[i]
                != '\n' by {
                if i > 0 {
                    assert(single_line(body)[i] == single_line(body.skip(1))[i - 1]);
                }
            }
        } else {
            lemma_single_line_has_no_newline(body.drop_first());
            assert(body[0] != '\n') by {
                if body[0] == '\n' {
                    assert(body.take(1) =~= seq!['\n']);
                }
            }
            assert forall|i: int| 0 <= i < single_line(body).len() implies single_line(body)[i]
                != '\n' by {
                if i > 0 {
                    assert(single_line(body)[i] == single_line(body.drop_first())[i - 1]);
                }
            }
        }
    }
}

/// Cutting the single-line body after `ERROR_EXCERPT_BYTES` bytes lands on a
/// character boundary (or no cut is needed), as `String::truncate` demands.
pub open spec fn excerpt_cut_on_char_boundary(body: Seq<char>) -> bool {
    let t = single_line(body);
    byte_len(t) <= ERROR_EXCERPT_BYTES || exists|k: int|
        0 <= k <= t.len() && byte_len(#[trigger] t.take(k)) == ERROR_EXCERPT_BYTES
}

/// Shortens a response body for an error message: newlines become spaces,
/// and a body longer than `ERROR_EXCERPT_BYTES` bytes is cut there and
/// marked with `...`.
pub fn truncate_for_error(body: &str) -> (text: String)
    requires
        excerpt_cut_on_char_boundary(body@),
    ensures
        byte_len(single_line(body@)) <= ERROR_EXCERPT_BYTES ==> text@ == single_line(body@),
        byte_len(single_line(body@)) > ERROR_EXCERPT_BYTES ==> exists|k: int|
            0 <= k <= single_line(body@).len() && byte_len(#[trigger] single_line(body@).take(k))
                == ERROR_EXCERPT_BYTES && text@ == single_line(body@).take(k) + "..."@,
        forall|i: int| 0 <= i < text@.len() ==> text@[i] != '\n',
        byte_len(text@) <= ERROR_EXCERPT_BYTES + 3,
{
    let chars = chars_of(body);
    let newline: Vec<char> = vec!['\n'];
    let space: Vec<char> = vec![' '];
    let t = replace_chars(&chars, &newline, &space);
    proof {
        assert(newline@ =~= seq!['\n']);
        assert(space@ =~= seq![' ']);
        lemma_single_line_has_no_newline(body@);
    }
    let mut i: usize = 0;
    let mut used: usize = 0;
    while i < t.len() && used + char_utf8_len(t[i]) <= ERROR_EXCERPT_BYTES
        invariant
            i <= t.len(),
            used == byte_len(t@.take(i as int)),
            used <= ERROR_EXCERPT_BYTES,
        decreases t.len() - i,
    {
        proof {
            assert(t@.take(i + 1).drop_last() =~= t@.take(i as int));
        }
        used = used + char_utf8_len(t[i]);
        i = i + 1;
    }
    if i == t.len() {
        proof {
            assert(t@.take(i as int) =~= t@);
        }
        return string_of(&t);
    }
    proof {
        assert(t@.take(i + 1).drop_last() =~= t@.take(i as int));
        lemma_byte_len_prefix_grows(t@, i + 1, t@.len() as int);
        assert(t@.take(t@.len() as int) =~= t@);
        let k = choose|k: int|
            0 <= k <= t@.len() && byte_len(#[trigger] t@.take(k)) == ERROR_EXCERPT_BYTES;
        if k <= i {
            lemma_byte_len_prefix_grows(t@, k, i as int);
        } else {
            lemma_byte_len_prefix_grows(t@, i + 1, k);
        }
    }
    let mut out = sub_chars(&t, 0, i);
    append_str(&mut out, "...");
    proof {
        assert(t@.subrange(0, i as int) =~= t@.take(i as int));
        reveal_strlit("...");
        lemma_byte_len_concat(t@.take(i as int), "..."@);
        assert(byte_len("..."@) == 3) by {
            reveal_with_fuel(byte_len, 4);
            assert("..."@.drop_last().drop_last().drop_last() =~= Seq::<char>::empty());
        }
        assert forall|j: int| 0 <= j < out@.len() implies out@[j] != '\n' by {
            if j >= i {
                assert(out@[j] == "..."@[j - i]);
            } else {
                assert(out@[j] == t@[j]);
            }
        }
    }
    string_of(&out)
}

// ---------------------------------------------------------------------------
// Numeric fields
// ---------------------------------------------------------------------------

/// Why `str::parse::<u32>` refused a text (`IntErrorKind`).
#[derive(Clone, Copy, Debug, PartialEq, Eq, Structural)]
pub enum ParseIntError {
    Empty,
    InvalidDigit,
    PosOverflow,
}

/// `char::is_ascii_digit`.
pub open spec fn is_ascii_digit(c: char) -> bool {
    '0' <= c <= '9'
}

/// The value of an ASCII digit.
pub open spec fn digit_value(c: char) -> nat {
    (c as u32 - '0' as u32) as nat
}

/// Reads the decimal digits of `s` after the value `acc` read so far.
pub open spec fn parse_digits(s: Seq<char>, acc: nat) -> Result<u32, ParseIntError>
    decreases s.len(),
{
    if s.len() == 0 {
        Ok(acc as u32)
    } else if !is_ascii_digit(s[0]) {
        Err(ParseIntError::InvalidDigit)
    } else if acc * 10 + digit_value(s[0]) > u32::MAX {
        Err(ParseIntError::PosOverflow)
    } else {
        parse_digits(s.drop_first(), acc * 10 + digit_value(s[0]))
    }
}

/// `str::parse::<u32>`: an optional `+` and then decimal digits, the value
/// fitting in `u32`; digits are read left to right and the first fault
/// decides the error.
pub open spec fn parsed_u32(s: Seq<char>) -> Result<u32, ParseIntError> {
    if s.len() == 0 {
        Err(ParseIntError::Empty)
    } else if s.len() == 1 && (s[0] == '+' || s[0] == '-') {
        Err(ParseIntError::InvalidDigit)
    } else if s[0] == '+' {
        parse_digits(s.drop_first(), 0)
    } else {
        parse_digits(s, 0)
    }
}

proof fn lemma_parse_digits_push(s: Seq<char>, c: char, acc: nat)
    requires
        is_ascii_digit(c),
        acc <= u32::MAX,
    ensures
        parse_digits(s.push(c), acc) == match parse_digits(s, acc) {
            Ok(v) => if v * 10 + digit_value(c) > u32::MAX {
                Err(ParseIntError::PosOverflow)
            } else {
                Ok((v * 10 + digit_value(c)) as u32)
            },
            Err(e) => Err(e),
        },
    decreases s.len(),
{
    assert(s.push(c)[0] == if s.len() == 0 {
        c
    } else {
        s[0]
    });
    if s.len() == 0 {
        assert(s.push(c).drop_first() =~= Seq::<char>::empty());
        assert(parse_digits(s, acc) == Ok::<u32, ParseIntError>(acc as u32));
        if acc * 10 + digit_value(c) <= u32::MAX {
            assert(parse_digits(s.push(c), acc) == parse_digits(Seq::<char>::empty(), acc * 10 + digit_value(c)));
        }
    } else {
        assert(s.push(c).drop_first() =~= s.drop_first().push(c));
        if is_ascii_digit(s[0]) && acc * 10 + digit_value(s[0]) <= u32::MAX {
            lemma_parse_digits_push(s.drop_first(), c, acc * 10 + digit_value(s[0]));
        }
    }
}

proof fn lemma_parse_decimal(n: nat)
    requires
        n <= u32::MAX,
    ensures
        parse_digits(decimal(n), 0) == Ok::<u32, ParseIntError>(n as u32),
        decimal(n).len() > 0,
        is_ascii_digit(decimal(n)[0]),
    decreases n,
{
    if n < 10 {
        let d = digit_char(n);
        assert(d as u32 == 48 + n);
        assert(seq![d].drop_first() =~= Seq::<char>::empty());
        assert(parse_digits(seq![d], 0) == parse_digits(Seq::<char>::empty(), n));
    } else {
        lemma_parse_decimal(n / 10);
        let d = digit_char(n % 10);
        assert(d as u32 == 48 + n % 10);
        lemma_parse_digits_push(decimal(n / 10), d, 0);
        assert((n / 10) * 10 + n % 10 == n);
        assert(decimal(n)[0] == decimal(n / 10)[0]);
    }
}

/// Reading back the decimal numeral of a `u32` gives the number.
pub proof fn law_parse_reads_decimal(n: u32)
    ensures
        parsed_u32(decimal(n as nat)) == Ok::<u32, ParseIntError>(n),
{
    lemma_parse_decimal(n as nat);
}

/// Parses a `u32` the way `str::parse::<u32>` does.
pub fn parse_u32(text: &str) -> (r: Result<u32, ParseIntError>)
    ensures
        r == parsed_u32(text@),
{
    let s = chars_of(text);
    let n = s.len();
    if n == 0 {
        return Err(ParseIntError::Empty);
    }
    if n == 1 && (s[0] == '+' || s[0] == '-') {
        return Err(ParseIntError::InvalidDigit);
    }
    let mut i: usize = if s[0] == '+' { 1 } else { 0 };
    let ghost digits = s@.skip(i as int);
    proof {
        if i == 1 {
            assert(digits =~= s@.drop_first());
        } else {
            assert(digits =~= s@);
        }
        assert(s@.skip(i as int) =~= digits);
    }
    let mut acc: u32 = 0;
    while i < n
        invariant
            i <= n == s@.len(),
            s@ == text@,
            parse_digits(s@.skip(i as int), acc as nat) == parsed_u32(s@),
        decreases n - i,
    {
        proof {
            assert(s@.skip(i as int).drop_first() =~= s@.skip(i + 1));
        }
        let c = s[i];
        proof {
            assert(s@.skip(i as int)[0] == c);
        }
        if !('0' <= c && c <= '9') {
            return Err(ParseIntError::InvalidDigit);
        }
        let d = (c as u32) - ('0' as u32);
        proof {
            assert(digit_value(c) == d);
        }
        if acc > (u32::MAX - d) / 10 {
            proof {
                assert(acc as nat * 10 + d as nat > u32::MAX) by (nonlinear_arith)
                    requires
                        acc > (u32::MAX - d) / 10,
                        d <= 9,
                ;
            }
            return Err(ParseIntError::PosOverflow);
        }
        proof {
            assert(acc as nat * 10 + d as nat <= u32::MAX) by (nonlinear_arith)
                requires
                    acc <= (u32::MAX - d) / 10,
                    d <= 9,
            ;
        }
        acc = acc * 10 + d;
        i = i + 1;
    }
    proof {
        assert(s@.skip(i as int).len() == 0);
    }
    Ok(acc)
}

/// A numeric field as the JSON value the API sent: a number (with its value
/// when it is a non-negative integer that fits `u64`), a string, `null`,
/// or any other JSON value.
pub enum NumericField {
    Number(Option<u64>),
    Text(String),
    Null,
    Other,
}

/// Why a numeric field could not be read as a `u32`.
#[derive(Clone, Copy, Debug, PartialEq, Eq, Structural)]
pub enum NumericFieldError {
    /// A JSON number that is not an integer in `u32`'s range.
    OutOfRange,
    /// A string that does not parse as a `u32`.
    Parse(ParseIntError),
    /// A JSON value that is neither a number, a string, nor `null`.
    UnexpectedType,
}

/// The `u32` a numeric field holds: numbers as they are, strings parsed
/// (blank strings and `null` count as 0).
pub open spec fn numeric_field_u32(field: NumericField) -> Result<u32, NumericFieldError> {
    match field {
        NumericField::Number(Some(raw)) => if raw <= u32::MAX {
            Ok(raw as u32)
        } else {
            Err(NumericFieldError::OutOfRange)
        },
        NumericField::Number(None) => Err(NumericFieldError::OutOfRange),
        NumericField::Text(text) => if all_white_space(text@) {
            Ok(0)
        } else {
            match parsed_u32(text@) {
                Ok(v) => Ok(v),
                Err(e) => Err(NumericFieldError::Parse(e)),
            }
        },
        NumericField::Null => Ok(0),
        NumericField::Other => Err(NumericFieldError::UnexpectedType),
    }
}

/// Reads a numeric API field, which the API often sends as a string.
pub fn read_u32_field(field: &NumericField) -> (r: Result<u32, NumericFieldError>)
    ensures
        r == numeric_field_u32(*field),
{
    match field {
        NumericField::Number(Some(raw)) => {
            if *raw <= u32::MAX as u64 {
                Ok(*raw as u32)
            } else {
                Err(NumericFieldError::OutOfRange)
            }
        },
        NumericField::Number(None) => Err(NumericFieldError::OutOfRange),
        NumericField::Text(text) => {
            if str_is_blank(text.as_str()) {
                Ok(0)
            } else {
                match parse_u32(text.as_str()) {
                    Ok(v) => Ok(v),
                    Err(e) => Err(NumericFieldError::Parse(e)),
                }
            }
        },
        NumericField::Null => Ok(0),
        NumericField::Other => Err(NumericFieldError::UnexpectedType),
    }
}

} // verus!
