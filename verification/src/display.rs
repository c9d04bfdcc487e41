//! Certification records laid out as text tables for the terminal.

use vstd::prelude::*;
use crate::api::{GitekiInfo, GitekiInformation};
use crate::external::str_width;
use crate::elec_wave::{format_elec_wave, formatted_elec_wave, unit_patterns_compile, check_unit_patterns};
use crate::text::{
    all_white_space, append_str, chars_of, decimal, is_blank, is_white_space, push_decimal, str_is_blank,
    string_of, string_views,
};
use crate::wrap::{
    clamp, dash_if_blank, empty_dash, line_widths, max_line_width, max_of, max_display_line_width,
    max_width_of_strings, pad_right, padded_right, preserved_value, rule, rule_line, sat_sub, spaces,
    wrap_preserving_spaces, wrapped_value, wrap_value, append_strings, preserving_wrap_finishes,
};

verus! {

broadcast use vstd::string::group_string_axioms;

// ---------------------------------------------------------------------------
// Rows and records
// ---------------------------------------------------------------------------

/// A labelled row of a record's table.
pub struct DisplayRow {
    pub label: &'static str,
    pub value: String,
    /// Wrap the value without collapsing its internal spacing.
    pub preserve_spacing: bool,
}

/// What a `DisplayRow` holds, as plain values.
pub struct DisplayRowView {
    pub label: Seq<char>,
    pub value: Seq<char>,
    pub preserve: bool,
}

impl DisplayRow {
    pub open spec fn view(&self) -> DisplayRowView {
        DisplayRowView { label: self.label@, value: self.value@, preserve: self.preserve_spacing }
    }

    /// The same row, its value wrapped without collapsing spaces.
    pub fn preserve_spacing(self) -> (row: DisplayRow)
        ensures
            row.view() == (DisplayRowView { preserve: true, ..self.view() }),
    {
        let mut row = self;
        row.preserve_spacing = true;
        row
    }
}

/// A row with ordinary wrapping.
pub fn display_row(label: &'static str, value: String) -> (row: DisplayRow)
    ensures
        row.view() == (DisplayRowView { label: label@, value: value@, preserve: false }),
{
    DisplayRow { label, value, preserve_spacing: false }
}

/// A record's table: a title line and labelled rows.
pub struct DisplayRecord {
    pub title: String,
    pub rows: Vec<DisplayRow>,
}

/// What a `DisplayRecord` holds, as plain values.
pub struct DisplayRecordView {
    pub title: Seq<char>,
    pub rows: Seq<DisplayRowView>,
}

/// The views of some rows.
pub open spec fn row_views(rows: Seq<DisplayRow>) -> Seq<DisplayRowView> {
    rows.map_values(|r: DisplayRow| r.view())
}

impl DisplayRecord {
    pub open spec fn view(&self) -> DisplayRecordView {
        DisplayRecordView { title: self.title@, rows: row_views(self.rows@) }
    }
}

/// The views of some records.
pub open spec fn record_views(records: Seq<DisplayRecord>) -> Seq<DisplayRecordView> {
    records.map_values(|r: DisplayRecord| r.view())
}

/// The column widths of the tables.
pub struct TableLayout {
    pub table_width: usize,
    pub label_width: usize,
    pub value_width: usize,
}

/// The record has an attachment: a file name or a file key.
pub open spec fn has_attachment_spec(item: GitekiInfo) -> bool {
    !all_white_space(item.attachment_file_name@) || !all_white_space(item.attachment_file_key@)
}

/// Whether the record has an attachment.
pub fn has_attachment(item: &GitekiInfo) -> (b: bool)
    ensures
        b == has_attachment_spec(*item),
{
    !str_is_blank(item.attachment_file_name.as_str()) || !str_is_blank(
        item.attachment_file_key.as_str(),
    )
}

/// A row with ordinary wrapping, as a plain value.
pub open spec fn row_of(label: Seq<char>, value: Seq<char>) -> DisplayRowView {
    DisplayRowView { label, value, preserve: false }
}

/// The title of the `index`-th record (counted from 0): its position from
/// 1, number, model and applicant, blank ones shown as `-`.
pub open spec fn record_title(index: nat, item: GitekiInfo) -> Seq<char> {
    "#"@ + decimal(index + 1) + "  "@ + dash_if_blank(item.number@) + "  "@ + dash_if_blank(
        item.model_name@,
    ) + "  "@ + dash_if_blank(item.name@)
}

/// The `index`-th record's title starts with `#` and its position counted
/// from 1, and lists its number, model and applicant after two spaces
/// each, a blank one shown as `-`; the position reads back as `index + 1`.
pub proof fn law_record_title_numbering(index: nat, item: GitekiInfo)
    requires
        index + 1 <= u32::MAX,
    ensures
        ({
            let title = record_title(index, item);
            let head = "#"@ + decimal(index + 1);
            &&& title.take(head.len() as int) == head
            &&& crate::api::parsed_u32(decimal(index + 1)) == Ok::<u32, crate::api::ParseIntError>(
                (index + 1) as u32,
            )
            &&& title.skip(head.len() as int) == "  "@ + dash_if_blank(item.number@) + "  "@
                + dash_if_blank(item.model_name@) + "  "@ + dash_if_blank(item.name@)
        }),
{
    let head = "#"@ + decimal(index + 1);
    let title = record_title(index, item);
    let rest = "  "@ + dash_if_blank(item.number@) + "  "@ + dash_if_blank(item.model_name@) + "  "@
        + dash_if_blank(item.name@);
    assert(title =~= head + rest);
    assert(title.take(head.len() as int) =~= head);
    assert(title.skip(head.len() as int) =~= rest);
    crate::api::law_parse_reads_decimal((index + 1) as u32);
}

/// The rows every record has, before blank ones are dropped.
pub open spec fn base_rows(item: GitekiInfo) -> Seq<DisplayRowView> {
    seq![
        row_of("種類"@, item.tech_code@),
        row_of("番号"@, item.number@),
        row_of("年月日"@, item.date@),
        row_of("氏名又は名称"@, item.name@),
        row_of("型式又は名称"@, item.model_name@),
        row_of("特定無線設備の種別"@, item.radio_equipment_code@),
        DisplayRowView {
            label: "電波の型式\n周波数及び空中線電力"@,
            value: formatted_elec_wave(item.elec_wave@),
            preserve: true,
        },
        row_of("スプリアス規定"@, item.spurious_rules@),
        row_of("BODYSAR"@, item.body_sar@),
        row_of("周波数維持機能"@, item.fq_maintain_func@),
        row_of("備考"@, item.note@),
        row_of("認証機関名称"@, item.organ_name@),
    ]
}

/// The attachment rows of a record with an attachment.
pub open spec fn attachment_rows(item: GitekiInfo) -> Seq<DisplayRowView> {
    seq![
        row_of("添付ファイル名"@, item.attachment_file_name@),
        row_of("添付ファイルキー"@, item.attachment_file_key@),
        row_of(
            "添付ファイル数"@,
            "外観写真等: "@ + dash_if_blank(item.attachment_file_cnt_for_cd_1@) + " / 特性試験の結果: "@
                + dash_if_blank(item.attachment_file_cnt_for_cd_2@),
        ),
    ]
}

/// The rows whose value is not blank, in order.
pub open spec fn nonblank_rows(rows: Seq<DisplayRowView>) -> Seq<DisplayRowView>
    decreases rows.len(),
{
    if rows.len() == 0 {
        seq![]
    } else if all_white_space(rows.last().value) {
        nonblank_rows(rows.drop_last())
    } else {
        nonblank_rows(rows.drop_last()).push(rows.last())
    }
}

/// The rows of a record before blank ones are dropped: its field rows, then
/// its attachment rows when it has an attachment.
pub open spec fn source_rows(item: GitekiInfo) -> Seq<DisplayRowView> {
    base_rows(item) + (if has_attachment_spec(item) {
        attachment_rows(item)
    } else {
        seq![]
    })
}

/// The table of the `index`-th record: its title and its non-blank rows,
/// the attachment rows only when it has an attachment.
pub open spec fn record_of(index: nat, item: GitekiInfo) -> DisplayRecordView {
    DisplayRecordView { title: record_title(index, item), rows: nonblank_rows(source_rows(item)) }
}

proof fn lemma_nonblank_rows(rows: Seq<DisplayRowView>)
    ensures
        forall|i: int|
            #![trigger nonblank_rows(rows)[i]]
            0 <= i < nonblank_rows(rows).len() ==> !all_white_space(nonblank_rows(rows)[i].value)
                && rows.contains(nonblank_rows(rows)[i]),
    decreases rows.len(),
{
    if rows.len() > 0 {
        let rest = rows.drop_last();
        lemma_nonblank_rows(rest);
        assert forall|i: int|
            #![trigger nonblank_rows(rows)[i]]
            0 <= i < nonblank_rows(rows).len() implies !all_white_space(nonblank_rows(rows)[i].value)
                && rows.contains(nonblank_rows(rows)[i]) by {
            if i < nonblank_rows(rest).len() {
                assert(nonblank_rows(rows)[i] == nonblank_rows(rest)[i]);
                assert(!all_white_space(nonblank_rows(rest)[i].value) && rest.contains(
                    nonblank_rows(rest)[i],
                ));
                let k = choose|k: int| 0 <= k < rest.len() && rest[k] == nonblank_rows(rest)[i];
                assert(rows[k] == rest[k]);
            } else {
                assert(nonblank_rows(rows)[i] == rows.last());
                assert(rows[rows.len() - 1] == rows.last());
            }
        }
    }
}

/// A record's table shows no row with a blank value, and each of its rows
/// is one of the record's field rows, or one of its attachment rows when it
/// has an attachment.
pub proof fn law_record_rows_nonblank(index: nat, item: GitekiInfo)
    ensures
        ({
            let rows = record_of(index, item).rows;
            forall|i: int|
                0 <= i < rows.len() ==> !all_white_space(#[trigger] rows[i].value) && (base_rows(
                    item,
                ).contains(rows[i]) || (has_attachment_spec(item) && attachment_rows(item).contains(
                    rows[i],
                )))
        }),
{
    let base = base_rows(item);
    let extra: Seq<DisplayRowView> = if has_attachment_spec(item) {
        attachment_rows(item)
    } else {
        seq![]
    };
    lemma_nonblank_rows(base + extra);
    let rows = record_of(index, item).rows;
    assert forall|i: int| 0 <= i < rows.len() implies !all_white_space(#[trigger] rows[i].value) && (
    base.contains(rows[i]) || (has_attachment_spec(item) && attachment_rows(item).contains(rows[i])))
        by {
        let all = base + extra;
        assert(rows == nonblank_rows(all));
        assert(!all_white_space(nonblank_rows(all)[i].value) && all.contains(nonblank_rows(all)[i]));
        let k = choose|k: int| 0 <= k < all.len() && all[k] == rows[i];
        if k < base.len() {
            assert(base[k] == all[k]);
        } else {
            assert(extra[k - base.len()] == all[k]);
        }
    }
}

/// `sub` is `s` with some rows left out, the others in their order: its
/// `i`-th row is the row of `s` at position `pos[i]`, positions increasing.
pub open spec fn selects_in_order(
    sub: Seq<DisplayRowView>,
    s: Seq<DisplayRowView>,
    pos: Seq<int>,
) -> bool {
    &&& pos.len() == sub.len()
    &&& forall|i: int| 0 <= i < pos.len() ==> 0 <= #[trigger] pos[i] < s.len() && sub[i] == s[pos[i]]
    &&& forall|i: int, j: int| 0 <= i < j < pos.len() ==> #[trigger] pos[i] < #[trigger] pos[j]
}

proof fn lemma_nonblank_selection(s: Seq<DisplayRowView>) -> (pos: Seq<int>)
    ensures
        selects_in_order(nonblank_rows(s), s, pos),
        forall|k: int|
            0 <= k < s.len() && !all_white_space(#[trigger] s[k].value) ==> exists|i: int|
                0 <= i < pos.len() && #[trigger] pos[i] == k,
    decreases s.len(),
{
    if s.len() == 0 {
        Seq::<int>::empty()
    } else {
        let rest = s.drop_last();
        let p = lemma_nonblank_selection(rest);
        let last = s.len() - 1;
        if all_white_space(s.last().value) {
            assert forall|k: int|
                0 <= k < s.len() && !all_white_space(#[trigger] s[k].value) implies exists|i: int|
                0 <= i < p.len() && #[trigger] p[i] == k by {
                assert(s[k] == rest[k]);
            }
            p
        } else {
            let q = p.push(last);
            assert forall|i: int| 0 <= i < q.len() implies 0 <= #[trigger] q[i] < s.len()
                && nonblank_rows(s)[i] == s[q[i]] by {
                if i < p.len() {
                    assert(q[i] == p[i]);
                    assert(nonblank_rows(s)[i] == nonblank_rows(rest)[i]);
                    assert(rest[p[i]] == s[p[i]]);
                }
            }
            assert forall|i: int, j: int| 0 <= i < j < q.len() implies #[trigger] q[i]
                < #[trigger] q[j] by {
                assert(q[i] == p[i]);
                if j < p.len() {
                    assert(q[j] == p[j]);
                }
            }
            assert forall|k: int|
                0 <= k < s.len() && !all_white_space(#[trigger] s[k].value) implies exists|i: int|
                0 <= i < q.len() && #[trigger] q[i] == k by {
                if k < last {
                    assert(s[k] == rest[k]);
                    let i = choose|i: int| 0 <= i < p.len() && #[trigger] p[i] == k;
                    assert(q[i] == k);
                } else {
                    assert(q[p.len() as int] == k);
                }
            }
            q
        }
    }
}

/// The radio-wave row of a record, its value formatted and its spacing kept.
pub open spec fn radio_wave_row(item: GitekiInfo) -> DisplayRowView {
    DisplayRowView {
        label: "電波の型式\n周波数及び空中線電力"@,
        value: formatted_elec_wave(item.elec_wave@),
        preserve: true,
    }
}

/// The row counting a record's attachment files.
pub open spec fn attachment_count_row(item: GitekiInfo) -> DisplayRowView {
    row_of(
        "添付ファイル数"@,
        "外観写真等: "@ + dash_if_blank(item.attachment_file_cnt_for_cd_1@) + " / 特性試験の結果: "@
            + dash_if_blank(item.attachment_file_cnt_for_cd_2@),
    )
}

proof fn lemma_source_row_at(item: GitekiInfo, k: int)
    requires
        0 <= k < source_rows(item).len(),
    ensures
        source_rows(item)[k].label == "添付ファイル数"@ <==> k == 14,
        source_rows(item)[k].preserve <==> k == 6,
{
    let s = source_rows(item);
    let base = base_rows(item);
    let count = "添付ファイル数"@;
    reveal_strlit("添付ファイル数");
    reveal_strlit("添付ファイル名");
    reveal_strlit("添付ファイルキー");
    reveal_strlit("種類");
    reveal_strlit("番号");
    reveal_strlit("年月日");
    reveal_strlit("氏名又は名称");
    reveal_strlit("型式又は名称");
    reveal_strlit("特定無線設備の種別");
    reveal_strlit("電波の型式\n周波数及び空中線電力");
    reveal_strlit("スプリアス規定");
    reveal_strlit("BODYSAR");
    reveal_strlit("周波数維持機能");
    reveal_strlit("備考");
    reveal_strlit("認証機関名称");
    if k < 12 {
        assert(s[k] == base[k]);
    } else {
        assert(s[k] == attachment_rows(item)[k - 12]);
    }
    if k == 0 {
        assert(s[k].label == "種類"@);
    } else if k == 1 {
        assert(s[k].label == "番号"@);
    } else if k == 2 {
        assert(s[k].label == "年月日"@);
    } else if k == 3 {
        assert(s[k].label == "氏名又は名称"@);
    } else if k == 4 {
        assert(s[k].label == "型式又は名称"@);
    } else if k == 5 {
        assert(s[k].label == "特定無線設備の種別"@);
    } else if k == 6 {
        assert(s[k].label == "電波の型式\n周波数及び空中線電力"@);
    } else if k == 7 {
        assert(s[k].label == "スプリアス規定"@);
        assert(s[k].label[0] != count[0]);
    } else if k == 8 {
        assert(s[k].label == "BODYSAR"@);
        assert(s[k].label[0] != count[0]);
    } else if k == 9 {
        assert(s[k].label == "周波数維持機能"@);
        assert(s[k].label[0] != count[0]);
    } else if k == 10 {
        assert(s[k].label == "備考"@);
    } else if k == 11 {
        assert(s[k].label == "認証機関名称"@);
    } else if k == 12 {
        assert(s[k].label == "添付ファイル名"@);
        assert(s[k].label[6] != count[6]);
    } else if k == 13 {
        assert(s[k].label == "添付ファイルキー"@);
    } else {
        assert(s[k].label == count);
    }
}

/// The field of a record that the row labelled `label` shows: the record's
/// attribute of that name (the radio-wave text formatted, the attachment
/// counts combined); `None` for a label no row has.
pub open spec fn labelled_field(item: GitekiInfo, label: Seq<char>) -> Option<Seq<char>> {
    if label == "種類"@ {
        Some(item.tech_code@)
    } else if label == "番号"@ {
        Some(item.number@)
    } else if label == "年月日"@ {
        Some(item.date@)
    } else if label == "氏名又は名称"@ {
        Some(item.name@)
    } else if label == "型式又は名称"@ {
        Some(item.model_name@)
    } else if label == "特定無線設備の種別"@ {
        Some(item.radio_equipment_code@)
    } else if label == "電波の型式\n周波数及び空中線電力"@ {
        Some(formatted_elec_wave(item.elec_wave@))
    } else if label == "スプリアス規定"@ {
        Some(item.spurious_rules@)
    } else if label == "BODYSAR"@ {
        Some(item.body_sar@)
    } else if label == "周波数維持機能"@ {
        Some(item.fq_maintain_func@)
    } else if label == "備考"@ {
        Some(item.note@)
    } else if label == "認証機関名称"@ {
        Some(item.organ_name@)
    } else if label == "添付ファイル名"@ {
        Some(item.attachment_file_name@)
    } else if label == "添付ファイルキー"@ {
        Some(item.attachment_file_key@)
    } else if label == "添付ファイル数"@ {
        Some("外観写真等: "@ + dash_if_blank(item.attachment_file_cnt_for_cd_1@) + " / 特性試験の結果: "@
            + dash_if_blank(item.attachment_file_cnt_for_cd_2@))
    } else {
        None
    }
}

proof fn lemma_labelled_field_at(item: GitekiInfo, k: int)
    requires
        0 <= k < source_rows(item).len(),
    ensures
        labelled_field(item, source_rows(item)[k].label) == Some(source_rows(item)[k].value),
{
    let s = source_rows(item);
    reveal_strlit("種類");
    reveal_strlit("番号");
    reveal_strlit("年月日");
    reveal_strlit("氏名又は名称");
    reveal_strlit("型式又は名称");
    reveal_strlit("特定無線設備の種別");
    reveal_strlit("電波の型式\n周波数及び空中線電力");
    reveal_strlit("スプリアス規定");
    reveal_strlit("BODYSAR");
    reveal_strlit("周波数維持機能");
    reveal_strlit("備考");
    reveal_strlit("認証機関名称");
    reveal_strlit("添付ファイル名");
    reveal_strlit("添付ファイルキー");
    reveal_strlit("添付ファイル数");
    if k < 12 {
        assert(s[k] == base_rows(item)[k]);
    } else {
        assert(s[k] == attachment_rows(item)[k - 12]);
    }
    if k == 0 {
        assert(s[k].label == "種類"@);
    } else if k == 1 {
        assert(s[k].label == "番号"@);
        assert("番号"@[0] != "種類"@[0]);
    } else if k == 2 {
        assert(s[k].label == "年月日"@);
    } else if k == 3 {
        assert(s[k].label == "氏名又は名称"@);
    } else if k == 4 {
        assert(s[k].label == "型式又は名称"@);
        assert("型式又は名称"@[0] != "氏名又は名称"@[0]);
    } else if k == 5 {
        assert(s[k].label == "特定無線設備の種別"@);
    } else if k == 6 {
        assert(s[k].label == "電波の型式\n周波数及び空中線電力"@);
    } else if k == 7 {
        assert(s[k].label == "スプリアス規定"@);
    } else if k == 8 {
        assert(s[k].label == "BODYSAR"@);
        assert("BODYSAR"@[0] != "スプリアス規定"@[0]);
    } else if k == 9 {
        assert(s[k].label == "周波数維持機能"@);
        assert("周波数維持機能"@[0] != "スプリアス規定"@[0]);
        assert("周波数維持機能"@[0] != "BODYSAR"@[0]);
    } else if k == 10 {
        assert(s[k].label == "備考"@);
        assert("備考"@[0] != "種類"@[0]);
        assert("備考"@[0] != "番号"@[0]);
    } else if k == 11 {
        assert(s[k].label == "認証機関名称"@);
        assert("認証機関名称"@[0] != "氏名又は名称"@[0]);
        assert("認証機関名称"@[0] != "型式又は名称"@[0]);
    } else if k == 12 {
        assert(s[k].label == "添付ファイル名"@);
        assert("添付ファイル名"@[0] != "スプリアス規定"@[0]);
        assert("添付ファイル名"@[0] != "BODYSAR"@[0]);
        assert("添付ファイル名"@[0] != "周波数維持機能"@[0]);
    } else if k == 13 {
        assert(s[k].label == "添付ファイルキー"@);
    } else if k == 14 {
        assert(s[k].label == "添付ファイル数"@);
        assert("添付ファイル数"@[0] != "スプリアス規定"@[0]);
        assert("添付ファイル数"@[0] != "BODYSAR"@[0]);
        assert("添付ファイル数"@[0] != "周波数維持機能"@[0]);
        assert("添付ファイル数"@[6] != "添付ファイル名"@[6]);
    }
}

/// Each row of a record's table holds the field its label names: the
/// row labelled 氏名又は名称 shows the applicant's name, the one labelled
/// 型式又は名称 the model name, and so on for every label.
pub proof fn law_record_rows_hold_their_fields(index: nat, item: GitekiInfo)
    ensures
        forall|i: int|
            0 <= i < record_of(index, item).rows.len() ==> labelled_field(
                item,
                #[trigger] record_of(index, item).rows[i].label,
            ) == Some(record_of(index, item).rows[i].value),
{
    let s = source_rows(item);
    let rows = record_of(index, item).rows;
    let pos = lemma_nonblank_selection(s);
    assert forall|i: int| 0 <= i < rows.len() implies labelled_field(item, #[trigger] rows[i].label)
        == Some(rows[i].value) by {
        assert(rows[i] == s[pos[i]]);
        lemma_labelled_field_at(item, pos[i]);
    }
}

/// The shape of a record's table: its rows are the record's source rows in
/// their order, some left out; the attachment-count row is there exactly
/// when the record has an attachment, and is the only row with its label;
/// the radio-wave row is the only row that keeps its spacing, and is there
/// exactly when the formatted radio-wave text is not blank.
pub proof fn law_record_structure(index: nat, item: GitekiInfo)
    ensures
        ({
            let rows = record_of(index, item).rows;
            &&& exists|pos: Seq<int>| selects_in_order(rows, source_rows(item), pos)
            &&& (exists|i: int| 0 <= i < rows.len() && #[trigger] rows[i].label == "添付ファイル数"@)
                <==> has_attachment_spec(item)
            &&& forall|i: int|
                0 <= i < rows.len() && #[trigger] rows[i].label == "添付ファイル数"@ ==> rows[i]
                    == attachment_count_row(item)
            &&& forall|i: int|
                0 <= i < rows.len() ==> (#[trigger] rows[i].preserve <==> rows[i] == radio_wave_row(
                    item,
                ))
            &&& (exists|i: int| 0 <= i < rows.len() && #[trigger] rows[i].preserve) <==> !all_white_space(
                formatted_elec_wave(item.elec_wave@),
            )
        }),
{
    let s = source_rows(item);
    let rows = record_of(index, item).rows;
    let pos = lemma_nonblank_selection(s);
    lemma_nonblank_rows(s);
    let count = "添付ファイル数"@;
    reveal_strlit("添付ファイル数");
    reveal_strlit("外観写真等: ");
    assert(s.len() == if has_attachment_spec(item) { 15int } else { 12int });
    assert forall|k: int| 0 <= k < s.len() implies (#[trigger] s[k].label == count <==> k == 14)
        && (s[k].preserve <==> k == 6) by {
        lemma_source_row_at(item, k);
    }
    assert(s[6] == radio_wave_row(item));
    if has_attachment_spec(item) {
        assert(s[14] == attachment_rows(item)[2]);
        assert(s[14] == attachment_count_row(item));
    }
    assert(selects_in_order(rows, s, pos));
    assert forall|i: int| 0 <= i < rows.len() && #[trigger] rows[i].label == count implies rows[i]
        == attachment_count_row(item) by {
        assert(rows[i] == s[pos[i]]);
    }
    assert forall|i: int| 0 <= i < rows.len() implies (#[trigger] rows[i].preserve <==> rows[i]
        == radio_wave_row(item)) by {
        assert(rows[i] == s[pos[i]]);
    }
    if has_attachment_spec(item) {
        assert(!all_white_space(s[14].value)) by {
            assert(s[14].value[0] == '外');
            assert(!is_white_space(s[14].value[0]));
        }
        let i = choose|i: int| 0 <= i < pos.len() && #[trigger] pos[i] == 14;
        assert(rows[i] == s[14]);
        assert(rows[i].label == count);
    } else {
        assert forall|i: int| 0 <= i < rows.len() implies #[trigger] rows[i].label != count by {
            assert(rows[i] == s[pos[i]]);
        }
    }
    if !all_white_space(formatted_elec_wave(item.elec_wave@)) {
        assert(!all_white_space(s[6].value));
        let i = choose|i: int| 0 <= i < pos.len() && #[trigger] pos[i] == 6;
        assert(rows[i] == s[6]);
        assert(rows[i].preserve);
    } else {
        assert forall|i: int| 0 <= i < rows.len() implies !#[trigger] rows[i].preserve by {
            assert(rows[i] == s[pos[i]]);
            if rows[i].preserve {
                assert(!all_white_space(nonblank_rows(s)[i].value));
            }
        }
    }
}

/// Builds the table of the `index`-th record (counted from 0).
pub fn build_display_record(index: usize, item: &GitekiInfo) -> (record: DisplayRecord)
    requires
        unit_patterns_compile(),
    ensures
        record.view() == record_of(index as nat, *item),
{
    let mut title: Vec<char> = Vec::new();
    append_str(&mut title, "#");
    push_decimal(&mut title, index as u128 + 1);
    append_str(&mut title, "  ");
    append_str(&mut title, empty_dash(item.number.as_str()));
    append_str(&mut title, "  ");
    append_str(&mut title, empty_dash(item.model_name.as_str()));
    append_str(&mut title, "  ");
    append_str(&mut title, empty_dash(item.name.as_str()));
    proof {
        assert(title@ =~= record_title(index as nat, *item));
    }
    let mut rows: Vec<DisplayRow> = Vec::new();
    rows.push(display_row("種類", item.tech_code.clone()));
    rows.push(display_row("番号", item.number.clone()));
    rows.push(display_row("年月日", item.date.clone()));
    rows.push(display_row("氏名又は名称", item.name.clone()));
    rows.push(display_row("型式又は名称", item.model_name.clone()));
    rows.push(display_row("特定無線設備の種別", item.radio_equipment_code.clone()));
    rows.push(
        display_row(
            "電波の型式\n周波数及び空中線電力",
            format_elec_wave(item.elec_wave.as_str()),
        ).preserve_spacing(),
    );
    rows.push(display_row("スプリアス規定", item.spurious_rules.clone()));
    rows.push(display_row("BODYSAR", item.body_sar.clone()));
    rows.push(display_row("周波数維持機能", item.fq_maintain_func.clone()));
    rows.push(display_row("備考", item.note.clone()));
    rows.push(display_row("認証機関名称", item.organ_name.clone()));
    proof {
        assert(row_views(rows@) =~= base_rows(*item));
    }
    let attached = has_attachment(item);
    if attached {
        rows.push(display_row("添付ファイル名", item.attachment_file_name.clone()));
        rows.push(display_row("添付ファイルキー", item.attachment_file_key.clone()));
        let mut count: Vec<char> = Vec::new();
        append_str(&mut count, "外観写真等: ");
        append_str(&mut count, empty_dash(item.attachment_file_cnt_for_cd_1.as_str()));
        append_str(&mut count, " / 特性試験の結果: ");
        append_str(&mut count, empty_dash(item.attachment_file_cnt_for_cd_2.as_str()));
        rows.push(display_row("添付ファイル数", string_of(&count)));
        proof {
            assert(row_views(rows@) =~= base_rows(*item) + attachment_rows(*item));
        }
    } else {
        proof {
            assert(row_views(rows@) =~= base_rows(*item) + Seq::<DisplayRowView>::empty());
        }
    }
    let ghost all = row_views(rows@);
    let mut kept: Vec<DisplayRow> = Vec::new();
    let n = rows.len();
    let mut rev: Vec<DisplayRow> = Vec::new();
    let mut k: usize = 0;
    // Reverse the rows, so that they can be taken from the back in order.
    while k < n
        invariant
            k <= n == all.len(),
            rows.len() == n - k,
            forall|m: int| 0 <= m < rows.len() ==> #[trigger] rows@[m].view() == all[m],
            rev.len() == k,
            forall|m: int| 0 <= m < k ==> #[trigger] rev@[m].view() == all[n - 1 - m],
        decreases n - k,
    {
        let row = rows.pop().unwrap();
        proof {
            assert(row.view() == all[n - 1 - k]);
        }
        rev.push(row);
        k = k + 1;
    }
    let mut j: usize = 0;
    while j < n
        invariant
            j <= n == all.len(),
            rev.len() == n - j,
            forall|m: int| 0 <= m < rev.len() ==> #[trigger] rev@[m].view() == all[n - 1 - m],
            row_views(kept@) == nonblank_rows(all.take(j as int)),
        decreases n - j,
    {
        let row = rev.pop().unwrap();
        proof {
            assert(row.view() == all[j as int]);
            assert(all.take(j + 1).drop_last() =~= all.take(j as int));
            assert(all.take(j + 1).last() == all[j as int]);
        }
        let blank = is_blank(&chars_of(row.value.as_str()));
        if !blank {
            let ghost before = kept@;
            let ghost rv = row.view();
            kept.push(row);
            proof {
                assert(kept@ =~= before.push(kept@.last()));
                assert(row_views(kept@) =~= row_views(before).push(rv));
            }
        }
        j = j + 1;
    }
    proof {
        assert(all.take(n as int) =~= all);
    }
    DisplayRecord { title: string_of(&title), rows: kept }
}


// ---------------------------------------------------------------------------
// Layout
// ---------------------------------------------------------------------------

/// The wrapped lines of a row's value at `width` columns; `None` when a
/// spacing-preserving value never finishes wrapping.
pub open spec fn row_lines(row: DisplayRowView, width: usize) -> Option<Seq<Seq<char>>> {
    if row.preserve {
        preserved_value(row.value, width)
    } else {
        Some(wrapped_value(row.value, width))
    }
}

/// Wraps a row's value, keeping its spacing when the row asks for it.
pub fn wrap_row_value(row: &DisplayRow, width: usize) -> (lines: Vec<String>)
    requires
        row_lines(row.view(), width) is Some,
    ensures
        row_lines(row.view(), width) == Some(string_views(lines@)),
{
    if row.preserve_spacing {
        wrap_preserving_spaces(row.value.as_str(), width)
    } else {
        wrap_value(row.value.as_str(), width)
    }
}

/// All rows of all records, in order.
pub open spec fn all_rows(records: Seq<DisplayRecordView>) -> Seq<DisplayRowView>
    decreases records.len(),
{
    if records.len() == 0 {
        seq![]
    } else {
        all_rows(records.drop_last()) + records.last().rows
    }
}

/// The widest label line among the rows.
pub open spec fn widest_label(rows: Seq<DisplayRowView>) -> nat
    decreases rows.len(),
{
    if rows.len() == 0 {
        0
    } else {
        let rest = widest_label(rows.drop_last());
        let w = max_line_width(rows.last().label);
        if w > rest {
            w
        } else {
            rest
        }
    }
}

/// Every row's value finishes wrapping at `width` columns.
pub open spec fn rows_wrap(rows: Seq<DisplayRowView>, width: usize) -> bool {
    forall|i: int| 0 <= i < rows.len() ==> (#[trigger] row_lines(rows[i], width)) is Some
}

/// The widest wrapped value line among the rows at `width` columns.
pub open spec fn widest_value(rows: Seq<DisplayRowView>, width: usize) -> nat
    decreases rows.len(),
{
    if rows.len() == 0 {
        0
    } else {
        let rest = widest_value(rows.drop_last(), width);
        let w = match row_lines(rows.last(), width) {
            Some(ls) => max_of(line_widths(ls)),
            None => 0,
        };
        if w > rest {
            w
        } else {
            rest
        }
    }
}

/// The widest wrapped title line among the records at `width` columns.
pub open spec fn widest_title(records: Seq<DisplayRecordView>, width: usize) -> nat
    decreases records.len(),
{
    if records.len() == 0 {
        0
    } else {
        let rest = widest_title(records.drop_last(), width);
        let w = max_of(line_widths(wrapped_value(records.last().title, width)));
        if w > rest {
            w
        } else {
            rest
        }
    }
}

/// The gap between the label and value columns.
pub open spec fn column_gap() -> int {
    3
}

/// Tables are at most this wide: the terminal width, kept between 60 and
/// 140.
pub open spec fn max_table_width(terminal_width: usize) -> int {
    clamp(terminal_width as int, 60, 140)
}

/// The label column: the widest label line, kept between 8 and 28.
pub open spec fn label_width_of(records: Seq<DisplayRecordView>) -> int {
    clamp(widest_label(all_rows(records)) as int, 8, 28)
}

/// The widest the value column may be: what the widest table leaves after
/// the labels, but at least 20.
pub open spec fn max_value_width(records: Seq<DisplayRecordView>, terminal_width: usize) -> int {
    let rest = sat_sub(max_table_width(terminal_width), label_width_of(records) + column_gap());
    if rest > 20 {
        rest as int
    } else {
        20
    }
}

/// The layout of the tables: wide enough for the widest row and title
/// (between 20 and the maximum table width), the value column taking what
/// the labels leave (at least 20).
pub open spec fn layout_of(records: Seq<DisplayRecordView>, terminal_width: usize) -> TableLayout {
    let mtw = max_table_width(terminal_width);
    let label_width = label_width_of(records);
    let content = widest_value(all_rows(records), max_value_width(records, terminal_width) as usize);
    let title = widest_title(records, mtw as usize);
    let wide = if label_width + column_gap() + content > title {
        label_width + column_gap() + content
    } else {
        title as int
    };
    let table_width = clamp(wide, 20, mtw);
    let rest = sat_sub(table_width, label_width + column_gap());
    TableLayout {
        table_width: table_width as usize,
        label_width: label_width as usize,
        value_width: (if rest > 20 {
            rest as int
        } else {
            20
        }) as usize,
    }
}

proof fn lemma_all_rows_step(records: Seq<DisplayRecordView>, i: int)
    requires
        0 <= i < records.len(),
    ensures
        all_rows(records.take(i + 1)) == all_rows(records.take(i)) + records[i].rows,
{
    assert(records.take(i + 1).drop_last() =~= records.take(i));
}

proof fn lemma_rows_wrap_prefix(a: Seq<DisplayRowView>, b: Seq<DisplayRowView>, width: usize)
    requires
        rows_wrap(a + b, width),
    ensures
        rows_wrap(a, width),
        rows_wrap(b, width),
{
    assert forall|i: int| 0 <= i < a.len() implies (#[trigger] row_lines(a[i], width)) is Some by {
        assert((a + b)[i] == a[i]);
    }
    assert forall|i: int| 0 <= i < b.len() implies (#[trigger] row_lines(b[i], width)) is Some by {
        assert((a + b)[a.len() + i] == b[i]);
    }
}

proof fn lemma_all_rows_prefix_wrap(records: Seq<DisplayRecordView>, i: int, width: usize)
    requires
        0 <= i <= records.len(),
        rows_wrap(all_rows(records), width),
    ensures
        rows_wrap(all_rows(records.take(i)), width),
    decreases records.len() - i,
{
    if i == records.len() {
        assert(records.take(i) =~= records);
    } else {
        lemma_all_rows_prefix_wrap(records, i + 1, width);
        lemma_all_rows_step(records, i);
        lemma_rows_wrap_prefix(all_rows(records.take(i)), records[i].rows, width);
    }
}

/// The widest label line and widest wrapped value line of some rows.
fn widest_of_rows(rows: &Vec<DisplayRow>, width: usize) -> (r: (usize, usize))
    requires
        rows_wrap(row_views(rows@), width),
    ensures
        r.0 == widest_label(row_views(rows@)),
        r.1 == widest_value(row_views(rows@), width),
{
    let ghost rv = row_views(rows@);
    let mut label: usize = 0;
    let mut value: usize = 0;
    let mut i: usize = 0;
    while i < rows.len()
        invariant
            i <= rows.len(),
            rv == row_views(rows@),
            rows_wrap(rv, width),
            label == widest_label(rv.take(i as int)),
            value == widest_value(rv.take(i as int), width),
        decreases rows.len() - i,
    {
        proof {
            assert(rv.take(i + 1).drop_last() =~= rv.take(i as int));
            assert(rv.take(i + 1).last() == rows@[i as int].view());
            assert(row_lines(rv[i as int], width) is Some);
        }
        let w = max_display_line_width(rows[i].label);
        if w > label {
            label = w;
        }
        let lines = wrap_row_value(&rows[i], width);
        let w = max_width_of_strings(&lines);
        if w > value {
            value = w;
        }
        i = i + 1;
    }
    proof {
        assert(rv.take(rows@.len() as int) =~= rv);
    }
    (label, value)
}

proof fn lemma_widest_label_concat(a: Seq<DisplayRowView>, b: Seq<DisplayRowView>)
    ensures
        widest_label(a + b) == (if widest_label(a) > widest_label(b) {
            widest_label(a)
        } else {
            widest_label(b)
        }),
    decreases b.len(),
{
    if b.len() == 0 {
        assert(a + b =~= a);
    } else {
        lemma_widest_label_concat(a, b.drop_last());
        assert((a + b).drop_last() =~= a + b.drop_last());
    }
}

proof fn lemma_widest_value_concat(a: Seq<DisplayRowView>, b: Seq<DisplayRowView>, width: usize)
    ensures
        widest_value(a + b, width) == (if widest_value(a, width) > widest_value(b, width) {
            widest_value(a, width)
        } else {
            widest_value(b, width)
        }),
    decreases b.len(),
{
    if b.len() == 0 {
        assert(a + b =~= a);
    } else {
        lemma_widest_value_concat(a, b.drop_last(), width);
        assert((a + b).drop_last() =~= a + b.drop_last());
    }
}

/// The widest label line among all rows of all records.
fn widest_label_of_records(records: &Vec<DisplayRecord>) -> (w: usize)
    ensures
        w == widest_label(all_rows(record_views(records@))),
{
    let ghost rv = record_views(records@);
    let mut best: usize = 0;
    let mut i: usize = 0;
    while i < records.len()
        invariant
            i <= records.len(),
            rv == record_views(records@),
            best == widest_label(all_rows(rv.take(i as int))),
        decreases records.len() - i,
    {
        proof {
            lemma_all_rows_step(rv, i as int);
            lemma_widest_label_concat(all_rows(rv.take(i as int)), rv[i as int].rows);
            assert(rv[i as int] == records@[i as int].view());
        }
        let rows = &records[i].rows;
        let mut j: usize = 0;
        let mut w: usize = 0;
        let ghost rows_v = row_views(rows@);
        while j < rows.len()
            invariant
                j <= rows.len(),
                rows_v == row_views(rows@),
                w == widest_label(rows_v.take(j as int)),
            decreases rows.len() - j,
        {
            proof {
                assert(rows_v.take(j + 1).drop_last() =~= rows_v.take(j as int));
                assert(rows_v.take(j + 1).last() == rows@[j as int].view());
            }
            let lw = max_display_line_width(rows[j].label);
            if lw > w {
                w = lw;
            }
            j = j + 1;
        }
        proof {
            assert(rows_v.take(rows@.len() as int) =~= rows_v);
        }
        if w > best {
            best = w;
        }
        i = i + 1;
    }
    proof {
        assert(rv.take(records@.len() as int) =~= rv);
    }
    best
}

/// The widest wrapped value line among all rows of all records.
fn widest_value_of_records(records: &Vec<DisplayRecord>, width: usize) -> (w: usize)
    requires
        rows_wrap(all_rows(record_views(records@)), width),
    ensures
        w == widest_value(all_rows(record_views(records@)), width),
{
    let ghost rv = record_views(records@);
    let mut best: usize = 0;
    let mut i: usize = 0;
    while i < records.len()
        invariant
            i <= records.len(),
            rv == record_views(records@),
            rows_wrap(all_rows(rv), width),
            best == widest_value(all_rows(rv.take(i as int)), width),
        decreases records.len() - i,
    {
        proof {
            lemma_all_rows_step(rv, i as int);
            lemma_widest_value_concat(all_rows(rv.take(i as int)), rv[i as int].rows, width);
            assert(rv[i as int] == records@[i as int].view());
            lemma_all_rows_prefix_wrap(rv, i + 1, width);
            lemma_rows_wrap_prefix(all_rows(rv.take(i as int)), rv[i as int].rows, width);
        }
        let (_, w) = widest_of_rows(&records[i].rows, width);
        if w > best {
            best = w;
        }
        i = i + 1;
    }
    proof {
        assert(rv.take(records@.len() as int) =~= rv);
    }
    best
}

/// The widest wrapped title line among the records.
fn widest_title_of_records(records: &Vec<DisplayRecord>, width: usize) -> (w: usize)
    ensures
        w == widest_title(record_views(records@), width),
{
    let ghost rv = record_views(records@);
    let mut best: usize = 0;
    let mut i: usize = 0;
    while i < records.len()
        invariant
            i <= records.len(),
            rv == record_views(records@),
            best == widest_title(rv.take(i as int), width),
        decreases records.len() - i,
    {
        proof {
            assert(rv.take(i + 1).drop_last() =~= rv.take(i as int));
            assert(rv.take(i + 1).last() == records@[i as int].view());
        }
        let lines = wrap_value(records[i].title.as_str(), width);
        let w = max_width_of_strings(&lines);
        if w > best {
            best = w;
        }
        i = i + 1;
    }
    proof {
        assert(rv.take(records@.len() as int) =~= rv);
    }
    best
}

/// The widest the value column may be for these records.
pub fn max_value_width_for(records: &Vec<DisplayRecord>, terminal_width: usize) -> (w: usize)
    ensures
        w == max_value_width(record_views(records@), terminal_width),
{
    let max_table = if terminal_width < 60 {
        60
    } else if terminal_width > 140 {
        140
    } else {
        terminal_width
    };
    let widest = widest_label_of_records(records);
    let label_width = if widest < 8 {
        8
    } else if widest > 28 {
        28
    } else {
        widest
    };
    let rest = max_table.saturating_sub(label_width + 3);
    if rest > 20 {
        rest
    } else {
        20
    }
}

/// The label column is 8 to 28 columns wide; a table is 20 to 140 columns
/// wide and never wider than the terminal allows (60 at least); the value
/// column is at least 20 wide, no wider than the width values were measured
/// at, and fills the table beside the labels whenever there is room for it.
pub proof fn law_layout_bounds(records: Seq<DisplayRecordView>, terminal_width: usize)
    ensures
        ({
            let l = layout_of(records, terminal_width);
            &&& 8 <= l.label_width <= 28
            &&& 20 <= l.table_width <= max_table_width(terminal_width) <= 140
            &&& (terminal_width >= 60 ==> l.table_width <= terminal_width)
            &&& 20 <= l.value_width <= max_value_width(records, terminal_width)
            &&& (l.table_width >= l.label_width + column_gap() + 20 ==> l.label_width
                + column_gap() + l.value_width == l.table_width)
        }),
{
}

/// Lays out the tables of the records for a terminal `terminal_width`
/// columns wide.
pub fn table_layout_for_records(records: &Vec<DisplayRecord>, terminal_width: usize) -> (layout: TableLayout)
    requires
        rows_wrap(
            all_rows(record_views(records@)),
            max_value_width(record_views(records@), terminal_width) as usize,
        ),
    ensures
        layout == layout_of(record_views(records@), terminal_width),
{
    let max_table: usize = if terminal_width < 60 {
        60
    } else if terminal_width > 140 {
        140
    } else {
        terminal_width
    };
    let widest = widest_label_of_records(records);
    let label_width: usize = if widest < 8 {
        8
    } else if widest > 28 {
        28
    } else {
        widest
    };
    let max_value = max_value_width_for(records, terminal_width);
    let content = widest_value_of_records(records, max_value);
    let title = widest_title_of_records(records, max_table);
    // Beyond 1000 columns every width clamps to the table maximum alike.
    let content_capped: usize = if content > 1000 {
        1000
    } else {
        content
    };
    let title_capped: usize = if title > 1000 {
        1000
    } else {
        title
    };
    let combined = label_width + 3 + content_capped;
    let wide = if combined > title_capped {
        combined
    } else {
        title_capped
    };
    let table_width = if wide < 20 {
        20
    } else if wide > max_table {
        max_table
    } else {
        wide
    };
    let rest = table_width.saturating_sub(label_width + 3);
    let value_width = if rest > 20 {
        rest
    } else {
        20
    };
    TableLayout { table_width, label_width, value_width }
}


// ---------------------------------------------------------------------------
// Tables
// ---------------------------------------------------------------------------

/// The `k`-th line, or an empty line past the end.
pub open spec fn cell(ls: Seq<Seq<char>>, k: int) -> Seq<char> {
    if 0 <= k < ls.len() {
        ls[k]
    } else {
        seq![]
    }
}

/// The `k`-th line of a row: the label padded to the label column, three
/// spaces and the value; just the label when there is no value line; none
/// when both are empty.
pub open spec fn block_line(labels: Seq<Seq<char>>, values: Seq<Seq<char>>, label_width: usize, k: int) -> Seq<Seq<char>> {
    let l = cell(labels, k);
    let v = cell(values, k);
    if l.len() == 0 && v.len() == 0 {
        seq![]
    } else if v.len() == 0 {
        seq![l]
    } else {
        seq![padded_right(l, label_width) + "   "@ + v]
    }
}

/// The first `h` lines of a row.
pub open spec fn block_lines(labels: Seq<Seq<char>>, values: Seq<Seq<char>>, label_width: usize, h: nat) -> Seq<Seq<char>>
    decreases h,
{
    if h == 0 {
        seq![]
    } else {
        block_lines(labels, values, label_width, (h - 1) as nat) + block_line(
            labels,
            values,
            label_width,
            h - 1,
        )
    }
}

/// The lines of a row in a table of the given layout: label lines beside
/// value lines, as many as the longer of the two.
pub open spec fn row_block(row: DisplayRowView, layout: TableLayout) -> Option<Seq<Seq<char>>> {
    match row_lines(row, layout.value_width) {
        Some(values) => {
            let labels = wrapped_value(row.label, layout.label_width);
            Some(
                block_lines(
                    labels,
                    values,
                    layout.label_width,
                    if labels.len() > values.len() {
                        labels.len()
                    } else {
                        values.len()
                    },
                ),
            )
        },
        None => None,
    }
}

/// The line shown for index `k` of a row: the label line padded with spaces
/// to the label column, three spaces and the value line; the label line
/// alone when there is no value line at `k`.
pub open spec fn shown_row_line(labels: Seq<Seq<char>>, values: Seq<Seq<char>>, label_width: usize, k: int) -> Seq<char> {
    let l = cell(labels, k);
    let v = cell(values, k);
    if v.len() == 0 {
        l
    } else {
        l + spaces(sat_sub(label_width as int, str_width(l) as int)) + seq![' ', ' ', ' '] + v
    }
}

proof fn lemma_block_lines_indices(labels: Seq<Seq<char>>, values: Seq<Seq<char>>, label_width: usize, h: nat) -> (ks: Seq<int>)
    ensures
        ks.len() == block_lines(labels, values, label_width, h).len(),
        forall|j: int| 0 <= j < ks.len() ==> 0 <= #[trigger] ks[j] < h,
        forall|i: int, j: int| 0 <= i < j < ks.len() ==> #[trigger] ks[i] < #[trigger] ks[j],
        forall|j: int|
            0 <= j < ks.len() ==> #[trigger] block_lines(labels, values, label_width, h)[j]
                == shown_row_line(labels, values, label_width, ks[j]),
        forall|j: int|
            0 <= j < ks.len() ==> cell(labels, #[trigger] ks[j]).len() > 0 || cell(values, ks[j]).len()
                > 0,
        forall|k: int|
            0 <= k < h && (cell(labels, k).len() > 0 || cell(values, k).len() > 0) ==> exists|j: int|
                0 <= j < ks.len() && #[trigger] ks[j] == k,
    decreases h,
{
    reveal_strlit("   ");
    if h == 0 {
        Seq::empty()
    } else {
        let k = h - 1;
        let prev = lemma_block_lines_indices(labels, values, label_width, (h - 1) as nat);
        let before = block_lines(labels, values, label_width, (h - 1) as nat);
        let all = block_lines(labels, values, label_width, h);
        let line = block_line(labels, values, label_width, k);
        assert(all == before + line);
        if cell(labels, k).len() == 0 && cell(values, k).len() == 0 {
            assert(all =~= before);
            prev
        } else {
            let ks = prev.push(k);
            assert(line.len() == 1);
            assert(line[0] == shown_row_line(labels, values, label_width, k)) by {
                if cell(values, k).len() > 0 {
                    assert("   "@ =~= seq![' ', ' ', ' ']);
                }
            }
            assert forall|j: int| 0 <= j < ks.len() implies #[trigger] all[j] == shown_row_line(
                labels,
                values,
                label_width,
                ks[j],
            ) by {
                if j < prev.len() {
                    assert(all[j] == before[j]);
                    assert(ks[j] == prev[j]);
                } else {
                    assert(all[j] == line[0]);
                }
            }
            assert forall|i: int, j: int| 0 <= i < j < ks.len() implies #[trigger] ks[i]
                < #[trigger] ks[j] by {
                assert(ks[i] == prev[i]);
                if j < prev.len() {
                    assert(ks[j] == prev[j]);
                }
            }
            assert forall|q: int|
                0 <= q < h && (cell(labels, q).len() > 0 || cell(values, q).len() > 0) implies exists|
                j: int,
            | 0 <= j < ks.len() && #[trigger] ks[j] == q by {
                if q < k {
                    let j = choose|j: int| 0 <= j < prev.len() && #[trigger] prev[j] == q;
                    assert(ks[j] == q);
                } else {
                    assert(ks[prev.len() as int] == q);
                }
            }
            assert forall|j: int| 0 <= j < ks.len() implies 0 <= #[trigger] ks[j] < h && (cell(
                labels,
                ks[j],
            ).len() > 0 || cell(values, ks[j]).len() > 0) by {
                if j < prev.len() {
                    assert(ks[j] == prev[j]);
                }
            }
            ks
        }
    }
}

/// A row's block shows, in order, one line for each index at which the
/// row has a label line or a value line, and none for the others: the
/// label line padded to the label column beside the value line, or the
/// label line alone where there is no value line (so no label line is
/// lost); there are as many indices as the longer of the two.
pub proof fn law_row_block_shows_every_line(row: DisplayRowView, layout: TableLayout)
    requires
        row_block(row, layout) is Some,
    ensures
        ({
            let values = row_lines(row, layout.value_width)->Some_0;
            let labels = wrapped_value(row.label, layout.label_width);
            let h = if labels.len() > values.len() {
                labels.len()
            } else {
                values.len()
            };
            let lines = row_block(row, layout)->Some_0;
            exists|ks: Seq<int>|
                {
                    &&& ks.len() == lines.len()
                    &&& forall|i: int, j: int| 0 <= i < j < ks.len() ==> #[trigger] ks[i] < #[trigger] ks[j]
                    &&& forall|j: int|
                        0 <= j < ks.len() ==> 0 <= #[trigger] ks[j] < h && lines[j] == shown_row_line(
                            labels,
                            values,
                            layout.label_width,
                            ks[j],
                        ) && (cell(labels, ks[j]).len() > 0 || cell(values, ks[j]).len() > 0)
                    &&& forall|k: int|
                        0 <= k < h && (cell(labels, k).len() > 0 || cell(values, k).len() > 0)
                            ==> exists|j: int| 0 <= j < ks.len() && #[trigger] ks[j] == k
                }
        }),
{
    let values = row_lines(row, layout.value_width)->Some_0;
    let labels = wrapped_value(row.label, layout.label_width);
    let h: nat = if labels.len() > values.len() {
        labels.len()
    } else {
        values.len()
    };
    let ks = lemma_block_lines_indices(labels, values, layout.label_width, h);
    let lines = row_block(row, layout)->Some_0;
    assert(lines == block_lines(labels, values, layout.label_width, h));
    assert forall|j: int| 0 <= j < ks.len() implies 0 <= #[trigger] ks[j] < h && lines[j]
        == shown_row_line(labels, values, layout.label_width, ks[j]) && (cell(labels, ks[j]).len()
        > 0 || cell(values, ks[j]).len() > 0) by {
        assert(lines[j] == block_lines(labels, values, layout.label_width, h)[j]);
    }
}

/// The lines of several rows, in order.
pub open spec fn rows_block(rows: Seq<DisplayRowView>, layout: TableLayout) -> Option<Seq<Seq<char>>>
    decreases rows.len(),
{
    if rows.len() == 0 {
        Some(seq![])
    } else {
        match (rows_block(rows.drop_last(), layout), row_block(rows.last(), layout)) {
            (Some(a), Some(b)) => Some(a + b),
            _ => None,
        }
    }
}

/// A record's table: its wrapped title, a rule, its rows and a rule.
pub open spec fn table_lines_of(record: DisplayRecordView, layout: TableLayout) -> Option<Seq<Seq<char>>> {
    match rows_block(record.rows, layout) {
        Some(body) => Some(
            wrapped_value(record.title, layout.table_width) + seq![rule(layout.table_width as nat)]
                + body + seq![rule(layout.table_width as nat)],
        ),
        None => None,
    }
}

/// The title lines above a table.
pub fn top_border_lines(title: &str, table_width: usize) -> (lines: Vec<String>)
    ensures
        string_views(lines@) == wrapped_value(title@, table_width),
{
    wrap_value(title, table_width)
}

/// The lines of one row of a table.
fn row_block_lines(row: &DisplayRow, layout: &TableLayout) -> (lines: Vec<String>)
    requires
        row_lines(row.view(), layout.value_width) is Some,
    ensures
        row_block(row.view(), *layout) == Some(string_views(lines@)),
{
    let values = wrap_row_value(row, layout.value_width);
    let labels = wrap_value(row.label, layout.label_width);
    let ghost vv = string_views(values@);
    let ghost lv = string_views(labels@);
    let height = if labels.len() > values.len() {
        labels.len()
    } else {
        values.len()
    };
    let mut out: Vec<String> = Vec::new();
    let mut k: usize = 0;
    while k < height
        invariant
            k <= height,
            height == (if lv.len() > vv.len() {
                lv.len()
            } else {
                vv.len()
            }),
            vv == string_views(values@),
            lv == string_views(labels@),
            string_views(out@) == block_lines(lv, vv, layout.label_width, k as nat),
        decreases height - k,
    {
        let label: Vec<char> = if k < labels.len() {
            chars_of(labels[k].as_str())
        } else {
            Vec::new()
        };
        let value: Vec<char> = if k < values.len() {
            chars_of(values[k].as_str())
        } else {
            Vec::new()
        };
        proof {
            assert(label@ =~= cell(lv, k as int));
            assert(value@ =~= cell(vv, k as int));
        }
        let ghost before = string_views(out@);
        if label.len() == 0 && value.len() == 0 {
            proof {
                assert(before + Seq::<Seq<char>>::empty() =~= before);
            }
        } else if value.len() == 0 {
            out.push(string_of(&label));
            proof {
                assert(string_views(out@) =~= before + seq![label@]);
            }
        } else {
            let label_text = string_of(&label);
            let padded = pad_right(label_text.as_str(), layout.label_width);
            let mut line = chars_of(padded.as_str());
            append_str(&mut line, "   ");
            let value_len = value.len();
            let mut m: usize = 0;
            let ghost base = line@;
            while m < value_len
                invariant
                    m <= value_len == value@.len(),
                    line@ == base + value@.take(m as int),
                decreases value_len - m,
            {
                line.push(value[m]);
                proof {
                    assert(value@.take(m + 1) =~= value@.take(m as int).push(value@[m as int]));
                }
                m = m + 1;
            }
            proof {
                assert(value@.take(value_len as int) =~= value@);
            }
            out.push(string_of(&line));
            proof {
                assert(string_views(out@) =~= before + seq![padded_right(label@, layout.label_width) + "   "@ + value@]);
            }
        }
        k = k + 1;
    }
    out
}

/// The lines of a record's table in the given layout.
pub fn table_lines(record: &DisplayRecord, layout: &TableLayout) -> (lines: Vec<String>)
    requires
        rows_wrap(row_views(record.rows@), layout.value_width),
    ensures
        table_lines_of(record.view(), *layout) == Some(string_views(lines@)),
{
    let mut out = top_border_lines(record.title.as_str(), layout.table_width);
    let ghost title_lines = string_views(out@);
    let ghost before_rule = string_views(out@);
    out.push(rule_line(layout.table_width));
    proof {
        assert(string_views(out@) =~= before_rule + seq![rule(layout.table_width as nat)]);
    }
    let ghost head = string_views(out@);
    let ghost rv = row_views(record.rows@);
    let rows = &record.rows;
    let mut i: usize = 0;
    let mut body: Vec<String> = Vec::new();
    while i < rows.len()
        invariant
            i <= rows.len(),
            rv == row_views(rows@),
            rows_wrap(rv, layout.value_width),
            rows_block(rv.take(i as int), *layout) == Some(string_views(body@)),
        decreases rows.len() - i,
    {
        proof {
            assert(rv.take(i + 1).drop_last() =~= rv.take(i as int));
            assert(rv.take(i + 1).last() == rows@[i as int].view());
            assert(row_lines(rv[i as int], layout.value_width) is Some);
        }
        let piece = row_block_lines(&rows[i], layout);
        append_strings(&mut body, &piece);
        i = i + 1;
    }
    proof {
        assert(rv.take(rows@.len() as int) =~= rv);
    }
    append_strings(&mut out, &body);
    let ghost with_body = string_views(out@);
    out.push(rule_line(layout.table_width));
    proof {
        assert(string_views(out@) =~= with_body + seq![rule(layout.table_width as nat)]);
        assert(string_views(out@) =~= title_lines + seq![rule(layout.table_width as nat)] + string_views(body@) + seq![rule(layout.table_width as nat)]);
    }
    out
}

// ---------------------------------------------------------------------------
// Search results
// ---------------------------------------------------------------------------

/// The first line of the text output.
pub open spec fn heading(information: GitekiInformation) -> Seq<char> {
    "API data last updated "@ + dash_if_blank(information.last_update_date@)
}

/// The table shown when nothing matched.
pub open spec fn empty_result_record() -> DisplayRecordView {
    DisplayRecordView {
        title: "Search result"@,
        rows: seq![row_of("Result"@, "No matching 技適 records found."@)],
    }
}

/// The tables of the records, numbered from 1.
pub open spec fn display_records_of(items: Seq<GitekiInfo>) -> Seq<DisplayRecordView> {
    Seq::new(items.len(), |i: int| record_of(i as nat, items[i]))
}

/// The tables in order, each after an empty line.
pub open spec fn tables_of(records: Seq<DisplayRecordView>, layout: TableLayout) -> Option<Seq<Seq<char>>>
    decreases records.len(),
{
    if records.len() == 0 {
        Some(seq![])
    } else {
        match (tables_of(records.drop_last(), layout), table_lines_of(records.last(), layout)) {
            (Some(a), Some(b)) => Some(a + seq![seq![]] + b),
            _ => None,
        }
    }
}

/// The records' tables as laid out for a terminal `terminal_width` columns
/// wide: the heading, then each table after an empty line (a "Search
/// result" table saying nothing matched when there are no records).
/// `None` where the layout would never finish: a spacing regex that does
/// not compile, or a radio-wave value whose wrapping never ends.
pub open spec fn search_text(information: GitekiInformation, items: Seq<GitekiInfo>, terminal_width: usize) -> Option<Seq<Seq<char>>> {
    let records = if items.len() == 0 {
        seq![empty_result_record()]
    } else {
        display_records_of(items)
    };
    if items.len() > 0 && !unit_patterns_compile() {
        None
    } else if !rows_wrap(all_rows(records), max_value_width(records, terminal_width) as usize) {
        None
    } else {
        match tables_of(records, layout_of(records, terminal_width)) {
            Some(t) => Some(seq![heading(information)] + t),
            None => None,
        }
    }
}

/// Tables one after another, each after an empty line.
pub open spec fn after_blank_lines(tables: Seq<Seq<Seq<char>>>) -> Seq<Seq<char>>
    decreases tables.len(),
{
    if tables.len() == 0 {
        seq![]
    } else {
        after_blank_lines(tables.drop_last()) + seq![seq![]] + tables.last()
    }
}

proof fn lemma_tables_of_split(records: Seq<DisplayRecordView>, layout: TableLayout) -> (tables:
    Seq<Seq<Seq<char>>>)
    requires
        tables_of(records, layout) is Some,
    ensures
        tables.len() == records.len(),
        forall|i: int|
            0 <= i < records.len() ==> #[trigger] table_lines_of(records[i], layout) == Some(
                tables[i],
            ),
        tables_of(records, layout) == Some(after_blank_lines(tables)),
    decreases records.len(),
{
    if records.len() == 0 {
        Seq::empty()
    } else {
        let rest = records.drop_last();
        let prev = lemma_tables_of_split(rest, layout);
        let last = table_lines_of(records.last(), layout)->Some_0;
        let tables = prev.push(last);
        assert(tables.drop_last() =~= prev);
        assert forall|i: int| 0 <= i < records.len() implies #[trigger] table_lines_of(
            records[i],
            layout,
        ) == Some(tables[i]) by {
            if i < rest.len() {
                assert(records[i] == rest[i]);
            }
        }
        tables
    }
}

/// What a search prints: the heading line first; then, after an empty line
/// each, the table of every record in order (the `i`-th record's table
/// numbered `i + 1`), or the single table saying that nothing matched when
/// there are no records; all tables laid out with the one layout computed
/// over all of them.
pub proof fn law_search_text_shape(
    information: GitekiInformation,
    items: Seq<GitekiInfo>,
    terminal_width: usize,
)
    requires
        search_text(information, items, terminal_width) is Some,
    ensures
        ({
            let out = search_text(information, items, terminal_width)->Some_0;
            let records = if items.len() == 0 {
                seq![empty_result_record()]
            } else {
                Seq::new(items.len(), |i: int| record_of(i as nat, items[i]))
            };
            let layout = layout_of(records, terminal_width);
            exists|tables: Seq<Seq<Seq<char>>>|
                {
                    &&& tables.len() == records.len()
                    &&& forall|i: int|
                        0 <= i < records.len() ==> #[trigger] table_lines_of(records[i], layout)
                            == Some(tables[i])
                    &&& out == seq![heading(information)] + after_blank_lines(tables)
                }
        }),
{
    let records = if items.len() == 0 {
        seq![empty_result_record()]
    } else {
        display_records_of(items)
    };
    let layout = layout_of(records, terminal_width);
    let tables = lemma_tables_of_split(records, layout);
    assert(records.len() == tables.len());
}

/// Whether every row of every record finishes wrapping at `width`.
fn records_wrap(records: &Vec<DisplayRecord>, width: usize) -> (b: bool)
    ensures
        b == rows_wrap(all_rows(record_views(records@)), width),
{
    let ghost rv = record_views(records@);
    let mut i: usize = 0;
    while i < records.len()
        invariant
            i <= records.len(),
            rv == record_views(records@),
            rv.len() == records.len(),
            rows_wrap(all_rows(rv.take(i as int)), width),
        decreases records.len() - i,
    {
        proof {
            lemma_all_rows_step(rv, i as int);
            assert(rv[i as int] == records@[i as int].view());
        }
        let rows = &records[i].rows;
        let ghost rows_v = row_views(rows@);
        let mut j: usize = 0;
        while j < rows.len()
            invariant
                j <= rows.len(),
                i < records.len(),
                rv == record_views(records@),
                rv.len() == records.len(),
                rows_v == rv[i as int].rows,
                rows_v == row_views(rows@),
                rows_wrap(rows_v.take(j as int), width),
            decreases rows.len() - j,
        {
            proof {
                assert(rows_v[j as int] == rows@[j as int].view());
            }
            if rows[j].preserve_spacing {
                if !preserving_wrap_finishes(rows[j].value.as_str(), width) {
                    proof {
                        assert(!(row_lines(rows_v[j as int], width) is Some));
                        if rows_wrap(all_rows(rv), width) {
                            lemma_all_rows_prefix_wrap(rv, i + 1, width);
                            lemma_all_rows_step(rv, i as int);
                            lemma_rows_wrap_prefix(all_rows(rv.take(i as int)), rv[i as int].rows, width);
                            assert(row_lines(rv[i as int].rows[j as int], width) is Some);
                        }
                    }
                    return false;
                }
            }
            proof {
                assert forall|k: int| 0 <= k < j + 1 implies (#[trigger] row_lines(
                    rows_v.take(j + 1)[k],
                    width,
                )) is Some by {
                    if k < j {
                        assert(rows_v.take(j + 1)[k] == rows_v.take(j as int)[k]);
                    }
                }
            }
            j = j + 1;
        }
        proof {
            assert(rows_v.take(rows@.len() as int) =~= rows_v);
            let a = all_rows(rv.take(i as int));
            let b = rows_v;
            assert forall|k: int| 0 <= k < (a + b).len() implies (#[trigger] row_lines(
                (a + b)[k],
                width,
            )) is Some by {
                if k < a.len() {
                    assert((a + b)[k] == a[k]);
                } else {
                    assert((a + b)[k] == b[k - a.len()]);
                }
            }
        }
        i = i + 1;
    }
    proof {
        assert(rv.take(records@.len() as int) =~= rv);
    }
    true
}

/// The tables of the records to show: the records numbered from 1, or the
/// "Search result" table when there are none; `None` when the spacing
/// regexes do not compile.
fn display_records(items: &Vec<GitekiInfo>) -> (records: Option<Vec<DisplayRecord>>)
    ensures
        match records {
            Some(rs) => record_views(rs@) == (if items@.len() == 0 {
                seq![empty_result_record()]
            } else {
                display_records_of(items@)
            }) && (items@.len() > 0 ==> unit_patterns_compile()),
            None => items@.len() > 0 && !unit_patterns_compile(),
        },
{
    let mut records: Vec<DisplayRecord> = Vec::new();
    if items.len() == 0 {
        let mut rows: Vec<DisplayRow> = Vec::new();
        rows.push(display_row("Result", string_of(&chars_of("No matching 技適 records found."))));
        records.push(DisplayRecord { title: string_of(&chars_of("Search result")), rows });
        proof {
            assert(row_views(records@[0].rows@) =~= seq![row_of("Result"@, "No matching 技適 records found."@)]);
            assert(record_views(records@) =~= seq![empty_result_record()]);
        }
        return Some(records);
    }
    if !check_unit_patterns() {
        return None;
    }
    let mut i: usize = 0;
    while i < items.len()
        invariant
            i <= items.len(),
            unit_patterns_compile(),
            record_views(records@) =~= display_records_of(items@).take(i as int),
        decreases items.len() - i,
    {
        let record = build_display_record(i, &items[i]);
        let ghost before = records@;
        let ghost view = record.view();
        records.push(record);
        proof {
            assert(records@ =~= before.push(records@.last()));
            assert(record_views(records@) =~= record_views(before).push(view));
            assert(display_records_of(items@).take(i + 1) =~= display_records_of(items@).take(
                i as int,
            ).push(record_of(i as nat, items@[i as int])));
        }
        i = i + 1;
    }
    proof {
        assert(display_records_of(items@).take(items@.len() as int) =~= display_records_of(items@));
    }
    Some(records)
}

/// The tables of the records in the given layout, each after an empty
/// line; `None` when some row does not finish wrapping.
fn tables_text(records: &Vec<DisplayRecord>, layout: &TableLayout) -> (lines: Option<Vec<String>>)
    ensures
        match lines {
            Some(ls) => tables_of(record_views(records@), *layout) == Some(string_views(ls@)),
            None => tables_of(record_views(records@), *layout) is None,
        },
{
    let ghost rv = record_views(records@);
    let mut tables: Vec<String> = Vec::new();
    let mut i: usize = 0;
    while i < records.len()
        invariant
            i <= records.len(),
            rv == record_views(records@),
            tables_of(rv.take(i as int), *layout) == Some(string_views(tables@)),
        decreases records.len() - i,
    {
        proof {
            assert(rv.take(i + 1).drop_last() =~= rv.take(i as int));
            assert(rv.take(i + 1).last() == records@[i as int].view());
        }
        if !records_wrap_one(&records[i], layout.value_width) {
            proof {
                lemma_tables_none(rv.take(i + 1), i as int, *layout);
                lemma_tables_prefix_none(rv, i + 1, *layout);
            }
            return None;
        }
        let table = table_lines(&records[i], layout);
        let ghost before = string_views(tables@);
        tables.push(String::new());
        proof {
            assert(string_views(tables@) =~= before + seq![Seq::<char>::empty()]);
        }
        append_strings(&mut tables, &table);
        i = i + 1;
    }
    proof {
        assert(rv.take(records@.len() as int) =~= rv);
    }
    Some(tables)
}

proof fn lemma_tables_prefix_none(records: Seq<DisplayRecordView>, i: int, layout: TableLayout)
    requires
        0 <= i <= records.len(),
        tables_of(records.take(i), layout) is None,
    ensures
        tables_of(records, layout) is None,
    decreases records.len() - i,
{
    if i < records.len() {
        assert(records.take(i + 1).drop_last() =~= records.take(i));
        lemma_tables_prefix_none(records, i + 1, layout);
    } else {
        assert(records.take(i) =~= records);
    }
}

/// The search results as text lines for a terminal `terminal_width` columns
/// wide; `None` where laying them out would never finish (see
/// `search_text`).
pub fn search_text_lines(information: &GitekiInformation, items: &Vec<GitekiInfo>, terminal_width: usize) -> (lines: Option<Vec<String>>)
    ensures
        match lines {
            Some(ls) => search_text(*information, items@, terminal_width) == Some(string_views(ls@)),
            None => search_text(*information, items@, terminal_width) is None,
        },
{
    let mut first: Vec<char> = Vec::new();
    append_str(&mut first, "API data last updated ");
    append_str(&mut first, empty_dash(information.last_update_date.as_str()));
    let records = match display_records(items) {
        Some(rs) => rs,
        None => {
            return None;
        },
    };
    let max_value = max_value_width_for(&records, terminal_width);
    if !records_wrap(&records, max_value) {
        return None;
    }
    let layout = table_layout_for_records(&records, terminal_width);
    let tables = match tables_text(&records, &layout) {
        Some(t) => t,
        None => {
            return None;
        },
    };
    let mut out: Vec<String> = Vec::new();
    out.push(string_of(&first));
    proof {
        assert(string_views(out@) =~= seq![heading(*information)]);
    }
    append_strings(&mut out, &tables);
    Some(out)
}

/// Whether every row of one record finishes wrapping at `width`.
fn records_wrap_one(record: &DisplayRecord, width: usize) -> (b: bool)
    ensures
        b == rows_wrap(row_views(record.rows@), width),
{
    let rows = &record.rows;
    let ghost rows_v = row_views(rows@);
    let mut j: usize = 0;
    while j < rows.len()
        invariant
            j <= rows.len(),
            rows_v == row_views(rows@),
            rows_v == row_views(record.rows@),
            rows_wrap(rows_v.take(j as int), width),
        decreases rows.len() - j,
    {
        proof {
            assert(rows_v[j as int] == rows@[j as int].view());
        }
        if rows[j].preserve_spacing {
            if !preserving_wrap_finishes(rows[j].value.as_str(), width) {
                proof {
                    assert(!(row_lines(rows_v[j as int], width) is Some));
                    assert(!rows_wrap(rows_v, width)) by {
                        if rows_wrap(rows_v, width) {
                            assert(row_lines(rows_v[j as int], width) is Some);
                        }
                    }
                }
                return false;
            }
        }
        proof {
            assert forall|k: int| 0 <= k < j + 1 implies (#[trigger] row_lines(
                rows_v.take(j + 1)[k],
                width,
            )) is Some by {
                if k < j {
                    assert(rows_v.take(j + 1)[k] == rows_v.take(j as int)[k]);
                }
            }
        }
        j = j + 1;
    }
    proof {
        assert(rows_v.take(rows@.len() as int) =~= rows_v);
    }
    true
}

proof fn lemma_rows_block_none(rows: Seq<DisplayRowView>, layout: TableLayout)
    requires
        !rows_wrap(rows, layout.value_width),
    ensures
        rows_block(rows, layout) is None,
    decreases rows.len(),
{
    let k = choose|k: int| 0 <= k < rows.len() && !(row_lines(rows[k], layout.value_width) is Some);
    if k < rows.len() - 1 {
        assert(rows.drop_last()[k] == rows[k]);
        assert(!rows_wrap(rows.drop_last(), layout.value_width));
        lemma_rows_block_none(rows.drop_last(), layout);
    }
}

proof fn lemma_tables_none(records: Seq<DisplayRecordView>, i: int, layout: TableLayout)
    requires
        0 <= i < records.len(),
        !rows_wrap(records[i].rows, layout.value_width),
    ensures
        tables_of(records, layout) is None,
    decreases records.len(),
{
    lemma_rows_block_none(records[i].rows, layout);
    if i < records.len() - 1 {
        assert(records.drop_last()[i] == records[i]);
        lemma_tables_none(records.drop_last(), i, layout);
    }
}

} // verus!
