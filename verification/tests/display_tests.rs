use giteki::api::{GitekiInfo, GitekiInformation};
use giteki::display::{build_display_record, display_row, has_attachment, search_text_lines, table_layout_for_records, table_lines, DisplayRecord};
use giteki::elec_wave::{
    add_space_after_commas, add_space_between_number_and_unit, format_elec_wave,
    is_power_number, is_power_unit, remove_space_before_interval_unit, split_compact_power_token,
};
use giteki::wrap::{
    empty_dash, max_display_line_width, normalize_display_text, pad_left, pad_right, rule_line,
    split_at_width, terminal_width_from, wrap_preserving_spaces, wrap_value,
};

fn display_width(text: &str) -> usize {
    unicode_width::UnicodeWidthStr::width(text)
}

fn info() -> GitekiInfo {
    GitekiInfo {
        no: 1,
        tech_code: "登録証明機関による工事設計認証".to_string(),
        number: "003-180123".to_string(),
        date: "2018-07-19".to_string(),
        name: "Google LLC".to_string(),
        radio_equipment_code: "第2条第19号".to_string(),
        model_name: "G013D".to_string(),
        elec_wave: "F1D 2402MHz".to_string(),
        spurious_rules: String::new(),
        body_sar: String::new(),
        fq_maintain_func: String::new(),
        note: " ".to_string(),
        organ_name: "(株)ディーエスピーリサーチ".to_string(),
        attachment_file_name: String::new(),
        attachment_file_key: String::new(),
        attachment_file_cnt_for_cd_1: String::new(),
        attachment_file_cnt_for_cd_2: String::new(),
    }
}

#[test]
fn normalizes_fullwidth_display_text() {
    assert_eq!(
        normalize_display_text("Ｇｏｏｇｌｅ　ＬＬＣ\\n５Ｍ00　2412～2472ＭＨｚ"),
        "Google LLC\n5M00 2412~2472MHz"
    );
}

#[test]
fn formats_elec_wave_for_display() {
    assert_eq!(
        format_elec_wave("Ｄ１Ｄ，Ｇ１Ｄ　2412～2472ＭＨz\\n832.5ＭＨz，837.5ＭＨz"),
        "・ D1D, G1D 2412~2472 MHz\n・ 832.5 MHz, 837.5 MHz"
    );
}

#[test]
fn inserts_spaces_between_numbers_and_units() {
    assert_eq!(
        add_space_between_number_and_unit("100~200MHz(20MHz間隔8波) 4.28549mW/MHz 23W 24dBm"),
        "100~200 MHz(20MHz間隔8波) 4.28549 mW/MHz 23 W 24 dBm"
    );
    assert_eq!(
        add_space_between_number_and_unit("2412~2472MHz(5MHz間隔13波)"),
        "2412~2472 MHz(5MHz間隔13波)"
    );
    assert_eq!(add_space_between_number_and_unit("G1X, G7W"), "G1X, G7W");
}

#[test]
fn aligns_power_unit_column_in_elec_wave_rows() {
    let output = format_elec_wave(
        "G1D 5180~5240MHz(20MHz間隔4波) 5.61048mW/MHz\\n\
         G1D 5510~5710MHz(40MHz間隔6波) 4.9204mW/MHz\\n\
         G1D 5.25GHz 0.5358mW/MHz",
    );
    let unit_columns = output
        .lines()
        .map(|line| {
            let byte_index = line.find("mW/MHz").expect("unit exists");
            display_width(&line[..byte_index])
        })
        .collect::<Vec<_>>();

    assert!(unit_columns.iter().all(|column| *column == unit_columns[0]));
    assert!(output.contains("5180~5240 MHz"));
    assert!(output.contains("20MHz間隔"));
}

#[test]
fn spaces_commas_and_units() {
    assert_eq!(add_space_after_commas("D1D,G1D,,x, y,"), "D1D, G1D,, x, y,");
    assert_eq!(remove_space_before_interval_unit("20 MHz間隔"), "20MHz間隔");
    assert!(is_power_number("0.5~1.0"));
    assert!(!is_power_number("~."));
    assert!(!is_power_number("5a"));
    assert!(is_power_unit("dBm"));
    assert!(!is_power_unit("MHz"));
    assert_eq!(
        split_compact_power_token("6.4mW/MHz"),
        Some(("6.4".to_string(), "mW/MHz".to_string()))
    );
    assert_eq!(split_compact_power_token("23W"), Some(("23".to_string(), "W".to_string())));
    assert_eq!(split_compact_power_token("MHz"), None);
}

#[test]
fn pads_and_measures_display_width() {
    assert_eq!(pad_right("技適", 6), "技適  ");
    assert_eq!(pad_left("ab", 5), "   ab");
    assert_eq!(pad_left("abcdef", 3), "abcdef");
    assert_eq!(max_display_line_width("ab\n技適技適"), 8);
    assert_eq!(empty_dash("  "), "-");
    assert_eq!(empty_dash("x"), "x");
    assert_eq!(rule_line(3), "───");
    assert_eq!(terminal_width_from(None), 100);
    assert_eq!(terminal_width_from(Some(40)), 60);
    assert_eq!(terminal_width_from(Some(200)), 160);
    assert_eq!(terminal_width_from(Some(120)), 120);
}

#[test]
fn splits_at_display_width() {
    assert_eq!(split_at_width("abc def", 5), Some(3));
    assert_eq!(split_at_width("abcdef", 3), Some(3));
    assert_eq!(split_at_width("ab", 3), None);
    assert_eq!(split_at_width("技適 x", 3), Some(3));
    assert_eq!(split_at_width("a 技適", 3), Some(1));
}

#[test]
fn wraps_values() {
    assert_eq!(wrap_value("", 10), vec![String::new()]);
    assert_eq!(wrap_value("aaa bbb ccc", 7), vec!["aaa bbb".to_string(), "ccc".to_string()]);
    assert_eq!(
        wrap_preserving_spaces("・ aaa  bbb ccc", 10),
        vec!["・ aaa".to_string(), "  bbb ccc".to_string()]
    );
    assert_eq!(wrap_preserving_spaces("a  b", 10), vec!["a  b".to_string()]);
}

#[test]
fn builds_record_table() {
    let item = info();
    assert!(!has_attachment(&item));
    let record = build_display_record(0, &item);
    assert_eq!(record.title, "#1  003-180123  G013D  Google LLC");
    let labels: Vec<&str> = record.rows.iter().map(|row| row.label).collect();
    assert_eq!(labels, vec!["種類", "番号", "年月日", "氏名又は名称", "型式又は名称", "特定無線設備の種別", "電波の型式\n周波数及び空中線電力", "認証機関名称"]);
    let wave = record.rows.iter().find(|row| row.preserve_spacing).unwrap();
    assert_eq!(wave.value, "・ F1D 2402 MHz");

    let mut attached = info();
    attached.attachment_file_key = "k".to_string();
    assert!(has_attachment(&attached));
    let record = build_display_record(4, &attached);
    assert!(record.title.starts_with("#5  "));
    let last = record.rows.last().unwrap();
    assert_eq!(last.value, "外観写真等: - / 特性試験の結果: -");
}

#[test]
fn lays_out_search_text() {
    let information = GitekiInformation { last_update_date: "2026-05-08".to_string(), total_count: 1 };
    let lines = search_text_lines(&information, &vec![info()], 100).unwrap();
    assert_eq!(lines[0], "API data last updated 2026-05-08");
    assert_eq!(lines[1], "");
    assert_eq!(lines[2], "#1  003-180123  G013D  Google LLC");
    assert!(lines[3].chars().all(|c| c == '─'));
    assert!(lines.iter().any(|line| line.starts_with("番号") && line.ends_with("003-180123")));
    assert!(lines.last().unwrap().chars().all(|c| c == '─'));

    let empty = search_text_lines(&GitekiInformation { last_update_date: String::new(), total_count: 0 }, &Vec::new(), 100).unwrap();
    assert_eq!(empty[0], "API data last updated -");
    assert_eq!(empty[2], "Search result");
    assert!(empty.iter().any(|line| line.starts_with("Result") && line.ends_with("No matching 技適 records found.")));

    let record = DisplayRecord { title: "T".to_string(), rows: vec![display_row("L", "v".to_string())] };
    let records = vec![record];
    let layout = table_layout_for_records(&records, 80);
    assert_eq!(layout.label_width, 8);
    assert_eq!(layout.table_width, 20);
    assert_eq!(layout.value_width, 20);
    let table = table_lines(&records[0], &layout);
    assert_eq!(table, vec!["T".to_string(), "─".repeat(20), format!("L{}v", " ".repeat(10)), "─".repeat(20)]);
}

#[test]
fn comma_spacing_twice_changes_nothing() {
    for text in ["D1D,G1D,,x, y,", "a,b,c", ",,", "x,\ty", ""] {
        let once = add_space_after_commas(text);
        assert_eq!(add_space_after_commas(&once), once);
    }
}

#[test]
fn cut_prefix_fits_the_width() {
    let text = "abc defgh ijk";
    for width in 1..14 {
        match split_at_width(text, width) {
            Some(at) => {
                assert!(display_width(&text[..at]) <= width);
                assert!(display_width(text) > width);
            }
            None => assert!(display_width(text) <= width),
        }
    }
}

#[test]
fn bullet_rows_keep_wrapping_to_the_end() {
    assert_eq!(
        wrap_preserving_spaces("・ aaaa bbbb cccc dddd", 9),
        vec![
            "・ aaaa".to_string(),
            "  bbbb".to_string(),
            "  cccc".to_string(),
            "  dddd".to_string(),
        ]
    );
}

#[test]
fn layout_stays_within_bounds() {
    let record = DisplayRecord {
        title: "T".repeat(400),
        rows: vec![display_row("ラベルラベルラベルラベルラベルラベル", "v ".repeat(300))],
    };
    let records = vec![record];
    for terminal in [0usize, 40, 60, 100, 140, 1000] {
        let layout = table_layout_for_records(&records, terminal);
        assert!(layout.label_width >= 8 && layout.label_width <= 28);
        assert!(layout.table_width >= 20 && layout.table_width <= 140);
        assert!(layout.table_width <= terminal.max(60));
        assert!(layout.value_width >= 20);
    }
    let layout = table_layout_for_records(&records, 100);
    assert_eq!(layout.label_width, 28);
    assert_eq!(layout.table_width, 100);
    assert_eq!(layout.value_width, 69);
}

#[test]
fn record_rows_are_never_blank() {
    let mut item = info();
    item.date = "   ".to_string();
    item.attachment_file_name = "photo.pdf".to_string();
    item.attachment_file_key = "\t".to_string();
    let record = build_display_record(2, &item);
    assert!(record.rows.iter().all(|row| !row.value.trim().is_empty()));
    let labels: Vec<&str> = record.rows.iter().map(|row| row.label).collect();
    assert!(!labels.contains(&"年月日"));
    assert!(!labels.contains(&"添付ファイルキー"));
    assert!(labels.contains(&"添付ファイル名"));
    assert!(labels.contains(&"添付ファイル数"));
}

#[test]
fn search_text_lists_every_table_in_order() {
    let information = GitekiInformation { last_update_date: "2026-05-08".to_string(), total_count: 2 };
    let mut second = info();
    second.number = "201-250579".to_string();
    let items = vec![info(), second];
    let lines = search_text_lines(&information, &items, 100).unwrap();
    let records = vec![build_display_record(0, &items[0]), build_display_record(1, &items[1])];
    let layout = table_layout_for_records(&records, 100);
    let mut expected = vec!["API data last updated 2026-05-08".to_string()];
    for record in &records {
        expected.push(String::new());
        expected.extend(table_lines(record, &layout));
    }
    assert_eq!(lines, expected);
    assert!(lines.iter().any(|line| line.starts_with("#2  201-250579")));
}

#[test]
fn record_rows_keep_their_order_and_kinds() {
    let mut item = info();
    item.attachment_file_key = "k".to_string();
    item.attachment_file_cnt_for_cd_1 = "3".to_string();
    let record = build_display_record(0, &item);
    let order = [
        "種類", "番号", "年月日", "氏名又は名称", "型式又は名称", "特定無線設備の種別",
        "電波の型式\n周波数及び空中線電力", "スプリアス規定", "BODYSAR", "周波数維持機能", "備考",
        "認証機関名称", "添付ファイル名", "添付ファイルキー", "添付ファイル数",
    ];
    let ranks: Vec<usize> = record
        .rows
        .iter()
        .map(|row| order.iter().position(|label| *label == row.label).unwrap())
        .collect();
    assert!(ranks.windows(2).all(|pair| pair[0] < pair[1]));
    let count = record.rows.iter().filter(|row| row.label == "添付ファイル数").collect::<Vec<_>>();
    assert_eq!(count.len(), 1);
    assert_eq!(count[0].value, "外観写真等: 3 / 特性試験の結果: -");
    let kept: Vec<&str> = record.rows.iter().filter(|row| row.preserve_spacing).map(|row| row.label).collect();
    assert_eq!(kept, vec!["電波の型式\n周波数及び空中線電力"]);

    let mut no_wave = info();
    no_wave.elec_wave = "  ".to_string();
    let record = build_display_record(0, &no_wave);
    assert!(record.rows.iter().all(|row| !row.preserve_spacing));
    assert!(record.rows.iter().all(|row| row.label != "添付ファイル数"));
}
