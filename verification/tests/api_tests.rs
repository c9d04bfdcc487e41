use giteki::api::{
    content_disposition_filename, decode_attachment_key, parse_u32, raw_output_text,
    read_u32_field, select_records, truncate_for_error, unquote_header_value, GitekiInfo,
    GitekiItem, NumericField, NumericFieldError, ParseIntError,
};

fn info(no: u32, number: &str) -> GitekiInfo {
    GitekiInfo {
        no,
        tech_code: String::new(),
        number: number.to_string(),
        date: String::new(),
        name: String::new(),
        radio_equipment_code: String::new(),
        model_name: String::new(),
        elec_wave: String::new(),
        spurious_rules: String::new(),
        body_sar: String::new(),
        fq_maintain_func: String::new(),
        note: String::new(),
        organ_name: String::new(),
        attachment_file_name: String::new(),
        attachment_file_key: String::new(),
        attachment_file_cnt_for_cd_1: String::new(),
        attachment_file_cnt_for_cd_2: String::new(),
    }
}

#[test]
fn decodes_attachment_key_from_api_response() {
    assert_eq!(
        decode_attachment_key("020_N_1_240830N020_%E8%AA%8D%E8%A8%BC_51_*****_*****"),
        "020_N_1_240830N020_認証_51_*****_*****"
    );
}

#[test]
fn extracts_filename_from_content_disposition() {
    assert_eq!(
        content_disposition_filename(r#"attachment; filename="022-200057_20200929.zip""#)
            .as_deref(),
        Some("022-200057_20200929.zip")
    );
}

#[test]
fn extracts_encoded_filename_from_content_disposition() {
    assert_eq!(
        content_disposition_filename(
            "attachment; filename*=UTF-8''022-200057_%E8%AA%8D%E8%A8%BC.pdf"
        )
        .as_deref(),
        Some("022-200057_認証.pdf")
    );
}

#[test]
fn encoded_filename_wins_over_plain_filename_in_any_order() {
    assert_eq!(
        content_disposition_filename(
            "attachment; filename*=UTF-8''a%20b.pdf; filename=\"plain.pdf\""
        )
        .as_deref(),
        Some("a b.pdf")
    );
    assert_eq!(
        content_disposition_filename(
            "attachment; filename=\"plain.pdf\"; filename*=UTF-8''a%20b.pdf"
        )
        .as_deref(),
        Some("a b.pdf")
    );
}

#[test]
fn undecodable_encoded_filename_falls_back_to_last_plain_filename() {
    assert_eq!(
        content_disposition_filename(
            "attachment; filename=\"first.pdf\"; filename*=UTF-8''%FF.pdf; filename=second.pdf"
        )
        .as_deref(),
        Some("second.pdf")
    );
    assert_eq!(content_disposition_filename("inline"), None);
}

#[test]
fn unquotes_escaped_header_values() {
    assert_eq!(unquote_header_value(r#"  "a\"b\\c"  "#), r#"a"b\c"#);
    assert_eq!(unquote_header_value("  plain  "), "plain");
    assert_eq!(unquote_header_value("\""), "\"");
    assert_eq!(unquote_header_value(r#""trailing\""#), "trailing");
}

#[test]
fn error_excerpt_keeps_short_bodies_on_one_line() {
    assert_eq!(truncate_for_error("bad\nrequest"), "bad request");
}

#[test]
fn error_excerpt_cuts_long_bodies_at_limit() {
    let body = "x".repeat(301);
    let excerpt = truncate_for_error(&body);
    assert_eq!(excerpt, format!("{}...", "x".repeat(300)));
    let exact = "y".repeat(300);
    assert_eq!(truncate_for_error(&exact), exact);
    let wide = "認".repeat(150);
    assert_eq!(truncate_for_error(&wide), format!("{}...", "認".repeat(100)));
}

#[test]
fn parses_u32_like_std() {
    assert_eq!(parse_u32("0"), Ok(0));
    assert_eq!(parse_u32("+42"), Ok(42));
    assert_eq!(parse_u32("4294967295"), Ok(4294967295));
    assert_eq!(parse_u32("4294967296"), Err(ParseIntError::PosOverflow));
    assert_eq!(parse_u32(""), Err(ParseIntError::Empty));
    assert_eq!(parse_u32("+"), Err(ParseIntError::InvalidDigit));
    assert_eq!(parse_u32("-1"), Err(ParseIntError::InvalidDigit));
    assert_eq!(parse_u32(" 1"), Err(ParseIntError::InvalidDigit));
    for text in ["0", "+7", "123", "4294967296", "", "+", "-", "1a", " 3"] {
        assert_eq!(parse_u32(text).ok(), text.parse::<u32>().ok(), "{text}");
    }
}

#[test]
fn reads_numeric_api_fields() {
    assert_eq!(read_u32_field(&NumericField::Text("1".to_string())), Ok(1));
    assert_eq!(read_u32_field(&NumericField::Text("  ".to_string())), Ok(0));
    assert_eq!(read_u32_field(&NumericField::Null), Ok(0));
    assert_eq!(read_u32_field(&NumericField::Number(Some(7))), Ok(7));
    assert_eq!(
        read_u32_field(&NumericField::Number(Some(1 << 40))),
        Err(NumericFieldError::OutOfRange)
    );
    assert_eq!(
        read_u32_field(&NumericField::Number(None)),
        Err(NumericFieldError::OutOfRange)
    );
    assert_eq!(
        read_u32_field(&NumericField::Text("x".to_string())),
        Err(NumericFieldError::Parse(ParseIntError::InvalidDigit))
    );
    assert_eq!(
        read_u32_field(&NumericField::Other),
        Err(NumericFieldError::UnexpectedType)
    );
}

#[test]
fn takes_records_from_both_item_shapes_up_to_limit() {
    let items = vec![
        GitekiItem::Wrapped { giteki_info: info(1, "a") },
        GitekiItem::Direct(info(2, "b")),
        GitekiItem::Direct(info(3, "c")),
    ];
    let records = select_records(items, 2);
    assert_eq!(records.len(), 2);
    assert_eq!(records[0].no, 1);
    assert_eq!(records[1].number, "b");
    let info = GitekiItem::Wrapped { giteki_info: info(9, "z") }.into_info();
    assert_eq!(info.no, 9);
}

#[test]
fn raw_output_ends_with_newline() {
    assert_eq!(raw_output_text("a,b"), "a,b\n");
    assert_eq!(raw_output_text("a,b\n"), "a,b\n");
    assert_eq!(raw_output_text(""), "\n");
}

#[test]
fn error_excerpt_never_holds_a_newline() {
    let body = "line\n".repeat(100);
    let excerpt = truncate_for_error(&body);
    assert!(!excerpt.contains('\n'));
    assert!(excerpt.len() <= 303);
    assert_eq!(excerpt, format!("{}...", "line ".repeat(60)));
}

#[test]
fn parses_back_printed_numbers() {
    for n in [0u32, 7, 10, 12345, 4294967295] {
        assert_eq!(parse_u32(&n.to_string()), Ok(n));
    }
}

#[test]
fn percent_decoding_follows_the_byte_rules() {
    assert_eq!(decode_attachment_key("abc_DEF-01"), "abc_DEF-01");
    assert_eq!(decode_attachment_key("%e8%aa%8d%E8%A8%BC"), "認証");
    assert_eq!(decode_attachment_key("100%"), "100%");
    assert_eq!(decode_attachment_key("%zz%4"), "%zz%4");
    assert_eq!(decode_attachment_key("a%FFb"), "a\u{FFFD}b");
    assert_eq!(
        content_disposition_filename("attachment; filename*=plain.pdf"),
        Some("plain.pdf".to_string())
    );
    assert_eq!(
        content_disposition_filename("attachment; filename*=\"UTF-8''a%2Fb%20c.zip\""),
        Some("a/b c.zip".to_string())
    );
}

fn numeric_field(value: Option<&serde_json::Value>) -> NumericField {
    match value {
        Some(serde_json::Value::Number(number)) => NumericField::Number(number.as_u64()),
        Some(serde_json::Value::String(text)) => NumericField::Text(text.clone()),
        Some(serde_json::Value::Null) | None => NumericField::Null,
        Some(_) => NumericField::Other,
    }
}

fn text_field(object: &serde_json::Value, key: &str) -> String {
    object.get(key).and_then(|value| value.as_str()).unwrap_or_default().to_string()
}

#[test]
fn deserializes_wrapped_api_response() {
    let json = r#"{
      "gitekiInformation": { "lastUpdateDate": "2026-05-09", "totalCount": "1" },
      "giteki": [
        { "gitekiInfo": {
          "no": "1",
          "techCode": "登録証明機関による工事設計認証",
          "number": "003-180123",
          "date": "2018-07-19",
          "name": "Google LLC",
          "radioEquipmentCode": "第2条第19号",
          "typeName": "G013D",
          "elecWave": "F1D 2402MHz",
          "organName": "(株)ディーエスピーリサーチ"
        } }
      ]
    }"#;

    let response: serde_json::Value = serde_json::from_str(json).unwrap();
    let total_count =
        read_u32_field(&numeric_field(response["gitekiInformation"].get("totalCount"))).unwrap();
    assert_eq!(total_count, 1);

    let object = &response["giteki"][0]["gitekiInfo"];
    let giteki_info = GitekiInfo {
        no: read_u32_field(&numeric_field(object.get("no"))).unwrap(),
        tech_code: text_field(object, "techCode"),
        number: text_field(object, "number"),
        date: text_field(object, "date"),
        name: text_field(object, "name"),
        radio_equipment_code: text_field(object, "radioEquipmentCode"),
        model_name: text_field(object, "typeName"),
        elec_wave: text_field(object, "elecWave"),
        spurious_rules: text_field(object, "spuriousRules"),
        body_sar: text_field(object, "bodySar"),
        fq_maintain_func: text_field(object, "fqMaintainFunc"),
        note: text_field(object, "note"),
        organ_name: text_field(object, "organName"),
        attachment_file_name: text_field(object, "attachmentFileName"),
        attachment_file_key: text_field(object, "attachmentFileKey"),
        attachment_file_cnt_for_cd_1: text_field(object, "attachmentFileCntForCd1"),
        attachment_file_cnt_for_cd_2: text_field(object, "attachmentFileCntForCd2"),
    };
    let info = GitekiItem::Wrapped { giteki_info }.into_info();
    assert_eq!(info.no, 1);
    assert_eq!(info.number, "003-180123");
}
