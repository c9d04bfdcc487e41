use giteki::cli::{dc_for_limit, parse_date, ApiFormat, CliError, FileArgs, SearchArgs};

fn search_args() -> SearchArgs {
    SearchArgs {
        number_arg: None,
        number: None,
        name: None,
        model_name: None,
        organ_code: None,
        from_date: None,
        to_date: None,
        radio_equipment_code: None,
        tech_code: None,
        attachments: false,
        body_sar: false,
        limit: 10,
        offset: 0,
        sort: 1,
        api_format: ApiFormat::Json,
        json: false,
    }
}

#[test]
fn maps_limit_to_api_count_code() {
    assert_eq!(dc_for_limit(1), 1);
    assert_eq!(dc_for_limit(10), 1);
    assert_eq!(dc_for_limit(11), 2);
    assert_eq!(dc_for_limit(50), 4);
    assert_eq!(dc_for_limit(501), 7);
}

#[test]
fn page_code_covers_every_limit_boundary() {
    let expected = [(20, 2), (21, 3), (30, 3), (31, 4), (51, 5), (100, 5), (101, 6), (500, 6), (1000, 7), (0, 7)];
    for (limit, code) in expected {
        assert_eq!(dc_for_limit(limit), code, "limit {limit}");
    }
}

#[test]
fn parses_supported_date_formats() {
    assert_eq!(parse_date("20260509").unwrap(), "20260509");
    assert_eq!(parse_date("2026-05-09").unwrap(), "20260509");
    assert!(parse_date("2026/05/09").is_err());
}

#[test]
fn rejects_malformed_dates_with_message() {
    assert_eq!(parse_date("2026-5-9").unwrap_err(), "DATE must be YYYYMMDD or YYYY-MM-DD");
    assert!(parse_date("202605091").is_err());
    assert!(parse_date("２０２６０５０９").is_err());
    for text in ["-20260509", "2026-0509", "--20260509--", "2026--0509", "202605-09", "2026-05-0x", ""] {
        assert_eq!(
            parse_date(text).unwrap_err(),
            "DATE must be YYYYMMDD or YYYY-MM-DD",
            "{text}"
        );
    }
}

#[test]
fn search_needs_a_condition() {
    let args = search_args();
    assert_eq!(args.validate(), Err(CliError::NoSearchCondition));
    assert_eq!(
        CliError::NoSearchCondition.message(),
        "At least one search condition is required. Example: giteki --name Ubiquiti"
    );
    let mut with_flag = search_args();
    with_flag.body_sar = true;
    assert_eq!(with_flag.validate(), Ok(()));
}

#[test]
fn builds_list_query_parameters() {
    let mut args = search_args();
    args.number_arg = Some("201-250579".to_string());
    args.name = Some("Ubiquiti".to_string());
    args.attachments = true;
    args.limit = 25;
    args.offset = 5;
    args.api_format = ApiFormat::Csv;
    let q = args.query();
    assert_eq!(q.sc, 5);
    assert_eq!(q.dc, 3);
    assert_eq!(q.of, 1);
    assert_eq!(q.num, Some("201-250579"));
    assert_eq!(q.nam, Some("Ubiquiti"));
    assert_eq!(q.afp, Some(1));
    assert_eq!(q.bs, None);
    assert_eq!(q.sk, 1);

    let mut both = search_args();
    both.number_arg = Some("positional".to_string());
    both.number = Some("option".to_string());
    assert_eq!(both.query().num, Some("option"));
    assert_eq!(ApiFormat::Json.as_code(), 2);
    assert_eq!(ApiFormat::Xml.as_code(), 3);
}

#[test]
fn attachment_number_needs_type() {
    let args = FileArgs {
        attachment_key: "k".to_string(),
        attachment_type: None,
        attachment_number: Some(1),
        output: "out".to_string(),
    };
    assert_eq!(args.validate(), Err(CliError::NumberWithoutType));
    assert_eq!(CliError::NumberWithoutType.message(), "--type is required when --number is set");
    let ok = FileArgs { attachment_type: Some(2), ..args };
    assert_eq!(ok.validate(), Ok(()));
    let q = ok.query("decoded");
    assert_eq!(q.afk, "decoded");
    assert_eq!(q.aft, Some(2));
    assert_eq!(q.afn, Some(1));
}
