use giteki::api::FileDownload;
use giteki::attachment::{
    attachment_extension, attachment_output_filename, giteki_number_from_filename,
    sanitize_filename_component, AttachmentError,
};

#[test]
fn derives_zip_output_name_from_response_filename() {
    let download = FileDownload {
        bytes: b"PK\x03\x04archive".to_vec(),
        filename: Some("022-200057_20200929.zip".to_string()),
    };

    let filename = attachment_output_filename(&download).unwrap();

    assert_eq!(filename, "giteki_022-200057.zip");
}

#[test]
fn derives_pdf_output_name_from_response_filename() {
    let download = FileDownload {
        bytes: b"%PDF-1.5\n".to_vec(),
        filename: Some("022-200057_01_003.pdf".to_string()),
    };

    let filename = attachment_output_filename(&download).unwrap();

    assert_eq!(filename, "giteki_022-200057.pdf");
}

#[test]
fn names_need_a_number_and_a_known_type() {
    let no_name = FileDownload { bytes: b"%PDF-".to_vec(), filename: None };
    assert_eq!(attachment_output_filename(&no_name), Err(AttachmentError::NoGitekiNumber));
    let unknown = FileDownload { bytes: b"GIF89a".to_vec(), filename: Some("001-1.gif".to_string()) };
    assert_eq!(attachment_output_filename(&unknown), Err(AttachmentError::UnknownFileType));
    let by_extension = FileDownload { bytes: b"????".to_vec(), filename: Some("dir/001-1_x.PDF".to_string()) };
    assert_eq!(attachment_output_filename(&by_extension).unwrap(), "giteki_001-1.pdf");
    assert_eq!(
        AttachmentError::UnknownFileType.message(),
        "attachment response is neither PDF nor ZIP"
    );
    assert_eq!(
        AttachmentError::NoGitekiNumber.message(),
        "failed to determine giteki number from attachment response filename"
    );
}

#[test]
fn file_type_from_magic_bytes_and_extension() {
    assert_eq!(attachment_extension(&b"PK\x05\x06".to_vec(), None), Ok("zip"));
    assert_eq!(attachment_extension(&b"x".to_vec(), Some("a.Zip")), Ok("zip"));
    assert_eq!(attachment_extension(&b"x".to_vec(), Some(".pdf")), Err(AttachmentError::UnknownFileType));
    assert_eq!(attachment_extension(&b"x".to_vec(), Some("a.pdf/..")), Err(AttachmentError::UnknownFileType));
}

#[test]
fn extracts_and_sanitizes_number() {
    assert_eq!(giteki_number_from_filename("/tmp/x/ 201-250579 _01.pdf").as_deref(), Some("201-250579"));
    assert_eq!(giteki_number_from_filename("a b/c d.zip").as_deref(), Some("c_d"));
    assert_eq!(giteki_number_from_filename("../..").as_deref(), None);
    assert_eq!(giteki_number_from_filename(".zip").as_deref(), None);
    assert_eq!(giteki_number_from_filename("dir/./").as_deref(), Some("dir"));
    assert_eq!(sanitize_filename_component("a/b c\\d.e"), "ab_cd.e");
}

#[test]
fn output_name_holds_only_safe_characters() {
    let download = FileDownload {
        bytes: b"not a magic header".to_vec(),
        filename: Some("../dir/022 200057ｘ/_01.PDF".to_string()),
    };
    assert_eq!(
        attachment_output_filename(&download),
        Err(AttachmentError::NoGitekiNumber)
    );
    let download = FileDownload {
        bytes: b"not a magic header".to_vec(),
        filename: Some("../dir/022 200057ｘ_01.PDF".to_string()),
    };
    let name = attachment_output_filename(&download).unwrap();
    assert_eq!(name, "giteki_022_200057.pdf");
    assert!(name
        .chars()
        .all(|c| c.is_ascii_alphanumeric() || c == '-' || c == '_' || c == '.'));
}
