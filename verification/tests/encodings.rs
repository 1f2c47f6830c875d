//! Finding the encoding of a document.
use batis_xml::encoding::decode;
use batis_xml::DiagCode;

const UTF8_BOM: &[u8] = &[0xEF, 0xBB, 0xBF];
const UTF16LE_BOM: &[u8] = &[0xFF, 0xFE];
const UTF16BE_BOM: &[u8] = &[0xFE, 0xFF];

fn utf16le_bytes(s: &str) -> Vec<u8> {
    let mut out = Vec::new();
    for unit in s.encode_utf16() {
        out.extend_from_slice(&unit.to_le_bytes());
    }
    out
}

#[test]
fn mm_14_valid_utf8_no_declaration_decodes_cleanly() {
    let bytes = "<mapper namespace=\"x\"></mapper>".as_bytes();
    let (source, diagnostics) = decode(bytes);
    assert_eq!(source, "<mapper namespace=\"x\"></mapper>");
    assert!(diagnostics.is_empty());
}

#[test]
fn mm_14_utf8_declared_and_actual_agree() {
    let bytes =
        "<?xml version=\"1.0\" encoding=\"UTF-8\"?><mapper namespace=\"x\"/>".as_bytes();
    let (_, diagnostics) = decode(bytes);
    assert!(diagnostics.is_empty());
}

#[test]
fn mm_14_euckr_bytes_decode_and_declared_matches() {
    let (euckr_bytes, _, had_errors) = encoding_rs::EUC_KR.encode("그룹");
    assert!(!had_errors);
    let mut bytes = b"<?xml version=\"1.0\" encoding=\"EUC-KR\"?><mapper namespace=\"".to_vec();
    bytes.extend_from_slice(&euckr_bytes);
    bytes.extend_from_slice(b"\"></mapper>");

    let (source, diagnostics) = decode(&bytes);
    assert!(source.contains("그룹"));
    assert!(diagnostics.is_empty());
}

#[test]
fn mm_14_declared_utf8_but_actual_euckr_reality_wins_with_mismatch() {
    let (euckr_bytes, _, _) = encoding_rs::EUC_KR.encode("그룹");
    let mut bytes = b"<?xml version=\"1.0\" encoding=\"UTF-8\"?><mapper namespace=\"".to_vec();
    bytes.extend_from_slice(&euckr_bytes);
    bytes.extend_from_slice(b"\"></mapper>");

    let (source, diagnostics) = decode(&bytes);
    assert!(source.contains("그룹"));
    assert_eq!(diagnostics.len(), 1);
    assert_eq!(diagnostics[0].code, DiagCode::EncodingMismatch);
}

#[test]
fn mm_14_declared_euckr_but_actual_utf8_reality_wins_with_mismatch() {
    let bytes =
        "<?xml version=\"1.0\" encoding=\"EUC-KR\"?><mapper namespace=\"그룹\"></mapper>"
            .as_bytes();
    let (source, diagnostics) = decode(bytes);
    assert!(source.contains("그룹"));
    assert_eq!(diagnostics.len(), 1);
    assert_eq!(diagnostics[0].code, DiagCode::EncodingMismatch);
}

#[test]
fn mm_14_declared_cp949_matches_euckr_family_no_mismatch() {
    let (euckr_bytes, _, _) = encoding_rs::EUC_KR.encode("그룹");
    let mut bytes = b"<?xml version=\"1.0\" encoding=\"CP949\"?><mapper namespace=\"".to_vec();
    bytes.extend_from_slice(&euckr_bytes);
    bytes.extend_from_slice(b"\"></mapper>");

    let (_, diagnostics) = decode(&bytes);
    assert!(diagnostics.is_empty());
}

#[test]
fn mm_14_undetectable_bytes_decode_lossily_with_diagnostic() {
    let bytes: &[u8] = &[
        0xFF, 0xFE, 0xFD, b'<', b'a', b'>', b'x', b'<', b'/', b'a', b'>',
    ];
    let (_, diagnostics) = decode(bytes);
    assert_eq!(diagnostics.len(), 1);
    assert_eq!(diagnostics[0].code, DiagCode::EncodingUndetectable);
}

#[test]
fn shift_jis_declared_and_actual_agree() {
    let (sjis_bytes, _, had_errors) = encoding_rs::SHIFT_JIS.encode("テスト");
    assert!(!had_errors);
    let mut bytes =
        b"<?xml version=\"1.0\" encoding=\"Shift_JIS\"?><mapper namespace=\"".to_vec();
    bytes.extend_from_slice(&sjis_bytes);
    bytes.extend_from_slice(b"\"></mapper>");

    let (source, diagnostics) = decode(&bytes);
    assert!(source.contains("テスト"));
    assert!(diagnostics.is_empty());
}

#[test]
fn declared_shift_jis_but_actual_utf8_reality_wins_with_mismatch() {
    let bytes =
        "<?xml version=\"1.0\" encoding=\"Shift_JIS\"?><mapper namespace=\"テスト\"></mapper>"
            .as_bytes();
    let (source, diagnostics) = decode(bytes);
    assert!(source.contains("テスト"));
    assert_eq!(diagnostics.len(), 1);
    assert_eq!(diagnostics[0].code, DiagCode::EncodingMismatch);
}

#[test]
fn gb18030_declared_and_actual_agree() {
    let (gb_bytes, _, had_errors) = encoding_rs::GB18030.encode("测试");
    assert!(!had_errors);
    let mut bytes =
        b"<?xml version=\"1.0\" encoding=\"GB18030\"?><mapper namespace=\"".to_vec();
    bytes.extend_from_slice(&gb_bytes);
    bytes.extend_from_slice(b"\"></mapper>");

    let (source, diagnostics) = decode(&bytes);
    assert!(source.contains("测试"));
    assert!(diagnostics.is_empty());
}

#[test]
fn declared_gb18030_but_actual_utf8_reality_wins_with_mismatch() {
    let bytes =
        "<?xml version=\"1.0\" encoding=\"GB18030\"?><mapper namespace=\"测试\"></mapper>"
            .as_bytes();
    let (source, diagnostics) = decode(bytes);
    assert!(source.contains("测试"));
    assert_eq!(diagnostics.len(), 1);
    assert_eq!(diagnostics[0].code, DiagCode::EncodingMismatch);
}

#[test]
fn big5_declared_and_actual_agree() {
    let (big5_bytes, _, had_errors) = encoding_rs::BIG5.encode("測試");
    assert!(!had_errors);
    let mut bytes = b"<?xml version=\"1.0\" encoding=\"Big5\"?><mapper namespace=\"".to_vec();
    bytes.extend_from_slice(&big5_bytes);
    bytes.extend_from_slice(b"\"></mapper>");

    let (source, diagnostics) = decode(&bytes);
    assert!(source.contains("測試"));
    assert!(diagnostics.is_empty());
}

#[test]
fn utf16le_with_bom_decodes_cleanly() {
    let body = r#"<mapper namespace="x"><select id="a">SELECT 1</select></mapper>"#;
    let mut bytes = UTF16LE_BOM.to_vec();
    bytes.extend_from_slice(&utf16le_bytes(body));

    let (source, diagnostics) = decode(&bytes);
    assert_eq!(source, body);
    assert!(diagnostics.is_empty());
}

#[test]
fn utf16be_with_bom_decodes_cleanly() {
    let body = r#"<mapper namespace="x"><select id="a">SELECT 1</select></mapper>"#;
    let mut bytes = UTF16BE_BOM.to_vec();
    for unit in body.encode_utf16() {
        bytes.extend_from_slice(&unit.to_be_bytes());
    }

    let (source, diagnostics) = decode(&bytes);
    assert_eq!(source, body);
    assert!(diagnostics.is_empty());
}

#[test]
fn unknown_declared_label_falls_through_with_mismatch_diagnostic() {
    let bytes = br#"<?xml version="1.0" encoding="totally-not-a-real-encoding"?><mapper namespace="x"></mapper>"#;
    let (source, diagnostics) = decode(bytes);
    assert!(source.contains("<mapper"));
    assert_eq!(diagnostics.len(), 1);
    assert_eq!(diagnostics[0].code, DiagCode::EncodingMismatch);
}

#[test]
fn utf8_bom_before_xml_declaration_no_longer_defeats_declared_encoding_detection() {
    let mut bytes = UTF8_BOM.to_vec();
    bytes.extend_from_slice(
        b"<?xml version=\"1.0\" encoding=\"EUC-KR\"?><mapper namespace=\"x\"></mapper>",
    );
    let (source, diagnostics) = decode(&bytes);
    assert!(source.starts_with("<?xml"));
    assert!(source.contains("<mapper"));
    assert!(!source.contains('\u{FEFF}'));
    assert_eq!(diagnostics.len(), 1);
    assert_eq!(diagnostics[0].code, DiagCode::EncodingMismatch);
}
