//! The entry points on bytes and on text.
use batis_xml::{
    detect_dialect, parse, parse_bytes, DiagCode, Dialect, MAX_INPUT_BYTES,
};

#[test]
fn parse_bytes_rejects_oversize_input_before_decoding() {
    let huge = vec![b'x'; MAX_INPUT_BYTES + 1];
    let result = parse_bytes(&huge);
    assert_eq!(result.dialect, Dialect::Unknown);
    assert!(result.mapper.is_none());
    assert_eq!(result.diagnostics.len(), 1);
    assert_eq!(result.diagnostics[0].code, DiagCode::OversizeInput);
}

#[test]
fn detect_dialect_rejects_oversize_input_before_decoding() {
    let huge = vec![b'x'; MAX_INPUT_BYTES + 1];
    assert_eq!(detect_dialect(&huge), Dialect::Unknown);
}

#[test]
fn b25_max_input_bytes_is_public_and_matches_the_documented_ten_mib_cap() {
    assert_eq!(MAX_INPUT_BYTES, 10 * 1024 * 1024);
}

#[test]
fn parse_bytes_under_cap_is_unaffected() {
    let source = br#"<mapper namespace="x"><select id="a">SELECT 1</select></mapper>"#;
    let result = parse_bytes(source);
    assert_eq!(result.dialect, Dialect::Mybatis);
    assert!(result.diagnostics.is_empty());
}

#[test]
fn a15_encoding_reports_utf8_for_plain_utf8_input() {
    let source = br#"<mapper namespace="x"><select id="a">SELECT 1</select></mapper>"#;
    let result = parse_bytes(source);
    assert_eq!(result.encoding.as_deref(), Some("UTF-8"));
}

#[test]
fn a15_encoding_reports_euc_kr_for_euc_kr_input() {
    let (euckr_bytes, _, had_errors) = encoding_rs::EUC_KR.encode("그룹");
    assert!(!had_errors);
    let mut bytes = b"<?xml version=\"1.0\" encoding=\"EUC-KR\"?><mapper namespace=\"".to_vec();
    bytes.extend_from_slice(&euckr_bytes);
    bytes.extend_from_slice(b"\"></mapper>");

    let result = parse_bytes(&bytes);
    assert_eq!(result.encoding.as_deref(), Some("EUC-KR"));
}

#[test]
fn a15_encoding_is_none_when_the_oversize_cap_rejects_before_any_decode() {
    let huge = vec![b'x'; MAX_INPUT_BYTES + 1];
    let result = parse_bytes(&huge);
    assert_eq!(result.encoding, None);
}

#[test]
fn a15_encoding_is_utf8_for_the_str_based_parse_entry_point() {
    let result = parse(r#"<mapper namespace="x"></mapper>"#);
    assert_eq!(result.encoding.as_deref(), Some("UTF-8"));
}

#[test]
fn a15_encoding_reports_utf16le_and_spans_are_relative_to_bom_stripped_content() {
    let body = r#"<mapper namespace="x"></mapper>"#;
    let mut bytes: Vec<u8> = vec![0xFF, 0xFE];
    for unit in body.encode_utf16() {
        bytes.extend_from_slice(&unit.to_le_bytes());
    }
    let result = parse_bytes(&bytes);
    assert_eq!(result.encoding.as_deref(), Some("UTF-16LE"));
    let mapper = result.mapper.expect("mapper root");
    let ns = mapper.namespace.expect("namespace");
    assert_eq!(&body[ns.span.start as usize..ns.span.end as usize], "x");
}
