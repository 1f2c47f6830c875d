//! What holds of every document, on documents of many shapes.
use batis_xml::body::settle_reference;
use batis_xml::encoding::{
    decode, decode_named, declared_label, detect_declared_encoding, resolve_label, resolve_with,
};
use batis_xml::mapper::dedup_diagnostics;
use batis_xml::parse::{
    detect_dialect_str, oversize_result, parse_decoded, parse_tokens, strip_marks,
};
use batis_xml::xml::{tokenize, XmlEvent};
use batis_xml::{
    detect_dialect, parse, parse_bytes, ByteSpan, DiagCode, Diagnostic, Dialect, IncludeTarget,
    ParseResult, Spanned, SqlText, StatementKind, MAX_INPUT_BYTES,
};

fn in_range(span: ByteSpan, len: usize) {
    assert!(span.start <= span.end);
    assert!(span.end as usize <= len);
}

fn inside(outer: ByteSpan, inner: ByteSpan) {
    assert!(outer.start <= inner.start && inner.end <= outer.end);
}

fn slice(source: &str, span: ByteSpan) -> &str {
    &source[span.start as usize..span.end as usize]
}

fn found(source: &str, spanned: &Spanned<String>) {
    assert_eq!(slice(source, spanned.span), spanned.value);
}

fn check_map(source: &str, text: &str, map: &[(u32, u32)]) {
    assert!(map.windows(2).all(|w| w[0].0 < w[1].0));
    for (offset, raw) in map {
        assert!(*offset as usize <= text.len());
        assert!(*raw as usize <= source.len());
    }
}

fn check_sql(source: &str, sql: &SqlText) {
    match sql {
        SqlText::Variants(variants) => {
            assert!(!variants.is_empty() && variants.len() <= 32);
            for v in variants {
                check_map(source, &v.text.text, &v.text.span_map);
            }
        }
        SqlText::Union { text, branch_count } => {
            assert!(*branch_count > 32);
            check_map(source, &text.text, &text.span_map);
        }
        _ => panic!("a parse gives variants or a union"),
    }
}

fn check(source: &str, result: &ParseResult) {
    for d in &result.diagnostics {
        if let Some(span) = d.span {
            in_range(span, source.len());
        }
        assert_ne!(d.code, DiagCode::Other);
        if result.dialect != Dialect::Mybatis {
            assert_ne!(d.code, DiagCode::DanglingRefid);
        }
    }
    assert_eq!(result.mapper.is_none(), result.dialect == Dialect::Unknown);
    let mapper = match &result.mapper {
        Some(mapper) => mapper,
        None => {
            assert!(!result.diagnostics.is_empty());
            return;
        }
    };
    if let Some(namespace) = &mapper.namespace {
        found(source, namespace);
    }
    let starts: Vec<u32> = mapper.statements.iter().map(|s| s.span.start).collect();
    assert!(starts.windows(2).all(|w| w[0] < w[1]));
    for s in &mapper.statements {
        in_range(s.span, source.len());
        assert!(slice(source, s.span).starts_with('<'));
        if let Some(id) = &s.id {
            inside(s.span, id.span);
            if !id.value.ends_with("!selectKey") {
                found(source, id);
            }
        }
        if let Some(database_id) = &s.database_id {
            found(source, database_id);
        }
        for r in &s.includes {
            inside(s.span, r.span);
            assert!(slice(source, r.span).starts_with("<include"));
        }
        let includes: Vec<u32> = s.includes.iter().map(|r| r.span.start).collect();
        assert!(includes.windows(2).all(|w| w[0] < w[1]));
        for p in &s.property_paths {
            inside(s.span, p.span);
            let text = slice(source, p.span);
            assert!(text.is_empty() || text == p.value || text.starts_with('<'));
        }
        if let Some(r) = &s.result_map_ref {
            inside(s.span, r.span);
            found(source, r);
        }
        check_sql(source, &s.sql);
    }
    for f in &mapper.fragments {
        in_range(f.span, source.len());
        inside(f.span, f.id.span);
        found(source, &f.id);
        for r in &f.includes {
            inside(f.span, r.span);
        }
        check_sql(source, &f.sql);
    }
    for m in &mapper.result_maps {
        in_range(m.span, source.len());
        inside(m.span, m.id.span);
        found(source, &m.id);
    }
}

const DOCUMENTS: &[&str] = &[
    "",
    "no markup at all",
    "<mapper/>",
    "<sqlMap/>",
    "<mapper namespace=\"a.b\"/>trailing &nbsp; &",
    "<beans></beans>",
    "<?xml version=\"1.0\"?><!-- c --><mapper namespace=\"위젯\"><select id=\"이름\">SELECT '그룹' FROM t WHERE a = #{위젯.이름}</select></mapper>",
    "<mapper namespace=\"n\"><sql id=\"f\">a, <include refid=\"g\"/></sql><select id=\"s\"><where><include refid=\"f\"/><if test=\"x\">AND x = #{x}</if></where></select></mapper>",
    "<sqlMap><sql id=\"D.f\">x</sql><select id=\"D.s\">SELECT $col$ FROM t <dynamic prepend=\"WHERE\"><isNotEmpty prepend=\"AND\" property=\"a\">a = #a#</isNotEmpty><iterate property=\"l\" open=\"(\" close=\")\" conjunction=\",\">#l[]#</iterate></dynamic><include refid=\"other\"/></select></sqlMap>",
    "<mapper namespace=\"n\"><insert id=\"i\" databaseId=\"o\"><selectKey resultType=\"int\">SELECT <if test=\"a\">#{seq}</if> 1</selectKey>INSERT INTO t VALUES (#{id,jdbcType=INTEGER}, ${x})</insert><update id=\"u\"><set><if test=\"a\">a = #{a},</if><trim prefix=\"(\" suffix=\")\" suffixOverrides=\",\">b,</trim></set></update></mapper>",
    "<mapper namespace=\"n\"><select id=\"a\">x <![CDATA[ a < b && #{c} ]]> &lt; #{d &amp; e} &nbsp;</select><select>no id</select><select id=\"a\">again</select></mapper>",
    "<mapper namespace=\"n\"><resultMap id=\"r\" type=\"T\" extends=\"q\"><id column=\"c\" property=\"p\"/><association property=\"z\"><result column=\"d\"/></association><discriminator column=\"k\"><case value=\"1\"><result property=\"e\"/></case></discriminator></resultMap></mapper>",
    "<mapper namespace=\"n\"><select id=\"a\">SELECT 1<if test=\"x\">unclosed",
    "<mapper namespace=\"n\"><select id=\"a\">SELECT 1</if></select><unknown><deep/></unknown></mapper>",
    "<mapper namespace=\"n\" namespace=\"m\"><select id=\"a\" id=\"b\"><bind name=\"p\" value=\"'%' + q + '%'\"/>#{open</select></mapper>",
    "<mapper namespace=\"n\"><select id=\"a\"><foreach collection=\"l\" open=\"(\" close=\")\" separator=\",\">#{item}</foreach><choose><when test=\"a\">A</when><when test=\"b\">B</when></choose></select></mapper>",
    "</mapper><mapper><</mapper>",
    "<mapper namespace='single'><select id='q'>a 'b' \"c\"</select></mapper>",
];

fn many_branches(n: usize) -> String {
    let mut body = String::from("SELECT 1");
    for i in 0..n {
        body.push_str(&format!("<if test=\"c{i}\"> AND c{i} = #{{c{i}}}</if>"));
    }
    format!("<mapper namespace=\"n\"><select id=\"s\">{body}</select></mapper>")
}

#[test]
fn every_part_of_a_result_is_found_where_its_span_says() {
    for source in DOCUMENTS {
        check(source, &parse(source));
    }
    for n in [0, 1, 4, 5, 6, 9] {
        let source = many_branches(n);
        check(&source, &parse(&source));
    }
}

#[test]
fn a_parse_depends_on_the_text_alone() {
    for source in DOCUMENTS {
        assert_eq!(parse(source), parse(source));
        assert_eq!(parse_bytes(source.as_bytes()), parse_bytes(source.as_bytes()));
    }
}

#[test]
fn every_prefix_of_a_document_parses() {
    for source in DOCUMENTS {
        for end in 0..source.len() {
            if source.is_char_boundary(end) {
                check(&source[..end], &parse(&source[..end]));
            }
            let _ = parse_bytes(&source.as_bytes()[..end]);
        }
    }
}

#[test]
fn detection_agrees_with_the_parse() {
    for source in DOCUMENTS {
        assert_eq!(detect_dialect_str(source), parse(source).dialect);
        assert_eq!(
            detect_dialect(source.as_bytes()),
            parse_bytes(source.as_bytes()).dialect
        );
        let marked = format!("\u{FEFF}\u{FEFF}{source}");
        assert_eq!(
            detect_dialect(marked.as_bytes()),
            parse_bytes(marked.as_bytes()).dialect
        );
        assert_eq!(
            detect_dialect(marked.as_bytes()),
            detect_dialect(source.as_bytes())
        );
    }
    assert_eq!(detect_dialect(b"<mapper>"), Dialect::Mybatis);
    assert_eq!(detect_dialect(b"<!-- x --><sqlMap"), Dialect::Unknown);
    assert_eq!(detect_dialect(b"<a:sqlMap/>"), Dialect::Ibatis);
}

#[test]
fn byte_order_marks_change_nothing() {
    for source in DOCUMENTS {
        let expected = parse(source);
        for n in 1..4 {
            let marked = format!("{}{source}", "\u{FEFF}".repeat(n));
            assert_eq!(parse(&marked), expected);
            assert_eq!(strip_marks(&marked), *source);
        }
        let once = format!("\u{FEFF}{source}");
        assert_eq!(parse_bytes(once.as_bytes()), parse_bytes(source.as_bytes()));
    }
}

#[test]
fn the_branch_cap_separates_variants_from_a_union() {
    let result = parse(&many_branches(5));
    let mapper = result.mapper.unwrap();
    match &mapper.statements[0].sql {
        SqlText::Variants(variants) => assert_eq!(variants.len(), 32),
        _ => panic!("expected variants"),
    }
    assert!(result.diagnostics.is_empty());

    let result = parse(&many_branches(6));
    let mapper = result.mapper.unwrap();
    match &mapper.statements[0].sql {
        SqlText::Union { text, branch_count } => {
            assert_eq!(*branch_count, 64);
            assert_eq!(
                text.text,
                "SELECT 1 AND c0 = ? AND c1 = ? AND c2 = ? AND c3 = ? AND c4 = ? AND c5 = ?"
            );
        }
        _ => panic!("expected a union"),
    }
    let codes: Vec<DiagCode> = result.diagnostics.iter().map(|d| d.code).collect();
    assert_eq!(codes, vec![DiagCode::BranchLimitExceeded]);
    assert_eq!(
        result.diagnostics[0].message,
        "branch combinations (64+) exceed the cap of 32; falling back to a union of all branch text"
    );
}

fn codes_of(source: &str) -> Vec<DiagCode> {
    parse(source).diagnostics.iter().map(|d| d.code).collect()
}

#[test]
fn each_code_has_its_occasion() {
    let body = |inner: &str| format!("<mapper namespace=\"n\"><select id=\"a\">{inner}</select></mapper>");
    assert_eq!(codes_of("<mapper><select id=\"a\">x"), vec![DiagCode::UnclosedTag]);
    assert_eq!(
        codes_of("<mapper><select id=\"a\">x</select><select id=\"a\">y</select></mapper>"),
        vec![DiagCode::DuplicateStatementId]
    );
    assert_eq!(
        codes_of("<mapper><select>x</select></mapper>"),
        vec![DiagCode::MissingStatementId]
    );
    assert_eq!(
        codes_of(&body("<include refid=\"gone\"/>")),
        vec![DiagCode::DanglingRefid]
    );
    assert_eq!(codes_of(&body("<include/>")), vec![DiagCode::DanglingRefid]);
    assert_eq!(codes_of("<other/>"), vec![DiagCode::UnknownElement]);
    assert_eq!(codes_of(""), vec![DiagCode::UnknownElement]);
    assert_eq!(codes_of(&body("<fi>x</fi>")), vec![DiagCode::UnknownElement]);
    assert_eq!(
        codes_of("<mapper namespace=\"a\" namespace=\"b\"/>"),
        vec![DiagCode::DuplicateAttribute]
    );
    assert_eq!(codes_of(&body("a &nbsp; b")), vec![DiagCode::InvalidEntity]);
    assert_eq!(codes_of(&body("a & b")), vec![DiagCode::InvalidEntity]);
    assert_eq!(
        codes_of(&body("WHERE a = #{b")),
        vec![DiagCode::UnterminatedPlaceholder]
    );
    assert_eq!(
        codes_of("<mapper><sql id=\"f\">x</sql><select id=\"a\"><where> <include refid=\"f\"/> </where></select></mapper>"),
        vec![DiagCode::IncludeAtWrapperBoundary]
    );
    let deep = format!("{}x{}", "<if test=\"a\">".repeat(300), "</if>".repeat(300));
    assert!(codes_of(&body(&deep)).contains(&DiagCode::BranchLimitExceeded)
        || codes_of(&body(&deep)).contains(&DiagCode::NestingLimitExceeded));
    let nested = format!(
        "<mapper><resultMap id=\"r\">{}{}</resultMap></mapper>",
        "<association property=\"a\">".repeat(300),
        "</association>".repeat(300)
    );
    assert_eq!(codes_of(&nested), vec![DiagCode::NestingLimitExceeded]);
    assert_eq!(
        parse_bytes(&[0xFF, 0x3C, 0x61, 0x2F, 0x3E]).diagnostics[0].code,
        DiagCode::EncodingUndetectable
    );
    let result = parse_bytes(b"<?xml version=\"1.0\" encoding=\"Shift_JIS\"?><mapper/>");
    assert_eq!(result.diagnostics[0].code, DiagCode::EncodingMismatch);
    assert_eq!(
        result.diagnostics[0].message,
        "declared encoding 'Shift_JIS' does not match the actual encoding (UTF-8); using UTF-8"
    );
}

#[test]
fn a_reference_without_a_fragment_is_no_matter_for_ibatis() {
    let source = "<sqlMap><select id=\"a\">x <include refid=\"gone\"/> <include/> y</select></sqlMap>";
    let result = parse(source);
    assert_eq!(result.dialect, Dialect::Ibatis);
    assert!(result.diagnostics.is_empty());
    let mapper = result.mapper.unwrap();
    assert_eq!(mapper.statements[0].includes.len(), 1);
    assert_eq!(
        mapper.statements[0].includes[0].value.target,
        IncludeTarget::Local("gone".to_string())
    );
}

#[test]
fn an_input_over_the_cap_is_refused() {
    let huge = "x".repeat(MAX_INPUT_BYTES + 1);
    let result = parse(&huge);
    assert_eq!(result.dialect, Dialect::Unknown);
    assert!(result.mapper.is_none());
    assert_eq!(result.encoding.as_deref(), Some("UTF-8"));
    assert_eq!(result.diagnostics.len(), 1);
    assert_eq!(result.diagnostics[0].code, DiagCode::OversizeInput);
    assert_eq!(
        result.diagnostics[0].message,
        "input is 10485761 bytes, over the 10485760-byte cap"
    );
    assert_eq!(result, oversize_result(10485761, Some("UTF-8".to_string())));
    assert_eq!(detect_dialect_str(&huge), Dialect::Unknown);
    assert_eq!(parse_bytes(huge.as_bytes()).encoding, None);
}

#[test]
fn a_comment_end_in_a_refid_cannot_close_the_token() {
    let source = "<mapper><select id=\"a\">x <include refid=\"p*/q\"/> y</select></mapper>";
    let result = parse(source);
    let mapper = result.mapper.unwrap();
    match &mapper.statements[0].sql {
        SqlText::Variants(variants) => {
            assert_eq!(variants[0].text.text, "x /* batis:include(p*_/q) */ y");
        }
        _ => panic!("expected variants"),
    }
    assert_eq!(mapper.statements[0].includes[0].value.raw, "p*/q");
}

#[test]
fn a_select_key_comes_behind_its_statement() {
    let source = "<mapper namespace=\"n\"><insert id=\"i\" databaseId=\"o\"><selectKey resultType=\"int\">SELECT 1</selectKey>INSERT</insert><select id=\"z\">Z</select></mapper>";
    let result = parse(source);
    assert!(result.diagnostics.is_empty());
    let mapper = result.mapper.unwrap();
    let ids: Vec<&str> = mapper
        .statements
        .iter()
        .map(|s| s.id.as_ref().unwrap().value.as_str())
        .collect();
    assert_eq!(ids, vec!["i", "i!selectKey", "z"]);
    assert_eq!(mapper.statements[1].kind, StatementKind::Select);
    assert_eq!(mapper.statements[1].database_id, mapper.statements[0].database_id);
    assert_eq!(
        slice(source, mapper.statements[1].span),
        "<selectKey resultType=\"int\">SELECT 1</selectKey>"
    );
}

#[test]
fn a_self_closed_element_is_an_element_with_an_empty_body() {
    let closed = parse("<mapper><select id=\"a\"/><sql id=\"f\"/></mapper>");
    let open = parse("<mapper><select id=\"a\"></select><sql id=\"f\"></sql></mapper>");
    let closed = closed.mapper.unwrap();
    let open = open.mapper.unwrap();
    assert_eq!(closed.statements[0].sql, open.statements[0].sql);
    assert_eq!(closed.fragments[0].sql, open.fragments[0].sql);
}

#[test]
fn repeated_diagnostics_are_dropped_and_the_first_is_kept() {
    let at = |start: u32, message: &str| Diagnostic {
        code: DiagCode::InvalidEntity,
        span: Some(ByteSpan { start, end: start + 1 }),
        message: message.to_string(),
    };
    let mut diagnostics = vec![at(1, "a"), at(2, "b"), at(1, "c"), at(2, "d"), at(3, "e")];
    dedup_diagnostics(&mut diagnostics);
    assert_eq!(diagnostics, vec![at(1, "a"), at(2, "b"), at(3, "e")]);
    let once = diagnostics.clone();
    dedup_diagnostics(&mut diagnostics);
    assert_eq!(diagnostics, once);
}

#[test]
fn tokens_follow_each_other() {
    let source = "<a x=\"1\">t&amp;u<b/><![CDATA[c]]><!-- d --></a>";
    let tokens = tokenize(source);
    let events: Vec<&XmlEvent> = tokens.iter().map(|t| &t.event).collect();
    assert_eq!(
        events,
        vec![
            &XmlEvent::Start("a".to_string()),
            &XmlEvent::Text,
            &XmlEvent::Reference,
            &XmlEvent::Text,
            &XmlEvent::Empty("b".to_string()),
            &XmlEvent::CData,
            &XmlEvent::Other,
            &XmlEvent::End,
        ]
    );
    let ends: Vec<usize> = tokens.iter().map(|t| t.end).collect();
    assert_eq!(ends, vec![9, 10, 15, 16, 20, 33, 43, 47]);
}

#[test]
fn a_prefix_of_a_tag_name_is_left_out() {
    let tokens = tokenize("<m:mapper/>");
    assert_eq!(tokens[0].event, XmlEvent::Empty("mapper".to_string()));
}

#[test]
fn an_orphan_close_is_reported_where_it_stands() {
    let tokens = tokenize("<a></b></a>");
    match &tokens[1].event {
        XmlEvent::Malformed { orphan_close, position, .. } => {
            assert!(*orphan_close);
            assert!(*position as usize <= tokens[1].end);
        }
        other => panic!("expected malformed markup, got {other:?}"),
    }
}

#[test]
fn labels_stand_for_encodings() {
    assert_eq!(resolve_label("utf8").as_deref(), Some("UTF-8"));
    assert_eq!(resolve_label(" Latin1 ").as_deref(), Some("windows-1252"));
    assert_eq!(resolve_label("sjis").as_deref(), Some("Shift_JIS"));
    assert_eq!(resolve_label("utf-16").as_deref(), Some("UTF-16LE"));
    for label in ["CP949", "ms949", "x-euc-kr", "UHC", "cp_949"] {
        assert_eq!(resolve_label(label).as_deref(), Some("EUC-KR"));
    }
    assert_eq!(resolve_label("no such thing"), None);
    assert_eq!(resolve_with("cp949", None).as_deref(), Some("EUC-KR"));
    assert_eq!(
        resolve_with("cp949", Some("UTF-8".to_string())).as_deref(),
        Some("UTF-8")
    );
}

#[test]
fn a_declaration_names_an_encoding() {
    fn declared(text: &str) -> Option<String> {
        declared_label(text.as_bytes()).map(|label| String::from_utf8_lossy(label).into_owned())
    }
    assert_eq!(
        declared("  <?xml version='1.0' encoding='Big5'?>").as_deref(),
        Some("Big5")
    );
    assert_eq!(declared("<?xml encoding=\"\"?>").as_deref(), Some(""));
    assert_eq!(declared("<?xml encoding=utf-8?>"), None);
    assert_eq!(declared("<?xml encoding=\"utf-8?>"), None);
    assert_eq!(declared("<a encoding=\"utf-8\"/>"), None);
    assert_eq!(declared("<?xml encoding="), None);
    assert_eq!(declared("<?xml version='1.0'?><a encoding='Big5'/>"), None);
    assert_eq!(declared("<?xml encoding='Big5?>'"), None);
    assert_eq!(declared("<?xml encoding='Big5'").as_deref(), Some("Big5"));
}

#[test]
fn only_the_declaration_names_an_encoding() {
    let bytes = br#"<?xml version="1.0"?><mapper encoding="EUC-KR"/>"#;
    assert_eq!(detect_declared_encoding(bytes), None);
    let result = parse_bytes(bytes);
    assert_eq!(result.dialect, Dialect::Mybatis);
    assert!(result.diagnostics.is_empty());
    assert_eq!(
        detect_declared_encoding(b"<?xml encoding=\"a\xFFb\"?>").as_deref(),
        Some("a\u{FFFD}b")
    );
    let mut late = b"<?xml version=\"1.0\"".to_vec();
    late.extend_from_slice(&[b' '; 200]);
    late.extend_from_slice(b"encoding=\"EUC-KR\"?><mapper/>");
    assert_eq!(detect_declared_encoding(&late), None);
}

#[test]
fn a_document_that_no_encoding_fits_has_no_mapper() {
    let bytes = b"<mapper namespace=\"\xFF\"></mapper>";
    let result = parse_bytes(bytes);
    assert_eq!(result.mapper, None);
    assert_eq!(result.dialect, Dialect::Unknown);
    assert_eq!(result.encoding.as_deref(), Some("UTF-8"));
    let codes: Vec<DiagCode> = result.diagnostics.iter().map(|d| d.code).collect();
    assert_eq!(codes, vec![DiagCode::EncodingUndetectable]);
    assert_eq!(detect_dialect(bytes), Dialect::Unknown);
    let decoded = decode_named(bytes);
    assert!(decoded.lossy);
    assert_eq!(decoded.text, "<mapper namespace=\"\u{FFFD}\"></mapper>");
}

#[test]
fn an_edge_is_reported_in_a_union_too() {
    for (wrapper, n) in [("where", 5), ("where", 6), ("set", 6), ("trim", 6)] {
        let body = format!(
            "{}<{wrapper}> <include refid=\"f\"/> x</{wrapper}>",
            "<if test=\"a\">x</if>".repeat(n)
        );
        let source =
            format!("<mapper><sql id=\"f\">y</sql><select id=\"s\">{body}</select></mapper>");
        let result = parse(&source);
        let mapper = result.mapper.as_ref().unwrap();
        assert_eq!(
            matches!(mapper.statements[0].sql, SqlText::Union { .. }),
            n == 6
        );
        let start = source.find("<include").unwrap() as u32;
        let end = start + "<include refid=\"f\"/>".len() as u32;
        let edges: Vec<Option<ByteSpan>> = result
            .diagnostics
            .iter()
            .filter(|d| d.code == DiagCode::IncludeAtWrapperBoundary)
            .map(|d| d.span)
            .collect();
        assert_eq!(edges, vec![Some(ByteSpan { start, end })]);
        check(&source, &result);
    }
}

#[test]
fn a_union_strips_nothing_and_adds_nothing() {
    let body = format!(
        "{}<where><if test=\"a\">AND x</if></where>",
        "<if test=\"a\"></if>".repeat(6)
    );
    let source = format!("<mapper><select id=\"s\">{body}</select></mapper>");
    match &parse(&source).mapper.unwrap().statements[0].sql {
        SqlText::Union { text, .. } => assert_eq!(text.text, "AND x"),
        _ => panic!("expected a union"),
    }
}

#[test]
fn the_bytes_of_a_text_parse_as_the_text() {
    for source in DOCUMENTS {
        assert!(!source.contains("encoding="));
        for n in 0..4 {
            let marked = format!("{}{source}", "\u{FEFF}".repeat(n));
            assert_eq!(parse_bytes(marked.as_bytes()), parse(&marked));
        }
    }
    let declared = "<?xml version=\"1.0\" encoding=\"Big5\"?><mapper/>";
    for n in 0..4 {
        let marked = format!("{}{declared}", "\u{FEFF}".repeat(n));
        let result = parse_bytes(marked.as_bytes());
        assert_eq!(result.diagnostics.is_empty(), n > 1);
        assert_eq!(result.mapper, parse(declared).mapper);
    }
}

#[test]
fn a_document_in_utf16_parses_as_its_text() {
    let sources = [
        "<mapper namespace=\"위젯\"><select id=\"\u{1F4A9}\">SELECT '\u{10FFFF}' FROM t</select></mapper>",
        "<?xml version=\"1.0\" encoding=\"Big5\"?><sqlMap/>",
        "<",
        "\r\n \u{1F4A9}<mapper namespace=\"a\"/>",
        "a\u{FEFF}",
        "",
    ];
    for source in sources {
        for big in [false, true] {
            let mut bytes = if big { vec![0xFE, 0xFF] } else { vec![0xFF, 0xFE] };
            for unit in source.encode_utf16() {
                bytes.extend_from_slice(&if big { unit.to_be_bytes() } else { unit.to_le_bytes() });
            }
            let (text, diagnostics) = decode(&bytes);
            assert_eq!(text, source);
            assert!(diagnostics.is_empty());
            let mut expected = parse(source);
            expected.encoding = Some(if big { "UTF-16BE" } else { "UTF-16LE" }.to_string());
            assert_eq!(parse_bytes(&bytes), expected);
        }
    }
}

#[test]
fn decoding_has_no_cap_of_its_own() {
    let source = format!("<{}", "a".repeat(MAX_INPUT_BYTES / 2));
    let mut bytes = vec![0xFF, 0xFE];
    for unit in source.encode_utf16() {
        bytes.extend_from_slice(&unit.to_le_bytes());
    }
    assert!(bytes.len() > MAX_INPUT_BYTES);
    let (text, diagnostics) = decode(&bytes);
    assert!(text == source);
    assert!(diagnostics.is_empty());
    assert_eq!(parse_bytes(&bytes).encoding, None);
}

#[test]
fn a_database_id_lies_in_its_own_element_or_is_that_of_the_statement() {
    let source = "<mapper><insert id=\"a\" databaseId=\"x\"><selectKey>1</selectKey>\
        <selectKey databaseId=\"y\">2</selectKey>b</insert></mapper>";
    let mapper = parse(source).mapper.unwrap();
    let ids: Vec<_> = mapper.statements.iter().map(|s| s.database_id.clone().unwrap()).collect();
    assert_eq!(ids.len(), 3);
    for (s, id) in mapper.statements.iter().zip(&ids) {
        let held = &source[id.span.start as usize..id.span.end as usize];
        assert_eq!(held, id.value);
        assert!(s.span.end <= mapper.statements[0].span.end);
    }
    assert_eq!(ids[1], ids[0]);
    assert!(ids[1].span.end < mapper.statements[1].span.start);
    assert_eq!(ids[2].value, "y");
    assert!(mapper.statements[2].span.start < ids[2].span.start);
    assert!(ids[2].span.end < mapper.statements[2].span.end);
}

#[test]
fn a_document_is_decoded_by_what_fits() {
    let (korean, _, _) = encoding_rs::EUC_KR.encode("그룹");
    let decoded = decode_named(&korean);
    assert_eq!(decoded.text, "그룹");
    assert_eq!(decoded.encoding, "EUC-KR");
    assert!(decoded.diagnostics.is_empty());

    let (latin, _, _) = encoding_rs::WINDOWS_1252.encode("caf\u{e9}");
    let mut bytes = b"<?xml version=\"1.0\" encoding=\"latin1\"?>".to_vec();
    bytes.extend_from_slice(&latin);
    let decoded = decode_named(&bytes);
    assert_eq!(decoded.encoding, "windows-1252");
    assert!(decoded.text.ends_with("caf\u{e9}"));
    assert!(decoded.diagnostics.is_empty());

    let decoded = decode_named("caf\u{e9}".as_bytes());
    assert_eq!(decoded.text, "caf\u{e9}");
    assert_eq!(decoded.encoding, "UTF-8");

    let decoded = decode_named(&[0x61, 0xFF, 0x62]);
    assert_eq!(decoded.text, "a\u{FFFD}b");
    assert_eq!(decoded.encoding, "UTF-8");
    assert_eq!(decoded.diagnostics[0].code, DiagCode::EncodingUndetectable);
}

#[test]
fn the_encoding_that_is_reported_is_the_one_that_was_used() {
    let mut bytes = vec![0xFF, 0xFE, 0xFE, 0xFF];
    for unit in "<mapper/>".encode_utf16() {
        bytes.extend_from_slice(&unit.to_be_bytes());
    }
    let result = parse_bytes(&bytes);
    assert_eq!(result.encoding.as_deref(), Some("UTF-16BE"));
    assert_eq!(result.dialect, Dialect::Mybatis);
}

#[test]
fn references_are_resolved_in_a_body() {
    let source = "<mapper><select id=\"a\">a &lt; b &#38;&amp; c &gt;= #{d}</select></mapper>";
    let mapper = parse(source).mapper.unwrap();
    match &mapper.statements[0].sql {
        SqlText::Variants(variants) => {
            assert_eq!(variants[0].text.text, "a < b && c >= ?");
        }
        _ => panic!("expected variants"),
    }
}

#[test]
fn a_reference_that_cannot_be_resolved_keeps_its_text() {
    let span = ByteSpan { start: 4, end: 10 };
    let mut diagnostics = vec![];
    let text = settle_reference("&nbsp;", span, Ok("\u{a0}".to_string()), &mut diagnostics);
    assert_eq!(text, "\u{a0}");
    assert!(diagnostics.is_empty());
    let text = settle_reference("&nbsp;", span, Err("no".to_string()), &mut diagnostics);
    assert_eq!(text, "&nbsp;");
    assert_eq!(
        diagnostics,
        vec![Diagnostic {
            code: DiagCode::InvalidEntity,
            span: Some(span),
            message: "unresolvable entity reference: no".to_string(),
        }]
    );
}

#[test]
fn the_tokens_of_a_text_are_all_that_a_parse_reads() {
    for source in DOCUMENTS {
        assert_eq!(parse_tokens(source, &tokenize(source)), parse(source));
        assert_eq!(
            parse_decoded(decode_named(source.as_bytes())),
            parse_bytes(source.as_bytes())
        );
    }
}

#[test]
fn deep_nesting_is_cut_off_and_reported() {
    let depth = 600;
    let source = format!(
        "<mapper><select id=\"a\">{}x{}</select></mapper>",
        "<foreach collection=\"c\" open=\"(\" close=\")\">".repeat(depth),
        "</foreach>".repeat(depth)
    );
    let result = parse(&source);
    check(&source, &result);
    let codes: Vec<DiagCode> = result.diagnostics.iter().map(|d| d.code).collect();
    assert_eq!(codes, vec![DiagCode::NestingLimitExceeded]);
    match &result.mapper.unwrap().statements[0].sql {
        SqlText::Variants(variants) => {
            assert_eq!(variants.len(), 1);
            let expected = format!("{}{}", "(".repeat(256), ")".repeat(256));
            assert_eq!(variants[0].text.text, expected);
        }
        _ => panic!("expected variants"),
    }
}
