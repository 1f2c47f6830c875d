//! Whole documents.
use batis_xml::attrs::scan_attributes;
use batis_xml::body::{capture_body, BodySegment};
use batis_xml::mapper::dedup_diagnostics;
use batis_xml::parse::parse_str;
use batis_xml::xml::tokenize;
use batis_xml::{
    ByteSpan, DiagCode, Diagnostic, Dialect, IncludeTarget, SqlString, SqlText, SqlVariant,
    StatementKind, MAX_INPUT_BYTES,
};

#[test]
fn mm_01_mapper_root_is_mybatis_dialect() {
    let source = r#"<?xml version="1.0" encoding="UTF-8"?>
<!DOCTYPE mapper PUBLIC "-//mybatis.org//DTD Mapper 3.0//EN"
  "http://mybatis.org/dtd/mybatis-3-mapper.dtd">
<mapper namespace="com.example.demo.mapper.WidgetMapper">
</mapper>"#;
    let result = parse_str(source);
    assert_eq!(result.dialect, Dialect::Mybatis);
    assert!(result.mapper.is_some());
}

#[test]
fn mm_01_sqlmap_root_is_ibatis_dialect() {
    let source = r#"<?xml version="1.0" encoding="UTF-8"?>
<!DOCTYPE sqlMap PUBLIC "-//ibatis.apache.org//DTD SQL Map 2.0//EN"
  "http://ibatis.apache.org/dtd/sql-map-2.dtd">
<sqlMap>
</sqlMap>"#;
    let result = parse_str(source);
    assert_eq!(result.dialect, Dialect::Ibatis);
    assert!(result.mapper.is_some());
}

#[test]
fn mm_01_leading_comment_before_root_is_skipped() {
    let source =
        "<!-- generated by legacy codegen, do not edit -->\n<mapper namespace=\"x\"></mapper>";
    let result = parse_str(source);
    assert_eq!(result.dialect, Dialect::Mybatis);
    assert!(result.mapper.is_some());
}

#[test]
fn mm_01_bom_before_root_is_skipped() {
    let with_bom =
        "\u{FEFF}<mapper namespace=\"x\"><select id=\"a\">SELECT 1</select></mapper>";
    let without_bom = "<mapper namespace=\"x\"><select id=\"a\">SELECT 1</select></mapper>";
    let result = parse_str(with_bom);
    assert_eq!(result.dialect, Dialect::Mybatis);
    let mapper = result.mapper.expect("mapper root");
    assert_eq!(mapper.namespace.as_ref().unwrap().value, "x");
    assert_eq!(mapper.statements.len(), 1);
    let stmt = &mapper.statements[0];
    assert_eq!(stmt.id.as_ref().unwrap().value, "a");
    let SqlText::Variants(variants) = &stmt.sql else {
        panic!("expected a single unconditional variant")
    };
    assert_eq!(variants[0].text.text, "SELECT 1");

    let without_bom_result = parse_str(without_bom);
    let expected_mapper = without_bom_result.mapper.expect("mapper root");
    assert_eq!(
        mapper.namespace.as_ref().unwrap().span,
        expected_mapper.namespace.as_ref().unwrap().span
    );
    assert_eq!(stmt.span, expected_mapper.statements[0].span);
    assert_eq!(
        stmt.id.as_ref().unwrap().span,
        expected_mapper.statements[0].id.as_ref().unwrap().span
    );
}

fn assert_bom_stripping_agrees(with_boms: &str, without_bom: &str) {
    let result = parse_str(with_boms);
    assert_eq!(result.dialect, Dialect::Mybatis);
    let mapper = result.mapper.expect("mapper root");
    assert_eq!(mapper.namespace.as_ref().unwrap().value, "x");
    assert_eq!(mapper.statements.len(), 1);
    let stmt = &mapper.statements[0];
    assert_eq!(stmt.id.as_ref().unwrap().value, "a");
    let SqlText::Variants(variants) = &stmt.sql else {
        panic!("expected a single unconditional variant")
    };
    assert_eq!(variants[0].text.text, "SELECT 1");

    let without_bom_result = parse_str(without_bom);
    let expected_mapper = without_bom_result.mapper.expect("mapper root");
    assert_eq!(
        mapper.namespace.as_ref().unwrap().span,
        expected_mapper.namespace.as_ref().unwrap().span
    );
    assert_eq!(stmt.span, expected_mapper.statements[0].span);
    assert_eq!(
        stmt.id.as_ref().unwrap().span,
        expected_mapper.statements[0].id.as_ref().unwrap().span
    );

    let str_result = batis_xml::parse(with_boms);
    let bytes_result = batis_xml::parse_bytes(with_boms.as_bytes());
    assert_eq!(
        str_result, bytes_result,
        "parse() and parse_bytes() must agree on the same BOM-laden content"
    );
}

#[test]
fn a21_double_leading_bom_is_fully_stripped() {
    let with_boms =
        "\u{FEFF}\u{FEFF}<mapper namespace=\"x\"><select id=\"a\">SELECT 1</select></mapper>";
    let without_bom = "<mapper namespace=\"x\"><select id=\"a\">SELECT 1</select></mapper>";
    assert_bom_stripping_agrees(with_boms, without_bom);
}

#[test]
fn a21_triple_leading_bom_is_fully_stripped() {
    let with_boms = "\u{FEFF}\u{FEFF}\u{FEFF}<mapper namespace=\"x\"><select id=\"a\">SELECT 1</select></mapper>";
    let without_bom = "<mapper namespace=\"x\"><select id=\"a\">SELECT 1</select></mapper>";
    assert_bom_stripping_agrees(with_boms, without_bom);
}

#[test]
fn a21_mid_text_bom_is_preserved_verbatim() {
    let source = "<mapper namespace=\"x\"><select id=\"a\">SELECT '\u{FEFF}' FROM dual</select></mapper>";
    let result = parse_str(source);
    assert_eq!(result.dialect, Dialect::Mybatis);
    let mapper = result.mapper.expect("mapper root");
    let stmt = &mapper.statements[0];
    let SqlText::Variants(variants) = &stmt.sql else {
        panic!("expected a single unconditional variant")
    };
    assert!(
        variants[0].text.text.contains('\u{FEFF}'),
        "mid-text BOM must be preserved verbatim, got: {:?}",
        variants[0].text.text
    );
    assert_eq!(variants[0].text.text, "SELECT '\u{FEFF}' FROM dual");
}

#[test]
fn a21_parse_bytes_strips_n_raw_utf8_boms() {
    const UTF8_BOM_BYTES: [u8; 3] = [0xEF, 0xBB, 0xBF];
    let body = b"<mapper namespace=\"x\"><select id=\"a\">SELECT 1</select></mapper>";
    let expected = batis_xml::parse_bytes(body);
    let expected_mapper = expected.mapper.expect("mapper root");

    for n in 1..=3 {
        let mut bytes = Vec::new();
        for _ in 0..n {
            bytes.extend_from_slice(&UTF8_BOM_BYTES);
        }
        bytes.extend_from_slice(body);
        let result = batis_xml::parse_bytes(&bytes);
        assert_eq!(result.dialect, Dialect::Mybatis, "n={n}");
        let mapper = result
            .mapper
            .unwrap_or_else(|| panic!("mapper root, n={n}"));
        assert_eq!(mapper.namespace.as_ref().unwrap().value, "x", "n={n}");
        assert_eq!(
            mapper.namespace.as_ref().unwrap().span,
            expected_mapper.namespace.as_ref().unwrap().span,
            "n={n}"
        );
        let stmt = &mapper.statements[0];
        assert_eq!(stmt.id.as_ref().unwrap().value, "a", "n={n}");
        assert_eq!(stmt.span, expected_mapper.statements[0].span, "n={n}");
        let SqlText::Variants(variants) = &stmt.sql else {
            panic!("expected a single unconditional variant, n={n}")
        };
        assert_eq!(variants[0].text.text, "SELECT 1", "n={n}");
    }
}

#[test]
fn mm_01_configuration_root_yields_no_mapper() {
    let source = r#"<?xml version="1.0" encoding="UTF-8"?>
<!DOCTYPE configuration PUBLIC "-//mybatis.org//DTD Config 3.0//EN"
  "http://mybatis.org/dtd/mybatis-3-config.dtd">
<configuration>
</configuration>"#;
    let result = parse_str(source);
    assert_eq!(result.dialect, Dialect::Unknown);
    assert!(result.mapper.is_none());
    assert_eq!(result.diagnostics.len(), 1);
    assert_eq!(result.diagnostics[0].code, DiagCode::UnknownElement);
    assert!(result.diagnostics[0].span.is_some());
}

#[test]
fn mm_01_malformed_input_yields_diagnostic_not_silence() {
    let source = "<mapper namespace=\"x\"";
    let result = parse_str(source);
    assert_eq!(result.dialect, Dialect::Unknown);
    assert!(result.mapper.is_none());
    assert_eq!(result.diagnostics.len(), 2);
    assert_eq!(result.diagnostics[0].code, DiagCode::UnclosedTag);
    assert_eq!(result.diagnostics[1].code, DiagCode::UnknownElement);
}

#[test]
fn mm_02_namespace_attribute_is_captured_with_span() {
    let source = r#"<mapper namespace="com.example.demo.mapper.WidgetMapper"></mapper>"#;
    let result = parse_str(source);
    let mapper = result.mapper.expect("mapper root");
    let namespace = mapper.namespace.expect("namespace present");
    assert_eq!(namespace.value, "com.example.demo.mapper.WidgetMapper");
    let ByteSpan { start, end } = namespace.span;
    assert_eq!(&source[start as usize..end as usize], namespace.value);
}

#[test]
fn mm_02_missing_namespace_is_none() {
    let source = "<sqlMap></sqlMap>";
    let result = parse_str(source);
    let mapper = result.mapper.expect("mapper root");
    assert!(mapper.namespace.is_none());
}

#[test]
fn mm_02_namespace_with_embedded_whitespace_and_newline() {
    let source = "<mapper namespace=\"com.example\n  .demo.Mapper\"></mapper>";
    let result = parse_str(source);
    let mapper = result.mapper.expect("mapper root");
    let namespace = mapper.namespace.expect("namespace present");
    assert_eq!(namespace.value, "com.example\n  .demo.Mapper");
    let ByteSpan { start, end } = namespace.span;
    assert_eq!(&source[start as usize..end as usize], namespace.value);
}

#[test]
fn mm_02_empty_namespace_is_some_empty_string() {
    let source = r#"<mapper namespace=""></mapper>"#;
    let result = parse_str(source);
    let mapper = result.mapper.expect("mapper root");
    let namespace = mapper.namespace.expect("namespace attribute present");
    assert_eq!(namespace.value, "");
    assert_eq!(namespace.span.start, namespace.span.end);
}

#[test]
fn mm_02_empty_element_root_with_attribute() {
    let source = r#"<mapper namespace="com.example.demo.Mapper"/>"#;
    let result = parse_str(source);
    assert_eq!(result.dialect, Dialect::Mybatis);
    let mapper = result.mapper.expect("mapper root");
    let namespace = mapper.namespace.expect("namespace present");
    assert_eq!(namespace.value, "com.example.demo.Mapper");
    let ByteSpan { start, end } = namespace.span;
    assert_eq!(&source[start as usize..end as usize], namespace.value);
}

#[test]
fn mm_02_attribute_name_inside_other_quoted_value_is_not_a_false_match() {
    let source = r#"<mapper other='see namespace="wrong"' namespace="real"></mapper>"#;
    let result = parse_str(source);
    let mapper = result.mapper.expect("mapper root");
    let namespace = mapper.namespace.expect("namespace present");
    assert_eq!(namespace.value, "real");
    let ByteSpan { start, end } = namespace.span;
    assert_eq!(&source[start as usize..end as usize], namespace.value);
}

#[test]
fn mm_02_duplicate_namespace_first_value_wins_with_diagnostic() {
    let source = r#"<mapper namespace="a" namespace="b"></mapper>"#;
    let result = parse_str(source);
    let mapper = result.mapper.expect("mapper root");
    let namespace = mapper.namespace.expect("namespace present");
    assert_eq!(namespace.value, "a");
    let ByteSpan { start, end } = namespace.span;
    assert_eq!(&source[start as usize..end as usize], namespace.value);
    assert_eq!(result.diagnostics.len(), 1);
    assert_eq!(result.diagnostics[0].code, DiagCode::DuplicateAttribute);
}

#[test]
fn mm_03_select_statement_is_collected() {
    let source =
        r#"<mapper namespace="x"><select id="selectWidget">SELECT 1</select></mapper>"#;
    let result = parse_str(source);
    let mapper = result.mapper.expect("mapper root");
    assert_eq!(mapper.statements.len(), 1);
    let stmt = &mapper.statements[0];
    assert_eq!(stmt.kind, StatementKind::Select);
    let id = stmt.id.as_ref().expect("id present");
    assert_eq!(id.value, "selectWidget");
    let ByteSpan { start, end } = id.span;
    assert_eq!(&source[start as usize..end as usize], id.value);
}

#[test]
fn mm_03_multiple_statement_kinds_collected_in_order() {
    let source = r#"<mapper namespace="x">
        <select id="a">SELECT 1</select>
        <insert id="b">INSERT 1</insert>
        <update id="c">UPDATE 1</update>
        <delete id="d">DELETE 1</delete>
    </mapper>"#;
    let result = parse_str(source);
    let mapper = result.mapper.expect("mapper root");
    let kinds: Vec<_> = mapper.statements.iter().map(|s| s.kind).collect();
    assert_eq!(
        kinds,
        vec![
            StatementKind::Select,
            StatementKind::Insert,
            StatementKind::Update,
            StatementKind::Delete,
        ]
    );
    let ids: Vec<_> = mapper
        .statements
        .iter()
        .map(|s| s.id.as_ref().unwrap().value.clone())
        .collect();
    assert_eq!(ids, vec!["a", "b", "c", "d"]);
}

#[test]
fn mm_03_ibatis_procedure_and_generic_statement_tags() {
    let source = r#"<sqlMap>
        <procedure id="callProc">{call proc()}</procedure>
        <statement id="genericOne">SELECT 1</statement>
    </sqlMap>"#;
    let result = parse_str(source);
    let mapper = result.mapper.expect("mapper root");
    let kinds: Vec<_> = mapper.statements.iter().map(|s| s.kind).collect();
    assert_eq!(
        kinds,
        vec![StatementKind::Procedure, StatementKind::Generic]
    );
}

#[test]
fn mm_03_missing_id_yields_diagnostic() {
    let source = r#"<mapper namespace="x"><select>SELECT 1</select></mapper>"#;
    let result = parse_str(source);
    let mapper = result.mapper.expect("mapper root");
    assert_eq!(mapper.statements.len(), 1);
    assert!(mapper.statements[0].id.is_none());
    assert!(result
        .diagnostics
        .iter()
        .any(|d| d.code == DiagCode::MissingStatementId));
}

#[test]
fn mm_03_duplicate_statement_id_both_preserved_with_diagnostic() {
    let source = r#"<mapper namespace="x">
        <select id="dup">SELECT 1</select>
        <select id="dup">SELECT 2</select>
    </mapper>"#;
    let result = parse_str(source);
    let mapper = result.mapper.expect("mapper root");
    assert_eq!(mapper.statements.len(), 2);
    assert_eq!(mapper.statements[0].id.as_ref().unwrap().value, "dup");
    assert_eq!(mapper.statements[1].id.as_ref().unwrap().value, "dup");
    assert_eq!(
        result
            .diagnostics
            .iter()
            .filter(|d| d.code == DiagCode::DuplicateStatementId)
            .count(),
        1
    );
}

#[test]
fn mm_03_database_id_branch_is_not_flagged_as_duplicate() {
    let source = r#"<mapper namespace="x">
        <select id="dup" databaseId="oracle">SELECT 1 FROM dual</select>
        <select id="dup" databaseId="mysql">SELECT 1</select>
    </mapper>"#;
    let result = parse_str(source);
    let mapper = result.mapper.expect("mapper root");
    assert_eq!(mapper.statements.len(), 2);
    assert!(!result
        .diagnostics
        .iter()
        .any(|d| d.code == DiagCode::DuplicateStatementId));
}

#[test]
fn mm_03_nested_dynamic_tags_do_not_break_statement_boundary() {
    let source = r#"<mapper namespace="x">
        <select id="withIf">
            SELECT 1
            <if test="a != null">
                <choose>
                    <when test="b">AND b = #{b}</when>
                </choose>
            </if>
        </select>
        <select id="afterNesting">SELECT 2</select>
    </mapper>"#;
    let result = parse_str(source);
    let mapper = result.mapper.expect("mapper root");
    let ids: Vec<_> = mapper
        .statements
        .iter()
        .map(|s| s.id.as_ref().unwrap().value.clone())
        .collect();
    assert_eq!(ids, vec!["withIf", "afterNesting"]);
}

#[test]
fn mm_03_ibatis_embedded_prefix_id_survives_unsplit() {
    let source = r#"<sqlMap><select id="WidgetDAO.getWidget">SELECT 1</select></sqlMap>"#;
    let result = parse_str(source);
    let mapper = result.mapper.expect("mapper root");
    assert_eq!(mapper.statements.len(), 1);
    let id = mapper.statements[0].id.as_ref().expect("id present");
    assert_eq!(id.value, "WidgetDAO.getWidget");
    let ByteSpan { start, end } = id.span;
    assert_eq!(&source[start as usize..end as usize], id.value);
}

#[test]
fn mm_03_reader_error_mid_collection_reports_diagnostic_not_silence() {
    let source =
        r#"<mapper namespace="x"><select id="ok">SELECT 1</select></wrongclose></mapper>"#;
    let result = parse_str(source);
    let mapper = result.mapper.expect("mapper root");
    assert_eq!(mapper.statements.len(), 1);
    assert_eq!(mapper.statements[0].id.as_ref().unwrap().value, "ok");
    assert!(!result.diagnostics.is_empty());
}

#[test]
fn mm_03_reader_error_while_skipping_subtree_reports_diagnostic_not_silence() {
    let source = r#"<mapper namespace="x"><select id="ok">SELECT 1</select><insert id="bad">INSERT 1</delete></mapper>"#;
    let result = parse_str(source);
    let mapper = result.mapper.expect("mapper root");
    assert!(!mapper.statements.is_empty());
    assert!(!result.diagnostics.is_empty());
}

#[test]
fn mm_03_full_statement_collection_snapshot() {
    let source = r#"<mapper namespace="com.example.WidgetMapper">
        <select id="selectWidget" databaseId="oracle">SELECT 1 FROM dual</select>
        <select id="selectWidget" databaseId="mysql">SELECT 1</select>
        <insert id="insertWidget">INSERT INTO widget VALUES (#{id})</insert>
        <select id="selectWidget" databaseId="oracle">DUPLICATE BRANCH</select>
    </mapper>"#;
    let result = parse_str(source);
    assert_eq!(result.dialect, Dialect::Mybatis);
    assert_eq!(result.encoding.as_deref(), Some("UTF-8"));
    let mapper = result.mapper.expect("mapper root");
    assert_eq!(
        mapper.namespace.as_ref().unwrap().value,
        "com.example.WidgetMapper"
    );
    assert!(mapper.fragments.is_empty());
    assert!(mapper.result_maps.is_empty());
    let found: Vec<(StatementKind, &str, Option<&str>, &str)> = mapper
        .statements
        .iter()
        .map(|s| {
            let variants = variants(&s.sql);
            assert_eq!(variants.len(), 1);
            assert!(variants[0].conditions.is_empty());
            (
                s.kind,
                s.id.as_ref().unwrap().value.as_str(),
                s.database_id.as_ref().map(|d| d.value.as_str()),
                variants[0].text.text.as_str(),
            )
        })
        .collect();
    assert_eq!(
        found,
        vec![
            (
                StatementKind::Select,
                "selectWidget",
                Some("oracle"),
                "SELECT 1 FROM dual"
            ),
            (StatementKind::Select, "selectWidget", Some("mysql"), "SELECT 1"),
            (
                StatementKind::Insert,
                "insertWidget",
                None,
                "INSERT INTO widget VALUES (?)"
            ),
            (
                StatementKind::Select,
                "selectWidget",
                Some("oracle"),
                "DUPLICATE BRANCH"
            ),
        ]
    );
    assert_eq!(mapper.statements[2].property_paths[0].value, "id");
    assert_eq!(result.diagnostics.len(), 1);
    assert_eq!(
        result.diagnostics[0].code,
        DiagCode::DuplicateStatementId
    );
}

#[test]
fn a6_mybatis_select_key_splits_into_its_own_statement() {
    let source = r#"<mapper namespace="x">
        <insert id="insertWidget">
            <selectKey keyProperty="id" resultType="long" order="BEFORE">SELECT NEXT VALUE FOR widget_seq</selectKey>
            INSERT INTO widget (id, name) VALUES (#{id}, #{name})
        </insert>
    </mapper>"#;
    let result = parse_str(source);
    let mapper = result.mapper.expect("mapper root");
    assert_eq!(mapper.statements.len(), 2);

    let parent = &mapper.statements[0];
    assert_eq!(parent.id.as_ref().unwrap().value, "insertWidget");
    let parent_vs = variants(&parent.sql);
    assert_eq!(parent_vs.len(), 1);
    assert!(!parent_vs[0].text.text.contains("SELECT NEXT VALUE"));
    assert!(parent_vs[0].text.text.contains("INSERT INTO widget"));

    let child = &mapper.statements[1];
    assert_eq!(child.id.as_ref().unwrap().value, "insertWidget!selectKey");
    assert_eq!(child.kind, StatementKind::Select);
    assert_eq!(child.result_class.as_ref().unwrap().value.raw, "long");
    let child_vs = variants(&child.sql);
    assert_eq!(child_vs.len(), 1);
    assert_eq!(child_vs[0].text.text, "SELECT NEXT VALUE FOR widget_seq");
    assert!(child.span.start > parent.span.start);
    assert!(child.span.end < parent.span.end);
}

#[test]
fn a6_ibatis_select_key_splits_into_its_own_statement() {
    let source = r#"<sqlMap>
        <insert id="widgetDAO.insertWidget" parameterClass="widget">
            <selectKey keyProperty="id" resultClass="long">SELECT NEXT VALUE FOR widget_seq</selectKey>
            INSERT INTO widget (id, name) VALUES (#id#, #name#)
        </insert>
    </sqlMap>"#;
    let result = parse_str(source);
    let mapper = result.mapper.expect("mapper root");
    assert_eq!(mapper.statements.len(), 2);

    let child = &mapper.statements[1];
    assert_eq!(
        child.id.as_ref().unwrap().value,
        "widgetDAO.insertWidget!selectKey"
    );
    assert_eq!(child.kind, StatementKind::Select);
    let child_vs = variants(&child.sql);
    assert_eq!(child_vs[0].text.text, "SELECT NEXT VALUE FOR widget_seq");

    let parent_vs = variants(&mapper.statements[0].sql);
    assert!(!parent_vs[0].text.text.contains("SELECT NEXT VALUE"));
}

#[test]
fn a6_select_key_containing_placeholder_normalizes_and_records_property_path() {
    let source = r#"<mapper namespace="x">
        <insert id="insertWidget">
            <selectKey keyProperty="id" resultType="long">SELECT seq_next(#{prefix})</selectKey>
            INSERT INTO widget (id) VALUES (#{id})
        </insert>
    </mapper>"#;
    let result = parse_str(source);
    let mapper = result.mapper.expect("mapper root");
    let child = &mapper.statements[1];
    let child_vs = variants(&child.sql);
    assert_eq!(child_vs[0].text.text, "SELECT seq_next(?)");
    assert_eq!(child.property_paths.len(), 1);
    assert_eq!(child.property_paths[0].value, "prefix");

    let parent = &mapper.statements[0];
    assert_eq!(parent.property_paths.len(), 1);
    assert_eq!(parent.property_paths[0].value, "id");
}

#[test]
fn b27_select_key_at_top_level_of_sql_fragment_is_diagnosed_and_dropped() {
    let source = r#"<mapper namespace="x">
        <sql id="frag"><selectKey keyProperty="id" resultType="long">SELECT 1</selectKey>a = 1</sql>
        <select id="s"><include refid="frag"/></select>
    </mapper>"#;
    let result = parse_str(source);
    let mapper = result.mapper.expect("mapper root");
    let fragment_vs = variants(&mapper.fragments[0].sql);
    assert_eq!(
        fragment_vs[0].text.text, "a = 1",
        "the selectKey body must be dropped, not mashed into the fragment text"
    );
    let unknown: Vec<_> = result
        .diagnostics
        .iter()
        .filter(|d| d.code == DiagCode::UnknownElement)
        .collect();
    assert_eq!(
        unknown.len(),
        1,
        "exactly one diagnostic, not A14's generic one too"
    );
    assert!(unknown[0]
        .message
        .contains("not valid inside a <sql> fragment"));
}

#[test]
fn a13_select_key_reads_its_own_database_id() {
    let source = r#"<mapper namespace="x">
        <insert id="insertWidget">
            <selectKey keyProperty="id" resultType="long" databaseId="oracle">SELECT widget_seq.nextval FROM dual</selectKey>
            INSERT INTO widget (id) VALUES (#{id})
        </insert>
    </mapper>"#;
    let result = parse_str(source);
    let mapper = result.mapper.expect("mapper root");
    let child = &mapper.statements[1];
    assert_eq!(child.database_id.as_ref().unwrap().value, "oracle");
}

#[test]
fn a13_two_select_keys_with_different_database_ids_are_not_duplicates() {
    let source = r#"<mapper namespace="x">
        <insert id="insertWidget">
            <selectKey keyProperty="id" resultType="long" databaseId="oracle">SELECT widget_seq.nextval FROM dual</selectKey>
            <selectKey keyProperty="id" resultType="long" databaseId="mysql">SELECT LAST_INSERT_ID()</selectKey>
            INSERT INTO widget (id) VALUES (#{id})
        </insert>
    </mapper>"#;
    let result = parse_str(source);
    assert!(!result
        .diagnostics
        .iter()
        .any(|d| d.code == DiagCode::DuplicateStatementId));
}

#[test]
fn a13_two_select_keys_with_the_same_database_id_are_duplicates() {
    let source = r#"<mapper namespace="x">
        <insert id="insertWidget">
            <selectKey keyProperty="id" resultType="long">SELECT 1</selectKey>
            <selectKey keyProperty="id" resultType="long">SELECT 2</selectKey>
            INSERT INTO widget (id) VALUES (#{id})
        </insert>
    </mapper>"#;
    let result = parse_str(source);
    assert!(result
        .diagnostics
        .iter()
        .any(|d| d.code == DiagCode::DuplicateStatementId));
}

#[test]
fn a13_real_statement_colliding_with_a_synthesized_select_key_id_is_a_duplicate() {
    let source = r#"<mapper namespace="x">
        <insert id="insertWidget">
            <selectKey keyProperty="id" resultType="long">SELECT 1</selectKey>
            INSERT INTO widget (id) VALUES (#{id})
        </insert>
        <select id="insertWidget!selectKey">SELECT 2</select>
    </mapper>"#;
    let result = parse_str(source);
    assert!(result
        .diagnostics
        .iter()
        .any(|d| d.code == DiagCode::DuplicateStatementId));
}

#[test]
fn a20_select_key_without_its_own_database_id_inherits_the_parents() {
    let source = r#"<mapper namespace="x">
        <insert id="insertWidget" databaseId="oracle">
            <selectKey keyProperty="id" resultType="long">SELECT widget_seq.nextval FROM dual</selectKey>
            INSERT INTO widget (id) VALUES (#{id})
        </insert>
        <insert id="insertWidget" databaseId="mysql">
            <selectKey keyProperty="id" resultType="long">SELECT LAST_INSERT_ID()</selectKey>
            INSERT INTO widget (id) VALUES (#{id})
        </insert>
    </mapper>"#;
    let result = parse_str(source);
    let mapper = result.mapper.expect("mapper root");
    let oracle_key = &mapper.statements[1];
    let mysql_key = &mapper.statements[3];
    assert_eq!(oracle_key.database_id.as_ref().unwrap().value, "oracle");
    assert_eq!(mysql_key.database_id.as_ref().unwrap().value, "mysql");
    assert!(
        !result
            .diagnostics
            .iter()
            .any(|d| d.code == DiagCode::DuplicateStatementId),
        "dialect-branched selectKeys must not collide: {:?}",
        result.diagnostics
    );
}

#[test]
fn a20_select_key_s_own_database_id_overrides_the_parent_s() {
    let source = r#"<mapper namespace="x">
        <insert id="insertWidget" databaseId="oracle">
            <selectKey keyProperty="id" resultType="long" databaseId="mysql">SELECT LAST_INSERT_ID()</selectKey>
            INSERT INTO widget (id) VALUES (#{id})
        </insert>
    </mapper>"#;
    let result = parse_str(source);
    let mapper = result.mapper.expect("mapper root");
    let child = &mapper.statements[1];
    assert_eq!(
        child.database_id.as_ref().unwrap().value,
        "mysql",
        "selectKey's own databaseId must win over the parent's"
    );
}

#[test]
fn a20_two_select_keys_with_the_same_effective_database_id_are_still_duplicates() {
    let source = r#"<mapper namespace="x">
        <insert id="insertWidget" databaseId="oracle">
            <selectKey keyProperty="id" resultType="long">SELECT 1 FROM dual</selectKey>
            <selectKey keyProperty="id" resultType="long" databaseId="oracle">SELECT 2 FROM dual</selectKey>
            INSERT INTO widget (id) VALUES (#{id})
        </insert>
    </mapper>"#;
    let result = parse_str(source);
    assert!(result
        .diagnostics
        .iter()
        .any(|d| d.code == DiagCode::DuplicateStatementId));
}

#[test]
fn b36_duplicate_attribute_on_a_top_level_include_is_reported_once() {
    let source = r#"<mapper namespace="n">
        <sql id="frag">x</sql>
        <select id="a">SELECT 1 <include refid="frag" refid="frag2"/></select>
    </mapper>"#;
    let result = parse_str(source);
    let dup_attr: Vec<_> = result
        .diagnostics
        .iter()
        .filter(|d| d.code == DiagCode::DuplicateAttribute)
        .collect();
    assert_eq!(
        dup_attr.len(),
        1,
        "expected exactly one DuplicateAttribute, got {dup_attr:?}"
    );
}

#[test]
fn b36_dedup_diagnostics_collapses_identical_code_and_span_keeping_first() {
    let span_a = ByteSpan { start: 5, end: 10 };
    let span_b = ByteSpan { start: 20, end: 25 };
    let mut diagnostics = vec![
        Diagnostic {
            code: DiagCode::DuplicateAttribute,
            span: Some(span_a),
            message: "first".to_string(),
        },
        Diagnostic {
            code: DiagCode::DuplicateAttribute,
            span: Some(span_a),
            message: "second (duplicate, should be dropped)".to_string(),
        },
        Diagnostic {
            code: DiagCode::DuplicateAttribute,
            span: Some(span_b),
            message: "different span, kept".to_string(),
        },
        Diagnostic {
            code: DiagCode::UnknownElement,
            span: Some(span_a),
            message: "different code, same span, kept".to_string(),
        },
    ];
    dedup_diagnostics(&mut diagnostics);
    assert_eq!(diagnostics.len(), 3);
    assert_eq!(diagnostics[0].message, "first");
    assert_eq!(diagnostics[1].message, "different span, kept");
    assert_eq!(diagnostics[2].message, "different code, same span, kept");
}

#[test]
fn b36_dedup_diagnostics_never_collapses_none_span_entries() {
    let mut diagnostics = vec![
        Diagnostic {
            code: DiagCode::BranchLimitExceeded,
            span: None,
            message: "statement one".to_string(),
        },
        Diagnostic {
            code: DiagCode::BranchLimitExceeded,
            span: None,
            message: "statement two".to_string(),
        },
    ];
    dedup_diagnostics(&mut diagnostics);
    assert_eq!(diagnostics.len(), 2);
}

fn run_capture(source: &str) -> (Vec<BodySegment>, Vec<Diagnostic>, bool) {
    let tokens = tokenize(source);
    let captured = capture_body(source, &tokens, 1, 0);
    (captured.segments, captured.diagnostics, captured.truncated)
}

fn text_decoded(segments: &[BodySegment]) -> Vec<&str> {
    segments
        .iter()
        .map(|s| match s {
            BodySegment::Text(t) => t.decoded.as_str(),
            BodySegment::DynamicTag { .. } => panic!("expected a text segment"),
        })
        .collect()
}

#[test]
fn mm_08_cdata_with_comparison_operators() {
    let source = "<select id=\"x\"><![CDATA[ ROWNUM <= 10 ]]></select>";
    let (segments, diagnostics, truncated) = run_capture(source);
    assert!(!truncated);
    assert!(diagnostics.is_empty());
    assert_eq!(segments.len(), 1);
    let BodySegment::Text(seg) = &segments[0] else {
        panic!("expected a text segment")
    };
    assert!(seg.decoded.contains("<="));
    assert_eq!(seg.decoded, " ROWNUM <= 10 ");
    let ByteSpan { start, end } = seg.raw_span;
    assert_eq!(&source[start as usize..end as usize], seg.decoded);
}

#[test]
fn mm_08_split_cdata_concatenates_into_consecutive_segments() {
    let source = "<select id=\"x\"><![CDATA[]]]]><![CDATA[>]]></select>";
    let (segments, diagnostics, truncated) = run_capture(source);
    assert!(!truncated);
    assert!(diagnostics.is_empty());
    assert_eq!(text_decoded(&segments), vec!["]]", ">"]);
    let joined: String = text_decoded(&segments).concat();
    assert_eq!(joined, "]]>");
}

#[test]
fn mm_08_predefined_and_numeric_entities_decoded_raw_span_preserved() {
    let source = "<select id=\"x\">a &lt;b&gt;&amp;&quot;&apos; &#64; &#x40;</select>";
    let (segments, diagnostics, truncated) = run_capture(source);
    assert!(!truncated);
    assert!(diagnostics.is_empty());
    assert!(
        segments.len() > 1,
        "expected multiple entity-split segments"
    );

    let mut decoded = String::new();
    let mut prev_end: Option<u32> = None;
    for seg in &segments {
        let BodySegment::Text(seg) = seg else {
            panic!("expected only text segments")
        };
        if let Some(prev_end) = prev_end {
            assert_eq!(
                seg.raw_span.start, prev_end,
                "segments must be contiguous, no gaps/overlaps"
            );
        }
        prev_end = Some(seg.raw_span.end);
        decoded.push_str(&seg.decoded);
    }
    assert_eq!(decoded, "a <b>&\"' @ @");

    let first = segments.first().unwrap();
    let BodySegment::Text(first) = first else {
        unreachable!()
    };
    let last = segments.last().unwrap();
    let BodySegment::Text(last) = last else {
        unreachable!()
    };
    assert_eq!(
        &source[first.raw_span.start as usize..last.raw_span.end as usize],
        "a &lt;b&gt;&amp;&quot;&apos; &#64; &#x40;"
    );
}

#[test]
fn mm_08_undefined_entity_degrades_gracefully_with_diagnostic() {
    let source = "<select id=\"x\">a&nbsp;b</select>";
    let (segments, diagnostics, truncated) = run_capture(source);
    assert!(!truncated);
    let decoded: String = segments
        .iter()
        .map(|seg| {
            let BodySegment::Text(seg) = seg else {
                panic!("expected only text segments")
            };
            seg.decoded.as_str()
        })
        .collect();
    assert_eq!(decoded, "a&nbsp;b");
    assert_eq!(diagnostics.len(), 1);
    assert_eq!(diagnostics[0].code, DiagCode::InvalidEntity);
    assert_eq!(
        diagnostics[0].span,
        Some(ByteSpan {
            start: source.find("&nbsp;").unwrap() as u32,
            end: (source.find("&nbsp;").unwrap() + "&nbsp;".len()) as u32,
        }),
        "diagnostic span should point at exactly the bad reference, not the whole text run"
    );
}

#[test]
fn mm_08_undefined_entity_does_not_drop_the_statement() {
    let source = r#"<mapper namespace="x"><select id="a">a&nbsp;b</select></mapper>"#;
    let result = parse_str(source);
    let mapper = result.mapper.expect("mapper root");
    assert_eq!(mapper.statements.len(), 1);
    assert!(result
        .diagnostics
        .iter()
        .any(|d| d.code == DiagCode::InvalidEntity));
}

#[test]
fn a18_bare_ampersand_is_kept_as_literal_text_with_diagnostic() {
    let source = "<select id=\"x\">a & b</select>";
    let (segments, diagnostics, truncated) = run_capture(source);
    assert!(!truncated);
    assert_eq!(text_decoded(&segments).concat(), "a & b");
    assert_eq!(diagnostics.len(), 1);
    assert_eq!(diagnostics[0].code, DiagCode::InvalidEntity);
    let dangling_start = source.find('&').unwrap() as u32;
    let span = diagnostics[0].span.unwrap();
    assert_eq!(span.start, dangling_start);
    assert_eq!(
        span.end,
        dangling_start + 1,
        "dangling-amp InvalidEntity span must be exactly 1 byte (just the '&'), not the rest of the Text event"
    );
}

#[test]
fn a18_doubled_bare_ampersand_produces_one_diagnostic_per_dangling_amp() {
    let source = "<select id=\"x\">a && b</select>";
    let (segments, diagnostics, truncated) = run_capture(source);
    assert!(!truncated);
    assert_eq!(text_decoded(&segments).concat(), "a && b");
    assert_eq!(diagnostics.len(), 2);
    assert!(diagnostics
        .iter()
        .all(|d| d.code == DiagCode::InvalidEntity));
}

#[test]
fn a18_unterminated_named_reference_without_semicolon_is_kept_literal() {
    let source = "<select id=\"x\">a &amp b</select>";
    let (segments, diagnostics, truncated) = run_capture(source);
    assert!(!truncated);
    assert_eq!(text_decoded(&segments).concat(), "a &amp b");
    assert_eq!(diagnostics.len(), 1);
    assert_eq!(diagnostics[0].code, DiagCode::InvalidEntity);
}

#[test]
fn a18_placeholder_after_bare_ampersand_survives_and_normalizes() {
    let source = r#"<mapper namespace="x"><select id="a">a & #{v}</select></mapper>"#;
    let result = parse_str(source);
    let mapper = result.mapper.expect("mapper root");
    assert_eq!(mapper.statements.len(), 1, "statement must not be dropped");
    let stmt = &mapper.statements[0];
    let SqlText::Variants(variants) = &stmt.sql else {
        panic!("expected a single unconditional variant")
    };
    assert_eq!(variants.len(), 1);
    assert_eq!(variants[0].text.text, "a & ?");
    assert_eq!(
        stmt.property_paths
            .iter()
            .map(|p| p.value.as_str())
            .collect::<Vec<_>>(),
        vec!["v"],
        "the placeholder after the dangling '&' must still bind"
    );
    assert!(result
        .diagnostics
        .iter()
        .any(|d| d.code == DiagCode::InvalidEntity));
}

#[test]
fn a18_bare_ampersand_inside_if_still_diagnosed_and_content_preserved() {
    let source = r#"<mapper namespace="x"><select id="a"><if test="x != null">a & #{v}</if></select></mapper>"#;
    let result = parse_str(source);
    let mapper = result.mapper.expect("mapper root");
    let stmt = &mapper.statements[0];
    let SqlText::Variants(variants) = &stmt.sql else {
        panic!("expected variants (if without else)")
    };
    assert_eq!(variants.len(), 2, "not-taken + taken branch");
    assert!(variants.iter().any(|v| v.text.text.contains("a & ?")));
    assert_eq!(
        stmt.property_paths
            .iter()
            .map(|p| p.value.as_str())
            .collect::<Vec<_>>(),
        vec!["v"]
    );
    assert!(result
        .diagnostics
        .iter()
        .any(|d| d.code == DiagCode::InvalidEntity));
}

#[test]
fn b44_dangling_amp_before_root_is_diagnosed() {
    let source = "&<mapper namespace=\"x\"></mapper>";
    let result = parse_str(source);
    assert_eq!(result.dialect, Dialect::Mybatis);
    assert!(result.mapper.is_some(), "the root element must still parse");
    assert_eq!(
        result
            .diagnostics
            .iter()
            .filter(|d| d.code == DiagCode::InvalidEntity)
            .count(),
        1,
        "expected exactly one InvalidEntity diagnostic, got {:?}",
        result.diagnostics
    );
    let diag = result
        .diagnostics
        .iter()
        .find(|d| d.code == DiagCode::InvalidEntity)
        .unwrap();
    let span = diag
        .span
        .expect("dangling amp diagnostic must carry a span");
    assert_eq!(span.start, 0);
    assert_eq!(span.end, 1, "span must be exactly the 1-byte '&' (B43)");
}

#[test]
fn b44_dangling_amp_between_mapper_level_statements_is_diagnosed() {
    let source = r#"<mapper namespace="x"><select id="a">SELECT 1</select>& stray<select id="b">SELECT 2</select></mapper>"#;
    let result = parse_str(source);
    let mapper = result.mapper.expect("mapper root");
    assert_eq!(
        mapper.statements.len(),
        2,
        "both statements must still be captured despite the stray '&' between them"
    );
    assert_eq!(mapper.statements[0].id.as_ref().unwrap().value, "a");
    assert_eq!(mapper.statements[1].id.as_ref().unwrap().value, "b");

    let amp_pos = source.find('&').unwrap() as u32;
    let amp_diags: Vec<_> = result
        .diagnostics
        .iter()
        .filter(|d| d.code == DiagCode::InvalidEntity)
        .collect();
    assert_eq!(
        amp_diags.len(),
        1,
        "expected exactly one InvalidEntity diagnostic for the mapper-level '&', got {:?}",
        result.diagnostics
    );
    let span = amp_diags[0]
        .span
        .expect("dangling amp diagnostic must carry a span");
    assert_eq!(span.start, amp_pos);
    assert_eq!(
        span.end,
        amp_pos + 1,
        "span must be exactly the 1-byte '&' (B43)"
    );
}

#[test]
fn b44_dangling_amp_inside_statement_body_is_not_double_diagnosed() {
    let source = r#"<mapper namespace="x"><select id="a">a & b</select></mapper>"#;
    let result = parse_str(source);
    let mapper = result.mapper.expect("mapper root");
    assert_eq!(mapper.statements.len(), 1);
    assert_eq!(
        result
            .diagnostics
            .iter()
            .filter(|d| d.code == DiagCode::InvalidEntity)
            .count(),
        1,
        "expected exactly one InvalidEntity diagnostic for the in-body '&', got {:?}",
        result.diagnostics
    );
}

#[test]
fn b46_unresolvable_named_entity_before_root_is_diagnosed() {
    let source = "&nbsp;<mapper namespace=\"x\"></mapper>";
    let result = parse_str(source);
    assert_eq!(result.dialect, Dialect::Mybatis);
    assert!(result.mapper.is_some(), "the root element must still parse");
    let diags: Vec<_> = result
        .diagnostics
        .iter()
        .filter(|d| d.code == DiagCode::InvalidEntity)
        .collect();
    assert_eq!(
        diags.len(),
        1,
        "expected exactly one InvalidEntity diagnostic, got {:?}",
        result.diagnostics
    );
    let span = diags[0].span.expect("must carry a span");
    assert_eq!(span.start, 0);
    assert_eq!(
        span.end,
        "&nbsp;".len() as u32,
        "span must cover the full reference, '&' through ';' inclusive"
    );
}

#[test]
fn b46_unresolvable_named_entity_at_mapper_level_is_diagnosed() {
    let source = r#"<mapper namespace="x"><select id="a">SELECT 1</select>&nbsp;<select id="b">SELECT 2</select></mapper>"#;
    let result = parse_str(source);
    let mapper = result.mapper.expect("mapper root");
    assert_eq!(
        mapper.statements.len(),
        2,
        "both statements must still be captured despite the stray reference between them"
    );

    let ref_pos = source.find("&nbsp;").unwrap() as u32;
    let diags: Vec<_> = result
        .diagnostics
        .iter()
        .filter(|d| d.code == DiagCode::InvalidEntity)
        .collect();
    assert_eq!(
        diags.len(),
        1,
        "expected exactly one InvalidEntity diagnostic, got {:?}",
        result.diagnostics
    );
    let span = diags[0].span.expect("must carry a span");
    assert_eq!(span.start, ref_pos);
    assert_eq!(span.end, ref_pos + "&nbsp;".len() as u32);
}

#[test]
fn b46_invalid_numeric_reference_at_mapper_level_is_diagnosed() {
    let source = r#"<mapper namespace="x">&#xD800;<select id="a">SELECT 1</select></mapper>"#;
    let result = parse_str(source);
    let mapper = result.mapper.expect("mapper root");
    assert_eq!(mapper.statements.len(), 1);

    let ref_pos = source.find("&#xD800;").unwrap() as u32;
    let diags: Vec<_> = result
        .diagnostics
        .iter()
        .filter(|d| d.code == DiagCode::InvalidEntity)
        .collect();
    assert_eq!(
        diags.len(),
        1,
        "expected exactly one InvalidEntity diagnostic, got {:?}",
        result.diagnostics
    );
    let span = diags[0].span.expect("must carry a span");
    assert_eq!(span.start, ref_pos);
    assert_eq!(span.end, ref_pos + "&#xD800;".len() as u32);
}

#[test]
fn b46_unresolvable_named_entity_at_sqlmap_level_is_diagnosed() {
    let source = r#"<sqlMap><statement id="a">SELECT 1</statement>&nbsp;<statement id="b">SELECT 2</statement></sqlMap>"#;
    let result = parse_str(source);
    assert_eq!(result.dialect, Dialect::Ibatis);
    let mapper = result.mapper.expect("mapper root");
    assert_eq!(mapper.statements.len(), 2);

    let ref_pos = source.find("&nbsp;").unwrap() as u32;
    let diags: Vec<_> = result
        .diagnostics
        .iter()
        .filter(|d| d.code == DiagCode::InvalidEntity)
        .collect();
    assert_eq!(
        diags.len(),
        1,
        "expected exactly one InvalidEntity diagnostic, got {:?}",
        result.diagnostics
    );
    let span = diags[0].span.expect("must carry a span");
    assert_eq!(span.start, ref_pos);
    assert_eq!(span.end, ref_pos + "&nbsp;".len() as u32);
}

#[test]
fn b46_resolvable_entity_at_mapper_level_gets_no_diagnostic() {
    let source = r#"<mapper namespace="x"><select id="a">SELECT 1</select>&amp;<select id="b">SELECT 2</select></mapper>"#;
    let result = parse_str(source);
    let mapper = result.mapper.expect("mapper root");
    assert_eq!(mapper.statements.len(), 2);
    assert!(
        !result
            .diagnostics
            .iter()
            .any(|d| d.code == DiagCode::InvalidEntity),
        "a resolvable entity reference at mapper level must not be diagnosed, got {:?}",
        result.diagnostics
    );
}

#[test]
fn b46_unresolvable_entity_inside_statement_body_is_not_double_diagnosed() {
    let source = r#"<mapper namespace="x"><select id="a">a&nbsp;b</select></mapper>"#;
    let result = parse_str(source);
    let mapper = result.mapper.expect("mapper root");
    assert_eq!(mapper.statements.len(), 1);
    assert_eq!(
        result
            .diagnostics
            .iter()
            .filter(|d| d.code == DiagCode::InvalidEntity)
            .count(),
        1,
        "expected exactly one InvalidEntity diagnostic for the in-body reference, got {:?}",
        result.diagnostics
    );
}

#[test]
fn b47_dangling_amp_immediately_after_root_close_is_diagnosed() {
    let source = "<mapper namespace=\"x\"></mapper>&";
    let result = parse_str(source);
    assert!(result.mapper.is_some(), "the root element must still parse");
    let amp_pos = source.rfind('&').unwrap() as u32;
    let diags: Vec<_> = result
        .diagnostics
        .iter()
        .filter(|d| d.code == DiagCode::InvalidEntity)
        .collect();
    assert_eq!(
        diags.len(),
        1,
        "expected exactly one InvalidEntity diagnostic, got {:?}",
        result.diagnostics
    );
    let span = diags[0].span.expect("must carry a span");
    assert_eq!(span.start, amp_pos);
    assert_eq!(
        span.end,
        amp_pos + 1,
        "dangling-amp span after root close must be exactly 1 byte"
    );
    assert_eq!(&source[span.start as usize..span.end as usize], "&");
}

#[test]
fn b47_unresolvable_entity_after_root_close_is_diagnosed_with_full_span() {
    let source = "<mapper namespace=\"x\"></mapper> &nbsp;";
    let result = parse_str(source);
    assert!(result.mapper.is_some());
    let ref_pos = source.find("&nbsp;").unwrap() as u32;
    let diags: Vec<_> = result
        .diagnostics
        .iter()
        .filter(|d| d.code == DiagCode::InvalidEntity)
        .collect();
    assert_eq!(
        diags.len(),
        1,
        "expected exactly one InvalidEntity diagnostic, got {:?}",
        result.diagnostics
    );
    let span = diags[0].span.expect("must carry a span");
    assert_eq!(span.start, ref_pos);
    assert_eq!(span.end, ref_pos + "&nbsp;".len() as u32);
    assert_eq!(
        &source[span.start as usize..span.end as usize],
        "&nbsp;",
        "span must cover the full reference, '&' through ';' inclusive"
    );
}

#[test]
fn b47_plain_trailing_text_after_root_close_has_no_diagnostic() {
    let source = "<mapper namespace=\"x\"></mapper>\n   \n";
    let result = parse_str(source);
    assert!(result.mapper.is_some());
    assert!(
        result.diagnostics.is_empty(),
        "plain trailing whitespace must not be diagnosed, got {:?}",
        result.diagnostics
    );
}

#[test]
fn b47_trailing_content_after_sqlmap_close_is_equally_covered() {
    let source = "<sqlMap></sqlMap> &nbsp;";
    let result = parse_str(source);
    assert_eq!(result.dialect, Dialect::Ibatis);
    assert!(result.mapper.is_some());
    let diags: Vec<_> = result
        .diagnostics
        .iter()
        .filter(|d| d.code == DiagCode::InvalidEntity)
        .collect();
    assert_eq!(
        diags.len(),
        1,
        "expected exactly one InvalidEntity diagnostic, got {:?}",
        result.diagnostics
    );
}

#[test]
fn b47_dangling_amp_after_self_closed_root_is_diagnosed() {
    let source = "<mapper namespace=\"x\"/>&";
    let result = parse_str(source);
    assert!(result.mapper.is_some());
    let amp_pos = source.rfind('&').unwrap() as u32;
    let diags: Vec<_> = result
        .diagnostics
        .iter()
        .filter(|d| d.code == DiagCode::InvalidEntity)
        .collect();
    assert_eq!(
        diags.len(),
        1,
        "expected exactly one InvalidEntity diagnostic, got {:?}",
        result.diagnostics
    );
    let span = diags[0].span.expect("must carry a span");
    assert_eq!(span.start, amp_pos);
    assert_eq!(span.end, amp_pos + 1);
}

#[test]
fn mm_08_whitespace_preserved_verbatim() {
    let source = "<select id=\"x\">   SELECT 1   </select>";
    let (segments, _diagnostics, truncated) = run_capture(source);
    assert!(!truncated);
    assert_eq!(text_decoded(&segments), vec!["   SELECT 1   "]);
}

#[test]
fn mm_08_mixed_text_and_cdata_segments_in_document_order() {
    let source = "<select id=\"x\">SELECT 1 <![CDATA[FROM t]]> WHERE 1=1</select>";
    let (segments, diagnostics, truncated) = run_capture(source);
    assert!(!truncated);
    assert!(diagnostics.is_empty());
    assert_eq!(
        text_decoded(&segments),
        vec!["SELECT 1 ", "FROM t", " WHERE 1=1"]
    );
}

#[test]
fn mm_08_dynamic_tag_recorded_as_opaque_marker() {
    let source = "<select id=\"x\">SELECT 1 <if test=\"a\">AND a = #{a}</if> more</select>";
    let (segments, diagnostics, truncated) = run_capture(source);
    assert!(!truncated);
    assert!(diagnostics.is_empty());
    assert_eq!(segments.len(), 3);
    assert!(matches!(&segments[0], BodySegment::Text(t) if t.decoded == "SELECT 1 "));
    match &segments[1] {
        BodySegment::DynamicTag { name, span } => {
            assert_eq!(name, "if");
            let ByteSpan { start, end } = *span;
            assert_eq!(
                &source[start as usize..end as usize],
                "<if test=\"a\">AND a = #{a}</if>"
            );
        }
        _ => panic!("expected a dynamic-tag marker"),
    }
    assert!(matches!(&segments[2], BodySegment::Text(t) if t.decoded == " more"));
}

#[test]
fn mm_04_sql_fragment_is_collected() {
    let source = r#"<mapper namespace="x"><sql id="widgetCols">id, name</sql></mapper>"#;
    let result = parse_str(source);
    let mapper = result.mapper.expect("mapper root");
    assert_eq!(mapper.fragments.len(), 1);
    let fragment = &mapper.fragments[0];
    assert_eq!(fragment.id.value, "widgetCols");
    let ByteSpan { start, end } = fragment.id.span;
    assert_eq!(&source[start as usize..end as usize], fragment.id.value);
    assert!(mapper.statements.is_empty());
}

#[test]
fn mm_04_empty_element_fragment_is_collected() {
    let source = r#"<mapper namespace="x"><sql id="widgetCols"/></mapper>"#;
    let result = parse_str(source);
    let mapper = result.mapper.expect("mapper root");
    assert_eq!(mapper.fragments.len(), 1);
    assert_eq!(mapper.fragments[0].id.value, "widgetCols");
}

#[test]
fn mm_04_missing_fragment_id_is_dropped_with_diagnostic() {
    let source = r#"<mapper namespace="x"><sql>id, name</sql></mapper>"#;
    let result = parse_str(source);
    let mapper = result.mapper.expect("mapper root");
    assert!(mapper.fragments.is_empty());
    assert_eq!(result.diagnostics.len(), 1);
    assert_eq!(result.diagnostics[0].code, DiagCode::MissingStatementId);
}

#[test]
fn mm_04_duplicate_fragment_id_reuses_duplicate_statement_id_code() {
    let source = r#"<mapper namespace="x">
        <sql id="dup">a</sql>
        <sql id="dup">b</sql>
    </mapper>"#;
    let result = parse_str(source);
    let mapper = result.mapper.expect("mapper root");
    assert_eq!(mapper.fragments.len(), 2);
    assert_eq!(
        result
            .diagnostics
            .iter()
            .filter(|d| d.code == DiagCode::DuplicateStatementId)
            .count(),
        1
    );
}

#[test]
fn mm_04_fragment_and_statement_sharing_id_is_not_a_duplicate() {
    let source = r#"<mapper namespace="x">
        <sql id="shared">id, name</sql>
        <select id="shared">SELECT id, name FROM widget</select>
    </mapper>"#;
    let result = parse_str(source);
    let mapper = result.mapper.expect("mapper root");
    assert_eq!(mapper.fragments.len(), 1);
    assert_eq!(mapper.statements.len(), 1);
    assert!(!result
        .diagnostics
        .iter()
        .any(|d| d.code == DiagCode::DuplicateStatementId));
}

#[test]
fn mm_04_fragment_body_with_nested_include_does_not_choke() {
    let source = r#"<mapper namespace="x">
        <sql id="withInclude">
            id, name
            <include refid="otherFragment"/>
        </sql>
        <sql id="afterInclude">more</sql>
    </mapper>"#;
    let result = parse_str(source);
    let mapper = result.mapper.expect("mapper root");
    let ids: Vec<_> = mapper
        .fragments
        .iter()
        .map(|f| f.id.value.clone())
        .collect();
    assert_eq!(ids, vec!["withInclude", "afterInclude"]);
    assert_eq!(mapper.fragments[0].includes.len(), 1);
    assert!(result
        .diagnostics
        .iter()
        .any(|d| d.code == DiagCode::DanglingRefid));
}

#[test]
fn mm_05_local_include_is_lifted_and_resolves() {
    let source = r#"<mapper namespace="x">
        <sql id="widgetCols">id, name</sql>
        <select id="selectWidget">SELECT <include refid="widgetCols"/> FROM widget</select>
    </mapper>"#;
    let result = parse_str(source);
    let mapper = result.mapper.expect("mapper root");
    assert_eq!(mapper.statements[0].includes.len(), 1);
    let reference = &mapper.statements[0].includes[0];
    assert_eq!(reference.value.raw, "widgetCols");
    assert_eq!(
        reference.value.target,
        IncludeTarget::Local("widgetCols".to_string())
    );
    let ByteSpan { start, end } = reference.span;
    assert_eq!(
        &source[start as usize..end as usize],
        "<include refid=\"widgetCols\"/>"
    );
    assert!(!result
        .diagnostics
        .iter()
        .any(|d| d.code == DiagCode::DanglingRefid));
}

#[test]
fn mm_05_mybatis_qualified_refid_splits_on_last_dot() {
    let source = r#"<mapper namespace="x">
        <select id="a">SELECT <include refid="com.example.other.Mapper.widgetCols"/></select>
    </mapper>"#;
    let result = parse_str(source);
    let mapper = result.mapper.expect("mapper root");
    let reference = &mapper.statements[0].includes[0];
    assert_eq!(
        reference.value.target,
        IncludeTarget::Qualified {
            ns: "com.example.other.Mapper".to_string(),
            id: "widgetCols".to_string(),
        }
    );
    assert_eq!(reference.value.raw, "com.example.other.Mapper.widgetCols");
    assert!(!result
        .diagnostics
        .iter()
        .any(|d| d.code == DiagCode::DanglingRefid));
}

#[test]
fn mm_05_ibatis_dot_containing_refid_stays_local_not_qualified() {
    let source = r#"<sqlMap>
        <sql id="WidgetDAO.commonWhere">use_yn = 'Y'</sql>
        <select id="a">SELECT * <include refid="WidgetDAO.commonWhere"/></select>
    </sqlMap>"#;
    let result = parse_str(source);
    let mapper = result.mapper.expect("mapper root");
    let reference = &mapper.statements[0].includes[0];
    assert_eq!(
        reference.value.target,
        IncludeTarget::Local("WidgetDAO.commonWhere".to_string())
    );
    assert!(!result
        .diagnostics
        .iter()
        .any(|d| d.code == DiagCode::DanglingRefid));
}

#[test]
fn mm_05_dynamic_refid_is_unresolvable() {
    let source = r#"<mapper namespace="x">
        <select id="a">SELECT <include refid="${dynamicRefId}"/></select>
    </mapper>"#;
    let result = parse_str(source);
    let mapper = result.mapper.expect("mapper root");
    let reference = &mapper.statements[0].includes[0];
    assert_eq!(reference.value.target, IncludeTarget::Dynamic);
    assert_eq!(reference.value.raw, "${dynamicRefId}");
    assert!(!result
        .diagnostics
        .iter()
        .any(|d| d.code == DiagCode::DanglingRefid));
}

#[test]
fn mm_05_self_reference_is_recorded_without_hanging() {
    let source = r#"<mapper namespace="x">
        <sql id="a">base <include refid="a"/></sql>
    </mapper>"#;
    let result = parse_str(source);
    let mapper = result.mapper.expect("mapper root");
    assert_eq!(mapper.fragments.len(), 1);
    assert_eq!(mapper.fragments[0].includes.len(), 1);
    assert_eq!(
        mapper.fragments[0].includes[0].value.target,
        IncludeTarget::Local("a".to_string())
    );
    assert!(!result
        .diagnostics
        .iter()
        .any(|d| d.code == DiagCode::DanglingRefid));
}

#[test]
fn mm_05_dangling_local_refid_is_reported() {
    let source = r#"<mapper namespace="x">
        <select id="a">SELECT <include refid="doesNotExist"/></select>
    </mapper>"#;
    let result = parse_str(source);
    let mapper = result.mapper.expect("mapper root");
    assert_eq!(mapper.statements[0].includes.len(), 1);
    let dangling: Vec<_> = result
        .diagnostics
        .iter()
        .filter(|d| d.code == DiagCode::DanglingRefid)
        .collect();
    assert_eq!(dangling.len(), 1);
}

#[test]
fn b22_dangling_refid_is_suppressed_entirely_for_ibatis() {
    let source = r#"<sqlMap>
        <select id="WidgetDAO.a">SELECT <include refid="doesNotExistElsewhere"/></select>
    </sqlMap>"#;
    let result = parse_str(source);
    let mapper = result.mapper.expect("mapper root");
    assert_eq!(mapper.statements[0].includes.len(), 1);
    assert!(!result
        .diagnostics
        .iter()
        .any(|d| d.code == DiagCode::DanglingRefid));
}

#[test]
fn mm_05_missing_refid_attribute_reports_dangling_refid() {
    let source = r#"<mapper namespace="x">
        <select id="a">SELECT <include/></select>
    </mapper>"#;
    let result = parse_str(source);
    let mapper = result.mapper.expect("mapper root");
    assert!(mapper.statements[0].includes.is_empty());
    assert_eq!(
        result
            .diagnostics
            .iter()
            .filter(|d| d.code == DiagCode::DanglingRefid)
            .count(),
        1
    );
}

#[test]
fn mm_07_statement_property_paths_populated_mybatis() {
    let source = r#"<mapper namespace="x">
        <select id="a">SELECT * FROM widget WHERE id = #{id} AND name = ${nameCol}</select>
    </mapper>"#;
    let result = parse_str(source);
    let mapper = result.mapper.expect("mapper root");
    let paths: Vec<_> = mapper.statements[0]
        .property_paths
        .iter()
        .map(|p| p.value.as_str())
        .collect();
    assert_eq!(paths, vec!["id", "nameCol"]);
}

#[test]
fn mm_07_statement_property_paths_populated_ibatis() {
    let source = r#"<sqlMap>
        <select id="a">SELECT * FROM widget WHERE id = #id# AND grp = $grpCd$</select>
    </sqlMap>"#;
    let result = parse_str(source);
    let mapper = result.mapper.expect("mapper root");
    let paths: Vec<_> = mapper.statements[0]
        .property_paths
        .iter()
        .map(|p| p.value.as_str())
        .collect();
    assert_eq!(paths, vec!["id", "grpCd"]);
}

#[test]
fn mm_07_statement_placeholder_inside_cdata_end_to_end() {
    let source = "<mapper namespace=\"x\"><select id=\"a\"><![CDATA[SELECT * FROM t WHERE id = #{id}]]></select></mapper>";
    let result = parse_str(source);
    let mapper = result.mapper.expect("mapper root");
    assert_eq!(mapper.statements[0].property_paths.len(), 1);
    assert_eq!(mapper.statements[0].property_paths[0].value, "id");
}

#[test]
fn mm_07_fragment_has_no_property_paths_field_but_diagnostic_surfaces() {
    let source = r#"<mapper namespace="x">
        <sql id="broken">WHERE id = #{id</sql>
    </mapper>"#;
    let result = parse_str(source);
    let mapper = result.mapper.expect("mapper root");
    assert_eq!(mapper.fragments.len(), 1);
    assert!(result
        .diagnostics
        .iter()
        .any(|d| d.code == DiagCode::UnterminatedPlaceholder));
}

fn variants(sql: &SqlText) -> &[SqlVariant] {
    match sql {
        SqlText::Variants(v) => v,
        SqlText::Union { .. } => panic!("expected Variants, got Union"),
        _ => panic!("expected Variants, got something else"),
    }
}

#[test]
fn mm_06_if_present_and_absent_yields_two_variants() {
    let source = r#"<mapper namespace="x">
        <select id="a">SELECT 1<if test="a != null"> AND a = #{a}</if></select>
    </mapper>"#;
    let result = parse_str(source);
    let mapper = result.mapper.expect("mapper root");
    let vs = variants(&mapper.statements[0].sql);
    assert_eq!(vs.len(), 2);
    let texts: Vec<_> = vs.iter().map(|v| v.text.text.as_str()).collect();
    assert!(texts.contains(&"SELECT 1"));
    assert!(texts.contains(&"SELECT 1 AND a = ?"));
    let present = vs
        .iter()
        .find(|v| v.text.text == "SELECT 1 AND a = ?")
        .unwrap();
    assert_eq!(present.conditions, vec!["a != null".to_string()]);
    let absent = vs.iter().find(|v| v.text.text == "SELECT 1").unwrap();
    assert!(absent.conditions.is_empty());
    assert_eq!(mapper.statements[0].property_paths[0].value, "a");
}

#[test]
fn mm_06_choose_when_otherwise_branches() {
    let source = r#"<mapper namespace="x">
        <select id="a">SELECT 1<choose>
            <when test="a != null"> AND a = #{a}</when>
            <when test="b != null"> AND b = #{b}</when>
            <otherwise> AND active = 1</otherwise>
        </choose></select>
    </mapper>"#;
    let result = parse_str(source);
    let mapper = result.mapper.expect("mapper root");
    let vs = variants(&mapper.statements[0].sql);
    assert_eq!(vs.len(), 3);
    let by_text: std::collections::HashMap<_, _> = vs
        .iter()
        .map(|v| (v.text.text.clone(), v.conditions.clone()))
        .collect();
    assert_eq!(
        by_text[&"SELECT 1 AND a = ?".to_string()],
        vec!["a != null".to_string()]
    );
    assert_eq!(
        by_text[&"SELECT 1 AND b = ?".to_string()],
        vec!["b != null".to_string()]
    );
    assert_eq!(
        by_text[&"SELECT 1 AND active = 1".to_string()],
        Vec::<String>::new()
    );
}

#[test]
fn mm_06_choose_without_otherwise_has_implicit_empty_alternative() {
    let source = r#"<mapper namespace="x">
        <select id="a">SELECT 1<choose>
            <when test="a != null"> AND a = #{a}</when>
        </choose></select>
    </mapper>"#;
    let result = parse_str(source);
    let mapper = result.mapper.expect("mapper root");
    let vs = variants(&mapper.statements[0].sql);
    assert_eq!(vs.len(), 2);
    let texts: Vec<_> = vs.iter().map(|v| v.text.text.as_str()).collect();
    assert!(texts.contains(&"SELECT 1"));
    assert!(texts.contains(&"SELECT 1 AND a = ?"));
}

#[test]
fn choose_child_that_is_neither_when_nor_otherwise_is_diagnosed_not_silently_dropped() {
    let source = r#"<mapper namespace="x">
        <sql id="cols">a, b</sql>
        <select id="a">SELECT 1<choose>
            <when test="a != null"> AND a = #{a}</when>
            <include refid="cols"/>
            <otherwise> AND a IS NULL</otherwise>
        </choose></select>
    </mapper>"#;
    let result = parse_str(source);
    let mapper = result.mapper.expect("mapper root");
    let vs = variants(&mapper.statements[0].sql);
    assert_eq!(vs.len(), 2);
    assert!(result
        .diagnostics
        .iter()
        .any(|d| d.code == DiagCode::UnknownElement
            && d.message.contains("<include>")
            && d.message.contains("<choose>")));
}

#[test]
fn mm_06_cartesian_product_of_sibling_ifs() {
    let source = r#"<mapper namespace="x">
        <select id="a">SELECT 1<if test="a"> AND a</if><if test="b"> AND b</if></select>
    </mapper>"#;
    let result = parse_str(source);
    let mapper = result.mapper.expect("mapper root");
    let vs = variants(&mapper.statements[0].sql);
    assert_eq!(vs.len(), 4);
    let texts: std::collections::HashSet<_> = vs.iter().map(|v| v.text.text.clone()).collect();
    assert!(texts.contains("SELECT 1"));
    assert!(texts.contains("SELECT 1 AND a"));
    assert!(texts.contains("SELECT 1 AND b"));
    assert!(texts.contains("SELECT 1 AND a AND b"));
}

#[test]
fn mm_06_nested_if_inside_unhandled_container_still_branches() {
    let source = r#"<mapper namespace="x">
        <select id="a">SELECT 1<dynamic><if test="a != null"> AND a = #{a}</if></dynamic></select>
    </mapper>"#;
    let result = parse_str(source);
    let mapper = result.mapper.expect("mapper root");
    let vs = variants(&mapper.statements[0].sql);
    assert_eq!(vs.len(), 2);
    let texts: std::collections::HashSet<_> = vs.iter().map(|v| v.text.text.clone()).collect();
    assert!(texts.contains("SELECT 1"));
    assert!(texts.contains("SELECT 1 AND a = ?"));
}

#[test]
fn mm_06_include_marker_becomes_comment_token() {
    let source = r#"<mapper namespace="x">
        <sql id="cols">id, name</sql>
        <select id="a">SELECT <include refid="cols"/> FROM widget</select>
    </mapper>"#;
    let result = parse_str(source);
    let mapper = result.mapper.expect("mapper root");
    let vs = variants(&mapper.statements[0].sql);
    assert_eq!(vs.len(), 1);
    assert_eq!(
        vs[0].text.text,
        "SELECT /* batis:include(cols) */ FROM widget"
    );
}

#[test]
fn include_refid_containing_star_slash_does_not_terminate_the_comment_early() {
    let source = r#"<mapper namespace="x">
        <select id="a">SELECT <include refid="a*/b"/> FROM widget</select>
    </mapper>"#;
    let result = parse_str(source);
    let mapper = result.mapper.expect("mapper root");
    let vs = variants(&mapper.statements[0].sql);
    assert_eq!(vs.len(), 1);
    assert_eq!(
        vs[0].text.text,
        "SELECT /* batis:include(a*_/b) */ FROM widget"
    );
    assert_eq!(mapper.statements[0].includes[0].value.raw, "a*/b");
}

#[test]
fn placeholder_split_by_real_cdata_boundary_normalizes_correctly() {
    let source = r#"<mapper namespace="x">
        <select id="a">WHERE id = #{i<![CDATA[d}]]></select>
    </mapper>"#;
    let result = parse_str(source);
    let mapper = result.mapper.expect("mapper root");
    let vs = variants(&mapper.statements[0].sql);
    assert_eq!(vs.len(), 1);
    assert_eq!(vs[0].text.text, "WHERE id = ?");
    assert!(result
        .diagnostics
        .iter()
        .all(|d| d.code != DiagCode::UnterminatedPlaceholder));
    assert_eq!(mapper.statements[0].property_paths[0].value, "id");
}

#[test]
fn placeholder_split_across_two_real_cdata_sections_normalizes_correctly() {
    let source = r#"<mapper namespace="x">
        <select id="a">WHERE id = #{i<![CDATA[d]]><![CDATA[}]]></select>
    </mapper>"#;
    let result = parse_str(source);
    let mapper = result.mapper.expect("mapper root");
    let vs = variants(&mapper.statements[0].sql);
    assert_eq!(vs.len(), 1);
    assert_eq!(vs[0].text.text, "WHERE id = ?");
    assert!(result
        .diagnostics
        .iter()
        .all(|d| d.code != DiagCode::UnterminatedPlaceholder));
    assert_eq!(mapper.statements[0].property_paths[0].value, "id");
}

#[test]
fn merge_of_non_straddling_segments_stays_byte_identical_to_per_segment_span_map() {
    let source = r#"<mapper namespace="x">
        <select id="a">SELECT 1<![CDATA[ FROM widget]]> WHERE a = #{a}</select>
    </mapper>"#;
    let result = parse_str(source);
    let mapper = result.mapper.expect("mapper root");
    let vs = variants(&mapper.statements[0].sql);
    assert_eq!(vs.len(), 1);
    assert_eq!(vs[0].text.text, "SELECT 1 FROM widget WHERE a = ?");
    assert!(vs[0].text.span_map.len() >= 3);
    assert!(vs[0].text.span_map.windows(2).all(|w| w[0].0 < w[1].0));
}

#[test]
fn mm_06_fragment_sql_is_also_flattened() {
    let source = r#"<mapper namespace="x">
        <sql id="cond"><if test="a != null"> AND a = #{a}</if></sql>
    </mapper>"#;
    let result = parse_str(source);
    let mapper = result.mapper.expect("mapper root");
    let vs = variants(&mapper.fragments[0].sql);
    assert_eq!(vs.len(), 2);
}

#[test]
fn mm_06_span_map_strictly_increasing_in_assembled_variant() {
    let source = r#"<mapper namespace="x">
        <select id="a">WHERE a = #{a} AND b = #{b}<if test="c != null"> AND c = #{c}</if></select>
    </mapper>"#;
    let result = parse_str(source);
    let mapper = result.mapper.expect("mapper root");
    let vs = variants(&mapper.statements[0].sql);
    for v in vs {
        assert!(v.text.span_map.windows(2).all(|w| w[0].0 < w[1].0));
        assert_eq!(v.text.span_map[0].0, 0);
    }
}

fn choose_with_whens(when_count: usize) -> String {
    let whens: String = (0..when_count)
        .map(|i| format!(r#"<when test="c{i}">t{i}</when>"#))
        .collect();
    format!(
        r#"<mapper namespace="x"><select id="a"><choose>{whens}</choose></select></mapper>"#
    )
}

#[test]
fn mm_06_branch_limit_boundary_31_stays_variants() {
    let source = choose_with_whens(30);
    let result = parse_str(&source);
    let mapper = result.mapper.expect("mapper root");
    assert_eq!(variants(&mapper.statements[0].sql).len(), 31);
    assert!(!result
        .diagnostics
        .iter()
        .any(|d| d.code == DiagCode::BranchLimitExceeded));
}

#[test]
fn mm_06_branch_limit_boundary_32_stays_variants() {
    let source = choose_with_whens(31);
    let result = parse_str(&source);
    let mapper = result.mapper.expect("mapper root");
    assert_eq!(variants(&mapper.statements[0].sql).len(), 32);
    assert!(!result
        .diagnostics
        .iter()
        .any(|d| d.code == DiagCode::BranchLimitExceeded));
}

#[test]
fn mm_06_branch_limit_boundary_33_falls_back_to_union() {
    let source = choose_with_whens(32);
    let result = parse_str(&source);
    let mapper = result.mapper.expect("mapper root");
    match &mapper.statements[0].sql {
        SqlText::Union { branch_count, .. } => assert_eq!(*branch_count, 33),
        SqlText::Variants(_) => panic!("expected Union at 33 branches"),
        _ => panic!("expected Union, got something else"),
    }
    assert!(result
        .diagnostics
        .iter()
        .any(|d| d.code == DiagCode::BranchLimitExceeded));
}

#[test]
fn mm_06_full_flattening_snapshot() {
    let source = r#"<mapper namespace="com.example.WidgetMapper">
        <sql id="baseCols">id, name</sql>
        <select id="selectWidget">
            SELECT <include refid="baseCols"/> FROM widget
            <where>
                <if test="name != null">AND name = #{name}</if>
                <choose>
                    <when test="active"> AND active = 1</when>
                    <otherwise> AND active = 0</otherwise>
                </choose>
            </where>
        </select>
    </mapper>"#;
    let result = parse_str(source);
    assert!(result.diagnostics.is_empty());
    let mapper = result.mapper.expect("mapper root");
    assert_eq!(variants(&mapper.fragments[0].sql)[0].text.text, "id, name");
    let found: Vec<(String, Vec<String>)> = variants(&mapper.statements[0].sql)
        .iter()
        .map(|v| {
            let words: Vec<&str> = v.text.text.split_whitespace().collect();
            (words.join(" "), v.conditions.clone())
        })
        .collect();
    let head = "SELECT /* batis:include(baseCols) */ FROM widget WHERE";
    assert_eq!(
        found,
        vec![
            (format!("{head} active = 1"), vec!["active".to_string()]),
            (format!("{head} active = 0"), vec![]),
            (
                format!("{head} name = ? AND active = 1"),
                vec!["name != null".to_string(), "active".to_string()]
            ),
            (
                format!("{head} name = ? AND active = 0"),
                vec!["name != null".to_string()]
            ),
        ]
    );
}

#[test]
fn mm_06b_where_omitted_when_inner_is_empty() {
    let source = r#"<mapper namespace="x">
        <select id="a">SELECT 1<where><if test="a != null"> AND a = #{a}</if></where></select>
    </mapper>"#;
    let result = parse_str(source);
    let mapper = result.mapper.expect("mapper root");
    let vs = variants(&mapper.statements[0].sql);
    assert_eq!(vs.len(), 2);
    let texts: std::collections::HashSet<_> = vs.iter().map(|v| v.text.text.clone()).collect();
    assert!(texts.contains("SELECT 1"));
    assert!(texts.contains("SELECT 1WHERE a = ?"));
}

#[test]
fn mm_06b_where_strips_one_leading_and_case_insensitive() {
    let source = r#"<mapper namespace="x">
        <select id="a">SELECT 1<where> and a = #{a} AND b = #{b}</where></select>
    </mapper>"#;
    let result = parse_str(source);
    let mapper = result.mapper.expect("mapper root");
    let vs = variants(&mapper.statements[0].sql);
    assert_eq!(vs.len(), 1);
    assert_eq!(vs[0].text.text, "SELECT 1WHERE a = ? AND b = ?");
}

#[test]
fn mm_06b_where_span_map_integrity_through_strip() {
    let source = r#"<mapper namespace="x">
        <select id="a"><where> AND a = #{a}</where></select>
    </mapper>"#;
    let result = parse_str(source);
    let mapper = result.mapper.expect("mapper root");
    let vs = variants(&mapper.statements[0].sql);
    let v = &vs[0];
    assert_eq!(v.text.text, "WHERE a = ?");
    assert!(v.text.span_map.windows(2).all(|w| w[0].0 < w[1].0));
    for (_, raw) in &v.text.span_map {
        assert!((*raw as usize) <= source.len());
    }
    assert_eq!(v.text.span_map[0].0, 0);
}

#[test]
fn where_leading_and_or_strip_does_not_panic_on_leading_cjk() {
    let source = r#"<mapper namespace="x">
        <select id="a">SELECT 1<where>사용여부 = 'Y'</where></select>
    </mapper>"#;
    let result = parse_str(source);
    let mapper = result.mapper.expect("mapper root");
    let vs = variants(&mapper.statements[0].sql);
    assert_eq!(vs[0].text.text, "SELECT 1WHERE 사용여부 = 'Y'");
}

#[test]
fn where_leading_and_or_strip_does_not_panic_on_leading_emoji() {
    let source = r#"<mapper namespace="x">
        <select id="a">SELECT 1<where>🎉 flag = 1</where></select>
    </mapper>"#;
    let result = parse_str(source);
    let mapper = result.mapper.expect("mapper root");
    let vs = variants(&mapper.statements[0].sql);
    assert_eq!(vs[0].text.text, "SELECT 1WHERE 🎉 flag = 1");
}

#[test]
fn trim_prefix_overrides_leading_strip_does_not_panic_on_leading_cjk() {
    let source = r#"<mapper namespace="x">
        <select id="a"><trim prefix="WHERE" prefixOverrides="AND |OR ">사용여부 = 'Y'</trim></select>
    </mapper>"#;
    let result = parse_str(source);
    let mapper = result.mapper.expect("mapper root");
    let vs = variants(&mapper.statements[0].sql);
    assert_eq!(vs[0].text.text, "WHERE 사용여부 = 'Y'");
}

#[test]
fn trim_prefix_overrides_leading_strip_does_not_panic_on_leading_emoji() {
    let source = r#"<mapper namespace="x">
        <select id="a"><trim prefix="WHERE" prefixOverrides="AND |OR ">🎉 = 1</trim></select>
    </mapper>"#;
    let result = parse_str(source);
    let mapper = result.mapper.expect("mapper root");
    let vs = variants(&mapper.statements[0].sql);
    assert_eq!(vs[0].text.text, "WHERE 🎉 = 1");
}

#[test]
fn trim_suffix_overrides_trailing_strip_does_not_panic_on_trailing_cjk() {
    let source = r#"<mapper namespace="x">
        <select id="a"><trim suffixOverrides=",">a = 1사용여부</trim></select>
    </mapper>"#;
    let result = parse_str(source);
    let mapper = result.mapper.expect("mapper root");
    let vs = variants(&mapper.statements[0].sql);
    assert_eq!(vs[0].text.text, "a = 1사용여부");
}

#[test]
fn trim_suffix_overrides_trailing_strip_does_not_panic_on_trailing_emoji() {
    let source = r#"<mapper namespace="x">
        <select id="a"><trim suffixOverrides=",">a = 1🎉</trim></select>
    </mapper>"#;
    let result = parse_str(source);
    let mapper = result.mapper.expect("mapper root");
    let vs = variants(&mapper.statements[0].sql);
    assert_eq!(vs[0].text.text, "a = 1🎉");
}

#[test]
fn mm_06b_set_prepends_and_strips_trailing_comma() {
    let source = r#"<mapper namespace="x">
        <update id="a">UPDATE t <set>name = #{name}, age = #{age},</set></update>
    </mapper>"#;
    let result = parse_str(source);
    let mapper = result.mapper.expect("mapper root");
    let vs = variants(&mapper.statements[0].sql);
    assert_eq!(vs.len(), 1);
    assert_eq!(vs[0].text.text, "UPDATE t SET name = ?, age = ?");
}

#[test]
fn b17_set_strips_leading_comma_too() {
    let source = r#"<mapper namespace="x">
        <update id="a">UPDATE t <set>, a = #{a}</set></update>
    </mapper>"#;
    let result = parse_str(source);
    let mapper = result.mapper.expect("mapper root");
    let vs = variants(&mapper.statements[0].sql);
    assert_eq!(vs.len(), 1);
    assert_eq!(vs[0].text.text, "UPDATE t SET a = ?");
}

#[test]
fn set_span_map_has_no_phantom_entry_at_stripped_comma_position() {
    let source = r#"<mapper namespace="x">
        <update id="a">UPDATE t <set>x = #{a},</set></update>
    </mapper>"#;
    let result = parse_str(source);
    let mapper = result.mapper.expect("mapper root");
    let vs = variants(&mapper.statements[0].sql);
    assert_eq!(vs.len(), 1);
    let v = &vs[0];
    assert_eq!(v.text.text, "UPDATE t SET x = ?");
    for (off, _) in &v.text.span_map {
        assert!(
            (*off as usize) < v.text.text.len(),
            "span_map entry at offset {off} is >= text length {} (phantom one-past-end entry)",
            v.text.text.len()
        );
    }
}

fn assert_no_phantom_one_past_end_entry(sql: &SqlString) {
    for (off, _) in &sql.span_map {
        assert!(
            (*off as usize) < sql.text.len(),
            "span_map entry at offset {off} is >= text length {} (phantom one-past-end entry)",
            sql.text.len()
        );
    }
}

#[test]
fn b26_where_span_map_has_no_phantom_entry_when_strip_empties_the_body() {
    let source = r#"<mapper namespace="x">
        <select id="a">SELECT 1<where>AND </where></select>
    </mapper>"#;
    let result = parse_str(source);
    let mapper = result.mapper.expect("mapper root");
    let vs = variants(&mapper.statements[0].sql);
    assert_eq!(vs[0].text.text, "SELECT 1WHERE ");
    assert_no_phantom_one_past_end_entry(&vs[0].text);
}

#[test]
fn b26_set_span_map_has_no_phantom_entry_when_strip_empties_the_body() {
    let source = r#"<mapper namespace="x">
        <update id="a">UPDATE t <set>,</set></update>
    </mapper>"#;
    let result = parse_str(source);
    let mapper = result.mapper.expect("mapper root");
    let vs = variants(&mapper.statements[0].sql);
    assert_eq!(vs[0].text.text, "UPDATE t SET ");
    assert_no_phantom_one_past_end_entry(&vs[0].text);
}

#[test]
fn b26_trim_span_map_has_no_phantom_entry_when_strip_empties_the_body() {
    let source = r#"<mapper namespace="x">
        <select id="a"><trim prefix="WHERE" prefixOverrides="AND ">AND </trim></select>
    </mapper>"#;
    let result = parse_str(source);
    let mapper = result.mapper.expect("mapper root");
    let vs = variants(&mapper.statements[0].sql);
    assert_eq!(vs[0].text.text, "WHERE ");
    assert_no_phantom_one_past_end_entry(&vs[0].text);
}

#[test]
fn b20_set_span_map_has_no_phantom_entry_when_text_ends_on_a_placeholder() {
    let source = r#"<mapper namespace="x">
        <update id="a">UPDATE t <set>a = #{a,jdbcType=VARCHAR}</set></update>
    </mapper>"#;
    let result = parse_str(source);
    let mapper = result.mapper.expect("mapper root");
    let vs = variants(&mapper.statements[0].sql);
    assert_eq!(vs.len(), 1);
    let v = &vs[0];
    assert_eq!(v.text.text, "UPDATE t SET a = ?");
    for (off, _) in &v.text.span_map {
        assert!(
            (*off as usize) < v.text.text.len(),
            "span_map entry at offset {off} is >= text length {} (phantom one-past-end entry)",
            v.text.text.len()
        );
    }
}

#[test]
fn mm_06b_set_omitted_when_inner_is_empty() {
    let source = r#"<mapper namespace="x">
        <update id="a">UPDATE t <set><if test="a != null">name = #{name},</if></set></update>
    </mapper>"#;
    let result = parse_str(source);
    let mapper = result.mapper.expect("mapper root");
    let vs = variants(&mapper.statements[0].sql);
    let texts: std::collections::HashSet<_> = vs.iter().map(|v| v.text.text.clone()).collect();
    assert!(texts.contains("UPDATE t "));
    assert!(texts.contains("UPDATE t SET name = ?"));
}

#[test]
fn mm_06b_trim_prefix_suffix_and_overrides() {
    let source = r#"<mapper namespace="x">
        <select id="a">SELECT 1<trim prefix="WHERE (" suffix=")" prefixOverrides="AND |OR " suffixOverrides=",">AND a = #{a},</trim></select>
    </mapper>"#;
    let result = parse_str(source);
    let mapper = result.mapper.expect("mapper root");
    let vs = variants(&mapper.statements[0].sql);
    assert_eq!(vs.len(), 1);
    assert_eq!(vs[0].text.text, "SELECT 1WHERE ( a = ? )");
}

#[test]
fn mm_06b_trim_contributes_nothing_when_inner_empty() {
    let source = r#"<mapper namespace="x">
        <select id="a">SELECT 1<trim prefix="WHERE"><if test="a != null">a = #{a}</if></trim></select>
    </mapper>"#;
    let result = parse_str(source);
    let mapper = result.mapper.expect("mapper root");
    let vs = variants(&mapper.statements[0].sql);
    let texts: std::collections::HashSet<_> = vs.iter().map(|v| v.text.text.clone()).collect();
    assert!(texts.contains("SELECT 1"));
    assert!(texts.contains("SELECT 1WHERE a = ?"));
}

#[test]
fn a5_trim_prefix_inserts_space_when_override_strips_leading_and() {
    let source = r#"<mapper namespace="x">
        <select id="a"><trim prefix="WHERE" prefixOverrides="AND |OR ">AND widget_name = #{name}</trim></select>
    </mapper>"#;
    let result = parse_str(source);
    let mapper = result.mapper.expect("mapper root");
    let vs = variants(&mapper.statements[0].sql);
    assert_eq!(vs[0].text.text, "WHERE widget_name = ?");
}

#[test]
fn a5_trim_prefix_inserts_space_with_no_override_match() {
    let source = r#"<mapper namespace="x">
        <select id="a"><trim prefix="WHERE">a = 1</trim></select>
    </mapper>"#;
    let result = parse_str(source);
    let mapper = result.mapper.expect("mapper root");
    let vs = variants(&mapper.statements[0].sql);
    assert_eq!(vs[0].text.text, "WHERE a = 1");
}

#[test]
fn a5_trim_suffix_inserts_space_before_word_suffix() {
    let source = r#"<mapper namespace="x">
        <select id="a">SELECT 1<trim suffix="END">a = 1</trim></select>
    </mapper>"#;
    let result = parse_str(source);
    let mapper = result.mapper.expect("mapper root");
    let vs = variants(&mapper.statements[0].sql);
    assert_eq!(vs[0].text.text, "SELECT 1a = 1 END");
}

#[test]
fn a9_trim_override_overlap_does_not_panic() {
    let source = r#"<mapper namespace="x">
        <select id="a"><trim prefixOverrides="AB" suffixOverrides="BC">ABC</trim></select>
    </mapper>"#;
    let result = parse_str(source);
    assert!(result.mapper.is_some());
}

#[test]
fn a9_trim_override_overlap_where_both_overrides_match_the_entire_body() {
    let source = r#"<mapper namespace="x">
        <select id="a"><trim prefixOverrides="ABC" suffixOverrides="ABC">ABC</trim></select>
    </mapper>"#;
    let result = parse_str(source);
    assert!(result.mapper.is_some());
}

#[test]
fn a9_trim_override_overlap_with_prefix_attribute_does_not_panic() {
    let source = r#"<mapper namespace="x">
        <select id="a"><trim prefix="X" prefixOverrides="AB" suffixOverrides="BC">ABC</trim></select>
    </mapper>"#;
    let result = parse_str(source);
    assert!(result.mapper.is_some());
}

#[test]
fn b21_trim_leading_strip_over_entity_decoded_text_does_not_fabricate_offset() {
    let source = r#"<mapper namespace="x">
        <select id="a"><trim prefixOverrides="AND |OR ">&#x41;ND widget_name = 1</trim></select>
    </mapper>"#;
    let result = parse_str(source);
    let mapper = result.mapper.expect("mapper root");
    let vs = variants(&mapper.statements[0].sql);
    assert_eq!(vs[0].text.text, "widget_name = 1");

    let entity_start = source.find("&#x41;").expect("entity in source") as u32;
    let expected_raw = entity_start + "&#x41;ND ".len() as u32;
    let (_, raw) = vs[0]
        .text
        .span_map
        .iter()
        .find(|(off, _)| *off == 0)
        .expect("span_map entry at offset 0");
    assert_eq!(
        *raw, expected_raw,
        "mapped offset must be the exact raw position right after the stripped \
         \"AND \" (verified honest via with_prefix's byte-comparison check), not \
         a fabricated offset"
    );
    assert_eq!(
        &source[*raw as usize..(*raw as usize + "widget_name".len())],
        "widget_name"
    );
}

#[test]
fn a7_include_only_content_of_where_emits_boundary_diagnostic() {
    let source = r#"<mapper namespace="x">
        <sql id="frag">status = 'Y'</sql>
        <select id="a">SELECT 1<where><include refid="frag"/></where></select>
    </mapper>"#;
    let result = parse_str(source);
    assert!(result
        .diagnostics
        .iter()
        .any(|d| d.code == DiagCode::IncludeAtWrapperBoundary));
}

#[test]
fn a7_include_first_in_set_emits_boundary_diagnostic() {
    let source = r#"<mapper namespace="x">
        <sql id="frag">name = #{name},</sql>
        <update id="a">UPDATE t <set><include refid="frag"/>age = #{age}</set></update>
    </mapper>"#;
    let result = parse_str(source);
    assert!(result
        .diagnostics
        .iter()
        .any(|d| d.code == DiagCode::IncludeAtWrapperBoundary));
}

#[test]
fn a7_include_last_in_trim_emits_boundary_diagnostic() {
    let source = r#"<mapper namespace="x">
        <sql id="frag">status = 'Y'</sql>
        <select id="a"><trim prefix="WHERE">a = 1 AND <include refid="frag"/></trim></select>
    </mapper>"#;
    let result = parse_str(source);
    assert!(result
        .diagnostics
        .iter()
        .any(|d| d.code == DiagCode::IncludeAtWrapperBoundary));
}

#[test]
fn a12_include_first_and_a_different_include_last_both_flagged() {
    let source = r#"<mapper namespace="x">
        <sql id="fragA">a = 1</sql>
        <sql id="fragB">b = 2</sql>
        <select id="x"><where><include refid="fragA"/> AND c = 3 AND <include refid="fragB"/></where></select>
    </mapper>"#;
    let result = parse_str(source);
    let boundary_diags: Vec<_> = result
        .diagnostics
        .iter()
        .filter(|d| d.code == DiagCode::IncludeAtWrapperBoundary)
        .collect();
    assert_eq!(
        boundary_diags.len(),
        2,
        "both the first include and the distinct last include must be flagged"
    );
    let frag_a_span = source.find("<include refid=\"fragA\"").unwrap() as u32;
    let frag_b_span = source.find("<include refid=\"fragB\"").unwrap() as u32;
    assert!(boundary_diags
        .iter()
        .any(|d| d.span.unwrap().start == frag_a_span));
    assert!(boundary_diags
        .iter()
        .any(|d| d.span.unwrap().start == frag_b_span));
}

#[test]
fn a12_single_include_as_only_content_is_flagged_exactly_once() {
    let source = r#"<mapper namespace="x">
        <sql id="frag">status = 'Y'</sql>
        <select id="a">SELECT 1<where><include refid="frag"/></where></select>
    </mapper>"#;
    let result = parse_str(source);
    let boundary_diags: Vec<_> = result
        .diagnostics
        .iter()
        .filter(|d| d.code == DiagCode::IncludeAtWrapperBoundary)
        .collect();
    assert_eq!(boundary_diags.len(), 1);
}

#[test]
fn a12_back_to_back_includes_as_only_content_both_flagged() {
    let source = r#"<mapper namespace="x">
        <sql id="fragA">a = 1</sql>
        <sql id="fragB">b = 2</sql>
        <select id="x"><where><include refid="fragA"/><include refid="fragB"/></where></select>
    </mapper>"#;
    let result = parse_str(source);
    let boundary_diags: Vec<_> = result
        .diagnostics
        .iter()
        .filter(|d| d.code == DiagCode::IncludeAtWrapperBoundary)
        .collect();
    assert_eq!(boundary_diags.len(), 2);
}

#[test]
fn a7_no_include_in_where_does_not_emit_boundary_diagnostic() {
    let source = r#"<mapper namespace="x">
        <select id="a">SELECT 1<where>status = 'Y'</where></select>
    </mapper>"#;
    let result = parse_str(source);
    assert!(!result
        .diagnostics
        .iter()
        .any(|d| d.code == DiagCode::IncludeAtWrapperBoundary));
}

#[test]
fn a7_include_in_the_middle_of_where_does_not_emit_boundary_diagnostic() {
    let source = r#"<mapper namespace="x">
        <sql id="frag">status = 'Y'</sql>
        <select id="a">SELECT 1<where>a = 1 AND <include refid="frag"/> AND b = 2</where></select>
    </mapper>"#;
    let result = parse_str(source);
    assert!(!result
        .diagnostics
        .iter()
        .any(|d| d.code == DiagCode::IncludeAtWrapperBoundary));
}

#[test]
fn a7_include_outside_any_wrapper_does_not_emit_boundary_diagnostic() {
    let source = r#"<mapper namespace="x">
        <sql id="frag">status = 'Y'</sql>
        <select id="a">SELECT 1 WHERE <include refid="frag"/></select>
    </mapper>"#;
    let result = parse_str(source);
    assert!(!result
        .diagnostics
        .iter()
        .any(|d| d.code == DiagCode::IncludeAtWrapperBoundary));
}

#[test]
fn mm_06b_foreach_wraps_once_ignoring_separator_no_branch_factor() {
    let source = r#"<mapper namespace="x">
        <select id="a">SELECT 1<foreach item="i" collection="list" open="(" close=")" separator=",">#{i}</foreach></select>
    </mapper>"#;
    let result = parse_str(source);
    let mapper = result.mapper.expect("mapper root");
    let vs = variants(&mapper.statements[0].sql);
    assert_eq!(vs.len(), 1);
    assert_eq!(vs[0].text.text, "SELECT 1(?)");
}

#[test]
fn b19_foreach_without_open_keeps_inner_text_own_span_map_entry() {
    let source = r#"<mapper namespace="x">
        <select id="a">SELECT 1<foreach item="i" collection="list">#{i}</foreach></select>
    </mapper>"#;
    let result = parse_str(source);
    let mapper = result.mapper.expect("mapper root");
    let vs = variants(&mapper.statements[0].sql);
    assert_eq!(vs.len(), 1);
    assert_eq!(vs[0].text.text, "SELECT 1?");

    let placeholder_raw_offset = source.find("#{i}").expect("placeholder in source") as u32;
    let synthetic_offset = "SELECT 1".len() as u32;
    let (_, raw) = vs[0]
        .text
        .span_map
        .iter()
        .find(|(off, _)| *off == synthetic_offset)
        .expect("span_map entry at the placeholder's synthetic offset");
    assert_eq!(
        *raw, placeholder_raw_offset,
        "mapped offset must point at the placeholder's own source position, not the <foreach> tag's start"
    );
}

#[test]
fn mm_06b_bind_contributes_no_text_but_records_property_path() {
    let source = r#"<mapper namespace="x">
        <select id="a"><bind name="pattern" value="'%' + name + '%'"/>SELECT 1 WHERE name LIKE #{pattern}</select>
    </mapper>"#;
    let result = parse_str(source);
    let mapper = result.mapper.expect("mapper root");
    let vs = variants(&mapper.statements[0].sql);
    assert_eq!(vs.len(), 1);
    assert_eq!(vs[0].text.text, "SELECT 1 WHERE name LIKE ?");
    let paths: Vec<_> = mapper.statements[0]
        .property_paths
        .iter()
        .map(|p| p.value.as_str())
        .collect();
    assert!(paths.contains(&"'%' + name + '%'"));
    assert!(paths.contains(&"pattern"));
}

#[test]
fn mm_06b_nested_include_is_lifted_into_statement_includes() {
    let source = r#"<mapper namespace="x">
        <sql id="cond">active = 1</sql>
        <select id="a">SELECT 1<where><if test="a != null"><include refid="cond"/></if></where></select>
    </mapper>"#;
    let result = parse_str(source);
    let mapper = result.mapper.expect("mapper root");
    assert_eq!(mapper.statements[0].includes.len(), 1);
    assert_eq!(mapper.statements[0].includes[0].value.raw, "cond");
    assert!(!result
        .diagnostics
        .iter()
        .any(|d| d.code == DiagCode::DanglingRefid));
}

#[test]
fn mm_06b_nested_include_in_fragment_is_lifted_and_not_duplicated_with_top_level() {
    let source = r#"<mapper namespace="x">
        <sql id="a">A</sql>
        <sql id="b">B</sql>
        <sql id="combined"><include refid="a"/><if test="x"><include refid="b"/></if></sql>
    </mapper>"#;
    let result = parse_str(source);
    let mapper = result.mapper.expect("mapper root");
    let combined = mapper
        .fragments
        .iter()
        .find(|f| f.id.value == "combined")
        .unwrap();
    let raws: Vec<_> = combined
        .includes
        .iter()
        .map(|i| i.value.raw.as_str())
        .collect();
    assert_eq!(raws, vec!["a", "b"]);
}

#[test]
fn mm_06c_is_not_empty_synthesizes_condition_and_branches() {
    let source = r#"<sqlMap>
        <select id="a">SELECT 1<isNotEmpty property="grpCd"> AND grp_cd = #grpCd#</isNotEmpty></select>
    </sqlMap>"#;
    let result = parse_str(source);
    let mapper = result.mapper.expect("mapper root");
    let vs = variants(&mapper.statements[0].sql);
    assert_eq!(vs.len(), 2);
    let present = vs.iter().find(|v| v.text.text.contains("grp_cd")).unwrap();
    assert_eq!(present.text.text, "SELECT 1 AND grp_cd = ?");
    assert_eq!(present.conditions, vec!["isNotEmpty(grpCd)".to_string()]);
    let absent = vs.iter().find(|v| !v.text.text.contains("grp_cd")).unwrap();
    assert_eq!(absent.text.text, "SELECT 1");
    assert!(absent.conditions.is_empty());
}

#[test]
fn mm_06c_is_equal_condition_includes_compare_value() {
    let source = r#"<sqlMap>
        <select id="a">SELECT 1<isEqual property="status" compareValue="Y"> AND status = 'Y'</isEqual></select>
    </sqlMap>"#;
    let result = parse_str(source);
    let mapper = result.mapper.expect("mapper root");
    let vs = variants(&mapper.statements[0].sql);
    let present = vs.iter().find(|v| v.text.text.contains("status")).unwrap();
    assert_eq!(present.conditions, vec!["isEqual(status, 'Y')".to_string()]);
}

#[test]
fn mm_06c_is_equal_condition_includes_compare_property() {
    let source = r#"<sqlMap>
        <select id="a">SELECT 1<isEqual property="a" compareProperty="b"> AND a = b</isEqual></select>
    </sqlMap>"#;
    let result = parse_str(source);
    let mapper = result.mapper.expect("mapper root");
    let vs = variants(&mapper.statements[0].sql);
    let present = vs.iter().find(|v| v.text.text.contains("a = b")).unwrap();
    assert_eq!(present.conditions, vec!["isEqual(a, b)".to_string()]);
}

#[test]
fn mm_06c_unknown_is_tag_treated_as_generic_conditional_not_passthrough() {
    let source = r#"<sqlMap>
        <select id="a">SELECT 1<isMadeUpCondition property="x"> AND x = 1</isMadeUpCondition></select>
    </sqlMap>"#;
    let result = parse_str(source);
    let mapper = result.mapper.expect("mapper root");
    let vs = variants(&mapper.statements[0].sql);
    assert_eq!(vs.len(), 2);
    let present = vs.iter().find(|v| v.text.text.contains("x = 1")).unwrap();
    assert_eq!(present.conditions, vec!["isMadeUpCondition(x)".to_string()]);
}

#[test]
fn mm_06c_conditional_prepend_joins_before_body_with_spaces() {
    let source = r#"<sqlMap>
        <select id="a">SELECT 1 WHERE 1=1<isNotEmpty property="a" prepend="AND">a = #a#</isNotEmpty></select>
    </sqlMap>"#;
    let result = parse_str(source);
    let mapper = result.mapper.expect("mapper root");
    let vs = variants(&mapper.statements[0].sql);
    let present = vs.iter().find(|v| v.text.text.contains("a = ?")).unwrap();
    assert_eq!(present.text.text, "SELECT 1 WHERE 1=1AND a = ?");
}

#[test]
fn mm_06c_dynamic_suppresses_first_rendered_childs_prepend() {
    let source = r#"<sqlMap>
        <select id="a">SELECT 1<dynamic prepend="WHERE"><isNotEmpty property="a" prepend="AND">a = #a#</isNotEmpty> <isNotEmpty property="b" prepend="AND">b = #b#</isNotEmpty></dynamic></select>
    </sqlMap>"#;
    let result = parse_str(source);
    let mapper = result.mapper.expect("mapper root");
    let vs = variants(&mapper.statements[0].sql);
    assert_eq!(vs.len(), 4);

    let both = vs
        .iter()
        .find(|v| v.text.text.contains('a') && v.text.text.contains('b'));
    assert_eq!(both.unwrap().text.text, "SELECT 1WHERE a = ? AND b = ?");

    let only_a = vs
        .iter()
        .find(|v| v.text.text.contains("a = ?") && !v.text.text.contains("b = ?"))
        .unwrap();
    assert_eq!(only_a.text.text, "SELECT 1WHERE a = ? ");

    let only_b = vs
        .iter()
        .find(|v| v.text.text.contains("b = ?") && !v.text.text.contains("a = ?"))
        .unwrap();
    assert_eq!(only_b.text.text, "SELECT 1WHERE  b = ?");

    let neither = vs
        .iter()
        .find(|v| !v.text.text.contains("a = ?") && !v.text.text.contains("b = ?"))
        .unwrap();
    assert_eq!(neither.text.text, "SELECT 1");
}

#[test]
fn mm_06c_iterate_wraps_once_ignores_conjunction_records_property() {
    let source = r#"<sqlMap>
        <select id="a">SELECT 1 WHERE id IN <iterate property="ids" open="(" close=")" conjunction=",">#ids[]#</iterate></select>
    </sqlMap>"#;
    let result = parse_str(source);
    let mapper = result.mapper.expect("mapper root");
    let vs = variants(&mapper.statements[0].sql);
    assert_eq!(vs.len(), 1);
    assert_eq!(vs[0].text.text, "SELECT 1 WHERE id IN (?)");
    let paths: Vec<_> = mapper.statements[0]
        .property_paths
        .iter()
        .map(|p| p.value.as_str())
        .collect();
    assert!(paths.contains(&"ids"));
    assert!(paths.contains(&"ids[]"));
}

#[test]
fn mm_09_mybatis_parameter_and_result_type() {
    let source = r#"<mapper namespace="x">
        <select id="a" parameterType="long" resultType="com.example.Widget">SELECT 1</select>
    </mapper>"#;
    let result = parse_str(source);
    let mapper = result.mapper.expect("mapper root");
    let stmt = &mapper.statements[0];
    assert_eq!(stmt.param_class.as_ref().unwrap().value.raw, "long");
    assert_eq!(
        stmt.result_class.as_ref().unwrap().value.raw,
        "com.example.Widget"
    );
}

#[test]
fn mm_09_ibatis_parameter_and_result_class() {
    let source = r#"<sqlMap>
        <select id="a" parameterClass="java.lang.String" resultClass="widget">SELECT 1</select>
    </sqlMap>"#;
    let result = parse_str(source);
    let mapper = result.mapper.expect("mapper root");
    let stmt = &mapper.statements[0];
    assert_eq!(
        stmt.param_class.as_ref().unwrap().value.raw,
        "java.lang.String"
    );
    assert_eq!(stmt.result_class.as_ref().unwrap().value.raw, "widget");
}

#[test]
fn mm_09_result_map_ref_attribute() {
    let source = r#"<mapper namespace="x">
        <select id="a" resultMap="widgetResult">SELECT 1</select>
    </mapper>"#;
    let result = parse_str(source);
    let mapper = result.mapper.expect("mapper root");
    assert_eq!(
        mapper.statements[0].result_map_ref.as_ref().unwrap().value,
        "widgetResult"
    );
}

#[test]
fn mm_09_class_ref_generic_type_with_angle_brackets() {
    let source = r#"<mapper namespace="x">
        <select id="a" resultType="java.util.List&lt;com.example.Widget&gt;">SELECT 1</select>
    </mapper>"#;
    let result = parse_str(source);
    let mapper = result.mapper.expect("mapper root");
    assert_eq!(
        mapper.statements[0]
            .result_class
            .as_ref()
            .unwrap()
            .value
            .raw,
        "java.util.List&lt;com.example.Widget&gt;"
    );
}

#[test]
fn mm_09_class_ref_array_type() {
    let source = r#"<mapper namespace="x">
        <select id="a" resultType="int[]">SELECT 1</select>
    </mapper>"#;
    let result = parse_str(source);
    let mapper = result.mapper.expect("mapper root");
    assert_eq!(
        mapper.statements[0]
            .result_class
            .as_ref()
            .unwrap()
            .value
            .raw,
        "int[]"
    );
}

#[test]
fn mm_09_class_ref_alias_kept_raw_no_resolution() {
    let source = r#"<mapper namespace="x">
        <select id="a" resultType="widget">SELECT 1</select>
    </mapper>"#;
    let result = parse_str(source);
    let mapper = result.mapper.expect("mapper root");
    assert_eq!(
        mapper.statements[0]
            .result_class
            .as_ref()
            .unwrap()
            .value
            .raw,
        "widget"
    );
}

#[test]
fn mm_10_resultmap_id_and_result_mappings() {
    let source = r#"<mapper namespace="x">
        <resultMap id="widgetResult" type="com.example.Widget">
            <id column="widget_id" property="id"/>
            <result column="widget_name" property="name"/>
        </resultMap>
    </mapper>"#;
    let result = parse_str(source);
    let mapper = result.mapper.expect("mapper root");
    assert_eq!(mapper.result_maps.len(), 1);
    let rm = &mapper.result_maps[0];
    assert_eq!(rm.id.value, "widgetResult");
    assert_eq!(
        rm.type_ref.as_ref().unwrap().value.raw,
        "com.example.Widget"
    );
    assert_eq!(rm.mappings.len(), 2);
    assert_eq!(rm.mappings[0].column.as_deref(), Some("widget_id"));
    assert_eq!(rm.mappings[0].property.as_deref(), Some("id"));
    assert_eq!(rm.mappings[1].column.as_deref(), Some("widget_name"));
    assert_eq!(rm.mappings[1].property.as_deref(), Some("name"));
}

#[test]
fn mm_10_resultmap_extends() {
    let source = r#"<mapper namespace="x">
        <resultMap id="base" type="com.example.Base"><id column="id" property="id"/></resultMap>
        <resultMap id="derived" type="com.example.Derived" extends="base">
            <result column="extra" property="extra"/>
        </resultMap>
    </mapper>"#;
    let result = parse_str(source);
    let mapper = result.mapper.expect("mapper root");
    let derived = mapper
        .result_maps
        .iter()
        .find(|r| r.id.value == "derived")
        .unwrap();
    assert_eq!(derived.extends.as_ref().unwrap().value, "base");
    assert_eq!(derived.mappings.len(), 1);
}

#[test]
fn mm_10_resultmap_nested_association_and_collection_flattened() {
    let source = r#"<mapper namespace="x">
        <resultMap id="orderResult" type="com.example.Order">
            <id column="order_id" property="id"/>
            <association property="widget" javaType="com.example.Widget">
                <result column="widget_name" property="name"/>
            </association>
            <collection property="items" ofType="com.example.Item">
                <result column="item_id" property="id"/>
            </collection>
        </resultMap>
    </mapper>"#;
    let result = parse_str(source);
    let mapper = result.mapper.expect("mapper root");
    let rm = &mapper.result_maps[0];
    let columns: Vec<_> = rm
        .mappings
        .iter()
        .map(|m| m.column.as_deref().unwrap())
        .collect();
    assert_eq!(columns, vec!["order_id", "widget_name", "item_id"]);
}

#[test]
fn mm_10_resultmap_discriminator_case_flattened() {
    let source = r#"<mapper namespace="x">
        <resultMap id="widgetResult" type="com.example.Widget">
            <id column="widget_id" property="id"/>
            <discriminator column="widget_type" javaType="string">
                <case value="A"><result column="a_field" property="aField"/></case>
                <case value="B"><result column="b_field" property="bField"/></case>
            </discriminator>
        </resultMap>
    </mapper>"#;
    let result = parse_str(source);
    let mapper = result.mapper.expect("mapper root");
    let rm = &mapper.result_maps[0];
    let columns: Vec<_> = rm
        .mappings
        .iter()
        .map(|m| m.column.as_deref().unwrap())
        .collect();
    assert_eq!(columns, vec!["widget_id", "a_field", "b_field"]);
}

#[test]
fn mm_10_resultmap_duplicate_id_diagnostic() {
    let source = r#"<mapper namespace="x">
        <resultMap id="dup" type="com.example.A"><id column="a" property="a"/></resultMap>
        <resultMap id="dup" type="com.example.B"><id column="b" property="b"/></resultMap>
    </mapper>"#;
    let result = parse_str(source);
    let mapper = result.mapper.expect("mapper root");
    assert_eq!(mapper.result_maps.len(), 2);
    assert_eq!(
        result
            .diagnostics
            .iter()
            .filter(|d| d.code == DiagCode::DuplicateStatementId)
            .count(),
        1
    );
}

#[test]
fn mm_10_resultmap_id_space_separate_from_statement_and_fragment_ids() {
    let source = r#"<mapper namespace="x">
        <resultMap id="shared" type="com.example.A"><id column="a" property="a"/></resultMap>
        <sql id="shared">a</sql>
        <select id="shared">SELECT 1</select>
    </mapper>"#;
    let result = parse_str(source);
    let mapper = result.mapper.expect("mapper root");
    assert_eq!(mapper.result_maps.len(), 1);
    assert_eq!(mapper.fragments.len(), 1);
    assert_eq!(mapper.statements.len(), 1);
    assert!(!result
        .diagnostics
        .iter()
        .any(|d| d.code == DiagCode::DuplicateStatementId));
}

#[test]
fn mm_10_resultmap_missing_id_dropped_with_diagnostic() {
    let source = r#"<mapper namespace="x">
        <resultMap type="com.example.A"><id column="a" property="a"/></resultMap>
    </mapper>"#;
    let result = parse_str(source);
    let mapper = result.mapper.expect("mapper root");
    assert!(mapper.result_maps.is_empty());
    assert!(result
        .diagnostics
        .iter()
        .any(|d| d.code == DiagCode::MissingStatementId));
}

#[test]
fn mm_10_resultmap_self_closing_has_empty_mappings() {
    let source = r#"<mapper namespace="x">
        <resultMap id="empty" type="com.example.A"/>
    </mapper>"#;
    let result = parse_str(source);
    let mapper = result.mapper.expect("mapper root");
    assert_eq!(mapper.result_maps.len(), 1);
    assert!(mapper.result_maps[0].mappings.is_empty());
}

#[test]
fn self_closed_statement_and_empty_bodied_statement_have_identical_sql_shape() {
    let self_closed = r#"<mapper namespace="x"><select id="a"/></mapper>"#;
    let empty_bodied = r#"<mapper namespace="x"><select id="a"></select></mapper>"#;
    let a = parse_str(self_closed).mapper.expect("mapper root");
    let b = parse_str(empty_bodied).mapper.expect("mapper root");
    assert_eq!(a.statements[0].sql, b.statements[0].sql);
    assert_eq!(
        a.statements[0].sql,
        SqlText::Variants(vec![SqlVariant {
            text: SqlString {
                text: String::new(),
                span_map: Vec::new(),
            },
            conditions: Vec::new(),
        }])
    );
}

#[test]
fn self_closed_fragment_and_empty_bodied_fragment_have_identical_sql_shape() {
    let self_closed = r#"<mapper namespace="x"><sql id="a"/></mapper>"#;
    let empty_bodied = r#"<mapper namespace="x"><sql id="a"></sql></mapper>"#;
    let a = parse_str(self_closed).mapper.expect("mapper root");
    let b = parse_str(empty_bodied).mapper.expect("mapper root");
    assert_eq!(a.fragments[0].sql, b.fragments[0].sql);
}

#[test]
fn mm_13_orphan_closing_tag_ignored_and_parsing_continues() {
    let source = r#"<mapper namespace="x"><select id="a">SELECT 1</select></wrongclose><select id="b">SELECT 2</select></mapper>"#;
    let result = parse_str(source);
    let mapper = result.mapper.expect("mapper root");
    let ids: Vec<_> = mapper
        .statements
        .iter()
        .map(|s| s.id.as_ref().unwrap().value.clone())
        .collect();
    assert_eq!(ids, vec!["a", "b"]);
    assert!(result
        .diagnostics
        .iter()
        .any(|d| d.code == DiagCode::UnclosedTag));
}

#[test]
fn mm_13_bare_valueless_attribute_skipped_not_fatal_to_scan() {
    let source = r#"<mapper foo namespace="x"></mapper>"#;
    let result = parse_str(source);
    let mapper = result.mapper.expect("mapper root");
    assert_eq!(mapper.namespace.as_ref().unwrap().value, "x");
}

#[test]
fn scan_attributes_stops_at_tag_close_even_with_trailing_bare_attribute() {
    let source = r#"<if foo>x AND test = "1"</if>"#;
    let tag_end = source.len();
    let attrs = scan_attributes(source.as_bytes(), 0, tag_end);
    assert!(
        attrs.is_empty(),
        "no real attributes in <if foo>, but scan found {}",
        attrs.len()
    );
}

#[test]
fn bare_attribute_before_tag_close_does_not_fabricate_condition_from_body() {
    let source = r#"<mapper namespace="x">
        <select id="a">SELECT 1<if foo>x AND test = "1"</if></select>
    </mapper>"#;
    let result = parse_str(source);
    let mapper = result.mapper.expect("mapper root");
    let vs = variants(&mapper.statements[0].sql);
    assert_eq!(vs.len(), 2);
    let present = vs
        .iter()
        .find(|v| v.text.text.contains("AND test"))
        .expect("a present-branch variant containing the body text exists");
    assert_eq!(present.conditions, vec!["".to_string()]);
}

#[test]
fn mm_13_oversize_input_yields_oversize_diagnostic() {
    let huge = "x".repeat(MAX_INPUT_BYTES + 1);
    let source = format!("<mapper namespace=\"x\"><select id=\"a\">{huge}</select></mapper>");
    let result = parse_str(&source);
    assert!(result.mapper.is_none());
    assert_eq!(result.diagnostics.len(), 1);
    assert_eq!(result.diagnostics[0].code, DiagCode::OversizeInput);
}

#[test]
fn mm_13_under_cap_input_parses_normally() {
    let source = r#"<mapper namespace="x"><select id="a">SELECT 1</select></mapper>"#;
    assert!(source.len() < MAX_INPUT_BYTES);
    let result = parse_str(source);
    assert!(result.mapper.is_some());
    assert!(!result
        .diagnostics
        .iter()
        .any(|d| d.code == DiagCode::OversizeInput));
}

#[test]
fn mm_13_malformed_bang_markup_does_not_panic_and_diagnoses() {
    let source =
        r#"<mapper namespace="x"><select id="a">before<!weird>after</select></mapper>"#;
    let result = parse_str(source);
    assert!(!result.diagnostics.is_empty());
    let mapper = result.mapper.expect("mapper root");
    assert_eq!(mapper.statements.len(), 1);
}

#[test]
fn mm_11_ibatis_resultmap_class_attribute_read_as_type_ref() {
    let source = r#"<sqlMap>
        <resultMap id="widgetResult" class="widget">
            <result column="widget_id" property="id"/>
        </resultMap>
    </sqlMap>"#;
    let result = parse_str(source);
    let mapper = result.mapper.expect("mapper root");
    assert_eq!(mapper.result_maps.len(), 1);
    assert_eq!(
        mapper.result_maps[0].type_ref.as_ref().unwrap().value.raw,
        "widget"
    );
}

#[test]
fn mm_11_mybatis_resultmap_type_attribute_still_works() {
    let source = r#"<mapper namespace="x">
        <resultMap id="widgetResult" type="com.example.Widget">
            <result column="widget_id" property="id"/>
        </resultMap>
    </mapper>"#;
    let result = parse_str(source);
    let mapper = result.mapper.expect("mapper root");
    assert_eq!(
        mapper.result_maps[0].type_ref.as_ref().unwrap().value.raw,
        "com.example.Widget"
    );
}

#[test]
fn mm_11_parameter_map_has_no_model_field_but_does_not_break_parsing() {
    let source = r#"<sqlMap>
        <parameterMap id="widgetParam" class="widget">
            <parameter property="id"/>
        </parameterMap>
        <select id="a" parameterMap="widgetParam">SELECT 1</select>
    </sqlMap>"#;
    let result = parse_str(source);
    let mapper = result.mapper.expect("mapper root");
    assert_eq!(mapper.statements.len(), 1);
    assert_eq!(mapper.statements[0].id.as_ref().unwrap().value, "a");
}

#[test]
fn a14_known_ignorable_cache_element_is_not_diagnosed() {
    let source = r#"<mapper namespace="x">
        <cache eviction="LRU"/>
        <select id="a">SELECT 1</select>
    </mapper>"#;
    let result = parse_str(source);
    let mapper = result.mapper.expect("mapper root");
    assert_eq!(mapper.statements.len(), 1);
    assert!(!result
        .diagnostics
        .iter()
        .any(|d| d.code == DiagCode::UnknownElement));
}

#[test]
fn a14_statement_level_typo_is_diagnosed_and_dropped() {
    let source = r#"<mapper namespace="x">
        <slect id="typo">SELECT 1</slect>
        <select id="real">SELECT 2</select>
    </mapper>"#;
    let result = parse_str(source);
    let mapper = result.mapper.expect("mapper root");
    assert_eq!(mapper.statements.len(), 1);
    assert_eq!(mapper.statements[0].id.as_ref().unwrap().value, "real");
    let unknown: Vec<_> = result
        .diagnostics
        .iter()
        .filter(|d| d.code == DiagCode::UnknownElement)
        .collect();
    assert_eq!(unknown.len(), 1);
    assert!(unknown[0].message.contains("slect"));
}

#[test]
fn a14_self_closed_statement_level_typo_is_diagnosed() {
    let source = r#"<mapper namespace="x">
        <slect id="typo"/>
        <select id="real">SELECT 1</select>
    </mapper>"#;
    let result = parse_str(source);
    let mapper = result.mapper.expect("mapper root");
    assert_eq!(mapper.statements.len(), 1);
    let unknown: Vec<_> = result
        .diagnostics
        .iter()
        .filter(|d| d.code == DiagCode::UnknownElement)
        .collect();
    assert_eq!(unknown.len(), 1);
    assert!(unknown[0].message.contains("slect"));
}

#[test]
fn a14_dynamic_position_typo_is_diagnosed_but_still_folded_transparently() {
    let source = r#"<mapper namespace="x">
        <select id="a">SELECT 1 <iff test="x != null">AND x = 1</iff></select>
    </mapper>"#;
    let result = parse_str(source);
    let mapper = result.mapper.expect("mapper root");
    let vs = variants(&mapper.statements[0].sql);
    assert_eq!(vs.len(), 1);
    assert_eq!(vs[0].text.text, "SELECT 1 AND x = 1");
    let unknown: Vec<_> = result
        .diagnostics
        .iter()
        .filter(|d| d.code == DiagCode::UnknownElement)
        .collect();
    assert_eq!(unknown.len(), 1);
    assert!(unknown[0].message.contains("iff"));
}

#[test]
fn b38_unknown_element_s_descendants_do_not_each_get_their_own_diagnostic() {
    let source = r#"<mapper namespace="x">
        <select id="a">SELECT 1
            <resultMap id="rm" type="Widget">
                <id column="id" property="id"/>
                <result column="name" property="name"/>
            </resultMap>
        </select>
    </mapper>"#;
    let result = parse_str(source);
    let unknown: Vec<_> = result
        .diagnostics
        .iter()
        .filter(|d| d.code == DiagCode::UnknownElement)
        .collect();
    assert_eq!(
        unknown.len(),
        1,
        "only the outermost unknown element should be flagged, got {unknown:?}"
    );
    assert!(unknown[0].message.contains("resultMap"));
}

#[test]
fn b38_sibling_unknown_elements_are_each_flagged_independently() {
    let source = r#"<mapper namespace="x">
        <select id="a">SELECT 1
            <bogusOne>a</bogusOne>
            <bogusTwo>b</bogusTwo>
        </select>
    </mapper>"#;
    let result = parse_str(source);
    let unknown: Vec<_> = result
        .diagnostics
        .iter()
        .filter(|d| d.code == DiagCode::UnknownElement)
        .collect();
    assert_eq!(unknown.len(), 2, "each sibling gets its own: {unknown:?}");
}

#[test]
fn span_covers_statement_opening_tag_through_subtree_end() {
    let source = r#"<mapper namespace="x"><select id="a">SELECT 1</select></mapper>"#;
    let result = parse_str(source);
    let mapper = result.mapper.expect("mapper root");
    let expected_start = source.find("<select").unwrap() as u32;
    let expected_end = source.find("</select>").unwrap() as u32 + "</select>".len() as u32;
    assert_eq!(
        mapper.statements[0].span,
        ByteSpan {
            start: expected_start,
            end: expected_end
        }
    );
}

#[test]
fn span_covers_self_closed_statement_equals_own_tag() {
    let source = r#"<mapper namespace="x"><select id="a"/></mapper>"#;
    let result = parse_str(source);
    let mapper = result.mapper.expect("mapper root");
    let expected_start = source.find("<select").unwrap() as u32;
    let expected_end = source.find("/>").unwrap() as u32 + "/>".len() as u32;
    assert_eq!(
        mapper.statements[0].span,
        ByteSpan {
            start: expected_start,
            end: expected_end
        }
    );
}

#[test]
fn span_covers_sql_fragment_opening_tag_through_subtree_end() {
    let source = r#"<mapper namespace="x"><sql id="cols">a, b</sql></mapper>"#;
    let result = parse_str(source);
    let mapper = result.mapper.expect("mapper root");
    let expected_start = source.find("<sql").unwrap() as u32;
    let expected_end = source.find("</sql>").unwrap() as u32 + "</sql>".len() as u32;
    assert_eq!(
        mapper.fragments[0].span,
        ByteSpan {
            start: expected_start,
            end: expected_end
        }
    );
}

#[test]
fn span_covers_result_map_opening_tag_through_subtree_end() {
    let source = r#"<mapper namespace="x"><resultMap id="rm" type="Widget"><result column="a" property="a"/></resultMap></mapper>"#;
    let result = parse_str(source);
    let mapper = result.mapper.expect("mapper root");
    let expected_start = source.find("<resultMap").unwrap() as u32;
    let expected_end =
        source.find("</resultMap>").unwrap() as u32 + "</resultMap>".len() as u32;
    assert_eq!(
        mapper.result_maps[0].span,
        ByteSpan {
            start: expected_start,
            end: expected_end
        }
    );
}

#[test]
fn deeply_nested_if_tags_in_a_statement_returns_normally_with_diagnostic() {
    let mut body = String::from("x = 1");
    for _ in 0..3000 {
        body = format!(r#"<if test="a">{body}</if>"#);
    }
    let source =
        format!(r#"<mapper namespace="x"><select id="s">SELECT 1{body}</select></mapper>"#);
    let result = parse_str(&source);
    assert!(result
        .diagnostics
        .iter()
        .any(|d| d.code == DiagCode::NestingLimitExceeded));
    let mapper = result.mapper.expect("mapper root");
    assert_eq!(mapper.statements.len(), 1);
    assert_eq!(mapper.statements[0].id.as_ref().unwrap().value, "s");
}

#[test]
fn deeply_nested_association_in_a_result_map_returns_normally_with_diagnostic() {
    let mut body = String::from(r#"<result column="c" property="p"/>"#);
    for _ in 0..3000 {
        body = format!(r#"<association property="a">{body}</association>"#);
    }
    let source = format!(
        r#"<mapper namespace="x"><resultMap id="rm" type="T">{body}</resultMap></mapper>"#
    );
    let result = parse_str(&source);
    assert!(result
        .diagnostics
        .iter()
        .any(|d| d.code == DiagCode::NestingLimitExceeded));
    let mapper = result.mapper.expect("mapper root");
    assert_eq!(mapper.result_maps.len(), 1);
    assert_eq!(mapper.result_maps[0].id.value, "rm");
}
