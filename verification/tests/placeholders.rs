//! Placeholders in one run of text.
use batis_xml::placeholder::{dyn_marker, normalize_merged, normalize_segment, TextRun};
use batis_xml::{ByteSpan, DiagCode, Dialect};

fn verbatim_span(decoded: &str) -> ByteSpan {
    ByteSpan {
        start: 100,
        end: 100 + decoded.len() as u32,
    }
}

#[test]
fn mm_07_mybatis_simple_placeholder() {
    let decoded = "WHERE id = #{id}";
    let result = normalize_segment(decoded, verbatim_span(decoded), Dialect::Mybatis);
    assert_eq!(result.text, "WHERE id = ?");
    assert!(result.diagnostics.is_empty());
    assert_eq!(result.property_paths.len(), 1);
    assert_eq!(result.property_paths[0].value, "id");
    let ByteSpan { start, end } = result.property_paths[0].span;
    assert_eq!(&decoded[(start - 100) as usize..(end - 100) as usize], "id");
    assert_eq!(result.span_map.len(), 1);
    assert!(result.span_map.windows(2).all(|w| w[0].0 < w[1].0));
}

#[test]
fn mm_07_mybatis_jdbc_type_option_keeps_only_path() {
    let decoded = "#{id, jdbcType=VARCHAR}";
    let result = normalize_segment(decoded, verbatim_span(decoded), Dialect::Mybatis);
    assert_eq!(result.text, "?");
    assert!(result.diagnostics.is_empty());
    assert_eq!(result.property_paths.len(), 1);
    assert_eq!(result.property_paths[0].value, "id");
}

#[test]
fn mm_07_mybatis_nested_braces_consumed_by_depth_counting() {
    let decoded = "#{a{b}c}";
    let result = normalize_segment(decoded, verbatim_span(decoded), Dialect::Mybatis);
    assert_eq!(result.text, "?");
    assert!(result.diagnostics.is_empty());
    assert_eq!(result.property_paths[0].value, "a{b}c");
}

#[test]
fn mm_07_mybatis_dynamic_marker() {
    let decoded = "${tableName}";
    let result = normalize_segment(decoded, verbatim_span(decoded), Dialect::Mybatis);
    assert_eq!(result.text, dyn_marker());
    assert!(result.diagnostics.is_empty());
    assert_eq!(result.property_paths[0].value, "tableName");
}

#[test]
fn mm_07_ibatis_legacy_hash_placeholder() {
    let decoded = "WHERE id = #id#";
    let result = normalize_segment(decoded, verbatim_span(decoded), Dialect::Ibatis);
    assert_eq!(result.text, "WHERE id = ?");
    assert!(result.diagnostics.is_empty());
    assert_eq!(result.property_paths[0].value, "id");
}

#[test]
fn mm_07_ibatis_colon_option_syntax_keeps_path_before_first_colon() {
    let decoded = "#prop:VARCHAR:defaultVal#";
    let result = normalize_segment(decoded, verbatim_span(decoded), Dialect::Ibatis);
    assert_eq!(result.text, "?");
    assert!(result.diagnostics.is_empty());
    assert_eq!(result.property_paths[0].value, "prop");
}

#[test]
fn mm_07_ibatis_iterate_form_bracket_path_kept_verbatim() {
    let decoded = "#[].sprHtlId#";
    let result = normalize_segment(decoded, verbatim_span(decoded), Dialect::Ibatis);
    assert_eq!(result.text, "?");
    assert!(result.diagnostics.is_empty());
    assert_eq!(result.property_paths[0].value, "[].sprHtlId");
}

#[test]
fn mm_07_ibatis_legacy_dollar_placeholder() {
    let decoded = "ORDER BY $sortCol$";
    let result = normalize_segment(decoded, verbatim_span(decoded), Dialect::Ibatis);
    assert_eq!(result.text, format!("ORDER BY {}", dyn_marker()));
    assert!(result.diagnostics.is_empty());
    assert_eq!(result.property_paths[0].value, "sortCol");
}

#[test]
fn b18_ibatis_doubled_hash_is_literal_hash() {
    let decoded = "SELECT ##tmp";
    let result = normalize_segment(decoded, verbatim_span(decoded), Dialect::Ibatis);
    assert_eq!(result.text, "SELECT #tmp");
    assert!(result.diagnostics.is_empty());
    assert!(result.property_paths.is_empty());
}

#[test]
fn b18_ibatis_doubled_dollar_is_literal_dollar() {
    let decoded = "price = $$100";
    let result = normalize_segment(decoded, verbatim_span(decoded), Dialect::Ibatis);
    assert_eq!(result.text, "price = $100");
    assert!(result.diagnostics.is_empty());
    assert!(result.property_paths.is_empty());
}

#[test]
fn b18_ibatis_doubled_hash_still_allows_a_real_placeholder_afterward() {
    let decoded = "SELECT ##tmp WHERE id = #id#";
    let result = normalize_segment(decoded, verbatim_span(decoded), Dialect::Ibatis);
    assert_eq!(result.text, "SELECT #tmp WHERE id = ?");
    assert_eq!(result.property_paths.len(), 1);
    assert_eq!(result.property_paths[0].value, "id");
}

#[test]
fn b18_doubled_hash_escape_does_not_apply_to_mybatis_dialect() {
    let decoded = "SELECT ##tmp";
    let result = normalize_segment(decoded, verbatim_span(decoded), Dialect::Mybatis);
    assert_eq!(result.text, "SELECT ##tmp");
    assert!(result.diagnostics.is_empty());
}

#[test]
fn mm_07_unterminated_mybatis_placeholder_keeps_raw_text_and_diagnoses() {
    let decoded = "WHERE id = #{id";
    let result = normalize_segment(decoded, verbatim_span(decoded), Dialect::Mybatis);
    assert_eq!(result.text, decoded);
    assert!(result.property_paths.is_empty());
    assert_eq!(result.diagnostics.len(), 1);
    assert_eq!(
        result.diagnostics[0].code,
        DiagCode::UnterminatedPlaceholder
    );
}

#[test]
fn mm_07_lone_hash_without_closing_delimiter_is_left_untouched_no_diagnostic() {
    let decoded = "price is #100 approx";
    let result = normalize_segment(decoded, verbatim_span(decoded), Dialect::Ibatis);
    assert_eq!(result.text, decoded);
    assert!(result.property_paths.is_empty());
    assert!(result.diagnostics.is_empty());
}

#[test]
fn mm_07_lone_dollar_without_closing_delimiter_is_left_untouched_no_diagnostic() {
    let decoded = "cost is $5 today";
    let result = normalize_segment(decoded, verbatim_span(decoded), Dialect::Ibatis);
    assert_eq!(result.text, decoded);
    assert!(result.property_paths.is_empty());
    assert!(result.diagnostics.is_empty());
}

#[test]
fn mm_07_two_bare_dollars_with_whitespace_between_are_not_paired_as_placeholder() {
    let decoded = "price > $100 AND fee < $200";
    let result = normalize_segment(decoded, verbatim_span(decoded), Dialect::Ibatis);
    assert_eq!(result.text, decoded);
    assert!(result.property_paths.is_empty());
    assert!(result.diagnostics.is_empty());
}

#[test]
fn mm_07_two_bare_hashes_with_whitespace_between_are_not_paired_as_placeholder() {
    let decoded = "price > #100 AND fee < #200";
    let result = normalize_segment(decoded, verbatim_span(decoded), Dialect::Ibatis);
    assert_eq!(result.text, decoded);
    assert!(result.property_paths.is_empty());
    assert!(result.diagnostics.is_empty());
}

#[test]
fn mm_07_empty_expr_normalizes_silently() {
    let decoded = "#{}";
    let result = normalize_segment(decoded, verbatim_span(decoded), Dialect::Mybatis);
    assert_eq!(result.text, "?");
    assert!(result.property_paths.is_empty());
    assert!(result.diagnostics.is_empty());
}

#[test]
fn mm_07_multiple_placeholders_span_map_strictly_increasing_on_offset() {
    let decoded = "WHERE a = #{a} AND b = #{b} AND c = ${c}";
    let result = normalize_segment(decoded, verbatim_span(decoded), Dialect::Mybatis);
    assert_eq!(
        result.text,
        format!("WHERE a = ? AND b = ? AND c = {}", dyn_marker())
    );
    assert!(result.diagnostics.is_empty());
    assert_eq!(
        result
            .property_paths
            .iter()
            .map(|p| p.value.as_str())
            .collect::<Vec<_>>(),
        vec!["a", "b", "c"]
    );
    assert_eq!(result.span_map.len(), 3);
    assert!(result.span_map.windows(2).all(|w| w[0].0 < w[1].0));
}

#[test]
fn mm_07_non_verbatim_segment_falls_back_to_coarse_spans() {
    let decoded = "a & #{id}";
    let raw_span = ByteSpan {
        start: 200,
        end: 200 + decoded.len() as u32 + 4,
    };
    let result = normalize_segment(decoded, raw_span, Dialect::Mybatis);
    assert_eq!(result.text, "a & ?");
    assert!(result.diagnostics.is_empty());
    assert_eq!(
        result.property_paths[0].span,
        ByteSpan {
            start: 200,
            end: 200
        }
    );
    assert!(result.span_map.iter().all(|(_, raw)| *raw == 200));
}

#[test]
fn mm_07_placeholder_inside_cdata_combined_with_mm_08() {
    let decoded = "SELECT * FROM t WHERE id = #{id}";
    let result = normalize_segment(decoded, verbatim_span(decoded), Dialect::Mybatis);
    assert_eq!(result.text, "SELECT * FROM t WHERE id = ?");
    assert!(result.diagnostics.is_empty());
    assert_eq!(result.property_paths[0].value, "id");
}

fn run<'a>(decoded: &'a str, start: u32) -> TextRun<'a> {
    TextRun {
        decoded,
        raw_span: ByteSpan {
            start,
            end: start + decoded.len() as u32,
        },
    }
}

#[test]
fn merged_placeholder_split_across_two_runs_normalizes_correctly() {
    let runs = [run("WHERE id = #{i", 0), run("d}", 14)];
    let result = normalize_merged(&runs, Dialect::Mybatis);
    assert_eq!(result.text, "WHERE id = ?");
    assert!(result.diagnostics.is_empty());
    assert_eq!(result.property_paths.len(), 1);
    assert_eq!(result.property_paths[0].value, "id");
}

#[test]
fn merged_placeholder_split_across_split_cdata_normalizes_correctly() {
    let runs = [run("WHERE id = #{i", 0), run("d", 14), run("}", 20)];
    let result = normalize_merged(&runs, Dialect::Mybatis);
    assert_eq!(result.text, "WHERE id = ?");
    assert!(result.diagnostics.is_empty());
    assert_eq!(result.property_paths[0].value, "id");
}

#[test]
fn merged_placeholder_split_across_three_runs_path_and_all() {
    let runs = [run("WHERE id = #{i", 0), run("d", 20), run("}", 30)];
    let result = normalize_merged(&runs, Dialect::Mybatis);
    assert_eq!(result.text, "WHERE id = ?");
    assert!(result.diagnostics.is_empty());
    assert_eq!(result.property_paths[0].value, "id");
    let span = result.property_paths[0].span;
    assert_eq!(span.start, span.end);
}

#[test]
fn merged_placeholder_entirely_within_one_run_stays_exact() {
    let runs = [run("WHERE id = #{id}", 0), run(" AND x = 1", 16)];
    let result = normalize_merged(&runs, Dialect::Mybatis);
    assert_eq!(result.text, "WHERE id = ? AND x = 1");
    assert_eq!(result.property_paths[0].value, "id");
    let span = result.property_paths[0].span;
    assert_eq!(
        &"WHERE id = #{id}"[(span.start as usize)..(span.end as usize)],
        "id"
    );
}

#[test]
fn merged_genuinely_unterminated_placeholder_spans_the_whole_merge() {
    let runs = [run("WHERE id = #{i", 0), run("d", 14)];
    let result = normalize_merged(&runs, Dialect::Mybatis);
    assert_eq!(result.text, "WHERE id = #{id");
    assert_eq!(result.diagnostics.len(), 1);
    assert_eq!(
        result.diagnostics[0].code,
        DiagCode::UnterminatedPlaceholder
    );
    assert_eq!(
        result.diagnostics[0].span,
        Some(ByteSpan { start: 0, end: 15 })
    );
}
