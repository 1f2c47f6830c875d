//! Document order: the statements, fragments and result maps of a mapper come
//! in the order in which they stand in the source.
use crate::attrs;
use crate::body;
use crate::body::{Effect, SegmentView};
use crate::mapper;
use crate::mapper::BuildView;
use crate::model::{ByteSpan, Dialect, MapperView, ResultMapView, SqlFragmentView, StatementView};
use crate::statement;
use crate::statement::StatementKey;
use crate::xml;
use crate::xml::{EventView, TokenView};
use vstd::prelude::*;
use vstd::string::*;

verus! {

pub open spec fn statement_spans(statements: Seq<StatementView>) -> Seq<ByteSpan> {
    Seq::new(statements.len(), |k: int| statements[k].span)
}

pub open spec fn fragment_spans(fragments: Seq<SqlFragmentView>) -> Seq<ByteSpan> {
    Seq::new(fragments.len(), |k: int| fragments[k].span)
}

pub open spec fn result_map_spans(result_maps: Seq<ResultMapView>) -> Seq<ByteSpan> {
    Seq::new(result_maps.len(), |k: int| result_maps[k].span)
}

/// Spans that start one after the other, and before `limit`.
pub open spec fn ascending(spans: Seq<ByteSpan>, limit: int) -> bool {
    &&& forall|i: int, j: int|
        0 <= i < j < spans.len() ==> (#[trigger] spans[i]).start < (#[trigger] spans[j]).start
    &&& forall|i: int| 0 <= i < spans.len() ==> (#[trigger] spans[i]).start < limit
}

/// A mapper in document order, with nothing from `limit` on.
pub open spec fn in_order(build: BuildView, limit: int) -> bool {
    &&& ascending(statement_spans(build.statements), limit)
    &&& ascending(fragment_spans(build.fragments), limit)
    &&& ascending(result_map_spans(build.result_maps), limit)
}

proof fn lemma_later(spans: Seq<ByteSpan>, limit: int, later: int)
    requires
        ascending(spans, limit),
        limit <= later,
    ensures
        ascending(spans, later),
{
}

proof fn lemma_one_more(spans: Seq<ByteSpan>, span: ByteSpan, limit: int)
    requires
        ascending(spans, span.start as int),
        span.start < limit,
    ensures
        ascending(spans.push(span), limit),
{
    let all = spans.push(span);
    assert forall|i: int, j: int| 0 <= i < j < all.len() implies (#[trigger] all[i]).start < (
    #[trigger] all[j]).start by {
        assert(all[i] == spans[i]);
        if j < spans.len() {
            assert(all[j] == spans[j]);
        }
    }
    assert forall|i: int| 0 <= i < all.len() implies (#[trigger] all[i]).start < limit by {
        if i < spans.len() {
            assert(all[i] == spans[i]);
        }
    }
}

proof fn lemma_more(a: Seq<ByteSpan>, b: Seq<ByteSpan>, from: int, limit: int)
    requires
        ascending(a, from),
        ascending(b, limit),
        from <= limit,
        forall|k: int| 0 <= k < b.len() ==> from <= (#[trigger] b[k]).start,
    ensures
        ascending(a + b, limit),
{
    let all = a + b;
    assert forall|i: int, j: int| 0 <= i < j < all.len() implies (#[trigger] all[i]).start < (
    #[trigger] all[j]).start by {
        if i < a.len() {
            assert(all[i] == a[i]);
        } else {
            assert(all[i] == b[i - a.len()]);
        }
        if j < a.len() {
            assert(all[j] == a[j]);
        } else {
            assert(all[j] == b[j - a.len()]);
        }
    }
    assert forall|i: int| 0 <= i < all.len() implies (#[trigger] all[i]).start < limit by {
        if i < a.len() {
            assert(all[i] == a[i]);
        } else {
            assert(all[i] == b[i - a.len()]);
        }
    }
}

/// The tags among the segments are not empty.
pub open spec fn tags_stand(segments: Seq<SegmentView>) -> bool {
    forall|k: int|
        0 <= k < segments.len() && (#[trigger] segments[k]) is Tag ==> body::segment_span(
            segments[k],
        ).start < body::segment_span(segments[k]).end
}

proof fn lemma_tags_stand(
    source: Seq<u8>,
    tokens: Seq<TokenView>,
    pos: int,
    tag_start: int,
    last_error: Option<u64>,
)
    requires
        attrs::fits(source),
        xml::well_placed(source, tokens),
        0 <= pos <= tokens.len(),
    ensures
        tags_stand(body::capture_from(source, tokens, pos, tag_start, last_error).segments),
    decreases tokens.len() - pos,
{
    if pos < tokens.len() {
        body::lemma_effect(source, tokens, pos, last_error);
        assert(xml::placed(source, xml::token_start(tokens, pos), tokens[pos]));
        match body::token_effect(source, tokens, pos, last_error) {
            Effect::Stop { .. } => {},
            Effect::Go { segments, last_error, next, .. } => {
                lemma_tags_stand(source, tokens, next, tag_start, last_error);
                body::lemma_token_starts(source, tokens, pos + 1, next);
                assert(xml::placed(source, xml::token_start(tokens, next - 1), tokens[next - 1]));
            },
        }
    }
}

/// The statements split off a body stand in the order of its segments.
proof fn lemma_split_order(
    source: Seq<u8>,
    dialect: Dialect,
    parent: StatementView,
    segments: Seq<SegmentView>,
    keys: Seq<StatementKey>,
    n: int,
    from: int,
    to: int,
)
    requires
        body::ordered(segments),
        body::lie_between(segments, from, to),
        tags_stand(segments),
        0 <= n <= segments.len(),
        from <= to,
    ensures
        ({
            let spans = statement_spans(
                statement::split_keys(source, dialect, parent, segments, keys, n).statements,
            );
            &&& ascending(spans, to)
            &&& forall|k: int| 0 <= k < spans.len() ==> from <= (#[trigger] spans[k]).start
            &&& forall|k: int, j: int|
                0 <= k < spans.len() && n <= j < segments.len() ==> (#[trigger] spans[k]).start
                    < body::segment_span(#[trigger] segments[j]).start
        }),
    decreases n,
{
    reveal(body::lie_between);
    if n > 0 {
        lemma_split_order(source, dialect, parent, segments, keys, n - 1, from, to);
        let before = statement::split_keys(source, dialect, parent, segments, keys, n - 1);
        let segment = segments[n - 1];
        if statement::is_select_key(segment) {
            reveal(statement::select_key);
            let span = body::segment_span(segment);
            let one = statement::select_key(source, dialect, parent, span);
            let spans = statement_spans(before.statements);
            assert(one.span == span);
            assert(statement_spans(before.statements.push(one)) =~= spans.push(span));
            assert forall|k: int| 0 <= k < spans.len() implies (#[trigger] spans[k]).start
                < span.start by {
                assert(spans[k].start < body::segment_span(segments[n - 1]).start);
            }
            lemma_one_more(spans, span, to);
        }
    }
}

/// One child of the root keeps the order.
#[verifier::rlimit(50)]
proof fn lemma_child_order(
    source: Seq<u8>,
    dialect: Dialect,
    tokens: Seq<TokenView>,
    pos: int,
    last_error: Option<u64>,
    build: BuildView,
)
    requires
        attrs::fits(source),
        xml::well_placed(source, tokens),
        0 <= pos < tokens.len(),
        in_order(build, xml::token_start(tokens, pos)),
    ensures
        ({
            let child = mapper::after_child(source, dialect, tokens, pos, last_error, build);
            in_order(child.build, xml::token_start(tokens, child.next))
        }),
{
    let child = mapper::after_child(source, dialect, tokens, pos, last_error, build);
    let start = xml::token_start(tokens, pos);
    let span = mapper::token_span(tokens, pos);
    assert(xml::placed(source, start, tokens[pos]));
    if pos > 0 {
        assert(xml::placed(source, xml::token_start(tokens, pos - 1), tokens[pos - 1]));
    }
    mapper::lemma_child(source, dialect, tokens, pos, last_error, build);
    body::lemma_token_starts(source, tokens, pos, child.next);
    body::lemma_token_starts(source, tokens, pos + 1, child.next);
    let limit = xml::token_start(tokens, child.next);
    lemma_later(statement_spans(build.statements), start, limit);
    lemma_later(fragment_spans(build.fragments), start, limit);
    lemma_later(result_map_spans(build.result_maps), start, limit);
    match tokens[pos].event {
        EventView::Start(name) => {
            assert(start < tokens[pos].end);
            if let Some(kind) = statement::kind_of(name) {
                lemma_statement_order(source, dialect, tokens, pos, kind, build);
            } else if name == "sql"@ {
                if let Some(head) = statement::fragment_header(source, span) {
                    let whole = child.build.fragments.last();
                    assert(child.build.fragments == build.fragments.push(whole));
                    assert(fragment_spans(child.build.fragments) =~= fragment_spans(
                        build.fragments,
                    ).push(whole.span));
                    lemma_one_more(fragment_spans(build.fragments), whole.span, limit);
                }
            } else if name == "resultMap"@ {
                if let Some(head) = statement::result_map_header(source, span) {
                    let whole = child.build.result_maps.last();
                    assert(child.build.result_maps == build.result_maps.push(whole));
                    assert(result_map_spans(child.build.result_maps) =~= result_map_spans(
                        build.result_maps,
                    ).push(whole.span));
                    lemma_one_more(result_map_spans(build.result_maps), whole.span, limit);
                }
            }
        },
        EventView::Empty(name) => {
            if let Some(kind) = statement::kind_of(name) {
                let whole = statement::header(source, kind, span);
                assert(statement_spans(child.build.statements) =~= statement_spans(
                    build.statements,
                ).push(span));
                lemma_one_more(statement_spans(build.statements), span, limit);
            } else if name == "sql"@ {
                if let Some(head) = statement::fragment_header(source, span) {
                    assert(fragment_spans(child.build.fragments) =~= fragment_spans(
                        build.fragments,
                    ).push(span));
                    lemma_one_more(fragment_spans(build.fragments), span, limit);
                }
            } else if name == "resultMap"@ {
                if let Some(head) = statement::result_map_header(source, span) {
                    assert(result_map_spans(child.build.result_maps) =~= result_map_spans(
                        build.result_maps,
                    ).push(span));
                    lemma_one_more(result_map_spans(build.result_maps), span, limit);
                }
            }
        },
        _ => {},
    }
}

proof fn lemma_statement_order(
    source: Seq<u8>,
    dialect: Dialect,
    tokens: Seq<TokenView>,
    pos: int,
    kind: crate::model::StatementKind,
    build: BuildView,
)
    requires
        attrs::fits(source),
        xml::well_placed(source, tokens),
        0 <= pos < tokens.len(),
        tokens[pos].event is Start,
        ascending(statement_spans(build.statements), xml::token_start(tokens, pos)),
    ensures
        ({
            let child = mapper::after_statement(source, dialect, tokens, pos, kind, build);
            ascending(
                statement_spans(child.build.statements),
                xml::token_start(tokens, child.next),
            )
        }),
{
    let start = xml::token_start(tokens, pos);
    let inner = xml::token_start(tokens, pos + 1);
    let span = mapper::token_span(tokens, pos);
    let head = statement::header(source, kind, span);
    let capture = mapper::captured(source, tokens, pos);
    let keys = statement::keys_after_header(source, span, build.keys);
    let n = capture.segments.len() as int;
    let split = statement::split_keys(source, dialect, head, capture.segments, keys, n);
    let end = xml::token_start(tokens, capture.next);
    assert(xml::placed(source, start, tokens[pos]));
    if pos > 0 {
        assert(xml::placed(source, xml::token_start(tokens, pos - 1), tokens[pos - 1]));
    }
    body::lemma_capture_ordered(source, tokens, pos + 1, start, None);
    lemma_tags_stand(source, tokens, pos + 1, start, None);
    body::lemma_token_starts(source, tokens, pos + 1, capture.next);
    lemma_split_order(source, dialect, head, capture.segments, keys, n, inner, end);
    let whole = statement::with_body(source, dialect, head, end, split.rest);
    let before = statement_spans(build.statements);
    lemma_one_more(before, whole.span, inner);
    let more = statement_spans(split.statements);
    lemma_more(before.push(whole.span), more, inner, end);
    assert(statement_spans(build.statements.push(whole) + split.statements) =~= before.push(
        whole.span,
    ) + more);
}

proof fn lemma_built_order(
    source: Seq<u8>,
    dialect: Dialect,
    tokens: Seq<TokenView>,
    pos: int,
    root_start: int,
    last_error: Option<u64>,
    build: BuildView,
)
    requires
        attrs::fits(source),
        xml::well_placed(source, tokens),
        0 <= pos <= tokens.len(),
        in_order(build, xml::token_start(tokens, pos)),
    ensures
        ({
            let end = mapper::built(
                source,
                dialect,
                tokens,
                pos,
                root_start,
                last_error,
                build,
            );
            in_order(end.build, xml::token_start(tokens, end.next))
        }),
    decreases tokens.len() - pos,
{
    if pos < tokens.len() {
        mapper::lemma_child(source, dialect, tokens, pos, last_error, build);
        lemma_child_order(source, dialect, tokens, pos, last_error, build);
        let child = mapper::after_child(source, dialect, tokens, pos, last_error, build);
        if !child.stop {
            lemma_built_order(
                source,
                dialect,
                tokens,
                child.next,
                root_start,
                mapper::error_after(tokens, pos, last_error),
                child.build,
            );
        }
    }
}

/// The parts of a mapper come in document order.
pub open spec fn ordered_mapper(mapper: MapperView, len: int) -> bool {
    &&& ascending(statement_spans(mapper.statements), len + 1)
    &&& ascending(fragment_spans(mapper.fragments), len + 1)
    &&& ascending(result_map_spans(mapper.result_maps), len + 1)
}

/// The statements of a mapper come in document order, a `<selectKey>` behind
/// the statement it belongs to; so do its fragments and its result maps.
pub proof fn law_document_order(
    source: Seq<u8>,
    dialect: Dialect,
    tokens: Seq<TokenView>,
    pos: int,
)
    requires
        attrs::fits(source),
        xml::well_placed(source, tokens),
        0 <= pos < tokens.len(),
    ensures
        ordered_mapper(
            mapper::mapped(source, dialect, tokens, pos).mapper,
            source.len() as int,
        ),
{
    reveal(mapper::mapped);
    let span = mapper::token_span(tokens, pos);
    let first = mapper::empty_build(attrs::tag_attr(source, span, "namespace"@).diagnostics);
    let start = xml::token_start(tokens, pos);
    lemma_built_order(source, dialect, tokens, pos + 1, start, None, first);
    lemma_built_next(source, dialect, tokens, pos + 1, start, None, first);
    let end = mapper::built(source, dialect, tokens, pos + 1, start, None, first);
    assert(xml::placed(source, xml::token_start(tokens, end.next - 1), tokens[end.next - 1]));
    let limit = xml::token_start(tokens, end.next);
    let len = source.len() as int;
    lemma_later(statement_spans(end.build.statements), limit, len + 1);
    lemma_later(fragment_spans(end.build.fragments), limit, len + 1);
    lemma_later(result_map_spans(end.build.result_maps), limit, len + 1);
}

proof fn lemma_built_next(
    source: Seq<u8>,
    dialect: Dialect,
    tokens: Seq<TokenView>,
    pos: int,
    root_start: int,
    last_error: Option<u64>,
    build: BuildView,
)
    requires
        attrs::fits(source),
        xml::well_placed(source, tokens),
        0 <= pos <= tokens.len(),
    ensures
        pos <= mapper::built(
            source,
            dialect,
            tokens,
            pos,
            root_start,
            last_error,
            build,
        ).next <= tokens.len(),
    decreases tokens.len() - pos,
{
    if pos < tokens.len() {
        mapper::lemma_child(source, dialect, tokens, pos, last_error, build);
        let child = mapper::after_child(source, dialect, tokens, pos, last_error, build);
        if !child.stop {
            lemma_built_next(
                source,
                dialect,
                tokens,
                child.next,
                root_start,
                mapper::error_after(tokens, pos, last_error),
                child.build,
            );
        }
    }
}

} // verus!
