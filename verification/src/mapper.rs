//! The mapper: a walk over the children of the root element.
use crate::attrs;
use crate::attrs::{diagnostic, span_of};
use crate::body;
use crate::body::{
    capture_body, BodySegment, dangling_amp_diagnostic, recovery_diagnostic, resolve_general_ref,
    skip_subtree, token_begin, unclosed_tag, SkipEnd, SkipOutcome,
};
use crate::includes;
use crate::includes::check_dangling_local_refids;
use crate::model;
use crate::model::{
    ByteSpan, DiagCode, Diagnostic, DiagnosticView, Dialect, Mapper, MapperView, ResultMap,
    ResultMapView, SqlFragment, SqlFragmentView, Statement, StatementKind, StatementView,
};
use crate::order;
use crate::result_map;
use crate::result_map::{append_diagnostic, append_diagnostics, collect_mappings, read_spanned};
use crate::statement;
use crate::statement::{
    build_fragment, build_result_map, build_statement, extract_select_keys, fill_fragment,
    fill_statement, reject_select_key_in_fragment, statement_kind, StatementKey,
};
use crate::tags;
use crate::tags::is_known_ignorable_element;
use crate::text;
use crate::text::{concat, concat3, slice, str_eq};
use crate::xml;
use crate::xml::{EventView, TokenView, XmlEvent, XmlToken};
use vstd::prelude::*;
use vstd::string::*;
use vstd::utf8::*;

verus! {

/// A mapper under construction.
pub struct BuildView {
    pub statements: Seq<StatementView>,
    pub fragments: Seq<SqlFragmentView>,
    pub result_maps: Seq<ResultMapView>,
    pub diagnostics: Seq<DiagnosticView>,
    pub keys: Seq<StatementKey>,
    pub fragment_ids: Seq<Seq<char>>,
    pub result_map_ids: Seq<Seq<char>>,
}

/// What an element comes to: the mapper so far, the token after it, and whether
/// the walk is over.
pub struct ElementView {
    pub build: BuildView,
    pub next: int,
    pub stop: bool,
}

/// The span of the token at `pos`.
pub open spec fn token_span(tokens: Seq<TokenView>, pos: int) -> ByteSpan {
    attrs::byte_span(xml::token_start(tokens, pos), tokens[pos].end as int)
}

/// The body of the element whose start tag is the token at `pos`.
pub open spec fn captured(source: Seq<u8>, tokens: Seq<TokenView>, pos: int) -> body::Capture {
    body::capture_from(source, tokens, pos + 1, xml::token_start(tokens, pos), None)
}

/// A statement with a body.
pub open spec fn after_statement(
    source: Seq<u8>,
    dialect: Dialect,
    tokens: Seq<TokenView>,
    pos: int,
    kind: StatementKind,
    build: BuildView,
) -> ElementView {
    let span = token_span(tokens, pos);
    let head = statement::header(source, kind, span);
    let capture = captured(source, tokens, pos);
    let split = statement::split_keys(
        source,
        dialect,
        head,
        capture.segments,
        statement::keys_after_header(source, span, build.keys),
        capture.segments.len() as int,
    );
    let end = xml::token_start(tokens, capture.next);
    ElementView {
        build: BuildView {
            statements: build.statements.push(
                statement::with_body(source, dialect, head, end, split.rest),
            ) + split.statements,
            diagnostics: build.diagnostics + statement::header_diagnostics(
                source,
                span,
                build.keys,
            ) + capture.diagnostics + split.diagnostics + statement::body_diagnostics(
                source,
                dialect,
                split.rest,
            ),
            keys: split.keys,
            ..build
        },
        next: capture.next,
        stop: capture.truncated,
    }
}

/// A fragment with a body. Without an id it is dropped.
pub open spec fn after_fragment(
    source: Seq<u8>,
    dialect: Dialect,
    tokens: Seq<TokenView>,
    pos: int,
    build: BuildView,
) -> ElementView {
    let span = token_span(tokens, pos);
    let capture = captured(source, tokens, pos);
    let count = capture.segments.len() as int;
    let rest = statement::without_keys(capture.segments, count);
    let end = xml::token_start(tokens, capture.next);
    let seen = build.diagnostics + statement::fragment_diagnostics(
        source,
        span,
        build.fragment_ids,
    ) + capture.diagnostics + statement::misplaced_keys(capture.segments, count);
    let named = BuildView {
        fragment_ids: statement::ids_after(
            build.fragment_ids,
            attrs::tag_attr(source, span, "id"@).value,
        ),
        ..build
    };
    ElementView {
        build: match statement::fragment_header(source, span) {
            Some(head) => BuildView {
                fragments: build.fragments.push(
                    statement::fragment_with_body(source, dialect, head, end, rest),
                ),
                diagnostics: seen + statement::body_diagnostics(source, dialect, rest),
                ..named
            },
            None => BuildView { diagnostics: seen, ..named },
        },
        next: capture.next,
        stop: capture.truncated,
    }
}

/// A result map with a body. Without an id it is dropped.
pub open spec fn after_result_map(
    source: Seq<u8>,
    tokens: Seq<TokenView>,
    pos: int,
    build: BuildView,
) -> ElementView {
    let span = token_span(tokens, pos);
    let capture = captured(source, tokens, pos);
    let end = xml::token_start(tokens, capture.next);
    let seen = build.diagnostics + statement::result_map_diagnostics(
        source,
        span,
        build.result_map_ids,
    ) + capture.diagnostics;
    let named = BuildView {
        result_map_ids: statement::ids_after(
            build.result_map_ids,
            attrs::tag_attr(source, span, "id"@).value,
        ),
        ..build
    };
    ElementView {
        build: match statement::result_map_header(source, span) {
            Some(head) => {
                let columns = result_map::nested(
                    source,
                    capture.segments,
                    0,
                    result_map::Columns { mappings: Seq::empty(), diagnostics: seen },
                );
                BuildView {
                    result_maps: build.result_maps.push(
                        ResultMapView {
                            span: ByteSpan { start: span.start, end: end as u32 },
                            mappings: columns.mappings,
                            ..head
                        },
                    ),
                    diagnostics: columns.diagnostics,
                    ..named
                }
            },
            None => BuildView { diagnostics: seen, ..named },
        },
        next: capture.next,
        stop: capture.truncated,
    }
}

pub open spec fn unknown_element(name: Seq<char>, span: ByteSpan) -> DiagnosticView {
    DiagnosticView {
        code: DiagCode::UnknownElement,
        span: Some(span),
        message: "unrecognized statement-level element <"@ + name
            + "> -- not a known statement/fragment/resultMap tag, and not one of this crate's known-ignorable elements; ignored (possible typo?)"@,
    }
}

/// What an element that is passed over is diagnosed with.
pub open spec fn passed_over(name: Seq<char>, span: ByteSpan) -> Seq<DiagnosticView> {
    if tags::is_ignorable(name) {
        Seq::empty()
    } else {
        seq![unknown_element(name, span)]
    }
}

/// Any other element with a body.
pub open spec fn after_other(
    source: Seq<u8>,
    tokens: Seq<TokenView>,
    pos: int,
    name: Seq<char>,
    build: BuildView,
) -> ElementView {
    let start = xml::token_start(tokens, pos);
    let len = source.len() as int;
    let skip = body::skip_from(tokens, pos + 1, 1, None);
    ElementView {
        build: BuildView {
            diagnostics: build.diagnostics + skip.diagnostics + match skip.end {
                SkipEnd::Closed => passed_over(
                    name,
                    attrs::byte_span(start, xml::token_start(tokens, skip.next)),
                ),
                SkipEnd::Eof => seq![body::unclosed(start, len, "element was never closed"@)],
                SkipEnd::Stuck(message) => seq![
                    body::unclosed(
                        start,
                        len,
                        "XML parse error while skipping element: "@ + message,
                    ),
                ],
            },
            ..build
        },
        next: skip.next,
        stop: skip.end !is Closed,
    }
}

/// The element whose start tag is the token at `pos`.
pub open spec fn after_start(
    source: Seq<u8>,
    dialect: Dialect,
    tokens: Seq<TokenView>,
    pos: int,
    name: Seq<char>,
    build: BuildView,
) -> ElementView {
    match statement::kind_of(name) {
        Some(kind) => after_statement(source, dialect, tokens, pos, kind, build),
        None => if name == "sql"@ {
            after_fragment(source, dialect, tokens, pos, build)
        } else if name == "resultMap"@ {
            after_result_map(source, tokens, pos, build)
        } else {
            after_other(source, tokens, pos, name, build)
        },
    }
}

/// The self-closed element at `span`.
pub open spec fn after_empty(
    source: Seq<u8>,
    name: Seq<char>,
    span: ByteSpan,
    build: BuildView,
) -> BuildView {
    match statement::kind_of(name) {
        Some(kind) => BuildView {
            statements: build.statements.push(statement::header(source, kind, span)),
            diagnostics: build.diagnostics + statement::header_diagnostics(
                source,
                span,
                build.keys,
            ),
            keys: statement::keys_after_header(source, span, build.keys),
            ..build
        },
        None => if name == "sql"@ {
            BuildView {
                fragments: match statement::fragment_header(source, span) {
                    Some(head) => build.fragments.push(head),
                    None => build.fragments,
                },
                diagnostics: build.diagnostics + statement::fragment_diagnostics(
                    source,
                    span,
                    build.fragment_ids,
                ),
                fragment_ids: statement::ids_after(
                    build.fragment_ids,
                    attrs::tag_attr(source, span, "id"@).value,
                ),
                ..build
            }
        } else if name == "resultMap"@ {
            BuildView {
                result_maps: match statement::result_map_header(source, span) {
                    Some(head) => build.result_maps.push(head),
                    None => build.result_maps,
                },
                diagnostics: build.diagnostics + statement::result_map_diagnostics(
                    source,
                    span,
                    build.result_map_ids,
                ),
                result_map_ids: statement::ids_after(
                    build.result_map_ids,
                    attrs::tag_attr(source, span, "id"@).value,
                ),
                ..build
            }
        } else {
            BuildView { diagnostics: build.diagnostics + passed_over(name, span), ..build }
        },
    }
}

/// What text or a reference outside the elements is diagnosed with.
#[verifier::opaque]
pub open spec fn stray_text(source: Seq<u8>, tokens: Seq<TokenView>, pos: int) -> Seq<
    DiagnosticView,
> {
    let start = xml::token_start(tokens, pos);
    let raw = source.subrange(start, tokens[pos].end as int);
    match tokens[pos].event {
        EventView::Text => body::dangling_amp(raw, start),
        EventView::Reference => body::reference_diagnostics(raw, token_span(tokens, pos)),
        _ => Seq::empty(),
    }
}

/// `build` with more diagnostics.
pub open spec fn noted(build: BuildView, diagnostics: Seq<DiagnosticView>) -> BuildView {
    BuildView { diagnostics: build.diagnostics + diagnostics, ..build }
}

/// What the token at `pos` among the children of the root comes to.
pub open spec fn after_child(
    source: Seq<u8>,
    dialect: Dialect,
    tokens: Seq<TokenView>,
    pos: int,
    last_error: Option<u64>,
    build: BuildView,
) -> ElementView {
    match tokens[pos].event {
        EventView::End => ElementView { build, next: pos + 1, stop: true },
        EventView::Malformed { orphan_close, message, position } => if last_error == Some(
            position,
        ) {
            ElementView {
                build: noted(
                    build,
                    seq![
                        body::unclosed(
                            position as int,
                            source.len() as int,
                            "XML parse error (unrecoverable): "@ + message,
                        ),
                    ],
                ),
                next: pos + 1,
                stop: true,
            }
        } else {
            ElementView {
                build: noted(build, seq![body::recovery(orphan_close, message, position)]),
                next: pos + 1,
                stop: false,
            }
        },
        EventView::Start(name) => after_start(source, dialect, tokens, pos, name, build),
        EventView::Empty(name) => ElementView {
            build: after_empty(source, name, token_span(tokens, pos), build),
            next: pos + 1,
            stop: false,
        },
        _ => ElementView {
            build: noted(build, stray_text(source, tokens, pos)),
            next: pos + 1,
            stop: false,
        },
    }
}

/// The place of the last error after the token at `pos`.
pub open spec fn error_after(
    tokens: Seq<TokenView>,
    pos: int,
    last_error: Option<u64>,
) -> Option<u64> {
    match tokens[pos].event {
        EventView::Malformed { position, .. } => Some(position),
        _ => last_error,
    }
}

/// The children of the root from the token at `pos` on, and the token after the
/// root.
pub open spec fn built(
    source: Seq<u8>,
    dialect: Dialect,
    tokens: Seq<TokenView>,
    pos: int,
    root_start: int,
    last_error: Option<u64>,
    build: BuildView,
) -> ElementView
    decreases tokens.len() - pos,
{
    if pos >= tokens.len() {
        ElementView {
            build: noted(
                build,
                seq![
                    body::unclosed(
                        root_start,
                        source.len() as int,
                        "root element was never closed"@,
                    ),
                ],
            ),
            next: pos,
            stop: true,
        }
    } else {
        let child = after_child(source, dialect, tokens, pos, last_error, build);
        if child.stop {
            child
        } else if pos < child.next <= tokens.len() {
            built(
                source,
                dialect,
                tokens,
                child.next,
                root_start,
                error_after(tokens, pos, last_error),
                child.build,
            )
        } else {
            arbitrary()
        }
    }
}

// ---- the whole mapper ---------------------------------------------------

/// Whether the first `k` diagnostics hold one with the code and span of the
/// one at `k`.
pub open spec fn repeats(diagnostics: Seq<DiagnosticView>, k: int) -> bool {
    diagnostics[k].span is Some && exists|j: int|
        0 <= j < k && (#[trigger] diagnostics[j]).code == diagnostics[k].code
            && diagnostics[j].span == diagnostics[k].span
}

/// The first `n` diagnostics without the repetitions. One without a span is
/// never a repetition.
pub open spec fn deduped(diagnostics: Seq<DiagnosticView>, n: int) -> Seq<DiagnosticView>
    decreases n,
{
    if n <= 0 {
        Seq::empty()
    } else if repeats(diagnostics, n - 1) {
        deduped(diagnostics, n - 1)
    } else {
        deduped(diagnostics, n - 1).push(diagnostics[n - 1])
    }
}

/// The dangling references of the first `n` statements.
pub open spec fn dangling_in_statements(
    statements: Seq<StatementView>,
    ids: Seq<Seq<char>>,
    n: int,
) -> Seq<DiagnosticView>
    decreases n,
{
    if n <= 0 {
        Seq::empty()
    } else {
        let list = statements[n - 1].includes;
        dangling_in_statements(statements, ids, n - 1) + includes::dangling(
            list,
            ids,
            list.len() as int,
        )
    }
}

/// The dangling references of the first `n` fragments.
pub open spec fn dangling_in_fragments(
    fragments: Seq<SqlFragmentView>,
    ids: Seq<Seq<char>>,
    n: int,
) -> Seq<DiagnosticView>
    decreases n,
{
    if n <= 0 {
        Seq::empty()
    } else {
        let list = fragments[n - 1].includes;
        dangling_in_fragments(fragments, ids, n - 1) + includes::dangling(
            list,
            ids,
            list.len() as int,
        )
    }
}

/// Everything that was wrong, once the whole mapper is known.
pub open spec fn all_diagnostics(dialect: Dialect, build: BuildView) -> Seq<DiagnosticView> {
    let all = if dialect == Dialect::Mybatis {
        build.diagnostics + dangling_in_statements(
            build.statements,
            build.fragment_ids,
            build.statements.len() as int,
        ) + dangling_in_fragments(
            build.fragments,
            build.fragment_ids,
            build.fragments.len() as int,
        )
    } else {
        build.diagnostics
    };
    deduped(all, all.len() as int)
}

/// A mapper, what was wrong with it, and the token after it.
pub struct MappedView {
    pub mapper: MapperView,
    pub diagnostics: Seq<DiagnosticView>,
    pub next: int,
}

pub open spec fn empty_build(diagnostics: Seq<DiagnosticView>) -> BuildView {
    BuildView {
        statements: Seq::empty(),
        fragments: Seq::empty(),
        result_maps: Seq::empty(),
        diagnostics,
        keys: Seq::empty(),
        fragment_ids: Seq::empty(),
        result_map_ids: Seq::empty(),
    }
}

/// The mapper whose root starts with the token at `pos`.
#[verifier::opaque]
pub open spec fn mapped(
    source: Seq<u8>,
    dialect: Dialect,
    tokens: Seq<TokenView>,
    pos: int,
) -> MappedView {
    let namespace = attrs::tag_attr(source, token_span(tokens, pos), "namespace"@);
    let end = built(
        source,
        dialect,
        tokens,
        pos + 1,
        xml::token_start(tokens, pos),
        None,
        empty_build(namespace.diagnostics),
    );
    MappedView {
        mapper: MapperView {
            namespace: namespace.value,
            statements: end.build.statements,
            fragments: end.build.fragments,
            result_maps: end.build.result_maps,
        },
        diagnostics: all_diagnostics(dialect, end.build),
        next: end.next,
    }
}

/// The mapper of a self-closed root at `span`.
pub open spec fn bare_mapper(source: Seq<u8>, span: ByteSpan) -> MapperView {
    MapperView {
        namespace: attrs::tag_attr(source, span, "namespace"@).value,
        statements: Seq::empty(),
        fragments: Seq::empty(),
        result_maps: Seq::empty(),
    }
}

// ---- order --------------------------------------------------------------

/// The whole of a source.
pub open spec fn whole(source: Seq<u8>) -> tags::Room {
    tags::Room { source, from: 0, to: source.len() as int }
}

pub open spec fn fragments_ok(fragments: Seq<SqlFragmentView>, source: Seq<u8>) -> bool {
    forall|k: int| 0 <= k < fragments.len() ==> statement::fragment_ok(
        #[trigger] fragments[k],
        source,
    )
}

pub open spec fn result_maps_ok(result_maps: Seq<ResultMapView>, source: Seq<u8>) -> bool {
    forall|k: int| 0 <= k < result_maps.len() ==> statement::result_map_ok(
        #[trigger] result_maps[k],
        source,
    )
}

pub open spec fn build_ok(build: BuildView, source: Seq<u8>) -> bool {
    &&& statement::statements_ok(build.statements, source)
    &&& fragments_ok(build.fragments, source)
    &&& result_maps_ok(build.result_maps, source)
    &&& body::spans_in(build.diagnostics, source.len() as int)
}

/// A mapper in order: everything in it lies in the source, is found there, and
/// comes in document order.
pub open spec fn mapper_ok(mapper: MapperView, source: Seq<u8>) -> bool {
    &&& tags::attr_ok(mapper.namespace, whole(source))
    &&& statement::statements_ok(mapper.statements, source)
    &&& fragments_ok(mapper.fragments, source)
    &&& result_maps_ok(mapper.result_maps, source)
    &&& order::ordered_mapper(mapper, source.len() as int)
}

// ---- building -----------------------------------------------------------

/// A mapper under construction.
struct Build {
    statements: Vec<Statement>,
    fragments: Vec<SqlFragment>,
    result_maps: Vec<ResultMap>,
    diagnostics: Vec<Diagnostic>,
    keys: Vec<(String, Option<String>)>,
    fragment_ids: Vec<String>,
    result_map_ids: Vec<String>,
}

impl View for Build {
    type V = BuildView;

    closed spec fn view(&self) -> BuildView {
        BuildView {
            statements: model::deep(self.statements@),
            fragments: model::deep(self.fragments@),
            result_maps: model::deep(self.result_maps@),
            diagnostics: model::deep(self.diagnostics@),
            keys: statement::key_views(self.keys@),
            fragment_ids: model::deep(self.fragment_ids@),
            result_map_ids: model::deep(self.result_map_ids@),
        }
    }
}

/// The tokens of a source, and one of them.
spec fn at_token(source: Seq<u8>, tokens: Seq<XmlToken>, pos: int) -> bool {
    &&& valid_utf8(source)
    &&& body::tokens_of(source, tokens)
    &&& 0 <= pos < tokens.len()
}

proof fn lemma_token_span(source: Seq<u8>, tokens: Seq<XmlToken>, pos: int)
    requires
        at_token(source, tokens, pos),
    ensures
        tags::in_source(token_span(model::deep(tokens), pos), source.len() as int),
        model::deep(tokens)[pos] == tokens[pos]@,
{
    body::lemma_token(source, tokens, pos);
}

fn span_at(tokens: &Vec<XmlToken>, pos: usize, Ghost(source): Ghost<Seq<u8>>) -> (span: ByteSpan)
    requires
        at_token(source, tokens@, pos as int),
    ensures
        span == token_span(model::deep(tokens@), pos as int),
        tags::in_source(span, source.len() as int),
        span.start == xml::token_start(model::deep(tokens@), pos as int),
        span.end == tokens@[pos as int].end,
{
    proof {
        lemma_token_span(source, tokens@, pos as int);
        body::lemma_token(source, tokens@, pos as int);
    }
    span_of(token_begin(tokens, pos), tokens[pos].end)
}

proof fn lemma_end_of(source: Seq<u8>, tokens: Seq<XmlToken>, pos: int, next: int)
    requires
        at_token(source, tokens, pos),
        pos < next <= tokens.len(),
    ensures
        xml::token_start(model::deep(tokens), pos) <= tokens[pos].end <= xml::token_start(
            model::deep(tokens),
            next,
        ) <= source.len(),
{
    body::lemma_token(source, tokens, pos);
    body::lemma_token_starts(source, model::deep(tokens), pos + 1, next);
    body::lemma_token(source, tokens, next - 1);
}

proof fn lemma_within(segments: Seq<body::SegmentView>, room: tags::Room)
    requires
        body::segments_in(room.source, segments),
        body::lie_between(segments, room.from, room.to),
    ensures
        tags::segments_within(segments, room),
{
    reveal(body::lie_between);
    assert forall|k: int| 0 <= k < segments.len() implies tags::in_room(
        body::segment_span(#[trigger] segments[k]),
        room,
    ) by {
        assert(body::segment_in(room.source, segments[k]));
    }
}

/// The body of an element, and where the element ends.
struct Element {
    segments: Vec<BodySegment>,
    truncated: bool,
    next: usize,
    end: usize,
}

/// Captures the body of the element whose start tag is the token at `pos`.
#[verifier::rlimit(50)]
fn capture_element(
    source: &str,
    tokens: &Vec<XmlToken>,
    pos: usize,
    diagnostics: &mut Vec<Diagnostic>,
) -> (element: Element)
    requires
        at_token(source.spec_bytes(), tokens@, pos as int),
        body::spans_in(model::deep(old(diagnostics)@), source.spec_bytes().len() as int),
    ensures
        ({
            let bytes = source.spec_bytes();
            let views = model::deep(tokens@);
            let capture = captured(bytes, views, pos as int);
            let span = token_span(views, pos as int);
            &&& model::deep(element.segments@) == capture.segments
            &&& element.truncated == capture.truncated
            &&& element.next == capture.next
            &&& element.end == xml::token_start(views, capture.next)
            &&& model::deep(final(diagnostics)@) == model::deep(old(diagnostics)@)
                + capture.diagnostics
            &&& body::spans_in(model::deep(final(diagnostics)@), bytes.len() as int)
            &&& tags::walkable_in(
                statement::body_room(bytes, span, element.end as int),
                capture.segments,
            )
            &&& span.end <= element.end <= bytes.len()
        }),
        pos < element.next <= tokens@.len(),
{
    let ghost bytes = source.spec_bytes();
    let count = tokens.len();
    let span = span_at(tokens, pos, Ghost(bytes));
    let capture = capture_body(source, tokens, pos + 1, span.start as usize);
    proof {
        lemma_element(bytes, tokens@, pos as int, capture@);
    }
    append_diagnostics(diagnostics, capture.diagnostics, Ghost(bytes.len() as int));
    let end = token_begin(tokens, capture.next);
    Element { segments: capture.segments, truncated: capture.truncated, next: capture.next, end }
}

/// The body of an element lies behind its start tag and before its end.
proof fn lemma_element(
    source: Seq<u8>,
    tokens: Seq<XmlToken>,
    pos: int,
    capture: body::Capture,
)
    requires
        at_token(source, tokens, pos),
        pos < capture.next <= tokens.len(),
        body::segments_in(source, capture.segments),
        body::ordered(capture.segments),
        body::lie_between(
            capture.segments,
            xml::token_start(model::deep(tokens), pos + 1),
            xml::token_start(model::deep(tokens), capture.next),
        ),
    ensures
        ({
            let span = token_span(model::deep(tokens), pos);
            let end = xml::token_start(model::deep(tokens), capture.next);
            &&& tags::walkable_in(statement::body_room(source, span, end), capture.segments)
            &&& span.end <= end <= source.len()
        }),
{
    let span = token_span(model::deep(tokens), pos);
    let end = xml::token_start(model::deep(tokens), capture.next);
    body::lemma_token(source, tokens, pos);
    lemma_end_of(source, tokens, pos, capture.next);
    lemma_within(capture.segments, statement::body_room(source, span, end));
}

impl Build {
    fn push_statements(
        &mut self,
        whole: Statement,
        children: Vec<Statement>,
        Ghost(bytes): Ghost<Seq<u8>>,
    )
        requires
            build_ok(old(self)@, bytes),
            statement::statement_ok(whole@, bytes),
            statement::keys_ok(
                model::deep(children@),
                whole@,
                tags::room_of(bytes, whole@.span),
            ),
        ensures
            final(self)@ == (BuildView {
                statements: old(self)@.statements.push(whole@) + model::deep(children@),
                ..old(self)@
            }),
            build_ok(final(self)@, bytes),
    {
        let ghost before = self.statements@;
        let mut children = children;
        let ghost more = children@;
        self.statements.push(whole);
        self.statements.append(&mut children);
        proof {
            assert(self.statements@ =~= before.push(whole) + more);
            model::deep_push(before, whole);
            model::deep_concat(before.push(whole), more);
            statement::lemma_more_statements(
                model::deep(before),
                whole@,
                model::deep(more),
                bytes,
            );
        }
    }

    /// Takes a statement with a body.
    #[verifier::rlimit(50)]
    fn take_statement(
        &mut self,
        source: &str,
        dialect: Dialect,
        tokens: &Vec<XmlToken>,
        pos: usize,
        kind: StatementKind,
    ) -> (r: (usize, bool))
        requires
            at_token(source.spec_bytes(), tokens@, pos as int),
            build_ok(old(self)@, source.spec_bytes()),
        ensures
            build_ok(final(self)@, source.spec_bytes()),
            after_statement(
                source.spec_bytes(),
                dialect,
                model::deep(tokens@),
                pos as int,
                kind,
                old(self)@,
            ) == (ElementView { build: final(self)@, next: r.0 as int, stop: r.1 }),
            pos < r.0 <= tokens@.len(),
    {
        let ghost bytes = source.spec_bytes();
        let ghost len = bytes.len() as int;
        let ghost views = model::deep(tokens@);
        let count = tokens.len();
        let span = span_at(tokens, pos, Ghost(bytes));
        let head = build_statement(source, kind, span, &mut self.keys, &mut self.diagnostics);
        let element = capture_element(source, tokens, pos, &mut self.diagnostics);
        let next = element.next;
        let stop = element.truncated;
        let end = element.end;
        let ghost room = statement::body_room(bytes, span, end as int);
        let (children, rest) = extract_select_keys(
            source,
            dialect,
            &head,
            element.segments,
            &mut self.keys,
            &mut self.diagnostics,
            Ghost(room),
        );
        let ghost headed = head@;
        let whole = fill_statement(source, dialect, head, end, &rest, &mut self.diagnostics);
        proof {
            statement::lemma_keys_of_whole(model::deep(children@), headed, whole@, bytes);
        }
        self.push_statements(whole, children, Ghost(bytes));
        proof {
            assert(self@.diagnostics =~= after_statement(
                bytes,
                dialect,
                views,
                pos as int,
                kind,
                old(self)@,
            ).build.diagnostics);
        }
        (next, stop)
    }

    fn push_fragment(&mut self, fragment: SqlFragment, Ghost(bytes): Ghost<Seq<u8>>)
        requires
            build_ok(old(self)@, bytes),
            statement::fragment_ok(fragment@, bytes),
        ensures
            final(self)@ == (BuildView {
                fragments: old(self)@.fragments.push(fragment@),
                ..old(self)@
            }),
            build_ok(final(self)@, bytes),
    {
        proof {
            model::deep_push(self.fragments@, fragment);
        }
        self.fragments.push(fragment);
    }

    /// Takes a fragment with a body.
    #[verifier::rlimit(50)]
    fn take_fragment(
        &mut self,
        source: &str,
        dialect: Dialect,
        tokens: &Vec<XmlToken>,
        pos: usize,
    ) -> (r: (usize, bool))
        requires
            at_token(source.spec_bytes(), tokens@, pos as int),
            build_ok(old(self)@, source.spec_bytes()),
        ensures
            build_ok(final(self)@, source.spec_bytes()),
            after_fragment(
                source.spec_bytes(),
                dialect,
                model::deep(tokens@),
                pos as int,
                old(self)@,
            ) == (ElementView { build: final(self)@, next: r.0 as int, stop: r.1 }),
            pos < r.0 <= tokens@.len(),
    {
        let ghost bytes = source.spec_bytes();
        let ghost len = bytes.len() as int;
        let ghost views = model::deep(tokens@);
        let count = tokens.len();
        let span = span_at(tokens, pos, Ghost(bytes));
        let head = build_fragment(source, span, &mut self.fragment_ids, &mut self.diagnostics);
        let element = capture_element(source, tokens, pos, &mut self.diagnostics);
        let next = element.next;
        let stop = element.truncated;
        let end = element.end;
        let ghost room = statement::body_room(bytes, span, end as int);
        let rest = reject_select_key_in_fragment(
            element.segments,
            &mut self.diagnostics,
            Ghost(room),
        );
        if let Some(head) = head {
            let whole = fill_fragment(source, dialect, head, end, &rest, &mut self.diagnostics);
            self.push_fragment(whole, Ghost(bytes));
        }
        assert(self@.diagnostics =~= after_fragment(
            bytes,
            dialect,
            views,
            pos as int,
            old(self)@,
        ).build.diagnostics);
        (next, stop)
    }

    /// Takes a result map with a body.
    #[verifier::rlimit(50)]
    fn take_result_map(&mut self, source: &str, tokens: &Vec<XmlToken>, pos: usize) -> (r: (
        usize,
        bool,
    ))
        requires
            at_token(source.spec_bytes(), tokens@, pos as int),
            build_ok(old(self)@, source.spec_bytes()),
        ensures
            build_ok(final(self)@, source.spec_bytes()),
            after_result_map(
                source.spec_bytes(),
                model::deep(tokens@),
                pos as int,
                old(self)@,
            ) == (ElementView { build: final(self)@, next: r.0 as int, stop: r.1 }),
            pos < r.0 <= tokens@.len(),
    {
        let ghost bytes = source.spec_bytes();
        let ghost len = bytes.len() as int;
        let ghost views = model::deep(tokens@);
        let count = tokens.len();
        let span = span_at(tokens, pos, Ghost(bytes));
        let head = build_result_map(
            source,
            span,
            &mut self.result_map_ids,
            &mut self.diagnostics,
        );
        let element = capture_element(source, tokens, pos, &mut self.diagnostics);
        let next = element.next;
        let stop = element.truncated;
        let end = element.end;
        if let Some(head) = head {
            let mut mappings = head.mappings;
            collect_mappings(source, element.segments, &mut mappings, &mut self.diagnostics);
            let whole = ResultMap {
                span: ByteSpan { start: head.span.start, end: end as u32 },
                id: head.id,
                type_ref: head.type_ref,
                extends: head.extends,
                mappings,
            };
            let ghost before = self.result_maps@;
            self.result_maps.push(whole);
            proof {
                model::deep_push(before, whole);
                let a = model::deep(before).push(whole@);
                reveal(statement::result_map_ok);
                assert forall|k: int| 0 <= k < a.len() implies statement::result_map_ok(
                    #[trigger] a[k],
                    bytes,
                ) by {
                    if k < before.len() {
                        assert(a[k] == model::deep(before)[k]);
                    }
                }
            }
        }
        (next, stop)
    }

    /// Reports an element that is passed over.
    fn note_passed(&mut self, name: &str, span: ByteSpan, Ghost(bytes): Ghost<Seq<u8>>)
        requires
            build_ok(old(self)@, bytes),
            tags::in_source(span, bytes.len() as int),
        ensures
            final(self)@ == noted(old(self)@, passed_over(name@, span)),
            build_ok(final(self)@, bytes),
    {
        if !is_known_ignorable_element(name) {
            let message = concat3(
                "unrecognized statement-level element <",
                name,
                "> -- not a known statement/fragment/resultMap tag, and not one of this crate's known-ignorable elements; ignored (possible typo?)",
            );
            self.note(diagnostic(DiagCode::UnknownElement, Some(span), message), Ghost(bytes));
        }
        assert(self@.diagnostics =~= old(self)@.diagnostics + passed_over(name@, span));
    }

    fn note(&mut self, d: Diagnostic, Ghost(bytes): Ghost<Seq<u8>>)
        requires
            build_ok(old(self)@, bytes),
            body::span_in(d.span, bytes.len() as int),
        ensures
            final(self)@ == noted(old(self)@, seq![d@]),
            build_ok(final(self)@, bytes),
    {
        append_diagnostic(&mut self.diagnostics, d, Ghost(bytes.len() as int));
    }

    /// Passes over any other element with a body.
    fn take_other(
        &mut self,
        source: &str,
        tokens: &Vec<XmlToken>,
        pos: usize,
        name: &str,
    ) -> (r: (usize, bool))
        requires
            at_token(source.spec_bytes(), tokens@, pos as int),
            build_ok(old(self)@, source.spec_bytes()),
        ensures
            build_ok(final(self)@, source.spec_bytes()),
            after_other(
                source.spec_bytes(),
                model::deep(tokens@),
                pos as int,
                name@,
                old(self)@,
            ) == (ElementView { build: final(self)@, next: r.0 as int, stop: r.1 }),
            pos < r.0 <= tokens@.len(),
    {
        let ghost bytes = source.spec_bytes();
        let ghost len = bytes.len() as int;
        let ghost views = model::deep(tokens@);
        let count = tokens.len();
        let span = span_at(tokens, pos, Ghost(bytes));
        let start = span.start as usize;
        let ghost skip = body::skip_from(views, pos + 1, 1, None);
        proof {
            body::lemma_skip(bytes, views, pos + 1, 1, None);
            assert forall|i: int| 0 <= i < tokens@.len() implies ((
            #[trigger] tokens@[i]).event matches XmlEvent::Malformed { position, .. } ==> position
                <= usize::MAX) by {
                body::lemma_token(bytes, tokens@, i);
            }
        }
        let (outcome, next) = skip_subtree(tokens, pos + 1, &mut self.diagnostics);
        proof {
            tags::lemma_spans_concat(old(self)@.diagnostics, skip.diagnostics, len);
            lemma_end_of(bytes, tokens@, pos as int, next as int);
        }
        let ghost skipped = self@;
        let stop = match outcome {
            SkipOutcome::Closed => {
                let end = token_begin(tokens, next);
                self.note_passed(name, span_of(start, end), Ghost(bytes));
                false
            },
            SkipOutcome::Eof => {
                self.note(
                    unclosed_tag(start, source.len(), "element was never closed".to_owned()),
                    Ghost(bytes),
                );
                true
            },
            SkipOutcome::Stuck(message) => {
                let text = concat("XML parse error while skipping element: ", message.as_str());
                self.note(unclosed_tag(start, source.len(), text), Ghost(bytes));
                true
            },
        };
        (next, stop)
    }

    /// Takes a self-closed element.
    fn take_empty(&mut self, source: &str, name: &str, span: ByteSpan)
        requires
            attrs::fits(source.spec_bytes()),
            tags::in_source(span, source.spec_bytes().len() as int),
            build_ok(old(self)@, source.spec_bytes()),
        ensures
            final(self)@ == after_empty(source.spec_bytes(), name@, span, old(self)@),
            build_ok(final(self)@, source.spec_bytes()),
    {
        let ghost len = source.spec_bytes().len() as int;
        if let Some(kind) = statement_kind(name) {
            let head = build_statement(source, kind, span, &mut self.keys, &mut self.diagnostics);
            proof {
                let before = model::deep(self.statements@);
                model::deep_push(self.statements@, head);
                statement::lemma_more_statements(
                    before,
                    head@,
                    Seq::empty(),
                    source.spec_bytes(),
                );
                assert(before.push(head@) + Seq::empty() =~= before.push(head@));
            }
            self.statements.push(head);
        } else if str_eq(name, "sql") {
            let head = build_fragment(source, span, &mut self.fragment_ids, &mut self.diagnostics);
            if let Some(head) = head {
                proof {
                    model::deep_push(self.fragments@, head);
                }
                self.fragments.push(head);
            }
        } else if str_eq(name, "resultMap") {
            let head = build_result_map(
                source,
                span,
                &mut self.result_map_ids,
                &mut self.diagnostics,
            );
            if let Some(head) = head {
                proof {
                    model::deep_push(self.result_maps@, head);
                }
                self.result_maps.push(head);
            }
        } else {
            self.note_passed(name, span, Ghost(source.spec_bytes()));
        }
    }

    /// Takes the element whose start tag is the token at `pos`.
    fn take_start(
        &mut self,
        source: &str,
        dialect: Dialect,
        tokens: &Vec<XmlToken>,
        pos: usize,
        name: &str,
    ) -> (r: (usize, bool))
        requires
            at_token(source.spec_bytes(), tokens@, pos as int),
            build_ok(old(self)@, source.spec_bytes()),
        ensures
            build_ok(final(self)@, source.spec_bytes()),
            after_start(
                source.spec_bytes(),
                dialect,
                model::deep(tokens@),
                pos as int,
                name@,
                old(self)@,
            ) == (ElementView { build: final(self)@, next: r.0 as int, stop: r.1 }),
            pos < r.0 <= tokens@.len(),
    {
        if let Some(kind) = statement_kind(name) {
            self.take_statement(source, dialect, tokens, pos, kind)
        } else if str_eq(name, "sql") {
            self.take_fragment(source, dialect, tokens, pos)
        } else if str_eq(name, "resultMap") {
            self.take_result_map(source, tokens, pos)
        } else {
            self.take_other(source, tokens, pos, name)
        }
    }
}

/// Reports text or a reference that stands outside the elements.
pub fn note_stray_text(
    source: &str,
    tokens: &Vec<XmlToken>,
    pos: usize,
    diagnostics: &mut Vec<Diagnostic>,
)
    requires
        valid_utf8(source.spec_bytes()),
        body::tokens_of(source.spec_bytes(), tokens@),
        pos < tokens@.len(),
        body::spans_in(model::deep(old(diagnostics)@), source.spec_bytes().len() as int),
    ensures
        model::deep(final(diagnostics)@) == model::deep(old(diagnostics)@) + stray_text(
            source.spec_bytes(),
            model::deep(tokens@),
            pos as int,
        ),
        body::spans_in(model::deep(final(diagnostics)@), source.spec_bytes().len() as int),
{
    let ghost bytes = source.spec_bytes();
    let ghost views = model::deep(tokens@);
    let ghost old_diagnostics = model::deep(diagnostics@);
    proof {
        body::lemma_token(bytes, tokens@, pos as int);
    }
    let start = token_begin(tokens, pos);
    let end = tokens[pos].end;
    match &tokens[pos].event {
        XmlEvent::Text => {
            dangling_amp_diagnostic(slice(source, start, end), start, diagnostics);
        },
        XmlEvent::Reference => {
            let _decoded = resolve_general_ref(
                slice(source, start, end),
                span_of(start, end),
                diagnostics,
            );
        },
        _ => {},
    }
    proof {
        reveal(stray_text);
        let more = stray_text(bytes, views, pos as int);
        assert(model::deep(diagnostics@) =~= old_diagnostics + more);
        tags::lemma_spans_concat(old_diagnostics, more, bytes.len() as int);
    }
}

/// Whether two places are the same.
pub fn same_place(last: Option<u64>, position: u64) -> (r: bool)
    ensures
        r == (last == Some(position)),
{
    match last {
        Some(last) => last == position,
        None => false,
    }
}

/// Every child stays among the tokens.
pub proof fn lemma_child(
    source: Seq<u8>,
    dialect: Dialect,
    tokens: Seq<TokenView>,
    pos: int,
    last_error: Option<u64>,
    build: BuildView,
)
    requires
        attrs::fits(source),
        xml::well_placed(source, tokens),
        0 <= pos < tokens.len(),
    ensures
        pos < after_child(source, dialect, tokens, pos, last_error, build).next <= tokens.len(),
{
    assert(xml::placed(source, xml::token_start(tokens, pos), tokens[pos]));
    if pos > 0 {
        assert(xml::placed(source, xml::token_start(tokens, pos - 1), tokens[pos - 1]));
    }
    body::lemma_capture(source, tokens, pos + 1, xml::token_start(tokens, pos), None);
    body::lemma_skip(source, tokens, pos + 1, 1, None);
}

/// Takes the token at `pos` among the children of the root.
fn take_child(
    build: &mut Build,
    source: &str,
    dialect: Dialect,
    tokens: &Vec<XmlToken>,
    pos: usize,
    last_error: &mut Option<u64>,
) -> (r: (usize, bool))
    requires
        at_token(source.spec_bytes(), tokens@, pos as int),
        build_ok(old(build)@, source.spec_bytes()),
    ensures
        build_ok(final(build)@, source.spec_bytes()),
        after_child(
            source.spec_bytes(),
            dialect,
            model::deep(tokens@),
            pos as int,
            *old(last_error),
            old(build)@,
        ) == (ElementView { build: final(build)@, next: r.0 as int, stop: r.1 }),
        *final(last_error) == error_after(model::deep(tokens@), pos as int, *old(last_error)),
        pos < r.0 <= tokens@.len(),
{
    let ghost bytes = source.spec_bytes();
    let ghost len = bytes.len() as int;
    let ghost views = model::deep(tokens@);
    let count = tokens.len();
    proof {
        body::lemma_token(bytes, tokens@, pos as int);
    }
    match &tokens[pos].event {
        XmlEvent::End => (pos + 1, true),
        XmlEvent::Malformed { orphan_close, message, position } => {
            if same_place(*last_error, *position) {
                let text = concat("XML parse error (unrecoverable): ", message.as_str());
                build.note(
                    unclosed_tag(*position as usize, source.len(), text),
                    Ghost(bytes),
                );
                return (pos + 1, true);
            }
            build.note(
                recovery_diagnostic(*orphan_close, message.as_str(), *position),
                Ghost(bytes),
            );
            *last_error = Some(*position);
            (pos + 1, false)
        },
        XmlEvent::Start(name) => build.take_start(source, dialect, tokens, pos, name.as_str()),
        XmlEvent::Empty(name) => {
            let span = span_at(tokens, pos, Ghost(bytes));
            build.take_empty(source, name.as_str(), span);
            (pos + 1, false)
        },
        _ => {
            note_stray_text(source, tokens, pos, &mut build.diagnostics);
            (pos + 1, false)
        },
    }
}

/// Drops every diagnostic whose code and span an earlier one has.
pub fn dedup_diagnostics(diagnostics: &mut Vec<Diagnostic>)
    ensures
        model::deep(final(diagnostics)@) == deduped(
            model::deep(old(diagnostics)@),
            old(diagnostics)@.len() as int,
        ),
{
    let ghost views = model::deep(diagnostics@);
    let mut kept: Vec<Diagnostic> = Vec::new();
    let mut k: usize = 0;
    assert(model::deep(kept@) =~= deduped(views, 0));
    while k < diagnostics.len()
        invariant
            k <= diagnostics@.len(),
            views == model::deep(diagnostics@),
            views == model::deep(old(diagnostics)@),
            diagnostics@.len() == old(diagnostics)@.len(),
            model::deep(kept@) == deduped(views, k as int),
        decreases diagnostics@.len() - k,
    {
        let d = &diagnostics[k];
        assert(views[k as int] == d@);
        let mut repeated = false;
        if let Some(span) = d.span {
            let mut j: usize = 0;
            while j < kept.len()
                invariant
                    k < diagnostics@.len(),
                    j <= kept@.len(),
                    views == model::deep(diagnostics@),
                    model::deep(kept@) == deduped(views, k as int),
                    views[k as int] == d@,
                    d.span == Some(span),
                    repeated ==> exists|i: int|
                        0 <= i < j && (#[trigger] kept@[i]).code == d.code && kept@[i].span
                            == d.span,
                    !repeated ==> forall|i: int|
                        0 <= i < j ==> !((#[trigger] kept@[i]).code == d.code && kept@[i].span
                            == d.span),
                decreases kept@.len() - j,
            {
                let same_span = match kept[j].span {
                    Some(other) => other == span,
                    None => false,
                };
                if kept[j].code == d.code && same_span {
                    repeated = true;
                    assert(kept@[j as int].code == d.code && kept@[j as int].span == d.span);
                }
                j += 1;
            }
            proof {
                let keys = deduped(views, k as int);
                if repeated {
                    let i = choose|i: int|
                        0 <= i < kept@.len() && (#[trigger] kept@[i]).code == d.code
                            && kept@[i].span == d.span;
                    assert(keys[i] == kept@[i]@);
                    lemma_kept_comes_from(views, k as int, i);
                } else {
                    if repeats(views, k as int) {
                        let i = choose|i: int|
                            0 <= i < k && (#[trigger] views[i]).code == views[k as int].code
                                && views[i].span == views[k as int].span;
                        lemma_first_is_kept(views, k as int, i);
                        let h = choose|h: int|
                            0 <= h < keys.len() && (#[trigger] keys[h]).code == views[i].code
                                && keys[h].span == views[i].span;
                        assert(kept@[h]@ == keys[h]);
                    }
                }
            }
        }
        if !repeated {
            let copy = diagnostic(d.code, d.span, d.message.clone());
            proof {
                model::deep_push(kept@, copy);
            }
            kept.push(copy);
        }
        k += 1;
    }
    *diagnostics = kept;
}

/// What is kept has been there.
proof fn lemma_kept_comes_from(diagnostics: Seq<DiagnosticView>, n: int, i: int)
    requires
        0 <= n <= diagnostics.len(),
        0 <= i < deduped(diagnostics, n).len(),
    ensures
        exists|j: int| 0 <= j < n && #[trigger] diagnostics[j] == deduped(diagnostics, n)[i],
    decreases n,
{
    if n > 0 {
        let before = deduped(diagnostics, n - 1);
        if i < before.len() {
            lemma_kept_comes_from(diagnostics, n - 1, i);
            let j = choose|j: int| 0 <= j < n - 1 && #[trigger] diagnostics[j] == before[i];
            assert(diagnostics[j] == deduped(diagnostics, n)[i]);
        } else {
            assert(diagnostics[n - 1] == deduped(diagnostics, n)[i]);
        }
    }
}

/// For everything that has been there, something with its code and span is
/// kept.
proof fn lemma_first_is_kept(diagnostics: Seq<DiagnosticView>, n: int, j: int)
    requires
        0 <= j < n <= diagnostics.len(),
        diagnostics[j].span is Some,
    ensures
        exists|i: int|
            0 <= i < deduped(diagnostics, n).len() && (#[trigger] deduped(diagnostics, n)[i]).code
                == diagnostics[j].code && deduped(diagnostics, n)[i].span == diagnostics[j].span,
    decreases n, j,
{
    let all = deduped(diagnostics, n);
    if j < n - 1 {
        lemma_first_is_kept(diagnostics, n - 1, j);
        let before = deduped(diagnostics, n - 1);
        let i = choose|i: int|
            0 <= i < before.len() && (#[trigger] before[i]).code == diagnostics[j].code
                && before[i].span == diagnostics[j].span;
        assert(all[i] == before[i]);
    } else if repeats(diagnostics, j) {
        let h = choose|h: int|
            0 <= h < j && (#[trigger] diagnostics[h]).code == diagnostics[j].code
                && diagnostics[h].span == diagnostics[j].span;
        lemma_first_is_kept(diagnostics, n, h);
    } else {
        assert(all[all.len() - 1] == diagnostics[j]);
    }
}

/// Dropping repetitions loses nothing and makes nothing up: what is kept has
/// been there, and what has been there is kept, or, if it has a span, something
/// with its code and span is.
pub proof fn law_every_report_is_kept(diagnostics: Seq<DiagnosticView>, n: int)
    requires
        0 <= n <= diagnostics.len(),
    ensures
        forall|i: int|
            0 <= i < deduped(diagnostics, n).len() ==> exists|j: int|
                0 <= j < n && #[trigger] diagnostics[j] == #[trigger] deduped(diagnostics, n)[i],
        forall|j: int|
            0 <= j < n ==> exists|i: int|
                0 <= i < deduped(diagnostics, n).len() && (#[trigger] deduped(
                    diagnostics,
                    n,
                )[i]).code == (#[trigger] diagnostics[j]).code && deduped(diagnostics, n)[i].span
                    == diagnostics[j].span && (diagnostics[j].span is None ==> deduped(
                    diagnostics,
                    n,
                )[i] == diagnostics[j]),
{
    assert forall|i: int| 0 <= i < deduped(diagnostics, n).len() implies exists|j: int|
        0 <= j < n && #[trigger] diagnostics[j] == #[trigger] deduped(diagnostics, n)[i] by {
        lemma_kept_comes_from(diagnostics, n, i);
    }
    assert forall|j: int| 0 <= j < n implies exists|i: int|
        0 <= i < deduped(diagnostics, n).len() && (#[trigger] deduped(diagnostics, n)[i]).code == (
        #[trigger] diagnostics[j]).code && deduped(diagnostics, n)[i].span == diagnostics[j].span
            && (diagnostics[j].span is None ==> deduped(diagnostics, n)[i] == diagnostics[j]) by {
        if diagnostics[j].span is Some {
            lemma_first_is_kept(diagnostics, n, j);
        } else {
            lemma_placeless_is_kept(diagnostics, n, j);
        }
    }
}

proof fn lemma_placeless_is_kept(diagnostics: Seq<DiagnosticView>, n: int, j: int)
    requires
        0 <= j < n <= diagnostics.len(),
        diagnostics[j].span is None,
    ensures
        exists|i: int|
            0 <= i < deduped(diagnostics, n).len() && #[trigger] deduped(diagnostics, n)[i]
                == diagnostics[j],
    decreases n,
{
    let all = deduped(diagnostics, n);
    if j < n - 1 {
        lemma_placeless_is_kept(diagnostics, n - 1, j);
        let before = deduped(diagnostics, n - 1);
        let i = choose|i: int| 0 <= i < before.len() && #[trigger] before[i] == diagnostics[j];
        assert(all[i] == before[i]);
    } else {
        assert(all[all.len() - 1] == diagnostics[j]);
    }
}

/// No two diagnostics that are kept share a code and a span.
pub proof fn law_no_repetition(diagnostics: Seq<DiagnosticView>, n: int, i: int, j: int)
    requires
        0 <= n <= diagnostics.len(),
        0 <= i < j < deduped(diagnostics, n).len(),
        deduped(diagnostics, n)[i].span is Some,
    ensures
        !(deduped(diagnostics, n)[i].code == deduped(diagnostics, n)[j].code && deduped(
            diagnostics,
            n,
        )[i].span == deduped(diagnostics, n)[j].span),
    decreases n,
{
    if n > 0 {
        let before = deduped(diagnostics, n - 1);
        if j < before.len() {
            law_no_repetition(diagnostics, n - 1, i, j);
        } else {
            lemma_kept_comes_from(diagnostics, n - 1, i);
        }
    }
}

proof fn lemma_deduped_spans(diagnostics: Seq<DiagnosticView>, n: int, len: int)
    requires
        0 <= n <= diagnostics.len(),
        body::spans_in(diagnostics, len),
    ensures
        body::spans_in(deduped(diagnostics, n), len),
    decreases n,
{
    if n > 0 {
        lemma_deduped_spans(diagnostics, n - 1, len);
        assert(body::span_in(diagnostics[n - 1].span, len));
    }
}

/// Reports the references that no fragment of this file answers.
fn note_dangling(build: &mut Build, Ghost(bytes): Ghost<Seq<u8>>)
    requires
        build_ok(old(build)@, bytes),
    ensures
        final(build)@ == noted(
            noted(
                old(build)@,
                dangling_in_statements(
                    old(build)@.statements,
                    old(build)@.fragment_ids,
                    old(build)@.statements.len() as int,
                ),
            ),
            dangling_in_fragments(
                old(build)@.fragments,
                old(build)@.fragment_ids,
                old(build)@.fragments.len() as int,
            ),
        ),
        build_ok(final(build)@, bytes),
{
    let ghost before = build@;
    let ghost statements = before.statements;
    let ghost fragments = before.fragments;
    let ghost ids = before.fragment_ids;
    let ghost start = before.diagnostics;
    let mut k: usize = 0;
    assert(start + dangling_in_statements(statements, ids, 0) =~= start);
    while k < build.statements.len()
        invariant
            k <= build.statements@.len(),
            build_ok(build@, bytes),
            statements == build@.statements,
            ids == build@.fragment_ids,
            before == old(build)@,
            start == before.diagnostics,
            build@ == noted(before, dangling_in_statements(statements, ids, k as int)),
        decreases build.statements@.len() - k,
    {
        proof {
            assert(statements[k as int] == build.statements@[k as int]@);
            statement::lemma_listed_parts(statements, k as int, bytes);
            reveal(statement::parts_ok);
        }
        check_dangling_local_refids(
            &build.statements[k].includes,
            &build.fragment_ids,
            &mut build.diagnostics,
            Ghost(tags::room_of(bytes, statements[k as int].span)),
            Ghost(bytes.len() as int),
        );
        assert(build@.diagnostics =~= start + dangling_in_statements(statements, ids, k + 1));
        k += 1;
    }
    let ghost middle = build@;
    k = 0;
    assert(middle.diagnostics + dangling_in_fragments(fragments, ids, 0) =~= middle.diagnostics);
    while k < build.fragments.len()
        invariant
            k <= build.fragments@.len(),
            build_ok(build@, bytes),
            fragments == build@.fragments,
            ids == build@.fragment_ids,
            build@ == noted(middle, dangling_in_fragments(fragments, ids, k as int)),
        decreases build.fragments@.len() - k,
    {
        proof {
            assert(fragments[k as int] == build.fragments@[k as int]@);
            assert(statement::fragment_ok(fragments[k as int], bytes));
            reveal(statement::fragment_ok);
        }
        check_dangling_local_refids(
            &build.fragments[k].includes,
            &build.fragment_ids,
            &mut build.diagnostics,
            Ghost(tags::room_of(bytes, fragments[k as int].span)),
            Ghost(bytes.len() as int),
        );
        assert(build@.diagnostics =~= middle.diagnostics + dangling_in_fragments(
            fragments,
            ids,
            k + 1,
        ));
        k += 1;
    }
}

/// What [`build_mapper`] returns.
pub struct Mapped {
    pub mapper: Mapper,
    pub diagnostics: Vec<Diagnostic>,
    pub next: usize,
}

impl View for Mapped {
    type V = MappedView;

    open spec fn view(&self) -> MappedView {
        MappedView {
            mapper: self.mapper@,
            diagnostics: model::deep(self.diagnostics@),
            next: self.next as int,
        }
    }
}

/// Builds the mapper whose root starts with the token at `pos`.
#[verifier::rlimit(50)]
pub fn build_mapper(source: &str, dialect: Dialect, tokens: &Vec<XmlToken>, pos: usize) -> (r:
    Mapped)
    requires
        body::tokens_of(source.spec_bytes(), tokens@),
        pos < tokens@.len(),
    ensures
        r@ == mapped(source.spec_bytes(), dialect, model::deep(tokens@), pos as int),
        mapper_ok(r@.mapper, source.spec_bytes()),
        body::spans_in(r@.diagnostics, source.spec_bytes().len() as int),
        pos < r.next <= tokens@.len(),
{
    let ghost bytes = source.spec_bytes();
    let ghost len = bytes.len() as int;
    let ghost views = model::deep(tokens@);
    proof {
        encode_utf8_valid_utf8(source@);
    }
    proof {
        reveal(mapped);
    }
    let span = span_at(tokens, pos, Ghost(bytes));
    let root_start = span.start as usize;
    let mut build = Build {
        statements: Vec::new(),
        fragments: Vec::new(),
        result_maps: Vec::new(),
        diagnostics: Vec::new(),
        keys: Vec::new(),
        fragment_ids: Vec::new(),
        result_map_ids: Vec::new(),
    };
    proof {
        assert(model::deep(build.diagnostics@) =~= Seq::empty());
    }
    let namespace = read_spanned(source, span, "namespace", &mut build.diagnostics);
    let ghost first = empty_build(attrs::tag_attr(bytes, span, "namespace"@).diagnostics);
    proof {
        assert(build@.statements =~= first.statements);
        assert(build@.fragments =~= first.fragments);
        assert(build@.result_maps =~= first.result_maps);
        assert(build@.diagnostics =~= first.diagnostics);
        assert(build@.keys =~= first.keys);
        assert(build@.fragment_ids =~= first.fragment_ids);
        assert(build@.result_map_ids =~= first.result_map_ids);
    }
    let mut last_error: Option<u64> = None;
    let count = tokens.len();
    let mut at: usize = pos + 1;
    let ghost whole = built(bytes, dialect, views, pos + 1, root_start as int, None, first);
    let mut stopped = false;
    while !stopped
        invariant
            bytes == source.spec_bytes(),
            valid_utf8(bytes),
            len == bytes.len(),
            body::tokens_of(bytes, tokens@),
            views == model::deep(tokens@),
            pos < at <= tokens@.len(),
            root_start <= len,
            build_ok(build@, bytes),
            !stopped ==> whole == built(
                bytes,
                dialect,
                views,
                at as int,
                root_start as int,
                last_error,
                build@,
            ),
            stopped ==> whole.build == build@ && whole.next == at,
        decreases tokens@.len() - at, (if stopped {
            0int
        } else {
            1
        }),
    {
        if at >= tokens.len() {
            build.note(
                unclosed_tag(root_start, source.len(), "root element was never closed".to_owned()),
                Ghost(bytes),
            );
            stopped = true;
        } else {
            proof {
                lemma_child(bytes, dialect, views, at as int, last_error, build@);
            }
            let (next, stop) = take_child(
                &mut build,
                source,
                dialect,
                tokens,
                at,
                &mut last_error,
            );
            at = next;
            stopped = stop;
        }
    }
    let ghost end = build@;
    if dialect == Dialect::Mybatis {
        note_dangling(&mut build, Ghost(bytes));
    }
    let ghost all = build@.diagnostics;
    proof {
        order::law_document_order(bytes, dialect, views, pos as int);
        lemma_deduped_spans(all, all.len() as int, len);
    }
    dedup_diagnostics(&mut build.diagnostics);
    Mapped {
        mapper: Mapper {
            namespace,
            statements: build.statements,
            fragments: build.fragments,
            result_maps: build.result_maps,
        },
        diagnostics: build.diagnostics,
        next: at,
    }
}

/// Builds the mapper of a self-closed root.
pub fn mapper_with_namespace(
    source: &str,
    span: ByteSpan,
    diagnostics: &mut Vec<Diagnostic>,
) -> (mapper: Mapper)
    requires
        attrs::fits(source.spec_bytes()),
        tags::in_source(span, source.spec_bytes().len() as int),
        body::spans_in(model::deep(old(diagnostics)@), source.spec_bytes().len() as int),
    ensures
        mapper@ == bare_mapper(source.spec_bytes(), span),
        mapper_ok(mapper@, source.spec_bytes()),
        model::deep(final(diagnostics)@) == model::deep(old(diagnostics)@) + attrs::tag_attr(
            source.spec_bytes(),
            span,
            "namespace"@,
        ).diagnostics,
        body::spans_in(model::deep(final(diagnostics)@), source.spec_bytes().len() as int),
{
    let namespace = read_spanned(source, span, "namespace", diagnostics);
    let mapper = Mapper {
        namespace,
        statements: Vec::new(),
        fragments: Vec::new(),
        result_maps: Vec::new(),
    };
    proof {
        assert(mapper@.statements =~= Seq::empty());
        assert(mapper@.fragments =~= Seq::empty());
        assert(mapper@.result_maps =~= Seq::empty());
    }
    mapper
}

} // verus!
