//! Which diagnostics a parse can report: never [`DiagCode::Other`], and
//! [`DiagCode::DanglingRefid`] for MyBatis alone.
use crate::attrs;
use crate::body;
use crate::body::{Effect, SegmentView};
use crate::flatten;
use crate::includes;
use crate::mapper;
use crate::mapper::BuildView;
use crate::model::{
    ByteSpan, DiagCode, DiagnosticView, Dialect, IncludeRefView, Spanned, SqlFragmentView,
    SqlTextView, StatementKind, StatementView,
};
use crate::parse;
use crate::placeholder;
use crate::placeholder::{Mark, Norm, RunView};
use crate::result_map;
use crate::result_map::Columns;
use crate::sql::PieceView;
use crate::statement;
use crate::statement::StatementKey;
use crate::tags;
use crate::tags::{ActionView, CtxView, DEPTH_LIMIT};
use crate::union_walk;
use crate::wrapper;
use crate::wrapper::{AltView, KindView, BRANCH_LIMIT};
use crate::xml;
use crate::xml::{EventView, TokenView};
use vstd::prelude::*;
use vstd::string::*;
use vstd::utf8::*;

verus! {

/// Where a diagnostic comes from.
pub enum Origin {
    /// Reading a tag, a body or a text.
    Walk,
    /// A document in this dialect.
    Document(Dialect),
}

/// The codes that reading a tag, a body or a text can report.
pub open spec fn walk_code(code: DiagCode) -> bool {
    ||| code == DiagCode::UnclosedTag
    ||| code == DiagCode::UnknownElement
    ||| code == DiagCode::DuplicateAttribute
    ||| code == DiagCode::InvalidEntity
    ||| code == DiagCode::UnterminatedPlaceholder
    ||| code == DiagCode::NestingLimitExceeded
    ||| code == DiagCode::IncludeAtWrapperBoundary
}

/// The codes of an origin. A document can have any but one: a reference without
/// a fragment is a matter of MyBatis.
pub open spec fn own_code(code: DiagCode, origin: Origin) -> bool {
    match origin {
        Origin::Walk => walk_code(code),
        Origin::Document(dialect) => code != DiagCode::Other && (code == DiagCode::DanglingRefid
            ==> dialect == Dialect::Mybatis),
    }
}

/// Diagnostics of an origin.
pub open spec fn own_codes(diagnostics: Seq<DiagnosticView>, origin: Origin) -> bool {
    forall|k: int|
        0 <= k < diagnostics.len() ==> own_code((#[trigger] diagnostics[k]).code, origin)
}

// ---- attributes ---------------------------------------------------------

proof fn lemma_attr(source: Seq<u8>, span: ByteSpan, name: Seq<char>, origin: Origin)
    ensures
        own_codes(attrs::tag_attr(source, span, name).diagnostics, origin),
{
    attrs::lemma_attr_codes(source, span, name);
}

// ---- bodies -------------------------------------------------------------

proof fn lemma_skip(
    tokens: Seq<TokenView>,
    pos: int,
    depth: int,
    last_error: Option<u64>,
    origin: Origin,
)
    requires
        pos <= tokens.len(),
    ensures
        own_codes(body::skip_from(tokens, pos, depth, last_error).diagnostics, origin),
        pos <= body::skip_from(tokens, pos, depth, last_error).next <= tokens.len(),
    decreases tokens.len() - pos,
{
    if pos < tokens.len() {
        match tokens[pos].event {
            EventView::Start(_) => lemma_skip(tokens, pos + 1, depth + 1, last_error, origin),
            EventView::End => if depth > 1 {
                lemma_skip(tokens, pos + 1, depth - 1, last_error, origin);
            },
            EventView::Malformed { position, .. } => {
                lemma_skip(tokens, pos + 1, depth, Some(position), origin);
            },
            _ => lemma_skip(tokens, pos + 1, depth, last_error, origin),
        }
    }
}

proof fn lemma_capture(
    source: Seq<u8>,
    tokens: Seq<TokenView>,
    pos: int,
    tag_start: int,
    last_error: Option<u64>,
    origin: Origin,
)
    requires
        pos <= tokens.len(),
    ensures
        own_codes(
            body::capture_from(source, tokens, pos, tag_start, last_error).diagnostics,
            origin,
        ),
    decreases tokens.len() - pos,
{
    if pos < tokens.len() {
        lemma_skip(tokens, pos + 1, 1, None, origin);
        match body::token_effect(source, tokens, pos, last_error) {
            Effect::Stop { .. } => {},
            Effect::Go { last_error, next, .. } => {
                lemma_capture(source, tokens, next, tag_start, last_error, origin);
            },
        }
    }
}

proof fn lemma_subtree(source: Seq<u8>, span: ByteSpan, origin: Origin)
    ensures
        own_codes(body::subtree(source, span).diagnostics, origin),
{
    let part = source.subrange(span.start as int, span.end as int);
    let tokens = xml::xml_tokens(decode_utf8(part));
    if tokens.len() > 0 && tokens[0].event is Start {
        lemma_capture(part, tokens, 1, 0, None, origin);
        let inner = body::capture_from(part, tokens, 1, 0, None).diagnostics;
        let all = body::subtree(source, span).diagnostics;
        assert forall|k: int| 0 <= k < all.len() implies own_code(
            (#[trigger] all[k]).code,
            origin,
        ) by {
            assert(all[k].code == inner[k].code);
        }
    }
}

// ---- text ---------------------------------------------------------------

proof fn lemma_scan(
    runs: Seq<RunView>,
    merged: Seq<u8>,
    marks: Dialect,
    copy: int,
    i: int,
    st: Norm,
    origin: Origin,
)
    requires
        own_codes(st.diagnostics, origin),
    ensures
        own_codes(
            placeholder::scan_from(runs, merged, marks, copy, i, st).diagnostics,
            origin,
        ),
    decreases merged.len() - i,
{
    if i < merged.len() {
        let before = placeholder::copied(runs, merged, st, copy, i);
        match placeholder::mark_at(merged, marks, i) {
            Mark::Plain => lemma_scan(runs, merged, marks, copy, i + 1, st, origin),
            Mark::Unclosed => {},
            Mark::Doubled => {
                let next = placeholder::replaced(
                    runs,
                    before,
                    Seq::empty(),
                    merged.subrange(i, i + 1),
                    i + 2,
                );
                lemma_scan(runs, merged, marks, i + 2, i + 2, next, origin);
            },
            Mark::Hole { from, to, end, dynamic, separator } => {
                let paths = placeholder::path_entry(
                    runs,
                    merged,
                    placeholder::path_range(merged, from, to, separator),
                );
                let next = placeholder::replaced(
                    runs,
                    before,
                    paths,
                    placeholder::hole_marker(dynamic),
                    end,
                );
                if i < end <= merged.len() {
                    lemma_scan(runs, merged, marks, end, end, next, origin);
                }
            },
        }
    }
}

proof fn lemma_text(segments: Seq<SegmentView>, k: int, ctx: CtxView, origin: Origin)
    requires
        own_codes(ctx.diagnostics, origin),
    ensures
        own_codes(tags::after_text(segments, k, ctx).diagnostics, origin),
{
    let runs = tags::runs_of(segments, k, tags::run_end(segments, k));
    let merged = placeholder::merged_text(runs, runs.len() as int);
    let start = Norm {
        text: Seq::empty(),
        map: seq![(0int, placeholder::raw_in(runs, 0, 0))],
        paths: Seq::empty(),
        diagnostics: Seq::empty(),
    };
    lemma_scan(runs, merged, ctx.dialect, 0, 0, start, origin);
}

// ---- dynamic tags -------------------------------------------------------

proof fn lemma_after_read(
    source: Seq<u8>,
    ctx: CtxView,
    span: ByteSpan,
    name: Seq<char>,
    origin: Origin,
)
    requires
        own_codes(ctx.diagnostics, origin),
    ensures
        own_codes(tags::after_read(source, ctx, span, name).diagnostics, origin),
{
    lemma_attr(source, span, name, origin);
}

proof fn lemma_noted(ctx: CtxView, more: Seq<DiagnosticView>, origin: Origin)
    requires
        own_codes(ctx.diagnostics, origin),
        own_codes(more, origin),
    ensures
        own_codes(tags::noted(ctx, more).diagnostics, origin),
{
}

/// A tag that is opened reads some of its attributes one after the other.
#[verifier::rlimit(40)]
proof fn lemma_opened(
    source: Seq<u8>,
    ctx: CtxView,
    name: Seq<char>,
    span: ByteSpan,
    origin: Origin,
)
    requires
        own_codes(ctx.diagnostics, origin),
    ensures
        own_codes(tags::opened(source, ctx, name, span).ctx.diagnostics, origin),
{
    reveal(tags::opened);
    lemma_subtree(source, span, origin);
    let inner = body::subtree(source, span);
    if name == "include"@ {
        lemma_after_read(source, ctx, span, "refid"@, origin);
    } else if name == "bind"@ {
        lemma_after_read(source, ctx, span, "value"@, origin);
    } else if name == "choose"@ {
    } else if name == "if"@ {
        lemma_after_read(source, ctx, span, "test"@, origin);
    } else if name == "where"@ {
    } else if name == "set"@ {
    } else if name == "trim"@ {
        lemma_attr(source, span, "prefix"@, origin);
        lemma_attr(source, span, "suffix"@, origin);
        lemma_attr(source, span, "prefixOverrides"@, origin);
        lemma_attr(source, span, "suffixOverrides"@, origin);
        let a = tags::after_read(source, ctx, span, "prefix"@);
        lemma_after_read(source, ctx, span, "prefix"@, origin);
        let b = tags::after_read(source, a, span, "suffix"@);
        lemma_after_read(source, a, span, "suffix"@, origin);
        let c = tags::after_read(source, b, span, "prefixOverrides"@);
        lemma_after_read(source, b, span, "prefixOverrides"@, origin);
        lemma_after_read(source, c, span, "suffixOverrides"@, origin);
    } else if name == "foreach"@ {
        let a = tags::after_read(source, ctx, span, "open"@);
        lemma_after_read(source, ctx, span, "open"@, origin);
        lemma_after_read(source, a, span, "close"@, origin);
    } else if name == "dynamic"@ {
        lemma_after_read(source, ctx, span, "prepend"@, origin);
    } else if name == "iterate"@ {
        let a = tags::after_read(source, ctx, span, "open"@);
        lemma_after_read(source, ctx, span, "open"@, origin);
        let b = tags::after_read(source, a, span, "close"@);
        lemma_after_read(source, a, span, "close"@, origin);
        lemma_after_read(source, b, span, "property"@, origin);
    } else if tags::starts_with_is(name) {
        let a = tags::after_read(source, ctx, span, "property"@);
        lemma_after_read(source, ctx, span, "property"@, origin);
        let b = tags::after_read(source, a, span, "compareValue"@);
        lemma_after_read(source, a, span, "compareValue"@, origin);
        lemma_after_read(source, b, span, "compareProperty"@, origin);
        lemma_after_read(
            source,
            tags::after_condition(source, ctx, span),
            span,
            "prepend"@,
            origin,
        );
    }
}

// ---- flattening ---------------------------------------------------------

proof fn lemma_descend(
    source: Seq<u8>,
    segments: Seq<SegmentView>,
    depth: int,
    ctx: CtxView,
    origin: Origin,
)
    requires
        own_codes(ctx.diagnostics, origin),
    ensures
        flatten::descend(source, segments, depth, ctx) matches Ok((_, after)) ==> own_codes(
            after.diagnostics,
            origin,
        ),
    decreases DEPTH_LIMIT - depth, 0int, 0int,
{
    if depth < DEPTH_LIMIT {
        lemma_body(
            source,
            segments,
            0,
            seq![wrapper::no_alt()],
            depth + 1,
            ctx,
            origin,
        );
    }
}

proof fn lemma_body(
    source: Seq<u8>,
    segments: Seq<SegmentView>,
    k: int,
    acc: Seq<AltView>,
    depth: int,
    ctx: CtxView,
    origin: Origin,
)
    requires
        own_codes(ctx.diagnostics, origin),
    ensures
        flatten::body_from(source, segments, k, acc, depth, ctx) matches Ok((_, after))
            ==> own_codes(after.diagnostics, origin),
    decreases DEPTH_LIMIT - depth, 2int, segments.len() - k,
{
    if k < segments.len() {
        match segments[k] {
            SegmentView::Text { .. } => {
                tags::lemma_run_end(segments, k);
                lemma_text(segments, k, ctx, origin);
                lemma_body(
                    source,
                    segments,
                    tags::run_end(segments, k),
                    flatten::with_piece(acc, tags::text_piece(segments, k, ctx)),
                    depth,
                    tags::after_text(segments, k, ctx),
                    origin,
                );
            },
            SegmentView::Tag { name, span } => {
                let open = tags::opened(source, ctx, name, span);
                lemma_opened(source, ctx, name, span, origin);
                match open.action {
                    ActionView::Skip => {
                        lemma_body(source, segments, k + 1, acc, depth, open.ctx, origin);
                    },
                    ActionView::Add(piece) => {
                        lemma_body(
                            source,
                            segments,
                            k + 1,
                            flatten::with_piece(acc, piece),
                            depth,
                            open.ctx,
                            origin,
                        );
                    },
                    ActionView::Choose(inner) => {
                        lemma_choose(
                            source,
                            inner,
                            0,
                            Seq::empty(),
                            false,
                            depth,
                            open.ctx,
                            origin,
                        );
                        if let Ok((alts, after)) = flatten::choose_from(
                            source,
                            inner,
                            0,
                            Seq::empty(),
                            false,
                            depth,
                            open.ctx,
                        ) {
                            let pending = flatten::PendingView {
                                span,
                                kind: KindView::Identity,
                                restore: None,
                            };
                            if let Ok((all, next)) = flatten::delivered(
                                source,
                                acc,
                                pending,
                                alts,
                                after,
                            ) {
                                lemma_body(source, segments, k + 1, all, depth, next, origin);
                            }
                        }
                    },
                    ActionView::Descend { kind, restore, inner } => {
                        lemma_descend(source, inner, depth, open.ctx, origin);
                        if let Ok((alts, after)) = flatten::descend(
                            source,
                            inner,
                            depth,
                            open.ctx,
                        ) {
                            let pending = flatten::PendingView { span, kind, restore };
                            if let Ok((all, next)) = flatten::delivered(
                                source,
                                acc,
                                pending,
                                alts,
                                after,
                            ) {
                                lemma_body(source, segments, k + 1, all, depth, next, origin);
                            }
                        }
                    },
                }
            },
        }
    }
}

proof fn lemma_choose(
    source: Seq<u8>,
    segments: Seq<SegmentView>,
    k: int,
    local: Seq<AltView>,
    has_otherwise: bool,
    depth: int,
    ctx: CtxView,
    origin: Origin,
)
    requires
        own_codes(ctx.diagnostics, origin),
    ensures
        flatten::choose_from(source, segments, k, local, has_otherwise, depth, ctx) matches Ok(
            (_, after),
        ) ==> own_codes(after.diagnostics, origin),
    decreases DEPTH_LIMIT - depth, 1int, segments.len() - k,
{
    if k < segments.len() {
        match segments[k] {
            SegmentView::Text { .. } => {
                lemma_choose(source, segments, k + 1, local, has_otherwise, depth, ctx, origin);
            },
            SegmentView::Tag { name, span } => if name == "when"@ || name == "otherwise"@ {
                let read = if name == "when"@ {
                    tags::after_read(source, ctx, span, "test"@)
                } else {
                    ctx
                };
                let branch = if name == "when"@ {
                    flatten::BranchView::When(tags::attr_or_empty(source, span, "test"@))
                } else {
                    flatten::BranchView::Otherwise
                };
                lemma_after_read(source, ctx, span, "test"@, origin);
                lemma_subtree(source, span, origin);
                let inner = body::subtree(source, span);
                let start = tags::noted(read, inner.diagnostics);
                lemma_noted(read, inner.diagnostics, origin);
                lemma_descend(source, inner.segments, depth, start, origin);
                if let Ok((alts, next)) = flatten::descend(
                    source,
                    inner.segments,
                    depth,
                    start,
                ) {
                    if let Ok(all) = flatten::chosen(local, branch, alts) {
                        lemma_choose(
                            source,
                            segments,
                            k + 1,
                            all,
                            has_otherwise || name != "when"@,
                            depth,
                            next,
                            origin,
                        );
                    }
                }
            } else {
                let reported = tags::noted(ctx, seq![flatten::stray_choice(name, span)]);
                lemma_choose(
                    source,
                    segments,
                    k + 1,
                    local,
                    has_otherwise,
                    depth,
                    reported,
                    origin,
                );
            },
        }
    }
}

proof fn lemma_union(
    source: Seq<u8>,
    segments: Seq<SegmentView>,
    depth: int,
    ctx: CtxView,
    origin: Origin,
)
    requires
        own_codes(ctx.diagnostics, origin),
    ensures
        own_codes(union_walk::descend(source, segments, depth, ctx).ctx.diagnostics, origin),
    decreases DEPTH_LIMIT - depth, 0int, 0int,
{
    if depth < DEPTH_LIMIT {
        lemma_gather(source, segments, 0, Seq::empty(), depth + 1, ctx, origin);
    }
}

proof fn lemma_gather(
    source: Seq<u8>,
    segments: Seq<SegmentView>,
    k: int,
    pieces: Seq<PieceView>,
    depth: int,
    ctx: CtxView,
    origin: Origin,
)
    requires
        own_codes(ctx.diagnostics, origin),
    ensures
        own_codes(
            union_walk::gather(source, segments, k, pieces, depth, ctx).ctx.diagnostics,
            origin,
        ),
    decreases DEPTH_LIMIT - depth, 2int, segments.len() - k,
{
    if k < segments.len() {
        match segments[k] {
            SegmentView::Text { .. } => {
                tags::lemma_run_end(segments, k);
                lemma_text(segments, k, ctx, origin);
                lemma_gather(
                    source,
                    segments,
                    tags::run_end(segments, k),
                    pieces.push(tags::text_piece(segments, k, ctx)),
                    depth,
                    tags::after_text(segments, k, ctx),
                    origin,
                );
            },
            SegmentView::Tag { name, span } => if name == "include"@ {
                lemma_after_read(source, ctx, span, "refid"@, origin);
                lemma_gather(
                    source,
                    segments,
                    k + 1,
                    pieces.push(
                        PieceView::Include {
                            raw: tags::attr_or_empty(source, span, "refid"@),
                            span,
                        },
                    ),
                    depth,
                    tags::after_include(source, ctx, span),
                    origin,
                );
            } else if name == "bind"@ {
                lemma_after_read(source, ctx, span, "value"@, origin);
                lemma_gather(
                    source,
                    segments,
                    k + 1,
                    pieces,
                    depth,
                    tags::with_path(
                        tags::after_read(source, ctx, span, "value"@),
                        tags::attr_or_empty(source, span, "value"@),
                        span,
                    ),
                    origin,
                );
            } else {
                lemma_subtree(source, span, origin);
                lemma_after_read(source, ctx, span, "property"@, origin);
                let inner = body::subtree(source, span);
                let child = if name == "choose"@ {
                    let start = tags::noted(ctx, inner.diagnostics);
                    lemma_noted(ctx, inner.diagnostics, origin);
                    lemma_gather_choices(
                        source,
                        inner.segments,
                        0,
                        Seq::empty(),
                        depth,
                        start,
                        origin,
                    );
                    union_walk::gather_choices(
                        source,
                        inner.segments,
                        0,
                        Seq::empty(),
                        depth,
                        start,
                    )
                } else {
                    let start = union_walk::entered(source, ctx, name, span);
                    lemma_union(source, inner.segments, depth, start, origin);
                    union_walk::descend(source, inner.segments, depth, start)
                };
                lemma_gather(
                    source,
                    segments,
                    k + 1,
                    pieces + child.pieces,
                    depth,
                    child.ctx,
                    origin,
                );
            },
        }
    }
}

proof fn lemma_gather_choices(
    source: Seq<u8>,
    segments: Seq<SegmentView>,
    k: int,
    pieces: Seq<PieceView>,
    depth: int,
    ctx: CtxView,
    origin: Origin,
)
    requires
        own_codes(ctx.diagnostics, origin),
    ensures
        own_codes(
            union_walk::gather_choices(
                source,
                segments,
                k,
                pieces,
                depth,
                ctx,
            ).ctx.diagnostics,
            origin,
        ),
    decreases DEPTH_LIMIT - depth, 1int, segments.len() - k,
{
    if k < segments.len() {
        match segments[k] {
            SegmentView::Tag { name, span } => if name == "when"@ || name == "otherwise"@ {
                lemma_subtree(source, span, origin);
                let inner = body::subtree(source, span);
                let start = tags::noted(ctx, inner.diagnostics);
                lemma_noted(ctx, inner.diagnostics, origin);
                lemma_union(source, inner.segments, depth, start, origin);
                let child = union_walk::descend(source, inner.segments, depth, start);
                lemma_gather_choices(
                    source,
                    segments,
                    k + 1,
                    pieces + child.pieces,
                    depth,
                    child.ctx,
                    origin,
                );
            } else {
                lemma_gather_choices(source, segments, k + 1, pieces, depth, ctx, origin);
            },
            _ => lemma_gather_choices(source, segments, k + 1, pieces, depth, ctx, origin),
        }
    }
}

/// Variants are reported on by reading alone. A body with too many of them has
/// one diagnostic more that says so, and its lower bound is over the cap.
pub proof fn law_branch_limit(source: Seq<u8>, dialect: Dialect, segments: Seq<SegmentView>)
    ensures
        ({
            let flat = flatten::flat_body(source, dialect, segments);
            match flat.sql {
                SqlTextView::Variants(variants) => own_codes(flat.diagnostics, Origin::Walk) && 0
                    < variants.len() <= BRANCH_LIMIT,
                SqlTextView::Union { branch_count, .. } => {
                    &&& flat.diagnostics.len() > 0
                    &&& flat.diagnostics.last().code == DiagCode::BranchLimitExceeded
                    &&& own_codes(flat.diagnostics.drop_last(), Origin::Walk)
                    &&& branch_count > BRANCH_LIMIT
                },
                SqlTextView::Unrecognized => false,
            }
        }),
{
    lemma_descend(source, segments, 0, tags::fresh_ctx(dialect), Origin::Walk);
    lemma_union(source, segments, 0, tags::fresh_ctx(dialect), Origin::Walk);
    flatten::lemma_alts_count(source, segments, 0, tags::fresh_ctx(dialect));
    let flat = flatten::flat_body(source, dialect, segments);
    if let SqlTextView::Union { .. } = flat.sql {
        let all = union_walk::descend(source, segments, 0, tags::fresh_ctx(dialect));
        assert(flat.diagnostics.drop_last() =~= all.ctx.diagnostics);
    }
}

proof fn lemma_flat_body(source: Seq<u8>, dialect: Dialect, segments: Seq<SegmentView>)
    ensures
        own_codes(
            flatten::flat_body(source, dialect, segments).diagnostics,
            Origin::Document(dialect),
        ),
{
    lemma_descend(source, segments, 0, tags::fresh_ctx(dialect), Origin::Document(dialect));
    lemma_union(source, segments, 0, tags::fresh_ctx(dialect), Origin::Document(dialect));
}

// ---- result maps --------------------------------------------------------

proof fn lemma_nested(
    source: Seq<u8>,
    segments: Seq<SegmentView>,
    depth: int,
    columns: Columns,
    dialect: Dialect,
)
    requires
        own_codes(columns.diagnostics, Origin::Document(dialect)),
    ensures
        own_codes(
            result_map::nested(source, segments, depth, columns).diagnostics,
            Origin::Document(dialect),
        ),
    decreases DEPTH_LIMIT - depth, 2int, 0int,
{
    if depth < DEPTH_LIMIT {
        lemma_collected(source, segments, 0, depth, columns, dialect);
    }
}

proof fn lemma_columns(columns: Columns, more: Seq<DiagnosticView>, dialect: Dialect)
    requires
        own_codes(columns.diagnostics, Origin::Document(dialect)),
        own_codes(more, Origin::Document(dialect)),
    ensures
        own_codes(result_map::noted(columns, more).diagnostics, Origin::Document(dialect)),
{
}

proof fn lemma_collected(
    source: Seq<u8>,
    segments: Seq<SegmentView>,
    k: int,
    depth: int,
    columns: Columns,
    dialect: Dialect,
)
    requires
        own_codes(columns.diagnostics, Origin::Document(dialect)),
        depth < DEPTH_LIMIT,
    ensures
        own_codes(
            result_map::collected(source, segments, k, depth, columns).diagnostics,
            Origin::Document(dialect),
        ),
    decreases DEPTH_LIMIT - depth, 1int, segments.len() - k,
{
    if k < segments.len() {
        let next = match segments[k] {
            SegmentView::Tag { name, span } => {
                let inner = body::subtree(source, span);
                lemma_subtree(source, span, Origin::Document(dialect));
                lemma_columns(columns, inner.diagnostics, dialect);
                let noted = result_map::noted(columns, inner.diagnostics);
                if name == "id"@ || name == "result"@ {
                    lemma_attr(source, span, "column"@, Origin::Document(dialect));
                    lemma_attr(source, span, "property"@, Origin::Document(dialect));
                    result_map::after_column(source, columns, span)
                } else if name == "association"@ || name == "collection"@ {
                    lemma_nested(source, inner.segments, depth + 1, noted, dialect);
                    result_map::nested(source, inner.segments, depth + 1, noted)
                } else if name == "discriminator"@ {
                    lemma_cases(source, inner.segments, 0, depth, noted, dialect);
                    result_map::cases(source, inner.segments, 0, depth, noted)
                } else {
                    columns
                }
            },
            _ => columns,
        };
        lemma_collected(source, segments, k + 1, depth, next, dialect);
    }
}

proof fn lemma_cases(
    source: Seq<u8>,
    segments: Seq<SegmentView>,
    k: int,
    depth: int,
    columns: Columns,
    dialect: Dialect,
)
    requires
        own_codes(columns.diagnostics, Origin::Document(dialect)),
        depth < DEPTH_LIMIT,
    ensures
        own_codes(
            result_map::cases(source, segments, k, depth, columns).diagnostics,
            Origin::Document(dialect),
        ),
    decreases DEPTH_LIMIT - depth, 0int, segments.len() - k,
{
    if k < segments.len() {
        let next = match segments[k] {
            SegmentView::Tag { name, span } => if name == "case"@ {
                let inner = body::subtree(source, span);
                lemma_subtree(source, span, Origin::Document(dialect));
                lemma_columns(columns, inner.diagnostics, dialect);
                let noted = result_map::noted(columns, inner.diagnostics);
                lemma_nested(source, inner.segments, depth + 1, noted, dialect);
                result_map::nested(source, inner.segments, depth + 1, noted)
            } else {
                columns
            },
            _ => columns,
        };
        lemma_cases(source, segments, k + 1, depth, next, dialect);
    }
}

// ---- statements ---------------------------------------------------------

proof fn lemma_lifted(source: Seq<u8>, dialect: Dialect, segments: Seq<SegmentView>, n: int)
    requires
        n <= segments.len(),
    ensures
        own_codes(includes::lifted(source, dialect, segments, n).diagnostics, Origin::Document(dialect)),
    decreases n,
{
    if n > 0 {
        lemma_lifted(source, dialect, segments, n - 1);
        if let SegmentView::Tag { span, .. } = segments[n - 1] {
            lemma_attr(source, span, "refid"@, Origin::Document(dialect));
        }
    }
}

proof fn lemma_body_diagnostics(source: Seq<u8>, dialect: Dialect, segments: Seq<SegmentView>)
    ensures
        own_codes(statement::body_diagnostics(source, dialect, segments), Origin::Document(dialect)),
{
    lemma_lifted(source, dialect, segments, segments.len() as int);
    lemma_flat_body(source, dialect, segments);
}

proof fn lemma_header(
    source: Seq<u8>,
    span: ByteSpan,
    keys: Seq<StatementKey>,
    dialect: Dialect,
)
    ensures
        own_codes(statement::header_diagnostics(source, span, keys), Origin::Document(dialect)),
{
    lemma_attr(source, span, "id"@, Origin::Document(dialect));
    lemma_attr(source, span, "databaseId"@, Origin::Document(dialect));
    lemma_attr(source, span, "parameterType"@, Origin::Document(dialect));
    lemma_attr(source, span, "parameterClass"@, Origin::Document(dialect));
    lemma_attr(source, span, "resultType"@, Origin::Document(dialect));
    lemma_attr(source, span, "resultClass"@, Origin::Document(dialect));
    lemma_attr(source, span, "resultMap"@, Origin::Document(dialect));
}

proof fn lemma_select_key(
    source: Seq<u8>,
    dialect: Dialect,
    parent: StatementView,
    span: ByteSpan,
    keys: Seq<StatementKey>,
)
    ensures
        own_codes(
            statement::select_key_diagnostics(source, dialect, parent, span, keys),
            Origin::Document(dialect),
        ),
{
    reveal(statement::select_key_diagnostics);
    let inner = body::subtree(source, span).segments;
    lemma_attr(source, span, "resultType"@, Origin::Document(dialect));
    lemma_attr(source, span, "resultClass"@, Origin::Document(dialect));
    lemma_attr(source, span, "databaseId"@, Origin::Document(dialect));
    lemma_subtree(source, span, Origin::Document(dialect));
    lemma_lifted(source, dialect, inner, inner.len() as int);
    lemma_flat_body(source, dialect, inner);
}

proof fn lemma_split(
    source: Seq<u8>,
    dialect: Dialect,
    parent: StatementView,
    segments: Seq<SegmentView>,
    keys: Seq<StatementKey>,
    n: int,
)
    requires
        n <= segments.len(),
    ensures
        own_codes(
            statement::split_keys(source, dialect, parent, segments, keys, n).diagnostics,
            Origin::Document(dialect),
        ),
    decreases n,
{
    if n > 0 {
        lemma_split(source, dialect, parent, segments, keys, n - 1);
        let before = statement::split_keys(source, dialect, parent, segments, keys, n - 1);
        lemma_select_key(
            source,
            dialect,
            parent,
            body::segment_span(segments[n - 1]),
            before.keys,
        );
    }
}

proof fn lemma_misplaced(segments: Seq<SegmentView>, n: int, dialect: Dialect)
    ensures
        own_codes(statement::misplaced_keys(segments, n), Origin::Document(dialect)),
    decreases n,
{
    if n > 0 {
        lemma_misplaced(segments, n - 1, dialect);
    }
}

// ---- the mapper ---------------------------------------------------------

proof fn lemma_stray(source: Seq<u8>, tokens: Seq<TokenView>, pos: int, dialect: Dialect)
    ensures
        own_codes(mapper::stray_text(source, tokens, pos), Origin::Document(dialect)),
{
    reveal(mapper::stray_text);
}

proof fn lemma_statement(
    source: Seq<u8>,
    dialect: Dialect,
    tokens: Seq<TokenView>,
    pos: int,
    kind: StatementKind,
    build: BuildView,
)
    requires
        0 <= pos < tokens.len(),
        own_codes(build.diagnostics, Origin::Document(dialect)),
    ensures
        own_codes(
            mapper::after_statement(
                source,
                dialect,
                tokens,
                pos,
                kind,
                build,
            ).build.diagnostics,
            Origin::Document(dialect),
        ),
{
    let span = mapper::token_span(tokens, pos);
    let head = statement::header(source, kind, span);
    let capture = mapper::captured(source, tokens, pos);
    let keys = statement::keys_after_header(source, span, build.keys);
    let n = capture.segments.len() as int;
    let split = statement::split_keys(source, dialect, head, capture.segments, keys, n);
    lemma_header(source, span, build.keys, dialect);
    lemma_capture(source, tokens, pos + 1, xml::token_start(tokens, pos), None, Origin::Document(dialect));
    lemma_split(source, dialect, head, capture.segments, keys, n);
    lemma_body_diagnostics(source, dialect, split.rest);
}

proof fn lemma_fragment(
    source: Seq<u8>,
    dialect: Dialect,
    tokens: Seq<TokenView>,
    pos: int,
    build: BuildView,
)
    requires
        0 <= pos < tokens.len(),
        own_codes(build.diagnostics, Origin::Document(dialect)),
    ensures
        own_codes(
            mapper::after_fragment(source, dialect, tokens, pos, build).build.diagnostics,
            Origin::Document(dialect),
        ),
{
    let span = mapper::token_span(tokens, pos);
    let capture = mapper::captured(source, tokens, pos);
    let n = capture.segments.len() as int;
    lemma_attr(source, span, "id"@, Origin::Document(dialect));
    lemma_capture(source, tokens, pos + 1, xml::token_start(tokens, pos), None, Origin::Document(dialect));
    lemma_misplaced(capture.segments, n, dialect);
    lemma_body_diagnostics(source, dialect, statement::without_keys(capture.segments, n));
}

proof fn lemma_result_map_header(
    source: Seq<u8>,
    span: ByteSpan,
    ids: Seq<Seq<char>>,
    dialect: Dialect,
)
    ensures
        own_codes(statement::result_map_diagnostics(source, span, ids), Origin::Document(dialect)),
{
    lemma_attr(source, span, "id"@, Origin::Document(dialect));
    lemma_attr(source, span, "type"@, Origin::Document(dialect));
    lemma_attr(source, span, "class"@, Origin::Document(dialect));
    lemma_attr(source, span, "extends"@, Origin::Document(dialect));
}

proof fn lemma_result_map(
    source: Seq<u8>,
    tokens: Seq<TokenView>,
    pos: int,
    build: BuildView,
    dialect: Dialect,
)
    requires
        0 <= pos < tokens.len(),
        own_codes(build.diagnostics, Origin::Document(dialect)),
    ensures
        own_codes(
            mapper::after_result_map(source, tokens, pos, build).build.diagnostics,
            Origin::Document(dialect),
        ),
{
    let span = mapper::token_span(tokens, pos);
    let capture = mapper::captured(source, tokens, pos);
    lemma_result_map_header(source, span, build.result_map_ids, dialect);
    lemma_capture(source, tokens, pos + 1, xml::token_start(tokens, pos), None, Origin::Document(dialect));
    let seen = build.diagnostics + statement::result_map_diagnostics(
        source,
        span,
        build.result_map_ids,
    ) + capture.diagnostics;
    assert(own_codes(seen, Origin::Document(dialect)));
    lemma_nested(
        source,
        capture.segments,
        0,
        Columns { mappings: Seq::empty(), diagnostics: seen },
        dialect,
    );
}

proof fn lemma_child(
    source: Seq<u8>,
    dialect: Dialect,
    tokens: Seq<TokenView>,
    pos: int,
    last_error: Option<u64>,
    build: BuildView,
)
    requires
        0 <= pos < tokens.len(),
        own_codes(build.diagnostics, Origin::Document(dialect)),
    ensures
        own_codes(
            mapper::after_child(
                source,
                dialect,
                tokens,
                pos,
                last_error,
                build,
            ).build.diagnostics,
            Origin::Document(dialect),
        ),
{
    let span = mapper::token_span(tokens, pos);
    match tokens[pos].event {
        EventView::Start(name) => {
            if let Some(kind) = statement::kind_of(name) {
                lemma_statement(source, dialect, tokens, pos, kind, build);
            } else if name == "sql"@ {
                lemma_fragment(source, dialect, tokens, pos, build);
            } else if name == "resultMap"@ {
                lemma_result_map(source, tokens, pos, build, dialect);
            } else {
                lemma_skip(tokens, pos + 1, 1, None, Origin::Document(dialect));
            }
        },
        EventView::Empty(name) => {
            lemma_header(source, span, build.keys, dialect);
            lemma_attr(source, span, "id"@, Origin::Document(dialect));
            lemma_result_map_header(source, span, build.result_map_ids, dialect);
        },
        _ => {
            lemma_stray(source, tokens, pos, dialect);
        },
    }
}

proof fn lemma_built(
    source: Seq<u8>,
    dialect: Dialect,
    tokens: Seq<TokenView>,
    pos: int,
    root_start: int,
    last_error: Option<u64>,
    build: BuildView,
)
    requires
        0 <= pos <= tokens.len(),
        own_codes(build.diagnostics, Origin::Document(dialect)),
        attrs::fits(source),
        xml::well_placed(source, tokens),
    ensures
        own_codes(
            mapper::built(
                source,
                dialect,
                tokens,
                pos,
                root_start,
                last_error,
                build,
            ).build.diagnostics,
            Origin::Document(dialect),
        ),
    decreases tokens.len() - pos,
{
    if pos < tokens.len() {
        lemma_child(source, dialect, tokens, pos, last_error, build);
        mapper::lemma_child(source, dialect, tokens, pos, last_error, build);
        let child = mapper::after_child(source, dialect, tokens, pos, last_error, build);
        if !child.stop {
            lemma_built(
                source,
                dialect,
                tokens,
                child.next,
                root_start,
                mapper::error_after(tokens, pos, last_error),
                child.build,
            );
        }
    }
}

proof fn lemma_dangling(
    list: Seq<Spanned<IncludeRefView>>,
    ids: Seq<Seq<char>>,
    n: int,
)
    ensures
        own_codes(includes::dangling(list, ids, n), Origin::Document(Dialect::Mybatis)),
    decreases n,
{
    if n > 0 {
        lemma_dangling(list, ids, n - 1);
    }
}

proof fn lemma_dangling_statements(
    statements: Seq<StatementView>,
    ids: Seq<Seq<char>>,
    n: int,
)
    ensures
        own_codes(mapper::dangling_in_statements(statements, ids, n), Origin::Document(Dialect::Mybatis)),
    decreases n,
{
    if n > 0 {
        lemma_dangling_statements(statements, ids, n - 1);
        let list = statements[n - 1].includes;
        lemma_dangling(list, ids, list.len() as int);
    }
}

proof fn lemma_dangling_fragments(fragments: Seq<SqlFragmentView>, ids: Seq<Seq<char>>, n: int)
    ensures
        own_codes(mapper::dangling_in_fragments(fragments, ids, n), Origin::Document(Dialect::Mybatis)),
    decreases n,
{
    if n > 0 {
        lemma_dangling_fragments(fragments, ids, n - 1);
        let list = fragments[n - 1].includes;
        lemma_dangling(list, ids, list.len() as int);
    }
}

proof fn lemma_deduped(diagnostics: Seq<DiagnosticView>, n: int, dialect: Dialect)
    requires
        0 <= n <= diagnostics.len(),
        own_codes(diagnostics, Origin::Document(dialect)),
    ensures
        own_codes(mapper::deduped(diagnostics, n), Origin::Document(dialect)),
    decreases n,
{
    if n > 0 {
        lemma_deduped(diagnostics, n - 1, dialect);
    }
}

/// A mapper is reported on with the codes of its dialect.
pub proof fn law_mapper_codes(
    source: Seq<u8>,
    dialect: Dialect,
    tokens: Seq<TokenView>,
    pos: int,
)
    requires
        attrs::fits(source),
        xml::well_placed(source, tokens),
        0 <= pos < tokens.len(),
    ensures
        own_codes(mapper::mapped(source, dialect, tokens, pos).diagnostics, Origin::Document(dialect)),
{
    reveal(mapper::mapped);
    let span = mapper::token_span(tokens, pos);
    let start = xml::token_start(tokens, pos);
    lemma_attr(source, span, "namespace"@, Origin::Document(dialect));
    let first = mapper::empty_build(attrs::tag_attr(source, span, "namespace"@).diagnostics);
    lemma_built(source, dialect, tokens, pos + 1, start, None, first);
    let build = mapper::built(source, dialect, tokens, pos + 1, start, None, first).build;
    let all = if dialect == Dialect::Mybatis {
        let ids = build.fragment_ids;
        lemma_dangling_statements(build.statements, ids, build.statements.len() as int);
        lemma_dangling_fragments(build.fragments, ids, build.fragments.len() as int);
        build.diagnostics + mapper::dangling_in_statements(
            build.statements,
            ids,
            build.statements.len() as int,
        ) + mapper::dangling_in_fragments(build.fragments, ids, build.fragments.len() as int)
    } else {
        build.diagnostics
    };
    assert(own_codes(all, Origin::Document(dialect)));
    lemma_deduped(all, all.len() as int, dialect);
}

// ---- the document -------------------------------------------------------

proof fn lemma_trailing(
    source: Seq<u8>,
    tokens: Seq<TokenView>,
    pos: int,
    last_error: Option<u64>,
    dialect: Dialect,
)
    ensures
        own_codes(parse::trailing(source, tokens, pos, last_error), Origin::Document(dialect)),
    decreases tokens.len() - pos,
{
    if pos < tokens.len() && !parse::is_stuck(tokens, pos, last_error) {
        lemma_stray(source, tokens, pos, dialect);
        lemma_trailing(
            source,
            tokens,
            pos + 1,
            mapper::error_after(tokens, pos, last_error),
            dialect,
        );
    }
}

proof fn lemma_parsed_from(
    source: Seq<u8>,
    tokens: Seq<TokenView>,
    pos: int,
    last_error: Option<u64>,
    diagnostics: Seq<DiagnosticView>,
)
    requires
        attrs::fits(source),
        xml::well_placed(source, tokens),
        0 <= pos <= tokens.len(),
        own_codes(diagnostics, Origin::Document(Dialect::Unknown)),
    ensures
        ({
            let r = parse::parsed_from(source, tokens, pos, last_error, diagnostics);
            own_codes(r.diagnostics, Origin::Document(r.dialect))
        }),
    decreases tokens.len() - pos,
{
    if pos < tokens.len() {
        match tokens[pos].event {
            EventView::Start(name) => {
                let dialect = parse::dialect_of(name);
                law_mapper_codes(source, dialect, tokens, pos);
                let next = mapper::mapped(source, dialect, tokens, pos).next;
                lemma_trailing(source, tokens, next, None, dialect);
            },
            EventView::Empty(name) => {
                let dialect = parse::dialect_of(name);
                let span = mapper::token_span(tokens, pos);
                lemma_attr(source, span, "namespace"@, Origin::Document(dialect));
                lemma_trailing(source, tokens, pos + 1, None, dialect);
            },
            EventView::Malformed { orphan_close, message, position } => {
                lemma_parsed_from(
                    source,
                    tokens,
                    pos + 1,
                    Some(position),
                    diagnostics.push(body::recovery(orphan_close, message, position)),
                );
            },
            _ => {
                lemma_stray(source, tokens, pos, Dialect::Unknown);
                lemma_parsed_from(
                    source,
                    tokens,
                    pos + 1,
                    last_error,
                    diagnostics + mapper::stray_text(source, tokens, pos),
                );
            },
        }
    }
}

/// A document is reported on with the codes of its dialect: a reference without
/// a fragment is never reported for iBatis, and no code is made up.
pub proof fn law_document_codes(source: Seq<u8>, tokens: Seq<TokenView>)
    requires
        attrs::fits(source),
        xml::well_placed(source, tokens),
    ensures
        ({
            let r = parse::parsed_from(source, tokens, 0, None, Seq::empty());
            own_codes(r.diagnostics, Origin::Document(r.dialect))
        }),
{
    lemma_parsed_from(source, tokens, 0, None, Seq::empty());
}

} // verus!
