//! An `<include>` at either end of a `<where>`, `<set>` or `<trim>` is reported
//! wherever the wrapper stands in a body, and whether the body comes out as its
//! variants or as the text of all branches.
use crate::body;
use crate::body::SegmentView;
use crate::flatten;
use crate::model::{ByteSpan, DiagnosticView, Dialect};
use crate::sql::PieceView;
use crate::tags;
use crate::tags::{ActionView, CtxView, DEPTH_LIMIT};
use crate::union_walk;
use crate::wrapper;
use crate::wrapper::{AltView, KindView};
use vstd::prelude::*;
use vstd::string::*;

verus! {

// ---- the tags of a body -------------------------------------------------

/// The tag `name` at `at` stands in a body, at any depth that is looked into.
pub open spec fn holds(
    source: Seq<u8>,
    segments: Seq<SegmentView>,
    depth: int,
    name: Seq<char>,
    at: ByteSpan,
) -> bool
    decreases DEPTH_LIMIT - depth, 0int, 0int,
{
    depth < DEPTH_LIMIT && body_holds(source, segments, 0, depth + 1, name, at)
}

/// The same, of the segments from `k` on. The children of a `<choose>` that are
/// looked into are its branches; nothing stands in an `<include>` or a `<bind>`.
pub open spec fn body_holds(
    source: Seq<u8>,
    segments: Seq<SegmentView>,
    k: int,
    depth: int,
    name: Seq<char>,
    at: ByteSpan,
) -> bool
    decreases DEPTH_LIMIT - depth, 2int, segments.len() - k,
{
    if k >= segments.len() {
        false
    } else {
        (match segments[k] {
            SegmentView::Tag { name: own, span } => {
                let inner = body::subtree(source, span).segments;
                if own == "include"@ || own == "bind"@ {
                    false
                } else if own == "choose"@ {
                    branches_hold(source, inner, 0, depth, name, at)
                } else {
                    own == name && span == at || holds(source, inner, depth, name, at)
                }
            },
            SegmentView::Text { .. } => false,
        }) || body_holds(source, segments, k + 1, depth, name, at)
    }
}

/// The same, of the branches of a `<choose>` from `k` on.
pub open spec fn branches_hold(
    source: Seq<u8>,
    segments: Seq<SegmentView>,
    k: int,
    depth: int,
    name: Seq<char>,
    at: ByteSpan,
) -> bool
    decreases DEPTH_LIMIT - depth, 1int, segments.len() - k,
{
    if k >= segments.len() {
        false
    } else {
        (match segments[k] {
            SegmentView::Tag { name: own, span } => (own == "when"@ || own == "otherwise"@)
                && holds(source, body::subtree(source, span).segments, depth, name, at),
            SegmentView::Text { .. } => false,
        }) || branches_hold(source, segments, k + 1, depth, name, at)
    }
}

/// No tag stands in a run of text.
proof fn lemma_text(
    source: Seq<u8>,
    segments: Seq<SegmentView>,
    k: int,
    depth: int,
    name: Seq<char>,
    at: ByteSpan,
)
    requires
        k <= segments.len(),
    ensures
        body_holds(source, segments, k, depth, name, at) == body_holds(
            source,
            segments,
            tags::run_end(segments, k),
            depth,
            name,
            at,
        ),
    decreases segments.len() - k,
{
    if k < segments.len() && segments[k] is Text {
        lemma_text(source, segments, k + 1, depth, name, at);
    }
}

// ---- what a record keeps ------------------------------------------------

pub open spec fn has(ctx: CtxView, d: DiagnosticView) -> bool {
    ctx.diagnostics.contains(d)
}

proof fn lemma_either(a: Seq<DiagnosticView>, b: Seq<DiagnosticView>, d: DiagnosticView)
    requires
        a.contains(d) || b.contains(d),
    ensures
        (a + b).contains(d),
{
    if a.contains(d) {
        let i = choose|i: int| 0 <= i < a.len() && a[i] == d;
        assert((a + b)[i] == d);
    } else {
        let i = choose|i: int| 0 <= i < b.len() && b[i] == d;
        assert((a + b)[a.len() + i] == d);
    }
}

proof fn lemma_noted(ctx: CtxView, more: Seq<DiagnosticView>, d: DiagnosticView)
    ensures
        has(ctx, d) || more.contains(d) ==> has(tags::noted(ctx, more), d),
{
    if has(ctx, d) || more.contains(d) {
        lemma_either(ctx.diagnostics, more, d);
    }
}

proof fn lemma_read(
    source: Seq<u8>,
    ctx: CtxView,
    span: ByteSpan,
    name: Seq<char>,
    d: DiagnosticView,
)
    ensures
        has(ctx, d) ==> has(tags::after_read(source, ctx, span, name), d),
{
    lemma_noted(ctx, crate::attrs::tag_attr(source, span, name).diagnostics, d);
}

/// Opening a tag keeps the record, and a wrapper adds what its ends call for.
proof fn lemma_opened(
    source: Seq<u8>,
    ctx: CtxView,
    name: Seq<char>,
    span: ByteSpan,
    d: DiagnosticView,
)
    ensures
        has(ctx, d) ==> has(tags::opened(source, ctx, name, span).ctx, d),
        tags::is_wrapper(name) && tags::boundaries(
            name,
            body::subtree(source, span).segments,
        ).contains(d) ==> has(tags::opened(source, ctx, name, span).ctx, d),
{
    reveal(tags::opened);
    lemma_names();
    let inner = body::subtree(source, span);
    let ends = tags::boundaries(name, inner.segments);
    if name == "include"@ {
        lemma_read(source, ctx, span, "refid"@, d);
    } else if name == "bind"@ {
        lemma_read(source, ctx, span, "value"@, d);
    } else if name == "choose"@ {
        lemma_noted(ctx, inner.diagnostics, d);
    } else if name == "if"@ {
        lemma_read(source, ctx, span, "test"@, d);
        lemma_noted(tags::after_read(source, ctx, span, "test"@), inner.diagnostics, d);
    } else if name == "where"@ || name == "set"@ {
        lemma_noted(ctx, inner.diagnostics, d);
        lemma_noted(tags::noted(ctx, inner.diagnostics), ends, d);
    } else if name == "trim"@ {
        let a = tags::after_read(source, ctx, span, "prefix"@);
        let b = tags::after_read(source, a, span, "suffix"@);
        let c = tags::after_read(source, b, span, "prefixOverrides"@);
        let e = tags::after_read(source, c, span, "suffixOverrides"@);
        lemma_read(source, ctx, span, "prefix"@, d);
        lemma_read(source, a, span, "suffix"@, d);
        lemma_read(source, b, span, "prefixOverrides"@, d);
        lemma_read(source, c, span, "suffixOverrides"@, d);
        lemma_noted(e, inner.diagnostics, d);
        lemma_noted(tags::noted(e, inner.diagnostics), ends, d);
    } else if name == "foreach"@ {
        let a = tags::after_read(source, ctx, span, "open"@);
        lemma_read(source, ctx, span, "open"@, d);
        lemma_read(source, a, span, "close"@, d);
        lemma_noted(tags::after_read(source, a, span, "close"@), inner.diagnostics, d);
    } else if name == "dynamic"@ {
        lemma_read(source, ctx, span, "prepend"@, d);
        lemma_noted(tags::after_read(source, ctx, span, "prepend"@), inner.diagnostics, d);
    } else if name == "iterate"@ {
        let a = tags::after_read(source, ctx, span, "open"@);
        let b = tags::after_read(source, a, span, "close"@);
        let c = tags::after_read(source, b, span, "property"@);
        lemma_read(source, ctx, span, "open"@, d);
        lemma_read(source, a, span, "close"@, d);
        lemma_read(source, b, span, "property"@, d);
        lemma_noted(
            tags::with_path(c, tags::attr_or_empty(source, span, "property"@), span),
            inner.diagnostics,
            d,
        );
    } else if tags::starts_with_is(name) {
        let a = tags::after_read(source, ctx, span, "property"@);
        let b = tags::after_read(source, a, span, "compareValue"@);
        let c = tags::after_condition(source, ctx, span);
        lemma_read(source, ctx, span, "property"@, d);
        lemma_read(source, a, span, "compareValue"@, d);
        lemma_read(source, b, span, "compareProperty"@, d);
        lemma_read(source, c, span, "prepend"@, d);
        lemma_noted(tags::after_read(source, c, span, "prepend"@), inner.diagnostics, d);
    } else {
        let unknown = seq![tags::unknown_tag(name, span)];
        lemma_noted(ctx, unknown, d);
        let reported = if !tags::is_ignorable(name) && !ctx.inside_unknown {
            tags::noted(ctx, unknown)
        } else {
            ctx
        };
        let inside = CtxView {
            inside_unknown: ctx.inside_unknown || !tags::is_ignorable(name),
            ..reported
        };
        lemma_noted(inside, inner.diagnostics, d);
    }
}

/// The names of the wrappers are none of the names that come before them.
proof fn lemma_names()
    ensures
        !tags::is_wrapper("include"@),
        !tags::is_wrapper("bind"@),
        !tags::is_wrapper("choose"@),
        !tags::is_wrapper("if"@),
        !tags::is_wrapper("iterate"@),
        "trim"@ != "where"@,
        "trim"@ != "set"@,
{
    reveal_strlit("include");
    reveal_strlit("bind");
    reveal_strlit("choose");
    reveal_strlit("if");
    reveal_strlit("iterate");
    reveal_strlit("where");
    reveal_strlit("set");
    reveal_strlit("trim");
    assert("include"@.len() == 7 && "choose"@.len() == 6 && "iterate"@.len() == 7);
    assert("if"@.len() == 2 && "bind"@.len() == 4);
    assert("where"@.len() == 5 && "set"@.len() == 3 && "trim"@.len() == 4);
    assert("trim"@[0] == 't' && "bind"@[0] == 'b');
}

// ---- variants -----------------------------------------------------------

/// `d` is what the wrapper `name` at `at` calls for.
pub open spec fn called_for(
    source: Seq<u8>,
    name: Seq<char>,
    at: ByteSpan,
    d: DiagnosticView,
) -> bool {
    tags::is_wrapper(name) && tags::boundaries(name, body::subtree(source, at).segments).contains(
        d,
    )
}

proof fn lemma_descend(
    source: Seq<u8>,
    segments: Seq<SegmentView>,
    depth: int,
    ctx: CtxView,
    name: Seq<char>,
    at: ByteSpan,
    d: DiagnosticView,
)
    requires
        called_for(source, name, at, d),
    ensures
        flatten::descend(source, segments, depth, ctx) matches Ok((_, after)) ==> (has(ctx, d)
            || holds(source, segments, depth, name, at) ==> has(after, d)),
    decreases DEPTH_LIMIT - depth, 0int, 0int,
{
    if depth < DEPTH_LIMIT {
        let first = seq![wrapper::no_alt()];
        lemma_body(source, segments, 0, first, depth + 1, ctx, name, at, d);
    } else {
        lemma_noted(ctx, seq![flatten::nesting_limit()], d);
    }
}

proof fn lemma_body(
    source: Seq<u8>,
    segments: Seq<SegmentView>,
    k: int,
    acc: Seq<AltView>,
    depth: int,
    ctx: CtxView,
    name: Seq<char>,
    at: ByteSpan,
    d: DiagnosticView,
)
    requires
        called_for(source, name, at, d),
    ensures
        flatten::body_from(source, segments, k, acc, depth, ctx) matches Ok((_, after)) ==> (has(
            ctx,
            d,
        ) || body_holds(source, segments, k, depth, name, at) ==> has(after, d)),
    decreases DEPTH_LIMIT - depth, 2int, segments.len() - k,
{
    if k < segments.len() {
        match segments[k] {
            SegmentView::Text { .. } => {
                tags::lemma_run_end(segments, k);
                lemma_text(source, segments, k, depth, name, at);
                let norm = tags::norm_at(segments, k, ctx.dialect);
                if has(ctx, d) {
                    lemma_either(ctx.diagnostics, norm.diagnostics, d);
                }
                lemma_body(
                    source,
                    segments,
                    tags::run_end(segments, k),
                    flatten::with_piece(acc, tags::text_piece(segments, k, ctx)),
                    depth,
                    tags::after_text(segments, k, ctx),
                    name,
                    at,
                    d,
                );
            },
            SegmentView::Tag { name: own, span } => {
                let open = tags::opened(source, ctx, own, span);
                lemma_opened(source, ctx, own, span, d);
                lemma_actions(source, ctx, own, span);
                match open.action {
                    ActionView::Skip => {
                        lemma_body(source, segments, k + 1, acc, depth, open.ctx, name, at, d);
                    },
                    ActionView::Add(piece) => {
                        let all = flatten::with_piece(acc, piece);
                        lemma_body(source, segments, k + 1, all, depth, open.ctx, name, at, d);
                    },
                    ActionView::Choose(inner) => {
                        lemma_choose(
                            source,
                            inner,
                            0,
                            Seq::empty(),
                            false,
                            depth,
                            open.ctx,
                            name,
                            at,
                            d,
                        );
                        if let Ok((alts, after)) = flatten::choose_from(
                            source,
                            inner,
                            0,
                            Seq::empty(),
                            false,
                            depth,
                            open.ctx,
                        ) {
                            let pending = flatten::PendingView {
                                span,
                                kind: KindView::Identity,
                                restore: None,
                            };
                            if let Ok((all, next)) = flatten::delivered(
                                source,
                                acc,
                                pending,
                                alts,
                                after,
                            ) {
                                lemma_body(source, segments, k + 1, all, depth, next, name, at, d);
                            }
                        }
                    },
                    ActionView::Descend { kind, restore, inner } => {
                        lemma_descend(source, inner, depth, open.ctx, name, at, d);
                        if let Ok((alts, after)) = flatten::descend(
                            source,
                            inner,
                            depth,
                            open.ctx,
                        ) {
                            let pending = flatten::PendingView { span, kind, restore };
                            if let Ok((all, next)) = flatten::delivered(
                                source,
                                acc,
                                pending,
                                alts,
                                after,
                            ) {
                                lemma_body(source, segments, k + 1, all, depth, next, name, at, d);
                            }
                        }
                    },
                }
            },
        }
    }
}

/// Which tags are gone down into, and how.
proof fn lemma_actions(source: Seq<u8>, ctx: CtxView, name: Seq<char>, span: ByteSpan)
    ensures
        match tags::opened(source, ctx, name, span).action {
            ActionView::Skip => name == "bind"@,
            ActionView::Add(_) => name == "include"@,
            ActionView::Choose(inner) => name == "choose"@ && inner == body::subtree(
                source,
                span,
            ).segments,
            ActionView::Descend { inner, .. } => name != "include"@ && name != "bind"@ && name
                != "choose"@ && inner == body::subtree(source, span).segments,
        },
{
    reveal(tags::opened);
}

proof fn lemma_choose(
    source: Seq<u8>,
    segments: Seq<SegmentView>,
    k: int,
    local: Seq<AltView>,
    has_otherwise: bool,
    depth: int,
    ctx: CtxView,
    name: Seq<char>,
    at: ByteSpan,
    d: DiagnosticView,
)
    requires
        called_for(source, name, at, d),
    ensures
        flatten::choose_from(source, segments, k, local, has_otherwise, depth, ctx) matches Ok(
            (_, after),
        ) ==> (has(ctx, d) || branches_hold(source, segments, k, depth, name, at) ==> has(
            after,
            d,
        )),
    decreases DEPTH_LIMIT - depth, 1int, segments.len() - k,
{
    if k < segments.len() {
        match segments[k] {
            SegmentView::Text { .. } => {
                lemma_choose(
                    source,
                    segments,
                    k + 1,
                    local,
                    has_otherwise,
                    depth,
                    ctx,
                    name,
                    at,
                    d,
                );
            },
            SegmentView::Tag { name: own, span } => if own == "when"@ || own == "otherwise"@ {
                let read = if own == "when"@ {
                    tags::after_read(source, ctx, span, "test"@)
                } else {
                    ctx
                };
                let branch = if own == "when"@ {
                    flatten::BranchView::When(tags::attr_or_empty(source, span, "test"@))
                } else {
                    flatten::BranchView::Otherwise
                };
                let inner = body::subtree(source, span);
                let start = tags::noted(read, inner.diagnostics);
                lemma_read(source, ctx, span, "test"@, d);
                lemma_noted(read, inner.diagnostics, d);
                lemma_descend(source, inner.segments, depth, start, name, at, d);
                if let Ok((alts, next)) = flatten::descend(source, inner.segments, depth, start) {
                    if let Ok(all) = flatten::chosen(local, branch, alts) {
                        lemma_choose(
                            source,
                            segments,
                            k + 1,
                            all,
                            has_otherwise || own != "when"@,
                            depth,
                            next,
                            name,
                            at,
                            d,
                        );
                    }
                }
            } else {
                let stray = seq![flatten::stray_choice(own, span)];
                lemma_noted(ctx, stray, d);
                lemma_choose(
                    source,
                    segments,
                    k + 1,
                    local,
                    has_otherwise,
                    depth,
                    tags::noted(ctx, stray),
                    name,
                    at,
                    d,
                );
            },
        }
    }
}

// ---- all branches in one text -------------------------------------------

proof fn lemma_union(
    source: Seq<u8>,
    segments: Seq<SegmentView>,
    depth: int,
    ctx: CtxView,
    name: Seq<char>,
    at: ByteSpan,
    d: DiagnosticView,
)
    requires
        called_for(source, name, at, d),
    ensures
        has(ctx, d) || holds(source, segments, depth, name, at) ==> has(
            union_walk::descend(source, segments, depth, ctx).ctx,
            d,
        ),
    decreases DEPTH_LIMIT - depth, 0int, 0int,
{
    if depth < DEPTH_LIMIT {
        lemma_gather(source, segments, 0, Seq::empty(), depth + 1, ctx, name, at, d);
    } else {
        lemma_noted(ctx, seq![flatten::nesting_limit()], d);
    }
}

proof fn lemma_entered(
    source: Seq<u8>,
    ctx: CtxView,
    name: Seq<char>,
    span: ByteSpan,
    d: DiagnosticView,
)
    ensures
        has(ctx, d) || called_for(source, name, span, d) ==> has(
            union_walk::entered(source, ctx, name, span),
            d,
        ),
{
    let inner = body::subtree(source, span);
    let read = if name == "iterate"@ {
        tags::with_path(
            tags::after_read(source, ctx, span, "property"@),
            tags::attr_or_empty(source, span, "property"@),
            span,
        )
    } else {
        ctx
    };
    lemma_read(source, ctx, span, "property"@, d);
    lemma_noted(read, inner.diagnostics, d);
    lemma_noted(
        tags::noted(read, inner.diagnostics),
        tags::boundaries(name, inner.segments),
        d,
    );
}

proof fn lemma_gather(
    source: Seq<u8>,
    segments: Seq<SegmentView>,
    k: int,
    pieces: Seq<PieceView>,
    depth: int,
    ctx: CtxView,
    name: Seq<char>,
    at: ByteSpan,
    d: DiagnosticView,
)
    requires
        called_for(source, name, at, d),
    ensures
        has(ctx, d) || body_holds(source, segments, k, depth, name, at) ==> has(
            union_walk::gather(source, segments, k, pieces, depth, ctx).ctx,
            d,
        ),
    decreases DEPTH_LIMIT - depth, 2int, segments.len() - k,
{
    if k < segments.len() {
        match segments[k] {
            SegmentView::Text { .. } => {
                tags::lemma_run_end(segments, k);
                lemma_text(source, segments, k, depth, name, at);
                let norm = tags::norm_at(segments, k, ctx.dialect);
                if has(ctx, d) {
                    lemma_either(ctx.diagnostics, norm.diagnostics, d);
                }
                lemma_gather(
                    source,
                    segments,
                    tags::run_end(segments, k),
                    pieces.push(tags::text_piece(segments, k, ctx)),
                    depth,
                    tags::after_text(segments, k, ctx),
                    name,
                    at,
                    d,
                );
            },
            SegmentView::Tag { name: own, span } => if own == "include"@ {
                lemma_read(source, ctx, span, "refid"@, d);
                let raw = tags::attr_or_empty(source, span, "refid"@);
                lemma_gather(
                    source,
                    segments,
                    k + 1,
                    pieces.push(PieceView::Include { raw, span }),
                    depth,
                    tags::after_include(source, ctx, span),
                    name,
                    at,
                    d,
                );
            } else if own == "bind"@ {
                lemma_read(source, ctx, span, "value"@, d);
                lemma_gather(
                    source,
                    segments,
                    k + 1,
                    pieces,
                    depth,
                    tags::with_path(
                        tags::after_read(source, ctx, span, "value"@),
                        tags::attr_or_empty(source, span, "value"@),
                        span,
                    ),
                    name,
                    at,
                    d,
                );
            } else {
                let inner = body::subtree(source, span);
                let child = if own == "choose"@ {
                    let start = tags::noted(ctx, inner.diagnostics);
                    lemma_noted(ctx, inner.diagnostics, d);
                    lemma_branches(
                        source,
                        inner.segments,
                        0,
                        Seq::empty(),
                        depth,
                        start,
                        name,
                        at,
                        d,
                    );
                    union_walk::gather_choices(
                        source,
                        inner.segments,
                        0,
                        Seq::empty(),
                        depth,
                        start,
                    )
                } else {
                    let start = union_walk::entered(source, ctx, own, span);
                    lemma_entered(source, ctx, own, span, d);
                    lemma_union(source, inner.segments, depth, start, name, at, d);
                    union_walk::descend(source, inner.segments, depth, start)
                };
                lemma_gather(
                    source,
                    segments,
                    k + 1,
                    pieces + child.pieces,
                    depth,
                    child.ctx,
                    name,
                    at,
                    d,
                );
            },
        }
    }
}

proof fn lemma_branches(
    source: Seq<u8>,
    segments: Seq<SegmentView>,
    k: int,
    pieces: Seq<PieceView>,
    depth: int,
    ctx: CtxView,
    name: Seq<char>,
    at: ByteSpan,
    d: DiagnosticView,
)
    requires
        called_for(source, name, at, d),
    ensures
        has(ctx, d) || branches_hold(source, segments, k, depth, name, at) ==> has(
            union_walk::gather_choices(source, segments, k, pieces, depth, ctx).ctx,
            d,
        ),
    decreases DEPTH_LIMIT - depth, 1int, segments.len() - k,
{
    if k < segments.len() {
        match segments[k] {
            SegmentView::Tag { name: own, span } => if own == "when"@ || own == "otherwise"@ {
                let inner = body::subtree(source, span);
                let start = tags::noted(ctx, inner.diagnostics);
                lemma_noted(ctx, inner.diagnostics, d);
                lemma_union(source, inner.segments, depth, start, name, at, d);
                let child = union_walk::descend(source, inner.segments, depth, start);
                lemma_branches(
                    source,
                    segments,
                    k + 1,
                    pieces + child.pieces,
                    depth,
                    child.ctx,
                    name,
                    at,
                    d,
                );
            } else {
                lemma_branches(source, segments, k + 1, pieces, depth, ctx, name, at, d);
            },
            _ => lemma_branches(source, segments, k + 1, pieces, depth, ctx, name, at, d),
        }
    }
}

// ---- the law ------------------------------------------------------------

/// An `<include>` that is the first or the last content of a `<where>`, `<set>`
/// or `<trim>` anywhere in a body is reported at its place, whether the body
/// comes out as its variants or as the text of all branches.
pub proof fn law_every_edge_is_reported(
    source: Seq<u8>,
    dialect: Dialect,
    segments: Seq<SegmentView>,
    name: Seq<char>,
    at: ByteSpan,
    k: int,
    span: ByteSpan,
)
    requires
        name == "where"@ || name == "set"@ || name == "trim"@,
        holds(source, segments, 0, name, at),
        ({
            let inner = body::subtree(source, at).segments;
            &&& 0 <= k < inner.len()
            &&& inner[k] == (SegmentView::Tag { name: "include"@, span })
            &&& (forall|i: int| 0 <= i < k ==> !tags::is_content(#[trigger] inner[i])) || (forall|
                i: int,
            |
                k < i < inner.len() ==> !tags::is_content(#[trigger] inner[i]))
        }),
    ensures
        flatten::flat_body(source, dialect, segments).diagnostics.contains(
            tags::boundary_diagnostic(name, span),
        ),
{
    let d = tags::boundary_diagnostic(name, span);
    let fresh = tags::fresh_ctx(dialect);
    tags::law_boundary_is_reported(name, body::subtree(source, at).segments, k, span);
    lemma_descend(source, segments, 0, fresh, name, at, d);
    lemma_union(source, segments, 0, fresh, name, at, d);
    let all = union_walk::descend(source, segments, 0, fresh).ctx;
    if let Err(count) = flatten::descend(source, segments, 0, fresh) {
        let limit = seq![flatten::branch_limit(count)];
        lemma_either(all.diagnostics, limit, d);
        assert(all.diagnostics + limit =~= all.diagnostics.push(flatten::branch_limit(count)));
    }
}

} // verus!
