//! What a walk over a body finds on its way, said of bodies and their parts: the
//! paths of its placeholders and the references of its `<include>`s.
use crate::attrs;
use crate::body;
use crate::body::SegmentView;
use crate::flatten;
use crate::flatten::BranchView;
use crate::model::{ByteSpan, DiagCode, DiagnosticView, Dialect, IncludeRefView, Spanned};
use crate::placeholder;
use crate::tags;
use crate::tags::{ActionView, CtxView, DEPTH_LIMIT};
use crate::ways;
use crate::ways::{apart, next_of, ways, ways_at};
use crate::wrapper;
use crate::wrapper::{AltView, BRANCH_LIMIT};
use vstd::prelude::*;
use vstd::string::*;

verus! {

/// The record of a walk over a body whose ways can be listed.
pub open spec fn record(
    source: Seq<u8>,
    dialect: Dialect,
    segments: Seq<SegmentView>,
    depth: int,
) -> CtxView {
    flatten::descend(source, segments, depth, tags::fresh_ctx(dialect))->Ok_0.1
}

/// The paths in a body, in the order of the document.
pub open spec fn paths_found(
    source: Seq<u8>,
    dialect: Dialect,
    segments: Seq<SegmentView>,
    depth: int,
) -> Seq<Spanned<Seq<char>>> {
    record(source, dialect, segments, depth).paths
}

/// The references in a body, in the order of the document.
pub open spec fn includes_found(
    source: Seq<u8>,
    dialect: Dialect,
    segments: Seq<SegmentView>,
    depth: int,
) -> Seq<Spanned<IncludeRefView>> {
    record(source, dialect, segments, depth).includes
}

/// `e` is `c` with what `more` holds.
pub open spec fn grew(c: CtxView, more: CtxView, e: CtxView) -> bool {
    &&& e.paths == c.paths + more.paths
    &&& e.includes == c.includes + more.includes
    &&& e.dialect == c.dialect
    &&& more.dialect == c.dialect
}

proof fn lemma_grew(c: CtxView, a: CtxView, d: CtxView, b: CtxView, e: CtxView, both: CtxView)
    requires
        grew(c, a, d),
        grew(d, b, e),
        grew(a, b, both),
    ensures
        grew(c, both, e),
{
    assert(c.paths + a.paths + b.paths =~= c.paths + (a.paths + b.paths));
    assert(c.includes + a.includes + b.includes =~= c.includes + (a.includes + b.includes));
}

proof fn lemma_no_growth(c: CtxView)
    ensures
        grew(c, tags::fresh_ctx(c.dialect), c),
{
    assert(c.paths + Seq::empty() =~= c.paths);
    assert(c.includes + Seq::empty() =~= c.includes);
}

proof fn lemma_opened_grows(source: Seq<u8>, c: CtxView, name: Seq<char>, span: ByteSpan)
    ensures
        grew(
            c,
            tags::opened(source, tags::fresh_ctx(c.dialect), name, span).ctx,
            tags::opened(source, c, name, span).ctx,
        ),
{
    reveal(tags::opened);
    let f = tags::fresh_ctx(c.dialect);
    let a = tags::opened(source, f, name, span).ctx;
    let b = tags::opened(source, c, name, span).ctx;
    assert(b.paths =~= c.paths + a.paths);
    assert(b.includes =~= c.includes + a.includes);
}

proof fn lemma_descend_finds(
    source: Seq<u8>,
    segments: Seq<SegmentView>,
    depth: int,
    c: CtxView,
)
    ensures
        flatten::descend(source, segments, depth, c) matches Ok((_, e)) ==> grew(
            c,
            record(source, c.dialect, segments, depth),
            e,
        ),
        flatten::descend(source, segments, depth, c) is Ok <==> ways(
            source,
            c.dialect,
            segments,
            depth,
        ) is Ok,
    decreases DEPTH_LIMIT - depth, 0int, 0int, 0int,
{
    let f = tags::fresh_ctx(c.dialect);
    ways::lemma_ways(source, segments, depth, c);
    if depth < DEPTH_LIMIT {
        lemma_body_finds(source, segments, 0, seq![wrapper::no_alt()], depth + 1, c);
    } else {
        lemma_no_growth(c);
    }
}

proof fn lemma_body_finds(
    source: Seq<u8>,
    segments: Seq<SegmentView>,
    k: int,
    acc: Seq<AltView>,
    depth: int,
    c: CtxView,
)
    requires
        0 <= k <= segments.len(),
        acc.len() <= BRANCH_LIMIT,
    ensures
        ({
            let a = flatten::body_from(source, segments, k, acc, depth, c);
            let b = flatten::body_from(
                source,
                segments,
                k,
                acc,
                depth,
                tags::fresh_ctx(c.dialect),
            );
            a matches Ok((x, e)) ==> b is Ok && b->Ok_0.0 == x && grew(c, b->Ok_0.1, e)
        }),
    decreases DEPTH_LIMIT - depth, 3int, segments.len() - k, 0int,
{
    let f = tags::fresh_ctx(c.dialect);
    if k < segments.len() {
        ways::lemma_step(source, segments, k, acc, depth, c);
        ways::lemma_step(source, segments, k, acc, depth, f);
        lemma_at_finds(source, segments, k, depth, c);
        let at = ways_at(source, segments, k, depth, c);
        if at is Ok {
            let local = at->Ok_0.0;
            let next = at->Ok_0.1;
            let first = ways_at(source, segments, k, depth, f)->Ok_0.1;
            ways::lemma_pairs_len(acc, local, acc.len() as int);
            if acc.len() * local.len() <= BRANCH_LIMIT {
                let all = ways::all_pairs(acc, local);
                let to = next_of(segments, k);
                lemma_body_finds(source, segments, to, all, depth, next);
                lemma_body_finds(source, segments, to, all, depth, first);
                let r = flatten::body_from(source, segments, to, all, depth, next);
                if r is Ok {
                    let rest = flatten::body_from(source, segments, to, all, depth, f);
                    let both = flatten::body_from(source, segments, to, all, depth, first);
                    lemma_body_finds_back(source, segments, to, all, depth, first);
                    lemma_grew(c, first, next, rest->Ok_0.1, r->Ok_0.1, both->Ok_0.1);
                }
            }
        }
    } else {
        lemma_no_growth(c);
    }
}

/// A walk that can be listed from one record can be listed from any.
proof fn lemma_body_finds_back(
    source: Seq<u8>,
    segments: Seq<SegmentView>,
    k: int,
    acc: Seq<AltView>,
    depth: int,
    c: CtxView,
)
    requires
        flatten::body_from(source, segments, k, acc, depth, tags::fresh_ctx(c.dialect)) is Ok,
    ensures
        flatten::body_from(source, segments, k, acc, depth, c) is Ok,
{
    ways::lemma_body_alike(source, segments, k, acc, depth, c, tags::fresh_ctx(c.dialect));
}

proof fn lemma_at_finds(
    source: Seq<u8>,
    segments: Seq<SegmentView>,
    k: int,
    depth: int,
    c: CtxView,
)
    requires
        0 <= k < segments.len(),
    ensures
        ({
            let a = ways_at(source, segments, k, depth, c);
            let b = ways_at(source, segments, k, depth, tags::fresh_ctx(c.dialect));
            a matches Ok((x, e)) ==> b is Ok && b->Ok_0.0 == x && grew(c, b->Ok_0.1, e)
        }),
    decreases DEPTH_LIMIT - depth, 2int, 0int, 0int,
{
    let f = tags::fresh_ctx(c.dialect);
    match segments[k] {
        SegmentView::Text { .. } => {
            let a = tags::after_text(segments, k, f);
            let b = tags::after_text(segments, k, c);
            assert(b.paths =~= c.paths + a.paths);
            assert(b.includes =~= c.includes + a.includes);
        },
        SegmentView::Tag { name, span } => {
            let open = tags::opened(source, c, name, span);
            let first = tags::opened(source, f, name, span);
            lemma_opened_grows(source, c, name, span);
            ways::lemma_opened_alike(source, c, f, name, span);
            match open.action {
                ActionView::Choose(inner) => {
                    lemma_choose_finds(source, inner, 0, Seq::empty(), false, depth, open.ctx);
                    lemma_choose_finds(source, inner, 0, Seq::empty(), false, depth, first.ctx);
                    ways::lemma_choose_alike(
                        source,
                        inner,
                        0,
                        Seq::empty(),
                        false,
                        depth,
                        open.ctx,
                        first.ctx,
                    );
                    let r = flatten::choose_from(
                        source,
                        inner,
                        0,
                        Seq::empty(),
                        false,
                        depth,
                        open.ctx,
                    );
                    if r is Ok {
                        let rest = flatten::choose_from(
                            source,
                            inner,
                            0,
                            Seq::empty(),
                            false,
                            depth,
                            f,
                        );
                        let both = flatten::choose_from(
                            source,
                            inner,
                            0,
                            Seq::empty(),
                            false,
                            depth,
                            first.ctx,
                        );
                        lemma_grew(
                            c,
                            first.ctx,
                            open.ctx,
                            rest->Ok_0.1,
                            r->Ok_0.1,
                            both->Ok_0.1,
                        );
                    }
                },
                ActionView::Descend { kind, restore, inner } => {
                    lemma_descend_finds(source, inner, depth, open.ctx);
                    lemma_descend_finds(source, inner, depth, first.ctx);
                    ways::lemma_descend_alike(source, inner, depth, open.ctx, first.ctx);
                    let r = flatten::descend(source, inner, depth, open.ctx);
                    if r is Ok {
                        let both = flatten::descend(source, inner, depth, first.ctx);
                        lemma_grew(
                            c,
                            first.ctx,
                            open.ctx,
                            record(source, c.dialect, inner, depth),
                            r->Ok_0.1,
                            both->Ok_0.1,
                        );
                    }
                },
                _ => {},
            }
        },
    }
}

proof fn lemma_choose_finds(
    source: Seq<u8>,
    segments: Seq<SegmentView>,
    k: int,
    local: Seq<AltView>,
    has_otherwise: bool,
    depth: int,
    c: CtxView,
)
    requires
        0 <= k <= segments.len(),
    ensures
        ({
            let a = flatten::choose_from(source, segments, k, local, has_otherwise, depth, c);
            let b = flatten::choose_from(
                source,
                segments,
                k,
                local,
                has_otherwise,
                depth,
                tags::fresh_ctx(c.dialect),
            );
            a matches Ok((x, e)) ==> b is Ok && b->Ok_0.0 == x && grew(c, b->Ok_0.1, e)
        }),
    decreases DEPTH_LIMIT - depth, 1int, segments.len() - k, 0int,
{
    let f = tags::fresh_ctx(c.dialect);
    if k < segments.len() {
        match segments[k] {
            SegmentView::Text { .. } => lemma_choose_finds(
                source,
                segments,
                k + 1,
                local,
                has_otherwise,
                depth,
                c,
            ),
            SegmentView::Tag { name, span } => if name == "when"@ || name == "otherwise"@ {
                let inner = body::subtree(source, span);
                let read = if name == "when"@ {
                    tags::after_read(source, c, span, "test"@)
                } else {
                    c
                };
                let from = if name == "when"@ {
                    tags::after_read(source, f, span, "test"@)
                } else {
                    f
                };
                let branch = if name == "when"@ {
                    BranchView::When(tags::attr_or_empty(source, span, "test"@))
                } else {
                    BranchView::Otherwise
                };
                let a = tags::noted(read, inner.diagnostics);
                let b = tags::noted(from, inner.diagnostics);
                lemma_descend_finds(source, inner.segments, depth, a);
                lemma_descend_finds(source, inner.segments, depth, b);
                ways::lemma_descend_alike(source, inner.segments, depth, a, b);
                let x = flatten::descend(source, inner.segments, depth, a);
                let y = flatten::descend(source, inner.segments, depth, b);
                if x is Ok {
                    let all = flatten::chosen(local, branch, x->Ok_0.0);
                    if all is Ok {
                        let other = has_otherwise || name != "when"@;
                        lemma_after_branch(
                            source,
                            segments,
                            k + 1,
                            all->Ok_0,
                            other,
                            depth,
                            c,
                            x->Ok_0.1,
                            y->Ok_0.1,
                        );
                    }
                }
            } else {
                let note = seq![flatten::stray_choice(name, span)];
                lemma_after_branch(
                    source,
                    segments,
                    k + 1,
                    local,
                    has_otherwise,
                    depth,
                    c,
                    tags::noted(c, note),
                    tags::noted(f, note),
                );
            },
        }
    } else {
        lemma_no_growth(c);
    }
}

/// The rest of the children of a `<choose>`, behind one that has grown the
/// record.
proof fn lemma_after_branch(
    source: Seq<u8>,
    segments: Seq<SegmentView>,
    k: int,
    local: Seq<AltView>,
    has_otherwise: bool,
    depth: int,
    c: CtxView,
    next: CtxView,
    first: CtxView,
)
    requires
        0 < k <= segments.len(),
        c.paths + first.paths == next.paths,
        c.includes + first.includes == next.includes,
        next.dialect == c.dialect,
        first.dialect == c.dialect,
    ensures
        ({
            let a = flatten::choose_from(source, segments, k, local, has_otherwise, depth, next);
            let b = flatten::choose_from(source, segments, k, local, has_otherwise, depth, first);
            a matches Ok((x, e)) ==> b is Ok && b->Ok_0.0 == x && grew(c, b->Ok_0.1, e)
        }),
    decreases DEPTH_LIMIT - depth, 1int, segments.len() - k, 1int,
{
    let f = tags::fresh_ctx(c.dialect);
    ways::lemma_choose_alike(source, segments, k, local, has_otherwise, depth, next, first);
    ways::lemma_choose_alike(source, segments, k, local, has_otherwise, depth, next, f);
    lemma_choose_finds(source, segments, k, local, has_otherwise, depth, next);
    lemma_choose_finds(source, segments, k, local, has_otherwise, depth, first);
    let r = flatten::choose_from(source, segments, k, local, has_otherwise, depth, next);
    if r is Ok {
        let rest = flatten::choose_from(source, segments, k, local, has_otherwise, depth, f);
        let both = flatten::choose_from(source, segments, k, local, has_otherwise, depth, first);
        lemma_grew(c, first, next, rest->Ok_0.1, r->Ok_0.1, both->Ok_0.1);
    }
}

/// A body of two parts holds the paths and references of the first followed by
/// those of the second.
pub proof fn law_finds_of_parts(
    source: Seq<u8>,
    dialect: Dialect,
    a: Seq<SegmentView>,
    b: Seq<SegmentView>,
    depth: int,
)
    requires
        depth < DEPTH_LIMIT,
        apart(a, b),
        ways(source, dialect, a + b, depth) is Ok,
    ensures
        paths_found(source, dialect, a + b, depth) == paths_found(source, dialect, a, depth)
            + paths_found(source, dialect, b, depth),
        includes_found(source, dialect, a + b, depth) == includes_found(source, dialect, a, depth)
            + includes_found(source, dialect, b, depth),
{
    let none = seq![wrapper::no_alt()];
    let ctx = tags::fresh_ctx(dialect);
    ways::lemma_first(source, a, b, 0, none, depth + 1, ctx);
    ways::lemma_ways(source, a, depth, ctx);
    flatten::lemma_alts_count(source, a, depth, ctx);
    let first = flatten::body_from(source, a, 0, none, depth + 1, ctx);
    let x = first->Ok_0.0;
    let next = first->Ok_0.1;
    ways::lemma_acc(source, b, 0, x, depth + 1, next);
    lemma_descend_finds(source, b, depth, next);
}

/// One segment: what it finds is the record of a body that is this segment.
proof fn lemma_one_finds(source: Seq<u8>, dialect: Dialect, segment: SegmentView, depth: int)
    requires
        depth < DEPTH_LIMIT,
        ways(source, dialect, seq![segment], depth) is Ok,
    ensures
        ways_at(source, seq![segment], 0, depth + 1, tags::fresh_ctx(dialect)) is Ok,
        record(source, dialect, seq![segment], depth) == ways_at(
            source,
            seq![segment],
            0,
            depth + 1,
            tags::fresh_ctx(dialect),
        )->Ok_0.1,
{
    let none = seq![wrapper::no_alt()];
    let ctx = tags::fresh_ctx(dialect);
    ways::lemma_step(source, seq![segment], 0, none, depth + 1, ctx);
}

/// What a tag itself gives: the value of a `<bind>` and the property of an
/// `<iterate>`, at the place of the tag, unless it is empty.
pub open spec fn own_path(source: Seq<u8>, name: Seq<char>, span: ByteSpan) -> Seq<
    Spanned<Seq<char>>,
> {
    let value = if name == "bind"@ {
        tags::attr_or_empty(source, span, "value"@)
    } else if name == "iterate"@ {
        tags::attr_or_empty(source, span, "property"@)
    } else {
        Seq::empty()
    };
    if value.len() == 0 {
        Seq::empty()
    } else {
        seq![Spanned { value, span }]
    }
}

#[verifier::rlimit(30)]
proof fn lemma_own_path(source: Seq<u8>, dialect: Dialect, name: Seq<char>, span: ByteSpan)
    ensures
        tags::opened(source, tags::fresh_ctx(dialect), name, span).ctx.paths == own_path(
            source,
            name,
            span,
        ),
        name != "include"@ ==> tags::opened(
            source,
            tags::fresh_ctx(dialect),
            name,
            span,
        ).ctx.includes.len() == 0,
        (tags::opened(source, tags::fresh_ctx(dialect), name, span).action is Add) ==> name
            == "include"@,
        (tags::opened(source, tags::fresh_ctx(dialect), name, span).action is Skip) ==> name
            == "bind"@,
        (tags::opened(source, tags::fresh_ctx(dialect), name, span).action is Choose) ==> name
            == "choose"@,
{
    reveal(tags::opened);
    ways::lemma_tag_names();
    let ctx = tags::opened(source, tags::fresh_ctx(dialect), name, span).ctx;
    assert(ctx.paths =~= own_path(source, name, span));
}

/// A tag around a body holds what its body holds, behind what it gives itself.
/// A tag that is left out of the text leaves nothing out here.
pub proof fn law_tag_finds(
    source: Seq<u8>,
    dialect: Dialect,
    name: Seq<char>,
    span: ByteSpan,
    depth: int,
)
    requires
        depth < DEPTH_LIMIT,
        name != "choose"@,
        name != "include"@,
        name != "bind"@,
        ways(source, dialect, seq![SegmentView::Tag { name, span }], depth) is Ok,
    ensures
        ({
            let whole = seq![SegmentView::Tag { name, span }];
            let inner = body::subtree(source, span).segments;
            &&& paths_found(source, dialect, whole, depth) == own_path(source, name, span)
                + paths_found(source, dialect, inner, depth + 1)
            &&& includes_found(source, dialect, whole, depth) == includes_found(
                source,
                dialect,
                inner,
                depth + 1,
            )
        }),
{
    let ctx = tags::fresh_ctx(dialect);
    let inner = body::subtree(source, span).segments;
    lemma_one_finds(source, dialect, SegmentView::Tag { name, span }, depth);
    lemma_own_path(source, dialect, name, span);
    tags::lemma_opened(source, ctx, name, span);
    let open = tags::opened(source, ctx, name, span);
    lemma_descend_finds(source, inner, depth + 1, open.ctx);
    assert(open.ctx.includes + includes_found(source, dialect, inner, depth + 1)
        =~= includes_found(source, dialect, inner, depth + 1));
}

/// An `<include>` with a `refid` gives one reference at its place; a `<bind>`
/// gives its path.
pub proof fn law_include_is_found(source: Seq<u8>, dialect: Dialect, span: ByteSpan, depth: int)
    requires
        depth < DEPTH_LIMIT,
    ensures
        ({
            let tag = seq![SegmentView::Tag { name: "include"@, span }];
            let found = includes_found(source, dialect, tag, depth);
            &&& paths_found(source, dialect, tag, depth).len() == 0
            &&& match tags::attr_opt(source, span, "refid"@) {
                Some(raw) => {
                    &&& found.len() == 1
                    &&& found[0].span == span
                    &&& found[0].value.raw == raw
                    &&& found[0].value.target == tags::classified(raw, dialect)
                },
                None => found.len() == 0,
            }
        }),
        ({
            let tag = seq![SegmentView::Tag { name: "bind"@, span }];
            &&& paths_found(source, dialect, tag, depth) == own_path(source, "bind"@, span)
            &&& includes_found(source, dialect, tag, depth).len() == 0
        }),
{
    ways::law_include_and_bind(source, dialect, span, depth);
    ways::lemma_kinds(source, tags::fresh_ctx(dialect), span);
    ways::lemma_tag_names();
    lemma_one_finds(source, dialect, SegmentView::Tag { name: "include"@, span }, depth);
    lemma_one_finds(source, dialect, SegmentView::Tag { name: "bind"@, span }, depth);
    lemma_own_path(source, dialect, "include"@, span);
    lemma_own_path(source, dialect, "bind"@, span);
    lemma_include_ctx(source, dialect, span);
}

proof fn lemma_include_ctx(source: Seq<u8>, dialect: Dialect, span: ByteSpan)
    ensures
        tags::opened(source, tags::fresh_ctx(dialect), "include"@, span).ctx
            == tags::after_include(source, tags::fresh_ctx(dialect), span),
{
    reveal(tags::opened);
}

/// The paths and references in a branch of a `<choose>`.
pub open spec fn found_in_child(
    source: Seq<u8>,
    dialect: Dialect,
    child: SegmentView,
    depth: int,
) -> (Seq<Spanned<Seq<char>>>, Seq<Spanned<IncludeRefView>>) {
    match child {
        SegmentView::Tag { name, span } => if name == "when"@ || name == "otherwise"@ {
            let inner = body::subtree(source, span).segments;
            (
                paths_found(source, dialect, inner, depth),
                includes_found(source, dialect, inner, depth),
            )
        } else {
            (Seq::empty(), Seq::empty())
        },
        _ => (Seq::empty(), Seq::empty()),
    }
}

/// A `<choose>` holds what all of its branches hold, one after the other.
pub proof fn law_choose_finds(source: Seq<u8>, dialect: Dialect, span: ByteSpan, depth: int)
    requires
        depth < DEPTH_LIMIT,
        ways(source, dialect, seq![SegmentView::Tag { name: "choose"@, span }], depth) is Ok,
    ensures
        ({
            let tag = seq![SegmentView::Tag { name: "choose"@, span }];
            let children = body::subtree(source, span).segments;
            &&& paths_found(source, dialect, tag, depth) == children.map_values(
                |child: SegmentView| found_in_child(source, dialect, child, depth + 1).0,
            ).flatten()
            &&& includes_found(source, dialect, tag, depth) == children.map_values(
                |child: SegmentView| found_in_child(source, dialect, child, depth + 1).1,
            ).flatten()
        }),
{
    let ctx = tags::fresh_ctx(dialect);
    let children = body::subtree(source, span).segments;
    lemma_one_finds(source, dialect, SegmentView::Tag { name: "choose"@, span }, depth);
    ways::lemma_kinds(source, ctx, span);
    ways::lemma_tag_names();
    lemma_own_path(source, dialect, "choose"@, span);
    tags::lemma_opened(source, ctx, "choose"@, span);
    let open = tags::opened(source, ctx, "choose"@, span);
    lemma_children(source, children, 0, Seq::empty(), false, depth + 1, open.ctx);
    assert(children.skip(0) =~= children);
    let p = children.map_values(
        |child: SegmentView| found_in_child(source, dialect, child, depth + 1).0,
    ).flatten();
    let q = children.map_values(
        |child: SegmentView| found_in_child(source, dialect, child, depth + 1).1,
    ).flatten();
    assert(open.ctx.paths + p =~= p);
    assert(open.ctx.includes + q =~= q);
}

proof fn lemma_children(
    source: Seq<u8>,
    segments: Seq<SegmentView>,
    k: int,
    local: Seq<AltView>,
    has_otherwise: bool,
    depth: int,
    c: CtxView,
)
    requires
        0 <= k <= segments.len(),
        flatten::choose_from(source, segments, k, local, has_otherwise, depth, c) is Ok,
    ensures
        ({
            let e = flatten::choose_from(
                source,
                segments,
                k,
                local,
                has_otherwise,
                depth,
                c,
            )->Ok_0.1;
            &&& e.paths == c.paths + segments.skip(k).map_values(
                |child: SegmentView| found_in_child(source, c.dialect, child, depth).0,
            ).flatten()
            &&& e.includes == c.includes + segments.skip(k).map_values(
                |child: SegmentView| found_in_child(source, c.dialect, child, depth).1,
            ).flatten()
        }),
    decreases segments.len() - k,
{
    let dialect = c.dialect;
    let f = |child: SegmentView| found_in_child(source, dialect, child, depth).0;
    let g = |child: SegmentView| found_in_child(source, dialect, child, depth).1;
    let p = segments.skip(k).map_values(f);
    let q = segments.skip(k).map_values(g);
    if k < segments.len() {
        let own = found_in_child(source, dialect, segments[k], depth);
        let p1 = segments.skip(k + 1).map_values(f);
        let q1 = segments.skip(k + 1).map_values(g);
        assert(p.drop_first() =~= p1);
        assert(q.drop_first() =~= q1);
        assert(p.first() == own.0);
        assert(q.first() == own.1);
        assert(p.flatten() == own.0 + p1.flatten());
        assert(q.flatten() == own.1 + q1.flatten());
        assert(c.paths + own.0 + p1.flatten() =~= c.paths + (own.0 + p1.flatten()));
        assert(c.includes + own.1 + q1.flatten() =~= c.includes + (own.1 + q1.flatten()));
        assert(c.paths + Seq::empty() =~= c.paths);
        assert(c.includes + Seq::empty() =~= c.includes);
        match segments[k] {
            SegmentView::Text { .. } => lemma_children(
                source,
                segments,
                k + 1,
                local,
                has_otherwise,
                depth,
                c,
            ),
            SegmentView::Tag { name, span } => if name == "when"@ || name == "otherwise"@ {
                let inner = body::subtree(source, span);
                let read = if name == "when"@ {
                    tags::after_read(source, c, span, "test"@)
                } else {
                    c
                };
                let branch = if name == "when"@ {
                    BranchView::When(tags::attr_or_empty(source, span, "test"@))
                } else {
                    BranchView::Otherwise
                };
                let a = tags::noted(read, inner.diagnostics);
                lemma_descend_finds(source, inner.segments, depth, a);
                let x = flatten::descend(source, inner.segments, depth, a);
                let all = flatten::chosen(local, branch, x->Ok_0.0);
                lemma_children(
                    source,
                    segments,
                    k + 1,
                    all->Ok_0,
                    has_otherwise || name != "when"@,
                    depth,
                    x->Ok_0.1,
                );
            } else {
                lemma_children(
                    source,
                    segments,
                    k + 1,
                    local,
                    has_otherwise,
                    depth,
                    tags::noted(c, seq![flatten::stray_choice(name, span)]),
                );
            },
        }
    } else {
        assert(c.paths + p.flatten() =~= c.paths);
        assert(c.includes + q.flatten() =~= c.includes);
    }
}

/// Text alone holds the paths of its placeholders and no reference.
pub proof fn law_text_finds(
    source: Seq<u8>,
    dialect: Dialect,
    segments: Seq<SegmentView>,
    depth: int,
)
    requires
        depth < DEPTH_LIMIT,
        segments.len() > 0,
        forall|k: int| 0 <= k < segments.len() ==> (#[trigger] segments[k]) is Text,
    ensures
        paths_found(source, dialect, segments, depth) == placeholder::normalized(
            Seq::new(
                segments.len(),
                |k: int|
                    placeholder::RunView {
                        decoded: segments[k]->decoded,
                        span: segments[k]->Text_span,
                    },
            ),
            dialect,
        ).paths,
        includes_found(source, dialect, segments, depth).len() == 0,
{
    let none = seq![wrapper::no_alt()];
    let ctx = tags::fresh_ctx(dialect);
    let n = segments.len() as int;
    let runs = Seq::new(
        segments.len(),
        |k: int|
            placeholder::RunView {
                decoded: segments[k]->decoded,
                span: segments[k]->Text_span,
            },
    );
    ways::law_text_is_one_way(source, dialect, segments, depth);
    ways::lemma_step(source, segments, 0, none, depth + 1, ctx);
    ways::lemma_all_text(segments, 0);
    assert(segments[0] is Text);
    assert(segments.subrange(0, n) =~= segments);
    assert(tags::runs_of(segments, 0, n) =~= runs);
    let paths = placeholder::normalized(runs, dialect).paths;
    assert(ctx.paths + paths =~= paths);
}

/// What a flattened body records is what is found in the body.
pub proof fn law_body_records_what_is_found(
    source: Seq<u8>,
    dialect: Dialect,
    segments: Seq<SegmentView>,
)
    requires
        ways(source, dialect, segments, 0) is Ok,
    ensures
        flatten::flat_body(source, dialect, segments).paths == paths_found(
            source,
            dialect,
            segments,
            0,
        ),
        flatten::flat_body(source, dialect, segments).includes == includes_found(
            source,
            dialect,
            segments,
            0,
        ),
{
}

// ---- what is reported ---------------------------------------------------

/// The tags with a meaning in a body.
pub open spec fn is_known_tag(name: Seq<char>) -> bool {
    ||| name == "include"@ || name == "bind"@ || name == "choose"@ || name == "if"@
    ||| name == "where"@ || name == "set"@ || name == "trim"@ || name == "foreach"@
    ||| name == "dynamic"@ || name == "iterate"@
    ||| tags::starts_with_is(name)
}

/// A tag in a body that is neither known nor one of those that are left out on
/// purpose is reported at its place, before anything in it; what is in it stays.
pub proof fn law_unknown_tag_is_reported(
    source: Seq<u8>,
    dialect: Dialect,
    name: Seq<char>,
    span: ByteSpan,
)
    requires
        !is_known_tag(name),
        name != "cache"@ && name != "cache-ref"@ && name != "parameterMap"@ && name
            != "cacheModel"@ && name != "typeAlias"@,
        ways(source, dialect, seq![SegmentView::Tag { name, span }], 0) is Ok,
    ensures
        ({
            let all = flatten::flat_body(
                source,
                dialect,
                seq![SegmentView::Tag { name, span }],
            ).diagnostics;
            &&& all.len() > 0
            &&& all[0].code == DiagCode::UnknownElement
            &&& all[0].span == Some(span)
        }),
{
    let ctx = tags::fresh_ctx(dialect);
    let tag = seq![SegmentView::Tag { name, span }];
    lemma_one_finds(source, dialect, SegmentView::Tag { name, span }, 0);
    lemma_opened_unknown(source, ctx, name, span);
    let open = tags::opened(source, ctx, name, span);
    let inner = body::subtree(source, span).segments;
    tags::lemma_opened(source, ctx, name, span);
    lemma_descend_grows(source, inner, 1, open.ctx);
    let e = flatten::descend(source, inner, 1, open.ctx)->Ok_0.1;
    assert(e.diagnostics.take(1)[0] == open.ctx.diagnostics[0]);
}

proof fn lemma_opened_unknown(source: Seq<u8>, ctx: CtxView, name: Seq<char>, span: ByteSpan)
    requires
        !is_known_tag(name),
        !tags::is_ignorable(name),
        !ctx.inside_unknown,
        ctx.diagnostics.len() == 0,
    ensures
        ({
            let open = tags::opened(source, ctx, name, span);
            &&& open.action is Descend
            &&& open.ctx.diagnostics.len() > 0
            &&& open.ctx.diagnostics[0].code == DiagCode::UnknownElement
            &&& open.ctx.diagnostics[0].span == Some(span)
        }),
{
    reveal(tags::opened);
}

/// `e` has the diagnostics of `c` and maybe more.
pub open spec fn kept(c: CtxView, e: CtxView) -> bool {
    c.diagnostics.len() <= e.diagnostics.len() && e.diagnostics.take(c.diagnostics.len() as int)
        == c.diagnostics
}

proof fn lemma_kept(c: CtxView, d: CtxView, e: CtxView)
    requires
        kept(c, d),
        kept(d, e),
    ensures
        kept(c, e),
{
    let n = c.diagnostics.len() as int;
    assert(e.diagnostics.take(n) =~= d.diagnostics.take(n)) by {
        assert forall|k: int| 0 <= k < n implies e.diagnostics[k] == d.diagnostics[k] by {
            assert(e.diagnostics.take(d.diagnostics.len() as int)[k] == d.diagnostics[k]);
        }
    }
}

proof fn lemma_noted(c: CtxView, more: Seq<DiagnosticView>)
    ensures
        kept(c, tags::noted(c, more)),
{
    assert(tags::noted(c, more).diagnostics.take(c.diagnostics.len() as int) =~= c.diagnostics);
}

proof fn lemma_opened_keeps(source: Seq<u8>, c: CtxView, name: Seq<char>, span: ByteSpan)
    ensures
        kept(c, tags::opened(source, c, name, span).ctx),
{
    reveal(tags::opened);
    ways::lemma_tag_names();
    let inner = body::subtree(source, span);
    let edge = tags::boundaries(name, inner.segments);
    if name == "include"@ {
        lemma_read(source, c, span, "refid"@);
    } else if name == "bind"@ {
        lemma_read(source, c, span, "value"@);
    } else if name == "choose"@ {
        lemma_noted(c, inner.diagnostics);
    } else if name == "if"@ {
        lemma_read(source, c, span, "test"@);
        lemma_then(c, tags::after_read(source, c, span, "test"@), inner.diagnostics);
    } else if name == "where"@ || name == "set"@ {
        lemma_noted(c, inner.diagnostics);
        lemma_then(c, tags::noted(c, inner.diagnostics), edge);
    } else if name == "trim"@ {
        let a = tags::after_read(source, c, span, "prefix"@);
        let b = tags::after_read(source, a, span, "suffix"@);
        let d = tags::after_read(source, b, span, "prefixOverrides"@);
        let e = tags::after_read(source, d, span, "suffixOverrides"@);
        lemma_read(source, c, span, "prefix"@);
        lemma_then(c, a, attrs::tag_attr(source, span, "suffix"@).diagnostics);
        lemma_then(c, b, attrs::tag_attr(source, span, "prefixOverrides"@).diagnostics);
        lemma_then(c, d, attrs::tag_attr(source, span, "suffixOverrides"@).diagnostics);
        lemma_then(c, e, inner.diagnostics);
        lemma_then(c, tags::noted(e, inner.diagnostics), edge);
    } else if name == "foreach"@ || name == "iterate"@ {
        let a = tags::after_read(source, c, span, "open"@);
        let b = tags::after_read(source, a, span, "close"@);
        let d = tags::after_read(source, b, span, "property"@);
        let e = tags::with_path(d, tags::attr_or_empty(source, span, "property"@), span);
        lemma_read(source, c, span, "open"@);
        lemma_then(c, a, attrs::tag_attr(source, span, "close"@).diagnostics);
        lemma_then(c, b, inner.diagnostics);
        lemma_then(c, b, attrs::tag_attr(source, span, "property"@).diagnostics);
        lemma_then(c, e, inner.diagnostics);
    } else if name == "dynamic"@ {
        lemma_read(source, c, span, "prepend"@);
        lemma_then(c, tags::after_read(source, c, span, "prepend"@), inner.diagnostics);
    } else if tags::starts_with_is(name) {
        let a = tags::after_read(source, c, span, "property"@);
        let b = tags::after_read(source, a, span, "compareValue"@);
        let d = tags::after_condition(source, c, span);
        lemma_read(source, c, span, "property"@);
        lemma_then(c, a, attrs::tag_attr(source, span, "compareValue"@).diagnostics);
        lemma_then(c, b, attrs::tag_attr(source, span, "compareProperty"@).diagnostics);
        lemma_then(c, d, attrs::tag_attr(source, span, "prepend"@).diagnostics);
        lemma_then(c, tags::after_read(source, d, span, "prepend"@), inner.diagnostics);
    } else {
        lemma_noted(c, seq![tags::unknown_tag(name, span)]);
        lemma_noted(c, Seq::empty());
        assert(c.diagnostics.take(c.diagnostics.len() as int) =~= c.diagnostics);
        let reported = if !tags::is_ignorable(name) && !c.inside_unknown {
            tags::noted(c, seq![tags::unknown_tag(name, span)])
        } else {
            c
        };
        let inside = CtxView {
            inside_unknown: c.inside_unknown || !tags::is_ignorable(name),
            ..reported
        };
        lemma_then(c, inside, inner.diagnostics);
    }
}

proof fn lemma_read(source: Seq<u8>, c: CtxView, span: ByteSpan, name: Seq<char>)
    ensures
        kept(c, tags::after_read(source, c, span, name)),
{
    lemma_noted(c, attrs::tag_attr(source, span, name).diagnostics);
}

proof fn lemma_then(c: CtxView, d: CtxView, more: Seq<DiagnosticView>)
    requires
        kept(c, d),
    ensures
        kept(c, tags::noted(d, more)),
{
    lemma_noted(d, more);
    lemma_kept(c, d, tags::noted(d, more));
}

/// Nothing that a walk has reported is lost on its way.
pub proof fn lemma_descend_grows(
    source: Seq<u8>,
    segments: Seq<SegmentView>,
    depth: int,
    c: CtxView,
)
    ensures
        flatten::descend(source, segments, depth, c) matches Ok((_, e)) ==> kept(c, e),
    decreases DEPTH_LIMIT - depth, 0int, 0int,
{
    if depth < DEPTH_LIMIT {
        lemma_body_keeps(source, segments, 0, seq![wrapper::no_alt()], depth + 1, c);
    } else {
        lemma_noted(c, seq![flatten::nesting_limit()]);
    }
}

proof fn lemma_body_keeps(
    source: Seq<u8>,
    segments: Seq<SegmentView>,
    k: int,
    acc: Seq<AltView>,
    depth: int,
    c: CtxView,
)
    requires
        0 <= k <= segments.len(),
        acc.len() <= BRANCH_LIMIT,
    ensures
        flatten::body_from(source, segments, k, acc, depth, c) matches Ok((_, e)) ==> kept(c, e),
    decreases DEPTH_LIMIT - depth, 3int, segments.len() - k,
{
    if k < segments.len() {
        ways::lemma_step(source, segments, k, acc, depth, c);
        lemma_at_keeps(source, segments, k, depth, c);
        let at = ways_at(source, segments, k, depth, c);
        if at is Ok {
            let local = at->Ok_0.0;
            let next = at->Ok_0.1;
            ways::lemma_pairs_len(acc, local, acc.len() as int);
            if acc.len() * local.len() <= BRANCH_LIMIT {
                let all = ways::all_pairs(acc, local);
                let to = next_of(segments, k);
                lemma_body_keeps(source, segments, to, all, depth, next);
                let r = flatten::body_from(source, segments, to, all, depth, next);
                if r is Ok {
                    lemma_kept(c, next, r->Ok_0.1);
                }
            }
        }
    } else {
        assert(c.diagnostics.take(c.diagnostics.len() as int) =~= c.diagnostics);
    }
}

proof fn lemma_at_keeps(
    source: Seq<u8>,
    segments: Seq<SegmentView>,
    k: int,
    depth: int,
    c: CtxView,
)
    requires
        0 <= k < segments.len(),
    ensures
        ways_at(source, segments, k, depth, c) matches Ok((_, e)) ==> kept(c, e),
    decreases DEPTH_LIMIT - depth, 2int, 0int,
{
    match segments[k] {
        SegmentView::Text { .. } => {
            let e = tags::after_text(segments, k, c);
            assert(e.diagnostics.take(c.diagnostics.len() as int) =~= c.diagnostics);
        },
        SegmentView::Tag { name, span } => {
            let open = tags::opened(source, c, name, span);
            lemma_opened_keeps(source, c, name, span);
            match open.action {
                ActionView::Choose(inner) => {
                    lemma_choose_keeps(source, inner, 0, Seq::empty(), false, depth, open.ctx);
                    let r = flatten::choose_from(
                        source,
                        inner,
                        0,
                        Seq::empty(),
                        false,
                        depth,
                        open.ctx,
                    );
                    if r is Ok {
                        lemma_kept(c, open.ctx, r->Ok_0.1);
                    }
                },
                ActionView::Descend { kind, restore, inner } => {
                    lemma_descend_grows(source, inner, depth, open.ctx);
                    let r = flatten::descend(source, inner, depth, open.ctx);
                    if r is Ok {
                        lemma_kept(c, open.ctx, r->Ok_0.1);
                    }
                },
                _ => {},
            }
        },
    }
}

proof fn lemma_choose_keeps(
    source: Seq<u8>,
    segments: Seq<SegmentView>,
    k: int,
    local: Seq<AltView>,
    has_otherwise: bool,
    depth: int,
    c: CtxView,
)
    requires
        0 <= k <= segments.len(),
    ensures
        flatten::choose_from(source, segments, k, local, has_otherwise, depth, c) matches Ok((_, e))
            ==> kept(c, e),
    decreases DEPTH_LIMIT - depth, 1int, segments.len() - k,
{
    if k < segments.len() {
        match segments[k] {
            SegmentView::Text { .. } => lemma_choose_keeps(
                source,
                segments,
                k + 1,
                local,
                has_otherwise,
                depth,
                c,
            ),
            SegmentView::Tag { name, span } => if name == "when"@ || name == "otherwise"@ {
                let inner = body::subtree(source, span);
                let test = attrs::tag_attr(source, span, "test"@).diagnostics;
                let read = if name == "when"@ {
                    tags::after_read(source, c, span, "test"@)
                } else {
                    c
                };
                let branch = if name == "when"@ {
                    BranchView::When(tags::attr_or_empty(source, span, "test"@))
                } else {
                    BranchView::Otherwise
                };
                lemma_noted(c, test);
                assert(c.diagnostics.take(c.diagnostics.len() as int) =~= c.diagnostics);
                let a = tags::noted(read, inner.diagnostics);
                lemma_noted(read, inner.diagnostics);
                lemma_kept(c, read, a);
                lemma_descend_grows(source, inner.segments, depth, a);
                let x = flatten::descend(source, inner.segments, depth, a);
                if x is Ok {
                    let next = x->Ok_0.1;
                    lemma_kept(c, a, next);
                    let all = flatten::chosen(local, branch, x->Ok_0.0);
                    if all is Ok {
                        let other = has_otherwise || name != "when"@;
                        lemma_choose_keeps(
                            source,
                            segments,
                            k + 1,
                            all->Ok_0,
                            other,
                            depth,
                            next,
                        );
                        let r = flatten::choose_from(
                            source,
                            segments,
                            k + 1,
                            all->Ok_0,
                            other,
                            depth,
                            next,
                        );
                        if r is Ok {
                            lemma_kept(c, next, r->Ok_0.1);
                        }
                    }
                }
            } else {
                let next = tags::noted(c, seq![flatten::stray_choice(name, span)]);
                lemma_noted(c, seq![flatten::stray_choice(name, span)]);
                lemma_choose_keeps(
                    source,
                    segments,
                    k + 1,
                    local,
                    has_otherwise,
                    depth,
                    next,
                );
                let r = flatten::choose_from(
                    source,
                    segments,
                    k + 1,
                    local,
                    has_otherwise,
                    depth,
                    next,
                );
                if r is Ok {
                    lemma_kept(c, next, r->Ok_0.1);
                }
            },
        }
    } else {
        assert(c.diagnostics.take(c.diagnostics.len() as int) =~= c.diagnostics);
    }
}

/// The first child of a `<choose>` that is no branch is reported at its place.
pub proof fn law_stray_choice_is_reported(
    source: Seq<u8>,
    segments: Seq<SegmentView>,
    k: int,
    local: Seq<AltView>,
    has_otherwise: bool,
    depth: int,
    c: CtxView,
    name: Seq<char>,
    span: ByteSpan,
)
    requires
        0 <= k < segments.len(),
        segments[k] == (SegmentView::Tag { name, span }),
        name != "when"@,
        name != "otherwise"@,
        flatten::choose_from(source, segments, k, local, has_otherwise, depth, c) is Ok,
    ensures
        ({
            let all = flatten::choose_from(
                source,
                segments,
                k,
                local,
                has_otherwise,
                depth,
                c,
            )->Ok_0.1.diagnostics;
            let n = c.diagnostics.len() as int;
            &&& all.len() > n
            &&& all[n].code == DiagCode::UnknownElement
            &&& all[n].span == Some(span)
        }),
{
    let next = tags::noted(c, seq![flatten::stray_choice(name, span)]);
    let n = c.diagnostics.len() as int;
    lemma_choose_keeps(source, segments, k + 1, local, has_otherwise, depth, next);
    let e = flatten::choose_from(
        source,
        segments,
        k + 1,
        local,
        has_otherwise,
        depth,
        next,
    )->Ok_0.1;
    assert(e.diagnostics.take(n + 1)[n] == next.diagnostics[n]);
}

/// What is nested deeper than the cap gives one way without text, nothing to
/// record but the report of it.
pub proof fn law_depth_cap(
    source: Seq<u8>,
    dialect: Dialect,
    segments: Seq<SegmentView>,
    depth: int,
)
    requires
        depth >= 256,
    ensures
        ({
            let all = ways(source, dialect, segments, depth);
            let notes = record(source, dialect, segments, depth).diagnostics;
            &&& all is Ok
            &&& all->Ok_0.len() == 1
            &&& all->Ok_0[0].pieces.len() == 0
            &&& all->Ok_0[0].conditions.len() == 0
            &&& notes.len() == 1
            &&& notes[0].code == DiagCode::NestingLimitExceeded
        }),
{
}

/// How deep tags are looked into, and how many ways are listed.
pub proof fn law_limits()
    ensures
        DEPTH_LIMIT == 256,
        BRANCH_LIMIT == 32,
        crate::MAX_INPUT_BYTES == 10485760,
{
}

} // verus!
