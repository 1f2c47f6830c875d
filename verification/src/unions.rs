//! The text of all branches of a body, said of bodies and their parts: every
//! branch is in it, once, in the order of the document.
use crate::body;
use crate::body::SegmentView;
use crate::finds;
use crate::finds::grew;
use crate::flatten;
use crate::model::{ByteSpan, Dialect};
use crate::placeholder;
use crate::sql;
use crate::sql::PieceView;
use crate::tags;
use crate::tags::{CtxView, DEPTH_LIMIT};
use crate::union_walk;
use crate::union_walk::Gathered;
use crate::ways;
use crate::ways::apart;
use vstd::prelude::*;
use vstd::string::*;

verus! {

/// What a walk over all branches of a body gathers.
pub open spec fn gathered(
    source: Seq<u8>,
    dialect: Dialect,
    segments: Seq<SegmentView>,
    depth: int,
) -> Gathered {
    union_walk::descend(source, segments, depth, tags::fresh_ctx(dialect))
}

/// `all` is what was there with what `more` holds.
spec fn added(pieces: Seq<PieceView>, c: CtxView, more: Gathered, all: Gathered) -> bool {
    &&& all.pieces == pieces + more.pieces
    &&& grew(c, more.ctx, all.ctx)
}

proof fn lemma_added(
    pieces: Seq<PieceView>,
    c: CtxView,
    first: Gathered,
    next: Gathered,
    rest: Gathered,
    all: Gathered,
    both: Gathered,
)
    requires
        added(pieces, c, first, next),
        added(next.pieces, next.ctx, rest, all),
        added(first.pieces, first.ctx, rest, both),
    ensures
        added(pieces, c, both, all),
{
    assert(pieces + first.pieces + rest.pieces =~= pieces + (first.pieces + rest.pieces));
    assert(c.paths + first.ctx.paths + rest.ctx.paths =~= c.paths + (first.ctx.paths
        + rest.ctx.paths));
    assert(c.includes + first.ctx.includes + rest.ctx.includes =~= c.includes + (
    first.ctx.includes + rest.ctx.includes));
}

/// What the run of text or the tag at `k` gives.
#[verifier::opaque]
spec fn gathered_at(
    source: Seq<u8>,
    segments: Seq<SegmentView>,
    k: int,
    depth: int,
    c: CtxView,
) -> Gathered {
    match segments[k] {
        SegmentView::Text { .. } => Gathered {
            pieces: seq![tags::text_piece(segments, k, c)],
            ctx: tags::after_text(segments, k, c),
        },
        SegmentView::Tag { name, span } => if name == "include"@ {
            Gathered {
                pieces: seq![
                    PieceView::Include { raw: tags::attr_or_empty(source, span, "refid"@), span },
                ],
                ctx: tags::after_include(source, c, span),
            }
        } else if name == "bind"@ {
            Gathered {
                pieces: Seq::empty(),
                ctx: tags::with_path(
                    tags::after_read(source, c, span, "value"@),
                    tags::attr_or_empty(source, span, "value"@),
                    span,
                ),
            }
        } else if name == "choose"@ {
            union_walk::gather_choices(
                source,
                body::subtree(source, span).segments,
                0,
                Seq::empty(),
                depth,
                tags::noted(c, body::subtree(source, span).diagnostics),
            )
        } else {
            union_walk::descend(
                source,
                body::subtree(source, span).segments,
                depth,
                union_walk::entered(source, c, name, span),
            )
        },
    }
}

proof fn lemma_step(
    source: Seq<u8>,
    segments: Seq<SegmentView>,
    k: int,
    pieces: Seq<PieceView>,
    depth: int,
    c: CtxView,
)
    requires
        0 <= k < segments.len(),
    ensures
        ({
            let at = gathered_at(source, segments, k, depth, c);
            union_walk::gather(source, segments, k, pieces, depth, c) == union_walk::gather(
                source,
                segments,
                ways::next_of(segments, k),
                pieces + at.pieces,
                depth,
                at.ctx,
            )
        }),
        k < ways::next_of(segments, k) <= segments.len(),
{
    reveal(gathered_at);
    tags::lemma_run_end(segments, k);
    let at = gathered_at(source, segments, k, depth, c);
    match segments[k] {
        SegmentView::Text { .. } => {
            assert(pieces + at.pieces =~= pieces.push(tags::text_piece(segments, k, c)));
        },
        SegmentView::Tag { name, span } => {
            if name == "include"@ {
                assert(pieces + at.pieces =~= pieces.push(at.pieces[0]));
            } else if name == "bind"@ {
                assert(pieces + at.pieces =~= pieces);
            }
        },
    }
}

proof fn lemma_descend_adds(
    source: Seq<u8>,
    segments: Seq<SegmentView>,
    depth: int,
    c: CtxView,
)
    ensures
        added(
            Seq::empty(),
            c,
            gathered(source, c.dialect, segments, depth),
            union_walk::descend(source, segments, depth, c),
        ),
    decreases DEPTH_LIMIT - depth, 0int, 0int, 0int,
{
    if depth < DEPTH_LIMIT {
        lemma_gather_adds(source, segments, 0, Seq::empty(), depth + 1, c);
    } else {
        lemma_nothing(Seq::empty(), c);
    }
}

proof fn lemma_nothing(pieces: Seq<PieceView>, c: CtxView)
    ensures
        added(
            pieces,
            c,
            Gathered { pieces: Seq::empty(), ctx: tags::fresh_ctx(c.dialect) },
            Gathered { pieces, ctx: c },
        ),
{
    assert(pieces + Seq::empty() =~= pieces);
    assert(c.paths + Seq::empty() =~= c.paths);
    assert(c.includes + Seq::empty() =~= c.includes);
}

proof fn lemma_gather_adds(
    source: Seq<u8>,
    segments: Seq<SegmentView>,
    k: int,
    pieces: Seq<PieceView>,
    depth: int,
    c: CtxView,
)
    requires
        0 <= k <= segments.len(),
    ensures
        added(
            pieces,
            c,
            union_walk::gather(
                source,
                segments,
                k,
                Seq::empty(),
                depth,
                tags::fresh_ctx(c.dialect),
            ),
            union_walk::gather(source, segments, k, pieces, depth, c),
        ),
    decreases DEPTH_LIMIT - depth, 3int, segments.len() - k, 0int,
{
    let f = tags::fresh_ctx(c.dialect);
    let none = Seq::<PieceView>::empty();
    if k < segments.len() {
        lemma_step(source, segments, k, pieces, depth, c);
        lemma_step(source, segments, k, none, depth, f);
        lemma_at_adds(source, segments, k, depth, c);
        let to = ways::next_of(segments, k);
        let at = gathered_at(source, segments, k, depth, c);
        let own = gathered_at(source, segments, k, depth, f);
        assert(none + own.pieces =~= own.pieces);
        lemma_gather_adds(source, segments, to, pieces + at.pieces, depth, at.ctx);
        lemma_gather_adds(source, segments, to, own.pieces, depth, own.ctx);
        lemma_added(
            pieces,
            c,
            own,
            Gathered { pieces: pieces + at.pieces, ctx: at.ctx },
            union_walk::gather(source, segments, to, none, depth, f),
            union_walk::gather(source, segments, to, pieces + at.pieces, depth, at.ctx),
            union_walk::gather(source, segments, to, own.pieces, depth, own.ctx),
        );
    } else {
        lemma_nothing(pieces, c);
    }
}

proof fn lemma_at_adds(source: Seq<u8>, segments: Seq<SegmentView>, k: int, depth: int, c: CtxView)
    requires
        0 <= k < segments.len(),
    ensures
        ({
            let at = gathered_at(source, segments, k, depth, c);
            let own = gathered_at(source, segments, k, depth, tags::fresh_ctx(c.dialect));
            &&& at.pieces == own.pieces
            &&& grew(c, own.ctx, at.ctx)
        }),
    decreases DEPTH_LIMIT - depth, 2int, 0int, 0int,
{
    reveal(gathered_at);
    let f = tags::fresh_ctx(c.dialect);
    let at = gathered_at(source, segments, k, depth, c);
    let own = gathered_at(source, segments, k, depth, f);
    match segments[k] {
        SegmentView::Text { .. } => {
            assert(at.ctx.paths =~= c.paths + own.ctx.paths);
            assert(at.ctx.includes =~= c.includes + own.ctx.includes);
        },
        SegmentView::Tag { name, span } => {
            let inner = body::subtree(source, span);
            if name == "include"@ || name == "bind"@ {
                assert(at.ctx.paths =~= c.paths + own.ctx.paths);
                assert(at.ctx.includes =~= c.includes + own.ctx.includes);
            } else if name == "choose"@ {
                let a = tags::noted(c, inner.diagnostics);
                let b = tags::noted(f, inner.diagnostics);
                lemma_choices_add(source, inner.segments, 0, Seq::empty(), depth, a);
                lemma_choices_add(source, inner.segments, 0, Seq::empty(), depth, b);
                assert(own.ctx.paths =~= b.paths + own.ctx.paths);
                assert(own.ctx.includes =~= b.includes + own.ctx.includes);
                let rest = union_walk::gather_choices(
                    source,
                    inner.segments,
                    0,
                    Seq::empty(),
                    depth,
                    f,
                );
                assert(b.paths + rest.ctx.paths =~= rest.ctx.paths);
                assert(b.includes + rest.ctx.includes =~= rest.ctx.includes);
                assert(Seq::empty() + rest.pieces =~= rest.pieces);
            } else {
                let a = union_walk::entered(source, c, name, span);
                let b = union_walk::entered(source, f, name, span);
                lemma_descend_adds(source, inner.segments, depth, a);
                lemma_descend_adds(source, inner.segments, depth, b);
                assert(a.paths =~= c.paths + b.paths);
                assert(a.includes =~= c.includes + b.includes);
                let rest = gathered(source, c.dialect, inner.segments, depth);
                assert(c.paths + b.paths + rest.ctx.paths =~= c.paths + (b.paths
                    + rest.ctx.paths));
                assert(c.includes + b.includes + rest.ctx.includes =~= c.includes + (b.includes
                    + rest.ctx.includes));
            }
        },
    }
}

proof fn lemma_choices_add(
    source: Seq<u8>,
    segments: Seq<SegmentView>,
    k: int,
    pieces: Seq<PieceView>,
    depth: int,
    c: CtxView,
)
    requires
        0 <= k <= segments.len(),
    ensures
        added(
            pieces,
            c,
            union_walk::gather_choices(
                source,
                segments,
                k,
                Seq::empty(),
                depth,
                tags::fresh_ctx(c.dialect),
            ),
            union_walk::gather_choices(source, segments, k, pieces, depth, c),
        ),
    decreases DEPTH_LIMIT - depth, 1int, segments.len() - k, 0int,
{
    let f = tags::fresh_ctx(c.dialect);
    let none = Seq::<PieceView>::empty();
    if k < segments.len() {
        if segments[k] matches SegmentView::Tag { name, span } && (name == "when"@ || name
            == "otherwise"@) {
            let span = body::segment_span(segments[k]);
            let inner = body::subtree(source, span);
            let a = tags::noted(c, inner.diagnostics);
            let b = tags::noted(f, inner.diagnostics);
            lemma_descend_adds(source, inner.segments, depth, a);
            lemma_descend_adds(source, inner.segments, depth, b);
            let at = union_walk::descend(source, inner.segments, depth, a);
            let own = union_walk::descend(source, inner.segments, depth, b);
            let rest = gathered(source, c.dialect, inner.segments, depth);
            assert(f.paths + rest.ctx.paths =~= rest.ctx.paths);
            assert(f.includes + rest.ctx.includes =~= rest.ctx.includes);
            assert(none + rest.pieces =~= rest.pieces);
            assert(none + own.pieces =~= own.pieces);
            lemma_choices_add(source, segments, k + 1, pieces + at.pieces, depth, at.ctx);
            lemma_choices_add(source, segments, k + 1, own.pieces, depth, own.ctx);
            lemma_added(
                pieces,
                c,
                own,
                Gathered { pieces: pieces + at.pieces, ctx: at.ctx },
                union_walk::gather_choices(source, segments, k + 1, none, depth, f),
                union_walk::gather_choices(
                    source,
                    segments,
                    k + 1,
                    pieces + at.pieces,
                    depth,
                    at.ctx,
                ),
                union_walk::gather_choices(
                    source,
                    segments,
                    k + 1,
                    own.pieces,
                    depth,
                    own.ctx,
                ),
            );
        } else {
            lemma_choices_add(source, segments, k + 1, pieces, depth, c);
        }
    } else {
        lemma_nothing(pieces, c);
    }
}

proof fn lemma_same_at(
    source: Seq<u8>,
    a: Seq<SegmentView>,
    b: Seq<SegmentView>,
    k: int,
    depth: int,
    c: CtxView,
)
    requires
        apart(a, b),
        0 <= k < a.len() + b.len(),
    ensures
        k < a.len() ==> gathered_at(source, a + b, k, depth, c) == gathered_at(
            source,
            a,
            k,
            depth,
            c,
        ),
        k >= a.len() ==> gathered_at(source, a + b, k, depth, c) == gathered_at(
            source,
            b,
            k - a.len(),
            depth,
            c,
        ),
{
    reveal(gathered_at);
    let all = a + b;
    ways::lemma_run_apart(a, b, k);
    tags::lemma_run_end(all, k);
    if k < a.len() {
        assert(all[k] == a[k]);
        tags::lemma_run_end(a, k);
        assert(all.subrange(k, tags::run_end(a, k)) =~= a.subrange(k, tags::run_end(a, k)));
    } else {
        let j = k - a.len();
        assert(all[k] == b[j]);
        tags::lemma_run_end(b, j);
        assert(all.subrange(k, a.len() + tags::run_end(b, j)) =~= b.subrange(
            j,
            tags::run_end(b, j),
        ));
    }
}

proof fn lemma_second(
    source: Seq<u8>,
    a: Seq<SegmentView>,
    b: Seq<SegmentView>,
    j: int,
    pieces: Seq<PieceView>,
    depth: int,
    c: CtxView,
)
    requires
        apart(a, b),
        0 <= j <= b.len(),
    ensures
        union_walk::gather(source, a + b, a.len() + j, pieces, depth, c) == union_walk::gather(
            source,
            b,
            j,
            pieces,
            depth,
            c,
        ),
    decreases b.len() - j,
{
    if j < b.len() {
        let k = a.len() + j;
        ways::lemma_at_apart(source, a, b, k, depth, c);
        lemma_same_at(source, a, b, k, depth, c);
        lemma_step(source, a + b, k, pieces, depth, c);
        lemma_step(source, b, j, pieces, depth, c);
        let at = gathered_at(source, b, j, depth, c);
        lemma_second(
            source,
            a,
            b,
            ways::next_of(b, j),
            pieces + at.pieces,
            depth,
            at.ctx,
        );
    }
}

proof fn lemma_parts(
    source: Seq<u8>,
    a: Seq<SegmentView>,
    b: Seq<SegmentView>,
    k: int,
    pieces: Seq<PieceView>,
    depth: int,
    c: CtxView,
)
    requires
        apart(a, b),
        0 <= k <= a.len(),
    ensures
        union_walk::gather(source, a + b, k, pieces, depth, c) == ({
            let first = union_walk::gather(source, a, k, pieces, depth, c);
            union_walk::gather(source, b, 0, first.pieces, depth, first.ctx)
        }),
    decreases a.len() - k,
{
    if k < a.len() {
        ways::lemma_at_apart(source, a, b, k, depth, c);
        lemma_same_at(source, a, b, k, depth, c);
        lemma_step(source, a + b, k, pieces, depth, c);
        lemma_step(source, a, k, pieces, depth, c);
        let at = gathered_at(source, a, k, depth, c);
        lemma_parts(
            source,
            a,
            b,
            ways::next_of(a, k),
            pieces + at.pieces,
            depth,
            at.ctx,
        );
    } else {
        lemma_second(source, a, b, 0, pieces, depth, c);
    }
}

/// A body of two parts gives the text of the first followed by that of the
/// second, and what is found in both.
pub proof fn law_union_of_parts(
    source: Seq<u8>,
    dialect: Dialect,
    a: Seq<SegmentView>,
    b: Seq<SegmentView>,
    depth: int,
)
    requires
        depth < DEPTH_LIMIT,
        apart(a, b),
    ensures
        ({
            let x = gathered(source, dialect, a, depth);
            let y = gathered(source, dialect, b, depth);
            let z = gathered(source, dialect, a + b, depth);
            &&& z.pieces == x.pieces + y.pieces
            &&& z.ctx.paths == x.ctx.paths + y.ctx.paths
            &&& z.ctx.includes == x.ctx.includes + y.ctx.includes
        }),
{
    let ctx = tags::fresh_ctx(dialect);
    lemma_parts(source, a, b, 0, Seq::empty(), depth + 1, ctx);
    let x = gathered(source, dialect, a, depth);
    lemma_gather_adds(source, a, 0, Seq::empty(), depth + 1, ctx);
    lemma_gather_adds(source, b, 0, x.pieces, depth + 1, x.ctx);
}

proof fn lemma_one(source: Seq<u8>, dialect: Dialect, segment: SegmentView, depth: int)
    requires
        depth < DEPTH_LIMIT,
    ensures
        gathered(source, dialect, seq![segment], depth) == gathered_at(
            source,
            seq![segment],
            0,
            depth + 1,
            tags::fresh_ctx(dialect),
        ),
{
    let ctx = tags::fresh_ctx(dialect);
    let at = gathered_at(source, seq![segment], 0, depth + 1, ctx);
    lemma_step(source, seq![segment], 0, Seq::empty(), depth + 1, ctx);
    assert(Seq::empty() + at.pieces =~= at.pieces);
}

/// Every tag around a body, conditional or not, gives the text of its body as it
/// stands, and what is found there behind what the tag gives itself.
pub proof fn law_union_of_a_tag(
    source: Seq<u8>,
    dialect: Dialect,
    name: Seq<char>,
    span: ByteSpan,
    depth: int,
)
    requires
        depth < DEPTH_LIMIT,
        name != "include"@,
        name != "bind"@,
        name != "choose"@,
    ensures
        ({
            let x = gathered(source, dialect, body::subtree(source, span).segments, depth + 1);
            let z = gathered(source, dialect, seq![SegmentView::Tag { name, span }], depth);
            &&& z.pieces == x.pieces
            &&& z.ctx.paths == finds::own_path(source, name, span) + x.ctx.paths
            &&& z.ctx.includes == x.ctx.includes
        }),
{
    reveal(gathered_at);
    let ctx = tags::fresh_ctx(dialect);
    let inner = body::subtree(source, span).segments;
    lemma_one(source, dialect, SegmentView::Tag { name, span }, depth);
    let a = union_walk::entered(source, ctx, name, span);
    lemma_descend_adds(source, inner, depth + 1, a);
    let x = gathered(source, dialect, inner, depth + 1);
    assert(Seq::empty() + x.pieces =~= x.pieces);
    assert(a.paths =~= finds::own_path(source, name, span));
    assert(a.includes + x.ctx.includes =~= x.ctx.includes);
}

/// An `<include>` gives its piece and its reference, a `<bind>` its path.
pub proof fn law_union_of_include_and_bind(
    source: Seq<u8>,
    dialect: Dialect,
    span: ByteSpan,
    depth: int,
)
    requires
        depth < DEPTH_LIMIT,
    ensures
        ({
            let z = gathered(
                source,
                dialect,
                seq![SegmentView::Tag { name: "include"@, span }],
                depth,
            );
            &&& z.pieces == seq![
                PieceView::Include { raw: tags::attr_or_empty(source, span, "refid"@), span },
            ]
            &&& match tags::attr_opt(source, span, "refid"@) {
                Some(raw) => z.ctx.includes.len() == 1 && z.ctx.includes[0].span == span
                    && z.ctx.includes[0].value.raw == raw && z.ctx.includes[0].value.target
                    == tags::classified(raw, dialect),
                None => z.ctx.includes.len() == 0,
            }
        }),
        ({
            let z = gathered(
                source,
                dialect,
                seq![SegmentView::Tag { name: "bind"@, span }],
                depth,
            );
            &&& z.pieces.len() == 0
            &&& z.ctx.paths == finds::own_path(source, "bind"@, span)
        }),
{
    reveal(gathered_at);
    ways::lemma_tag_names();
    lemma_one(source, dialect, SegmentView::Tag { name: "include"@, span }, depth);
    lemma_one(source, dialect, SegmentView::Tag { name: "bind"@, span }, depth);
    let z = gathered(source, dialect, seq![SegmentView::Tag { name: "bind"@, span }], depth);
    assert(z.ctx.paths =~= finds::own_path(source, "bind"@, span));
}

/// The pieces of a branch of a `<choose>`.
pub open spec fn branch_pieces(
    source: Seq<u8>,
    dialect: Dialect,
    child: SegmentView,
    depth: int,
) -> Seq<PieceView> {
    match child {
        SegmentView::Tag { name, span } => if name == "when"@ || name == "otherwise"@ {
            gathered(source, dialect, body::subtree(source, span).segments, depth).pieces
        } else {
            Seq::empty()
        },
        _ => Seq::empty(),
    }
}

/// A `<choose>` gives the text of all its branches, one after the other.
pub proof fn law_union_of_choose(source: Seq<u8>, dialect: Dialect, span: ByteSpan, depth: int)
    requires
        depth < DEPTH_LIMIT,
    ensures
        gathered(source, dialect, seq![SegmentView::Tag { name: "choose"@, span }], depth).pieces
            == body::subtree(source, span).segments.map_values(
            |child: SegmentView| branch_pieces(source, dialect, child, depth + 1),
        ).flatten(),
{
    reveal(gathered_at);
    ways::lemma_tag_names();
    let ctx = tags::fresh_ctx(dialect);
    let inner = body::subtree(source, span);
    lemma_one(source, dialect, SegmentView::Tag { name: "choose"@, span }, depth);
    lemma_branches(
        source,
        inner.segments,
        0,
        Seq::empty(),
        depth + 1,
        tags::noted(ctx, inner.diagnostics),
    );
    assert(inner.segments.skip(0) =~= inner.segments);
    let all = inner.segments.map_values(
        |child: SegmentView| branch_pieces(source, dialect, child, depth + 1),
    ).flatten();
    assert(Seq::empty() + all =~= all);
}

proof fn lemma_branches(
    source: Seq<u8>,
    segments: Seq<SegmentView>,
    k: int,
    pieces: Seq<PieceView>,
    depth: int,
    c: CtxView,
)
    requires
        0 <= k <= segments.len(),
    ensures
        union_walk::gather_choices(source, segments, k, pieces, depth, c).pieces == pieces
            + segments.skip(k).map_values(
            |child: SegmentView| branch_pieces(source, c.dialect, child, depth),
        ).flatten(),
    decreases segments.len() - k,
{
    let f = |child: SegmentView| branch_pieces(source, c.dialect, child, depth);
    let p = segments.skip(k).map_values(f);
    if k < segments.len() {
        let own = branch_pieces(source, c.dialect, segments[k], depth);
        let q = segments.skip(k + 1).map_values(f);
        assert(p.drop_first() =~= q);
        assert(p.first() == own);
        assert(p.flatten() == own + q.flatten());
        assert(pieces + own + q.flatten() =~= pieces + (own + q.flatten()));
        if segments[k] matches SegmentView::Tag { name, span } && (name == "when"@ || name
            == "otherwise"@) {
            let inner = body::subtree(source, body::segment_span(segments[k]));
            let a = tags::noted(c, inner.diagnostics);
            lemma_descend_adds(source, inner.segments, depth, a);
            let at = union_walk::descend(source, inner.segments, depth, a);
            assert(Seq::empty() + own =~= own);
            lemma_branches(source, segments, k + 1, pieces + at.pieces, depth, at.ctx);
        } else {
            assert(pieces + own =~= pieces);
            lemma_branches(source, segments, k + 1, pieces, depth, c);
        }
    } else {
        assert(pieces + p.flatten() =~= pieces);
    }
}

/// Text alone gives itself with its placeholders normalized.
pub proof fn law_union_of_text(
    source: Seq<u8>,
    dialect: Dialect,
    segments: Seq<SegmentView>,
    depth: int,
)
    requires
        depth < DEPTH_LIMIT,
        segments.len() > 0,
        forall|k: int| 0 <= k < segments.len() ==> (#[trigger] segments[k]) is Text,
    ensures
        ({
            let norm = placeholder::normalized(
                Seq::new(
                    segments.len(),
                    |k: int|
                        placeholder::RunView {
                            decoded: segments[k]->decoded,
                            span: segments[k]->Text_span,
                        },
                ),
                dialect,
            );
            let z = gathered(source, dialect, segments, depth);
            &&& z.pieces == seq![PieceView::Normalized { text: norm.text, map: norm.map }]
            &&& z.ctx.paths == norm.paths
        }),
{
    reveal(gathered_at);
    let ctx = tags::fresh_ctx(dialect);
    let n = segments.len() as int;
    lemma_step(source, segments, 0, Seq::empty(), depth + 1, ctx);
    ways::lemma_all_text(segments, 0);
    assert(segments[0] is Text);
    let runs = Seq::new(
        segments.len(),
        |k: int|
            placeholder::RunView {
                decoded: segments[k]->decoded,
                span: segments[k]->Text_span,
            },
    );
    assert(segments.subrange(0, n) =~= segments);
    assert(tags::runs_of(segments, 0, n) =~= runs);
    let norm = placeholder::normalized(runs, dialect);
    let at = gathered_at(source, segments, 0, depth + 1, ctx);
    assert(Seq::empty() + at.pieces =~= at.pieces);
    assert(ctx.paths + norm.paths =~= norm.paths);
}

/// A body with too many ways is the text of all its branches, and what is found
/// in all of them.
pub proof fn law_too_many_ways_give_the_union(
    source: Seq<u8>,
    dialect: Dialect,
    segments: Seq<SegmentView>,
)
    requires
        ways::ways(source, dialect, segments, 0) is Err,
    ensures
        ({
            let flat = flatten::flat_body(source, dialect, segments);
            let all = gathered(source, dialect, segments, 0);
            &&& flat.sql is Union
            &&& flat.sql->text.text == sql::assembly(all.pieces).text
            &&& flat.paths == all.ctx.paths
            &&& flat.includes == all.ctx.includes
        }),
{
}

} // verus!
