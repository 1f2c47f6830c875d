//! The ways through the branches of a body, said of bodies and their parts: how
//! the ways of a body come from those of its segments, and those of a tag from
//! those of what stands in it.
use crate::body;
use crate::body::SegmentView;
use crate::flatten;
use crate::flatten::{BranchView, Flat, PendingView};
use crate::model::{ByteSpan, Dialect, SqlTextView};
use crate::placeholder;
use crate::sql;
use crate::sql::PieceView;
use crate::tags;
use crate::tags::{ActionView, CtxView, DEPTH_LIMIT};
use crate::text;
use crate::wrapper;
use crate::wrapper::{AltView, KindView, BRANCH_LIMIT};
use vstd::prelude::*;
use vstd::string::*;
use vstd::utf8::*;

verus! {

/// The ways through the branches of a body that stands at a depth of nesting,
/// or how many there would have been.
pub open spec fn ways(
    source: Seq<u8>,
    dialect: Dialect,
    segments: Seq<SegmentView>,
    depth: int,
) -> Result<Seq<AltView>, nat> {
    alts_of(flatten::descend(source, segments, depth, tags::fresh_ctx(dialect)))
}

pub open spec fn alts_of(flat: Flat) -> Result<Seq<AltView>, nat> {
    match flat {
        Ok((alts, _)) => Ok(alts),
        Err(n) => Err(n),
    }
}

// ---- what is recorded does not matter -----------------------------------

pub open spec fn alike(a: Flat, b: Flat) -> bool {
    match a {
        Ok((x, c)) => match b {
            Ok((y, d)) => x == y && c.dialect == d.dialect,
            Err(_) => false,
        },
        Err(n) => b == Err::<(Seq<AltView>, CtxView), nat>(n),
    }
}

pub proof fn lemma_opened_alike(
    source: Seq<u8>,
    c: CtxView,
    d: CtxView,
    name: Seq<char>,
    span: ByteSpan,
)
    requires
        c.dialect == d.dialect,
    ensures
        ({
            let a = tags::opened(source, c, name, span);
            let b = tags::opened(source, d, name, span);
            &&& a.ctx.dialect == c.dialect
            &&& b.ctx.dialect == c.dialect
            &&& match a.action {
                ActionView::Descend { kind, inner, .. } => b.action is Descend && b.action->kind
                    == kind && b.action->inner == inner,
                _ => b.action == a.action,
            }
        }),
{
    reveal(tags::opened);
}

pub proof fn lemma_descend_alike(
    source: Seq<u8>,
    segments: Seq<SegmentView>,
    depth: int,
    c: CtxView,
    d: CtxView,
)
    requires
        c.dialect == d.dialect,
    ensures
        alike(
            flatten::descend(source, segments, depth, c),
            flatten::descend(source, segments, depth, d),
        ),
        flatten::descend(source, segments, depth, c) matches Ok((_, e)) ==> e.dialect == c.dialect,
    decreases DEPTH_LIMIT - depth, 0int, 0int,
{
    if depth < DEPTH_LIMIT {
        lemma_body_alike(source, segments, 0, seq![wrapper::no_alt()], depth + 1, c, d);
    }
}

#[verifier::rlimit(40)]
pub proof fn lemma_body_alike(
    source: Seq<u8>,
    segments: Seq<SegmentView>,
    k: int,
    acc: Seq<AltView>,
    depth: int,
    c: CtxView,
    d: CtxView,
)
    requires
        c.dialect == d.dialect,
    ensures
        alike(
            flatten::body_from(source, segments, k, acc, depth, c),
            flatten::body_from(source, segments, k, acc, depth, d),
        ),
        flatten::body_from(source, segments, k, acc, depth, c) matches Ok((_, e)) ==> e.dialect
            == c.dialect,
    decreases DEPTH_LIMIT - depth, 2int, segments.len() - k,
{
    if k < segments.len() {
        match segments[k] {
            SegmentView::Text { .. } => {
                tags::lemma_run_end(segments, k);
                lemma_body_alike(
                    source,
                    segments,
                    tags::run_end(segments, k),
                    flatten::with_piece(acc, tags::text_piece(segments, k, c)),
                    depth,
                    tags::after_text(segments, k, c),
                    tags::after_text(segments, k, d),
                );
            },
            SegmentView::Tag { name, span } => {
                lemma_opened_alike(source, c, d, name, span);
                let a = tags::opened(source, c, name, span);
                let b = tags::opened(source, d, name, span);
                match a.action {
                    ActionView::Skip => lemma_body_alike(
                        source,
                        segments,
                        k + 1,
                        acc,
                        depth,
                        a.ctx,
                        b.ctx,
                    ),
                    ActionView::Add(piece) => lemma_body_alike(
                        source,
                        segments,
                        k + 1,
                        flatten::with_piece(acc, piece),
                        depth,
                        a.ctx,
                        b.ctx,
                    ),
                    ActionView::Choose(inner) => {
                        lemma_choose_alike(
                            source,
                            inner,
                            0,
                            Seq::empty(),
                            false,
                            depth,
                            a.ctx,
                            b.ctx,
                        );
                        let x = flatten::choose_from(
                            source,
                            inner,
                            0,
                            Seq::empty(),
                            false,
                            depth,
                            a.ctx,
                        );
                        let y = flatten::choose_from(
                            source,
                            inner,
                            0,
                            Seq::empty(),
                            false,
                            depth,
                            b.ctx,
                        );
                        if x is Ok {
                            let pending = PendingView {
                                span,
                                kind: KindView::Identity,
                                restore: None,
                            };
                            let p = flatten::delivered(source, acc, pending, x->Ok_0.0, x->Ok_0.1);
                            let q = flatten::delivered(source, acc, pending, y->Ok_0.0, y->Ok_0.1);
                            if p is Ok {
                                lemma_body_alike(
                                    source,
                                    segments,
                                    k + 1,
                                    p->Ok_0.0,
                                    depth,
                                    p->Ok_0.1,
                                    q->Ok_0.1,
                                );
                            }
                        }
                    },
                    ActionView::Descend { kind, restore, inner } => {
                        lemma_descend_alike(source, inner, depth, a.ctx, b.ctx);
                        let x = flatten::descend(source, inner, depth, a.ctx);
                        let y = flatten::descend(source, inner, depth, b.ctx);
                        if x is Ok {
                            let p = flatten::delivered(
                                source,
                                acc,
                                PendingView { span, kind, restore },
                                x->Ok_0.0,
                                x->Ok_0.1,
                            );
                            let q = flatten::delivered(
                                source,
                                acc,
                                PendingView { span, kind, restore: b.action->restore },
                                y->Ok_0.0,
                                y->Ok_0.1,
                            );
                            if p is Ok {
                                lemma_body_alike(
                                    source,
                                    segments,
                                    k + 1,
                                    p->Ok_0.0,
                                    depth,
                                    p->Ok_0.1,
                                    q->Ok_0.1,
                                );
                            }
                        }
                    },
                }
            },
        }
    }
}

pub proof fn lemma_choose_alike(
    source: Seq<u8>,
    segments: Seq<SegmentView>,
    k: int,
    local: Seq<AltView>,
    has_otherwise: bool,
    depth: int,
    c: CtxView,
    d: CtxView,
)
    requires
        c.dialect == d.dialect,
    ensures
        alike(
            flatten::choose_from(source, segments, k, local, has_otherwise, depth, c),
            flatten::choose_from(source, segments, k, local, has_otherwise, depth, d),
        ),
        flatten::choose_from(source, segments, k, local, has_otherwise, depth, c) matches Ok((_, e))
            ==> e.dialect == c.dialect,
    decreases DEPTH_LIMIT - depth, 1int, segments.len() - k,
{
    if k < segments.len() {
        match segments[k] {
            SegmentView::Text { .. } => lemma_choose_alike(
                source,
                segments,
                k + 1,
                local,
                has_otherwise,
                depth,
                c,
                d,
            ),
            SegmentView::Tag { name, span } => if name == "when"@ || name == "otherwise"@ {
                let inner = body::subtree(source, span);
                let a = if name == "when"@ {
                    tags::after_read(source, c, span, "test"@)
                } else {
                    c
                };
                let b = if name == "when"@ {
                    tags::after_read(source, d, span, "test"@)
                } else {
                    d
                };
                let branch = if name == "when"@ {
                    BranchView::When(tags::attr_or_empty(source, span, "test"@))
                } else {
                    BranchView::Otherwise
                };
                lemma_descend_alike(
                    source,
                    inner.segments,
                    depth,
                    tags::noted(a, inner.diagnostics),
                    tags::noted(b, inner.diagnostics),
                );
                let x = flatten::descend(
                    source,
                    inner.segments,
                    depth,
                    tags::noted(a, inner.diagnostics),
                );
                let y = flatten::descend(
                    source,
                    inner.segments,
                    depth,
                    tags::noted(b, inner.diagnostics),
                );
                if x is Ok {
                    let all = flatten::chosen(local, branch, x->Ok_0.0);
                    if all is Ok {
                        lemma_choose_alike(
                            source,
                            segments,
                            k + 1,
                            all->Ok_0,
                            has_otherwise || name != "when"@,
                            depth,
                            x->Ok_0.1,
                            y->Ok_0.1,
                        );
                    }
                }
            } else {
                lemma_choose_alike(
                    source,
                    segments,
                    k + 1,
                    local,
                    has_otherwise,
                    depth,
                    tags::noted(c, seq![flatten::stray_choice(name, span)]),
                    tags::noted(d, seq![flatten::stray_choice(name, span)]),
                );
            },
        }
    }
}

/// The ways through a body are the same wherever in a walk it is met.
pub proof fn lemma_ways(source: Seq<u8>, segments: Seq<SegmentView>, depth: int, ctx: CtxView)
    ensures
        alts_of(flatten::descend(source, segments, depth, ctx)) == ways(
            source,
            ctx.dialect,
            segments,
            depth,
        ),
        flatten::descend(source, segments, depth, ctx) matches Ok((_, e)) ==> e.dialect
            == ctx.dialect,
{
    lemma_descend_alike(source, segments, depth, ctx, tags::fresh_ctx(ctx.dialect));
}

// ---- products -----------------------------------------------------------

pub open spec fn row(a: AltView, local: Seq<AltView>) -> Seq<AltView> {
    Seq::new(local.len(), |j: int| wrapper::joined(a, local[j]))
}

pub open spec fn all_pairs(acc: Seq<AltView>, local: Seq<AltView>) -> Seq<AltView> {
    wrapper::combined(acc, local, acc.len() as int)
}

proof fn lemma_joined(a: AltView, b: AltView, c: AltView)
    ensures
        wrapper::joined(wrapper::joined(a, b), c) == wrapper::joined(a, wrapper::joined(b, c)),
        wrapper::joined(wrapper::no_alt(), a) == a,
        wrapper::joined(a, wrapper::no_alt()) == a,
{
    assert(a.pieces + b.pieces + c.pieces =~= a.pieces + (b.pieces + c.pieces));
    assert(a.conditions + b.conditions + c.conditions =~= a.conditions + (b.conditions
        + c.conditions));
    assert(Seq::empty() + a.pieces =~= a.pieces);
    assert(Seq::empty() + a.conditions =~= a.conditions);
    assert(a.pieces + Seq::empty() =~= a.pieces);
    assert(a.conditions + Seq::empty() =~= a.conditions);
}

pub proof fn lemma_pairs_len(acc: Seq<AltView>, local: Seq<AltView>, n: int)
    requires
        0 <= n,
    ensures
        wrapper::combined(acc, local, n).len() == n * local.len(),
    decreases n,
{
    let m = local.len() as int;
    if n > 0 {
        lemma_pairs_len(acc, local, n - 1);
        assert((n - 1) * m + m == n * m) by (nonlinear_arith);
    } else {
        assert(0 * m == 0) by (nonlinear_arith);
    }
}

proof fn lemma_pair_at(acc: Seq<AltView>, local: Seq<AltView>, n: int, i: int, j: int)
    requires
        0 <= i < n <= acc.len(),
        0 <= j < local.len(),
    ensures
        0 <= i * local.len() + j < n * local.len(),
        wrapper::combined(acc, local, n).len() == n * local.len(),
        wrapper::combined(acc, local, n)[i * local.len() + j] == wrapper::joined(acc[i], local[j]),
    decreases n,
{
    let m = local.len() as int;
    lemma_pairs_len(acc, local, n);
    lemma_pairs_len(acc, local, n - 1);
    assert((n - 1) * m + m == n * m) by (nonlinear_arith);
    assert(0 <= i * m) by (nonlinear_arith)
        requires
            0 <= i,
            0 <= m,
    ;
    if i < n - 1 {
        lemma_pair_at(acc, local, n - 1, i, j);
    }
}

proof fn lemma_pairs_of_sum(
    x: Seq<AltView>,
    y: Seq<AltView>,
    local: Seq<AltView>,
    n: int,
)
    requires
        0 <= n <= x.len() + y.len(),
    ensures
        n <= x.len() ==> wrapper::combined(x + y, local, n) == wrapper::combined(x, local, n),
        n >= x.len() ==> wrapper::combined(x + y, local, n) == all_pairs(x, local)
            + wrapper::combined(y, local, n - x.len()),
    decreases n,
{
    if n > 0 {
        lemma_pairs_of_sum(x, y, local, n - 1);
        if n <= x.len() {
            assert((x + y)[n - 1] == x[n - 1]);
            if n == x.len() {
                assert(all_pairs(x, local) + wrapper::combined(y, local, 0) =~= all_pairs(
                    x,
                    local,
                ));
            }
        } else {
            assert((x + y)[n - 1] == y[n - 1 - x.len()]);
            let more = Seq::new(local.len(), |j: int| wrapper::joined((x + y)[n - 1], local[j]));
            assert(all_pairs(x, local) + wrapper::combined(y, local, n - 1 - x.len()) + more
                =~= all_pairs(x, local) + (wrapper::combined(y, local, n - 1 - x.len()) + more));
        }
    } else if x.len() == 0 {
        assert(all_pairs(x, local) + wrapper::combined(y, local, 0) =~= Seq::empty());
    }
}

proof fn lemma_pairs_of_row(a: AltView, b: Seq<AltView>, c: Seq<AltView>, n: int)
    requires
        0 <= n <= b.len(),
    ensures
        wrapper::combined(row(a, b), c, n) == row(a, wrapper::combined(b, c, n)),
    decreases n,
{
    if n > 0 {
        lemma_pairs_of_row(a, b, c, n - 1);
        let before = wrapper::combined(b, c, n - 1);
        let more = Seq::new(c.len(), |j: int| wrapper::joined(b[n - 1], c[j]));
        let left = Seq::new(c.len(), |j: int| wrapper::joined(row(a, b)[n - 1], c[j]));
        assert forall|j: int| 0 <= j < c.len() implies left[j] == row(a, more)[j] by {
            lemma_joined(a, b[n - 1], c[j]);
        }
        assert(left =~= row(a, more));
        assert(row(a, before + more) =~= row(a, before) + row(a, more));
    } else {
        assert(row(a, wrapper::combined(b, c, 0)) =~= Seq::empty());
    }
}

/// Products can be taken in any grouping.
proof fn lemma_pairs_of_pairs(a: Seq<AltView>, b: Seq<AltView>, c: Seq<AltView>, n: int)
    requires
        0 <= n <= a.len(),
    ensures
        all_pairs(wrapper::combined(a, b, n), c) == wrapper::combined(a, all_pairs(b, c), n),
    decreases n,
{
    if n > 0 {
        lemma_pairs_of_pairs(a, b, c, n - 1);
        let before = wrapper::combined(a, b, n - 1);
        let more = row(a[n - 1], b);
        assert(wrapper::combined(a, b, n) =~= before + more);
        lemma_pairs_of_sum(before, more, c, before.len() as int + more.len() as int);
        lemma_pairs_of_row(a[n - 1], b, c, b.len() as int);
        assert(row(a[n - 1], all_pairs(b, c)) =~= Seq::new(
            all_pairs(b, c).len(),
            |j: int| wrapper::joined(a[n - 1], all_pairs(b, c)[j]),
        ));
    }
}

pub proof fn lemma_pairs_with_none(local: Seq<AltView>)
    ensures
        all_pairs(seq![wrapper::no_alt()], local) == local,
        all_pairs(local, seq![wrapper::no_alt()]) == local,
{
    let none = seq![wrapper::no_alt()];
    let m = local.len() as int;
    lemma_pairs_len(none, local, 1);
    lemma_pairs_len(local, none, m);
    assert(1 * m == m) by (nonlinear_arith);
    assert(m * 1 == m) by (nonlinear_arith);
    assert forall|j: int| 0 <= j < local.len() implies all_pairs(none, local)[j] == local[j] by {
        lemma_pair_at(none, local, 1, 0, j);
        assert(0 * m + j == j) by (nonlinear_arith);
        lemma_joined(local[j], local[j], local[j]);
    }
    assert forall|i: int| 0 <= i < local.len() implies all_pairs(local, none)[i] == local[i] by {
        lemma_pair_at(local, none, m, i, 0);
        assert(i * 1 + 0 == i) by (nonlinear_arith);
        lemma_joined(local[i], local[i], local[i]);
    }
    assert(all_pairs(none, local) =~= local);
    assert(all_pairs(local, none) =~= local);
}

proof fn lemma_with_piece(acc: Seq<AltView>, piece: PieceView)
    ensures
        flatten::with_piece(acc, piece) == all_pairs(
            acc,
            seq![AltView { pieces: seq![piece], conditions: Seq::empty() }],
        ),
{
    let one = AltView { pieces: seq![piece], conditions: Seq::empty() };
    let local = seq![one];
    lemma_pairs_len(acc, local, acc.len() as int);
    let all = all_pairs(acc, local);
    assert(acc.len() * 1 == acc.len()) by (nonlinear_arith);
    assert forall|i: int| 0 <= i < acc.len() implies all[i] == flatten::with_piece(
        acc,
        piece,
    )[i] by {
        let a = acc[i];
        lemma_pair_at(acc, local, acc.len() as int, i, 0);
        assert(i * 1 + 0 == i) by (nonlinear_arith);
        assert(a.pieces + seq![piece] =~= a.pieces.push(piece));
        assert(a.conditions + Seq::empty() =~= a.conditions);
    }
    assert(all =~= flatten::with_piece(acc, piece));
}

// ---- one segment after the other ----------------------------------------

/// Where a walk goes on behind the segment at `k`.
pub open spec fn next_of(segments: Seq<SegmentView>, k: int) -> int {
    if segments[k] is Text {
        tags::run_end(segments, k)
    } else {
        k + 1
    }
}

/// The ways through the run of text or the tag at `k`.
pub open spec fn ways_at(
    source: Seq<u8>,
    segments: Seq<SegmentView>,
    k: int,
    depth: int,
    ctx: CtxView,
) -> Flat {
    match segments[k] {
        SegmentView::Text { .. } => Ok(
            (
                seq![
                    AltView {
                        pieces: seq![tags::text_piece(segments, k, ctx)],
                        conditions: Seq::empty(),
                    },
                ],
                tags::after_text(segments, k, ctx),
            ),
        ),
        SegmentView::Tag { name, span } => {
            let open = tags::opened(source, ctx, name, span);
            match open.action {
                ActionView::Skip => Ok((seq![wrapper::no_alt()], open.ctx)),
                ActionView::Add(piece) => Ok(
                    (
                        seq![AltView { pieces: seq![piece], conditions: Seq::empty() }],
                        open.ctx,
                    ),
                ),
                ActionView::Choose(inner) => flatten::choose_from(
                    source,
                    inner,
                    0,
                    Seq::empty(),
                    false,
                    depth,
                    open.ctx,
                ),
                ActionView::Descend { kind, restore, inner } => match flatten::descend(
                    source,
                    inner,
                    depth,
                    open.ctx,
                ) {
                    Err(n) => Err(n),
                    Ok((alts, after)) => match wrapper::finished(source, span, kind, alts) {
                        Err(n) => Err(n),
                        Ok(local) => Ok((local, flatten::restored(after, restore))),
                    },
                },
            }
        },
    }
}

pub proof fn lemma_step(
    source: Seq<u8>,
    segments: Seq<SegmentView>,
    k: int,
    acc: Seq<AltView>,
    depth: int,
    ctx: CtxView,
)
    requires
        0 <= k < segments.len(),
        acc.len() <= BRANCH_LIMIT,
    ensures
        flatten::body_from(source, segments, k, acc, depth, ctx) == (match ways_at(
            source,
            segments,
            k,
            depth,
            ctx,
        ) {
            Err(n) => Err(n),
            Ok((local, next)) => match wrapper::product(acc, local) {
                Err(n) => Err(n),
                Ok(all) => flatten::body_from(
                    source,
                    segments,
                    next_of(segments, k),
                    all,
                    depth,
                    next,
                ),
            },
        }),
        k < next_of(segments, k) <= segments.len(),
        ways_at(source, segments, k, depth, ctx) matches Ok((local, _)) ==> local.len() > 0,
{
    tags::lemma_run_end(segments, k);
    assert(acc.len() * 1 == acc.len()) by (nonlinear_arith);
    match segments[k] {
        SegmentView::Text { .. } => {
            lemma_with_piece(acc, tags::text_piece(segments, k, ctx));
        },
        SegmentView::Tag { name, span } => {
            let open = tags::opened(source, ctx, name, span);
            match open.action {
                ActionView::Skip => {
                    lemma_pairs_with_none(acc);
                },
                ActionView::Add(piece) => {
                    lemma_with_piece(acc, piece);
                },
                ActionView::Choose(inner) => {
                    flatten::lemma_choose_count(
                        source,
                        inner,
                        0,
                        Seq::empty(),
                        false,
                        depth,
                        open.ctx,
                    );
                },
                ActionView::Descend { kind, restore, inner } => {
                    flatten::lemma_alts_count(source, inner, depth, open.ctx);
                },
            }
        },
    }
}

/// The ways through the rest of a body do not depend on those that lead to it.
pub proof fn lemma_acc(
    source: Seq<u8>,
    segments: Seq<SegmentView>,
    k: int,
    acc: Seq<AltView>,
    depth: int,
    ctx: CtxView,
)
    requires
        0 <= k <= segments.len(),
        0 < acc.len() <= BRANCH_LIMIT,
    ensures
        ({
            let all = flatten::body_from(source, segments, k, acc, depth, ctx);
            match flatten::body_from(source, segments, k, seq![wrapper::no_alt()], depth, ctx) {
                Ok((alts, next)) => {
                    &&& alts.len() > 0
                    &&& if acc.len() * alts.len() <= BRANCH_LIMIT {
                        all == Ok::<(Seq<AltView>, CtxView), nat>((all_pairs(acc, alts), next))
                    } else {
                        all is Err
                    }
                },
                Err(_) => all is Err,
            }
        }),
    decreases segments.len() - k,
{
    let none = seq![wrapper::no_alt()];
    let n = acc.len() as int;
    flatten::lemma_body_count(source, segments, k, none, depth, ctx);
    if k < segments.len() {
        lemma_step(source, segments, k, acc, depth, ctx);
        lemma_step(source, segments, k, none, depth, ctx);
        let at = ways_at(source, segments, k, depth, ctx);
        let to = next_of(segments, k);
        if at is Ok {
            let local = at->Ok_0.0;
            let next = at->Ok_0.1;
            let m = local.len() as int;
            lemma_pairs_with_none(local);
            lemma_pairs_len(acc, local, n);
            assert(1 * m == m) by (nonlinear_arith);
            let rest = flatten::body_from(source, segments, to, none, depth, next);
            flatten::lemma_body_count(source, segments, to, none, depth, next);
            if m <= BRANCH_LIMIT {
                lemma_acc(source, segments, to, local, depth, next);
                if rest is Ok {
                    let alts = rest->Ok_0.0;
                    let p = alts.len() as int;
                    lemma_pairs_len(local, alts, m);
                    assert(n * (m * p) == (n * m) * p) by (nonlinear_arith);
                    assert((n * m) * p >= n * m) by (nonlinear_arith)
                        requires
                            n > 0,
                            m > 0,
                            p > 0,
                    ;
                    assert(n * (m * p) >= m * p) by (nonlinear_arith)
                        requires
                            n > 0,
                            m > 0,
                            p > 0,
                    ;
                    if n * m <= BRANCH_LIMIT {
                        assert(n * m > 0) by (nonlinear_arith)
                            requires
                                n > 0,
                                m > 0,
                        ;
                        lemma_acc(source, segments, to, all_pairs(acc, local), depth, next);
                        lemma_pairs_of_pairs(acc, local, alts, n);
                    }
                } else if n * m <= BRANCH_LIMIT {
                    assert(n * m > 0) by (nonlinear_arith)
                        requires
                            n > 0,
                            m > 0,
                    ;
                    lemma_acc(source, segments, to, all_pairs(acc, local), depth, next);
                }
            } else {
                assert(n * m >= m) by (nonlinear_arith)
                    requires
                        n > 0,
                        m > 0,
                ;
            }
        }
    } else {
        lemma_pairs_with_none(acc);
        assert(acc.len() * 1 == acc.len()) by (nonlinear_arith);
    }
}

/// A run of text does not go on from one list of segments into the next.
pub open spec fn apart(a: Seq<SegmentView>, b: Seq<SegmentView>) -> bool {
    a.len() == 0 || b.len() == 0 || a.last() is Tag || b.first() is Tag
}

pub proof fn lemma_run_apart(a: Seq<SegmentView>, b: Seq<SegmentView>, k: int)
    requires
        apart(a, b),
        0 <= k <= a.len() + b.len(),
    ensures
        k < a.len() ==> tags::run_end(a + b, k) == tags::run_end(a, k),
        k >= a.len() ==> tags::run_end(a + b, k) == a.len() + tags::run_end(b, k - a.len()),
        k <= a.len() && (b.len() == 0 || b.first() is Tag) ==> tags::run_end(a + b, k)
            == tags::run_end(a, k),
    decreases a.len() + b.len() - k,
{
    let all = a + b;
    if k < all.len() {
        lemma_run_apart(a, b, k + 1);
        if k < a.len() {
            assert(all[k] == a[k]);
            if a[k] is Text && k + 1 == a.len() {
                assert(a.last() is Text);
                assert(b.len() == 0 || b.first() is Tag);
            }
        } else {
            assert(all[k] == b[k - a.len()]);
        }
    }
}

pub proof fn lemma_at_apart(
    source: Seq<u8>,
    a: Seq<SegmentView>,
    b: Seq<SegmentView>,
    k: int,
    depth: int,
    ctx: CtxView,
)
    requires
        apart(a, b),
        0 <= k < a.len() + b.len(),
    ensures
        k < a.len() ==> next_of(a + b, k) == next_of(a, k) && ways_at(
            source,
            a + b,
            k,
            depth,
            ctx,
        ) == ways_at(source, a, k, depth, ctx),
        k >= a.len() ==> next_of(a + b, k) == a.len() + next_of(b, k - a.len()) && ways_at(
            source,
            a + b,
            k,
            depth,
            ctx,
        ) == ways_at(source, b, k - a.len(), depth, ctx),
{
    let all = a + b;
    lemma_run_apart(a, b, k);
    tags::lemma_run_end(all, k);
    if k < a.len() {
        assert(all[k] == a[k]);
        tags::lemma_run_end(a, k);
        assert(all.subrange(k, tags::run_end(a, k)) =~= a.subrange(k, tags::run_end(a, k)));
    } else {
        let j = k - a.len();
        assert(all[k] == b[j]);
        tags::lemma_run_end(b, j);
        assert(all.subrange(k, a.len() + tags::run_end(b, j)) =~= b.subrange(
            j,
            tags::run_end(b, j),
        ));
    }
}

proof fn lemma_second(
    source: Seq<u8>,
    a: Seq<SegmentView>,
    b: Seq<SegmentView>,
    j: int,
    acc: Seq<AltView>,
    depth: int,
    ctx: CtxView,
)
    requires
        apart(a, b),
        0 <= j <= b.len(),
        acc.len() <= BRANCH_LIMIT,
    ensures
        flatten::body_from(source, a + b, a.len() + j, acc, depth, ctx) == flatten::body_from(
            source,
            b,
            j,
            acc,
            depth,
            ctx,
        ),
    decreases b.len() - j,
{
    if j < b.len() {
        let k = a.len() + j;
        lemma_at_apart(source, a, b, k, depth, ctx);
        lemma_step(source, a + b, k, acc, depth, ctx);
        lemma_step(source, b, j, acc, depth, ctx);
        let at = ways_at(source, b, j, depth, ctx);
        if at is Ok {
            let local = at->Ok_0.0;
            lemma_pairs_len(acc, local, acc.len() as int);
            if acc.len() * local.len() <= BRANCH_LIMIT {
                lemma_second(
                    source,
                    a,
                    b,
                    next_of(b, j),
                    all_pairs(acc, local),
                    depth,
                    at->Ok_0.1,
                );
            }
        }
    }
}

pub proof fn lemma_first(
    source: Seq<u8>,
    a: Seq<SegmentView>,
    b: Seq<SegmentView>,
    k: int,
    acc: Seq<AltView>,
    depth: int,
    ctx: CtxView,
)
    requires
        apart(a, b),
        0 <= k <= a.len(),
        acc.len() <= BRANCH_LIMIT,
    ensures
        flatten::body_from(source, a + b, k, acc, depth, ctx) == (match flatten::body_from(
            source,
            a,
            k,
            acc,
            depth,
            ctx,
        ) {
            Err(n) => Err(n),
            Ok((alts, next)) => flatten::body_from(source, b, 0, alts, depth, next),
        }),
    decreases a.len() - k,
{
    if k < a.len() {
        lemma_at_apart(source, a, b, k, depth, ctx);
        lemma_step(source, a + b, k, acc, depth, ctx);
        lemma_step(source, a, k, acc, depth, ctx);
        let at = ways_at(source, a, k, depth, ctx);
        if at is Ok {
            let local = at->Ok_0.0;
            lemma_pairs_len(acc, local, acc.len() as int);
            if acc.len() * local.len() <= BRANCH_LIMIT {
                lemma_first(
                    source,
                    a,
                    b,
                    next_of(a, k),
                    all_pairs(acc, local),
                    depth,
                    at->Ok_0.1,
                );
            }
        }
    } else {
        lemma_second(source, a, b, 0, acc, depth, ctx);
    }
}

/// A body of two parts can be gone through in every way through the first
/// followed by every way through the second: with the text of both and with the
/// conditions of both, in the order of the document. Where these are too many,
/// or those of a part are, the ways are not listed.
pub proof fn law_ways_of_parts(
    source: Seq<u8>,
    dialect: Dialect,
    a: Seq<SegmentView>,
    b: Seq<SegmentView>,
    depth: int,
)
    requires
        depth < DEPTH_LIMIT,
        apart(a, b),
    ensures
        match (
            ways(source, dialect, a, depth),
            ways(source, dialect, b, depth),
            ways(source, dialect, a + b, depth),
        ) {
            (Ok(x), Ok(y), Ok(z)) => {
                &&& x.len() * y.len() <= BRANCH_LIMIT
                &&& z.len() == x.len() * y.len()
                &&& forall|i: int, j: int|
                    #![trigger x[i], y[j]]
                    0 <= i < x.len() && 0 <= j < y.len() ==> z[i * y.len() + j].pieces
                        == x[i].pieces + y[j].pieces && z[i * y.len() + j].conditions
                        == x[i].conditions + y[j].conditions
            },
            (Ok(x), Ok(y), Err(_)) => x.len() * y.len() > BRANCH_LIMIT,
            (_, _, r) => r is Err,
        },
{
    let none = seq![wrapper::no_alt()];
    let ctx = tags::fresh_ctx(dialect);
    let first = flatten::body_from(source, a, 0, none, depth + 1, ctx);
    lemma_first(source, a, b, 0, none, depth + 1, ctx);
    lemma_ways(source, a, depth, ctx);
    flatten::lemma_alts_count(source, a, depth, ctx);
    if first is Ok {
        let x = first->Ok_0.0;
        let next = first->Ok_0.1;
        lemma_ways(source, b, depth, next);
        lemma_acc(source, b, 0, x, depth + 1, next);
        if let Ok(y) = ways(source, dialect, b, depth) {
            let z = all_pairs(x, y);
            lemma_pairs_len(x, y, x.len() as int);
            assert forall|i: int, j: int|
                #![trigger x[i], y[j]]
                0 <= i < x.len() && 0 <= j < y.len() implies z[i * y.len() + j].pieces
                == x[i].pieces + y[j].pieces && z[i * y.len() + j].conditions == x[i].conditions
                + y[j].conditions by {
                lemma_pair_at(x, y, x.len() as int, i, j);
            }
        }
    }
}

// ---- one tag ------------------------------------------------------------

/// The ways through a body that is one segment.
proof fn lemma_one(source: Seq<u8>, dialect: Dialect, segment: SegmentView, depth: int)
    requires
        depth < DEPTH_LIMIT,
    ensures
        ({
            let at = alts_of(
                ways_at(source, seq![segment], 0, depth + 1, tags::fresh_ctx(dialect)),
            );
            match at {
                Err(n) => ways(source, dialect, seq![segment], depth) is Err,
                Ok(local) => if local.len() <= BRANCH_LIMIT {
                    ways(source, dialect, seq![segment], depth) == at
                } else {
                    ways(source, dialect, seq![segment], depth) is Err
                },
            }
        }),
{
    let none = seq![wrapper::no_alt()];
    let ctx = tags::fresh_ctx(dialect);
    let one = seq![segment];
    lemma_step(source, one, 0, none, depth + 1, ctx);
    let at = ways_at(source, one, 0, depth + 1, ctx);
    if at is Ok {
        let local = at->Ok_0.0;
        lemma_pairs_with_none(local);
        assert(1 * local.len() == local.len()) by (nonlinear_arith);
    }
}

/// The ways through a tag around a body.
proof fn lemma_tag(
    source: Seq<u8>,
    dialect: Dialect,
    name: Seq<char>,
    span: ByteSpan,
    kind: KindView,
    depth: int,
)
    requires
        depth < DEPTH_LIMIT,
        ({
            let action = tags::opened(source, tags::fresh_ctx(dialect), name, span).action;
            action is Descend && action->kind == kind
        }),
    ensures
        match ways(source, dialect, body::subtree(source, span).segments, depth + 1) {
            Err(n) => ways(source, dialect, seq![SegmentView::Tag { name, span }], depth) is Err,
            Ok(alts) => match wrapper::finished(source, span, kind, alts) {
                Err(n) => ways(
                    source,
                    dialect,
                    seq![SegmentView::Tag { name, span }],
                    depth,
                ) is Err,
                Ok(local) => if local.len() <= BRANCH_LIMIT {
                    ways(source, dialect, seq![SegmentView::Tag { name, span }], depth) == Ok::<
                        Seq<AltView>,
                        nat,
                    >(local)
                } else {
                    ways(source, dialect, seq![SegmentView::Tag { name, span }], depth) is Err
                },
            },
        },
{
    let ctx = tags::fresh_ctx(dialect);
    let open = tags::opened(source, ctx, name, span);
    tags::lemma_opened(source, ctx, name, span);
    lemma_one(source, dialect, SegmentView::Tag { name, span }, depth);
    lemma_ways(source, body::subtree(source, span).segments, depth + 1, open.ctx);
}

/// A conditional tag: either nothing of it is taken, under no condition, or one
/// way through its body is, under the condition of the tag and then those of
/// the way. `lead` is put before the text.
pub open spec fn is_conditional(
    whole: Result<Seq<AltView>, nat>,
    inner: Result<Seq<AltView>, nat>,
    condition: Seq<char>,
    lead: Seq<PieceView>,
) -> bool {
    match inner {
        Err(_) => whole is Err,
        Ok(x) => if x.len() + 1 > BRANCH_LIMIT {
            whole is Err
        } else {
            &&& whole is Ok
            &&& whole->Ok_0.len() == x.len() + 1
            &&& whole->Ok_0[0].pieces.len() == 0
            &&& whole->Ok_0[0].conditions.len() == 0
            &&& forall|k: int|
                0 <= k < x.len() ==> {
                    &&& whole->Ok_0[k + 1].pieces == lead + (#[trigger] x[k]).pieces
                    &&& whole->Ok_0[k + 1].conditions == seq![condition] + x[k].conditions
                    &&& whole->Ok_0[k + 1].conditions.len() == x[k].conditions.len() + 1
                }
        },
    }
}

proof fn lemma_branched(
    source: Seq<u8>,
    dialect: Dialect,
    name: Seq<char>,
    span: ByteSpan,
    kind: KindView,
    depth: int,
    condition: Seq<char>,
    lead: Seq<PieceView>,
)
    requires
        depth < DEPTH_LIMIT,
        ({
            let action = tags::opened(source, tags::fresh_ctx(dialect), name, span).action;
            action is Descend && action->kind == kind
        }),
        forall|alts: Seq<AltView>| #[trigger]
            wrapper::finished(source, span, kind, alts) == wrapper::branched(
                condition,
                lead,
                alts,
            ),
    ensures
        is_conditional(
            ways(source, dialect, seq![SegmentView::Tag { name, span }], depth),
            ways(source, dialect, body::subtree(source, span).segments, depth + 1),
            condition,
            lead,
        ),
{
    lemma_tag(source, dialect, name, span, kind, depth);
    if let Ok(x) = ways(source, dialect, body::subtree(source, span).segments, depth + 1) {
        let f = wrapper::finished(source, span, kind, x);
        if let Ok(local) = f {
            assert forall|k: int| 0 <= k < x.len() implies local[k + 1].pieces == lead + (
            #[trigger] x[k]).pieces && local[k + 1].conditions == seq![condition]
                + x[k].conditions by {
                assert(local[k + 1] == wrapper::taken(condition, lead, x[k]));
            }
        }
    }
}

pub proof fn lemma_tag_names()
    ensures
        "include"@.len() == 7,
        "bind"@.len() == 4,
        "choose"@.len() == 6,
        "if"@.len() == 2,
        "where"@.len() == 5,
        "set"@.len() == 3,
        "trim"@.len() == 4,
        "foreach"@.len() == 7,
        "dynamic"@.len() == 7,
        "iterate"@.len() == 7,
        "bind"@[0] == 'b',
        "trim"@[0] == 't',
        "include"@[0] == 'i',
        "include"@[1] == 'n',
        "iterate"@[0] == 'i',
        "iterate"@[1] == 't',
        "foreach"@[0] == 'f',
        "dynamic"@[0] == 'd',
        "if"@[0] == 'i',
        "if"@[1] == 'f',
        "choose"@[0] == 'c',
        "where"@[0] == 'w',
        "set"@[0] == 's',
{
    reveal_strlit("include");
    reveal_strlit("bind");
    reveal_strlit("choose");
    reveal_strlit("if");
    reveal_strlit("where");
    reveal_strlit("set");
    reveal_strlit("trim");
    reveal_strlit("foreach");
    reveal_strlit("dynamic");
    reveal_strlit("iterate");
}

/// What opening each of the tags with a meaning asks for.
#[verifier::rlimit(30)]
pub proof fn lemma_kinds(source: Seq<u8>, ctx: CtxView, span: ByteSpan)
    ensures
        tags::opened(source, ctx, "if"@, span).action == descends(
            source,
            span,
            KindView::If { test_value: tags::attr_or_empty(source, span, "test"@) },
        ),
        tags::opened(source, ctx, "where"@, span).action == descends(
            source,
            span,
            KindView::WhereClause,
        ),
        tags::opened(source, ctx, "set"@, span).action == descends(
            source,
            span,
            KindView::SetClause,
        ),
        tags::opened(source, ctx, "foreach"@, span).action == descends(
            source,
            span,
            KindView::Foreach {
                open: tags::attr_or_empty(source, span, "open"@),
                close: tags::attr_or_empty(source, span, "close"@),
            },
        ),
        tags::opened(source, ctx, "iterate"@, span).action == descends(
            source,
            span,
            KindView::Iterate {
                open: tags::attr_or_empty(source, span, "open"@),
                close: tags::attr_or_empty(source, span, "close"@),
            },
        ),
        tags::opened(source, ctx, "dynamic"@, span).action == descends(
            source,
            span,
            KindView::Dynamic { prepend: tags::attr_or_empty(source, span, "prepend"@) },
        ),
        tags::opened(source, ctx, "choose"@, span).action == ActionView::Choose(
            body::subtree(source, span).segments,
        ),
        tags::opened(source, ctx, "bind"@, span).action == ActionView::Skip,
        tags::opened(source, ctx, "include"@, span).action == ActionView::Add(
            PieceView::Include { raw: tags::attr_or_empty(source, span, "refid"@), span },
        ),
{
    reveal(tags::opened);
    lemma_tag_names();
}

/// What opening a `<trim>` asks for.
proof fn lemma_trim_kind(source: Seq<u8>, ctx: CtxView, span: ByteSpan)
    ensures
        tags::opened(source, ctx, "trim"@, span).action == descends(
            source,
            span,
            KindView::Trim {
                prefix: tags::spaced_after(tags::attr_or_empty(source, span, "prefix"@)),
                suffix: tags::spaced_before(tags::attr_or_empty(source, span, "suffix"@)),
                prefix_words: wrapper::overrides(
                    tags::attr_or_empty(source, span, "prefixOverrides"@),
                ),
                suffix_words: wrapper::overrides(
                    tags::attr_or_empty(source, span, "suffixOverrides"@),
                ),
            },
        ),
{
    reveal(tags::opened);
    lemma_tag_names();
}

pub open spec fn descends(source: Seq<u8>, span: ByteSpan, kind: KindView) -> ActionView {
    ActionView::Descend { kind, restore: None, inner: body::subtree(source, span).segments }
}

proof fn lemma_conditional_kind(
    source: Seq<u8>,
    ctx: CtxView,
    name: Seq<char>,
    span: ByteSpan,
)
    requires
        name.len() > 2,
        name[0] == 'i',
        name[1] == 's',
    ensures
        tags::opened(source, ctx, name, span).action == descends(
            source,
            span,
            KindView::Conditional {
                condition: tags::condition_of(name, source, span),
                prepend: tags::attr_opt(source, span, "prepend"@),
            },
        ),
{
    reveal(tags::opened);
    lemma_tag_names();
    lemma_starts_with_is(name);
}

/// An `<if>` is conditional on its test: a way that takes it lists the test
/// before the conditions of what stands in it.
pub proof fn law_if_is_conditional(source: Seq<u8>, dialect: Dialect, span: ByteSpan, depth: int)
    requires
        depth < DEPTH_LIMIT,
    ensures
        is_conditional(
            ways(source, dialect, seq![SegmentView::Tag { name: "if"@, span }], depth),
            ways(source, dialect, body::subtree(source, span).segments, depth + 1),
            tags::attr_or_empty(source, span, "test"@),
            Seq::empty(),
        ),
{
    lemma_kinds(source, tags::fresh_ctx(dialect), span);
    let test = tags::attr_or_empty(source, span, "test"@);
    lemma_branched(
        source,
        dialect,
        "if"@,
        span,
        KindView::If { test_value: test },
        depth,
        test,
        Seq::empty(),
    );
}

/// An iBatis conditional is conditional on what its name and attributes say,
/// and its `prepend` goes before the text of what stands in it.
pub proof fn law_ibatis_conditional(
    source: Seq<u8>,
    dialect: Dialect,
    name: Seq<char>,
    span: ByteSpan,
    depth: int,
)
    requires
        depth < DEPTH_LIMIT,
        name.len() > 2,
        name[0] == 'i',
        name[1] == 's',
    ensures
        is_conditional(
            ways(source, dialect, seq![SegmentView::Tag { name, span }], depth),
            ways(source, dialect, body::subtree(source, span).segments, depth + 1),
            ({
                let property = tags::attr_or_empty(source, span, "property"@);
                match (
                    tags::attr_opt(source, span, "compareValue"@),
                    tags::attr_opt(source, span, "compareProperty"@),
                ) {
                    (Some(value), _) => name + "("@ + property + ", '"@ + value + "')"@,
                    (None, Some(other)) => name + "("@ + property + ", "@ + other + ")"@,
                    (None, None) => name + "("@ + property + ")"@,
                }
            }),
            match tags::attr_opt(source, span, "prepend"@) {
                Some(value) => seq![PieceView::Prepend { value, span }],
                None => Seq::empty(),
            },
        ),
{
    lemma_conditional_kind(source, tags::fresh_ctx(dialect), name, span);
    let condition = tags::condition_of(name, source, span);
    let prepend = tags::attr_opt(source, span, "prepend"@);
    lemma_branched(
        source,
        dialect,
        name,
        span,
        KindView::Conditional { condition, prepend },
        depth,
        condition,
        match prepend {
            Some(value) => seq![PieceView::Prepend { value, span }],
            None => Seq::empty(),
        },
    );
}

proof fn lemma_starts_with_is(name: Seq<char>)
    requires
        name.len() > 2,
        name[0] == 'i',
        name[1] == 's',
    ensures
        tags::starts_with_is(name),
{
    let rest = name.skip(2);
    reveal_strlit("is");
    assert("is"@ =~= seq!['i', 's']);
    assert(name =~= "is"@ + rest);
    text::lemma_encode_concat("is"@, rest);
    assert(encode_utf8(name).subrange(0, encode_utf8("is"@).len() as int) =~= encode_utf8("is"@));
}

/// A tag that has a rule for the text of its body: for each way through the
/// body there is one, under the same conditions, with its text by the rule.
pub open spec fn is_wrapped(
    whole: Result<Seq<AltView>, nat>,
    inner: Result<Seq<AltView>, nat>,
    source: Seq<u8>,
    span: ByteSpan,
    kind: KindView,
) -> bool {
    match inner {
        Err(_) => whole is Err,
        Ok(x) => {
            &&& whole is Ok
            &&& whole->Ok_0.len() == x.len()
            &&& forall|k: int|
                0 <= k < x.len() ==> {
                    &&& whole->Ok_0[k].conditions == (#[trigger] x[k]).conditions
                    &&& whole->Ok_0[k].pieces == wrapper::wrapped(
                        source,
                        span.start,
                        kind,
                        x[k].pieces,
                    )
                }
        },
    }
}

proof fn lemma_wrapped(
    source: Seq<u8>,
    dialect: Dialect,
    name: Seq<char>,
    span: ByteSpan,
    kind: KindView,
    depth: int,
)
    requires
        depth < DEPTH_LIMIT,
        kind !is If,
        kind !is Conditional,
        kind !is Identity,
        ({
            let action = tags::opened(source, tags::fresh_ctx(dialect), name, span).action;
            action is Descend && action->kind == kind
        }),
    ensures
        is_wrapped(
            ways(source, dialect, seq![SegmentView::Tag { name, span }], depth),
            ways(source, dialect, body::subtree(source, span).segments, depth + 1),
            source,
            span,
            kind,
        ),
{
    let inner = body::subtree(source, span).segments;
    lemma_tag(source, dialect, name, span, kind, depth);
    flatten::lemma_alts_count(source, inner, depth + 1, tags::fresh_ctx(dialect));
}

/// A `<where>`, a `<set>`, a `<foreach>`, a `<dynamic>` and an `<iterate>` keep
/// the ways through their bodies and the conditions of each, and give the text
/// of each by their rule, with their own attributes.
pub proof fn law_wrappers_keep_the_ways(
    source: Seq<u8>,
    dialect: Dialect,
    span: ByteSpan,
    depth: int,
)
    requires
        depth < DEPTH_LIMIT,
    ensures
        ({
            let inner = ways(source, dialect, body::subtree(source, span).segments, depth + 1);
            let open = tags::attr_or_empty(source, span, "open"@);
            let close = tags::attr_or_empty(source, span, "close"@);
            let prepend = tags::attr_or_empty(source, span, "prepend"@);
            &&& is_wrapped(
                ways(source, dialect, seq![SegmentView::Tag { name: "where"@, span }], depth),
                inner,
                source,
                span,
                KindView::WhereClause,
            )
            &&& is_wrapped(
                ways(source, dialect, seq![SegmentView::Tag { name: "set"@, span }], depth),
                inner,
                source,
                span,
                KindView::SetClause,
            )
            &&& is_wrapped(
                ways(source, dialect, seq![SegmentView::Tag { name: "foreach"@, span }], depth),
                inner,
                source,
                span,
                KindView::Foreach { open, close },
            )
            &&& is_wrapped(
                ways(source, dialect, seq![SegmentView::Tag { name: "iterate"@, span }], depth),
                inner,
                source,
                span,
                KindView::Iterate { open, close },
            )
            &&& is_wrapped(
                ways(source, dialect, seq![SegmentView::Tag { name: "dynamic"@, span }], depth),
                inner,
                source,
                span,
                KindView::Dynamic { prepend },
            )
        }),
{
    lemma_kinds(source, tags::fresh_ctx(dialect), span);
    let open = tags::attr_or_empty(source, span, "open"@);
    let close = tags::attr_or_empty(source, span, "close"@);
    let prepend = tags::attr_or_empty(source, span, "prepend"@);
    lemma_wrapped(source, dialect, "where"@, span, KindView::WhereClause, depth);
    lemma_wrapped(source, dialect, "set"@, span, KindView::SetClause, depth);
    lemma_wrapped(source, dialect, "foreach"@, span, KindView::Foreach { open, close }, depth);
    lemma_wrapped(source, dialect, "iterate"@, span, KindView::Iterate { open, close }, depth);
    lemma_wrapped(source, dialect, "dynamic"@, span, KindView::Dynamic { prepend }, depth);
}

/// A `<trim>` keeps the ways through its body and the conditions of each. Its
/// prefix and suffix stand apart from the text by a space where there are any,
/// and its words are those of its lists.
pub proof fn law_trim_keeps_the_ways(
    source: Seq<u8>,
    dialect: Dialect,
    span: ByteSpan,
    depth: int,
)
    requires
        depth < DEPTH_LIMIT,
    ensures
        ({
            let prefix = tags::attr_or_empty(source, span, "prefix"@);
            let suffix = tags::attr_or_empty(source, span, "suffix"@);
            is_wrapped(
                ways(source, dialect, seq![SegmentView::Tag { name: "trim"@, span }], depth),
                ways(source, dialect, body::subtree(source, span).segments, depth + 1),
                source,
                span,
                KindView::Trim {
                    prefix: if prefix.len() == 0 {
                        prefix
                    } else {
                        prefix + " "@
                    },
                    suffix: if suffix.len() == 0 {
                        suffix
                    } else {
                        " "@ + suffix
                    },
                    prefix_words: wrapper::overrides(
                        tags::attr_or_empty(source, span, "prefixOverrides"@),
                    ),
                    suffix_words: wrapper::overrides(
                        tags::attr_or_empty(source, span, "suffixOverrides"@),
                    ),
                },
            )
        }),
{
    lemma_trim_kind(source, tags::fresh_ctx(dialect), span);
    lemma_wrapped(
        source,
        dialect,
        "trim"@,
        span,
        KindView::Trim {
            prefix: tags::spaced_after(tags::attr_or_empty(source, span, "prefix"@)),
            suffix: tags::spaced_before(tags::attr_or_empty(source, span, "suffix"@)),
            prefix_words: wrapper::overrides(
                tags::attr_or_empty(source, span, "prefixOverrides"@),
            ),
            suffix_words: wrapper::overrides(
                tags::attr_or_empty(source, span, "suffixOverrides"@),
            ),
        },
        depth,
    );
}

proof fn lemma_other_kind(source: Seq<u8>, ctx: CtxView, name: Seq<char>, span: ByteSpan)
    requires
        name != "include"@ && name != "bind"@ && name != "choose"@ && name != "if"@ && name
            != "where"@ && name != "set"@ && name != "trim"@ && name != "foreach"@ && name
            != "dynamic"@ && name != "iterate"@ && !tags::starts_with_is(name),
    ensures
        tags::opened(source, ctx, name, span).action is Descend,
        tags::opened(source, ctx, name, span).action->kind == KindView::Identity,
{
    reveal(tags::opened);
}

/// A tag without a meaning of its own is as if only its content stood there.
pub proof fn law_other_tags_are_transparent(
    source: Seq<u8>,
    dialect: Dialect,
    name: Seq<char>,
    span: ByteSpan,
    depth: int,
)
    requires
        depth < DEPTH_LIMIT,
        name != "include"@ && name != "bind"@ && name != "choose"@ && name != "if"@ && name
            != "where"@ && name != "set"@ && name != "trim"@ && name != "foreach"@ && name
            != "dynamic"@ && name != "iterate"@ && !tags::starts_with_is(name),
    ensures
        match ways(source, dialect, body::subtree(source, span).segments, depth + 1) {
            Ok(x) => ways(source, dialect, seq![SegmentView::Tag { name, span }], depth) == Ok::<
                Seq<AltView>,
                nat,
            >(x),
            Err(_) => ways(source, dialect, seq![SegmentView::Tag { name, span }], depth) is Err,
        },
{
    lemma_other_kind(source, tags::fresh_ctx(dialect), name, span);
    let inner = body::subtree(source, span).segments;
    lemma_tag(source, dialect, name, span, KindView::Identity, depth);
    flatten::lemma_alts_count(source, inner, depth + 1, tags::fresh_ctx(dialect));
}

/// An `<include>` is one way without a condition, whose text stands for the
/// reference. A `<bind>` is one without text.
pub proof fn law_include_and_bind(source: Seq<u8>, dialect: Dialect, span: ByteSpan, depth: int)
    requires
        depth < DEPTH_LIMIT,
    ensures
        ({
            let reference = ways(
                source,
                dialect,
                seq![SegmentView::Tag { name: "include"@, span }],
                depth,
            );
            let bind = ways(
                source,
                dialect,
                seq![SegmentView::Tag { name: "bind"@, span }],
                depth,
            );
            &&& reference is Ok
            &&& reference->Ok_0.len() == 1
            &&& reference->Ok_0[0].conditions.len() == 0
            &&& reference->Ok_0[0].pieces == seq![
                PieceView::Include { raw: tags::attr_or_empty(source, span, "refid"@), span },
            ]
            &&& bind is Ok
            &&& bind->Ok_0.len() == 1
            &&& bind->Ok_0[0].conditions.len() == 0
            &&& bind->Ok_0[0].pieces.len() == 0
        }),
{
    lemma_kinds(source, tags::fresh_ctx(dialect), span);
    lemma_one(source, dialect, SegmentView::Tag { name: "include"@, span }, depth);
    lemma_one(source, dialect, SegmentView::Tag { name: "bind"@, span }, depth);
}

/// Text alone is one way without a condition: the text with its placeholders
/// normalized, scanned as one.
pub proof fn law_text_is_one_way(
    source: Seq<u8>,
    dialect: Dialect,
    segments: Seq<SegmentView>,
    depth: int,
)
    requires
        depth < DEPTH_LIMIT,
        segments.len() > 0,
        forall|k: int| 0 <= k < segments.len() ==> (#[trigger] segments[k]) is Text,
    ensures
        ({
            let all = ways(source, dialect, segments, depth);
            let norm = placeholder::normalized(
                Seq::new(
                    segments.len(),
                    |k: int|
                        placeholder::RunView {
                            decoded: segments[k]->decoded,
                            span: segments[k]->Text_span,
                        },
                ),
                dialect,
            );
            &&& all is Ok
            &&& all->Ok_0.len() == 1
            &&& all->Ok_0[0].conditions.len() == 0
            &&& all->Ok_0[0].pieces == seq![
                PieceView::Normalized { text: norm.text, map: norm.map },
            ]
        }),
{
    let none = seq![wrapper::no_alt()];
    let ctx = tags::fresh_ctx(dialect);
    lemma_step(source, segments, 0, none, depth + 1, ctx);
    lemma_all_text(segments, 0);
    let n = segments.len() as int;
    let runs = Seq::new(
        segments.len(),
        |k: int|
            placeholder::RunView {
                decoded: segments[k]->decoded,
                span: segments[k]->Text_span,
            },
    );
    assert(segments.subrange(0, n) =~= segments);
    assert(tags::runs_of(segments, 0, n) =~= runs);
    let at = ways_at(source, segments, 0, depth + 1, ctx)->Ok_0;
    lemma_pairs_with_none(at.0);
    assert(segments[0] is Text);
    assert(none.len() * at.0.len() == 1) by (nonlinear_arith)
        requires
            none.len() == 1,
            at.0.len() == 1,
    ;
    assert(wrapper::product(none, at.0) == Ok::<Seq<AltView>, nat>(at.0));
    assert(flatten::body_from(source, segments, n, at.0, depth + 1, at.1) == Ok::<
        (Seq<AltView>, CtxView),
        nat,
    >(at));
}

pub proof fn lemma_all_text(segments: Seq<SegmentView>, k: int)
    requires
        0 <= k <= segments.len(),
        forall|k: int| 0 <= k < segments.len() ==> (#[trigger] segments[k]) is Text,
    ensures
        tags::run_end(segments, k) == segments.len(),
    decreases segments.len() - k,
{
    if k < segments.len() {
        assert(segments[k] is Text);
        lemma_all_text(segments, k + 1);
    }
}

// ---- <choose> -----------------------------------------------------------

/// The ways through the `<when>` or `<otherwise>` that is a child of a
/// `<choose>`: under the test of a `<when>`, then their own conditions. Any
/// other child has none.
#[verifier::opaque]
pub open spec fn choice(
    source: Seq<u8>,
    dialect: Dialect,
    child: SegmentView,
    depth: int,
) -> Seq<AltView> {
    match child {
        SegmentView::Tag { name, span } => {
            let inner = ways(source, dialect, body::subtree(source, span).segments, depth);
            if inner is Err {
                Seq::empty()
            } else if name == "when"@ {
                inner->Ok_0.map_values(
                    |x: AltView|
                        AltView {
                            pieces: x.pieces,
                            conditions: seq![tags::attr_or_empty(source, span, "test"@)]
                                + x.conditions,
                        },
                )
            } else if name == "otherwise"@ {
                inner->Ok_0
            } else {
                Seq::empty()
            }
        },
        _ => Seq::empty(),
    }
}

/// A child of a `<choose>` whose ways can be listed.
pub open spec fn listed(source: Seq<u8>, dialect: Dialect, child: SegmentView, depth: int) -> bool {
    match child {
        SegmentView::Tag { name, span } => (name == "when"@ || name == "otherwise"@) ==> ways(
            source,
            dialect,
            body::subtree(source, span).segments,
            depth,
        ) is Ok,
        _ => true,
    }
}

pub open spec fn is_otherwise(child: SegmentView) -> bool {
    child matches SegmentView::Tag { name, .. } && name == "otherwise"@
}

/// The ways through the branches of a `<choose>`, one branch after the other.
pub open spec fn choices(
    source: Seq<u8>,
    dialect: Dialect,
    children: Seq<SegmentView>,
    depth: int,
) -> Seq<AltView> {
    children.map_values(|child: SegmentView| choice(source, dialect, child, depth)).flatten()
}

proof fn lemma_choices_from(
    source: Seq<u8>,
    dialect: Dialect,
    children: Seq<SegmentView>,
    k: int,
    depth: int,
)
    requires
        0 <= k <= children.len(),
    ensures
        k < children.len() ==> choices(source, dialect, children.skip(k), depth) == choice(
            source,
            dialect,
            children[k],
            depth,
        ) + choices(source, dialect, children.skip(k + 1), depth),
        k == children.len() ==> choices(source, dialect, children.skip(k), depth).len() == 0,
{
    let f = |child: SegmentView| choice(source, dialect, child, depth);
    let lists = children.skip(k).map_values(f);
    if k < children.len() {
        assert(lists.drop_first() =~= children.skip(k + 1).map_values(f));
        assert(lists.first() == choice(source, dialect, children[k], depth));
    }
}

/// One child of a `<choose>`.
proof fn lemma_child(
    source: Seq<u8>,
    segments: Seq<SegmentView>,
    k: int,
    local: Seq<AltView>,
    has_otherwise: bool,
    depth: int,
    ctx: CtxView,
) -> (next: CtxView)
    requires
        0 <= k < segments.len(),
        listed(source, ctx.dialect, segments[k], depth),
        (local + choice(source, ctx.dialect, segments[k], depth)).len() <= BRANCH_LIMIT,
    ensures
        next.dialect == ctx.dialect,
        flatten::choose_from(source, segments, k, local, has_otherwise, depth, ctx)
            == flatten::choose_from(
            source,
            segments,
            k + 1,
            local + choice(source, ctx.dialect, segments[k], depth),
            has_otherwise || is_otherwise(segments[k]),
            depth,
            next,
        ),
{
    reveal(choice);
    reveal_strlit("when");
    reveal_strlit("otherwise");
    assert("when"@.len() == 4 && "otherwise"@.len() == 9);
    let own = choice(source, ctx.dialect, segments[k], depth);
    match segments[k] {
        SegmentView::Text { .. } => {
            assert(local + own =~= local);
            ctx
        },
        SegmentView::Tag { name, span } => {
            if name == "when"@ || name == "otherwise"@ {
                let inner = body::subtree(source, span);
                let read = if name == "when"@ {
                    tags::after_read(source, ctx, span, "test"@)
                } else {
                    ctx
                };
                let entered = tags::noted(read, inner.diagnostics);
                lemma_ways(source, inner.segments, depth, entered);
                let x = flatten::descend(source, inner.segments, depth, entered);
                let alts = x->Ok_0.0;
                if name == "when"@ {
                    let test = tags::attr_or_empty(source, span, "test"@);
                    let given = Seq::new(
                        alts.len(),
                        |j: int| wrapper::taken(test, Seq::empty(), alts[j]),
                    );
                    assert forall|j: int| 0 <= j < alts.len() implies given[j] == own[j] by {
                        assert(Seq::<PieceView>::empty() + alts[j].pieces =~= alts[j].pieces);
                    }
                    assert(given =~= own);
                }
                x->Ok_0.1
            } else {
                assert(own =~= Seq::empty());
                assert(local + own =~= local);
                tags::noted(ctx, seq![flatten::stray_choice(name, span)])
            }
        },
    }
}

proof fn lemma_choice(
    source: Seq<u8>,
    segments: Seq<SegmentView>,
    k: int,
    local: Seq<AltView>,
    has_otherwise: bool,
    depth: int,
    ctx: CtxView,
)
    requires
        0 <= k <= segments.len(),
        forall|j: int|
            k <= j < segments.len() ==> listed(source, ctx.dialect, #[trigger] segments[j], depth),
        (local + choices(source, ctx.dialect, segments.skip(k), depth)).len() <= BRANCH_LIMIT,
    ensures
        ({
            let all = local + choices(source, ctx.dialect, segments.skip(k), depth);
            let other = has_otherwise || exists|j: int|
                k <= j < segments.len() && is_otherwise(#[trigger] segments[j]);
            alts_of(
                flatten::choose_from(source, segments, k, local, has_otherwise, depth, ctx),
            ) == Ok::<Seq<AltView>, nat>(
                if other {
                    all
                } else {
                    all.push(wrapper::no_alt())
                },
            )
        }),
    decreases segments.len() - k,
{
    lemma_choices_from(source, ctx.dialect, segments, k, depth);
    if k < segments.len() {
        let own = choice(source, ctx.dialect, segments[k], depth);
        let rest = choices(source, ctx.dialect, segments.skip(k + 1), depth);
        assert(local + (own + rest) =~= local + own + rest);
        let next = lemma_child(source, segments, k, local, has_otherwise, depth, ctx);
        lemma_choice(
            source,
            segments,
            k + 1,
            local + own,
            has_otherwise || is_otherwise(segments[k]),
            depth,
            next,
        );
    } else {
        assert(local + choices(source, ctx.dialect, segments.skip(k), depth) =~= local);
    }
}

/// A `<choose>` can be gone through in any way through one of its branches, in
/// the order of the document, those of a `<when>` under its test. Without an
/// `<otherwise>` it can also be passed without text, under no condition.
pub proof fn law_choose_takes_one_branch(
    source: Seq<u8>,
    dialect: Dialect,
    span: ByteSpan,
    depth: int,
)
    requires
        depth < DEPTH_LIMIT,
        forall|j: int|
            0 <= j < body::subtree(source, span).segments.len() ==> listed(
                source,
                dialect,
                #[trigger] body::subtree(source, span).segments[j],
                depth + 1,
            ),
    ensures
        ({
            let children = body::subtree(source, span).segments;
            let taken = choices(source, dialect, children, depth + 1);
            let all = if exists|j: int|
                0 <= j < children.len() && is_otherwise(#[trigger] children[j]) {
                taken
            } else {
                taken.push(AltView { pieces: Seq::empty(), conditions: Seq::empty() })
            };
            all.len() <= BRANCH_LIMIT ==> ways(
                source,
                dialect,
                seq![SegmentView::Tag { name: "choose"@, span }],
                depth,
            ) == Ok::<Seq<AltView>, nat>(all)
        }),
{
    let ctx = tags::fresh_ctx(dialect);
    lemma_kinds(source, ctx, span);
    tags::lemma_opened(source, ctx, "choose"@, span);
    let children = body::subtree(source, span).segments;
    let taken = choices(source, dialect, children, depth + 1);
    assert(children.skip(0) =~= children);
    assert(Seq::<AltView>::empty() + taken =~= taken);
    let open = tags::opened(source, ctx, "choose"@, span);
    if taken.len() <= BRANCH_LIMIT {
        lemma_choice(source, children, 0, Seq::empty(), false, depth + 1, open.ctx);
        lemma_one(source, dialect, SegmentView::Tag { name: "choose"@, span }, depth);
    }
}

// ---- the variants of a body ---------------------------------------------

/// The variants of a body are the ways through it: as many, in the same order,
/// each with its text and its conditions. Where these are too many there is one
/// text for all of them.
pub proof fn law_variants_are_the_ways(
    source: Seq<u8>,
    dialect: Dialect,
    segments: Seq<SegmentView>,
)
    ensures
        match ways(source, dialect, segments, 0) {
            Ok(all) => flatten::flat_body(source, dialect, segments).sql matches
                SqlTextView::Variants(variants) && {
                &&& variants.len() == all.len()
                &&& forall|k: int|
                    0 <= k < all.len() ==> (#[trigger] variants[k]).text.text == sql::assembly(
                        all[k].pieces,
                    ).text && variants[k].conditions == all[k].conditions
            },
            Err(_) => flatten::flat_body(source, dialect, segments).sql is Union,
        },
{
}

} // verus!
