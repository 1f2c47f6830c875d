//! The text of all branches of a body, each once and in document order. It
//! stands in for the variants where there are too many of them.
use crate::attrs;
use crate::body;
use crate::body::{BodySegment, SegmentView};
use crate::flatten;
use crate::flatten::{nesting_limit_diagnostic, FRAME_LIMIT};
use crate::model;
use crate::model::ByteSpan;
use crate::size;
use crate::sql;
use crate::sql::{Piece, PieceView};
use crate::tags;
use crate::tags::{
    add_path, check_include_at_wrapper_boundary, is_wrapper_tag, normalize_run, note_one,
    open_body, read_attr, record_include, Ctx, CtxView, Room, DEPTH_LIMIT,
};
use crate::text::str_eq;
use vstd::prelude::*;
use vstd::string::*;
use vstd::utf8::*;

verus! {

/// The pieces of a walk and its record.
pub struct Gathered {
    pub pieces: Seq<PieceView>,
    pub ctx: CtxView,
}

/// The pieces of a nested body, which is left out below the depth cap.
pub open spec fn descend(
    source: Seq<u8>,
    segments: Seq<SegmentView>,
    depth: int,
    ctx: CtxView,
) -> Gathered
    decreases DEPTH_LIMIT - depth, 0int, 0int,
{
    if depth >= DEPTH_LIMIT {
        Gathered {
            pieces: Seq::empty(),
            ctx: tags::noted(ctx, seq![flatten::nesting_limit()]),
        }
    } else {
        gather(source, segments, 0, Seq::empty(), depth + 1, ctx)
    }
}

/// What a tag other than `<include>`, `<bind>` and `<choose>` records before
/// its body is walked. An `<include>` at either end of a wrapper is reported here
/// too.
pub open spec fn entered(source: Seq<u8>, ctx: CtxView, name: Seq<char>, span: ByteSpan) -> CtxView {
    let read = if name == "iterate"@ {
        tags::with_path(
            tags::after_read(source, ctx, span, "property"@),
            tags::attr_or_empty(source, span, "property"@),
            span,
        )
    } else {
        ctx
    };
    let opened = tags::noted(read, body::subtree(source, span).diagnostics);
    if tags::is_wrapper(name) {
        tags::noted(opened, tags::boundaries(name, body::subtree(source, span).segments))
    } else {
        opened
    }
}

/// `pieces`, followed by those of the segments from `k` on.
pub open spec fn gather(
    source: Seq<u8>,
    segments: Seq<SegmentView>,
    k: int,
    pieces: Seq<PieceView>,
    depth: int,
    ctx: CtxView,
) -> Gathered
    decreases DEPTH_LIMIT - depth, 2int, segments.len() - k,
{
    if k >= segments.len() {
        Gathered { pieces, ctx }
    } else {
        match segments[k] {
            SegmentView::Text { .. } => {
                proof {
                    tags::lemma_run_end(segments, k);
                }
                gather(
                    source,
                    segments,
                    tags::run_end(segments, k),
                    pieces.push(tags::text_piece(segments, k, ctx)),
                    depth,
                    tags::after_text(segments, k, ctx),
                )
            },
            SegmentView::Tag { name, span } => if name == "include"@ {
                gather(
                    source,
                    segments,
                    k + 1,
                    pieces.push(
                        PieceView::Include {
                            raw: tags::attr_or_empty(source, span, "refid"@),
                            span,
                        },
                    ),
                    depth,
                    tags::after_include(source, ctx, span),
                )
            } else if name == "bind"@ {
                gather(
                    source,
                    segments,
                    k + 1,
                    pieces,
                    depth,
                    tags::with_path(
                        tags::after_read(source, ctx, span, "value"@),
                        tags::attr_or_empty(source, span, "value"@),
                        span,
                    ),
                )
            } else {
                let inner = body::subtree(source, span).segments;
                let child = if name == "choose"@ {
                    gather_choices(
                        source,
                        inner,
                        0,
                        Seq::empty(),
                        depth,
                        tags::noted(ctx, body::subtree(source, span).diagnostics),
                    )
                } else {
                    descend(source, inner, depth, entered(source, ctx, name, span))
                };
                gather(source, segments, k + 1, pieces + child.pieces, depth, child.ctx)
            },
        }
    }
}

/// `pieces`, followed by those of the `<when>` and `<otherwise>` among the
/// children of a `<choose>` from `k` on.
pub open spec fn gather_choices(
    source: Seq<u8>,
    segments: Seq<SegmentView>,
    k: int,
    pieces: Seq<PieceView>,
    depth: int,
    ctx: CtxView,
) -> Gathered
    decreases DEPTH_LIMIT - depth, 1int, segments.len() - k,
{
    if k >= segments.len() {
        Gathered { pieces, ctx }
    } else {
        match segments[k] {
            SegmentView::Tag { name, span } => if name == "when"@ || name == "otherwise"@ {
                let child = descend(
                    source,
                    body::subtree(source, span).segments,
                    depth,
                    tags::noted(ctx, body::subtree(source, span).diagnostics),
                );
                gather_choices(source, segments, k + 1, pieces + child.pieces, depth, child.ctx)
            } else {
                gather_choices(source, segments, k + 1, pieces, depth, ctx)
            },
            _ => gather_choices(source, segments, k + 1, pieces, depth, ctx),
        }
    }
}

// ---- frames -------------------------------------------------------------

/// The segments of all frames lie in a part of the source.
pub open spec fn all_within(frames: Seq<UnionFrameView>, room: Room) -> bool {
    forall|i: int|
        0 <= i < frames.len() ==> tags::segments_within((#[trigger] frames[i]).segments, room)
}

/// A body, or the children of a `<choose>`, in the middle of its walk.
pub struct UnionFrameView {
    pub choose: bool,
    pub segments: Seq<SegmentView>,
    pub k: int,
    pub pieces: Seq<PieceView>,
}

/// What a frame comes to.
pub open spec fn go(source: Seq<u8>, frame: UnionFrameView, depth: int, ctx: CtxView) -> Gathered {
    if frame.choose {
        gather_choices(source, frame.segments, frame.k, frame.pieces, depth, ctx)
    } else {
        gather(source, frame.segments, frame.k, frame.pieces, depth, ctx)
    }
}

/// A frame with more pieces.
pub open spec fn fed(frame: UnionFrameView, pieces: Seq<PieceView>) -> UnionFrameView {
    UnionFrameView { pieces: frame.pieces + pieces, ..frame }
}

pub open spec fn bodies(frames: Seq<UnionFrameView>, n: int) -> int
    decreases n,
{
    if n <= 0 {
        0
    } else {
        bodies(frames, n - 1) + (if frames[n - 1].choose {
            0int
        } else {
            1
        })
    }
}

/// What the first `n` frames come to, the last of them waiting for `r`.
pub open spec fn unwind(
    source: Seq<u8>,
    frames: Seq<UnionFrameView>,
    n: int,
    r: Gathered,
) -> Gathered
    decreases n,
{
    if n <= 0 {
        r
    } else {
        unwind(
            source,
            frames,
            n - 1,
            go(source, fed(frames[n - 1], r.pieces), bodies(frames, n), r.ctx),
        )
    }
}

pub open spec fn total_steps(source: Seq<u8>, frames: Seq<UnionFrameView>, n: int) -> nat
    decreases n,
{
    if n <= 0 {
        0
    } else {
        total_steps(source, frames, n - 1) + 4 + flatten::steps(
            source,
            frames[n - 1].segments,
            frames[n - 1].k,
            n - 1,
        )
    }
}

proof fn lemma_same_prefix(
    source: Seq<u8>,
    a: Seq<UnionFrameView>,
    b: Seq<UnionFrameView>,
    n: int,
    r: Gathered,
)
    requires
        0 <= n <= a.len(),
        n <= b.len(),
        forall|i: int| 0 <= i < n ==> a[i] == b[i],
    ensures
        bodies(a, n) == bodies(b, n),
        unwind(source, a, n, r) == unwind(source, b, n, r),
        total_steps(source, a, n) == total_steps(source, b, n),
    decreases n,
{
    if n > 0 {
        lemma_same_prefix(source, a, b, n - 1, r);
        lemma_same_prefix(
            source,
            a,
            b,
            n - 1,
            go(source, fed(a[n - 1], r.pieces), bodies(a, n), r.ctx),
        );
    }
}

pub open spec fn frame_ok(source: Seq<u8>, frame: UnionFrameView) -> bool {
    &&& tags::walkable(source, frame.segments)
    &&& 0 <= frame.k <= frame.segments.len()
    &&& sql::pieces_ok(frame.pieces, source.len() as int)
}

/// A `<choose>` as frame `i` of a worklist stands on a body.
pub open spec fn on_body(frames: Seq<UnionFrameView>, i: int) -> bool {
    frames[i].choose ==> !frames[i - 1].choose
}

pub open spec fn stack_ok(source: Seq<u8>, frames: Seq<UnionFrameView>) -> bool {
    &&& frames.len() > 0
    &&& !frames[0].choose
    &&& bodies(frames, frames.len() as int) <= DEPTH_LIMIT
    &&& forall|i: int| 0 <= i < frames.len() ==> frame_ok(source, #[trigger] frames[i])
    &&& forall|i: int| 0 < i < frames.len() ==> #[trigger] on_body(frames, i)
}

proof fn lemma_frame_count(frames: Seq<UnionFrameView>, n: int)
    requires
        0 <= n <= frames.len(),
        frames.len() > 0 ==> !frames[0].choose,
        forall|i: int| 0 < i < frames.len() ==> #[trigger] on_body(frames, i),
    ensures
        n <= 2 * bodies(frames, n),
        0 <= bodies(frames, n),
    decreases n,
{
    if n > 0 {
        lemma_frame_count(frames, n - 1);
        if frames[n - 1].choose {
            if n >= 2 {
                lemma_frame_count(frames, n - 2);
                assert(on_body(frames, n - 1));
            }
        }
    }
}

// ---- the engine ---------------------------------------------------------

struct UnionFrame {
    choose: bool,
    segments: Vec<BodySegment>,
    idx: usize,
    pieces: Vec<Piece>,
}

impl View for UnionFrame {
    type V = UnionFrameView;

    closed spec fn view(&self) -> UnionFrameView {
        UnionFrameView {
            choose: self.choose,
            segments: model::deep(self.segments@),
            k: self.idx as int,
            pieces: model::deep(self.pieces@),
        }
    }
}

enum UnionAdvance {
    Push(UnionFrame),
    Continue,
    Finished(Vec<Piece>),
}

/// `advance` is a step of the frame `before`, which becomes `after`.
#[verifier::opaque]
spec fn steps_to(
    source: Seq<u8>,
    before: UnionFrameView,
    after: UnionFrameView,
    depth: int,
    ctx_before: CtxView,
    ctx_after: CtxView,
    new_depth: int,
    advance: UnionAdvance,
) -> bool {
    let whole = go(source, before, depth, ctx_before);
    match advance {
        UnionAdvance::Continue => {
            &&& new_depth == depth
            &&& whole == go(source, after, depth, ctx_after)
            &&& frame_ok(source, after)
            &&& after.choose == before.choose
            &&& after.segments == before.segments
            &&& before.k < after.k
        },
        UnionAdvance::Finished(pieces) => {
            &&& new_depth == depth
            &&& whole == (Gathered { pieces: model::deep(pieces@), ctx: ctx_after })
            &&& sql::pieces_ok(model::deep(pieces@), source.len() as int)
        },
        UnionAdvance::Push(child) => {
            let inner = go(source, child@, new_depth, ctx_after);
            &&& new_depth == depth + (if child@.choose {
                0int
            } else {
                1
            })
            &&& new_depth <= DEPTH_LIMIT
            &&& child@.choose ==> !before.choose
            &&& whole == go(source, fed(after, inner.pieces), depth, inner.ctx)
            &&& frame_ok(source, after)
            &&& after.choose == before.choose
            &&& after.segments == before.segments
            &&& before.k < before.segments.len()
            &&& after.k == before.k + 1
            &&& frame_ok(source, child@)
            &&& child@.k == 0
            &&& before.segments[before.k] matches SegmentView::Tag { span, .. } && child@.segments
                == body::subtree(source, span).segments
        },
    }
}

/// The frame `before`, which becomes `after`, stays light in a step, and so is
/// what the step comes to.
#[verifier::opaque]
spec fn keeps_light(before: UnionFrameView, after: UnionFrameView, advance: UnionAdvance) -> bool {
    match advance {
        UnionAdvance::Continue => size::union_light(after) && after.segments == before.segments,
        UnionAdvance::Push(child) => {
            &&& size::union_waiting(after)
            &&& after.segments == before.segments
            &&& size::union_light(child@)
            &&& size::full_weight(child@.segments) <= size::union_passed(after)
        },
        UnionAdvance::Finished(pieces) => size::total_len(model::deep(pieces@)) <= 44
            * size::full_weight(before.segments),
    }
}

enum UnionDescend {
    Push(UnionFrame),
    /// The depth cap is reached: nothing stands for the body.
    Immediate,
}

fn new_frame(segments: Vec<BodySegment>, choose: bool) -> (frame: UnionFrame)
    ensures
        frame@ == (UnionFrameView {
            choose,
            segments: model::deep(segments@),
            k: 0,
            pieces: Seq::empty(),
        }),
{
    let frame = UnionFrame { choose, segments, idx: 0, pieces: Vec::new() };
    assert(frame@.pieces =~= Seq::empty());
    frame
}

/// Goes down into a body, as far as the depth cap allows.
fn descend_union(inner: Vec<BodySegment>, ctx: &mut Ctx, Ghost(source): Ghost<Seq<u8>>) -> (r:
    UnionDescend)
    requires
        tags::walkable_in(old(ctx).room@, model::deep(inner@)),
        tags::ctx_ok(*old(ctx), source),
        old(ctx).depth <= DEPTH_LIMIT,
    ensures
        tags::ctx_ok(*final(ctx), source),
        final(ctx).room == old(ctx).room,
        match r {
            UnionDescend::Push(child) => {
                &&& old(ctx).depth < DEPTH_LIMIT
                &&& final(ctx).depth == old(ctx).depth + 1
                &&& final(ctx)@ == old(ctx)@
                &&& !child@.choose
                &&& go(source, child@, final(ctx).depth as int, final(ctx)@) == descend(
                    source,
                    model::deep(inner@),
                    old(ctx).depth as int,
                    old(ctx)@,
                )
                &&& frame_ok(source, child@)
                &&& child@.k == 0
                &&& child@.segments == model::deep(inner@)
                &&& child@.pieces.len() == 0
            },
            UnionDescend::Immediate => {
                &&& final(ctx).depth == old(ctx).depth
                &&& descend(source, model::deep(inner@), old(ctx).depth as int, old(ctx)@) == (
                Gathered { pieces: Seq::empty(), ctx: final(ctx)@ })
            },
        },
{
    if ctx.depth >= DEPTH_LIMIT {
        note_one(ctx, nesting_limit_diagnostic(), Ghost(source));
        return UnionDescend::Immediate;
    }
    ctx.depth = ctx.depth + 1;
    UnionDescend::Push(new_frame(inner, false))
}

impl UnionFrame {
    /// Takes the pieces of what this frame waits for.
    fn deliver(&mut self, pieces: Vec<Piece>, Ghost(len): Ghost<int>)
        requires
            sql::pieces_ok(old(self)@.pieces, len),
            sql::pieces_ok(model::deep(pieces@), len),
        ensures
            final(self)@ == fed(old(self)@, model::deep(pieces@)),
            sql::pieces_ok(final(self)@.pieces, len),
    {
        broadcast use model::group_deep;

        let mut more = pieces;
        self.pieces.append(&mut more);
        proof {
            let a = model::deep(old(self).pieces@);
            let b = model::deep(pieces@);
            assert forall|k: int| 0 <= k < (a + b).len() implies sql::piece_ok(
                #[trigger] (a + b)[k],
                len,
            ) by {
                if k < a.len() {
                    assert((a + b)[k] == a[k]);
                } else {
                    assert((a + b)[k] == b[k - a.len()]);
                }
            }
        }
    }

    fn add(&mut self, piece: Piece, Ghost(len): Ghost<int>)
        requires
            sql::pieces_ok(old(self)@.pieces, len),
            sql::piece_ok(piece@, len),
        ensures
            final(self)@ == (UnionFrameView {
                pieces: old(self)@.pieces.push(piece@),
                ..old(self)@
            }),
            sql::pieces_ok(final(self)@.pieces, len),
    {
        broadcast use model::group_deep;

        self.pieces.push(piece);
    }

    /// Takes all pieces out of a frame.
    fn take_pieces(&mut self) -> (pieces: Vec<Piece>)
        ensures
            model::deep(pieces@) == old(self)@.pieces,
    {
        let mut pieces: Vec<Piece> = Vec::new();
        pieces.append(&mut self.pieces);
        assert(pieces@ =~= old(self).pieces@);
        pieces
    }

    /// Passes the next run of text or the next tag of a body.
    #[verifier::rlimit(50)]
    fn step_body(&mut self, source: &str, ctx: &mut Ctx) -> (advance: UnionAdvance)
        requires
            attrs::fits(source.spec_bytes()),
            frame_ok(source.spec_bytes(), old(self)@),
            tags::segments_within(old(self)@.segments, old(ctx).room@),
            !old(self)@.choose,
            tags::ctx_ok(*old(ctx), source.spec_bytes()),
            old(ctx).depth <= DEPTH_LIMIT,
            size::union_light(old(self)@),
        ensures
            keeps_light(old(self)@, final(self)@, advance),
            steps_to(
                source.spec_bytes(),
                old(self)@,
                final(self)@,
                old(ctx).depth as int,
                old(ctx)@,
                final(ctx)@,
                final(ctx).depth as int,
                advance,
            ),
            advance !is Finished ==> final(self)@.segments == old(self)@.segments,
            advance matches UnionAdvance::Push(child) ==> tags::segments_within(
                child@.segments,
                old(ctx).room@,
            ),
            tags::ctx_ok(*final(ctx), source.spec_bytes()),
            final(ctx).room == old(ctx).room,
    {
        let ghost bytes = source.spec_bytes();
        let ghost len = bytes.len() as int;
        let ghost views = model::deep(self.segments@);
        let ghost k = self.idx as int;
        proof {
            reveal(steps_to);
            reveal(keeps_light);
            encode_utf8_valid_utf8(source@);
            assert(size::total_len(Seq::<PieceView>::empty()) == 0);
        }
        if self.idx >= self.segments.len() {
            return UnionAdvance::Finished(self.take_pieces());
        }
        proof {
            assert(views[k] == self.segments@[k]@);
            assert(body::segment_in(bytes, views[k]));
        }
        if let BodySegment::DynamicTag { name, span } = &self.segments[self.idx] {
            let span = *span;
            proof {
                size::lemma_union_pass(bytes, views, k, old(self)@.pieces);
                assert(size::weight(views, k + 1) == size::weight(views, k) + size::span_len(
                    span,
                ));
            }
            if str_eq(name.as_str(), "include") {
                let piece = record_include(source, span, ctx);
                proof {
                    size::lemma_include(bytes, span);
                    size::lemma_push(old(self)@.pieces, piece@);
                }
                self.idx = self.idx + 1;
                self.add(piece, Ghost(len));
                return UnionAdvance::Continue;
            }
            if str_eq(name.as_str(), "bind") {
                let value = read_attr(source, span, "value", ctx);
                add_path(ctx, value, span, Ghost(bytes));
                self.idx = self.idx + 1;
                return UnionAdvance::Continue;
            }
            if str_eq(name.as_str(), "choose") {
                let inner = open_body(source, span, ctx);
                proof {
                    size::lemma_weight_in(tags::room_of(bytes, span), model::deep(inner@));
                }
                self.idx = self.idx + 1;
                return UnionAdvance::Push(new_frame(inner, true));
            }
            if str_eq(name.as_str(), "iterate") {
                let property = read_attr(source, span, "property", ctx);
                add_path(ctx, property, span, Ghost(bytes));
            }
            let inner = open_body(source, span, ctx);
            if is_wrapper_tag(name.as_str()) {
                check_include_at_wrapper_boundary(name.as_str(), &inner, ctx, Ghost(bytes));
            }
            proof {
                size::lemma_weight_in(tags::room_of(bytes, span), model::deep(inner@));
            }
            self.idx = self.idx + 1;
            match descend_union(inner, ctx, Ghost(bytes)) {
                UnionDescend::Push(child) => UnionAdvance::Push(child),
                UnionDescend::Immediate => {
                    assert(self@.pieces + Seq::<PieceView>::empty() =~= self@.pieces);
                    UnionAdvance::Continue
                },
            }
        } else {
            proof {
                size::lemma_text_piece(bytes, views, k, ctx@);
            }
            let (piece, end) = normalize_run(&self.segments, self.idx, ctx, Ghost(bytes));
            proof {
                size::lemma_weight(bytes, views, k, end as int);
                size::lemma_push(old(self)@.pieces, piece@);
            }
            self.idx = end;
            self.add(piece, Ghost(len));
            UnionAdvance::Continue
        }
    }

    /// Passes the next child of a `<choose>`.
    #[verifier::rlimit(50)]
    fn step_choices(&mut self, source: &str, ctx: &mut Ctx) -> (advance: UnionAdvance)
        requires
            attrs::fits(source.spec_bytes()),
            frame_ok(source.spec_bytes(), old(self)@),
            tags::segments_within(old(self)@.segments, old(ctx).room@),
            old(self)@.choose,
            tags::ctx_ok(*old(ctx), source.spec_bytes()),
            old(ctx).depth <= DEPTH_LIMIT,
            size::union_light(old(self)@),
        ensures
            keeps_light(old(self)@, final(self)@, advance),
            steps_to(
                source.spec_bytes(),
                old(self)@,
                final(self)@,
                old(ctx).depth as int,
                old(ctx)@,
                final(ctx)@,
                final(ctx).depth as int,
                advance,
            ),
            advance !is Finished ==> final(self)@.segments == old(self)@.segments,
            advance matches UnionAdvance::Push(child) ==> tags::segments_within(
                child@.segments,
                old(ctx).room@,
            ),
            tags::ctx_ok(*final(ctx), source.spec_bytes()),
            final(ctx).room == old(ctx).room,
    {
        let ghost bytes = source.spec_bytes();
        let ghost views = model::deep(self.segments@);
        let ghost k = self.idx as int;
        proof {
            reveal(steps_to);
            reveal(keeps_light);
            assert(size::total_len(Seq::<PieceView>::empty()) == 0);
        }
        if self.idx >= self.segments.len() {
            return UnionAdvance::Finished(self.take_pieces());
        }
        proof {
            assert(views[k] == self.segments@[k]@);
            assert(body::segment_in(bytes, views[k]));
            size::lemma_union_pass(bytes, views, k, old(self)@.pieces);
        }
        if let BodySegment::DynamicTag { name, span } = &self.segments[self.idx] {
            let span = *span;
            if str_eq(name.as_str(), "when") || str_eq(name.as_str(), "otherwise") {
                let inner = open_body(source, span, ctx);
                proof {
                    size::lemma_weight_in(tags::room_of(bytes, span), model::deep(inner@));
                }
                self.idx = self.idx + 1;
                return match descend_union(inner, ctx, Ghost(bytes)) {
                    UnionDescend::Push(child) => UnionAdvance::Push(child),
                    UnionDescend::Immediate => {
                        assert(self@.pieces + Seq::<PieceView>::empty() =~= self@.pieces);
                        UnionAdvance::Continue
                    },
                };
            }
        }
        self.idx = self.idx + 1;
        UnionAdvance::Continue
    }

    fn step(&mut self, source: &str, ctx: &mut Ctx) -> (advance: UnionAdvance)
        requires
            attrs::fits(source.spec_bytes()),
            frame_ok(source.spec_bytes(), old(self)@),
            tags::segments_within(old(self)@.segments, old(ctx).room@),
            tags::ctx_ok(*old(ctx), source.spec_bytes()),
            old(ctx).depth <= DEPTH_LIMIT,
            size::union_light(old(self)@),
        ensures
            keeps_light(old(self)@, final(self)@, advance),
            steps_to(
                source.spec_bytes(),
                old(self)@,
                final(self)@,
                old(ctx).depth as int,
                old(ctx)@,
                final(ctx)@,
                final(ctx).depth as int,
                advance,
            ),
            advance !is Finished ==> final(self)@.segments == old(self)@.segments,
            advance matches UnionAdvance::Push(child) ==> tags::segments_within(
                child@.segments,
                old(ctx).room@,
            ),
            tags::ctx_ok(*final(ctx), source.spec_bytes()),
            final(ctx).room == old(ctx).room,
    {
        if self.choose {
            self.step_choices(source, ctx)
        } else {
            self.step_body(source, ctx)
        }
    }
}

// ---- the walk -----------------------------------------------------------

/// The worklist is in order and comes to `whole`.
#[verifier::opaque]
spec fn running(
    source: Seq<u8>,
    frames: Seq<UnionFrameView>,
    ctx: CtxView,
    depth: int,
    whole: Gathered,
) -> bool {
    let n = frames.len() as int;
    &&& stack_ok(source, frames)
    &&& depth == bodies(frames, n)
    &&& unwind(source, frames, n - 1, go(source, frames.last(), depth, ctx)) == whole
}

#[verifier::opaque]
spec fn remaining(source: Seq<u8>, frames: Seq<UnionFrameView>) -> nat {
    total_steps(source, frames, frames.len() as int)
}

proof fn lemma_top(
    source: Seq<u8>,
    frames: Seq<UnionFrameView>,
    ctx: CtxView,
    depth: int,
    whole: Gathered,
)
    requires
        running(source, frames, ctx, depth, whole),
    ensures
        frames.len() > 0,
        frame_ok(source, frames.last()),
        0 < depth <= DEPTH_LIMIT,
        frames == frames.drop_last().push(frames.last()),
        frames.len() == 1 ==> depth == 1 && !frames[0].choose,
{
    reveal(running);
    assert(bodies(frames, 0) == 0);
    lemma_frame_count(frames, frames.len() as int);
    assert(frame_ok(source, frames[frames.len() - 1]));
    assert(frames =~= frames.drop_last().push(frames.last()));
}

/// The worklist once its top frame has come to `pieces`.
spec fn after_pop(rest: Seq<UnionFrameView>, pieces: Seq<PieceView>) -> Seq<UnionFrameView> {
    rest.drop_last().push(fed(rest.last(), pieces))
}

#[verifier::rlimit(60)]
proof fn lemma_after_step(
    source: Seq<u8>,
    rest: Seq<UnionFrameView>,
    before: UnionFrameView,
    after: UnionFrameView,
    ctx: CtxView,
    depth: int,
    ctx_after: CtxView,
    new_depth: int,
    whole: Gathered,
    advance: UnionAdvance,
)
    requires
        running(source, rest.push(before), ctx, depth, whole),
        steps_to(source, before, after, depth, ctx, ctx_after, new_depth, advance),
    ensures
        match advance {
            UnionAdvance::Continue => {
                &&& running(source, rest.push(after), ctx_after, new_depth, whole)
                &&& remaining(source, rest.push(after)) < remaining(source, rest.push(before))
            },
            UnionAdvance::Push(child) => {
                let frames = rest.push(after).push(child@);
                &&& running(source, frames, ctx_after, new_depth, whole)
                &&& remaining(source, frames) < remaining(source, rest.push(before))
            },
            UnionAdvance::Finished(pieces) => {
                let given = model::deep(pieces@);
                &&& new_depth == depth
                &&& sql::pieces_ok(given, source.len() as int)
                &&& rest.len() == 0 ==> whole == (Gathered { pieces: given, ctx: ctx_after })
                &&& rest.len() > 0 ==> sql::pieces_ok(rest.last().pieces, source.len() as int)
                &&& rest.len() > 0 && sql::pieces_ok(
                    fed(rest.last(), given).pieces,
                    source.len() as int,
                ) ==> running(
                    source,
                    after_pop(rest, given),
                    ctx_after,
                    depth - (if before.choose {
                        0int
                    } else {
                        1
                    }),
                    whole,
                )
                &&& rest.len() > 0 ==> remaining(source, after_pop(rest, given)) < remaining(
                    source,
                    rest.push(before),
                )
            },
        },
{
    reveal(running);
    reveal(remaining);
    reveal(steps_to);
    let b = rest.push(before);
    let n = rest.len() as int;
    let blank = Gathered { pieces: Seq::empty(), ctx };
    assert(b.last() == before);
    match advance {
        UnionAdvance::Continue => {
            let a = rest.push(after);
            lemma_same_prefix(source, a, b, n, go(source, after, depth, ctx_after));
            flatten::lemma_steps(source, before.segments, before.k, after.k, n);
            assert(a.last() == after);
            assert forall|i: int| 0 <= i < a.len() implies frame_ok(source, #[trigger] a[i]) by {
                if i < n {
                    assert(a[i] == b[i]);
                }
            }
            assert forall|i: int| 0 < i < a.len() implies #[trigger] on_body(a, i) by {
                assert(on_body(b, i));
            }
        },
        UnionAdvance::Push(child) => {
            let a = rest.push(after).push(child@);
            let inner = go(source, child@, new_depth, ctx_after);
            lemma_same_prefix(source, a, b, n, blank);
            lemma_same_prefix(
                source,
                a,
                b,
                n,
                go(source, fed(after, inner.pieces), depth, inner.ctx),
            );
            assert(bodies(a, n + 1) == depth);
            assert(a[n] == after);
            assert(unwind(source, a, n + 1, inner) == unwind(
                source,
                a,
                n,
                go(source, fed(after, inner.pieces), depth, inner.ctx),
            ));
            assert(a.last() == child@);
            lemma_frame_count(b, n + 1);
            assert(n < FRAME_LIMIT);
            assert(total_steps(source, a, n + 1) == total_steps(source, a, n) + 4
                + flatten::steps(source, after.segments, after.k, n));
            assert(flatten::steps(source, before.segments, before.k, n) == 6 + flatten::steps(
                source,
                child@.segments,
                0,
                n + 1,
            ) + flatten::steps(source, before.segments, before.k + 1, n));
            assert forall|i: int| 0 <= i < a.len() implies frame_ok(source, #[trigger] a[i]) by {
                if i < n {
                    assert(a[i] == b[i]);
                }
            }
            assert forall|i: int| 0 < i < a.len() implies #[trigger] on_body(a, i) by {
                if i <= n {
                    assert(on_body(b, i));
                }
            }
        },
        UnionAdvance::Finished(pieces) => {
            let given = model::deep(pieces@);
            if n > 0 {
                let a = after_pop(rest, given);
                let top = fed(rest.last(), given);
                let r = Gathered { pieces: given, ctx: ctx_after };
                assert(b[n - 1] == rest.last());
                assert(frame_ok(source, b[n - 1]));
                lemma_same_prefix(source, a, b, n - 1, blank);
                lemma_same_prefix(
                    source,
                    a,
                    b,
                    n - 1,
                    go(source, top, bodies(b, n), ctx_after),
                );
                assert(a.last() == top);
                assert(bodies(a, n) == bodies(b, n));
                assert(unwind(source, b, n, r) == unwind(
                    source,
                    b,
                    n - 1,
                    go(source, top, bodies(b, n), ctx_after),
                ));
                assert forall|i: int| 0 <= i < a.len() - 1 implies frame_ok(
                    source,
                    #[trigger] a[i],
                ) by {
                    assert(a[i] == b[i]);
                }
                assert forall|i: int| 0 < i < a.len() implies #[trigger] on_body(a, i) by {
                    assert(on_body(b, i));
                }
                assert(total_steps(source, b, n + 1) == total_steps(source, b, n) + 4
                    + flatten::steps(source, before.segments, before.k, n));
                assert(total_steps(source, a, n) == total_steps(source, b, n));
            }
        },
    }
}

proof fn lemma_start(source: Seq<u8>, first: UnionFrameView, ctx: CtxView)
    requires
        frame_ok(source, first),
        !first.choose,
    ensures
        running(source, seq![first], ctx, 1, go(source, first, 1, ctx)),
{
    reveal(running);
    let frames = seq![first];
    assert(bodies(frames, 0) == 0);
    assert(bodies(frames, 1) == 1);
    assert(unwind(source, frames, 0, go(source, first, 1, ctx)) == go(source, first, 1, ctx));
}

/// A frame that has been given what it waited for is the top.
proof fn lemma_under(rest: Seq<UnionFrameView>, below: UnionFrameView, fed_frame: UnionFrameView)
    requires
        size::waiting_below(rest.push(below)),
        fed_frame.segments == below.segments,
        size::union_light(fed_frame),
    ensures
        size::union_stack_light(rest.push(fed_frame)),
        rest.push(fed_frame)[0].segments == rest.push(below)[0].segments,
{
    let all = rest.push(below);
    let n = rest.len() as int;
    assert forall|i: int| 0 < i < n implies #[trigger] size::waits_at(rest, i) by {
        assert(size::waits_at(all, i));
    }
    if n > 0 {
        assert(size::waits_at(all, n));
    }
    size::lemma_union_push(rest, fed_frame);
}

/// Walks the frames of a worklist to the end.
#[verifier::rlimit(50)]
fn run_union(first: UnionFrame, source: &str, ctx: &mut Ctx) -> (pieces: Vec<Piece>)
    requires
        attrs::fits(source.spec_bytes()),
        frame_ok(source.spec_bytes(), first@),
        !first@.choose,
        tags::ctx_ok(*old(ctx), source.spec_bytes()),
        old(ctx).depth == 1,
        tags::segments_within(first@.segments, old(ctx).room@),
        size::union_light(first@),
    ensures
        final(ctx).depth == 0,
        size::total_len(model::deep(pieces@)) <= 44 * size::full_weight(first@.segments),
        (Gathered { pieces: model::deep(pieces@), ctx: final(ctx)@ }) == go(
            source.spec_bytes(),
            first@,
            1,
            old(ctx)@,
        ),
        sql::pieces_ok(model::deep(pieces@), source.spec_bytes().len() as int),
        tags::ctx_ok(*final(ctx), source.spec_bytes()),
        final(ctx).room == old(ctx).room,
{
    let ghost bytes = source.spec_bytes();
    let ghost len = bytes.len() as int;
    let ghost whole = go(bytes, first@, 1, ctx@);
    let mut stack: Vec<UnionFrame> = Vec::new();
    stack.push(first);
    proof {
        assert(model::deep(stack@) =~= seq![first@]);
        lemma_start(bytes, first@, ctx@);
        size::lemma_union_push(Seq::empty(), first@);
        assert(Seq::<UnionFrameView>::empty().push(first@) =~= seq![first@]);
    }
    loop
        invariant
            bytes == source.spec_bytes(),
            len == bytes.len(),
            attrs::fits(bytes),
            tags::ctx_ok(*ctx, bytes),
            ctx.room == old(ctx).room,
            all_within(model::deep(stack@), ctx.room@),
            whole == go(bytes, first@, 1, old(ctx)@),
            stack@.len() > 0,
            model::deep(stack@)[0].segments == first@.segments,
            size::union_stack_light(model::deep(stack@)),
            running(bytes, model::deep(stack@), ctx@, ctx.depth as int, whole),
        decreases remaining(bytes, model::deep(stack@)),
    {
        let ghost frames = model::deep(stack@);
        let ghost rest = frames.drop_last();
        let ghost before = frames.last();
        let ghost ctx_before = ctx@;
        let ghost depth = ctx.depth as int;
        proof {
            lemma_top(bytes, frames, ctx@, depth, whole);
            size::lemma_union_top(rest, before);
        }
        let mut top = stack.pop().unwrap();
        proof {
            assert(model::deep(stack@) =~= rest);
            assert(top@ == before);
        }
        let is_choose = top.choose;
        let advance = top.step(source, ctx);
        proof {
            lemma_after_step(
                bytes,
                rest,
                before,
                top@,
                ctx_before,
                depth,
                ctx@,
                ctx.depth as int,
                whole,
                advance,
            );
            model::deep_push(stack@, top);
            reveal(keeps_light);
            assert(rest.len() > 0 ==> rest.push(top@)[0] == rest[0] && rest[0] == frames[0]);
        }
        let ghost after = top@;
        match advance {
            UnionAdvance::Push(child) => {
                proof {
                    model::deep_push(stack@.push(top), child);
                    size::lemma_union_wait(rest, before, after);
                    size::lemma_union_push(rest.push(after), child@);
                    assert(rest.push(after).push(child@)[0] == rest.push(after)[0]);
                }
                stack.push(top);
                stack.push(child);
            },
            UnionAdvance::Continue => {
                proof {
                    size::lemma_union_push(rest, after);
                }
                stack.push(top);
            },
            UnionAdvance::Finished(pieces) => {
                if !is_choose {
                    ctx.depth = ctx.depth - 1;
                }
                if stack.len() == 0 {
                    return pieces;
                }
                let mut parent = stack.pop().unwrap();
                proof {
                    assert(parent@ == rest.last());
                    assert(model::deep(stack@) =~= rest.drop_last());
                }
                proof {
                    size::lemma_union_fed(parent@, before.segments, model::deep(pieces@));
                }
                let ghost below = parent@;
                parent.deliver(pieces, Ghost(len));
                proof {
                    model::deep_push(stack@, parent);
                    let under = rest.drop_last();
                    assert(under.push(below) =~= rest);
                    lemma_under(under, below, parent@);
                }
                stack.push(parent);
            },
        }
    }
}

/// Gathers the text of all branches of a body.
pub fn run_union_engine(source: &str, segments: Vec<BodySegment>, ctx: &mut Ctx) -> (pieces: Vec<
    Piece,
>)
    requires
        attrs::fits(source.spec_bytes()),
        tags::walkable_in(old(ctx).room@, model::deep(segments@)),
        tags::ctx_ok(*old(ctx), source.spec_bytes()),
        old(ctx).depth == 0,
    ensures
        final(ctx).depth == old(ctx).depth,
        size::total_len(model::deep(pieces@)) <= 44 * size::full_weight(model::deep(segments@)),
        (Gathered { pieces: model::deep(pieces@), ctx: final(ctx)@ }) == descend(
            source.spec_bytes(),
            model::deep(segments@),
            0,
            old(ctx)@,
        ),
        sql::pieces_ok(model::deep(pieces@), source.spec_bytes().len() as int),
        tags::ctx_ok(*final(ctx), source.spec_bytes()),
        final(ctx).room == old(ctx).room,
{
    proof {
        assert(size::total_len(Seq::<PieceView>::empty()) == 0);
        size::lemma_weight(
            source.spec_bytes(),
            model::deep(segments@),
            0,
            segments@.len() as int,
        );
    }
    match descend_union(segments, ctx, Ghost(source.spec_bytes())) {
        UnionDescend::Push(frame) => run_union(frame, source, ctx),
        UnionDescend::Immediate => {
            let pieces: Vec<Piece> = Vec::new();
            assert(model::deep(pieces@) =~= Seq::empty());
            pieces
        },
    }
}

} // verus!
