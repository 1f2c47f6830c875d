//! Flattening of dynamic SQL: every way through the branches of a body, as
//! long as there are at most [`BRANCH_LIMIT`] of them.
//!
//! Nesting is kept on a worklist, so that it costs no call stack.
use crate::attrs;
use crate::attrs::diagnostic;
use crate::body;
use crate::body::{BodySegment, SegmentView};
use crate::model;
use crate::model::{
    ByteSpan, DiagCode, Diagnostic, DiagnosticView, Dialect, IncludeRef, IncludeRefView, Spanned,
    SqlString, SqlStringView, SqlText, SqlTextView, SqlVariant, SqlVariantView,
};
use crate::size;
use crate::sql;
use crate::sql::{assemble, copy_piece, Piece, PieceView, Sql, SqlView};
use crate::tags;
use crate::tags::{
    new_ctx, note_one, normalize_run, open_body, open_tag, read_attr, Action, ActionView, Ctx, CtxView,
    Room, DEPTH_LIMIT,
};
use crate::text;
use crate::text::{concat3, decimal_text, str_eq};
use crate::union_walk;
use crate::union_walk::run_union_engine;
use crate::wrapper;
use crate::wrapper::{
    empty_alt, finish_pending, try_combine, Alt, AltView, KindView, PendingKind, BRANCH_LIMIT,
};
use crate::MAX_INPUT_BYTES;
use vstd::prelude::*;
use vstd::string::*;
use vstd::utf8::*;

verus! {

// ---- what flattening gives ----------------------------------------------

/// The alternatives and the record, or how many alternatives there would have
/// been.
pub type Flat = Result<(Seq<AltView>, CtxView), nat>;

/// Every alternative with one more piece.
pub open spec fn with_piece(alts: Seq<AltView>, piece: PieceView) -> Seq<AltView> {
    Seq::new(
        alts.len(),
        |k: int| AltView { pieces: alts[k].pieces.push(piece), conditions: alts[k].conditions },
    )
}

/// What a tag waits for its body with.
pub struct PendingView {
    pub span: ByteSpan,
    pub kind: KindView,
    pub restore: Option<bool>,
}

pub open spec fn restored(ctx: CtxView, restore: Option<bool>) -> CtxView {
    match restore {
        Some(flag) => CtxView { inside_unknown: flag, ..ctx },
        None => ctx,
    }
}

/// The alternatives `acc` continued with those of a tag's body.
pub open spec fn delivered(
    source: Seq<u8>,
    acc: Seq<AltView>,
    pending: PendingView,
    alts: Seq<AltView>,
    ctx: CtxView,
) -> Flat {
    match wrapper::finished(source, pending.span, pending.kind, alts) {
        Err(n) => Err(n),
        Ok(local) => match wrapper::product(acc, local) {
            Err(n) => Err(n),
            Ok(all) => Ok((all, restored(ctx, pending.restore))),
        },
    }
}

/// What a `<choose>` waits for one of its branches with.
pub enum BranchView {
    When(Seq<char>),
    Otherwise,
}

/// The branches `local` of a `<choose>` and one more.
pub open spec fn chosen(
    local: Seq<AltView>,
    branch: BranchView,
    alts: Seq<AltView>,
) -> Result<Seq<AltView>, nat> {
    let all = local + match branch {
        BranchView::When(test) => Seq::new(
            alts.len(),
            |k: int| wrapper::taken(test, Seq::empty(), alts[k]),
        ),
        BranchView::Otherwise => alts,
    };
    if all.len() > BRANCH_LIMIT {
        Err(all.len())
    } else {
        Ok(all)
    }
}

pub open spec fn nesting_limit() -> DiagnosticView {
    DiagnosticView {
        code: DiagCode::NestingLimitExceeded,
        span: None,
        message: "dynamic-tag nesting exceeds the depth cap of 256; remaining subtree treated as opaque (no text contribution)"@,
    }
}

pub open spec fn stray_choice(name: Seq<char>, span: ByteSpan) -> DiagnosticView {
    DiagnosticView {
        code: DiagCode::UnknownElement,
        span: Some(span),
        message: "<choose> child <"@ + name + "> is neither <when> nor <otherwise> -- ignored"@,
    }
}

/// The alternatives of a nested body, which is left out below the depth cap.
pub open spec fn descend(
    source: Seq<u8>,
    segments: Seq<SegmentView>,
    depth: int,
    ctx: CtxView,
) -> Flat
    decreases DEPTH_LIMIT - depth, 0int, 0int,
{
    if depth >= DEPTH_LIMIT {
        Ok((seq![wrapper::no_alt()], tags::noted(ctx, seq![nesting_limit()])))
    } else {
        body_from(source, segments, 0, seq![wrapper::no_alt()], depth + 1, ctx)
    }
}

/// The alternatives `acc`, each continued with those of the segments from `k`
/// on.
pub open spec fn body_from(
    source: Seq<u8>,
    segments: Seq<SegmentView>,
    k: int,
    acc: Seq<AltView>,
    depth: int,
    ctx: CtxView,
) -> Flat
    decreases DEPTH_LIMIT - depth, 2int, segments.len() - k,
{
    if k >= segments.len() {
        Ok((acc, ctx))
    } else {
        match segments[k] {
            SegmentView::Text { .. } => {
                proof {
                    tags::lemma_run_end(segments, k);
                }
                body_from(
                    source,
                    segments,
                    tags::run_end(segments, k),
                    with_piece(acc, tags::text_piece(segments, k, ctx)),
                    depth,
                    tags::after_text(segments, k, ctx),
                )
            },
            SegmentView::Tag { name, span } => {
                let open = tags::opened(source, ctx, name, span);
                match open.action {
                    ActionView::Skip => body_from(source, segments, k + 1, acc, depth, open.ctx),
                    ActionView::Add(piece) => body_from(
                        source,
                        segments,
                        k + 1,
                        with_piece(acc, piece),
                        depth,
                        open.ctx,
                    ),
                    ActionView::Choose(inner) => match choose_from(
                        source,
                        inner,
                        0,
                        Seq::empty(),
                        false,
                        depth,
                        open.ctx,
                    ) {
                        Err(n) => Err(n),
                        Ok((alts, after)) => match delivered(
                            source,
                            acc,
                            PendingView { span, kind: KindView::Identity, restore: None },
                            alts,
                            after,
                        ) {
                            Err(n) => Err(n),
                            Ok((all, next)) => body_from(
                                source,
                                segments,
                                k + 1,
                                all,
                                depth,
                                next,
                            ),
                        },
                    },
                    ActionView::Descend { kind, restore, inner } => match descend(
                        source,
                        inner,
                        depth,
                        open.ctx,
                    ) {
                        Err(n) => Err(n),
                        Ok((alts, after)) => match delivered(
                            source,
                            acc,
                            PendingView { span, kind, restore },
                            alts,
                            after,
                        ) {
                            Err(n) => Err(n),
                            Ok((all, next)) => body_from(
                                source,
                                segments,
                                k + 1,
                                all,
                                depth,
                                next,
                            ),
                        },
                    },
                }
            },
        }
    }
}

/// The branches of a `<choose>` whose children are `segments`, those before `k`
/// being `local`. Without an `<otherwise>`, taking none is one more.
pub open spec fn choose_from(
    source: Seq<u8>,
    segments: Seq<SegmentView>,
    k: int,
    local: Seq<AltView>,
    has_otherwise: bool,
    depth: int,
    ctx: CtxView,
) -> Flat
    decreases DEPTH_LIMIT - depth, 1int, segments.len() - k,
{
    if k >= segments.len() {
        Ok((if has_otherwise {
            local
        } else {
            local.push(wrapper::no_alt())
        }, ctx))
    } else {
        match segments[k] {
            SegmentView::Text { .. } => choose_from(
                source,
                segments,
                k + 1,
                local,
                has_otherwise,
                depth,
                ctx,
            ),
            SegmentView::Tag { name, span } => if name == "when"@ || name == "otherwise"@ {
                let read = if name == "when"@ {
                    tags::after_read(source, ctx, span, "test"@)
                } else {
                    ctx
                };
                let branch = if name == "when"@ {
                    BranchView::When(tags::attr_or_empty(source, span, "test"@))
                } else {
                    BranchView::Otherwise
                };
                match descend(
                    source,
                    body::subtree(source, span).segments,
                    depth,
                    tags::noted(read, body::subtree(source, span).diagnostics),
                ) {
                    Err(n) => Err(n),
                    Ok((alts, next)) => match chosen(local, branch, alts) {
                        Err(n) => Err(n),
                        Ok(all) => choose_from(
                            source,
                            segments,
                            k + 1,
                            all,
                            has_otherwise || name != "when"@,
                            depth,
                            next,
                        ),
                    },
                }
            } else {
                choose_from(
                    source,
                    segments,
                    k + 1,
                    local,
                    has_otherwise,
                    depth,
                    tags::noted(ctx, seq![stray_choice(name, span)]),
                )
            },
        }
    }
}

// ---- frames -------------------------------------------------------------

/// A body or a `<choose>` in the middle of its walk.
pub enum FrameView {
    Body { segments: Seq<SegmentView>, k: int, acc: Seq<AltView>, pending: Option<PendingView> },
    Choose {
        segments: Seq<SegmentView>,
        k: int,
        local: Seq<AltView>,
        has_otherwise: bool,
        pending: Option<BranchView>,
    },
}

/// What a frame comes to.
pub open spec fn go(source: Seq<u8>, frame: FrameView, depth: int, ctx: CtxView) -> Flat {
    match frame {
        FrameView::Body { segments, k, acc, .. } => body_from(
            source,
            segments,
            k,
            acc,
            depth,
            ctx,
        ),
        FrameView::Choose { segments, k, local, has_otherwise, .. } => choose_from(
            source,
            segments,
            k,
            local,
            has_otherwise,
            depth,
            ctx,
        ),
    }
}

/// What a frame comes to once what it waits for has come to `r`.
pub open spec fn resume(source: Seq<u8>, frame: FrameView, depth: int, r: Flat) -> Flat {
    match r {
        Err(n) => Err(n),
        Ok((alts, ctx)) => match frame {
            FrameView::Body { segments, k, acc, pending } => match pending {
                Some(pending) => match delivered(source, acc, pending, alts, ctx) {
                    Err(n) => Err(n),
                    Ok((all, next)) => body_from(source, segments, k, all, depth, next),
                },
                None => Err(0),
            },
            FrameView::Choose { segments, k, local, has_otherwise, pending } => match pending {
                Some(branch) => match chosen(local, branch, alts) {
                    Err(n) => Err(n),
                    Ok(all) => choose_from(source, segments, k, all, has_otherwise, depth, ctx),
                },
                None => Err(0),
            },
        },
    }
}

/// The number of bodies among the first `n` frames.
pub open spec fn bodies(frames: Seq<FrameView>, n: int) -> int
    decreases n,
{
    if n <= 0 {
        0
    } else {
        bodies(frames, n - 1) + (if frames[n - 1] is Body {
            1int
        } else {
            0
        })
    }
}

/// What the first `n` frames come to, the last of them waiting for `r`.
pub open spec fn unwind(source: Seq<u8>, frames: Seq<FrameView>, n: int, r: Flat) -> Flat
    decreases n,
{
    if n <= 0 {
        r
    } else {
        unwind(source, frames, n - 1, resume(source, frames[n - 1], bodies(frames, n), r))
    }
}

proof fn lemma_unwind_err(source: Seq<u8>, frames: Seq<FrameView>, n: int, count: nat)
    ensures
        unwind(source, frames, n, Err(count)) == Err::<(Seq<AltView>, CtxView), nat>(count),
    decreases n,
{
    if n > 0 {
        lemma_unwind_err(source, frames, n - 1, count);
    }
}

proof fn lemma_same_prefix(source: Seq<u8>, a: Seq<FrameView>, b: Seq<FrameView>, n: int, r: Flat)
    requires
        0 <= n <= a.len(),
        n <= b.len(),
        forall|i: int| 0 <= i < n ==> a[i] == b[i],
    ensures
        bodies(a, n) == bodies(b, n),
        unwind(source, a, n, r) == unwind(source, b, n, r),
    decreases n,
{
    if n > 0 {
        lemma_same_prefix(source, a, b, n - 1, r);
        lemma_same_prefix(
            source,
            a,
            b,
            n - 1,
            resume(source, a[n - 1], bodies(a, n), r),
        );
    }
}

// ---- termination --------------------------------------------------------

/// The most frames on the worklist: bodies nest to the depth cap, and between
/// two of them there is at most one `<choose>`.
pub const FRAME_LIMIT: u32 = 512;

/// A bound on the steps that the segments from `k` on take at a level of the
/// worklist.
pub open spec fn steps(source: Seq<u8>, segments: Seq<SegmentView>, k: int, level: int) -> nat
    decreases FRAME_LIMIT - level, segments.len() - k,
{
    if k >= segments.len() {
        0
    } else {
        (match segments[k] {
            SegmentView::Text { .. } => 1nat,
            SegmentView::Tag { span, .. } => 6 + (if level < FRAME_LIMIT {
                steps(source, body::subtree(source, span).segments, 0, level + 1)
            } else {
                0
            }),
        }) + steps(source, segments, k + 1, level)
    }
}

/// Fewer segments take fewer steps.
pub proof fn lemma_steps(source: Seq<u8>, segments: Seq<SegmentView>, j: int, k: int, level: int)
    requires
        j <= k <= segments.len(),
    ensures
        steps(source, segments, k, level) + (k - j) <= steps(source, segments, j, level),
    decreases k - j,
{
    if j < k {
        lemma_steps(source, segments, j + 1, k, level);
    }
}

pub open spec fn frame_segments(frame: FrameView) -> Seq<SegmentView> {
    match frame {
        FrameView::Body { segments, .. } => segments,
        FrameView::Choose { segments, .. } => segments,
    }
}

pub open spec fn frame_at(frame: FrameView) -> int {
    match frame {
        FrameView::Body { k, .. } => k,
        FrameView::Choose { k, .. } => k,
    }
}

pub open spec fn waits(frame: FrameView) -> bool {
    match frame {
        FrameView::Body { pending, .. } => pending is Some,
        FrameView::Choose { pending, .. } => pending is Some,
    }
}

pub open spec fn frame_steps(source: Seq<u8>, frame: FrameView, level: int) -> nat {
    2 + steps(source, frame_segments(frame), frame_at(frame), level) + (if waits(frame) {
        2nat
    } else {
        0
    })
}

pub open spec fn total_steps(source: Seq<u8>, frames: Seq<FrameView>, n: int) -> nat
    decreases n,
{
    if n <= 0 {
        0
    } else {
        total_steps(source, frames, n - 1) + frame_steps(source, frames[n - 1], n - 1)
    }
}

proof fn lemma_same_total(source: Seq<u8>, a: Seq<FrameView>, b: Seq<FrameView>, n: int)
    requires
        0 <= n <= a.len(),
        n <= b.len(),
        forall|i: int| 0 <= i < n ==> a[i] == b[i],
    ensures
        total_steps(source, a, n) == total_steps(source, b, n),
    decreases n,
{
    if n > 0 {
        lemma_same_total(source, a, b, n - 1);
    }
}

// ---- invariants ---------------------------------------------------------

pub open spec fn frame_ok(source: Seq<u8>, frame: FrameView) -> bool {
    &&& tags::walkable(source, frame_segments(frame))
    &&& 0 <= frame_at(frame) <= frame_segments(frame).len()
    &&& match frame {
        FrameView::Body { acc, pending, .. } => {
            &&& acc.len() <= BRANCH_LIMIT
            &&& wrapper::alts_ok(acc, source.len() as int)
            &&& pending matches Some(p) ==> tags::in_source(p.span, source.len() as int)
        },
        FrameView::Choose { local, .. } => {
            &&& local.len() <= BRANCH_LIMIT
            &&& wrapper::alts_ok(local, source.len() as int)
        },
    }
}

/// The segments of all frames lie in a part of the source.
pub open spec fn all_within(frames: Seq<FrameView>, room: Room) -> bool {
    forall|i: int|
        0 <= i < frames.len() ==> tags::segments_within(
            frame_segments(#[trigger] frames[i]),
            room,
        )
}

/// A `<choose>` as frame `i` of a worklist stands on a body.
pub open spec fn on_body(frames: Seq<FrameView>, i: int) -> bool {
    frames[i] is Choose ==> frames[i - 1] is Body
}

/// The frames of a worklist: a `<choose>` stands on a body, every frame but the
/// last waits, and bodies do not nest beyond the cap.
pub open spec fn stack_ok(source: Seq<u8>, frames: Seq<FrameView>, incoming: bool) -> bool {
    &&& frames.len() > 0
    &&& frames[0] is Body
    &&& bodies(frames, frames.len() as int) <= DEPTH_LIMIT
    &&& forall|i: int| 0 <= i < frames.len() ==> frame_ok(source, #[trigger] frames[i])
    &&& forall|i: int| 0 < i < frames.len() ==> #[trigger] on_body(frames, i)
    &&& forall|i: int| 0 <= i < frames.len() - 1 ==> waits(#[trigger] frames[i])
    &&& waits(frames.last()) == incoming
}

proof fn lemma_frame_count(frames: Seq<FrameView>, n: int)
    requires
        0 <= n <= frames.len(),
        frames.len() > 0 ==> frames[0] is Body,
        forall|i: int| 0 < i < frames.len() ==> #[trigger] on_body(frames, i),
    ensures
        n <= 2 * bodies(frames, n),
        0 <= bodies(frames, n),
    decreases n,
{
    if n > 0 {
        lemma_frame_count(frames, n - 1);
        if frames[n - 1] is Choose {
            if n >= 2 {
                lemma_frame_count(frames, n - 2);
                assert(on_body(frames, n - 1));
            }
        }
    }
}

// ---- the engine ---------------------------------------------------------

/// A body in the middle of its walk.
struct BodyFrame {
    segments: Vec<BodySegment>,
    idx: usize,
    acc: Vec<Alt>,
    pending: Option<PendingBody>,
}

struct PendingBody {
    span: ByteSpan,
    kind: PendingKind,
    restore_inside_unknown: Option<bool>,
}

/// A `<choose>` in the middle of its walk.
struct ChooseFrame {
    segments: Vec<BodySegment>,
    idx: usize,
    local: Vec<Alt>,
    has_otherwise: bool,
    pending: Option<ChoosePending>,
}

enum ChoosePending {
    When { test_value: String },
    Otherwise,
}

enum Frame {
    Body(BodyFrame),
    Choose(ChooseFrame),
}

spec fn pending_view(pending: Option<PendingBody>) -> Option<PendingView> {
    match pending {
        Some(p) => Some(
            PendingView { span: p.span, kind: p.kind@, restore: p.restore_inside_unknown },
        ),
        None => None,
    }
}

spec fn branch_view(pending: Option<ChoosePending>) -> Option<BranchView> {
    match pending {
        Some(ChoosePending::When { test_value }) => Some(BranchView::When(test_value@)),
        Some(ChoosePending::Otherwise) => Some(BranchView::Otherwise),
        None => None,
    }
}

impl BodyFrame {
    spec fn spec_view(&self) -> FrameView {
        FrameView::Body {
            segments: model::deep(self.segments@),
            k: self.idx as int,
            acc: model::deep(self.acc@),
            pending: pending_view(self.pending),
        }
    }
}

impl ChooseFrame {
    spec fn spec_view(&self) -> FrameView {
        FrameView::Choose {
            segments: model::deep(self.segments@),
            k: self.idx as int,
            local: model::deep(self.local@),
            has_otherwise: self.has_otherwise,
            pending: branch_view(self.pending),
        }
    }
}

impl View for Frame {
    type V = FrameView;

    closed spec fn view(&self) -> FrameView {
        match self {
            Frame::Body(frame) => frame.spec_view(),
            Frame::Choose(frame) => frame.spec_view(),
        }
    }
}

/// What one step of a frame comes to.
enum Advance {
    /// Walk this frame first.
    Push(Frame),
    /// Go on.
    Continue,
    /// The frame is done.
    Finished(Result<Vec<Alt>, u64>),
}

/// The alternatives of a finished frame and the record.
spec fn flat_of(r: Result<Vec<Alt>, u64>, ctx: CtxView) -> Flat {
    match r {
        Ok(alts) => Ok((model::deep(alts@), ctx)),
        Err(n) => Err(n as nat),
    }
}

/// A finished frame's alternatives are few, and well-formed.
spec fn result_ok(source: Seq<u8>, r: Result<Vec<Alt>, u64>) -> bool {
    match r {
        Ok(alts) => alts@.len() <= BRANCH_LIMIT + 1 && wrapper::alts_ok(
            model::deep(alts@),
            source.len() as int,
        ),
        Err(n) => n > BRANCH_LIMIT,
    }
}

/// `advance` is a step of the frame `before`, which becomes `after`.
#[verifier::opaque]
spec fn steps_to(
    source: Seq<u8>,
    before: FrameView,
    after: FrameView,
    depth: int,
    ctx_before: CtxView,
    ctx_after: CtxView,
    new_depth: int,
    advance: Advance,
) -> bool {
    match advance {
        Advance::Continue => {
            &&& new_depth == depth
            &&& go(source, before, depth, ctx_before) == go(source, after, depth, ctx_after)
            &&& frame_ok(source, after)
            &&& !waits(after)
            &&& after is Body == before is Body
            &&& frame_segments(after) == frame_segments(before)
            &&& frame_at(before) < frame_at(after)
        },
        Advance::Finished(r) => {
            &&& new_depth == depth
            &&& go(source, before, depth, ctx_before) == flat_of(r, ctx_after)
            &&& result_ok(source, r)
        },
        Advance::Push(child) => {
            &&& new_depth == depth + (if child@ is Body {
                1int
            } else {
                0
            })
            &&& new_depth <= DEPTH_LIMIT
            &&& child@ is Choose ==> before is Body
            &&& go(source, before, depth, ctx_before) == resume(
                source,
                after,
                depth,
                go(source, child@, new_depth, ctx_after),
            )
            &&& frame_ok(source, after)
            &&& waits(after)
            &&& after is Body == before is Body
            &&& frame_segments(after) == frame_segments(before)
            &&& frame_at(after) == frame_at(before) + 1
            &&& frame_ok(source, child@)
            &&& !waits(child@)
            &&& frame_at(child@) == 0
            &&& frame_segments(before)[frame_at(before)] matches SegmentView::Tag { span, .. }
                && frame_segments(child@) == body::subtree(source, span).segments
        },
    }
}

/// `advance` is what `before`, which becomes `after`, makes of `alts`.
#[verifier::opaque]
spec fn takes(
    source: Seq<u8>,
    before: FrameView,
    after: FrameView,
    depth: int,
    ctx_before: CtxView,
    ctx_after: CtxView,
    alts: Seq<AltView>,
    advance: Advance,
) -> bool {
    let whole = resume(source, before, depth, Ok((alts, ctx_before)));
    match advance {
        Advance::Continue => {
            &&& whole == go(source, after, depth, ctx_after)
            &&& frame_ok(source, after)
            &&& !waits(after)
            &&& after is Body == before is Body
            &&& frame_segments(after) == frame_segments(before)
            &&& frame_at(after) == frame_at(before)
        },
        Advance::Finished(r) => {
            &&& whole == flat_of(r, ctx_after)
            &&& result_ok(source, r)
        },
        Advance::Push(_) => false,
    }
}

/// The frame `before`, which becomes `after`, stays light in a step, and so is
/// what the step comes to.
#[verifier::opaque]
spec fn keeps_light(
    before: FrameView,
    after: FrameView,
    depth: int,
    new_depth: int,
    advance: Advance,
) -> bool {
    match advance {
        Advance::Continue => {
            &&& size::frame_light(after, depth)
            &&& after is Body == before is Body
            &&& frame_segments(after) == frame_segments(before)
        },
        Advance::Push(child) => {
            &&& size::frame_light(after, depth)
            &&& after is Body == before is Body
            &&& frame_segments(after) == frame_segments(before)
            &&& new_depth == depth + (if child@ is Body {
                1int
            } else {
                0
            })
            &&& size::frame_light(child@, new_depth)
            &&& size::linked(after, child@)
        },
        Advance::Finished(Ok(alts)) => size::alts_light(
            model::deep(alts@),
            size::result_bound(before, depth),
        ),
        Advance::Finished(Err(_)) => true,
    }
}

pub fn nesting_limit_diagnostic() -> (d: Diagnostic)
    ensures
        d@ == nesting_limit(),
{
    diagnostic(
        DiagCode::NestingLimitExceeded,
        None,
        "dynamic-tag nesting exceeds the depth cap of 256; remaining subtree treated as opaque (no text contribution)".to_owned(),
    )
}

/// What going down into a body comes to.
enum Descend {
    Push(Frame),
    /// The depth cap is reached: this stands for the body.
    Immediate(Vec<Alt>),
}

fn lone_alt() -> (alts: Vec<Alt>)
    ensures
        model::deep(alts@) == seq![wrapper::no_alt()],
        alts@.len() == 1,
{
    let mut alts: Vec<Alt> = Vec::new();
    alts.push(empty_alt());
    assert(model::deep(alts@) =~= seq![wrapper::no_alt()]);
    alts
}

/// Goes down into a body, as far as the depth cap allows.
fn descend_body(inner: Vec<BodySegment>, ctx: &mut Ctx, Ghost(source): Ghost<Seq<u8>>) -> (r:
    Descend)
    requires
        tags::walkable_in(old(ctx).room@, model::deep(inner@)),
        tags::ctx_ok(*old(ctx), source),
        old(ctx).depth <= DEPTH_LIMIT,
    ensures
        tags::ctx_ok(*final(ctx), source),
        final(ctx).room == old(ctx).room,
        match r {
            Descend::Push(child) => {
                &&& old(ctx).depth < DEPTH_LIMIT
                &&& final(ctx).depth == old(ctx).depth + 1
                &&& final(ctx)@ == old(ctx)@
                &&& child@ is Body
                &&& go(source, child@, final(ctx).depth as int, final(ctx)@) == descend(
                    source,
                    model::deep(inner@),
                    old(ctx).depth as int,
                    old(ctx)@,
                )
                &&& frame_ok(source, child@)
                &&& !waits(child@)
                &&& frame_at(child@) == 0
                &&& frame_segments(child@) == model::deep(inner@)
                &&& size::frame_light(child@, final(ctx).depth as int)
            },
            Descend::Immediate(alts) => {
                &&& old(ctx).depth == DEPTH_LIMIT
                &&& model::deep(alts@) == seq![wrapper::no_alt()]
                &&& final(ctx).depth == old(ctx).depth
                &&& descend(source, model::deep(inner@), old(ctx).depth as int, old(ctx)@) == Ok::<
                    (Seq<AltView>, CtxView),
                    nat,
                >((model::deep(alts@), final(ctx)@))
                &&& alts@.len() == 1
                &&& wrapper::alts_ok(model::deep(alts@), source.len() as int)
            },
        },
{
    if ctx.depth >= DEPTH_LIMIT {
        note_one(ctx, nesting_limit_diagnostic(), Ghost(source));
        return Descend::Immediate(lone_alt());
    }
    ctx.depth = ctx.depth + 1;
    let frame = Frame::Body(
        BodyFrame { segments: inner, idx: 0, acc: lone_alt(), pending: None },
    );
    proof {
        size::lemma_fresh_body(model::deep(inner@), ctx.depth as int);
    }
    Descend::Push(frame)
}

/// Adds a piece to every alternative.
fn add_to_all(alts: &mut Vec<Alt>, piece: &Piece, Ghost(len): Ghost<int>)
    requires
        wrapper::alts_ok(model::deep(old(alts)@), len),
        sql::piece_ok(piece@, len),
    ensures
        model::deep(final(alts)@) == with_piece(model::deep(old(alts)@), piece@),
        wrapper::alts_ok(model::deep(final(alts)@), len),
        final(alts)@.len() == old(alts)@.len(),
{
    let ghost before = model::deep(alts@);
    let mut done: Vec<Alt> = Vec::new();
    let count = alts.len();
    let mut k: usize = 0;
    while k < count
        invariant
            count == before.len(),
            k <= count,
            alts@.len() == count - k,
            done@.len() == k,
            before.len() == old(alts)@.len(),
            before == model::deep(old(alts)@),
            forall|i: int| 0 <= i < count - k ==> alts@[i] == old(alts)@[i],
            forall|i: int|
                0 <= i < k ==> (#[trigger] done@[i]@) == with_piece(before, piece@)[count - 1 - i],
        decreases count - k,
    {
        let alt = alts.pop().unwrap();
        assert(alt@ == before[count - 1 - k]);
        let Alt { mut pieces, conditions } = alt;
        let ghost old_pieces = pieces@;
        let copy = copy_piece(piece);
        pieces.push(copy);
        proof {
            model::deep_push(old_pieces, copy);
        }
        done.push(Alt { pieces, conditions });
        k += 1;
    }
    k = 0;
    while k < count
        invariant
            count == before.len(),
            k <= count,
            alts@.len() == k,
            done@.len() == count - k,
            forall|i: int|
                0 <= i < count - k ==> (#[trigger] done@[i]@) == with_piece(
                    before,
                    piece@,
                )[count - 1 - i],
            forall|i: int|
                0 <= i < k ==> (#[trigger] alts@[i]@) == with_piece(before, piece@)[i],
        decreases count - k,
    {
        let alt = done.pop().unwrap();
        alts.push(alt);
        k += 1;
    }
    proof {
        let after = with_piece(before, piece@);
        assert(model::deep(alts@) =~= after);
        assert forall|i: int| 0 <= i < after.len() implies sql::pieces_ok(
            (#[trigger] after[i]).pieces,
            len,
        ) by {
            assert(sql::pieces_ok(before[i].pieces, len));
        }
    }
}

impl BodyFrame {
    /// Takes the alternatives of the tag that this body waits for.
    fn deliver(&mut self, source: &str, ctx: &mut Ctx, alts: Vec<Alt>) -> (advance: Advance)
        requires
            attrs::fits(source.spec_bytes()),
            frame_ok(source.spec_bytes(), old(self).spec_view()),
            tags::segments_within(frame_segments(old(self).spec_view()), old(ctx).room@),
            waits(old(self).spec_view()),
            tags::ctx_ok(*old(ctx), source.spec_bytes()),
            old(ctx).depth <= DEPTH_LIMIT,
            alts@.len() <= BRANCH_LIMIT + 1,
            wrapper::alts_ok(model::deep(alts@), source.spec_bytes().len() as int),
            size::frame_light(old(self).spec_view(), old(ctx).depth as int),
            size::alts_light(
                model::deep(alts@),
                size::owed(old(self).spec_view(), old(ctx).depth as int),
            ),
        ensures
            keeps_light(
                old(self).spec_view(),
                final(self).spec_view(),
                old(ctx).depth as int,
                final(ctx).depth as int,
                advance,
            ),
            takes(
                source.spec_bytes(),
                old(self).spec_view(),
                final(self).spec_view(),
                old(ctx).depth as int,
                old(ctx)@,
                final(ctx)@,
                model::deep(alts@),
                advance,
            ),
            advance !is Finished ==> frame_segments(final(self).spec_view()) == frame_segments(
                old(self).spec_view(),
            ),
            tags::ctx_ok(*final(ctx), source.spec_bytes()),
            final(ctx).room == old(ctx).room,
            final(ctx).depth == old(ctx).depth,
    {
        let ghost bytes = source.spec_bytes();
        let ghost len = bytes.len() as int;
        let ghost given = model::deep(alts@);
        let ghost acc = model::deep(self.acc@);
        proof {
            reveal(takes);
            reveal(keeps_light);
        }
        let pending = match self.pending.take() {
            Some(pending) => pending,
            None => {
                return Advance::Continue;
            },
        };
        let ghost waited = PendingView {
            span: pending.span,
            kind: pending.kind@,
            restore: pending.restore_inside_unknown,
        };
        if let Some(flag) = pending.restore_inside_unknown {
            ctx.inside_unknown_element = flag;
        }
        match finish_pending(source, pending.span, pending.kind, alts) {
            Err(n) => Advance::Finished(Err(n)),
            Ok(local) => match try_combine(&self.acc, &local, Ghost(len)) {
                Err(n) => Advance::Finished(Err(n)),
                Ok(all) => {
                    proof {
                        size::lemma_delivered(
                            bytes,
                            model::deep(self.segments@),
                            self.idx as int,
                            acc,
                            waited,
                            given,
                            model::deep(local@),
                            model::deep(all@),
                            ctx.depth as int,
                        );
                    }
                    self.acc = all;
                    Advance::Continue
                },
            },
        }
    }

    /// Goes down into the body of the tag just passed.
    fn begin_descend(
        &mut self,
        source: &str,
        ctx: &mut Ctx,
        span: ByteSpan,
        kind: PendingKind,
        restore: Option<bool>,
        inner: Vec<BodySegment>,
    ) -> (advance: Advance)
        requires
            attrs::fits(source.spec_bytes()),
            frame_ok(source.spec_bytes(), old(self).spec_view()),
            tags::segments_within(frame_segments(old(self).spec_view()), old(ctx).room@),
            !waits(old(self).spec_view()),
            tags::in_source(span, source.spec_bytes().len() as int),
            tags::ctx_ok(*old(ctx), source.spec_bytes()),
            old(ctx).depth <= DEPTH_LIMIT,
            tags::walkable_in(old(ctx).room@, model::deep(inner@)),
            size::full_weight(model::deep(inner@)) <= size::span_len(span),
            0 < old(self).idx,
            body::segment_span(model::deep(old(self).segments@)[old(self).idx - 1]) == span,
            size::frame_light(
                FrameView::Body {
                    segments: model::deep(old(self).segments@),
                    k: old(self).idx as int,
                    acc: model::deep(old(self).acc@),
                    pending: Some(PendingView { span, kind: kind@, restore }),
                },
                old(ctx).depth as int,
            ),
        ensures
            keeps_light(
                old(self).spec_view(),
                final(self).spec_view(),
                old(ctx).depth as int,
                final(ctx).depth as int,
                advance,
            ),
            tags::ctx_ok(*final(ctx), source.spec_bytes()),
            final(ctx).room == old(ctx).room,
            ({
                let bytes = source.spec_bytes();
                let depth = old(ctx).depth as int;
                let after = final(self).spec_view();
                let waiting = FrameView::Body {
                    segments: model::deep(old(self).segments@),
                    k: old(self).idx as int,
                    acc: model::deep(old(self).acc@),
                    pending: Some(PendingView { span, kind: kind@, restore }),
                };
                let whole = resume(
                    bytes,
                    waiting,
                    depth,
                    descend(bytes, model::deep(inner@), depth, old(ctx)@),
                );
                match advance {
                    Advance::Push(child) => {
                        &&& final(ctx).depth == depth + 1
                        &&& depth < DEPTH_LIMIT
                        &&& child@ is Body
                        &&& after == waiting
                        &&& whole == resume(
                            bytes,
                            after,
                            depth,
                            go(bytes, child@, depth + 1, final(ctx)@),
                        )
                        &&& frame_ok(bytes, after)
                        &&& frame_ok(bytes, child@)
                        &&& !waits(child@)
                        &&& frame_at(child@) == 0
                        &&& frame_segments(child@) == model::deep(inner@)
                    },
                    Advance::Continue => {
                        &&& final(ctx).depth == depth
                        &&& whole == go(bytes, after, depth, final(ctx)@)
                        &&& frame_ok(bytes, after)
                        &&& !waits(after)
                        &&& after is Body
                        &&& frame_segments(after) == model::deep(old(self).segments@)
                        &&& frame_at(after) == old(self).idx
                    },
                    Advance::Finished(r) => {
                        &&& final(ctx).depth == depth
                        &&& whole == flat_of(r, final(ctx)@)
                        &&& result_ok(bytes, r)
                    },
                }
            }),
    {
        let ghost bytes = source.spec_bytes();
        proof {
            reveal(takes);
            reveal(keeps_light);
        }
        self.pending = Some(PendingBody { span, kind, restore_inside_unknown: restore });
        match descend_body(inner, ctx, Ghost(bytes)) {
            Descend::Push(child) => Advance::Push(child),
            Descend::Immediate(alts) => {
                proof {
                    size::lemma_owed(bytes, self.spec_view(), ctx.depth as int);
                    size::lemma_lone_alt(size::owed(self.spec_view(), ctx.depth as int));
                }
                self.deliver(source, ctx, alts)
            },
        }
    }

    /// Passes the next run of text or the next tag.
    #[verifier::rlimit(50)]
    fn step(&mut self, source: &str, ctx: &mut Ctx) -> (advance: Advance)
        requires
            attrs::fits(source.spec_bytes()),
            frame_ok(source.spec_bytes(), old(self).spec_view()),
            tags::segments_within(frame_segments(old(self).spec_view()), old(ctx).room@),
            !waits(old(self).spec_view()),
            tags::ctx_ok(*old(ctx), source.spec_bytes()),
            old(ctx).depth <= DEPTH_LIMIT,
            size::frame_light(old(self).spec_view(), old(ctx).depth as int),
        ensures
            keeps_light(
                old(self).spec_view(),
                final(self).spec_view(),
                old(ctx).depth as int,
                final(ctx).depth as int,
                advance,
            ),
            steps_to(
                source.spec_bytes(),
                old(self).spec_view(),
                final(self).spec_view(),
                old(ctx).depth as int,
                old(ctx)@,
                final(ctx)@,
                final(ctx).depth as int,
                advance,
            ),
            advance !is Finished ==> frame_segments(final(self).spec_view()) == frame_segments(
                old(self).spec_view(),
            ),
            advance matches Advance::Push(child) ==> tags::segments_within(
                frame_segments(child@),
                old(ctx).room@,
            ),
            tags::ctx_ok(*final(ctx), source.spec_bytes()),
            final(ctx).room == old(ctx).room,
    {
        let ghost bytes = source.spec_bytes();
        let ghost len = bytes.len() as int;
        let ghost views = model::deep(self.segments@);
        let ghost k = self.idx as int;
        proof {
            reveal(steps_to);
            reveal(takes);
            reveal(keeps_light);
            encode_utf8_valid_utf8(source@);
        }
        let ghost acc = model::deep(self.acc@);
        let ghost depth = ctx.depth as int;
        if self.idx >= self.segments.len() {
            let mut acc: Vec<Alt> = Vec::new();
            acc.append(&mut self.acc);
            assert(acc@ =~= old(self).acc@);
            proof {
                size::lemma_done(bytes, old(self).spec_view(), depth);
            }
            return Advance::Finished(Ok(acc));
        }
        proof {
            assert(views[k] == self.segments@[k]@);
            assert(body::segment_in(bytes, views[k]));
        }
        if let BodySegment::DynamicTag { name, span } = &self.segments[self.idx] {
            let span = *span;
            proof {
                tags::lemma_opened(bytes, ctx@, name@, span);
                size::lemma_kind_fits(bytes, ctx@, name@, span);
                size::lemma_opened_piece(bytes, ctx@, name@, span);
                assert(size::weight(views, k + 1) == size::weight(views, k) + size::span_len(
                    span,
                ));
            }
            let action = open_tag(source, name.as_str(), span, ctx);
            self.idx = self.idx + 1;
            match action {
                Action::Skip => {
                    proof {
                        size::lemma_pass(bytes, views, k, acc, depth);
                    }
                    Advance::Continue
                },
                Action::Add(piece) => {
                    proof {
                        size::lemma_pass_piece(bytes, views, k, k + 1, acc, piece@, depth);
                    }
                    add_to_all(&mut self.acc, &piece, Ghost(len));
                    Advance::Continue
                },
                Action::Choose(inner) => {
                    self.pending = Some(
                        PendingBody {
                            span,
                            kind: PendingKind::Identity,
                            restore_inside_unknown: None,
                        },
                    );
                    let child = Frame::Choose(
                        ChooseFrame {
                            segments: inner,
                            idx: 0,
                            local: Vec::new(),
                            has_otherwise: false,
                            pending: None,
                        },
                    );
                    proof {
                        assert(model::deep(Seq::<Alt>::empty()) =~= Seq::<AltView>::empty());
                        size::lemma_weight_in(
                            tags::room_of(bytes, span),
                            model::deep(inner@),
                        );
                        size::lemma_wait(
                            views,
                            k,
                            acc,
                            PendingView { span, kind: KindView::Identity, restore: None },
                            depth,
                        );
                        size::lemma_fresh_choose(model::deep(inner@), depth);
                    }
                    Advance::Push(child)
                },
                Action::Descend { kind, restore, inner } => {
                    proof {
                        size::lemma_weight_in(
                            tags::room_of(bytes, span),
                            model::deep(inner@),
                        );
                        size::lemma_wait(
                            views,
                            k,
                            acc,
                            PendingView { span, kind: kind@, restore },
                            depth,
                        );
                    }
                    self.begin_descend(source, ctx, span, kind, restore, inner)
                },
            }
        } else {
            proof {
                size::lemma_text_piece(bytes, views, k, ctx@);
            }
            let (piece, end) = normalize_run(&self.segments, self.idx, ctx, Ghost(bytes));
            proof {
                size::lemma_weight(bytes, views, k, end as int);
                size::lemma_pass_piece(bytes, views, k, end as int, acc, piece@, depth);
            }
            self.idx = end;
            add_to_all(&mut self.acc, &piece, Ghost(len));
            Advance::Continue
        }
    }
}

/// The alternatives of a `<when>`, each with its test in front.
fn tested(test_value: &String, alts: Vec<Alt>, Ghost(len): Ghost<int>) -> (r: Vec<Alt>)
    requires
        wrapper::alts_ok(model::deep(alts@), len),
    ensures
        model::deep(r@) == Seq::new(
            alts@.len(),
            |k: int| wrapper::taken(test_value@, Seq::empty(), model::deep(alts@)[k]),
        ),
        wrapper::alts_ok(model::deep(r@), len),
        r@.len() == alts@.len(),
{
    let ghost views = model::deep(alts@);
    let ghost all = Seq::new(
        views.len(),
        |k: int| wrapper::taken(test_value@, Seq::empty(), views[k]),
    );
    let mut r: Vec<Alt> = Vec::new();
    let mut k: usize = 0;
    while k < alts.len()
        invariant
            k <= alts@.len(),
            views == model::deep(alts@),
            all == Seq::new(
                views.len(),
                |k: int| wrapper::taken(test_value@, Seq::empty(), views[k]),
            ),
            r@.len() == k,
            forall|i: int| 0 <= i < k ==> (#[trigger] r@[i]@) == all[i],
        decreases alts@.len() - k,
    {
        assert(views[k as int] == alts@[k as int]@);
        let alt = wrapper::take_branch(test_value, &alts[k]);
        r.push(alt);
        k += 1;
    }
    proof {
        assert(model::deep(r@) =~= all);
        assert forall|i: int| 0 <= i < all.len() implies sql::pieces_ok(
            (#[trigger] all[i]).pieces,
            len,
        ) by {
            assert(sql::pieces_ok(views[i].pieces, len));
            assert(all[i].pieces =~= views[i].pieces);
        }
    }
    r
}

proof fn lemma_alts_concat(a: Seq<AltView>, b: Seq<AltView>, len: int)
    requires
        wrapper::alts_ok(a, len),
        wrapper::alts_ok(b, len),
    ensures
        wrapper::alts_ok(a + b, len),
{
    assert forall|i: int| 0 <= i < (a + b).len() implies sql::pieces_ok(
        (#[trigger] (a + b)[i]).pieces,
        len,
    ) by {
        if i < a.len() {
            assert((a + b)[i] == a[i]);
        } else {
            assert((a + b)[i] == b[i - a.len()]);
        }
    }
}

impl ChooseFrame {
    /// Takes the alternatives of the branch that this `<choose>` waits for.
    fn deliver(&mut self, ctx: &mut Ctx, alts: Vec<Alt>, Ghost(source): Ghost<Seq<u8>>) -> (advance:
        Advance)
        requires
            frame_ok(source, old(self).spec_view()),
            waits(old(self).spec_view()),
            alts@.len() <= BRANCH_LIMIT + 1,
            wrapper::alts_ok(model::deep(alts@), source.len() as int),
            old(ctx).depth <= DEPTH_LIMIT,
            size::frame_light(old(self).spec_view(), old(ctx).depth as int),
            size::alts_light(
                model::deep(alts@),
                size::owed(old(self).spec_view(), old(ctx).depth as int),
            ),
        ensures
            keeps_light(
                old(self).spec_view(),
                final(self).spec_view(),
                old(ctx).depth as int,
                final(ctx).depth as int,
                advance,
            ),
            takes(
                source,
                old(self).spec_view(),
                final(self).spec_view(),
                old(ctx).depth as int,
                old(ctx)@,
                final(ctx)@,
                model::deep(alts@),
                advance,
            ),
            advance !is Finished ==> frame_segments(final(self).spec_view()) == frame_segments(
                old(self).spec_view(),
            ),
            *final(ctx) == *old(ctx),
    {
        broadcast use model::group_deep;

        let ghost len = source.len() as int;
        let ghost views = model::deep(alts@);
        let ghost before = model::deep(self.local@);
        proof {
            reveal(takes);
            reveal(keeps_light);
        }
        let pending = match self.pending.take() {
            Some(pending) => pending,
            None => {
                return Advance::Continue;
            },
        };
        let ghost branch = branch_view(Some(pending))->0;
        let mut more = match pending {
            ChoosePending::When { test_value } => tested(&test_value, alts, Ghost(len)),
            ChoosePending::Otherwise => alts,
        };
        let ghost added = model::deep(more@);
        self.local.append(&mut more);
        proof {
            assert(model::deep(self.local@) == before + added);
            lemma_alts_concat(before, added, len);
            size::lemma_chosen(
                source,
                old(self).spec_view(),
                views,
                branch,
                model::deep(self.local@),
                ctx.depth as int,
            );
        }
        if self.local.len() as u64 > BRANCH_LIMIT as u64 {
            return Advance::Finished(Err(self.local.len() as u64));
        }
        Advance::Continue
    }

    /// Passes the next child.
    #[verifier::rlimit(50)]
    fn step(&mut self, source: &str, ctx: &mut Ctx) -> (advance: Advance)
        requires
            attrs::fits(source.spec_bytes()),
            frame_ok(source.spec_bytes(), old(self).spec_view()),
            tags::segments_within(frame_segments(old(self).spec_view()), old(ctx).room@),
            !waits(old(self).spec_view()),
            tags::ctx_ok(*old(ctx), source.spec_bytes()),
            old(ctx).depth <= DEPTH_LIMIT,
            size::frame_light(old(self).spec_view(), old(ctx).depth as int),
        ensures
            keeps_light(
                old(self).spec_view(),
                final(self).spec_view(),
                old(ctx).depth as int,
                final(ctx).depth as int,
                advance,
            ),
            steps_to(
                source.spec_bytes(),
                old(self).spec_view(),
                final(self).spec_view(),
                old(ctx).depth as int,
                old(ctx)@,
                final(ctx)@,
                final(ctx).depth as int,
                advance,
            ),
            advance !is Finished ==> frame_segments(final(self).spec_view()) == frame_segments(
                old(self).spec_view(),
            ),
            advance matches Advance::Push(child) ==> tags::segments_within(
                frame_segments(child@),
                old(ctx).room@,
            ),
            tags::ctx_ok(*final(ctx), source.spec_bytes()),
            final(ctx).room == old(ctx).room,
    {
        broadcast use model::group_deep;

        let ghost bytes = source.spec_bytes();
        let ghost len = bytes.len() as int;
        let ghost views = model::deep(self.segments@);
        let ghost k = self.idx as int;
        proof {
            reveal(steps_to);
            reveal(takes);
            reveal(keeps_light);
        }
        let ghost before = self.spec_view();
        let ghost depth = ctx.depth as int;
        if self.idx >= self.segments.len() {
            let mut local: Vec<Alt> = Vec::new();
            local.append(&mut self.local);
            assert(local@ =~= old(self).local@);
            proof {
                size::lemma_done(bytes, before, depth);
            }
            if !self.has_otherwise {
                let ghost those = local@;
                local.push(empty_alt());
                proof {
                    model::deep_push(those, local@.last());
                    assert(local@ =~= those.push(local@.last()));
                    lemma_alts_concat(model::deep(those), seq![wrapper::no_alt()], len);
                    assert(model::deep(local@) =~= model::deep(those) + seq![wrapper::no_alt()]);
                    assert(model::deep(local@) =~= model::deep(those).push(wrapper::no_alt()));
                }
            }
            return Advance::Finished(Ok(local));
        }
        proof {
            assert(views[k] == self.segments@[k]@);
            assert(body::segment_in(bytes, views[k]));
        }
        if let BodySegment::DynamicTag { name, span } = &self.segments[self.idx] {
            let span = *span;
            let is_when = str_eq(name.as_str(), "when");
            if is_when || str_eq(name.as_str(), "otherwise") {
                let pending = if is_when {
                    let test_value = read_attr(source, span, "test", ctx);
                    ChoosePending::When { test_value }
                } else {
                    ChoosePending::Otherwise
                };
                let inner = open_body(source, span, ctx);
                self.idx = self.idx + 1;
                if !is_when {
                    self.has_otherwise = true;
                }
                self.pending = Some(pending);
                proof {
                    size::lemma_weight_in(tags::room_of(bytes, span), model::deep(inner@));
                    size::lemma_pass_choice(before, self.spec_view(), depth);
                }
                match descend_body(inner, ctx, Ghost(bytes)) {
                    Descend::Push(child) => Advance::Push(child),
                    Descend::Immediate(alts) => {
                        proof {
                            size::lemma_owed(bytes, self.spec_view(), depth);
                            size::lemma_lone_alt(size::owed(self.spec_view(), depth));
                        }
                        self.deliver(ctx, alts, Ghost(bytes))
                    },
                }
            } else {
                let message = concat3(
                    "<choose> child <",
                    name.as_str(),
                    "> is neither <when> nor <otherwise> -- ignored",
                );
                note_one(
                    ctx,
                    diagnostic(DiagCode::UnknownElement, Some(span), message),
                    Ghost(bytes),
                );
                self.idx = self.idx + 1;
                proof {
                    size::lemma_pass_choice(before, self.spec_view(), depth);
                }
                Advance::Continue
            }
        } else {
            self.idx = self.idx + 1;
            proof {
                size::lemma_pass_choice(before, self.spec_view(), depth);
            }
            Advance::Continue
        }
    }
}

impl Frame {
    fn step(&mut self, source: &str, ctx: &mut Ctx) -> (advance: Advance)
        requires
            attrs::fits(source.spec_bytes()),
            frame_ok(source.spec_bytes(), old(self)@),
            tags::segments_within(frame_segments(old(self)@), old(ctx).room@),
            !waits(old(self)@),
            tags::ctx_ok(*old(ctx), source.spec_bytes()),
            old(ctx).depth <= DEPTH_LIMIT,
            size::frame_light(old(self)@, old(ctx).depth as int),
        ensures
            keeps_light(
                old(self)@,
                final(self)@,
                old(ctx).depth as int,
                final(ctx).depth as int,
                advance,
            ),
            steps_to(
                source.spec_bytes(),
                old(self)@,
                final(self)@,
                old(ctx).depth as int,
                old(ctx)@,
                final(ctx)@,
                final(ctx).depth as int,
                advance,
            ),
            advance !is Finished ==> frame_segments(final(self)@) == frame_segments(
                old(self)@,
            ),
            advance matches Advance::Push(child) ==> tags::segments_within(
                frame_segments(child@),
                old(ctx).room@,
            ),
            tags::ctx_ok(*final(ctx), source.spec_bytes()),
            final(ctx).room == old(ctx).room,
    {
        match self {
            Frame::Body(frame) => frame.step(source, ctx),
            Frame::Choose(frame) => frame.step(source, ctx),
        }
    }

    fn deliver(&mut self, source: &str, ctx: &mut Ctx, alts: Vec<Alt>) -> (advance: Advance)
        requires
            attrs::fits(source.spec_bytes()),
            frame_ok(source.spec_bytes(), old(self)@),
            tags::segments_within(frame_segments(old(self)@), old(ctx).room@),
            waits(old(self)@),
            tags::ctx_ok(*old(ctx), source.spec_bytes()),
            old(ctx).depth <= DEPTH_LIMIT,
            alts@.len() <= BRANCH_LIMIT + 1,
            wrapper::alts_ok(model::deep(alts@), source.spec_bytes().len() as int),
            size::frame_light(old(self)@, old(ctx).depth as int),
            size::alts_light(
                model::deep(alts@),
                size::owed(old(self)@, old(ctx).depth as int),
            ),
        ensures
            keeps_light(
                old(self)@,
                final(self)@,
                old(ctx).depth as int,
                final(ctx).depth as int,
                advance,
            ),
            takes(
                source.spec_bytes(),
                old(self)@,
                final(self)@,
                old(ctx).depth as int,
                old(ctx)@,
                final(ctx)@,
                model::deep(alts@),
                advance,
            ),
            advance !is Finished ==> frame_segments(final(self)@) == frame_segments(
                old(self)@,
            ),
            tags::ctx_ok(*final(ctx), source.spec_bytes()),
            final(ctx).room == old(ctx).room,
            final(ctx).depth == old(ctx).depth,
    {
        match self {
            Frame::Body(frame) => frame.deliver(source, ctx, alts),
            Frame::Choose(frame) => frame.deliver(ctx, alts, Ghost(source.spec_bytes())),
        }
    }

    fn is_body(&self) -> (r: bool)
        ensures
            r == (self@ is Body),
    {
        matches!(self, Frame::Body(_))
    }
}

/// A frame that goes on leaves what the worklist comes to as it is.
proof fn lemma_continue(source: Seq<u8>, rest: Seq<FrameView>, before: FrameView, after: FrameView)
    requires
        stack_ok(source, rest.push(before), false),
        frame_ok(source, after),
        !waits(after),
        after is Body == before is Body,
        frame_segments(after) == frame_segments(before),
        frame_at(before) < frame_at(after),
    ensures
        stack_ok(source, rest.push(after), false),
        bodies(rest.push(after), rest.len() as int + 1) == bodies(rest.push(before), rest.len() as int + 1),
        forall|r: Flat| #[trigger]
            unwind(source, rest.push(after), rest.len() as int, r) == unwind(
                source,
                rest.push(before),
                rest.len() as int,
                r,
            ),
        total_steps(source, rest.push(after), rest.len() as int + 1) < total_steps(
            source,
            rest.push(before),
            rest.len() as int + 1,
        ),
{
    let a = rest.push(after);
    let b = rest.push(before);
    let n = rest.len() as int;
    assert forall|r: Flat| #[trigger] unwind(source, a, n, r) == unwind(source, b, n, r) by {
        lemma_same_prefix(source, a, b, n, r);
    }
    lemma_same_prefix(source, a, b, n, Err(0));
    lemma_same_total(source, a, b, n);
    lemma_steps(source, frame_segments(before), frame_at(before), frame_at(after), n);
    assert forall|i: int| 0 <= i < a.len() implies frame_ok(source, #[trigger] a[i]) by {
        if i < n {
            assert(a[i] == b[i]);
        }
    }
    assert forall|i: int| 0 < i < a.len() implies #[trigger] on_body(a, i) by {
        assert(on_body(b, i));
    }
    assert forall|i: int| 0 <= i < a.len() - 1 implies waits(#[trigger] a[i]) by {
        assert(a[i] == b[i]);
    }
}

/// A frame that takes what it waited for.
proof fn lemma_take(source: Seq<u8>, rest: Seq<FrameView>, before: FrameView, after: FrameView)
    requires
        stack_ok(source, rest.push(before), true),
        frame_ok(source, after),
        !waits(after),
        after is Body == before is Body,
        frame_segments(after) == frame_segments(before),
        frame_at(before) == frame_at(after),
    ensures
        stack_ok(source, rest.push(after), false),
        bodies(rest.push(after), rest.len() as int + 1) == bodies(rest.push(before), rest.len() as int + 1),
        forall|r: Flat| #[trigger]
            unwind(source, rest.push(after), rest.len() as int, r) == unwind(
                source,
                rest.push(before),
                rest.len() as int,
                r,
            ),
        total_steps(source, rest.push(after), rest.len() as int + 1) < total_steps(
            source,
            rest.push(before),
            rest.len() as int + 1,
        ),
{
    let a = rest.push(after);
    let b = rest.push(before);
    let n = rest.len() as int;
    assert forall|r: Flat| #[trigger] unwind(source, a, n, r) == unwind(source, b, n, r) by {
        lemma_same_prefix(source, a, b, n, r);
    }
    lemma_same_prefix(source, a, b, n, Err(0));
    lemma_same_total(source, a, b, n);
    assert(waits(b.last()));
    assert forall|i: int| 0 <= i < a.len() implies frame_ok(source, #[trigger] a[i]) by {
        if i < n {
            assert(a[i] == b[i]);
        }
    }
    assert forall|i: int| 0 < i < a.len() implies #[trigger] on_body(a, i) by {
        assert(on_body(b, i));
    }
    assert forall|i: int| 0 <= i < a.len() - 1 implies waits(#[trigger] a[i]) by {
        assert(a[i] == b[i]);
    }
}

/// A frame that goes down into `child`.
proof fn lemma_push(
    source: Seq<u8>,
    rest: Seq<FrameView>,
    before: FrameView,
    after: FrameView,
    child: FrameView,
)
    requires
        stack_ok(source, rest.push(before), false),
        frame_ok(source, after),
        waits(after),
        after is Body == before is Body,
        frame_segments(after) == frame_segments(before),
        frame_at(after) == frame_at(before) + 1,
        frame_ok(source, child),
        !waits(child),
        frame_at(child) == 0,
        child is Choose ==> before is Body,
        bodies(rest.push(before), rest.len() as int + 1) + (if child is Body {
            1int
        } else {
            0
        }) <= DEPTH_LIMIT,
        frame_segments(before)[frame_at(before)] matches SegmentView::Tag { span, .. }
            && frame_segments(child) == body::subtree(source, span).segments,
        frame_at(before) < frame_segments(before).len(),
    ensures
        stack_ok(source, rest.push(after).push(child), false),
        bodies(rest.push(after).push(child), rest.len() as int + 2) == bodies(
            rest.push(before),
            rest.len() as int + 1,
        ) + (if child is Body {
            1int
        } else {
            0
        }),
        forall|r: Flat| #[trigger]
            unwind(source, rest.push(after).push(child), rest.len() as int + 1, r) == unwind(
                source,
                rest.push(before),
                rest.len() as int,
                resume(source, after, bodies(rest.push(before), rest.len() as int + 1), r),
            ),
        total_steps(source, rest.push(after).push(child), rest.len() as int + 2) < total_steps(
            source,
            rest.push(before),
            rest.len() as int + 1,
        ),
{
    let a = rest.push(after).push(child);
    let b = rest.push(before);
    let n = rest.len() as int;
    lemma_same_prefix(source, a, b, n, Err(0));
    assert(bodies(a, n + 1) == bodies(b, n + 1));
    assert forall|r: Flat| #[trigger]
        unwind(source, a, n + 1, r) == unwind(
            source,
            b,
            n,
            resume(source, after, bodies(b, n + 1), r),
        ) by {
        lemma_same_prefix(source, a, b, n, resume(source, after, bodies(b, n + 1), r));
    }
    lemma_same_total(source, a, b, n);
    lemma_frame_count(b, n + 1);
    assert(n < FRAME_LIMIT);
    assert(total_steps(source, a, n + 2) == total_steps(source, a, n) + frame_steps(
        source,
        after,
        n,
    ) + frame_steps(source, child, n + 1)) by {
        assert(total_steps(source, a, n + 1) == total_steps(source, a, n) + frame_steps(
            source,
            after,
            n,
        ));
    }
    assert forall|i: int| 0 <= i < a.len() implies frame_ok(source, #[trigger] a[i]) by {
        if i < n {
            assert(a[i] == b[i]);
        }
    }
    assert forall|i: int| 0 < i < a.len() implies #[trigger] on_body(a, i) by {
        if i <= n {
            assert(on_body(b, i));
        }
    }
    assert forall|i: int| 0 <= i < a.len() - 1 implies waits(#[trigger] a[i]) by {
        if i < n {
            assert(a[i] == b[i]);
        }
    }
}

/// A frame that is done leaves the worklist.
proof fn lemma_pop(source: Seq<u8>, rest: Seq<FrameView>, top: FrameView, incoming: bool)
    requires
        stack_ok(source, rest.push(top), incoming),
    ensures
        rest.len() > 0 ==> stack_ok(source, rest, true),
        bodies(rest, rest.len() as int) == bodies(rest.push(top), rest.len() as int + 1) - (if top is Body {
            1int
        } else {
            0
        }),
        bodies(rest, rest.len() as int) >= 0,
        forall|r: Flat| #[trigger]
            unwind(source, rest, rest.len() as int, r) == unwind(
                source,
                rest.push(top),
                rest.len() as int,
                r,
            ),
        total_steps(source, rest, rest.len() as int) + 1 < total_steps(
            source,
            rest.push(top),
            rest.len() as int + 1,
        ),
{
    let b = rest.push(top);
    let n = rest.len() as int;
    assert forall|r: Flat| #[trigger] unwind(source, rest, n, r) == unwind(source, b, n, r) by {
        lemma_same_prefix(source, rest, b, n, r);
    }
    lemma_same_prefix(source, rest, b, n, Err(0));
    lemma_same_total(source, rest, b, n);
    lemma_frame_count(b, n);
    assert forall|i: int| 0 <= i < rest.len() implies frame_ok(source, #[trigger] rest[i]) by {
        assert(rest[i] == b[i]);
    }
    assert forall|i: int| 0 < i < rest.len() implies #[trigger] on_body(rest, i) by {
        assert(on_body(b, i));
    }
    assert forall|i: int| 0 <= i < rest.len() implies waits(#[trigger] rest[i]) by {
        assert(rest[i] == b[i]);
    }
    if n > 0 {
        assert(rest[0] == b[0]);
        assert(waits(rest[n - 1]));
    }
}

/// What a worklist comes to.
spec fn outcome(
    source: Seq<u8>,
    frames: Seq<FrameView>,
    incoming: Option<Seq<AltView>>,
    ctx: CtxView,
) -> Flat {
    let n = frames.len() as int;
    match incoming {
        Some(alts) => unwind(source, frames, n, Ok((alts, ctx))),
        None => unwind(source, frames, n - 1, go(source, frames.last(), bodies(frames, n), ctx)),
    }
}

#[verifier::opaque]
spec fn remaining(source: Seq<u8>, frames: Seq<FrameView>, incoming: Option<Seq<AltView>>) -> nat {
    total_steps(source, frames, frames.len() as int) + (if incoming is Some {
        1nat
    } else {
        0
    })
}

/// The worklist is in order and comes to `whole`.
#[verifier::opaque]
spec fn running(
    source: Seq<u8>,
    frames: Seq<FrameView>,
    incoming: Option<Seq<AltView>>,
    ctx: CtxView,
    depth: int,
    whole: Flat,
) -> bool {
    &&& stack_ok(source, frames, incoming is Some)
    &&& depth == bodies(frames, frames.len() as int)
    &&& incoming matches Some(alts) ==> alts.len() <= BRANCH_LIMIT + 1 && wrapper::alts_ok(
        alts,
        source.len() as int,
    )
    &&& outcome(source, frames, incoming, ctx) == whole
}

/// What the top of the worklist needs to go on.
proof fn lemma_top(
    source: Seq<u8>,
    frames: Seq<FrameView>,
    incoming: Option<Seq<AltView>>,
    ctx: CtxView,
    depth: int,
    whole: Flat,
)
    requires
        running(source, frames, incoming, ctx, depth, whole),
    ensures
        frames.len() > 0,
        frames[0] is Body,
        frame_ok(source, frames.last()),
        waits(frames.last()) == incoming is Some,
        0 < depth <= DEPTH_LIMIT,
        depth == bodies(frames, frames.len() as int),
        frames == frames.drop_last().push(frames.last()),
        incoming matches Some(alts) ==> alts.len() <= BRANCH_LIMIT + 1 && wrapper::alts_ok(
            alts,
            source.len() as int,
        ),
{
    reveal(running);
    lemma_frame_count(frames, frames.len() as int);
    assert(frame_ok(source, frames[frames.len() - 1]));
    assert(frames =~= frames.drop_last().push(frames.last()));
}

/// A step that does not end the top frame keeps the worklist in order.
proof fn lemma_after_step(
    source: Seq<u8>,
    rest: Seq<FrameView>,
    before: FrameView,
    after: FrameView,
    ctx: CtxView,
    depth: int,
    ctx_after: CtxView,
    new_depth: int,
    whole: Flat,
    advance: Advance,
)
    requires
        running(source, rest.push(before), None, ctx, depth, whole),
        steps_to(source, before, after, depth, ctx, ctx_after, new_depth, advance),
    ensures
        advance is Finished ==> new_depth == depth,
        match advance {
            Advance::Continue => {
                &&& running(source, rest.push(after), None, ctx_after, new_depth, whole)
                &&& remaining(source, rest.push(after), None) < remaining(
                    source,
                    rest.push(before),
                    None,
                )
            },
            Advance::Push(child) => {
                &&& running(
                    source,
                    rest.push(after).push(child@),
                    None,
                    ctx_after,
                    new_depth,
                    whole,
                )
                &&& remaining(source, rest.push(after).push(child@), None) < remaining(
                    source,
                    rest.push(before),
                    None,
                )
            },
            Advance::Finished(r) => finish_ok(
                source,
                rest,
                before,
                None,
                ctx_after,
                new_depth,
                whole,
                r,
            ),
        },
{
    reveal(running);
    reveal(remaining);
    reveal(steps_to);
    let b = rest.push(before);
    let n = rest.len() as int;
    assert(b.last() == before);
    match advance {
        Advance::Continue => {
            lemma_continue(source, rest, before, after);
            assert(rest.push(after).last() == after);
        },
        Advance::Push(child) => {
            lemma_push(source, rest, before, after, child@);
            let a = rest.push(after).push(child@);
            assert(a.last() == child@);
            assert(unwind(source, a, n + 1, go(source, child@, new_depth, ctx_after)) == unwind(
                source,
                b,
                n,
                resume(source, after, depth, go(source, child@, new_depth, ctx_after)),
            ));
        },
        Advance::Finished(r) => {
            lemma_finish(source, rest, before, None, ctx_after, whole, r);
        },
    }
}

/// The top frame is done: the worklist goes on without it, or ends.
spec fn finish_ok(
    source: Seq<u8>,
    rest: Seq<FrameView>,
    top: FrameView,
    incoming: Option<Seq<AltView>>,
    ctx: CtxView,
    depth: int,
    whole: Flat,
    r: Result<Vec<Alt>, u64>,
) -> bool {
    &&& result_ok(source, r)
    &&& match r {
        Ok(alts) => {
            let given = Some(model::deep(alts@));
            let left = depth - (if top is Body {
                1int
            } else {
                0
            });
            &&& rest.len() == 0 ==> whole == flat_of(r, ctx)
            &&& rest.len() > 0 ==> running(source, rest, given, ctx, left, whole)
            &&& rest.len() > 0 ==> remaining(source, rest, given) < remaining(
                source,
                rest.push(top),
                incoming,
            )
        },
        Err(n) => whole == flat_of(r, ctx),
    }
}

proof fn lemma_finish(
    source: Seq<u8>,
    rest: Seq<FrameView>,
    top: FrameView,
    incoming: Option<Seq<AltView>>,
    ctx: CtxView,
    whole: Flat,
    r: Result<Vec<Alt>, u64>,
)
    requires
        stack_ok(source, rest.push(top), incoming is Some),
        result_ok(source, r),
        unwind(source, rest.push(top), rest.len() as int, flat_of(r, ctx)) == whole,
    ensures
        finish_ok(
            source,
            rest,
            top,
            incoming,
            ctx,
            bodies(rest.push(top), rest.len() as int + 1),
            whole,
            r,
        ),
{
    reveal(running);
    reveal(remaining);
    lemma_pop(source, rest, top, incoming is Some);
    match r {
        Ok(alts) => {
            assert(unwind(source, rest, rest.len() as int, flat_of(r, ctx)) == whole);
        },
        Err(n) => {
            lemma_unwind_err(source, rest.push(top), rest.len() as int, n as nat);
        },
    }
}

/// Taking what was waited for keeps the worklist in order.
proof fn lemma_after_take(
    source: Seq<u8>,
    rest: Seq<FrameView>,
    before: FrameView,
    after: FrameView,
    ctx: CtxView,
    depth: int,
    ctx_after: CtxView,
    alts: Seq<AltView>,
    whole: Flat,
    advance: Advance,
)
    requires
        running(source, rest.push(before), Some(alts), ctx, depth, whole),
        takes(source, before, after, depth, ctx, ctx_after, alts, advance),
    ensures
        match advance {
            Advance::Continue => {
                &&& running(source, rest.push(after), None, ctx_after, depth, whole)
                &&& remaining(source, rest.push(after), None) < remaining(
                    source,
                    rest.push(before),
                    Some(alts),
                )
            },
            Advance::Push(child) => false,
            Advance::Finished(r) => finish_ok(
                source,
                rest,
                before,
                Some(alts),
                ctx_after,
                depth,
                whole,
                r,
            ),
        },
{
    reveal(running);
    reveal(remaining);
    reveal(takes);
    let b = rest.push(before);
    let n = rest.len() as int;
    let r0: Flat = Ok((alts, ctx));
    assert(unwind(source, b, n + 1, r0) == unwind(
        source,
        b,
        n,
        resume(source, before, depth, r0),
    ));
    match advance {
        Advance::Continue => {
            lemma_take(source, rest, before, after);
            assert(rest.push(after).last() == after);
        },
        Advance::Push(_) => {},
        Advance::Finished(r) => {
            lemma_finish(source, rest, before, Some(alts), ctx_after, whole, r);
        },
    }
}

proof fn lemma_start(source: Seq<u8>, first: FrameView, ctx: CtxView)
    requires
        frame_ok(source, first),
        first is Body,
        !waits(first),
    ensures
        running(source, seq![first], None, ctx, 1, go(source, first, 1, ctx)),
{
    reveal(running);
    let frames = seq![first];
    assert(bodies(frames, 0) == 0);
    assert(bodies(frames, 1) == 1);
    assert(unwind(source, frames, 0, go(source, first, 1, ctx)) == go(source, first, 1, ctx));
}

spec fn alts_of(incoming: Option<Vec<Alt>>) -> Option<Seq<AltView>> {
    match incoming {
        Some(alts) => Some(model::deep(alts@)),
        None => None,
    }
}

/// Walks the frames of a worklist to the end.
#[verifier::rlimit(50)]
fn run(first: Frame, source: &str, ctx: &mut Ctx) -> (r: Result<Vec<Alt>, u64>)
    requires
        attrs::fits(source.spec_bytes()),
        frame_ok(source.spec_bytes(), first@),
        first@ is Body,
        !waits(first@),
        tags::ctx_ok(*old(ctx), source.spec_bytes()),
        old(ctx).depth == 1,
        tags::segments_within(frame_segments(first@), old(ctx).room@),
        size::frame_light(first@, 1),
    ensures
        r is Ok ==> final(ctx).depth == 0,
        r matches Ok(alts) ==> size::alts_light(
            model::deep(alts@),
            size::factor(1) * size::full_weight(frame_segments(first@)),
        ),
        flat_of(r, final(ctx)@) == go(source.spec_bytes(), first@, 1, old(ctx)@),
        result_ok(source.spec_bytes(), r),
        tags::ctx_ok(*final(ctx), source.spec_bytes()),
        final(ctx).room == old(ctx).room,
{
    let ghost bytes = source.spec_bytes();
    let ghost len = bytes.len() as int;
    let ghost whole = go(bytes, first@, 1, ctx@);
    let mut stack: Vec<Frame> = Vec::new();
    stack.push(first);
    let mut incoming: Option<Vec<Alt>> = None;
    proof {
        assert(model::deep(stack@) =~= seq![first@]);
        lemma_start(bytes, first@, ctx@);
        size::lemma_stack_start(first@);
    }
    loop
        invariant
            bytes == source.spec_bytes(),
            len == bytes.len(),
            attrs::fits(bytes),
            tags::ctx_ok(*ctx, bytes),
            ctx.room == old(ctx).room,
            all_within(model::deep(stack@), ctx.room@),
            whole == go(bytes, first@, 1, old(ctx)@),
            stack@.len() > 0,
            frame_segments(model::deep(stack@)[0]) == frame_segments(first@),
            size::stack_light(model::deep(stack@)),
            alts_of(incoming) matches Some(alts) ==> size::alts_light(
                alts,
                size::owed(model::deep(stack@).last(), ctx.depth as int),
            ),
            running(
                bytes,
                model::deep(stack@),
                alts_of(incoming),
                ctx@,
                ctx.depth as int,
                whole,
            ),
        decreases remaining(bytes, model::deep(stack@), alts_of(incoming)),
    {
        let ghost frames = model::deep(stack@);
        let ghost rest = frames.drop_last();
        let ghost before = frames.last();
        let ghost ctx_before = ctx@;
        let ghost depth = ctx.depth as int;
        let ghost given = alts_of(incoming);
        proof {
            lemma_top(bytes, frames, given, ctx@, depth, whole);
            size::lemma_stack_top(rest, before);
            size::lemma_depth(rest, before);
        }
        let mut top = stack.pop().unwrap();
        proof {
            assert(model::deep(stack@) =~= rest);
            assert(top@ == before);
        }
        let is_body = top.is_body();
        let advance = match incoming {
            Some(alts) => {
                incoming = None;
                let advance = top.deliver(source, ctx, alts);
                proof {
                    lemma_after_take(
                        bytes,
                        rest,
                        before,
                        top@,
                        ctx_before,
                        depth,
                        ctx@,
                        given->0,
                        whole,
                        advance,
                    );
                }
                advance
            },
            None => {
                let advance = top.step(source, ctx);
                proof {
                    lemma_after_step(
                        bytes,
                        rest,
                        before,
                        top@,
                        ctx_before,
                        depth,
                        ctx@,
                        ctx.depth as int,
                        whole,
                        advance,
                    );
                }
                advance
            },
        };
        let ghost after = top@;
        proof {
            model::deep_push(stack@, top);
            reveal(keeps_light);
            if advance !is Finished {
                size::lemma_stack_replace(rest, before, after, depth);
                assert(rest.len() > 0 ==> rest.push(after)[0] == rest[0]);
            }
        }
        match advance {
            Advance::Push(child) => {
                proof {
                    model::deep_push(stack@.push(top), child);
                    size::lemma_depth(rest.push(after), child@);
                    size::lemma_stack_push(rest.push(after), child@, ctx.depth as int);
                    assert(rest.push(after).push(child@)[0] == rest.push(after)[0]);
                }
                stack.push(top);
                stack.push(child);
            },
            Advance::Continue => {
                stack.push(top);
            },
            Advance::Finished(result) => {
                if is_body {
                    ctx.depth = ctx.depth - 1;
                }
                match result {
                    Ok(alts) => {
                        if stack.len() == 0 {
                            assert(bodies(rest, 0) == 0);
                            return Ok(alts);
                        }
                        proof {
                            assert(rest[0] == frames[0]);
                            size::lemma_handed_down(
                                bytes,
                                rest.last(),
                                before,
                                model::deep(alts@),
                                bodies(rest, rest.len() as int),
                            );
                        }
                        incoming = Some(alts);
                    },
                    Err(count) => {
                        return Err(count);
                    },
                }
            },
        }
    }
}

/// All ways through a body.
fn run_flatten_engine(source: &str, segments: Vec<BodySegment>, ctx: &mut Ctx) -> (r: Result<
    Vec<Alt>,
    u64,
>)
    requires
        attrs::fits(source.spec_bytes()),
        tags::walkable_in(old(ctx).room@, model::deep(segments@)),
        tags::ctx_ok(*old(ctx), source.spec_bytes()),
        old(ctx).depth == 0,
    ensures
        r is Ok ==> final(ctx).depth == old(ctx).depth,
        r matches Ok(alts) ==> size::alts_light(
            model::deep(alts@),
            size::factor(1) * size::full_weight(model::deep(segments@)),
        ),
        flat_of(r, final(ctx)@) == descend(
            source.spec_bytes(),
            model::deep(segments@),
            0,
            old(ctx)@,
        ),
        result_ok(source.spec_bytes(), r),
        tags::ctx_ok(*final(ctx), source.spec_bytes()),
        final(ctx).room == old(ctx).room,
{
    match descend_body(segments, ctx, Ghost(source.spec_bytes())) {
        Descend::Push(frame) => run(frame, source, ctx),
        Descend::Immediate(alts) => Ok(alts),
    }
}

// ---- the flattened body -------------------------------------------------

/// The text as it is handed out.
pub open spec fn final_sql(sql: SqlView) -> SqlStringView {
    SqlStringView {
        text: sql.text,
        span_map: Seq::new(sql.map.len(), |k: int| (sql.map[k].0 as u32, sql.map[k].1)),
    }
}

pub open spec fn variant_of(alt: AltView) -> SqlVariantView {
    SqlVariantView { text: final_sql(sql::assembly(alt.pieces)), conditions: alt.conditions }
}

/// A flattened body and what was found in it.
pub struct FlatBody {
    pub sql: SqlTextView,
    pub paths: Seq<Spanned<Seq<char>>>,
    pub diagnostics: Seq<DiagnosticView>,
    pub includes: Seq<Spanned<IncludeRefView>>,
}

pub open spec fn branch_limit(count: nat) -> DiagnosticView {
    DiagnosticView {
        code: DiagCode::BranchLimitExceeded,
        span: None,
        message: "branch combinations ("@ + text::decimal(count)
            + "+) exceed the cap of 32; falling back to a union of all branch text"@,
    }
}

/// A body as its variants, or, where they are too many, as the text of all
/// branches. What the attempt at variants recorded is then dropped.
pub open spec fn flat_body(
    source: Seq<u8>,
    dialect: Dialect,
    segments: Seq<SegmentView>,
) -> FlatBody {
    match descend(source, segments, 0, tags::fresh_ctx(dialect)) {
        Ok((alts, ctx)) => FlatBody {
            sql: SqlTextView::Variants(Seq::new(alts.len(), |k: int| variant_of(alts[k]))),
            paths: ctx.paths,
            diagnostics: ctx.diagnostics,
            includes: ctx.includes,
        },
        Err(count) => {
            let all = union_walk::descend(source, segments, 0, tags::fresh_ctx(dialect));
            FlatBody {
                sql: SqlTextView::Union {
                    text: final_sql(sql::assembly(all.pieces)),
                    branch_count: (if count <= u32::MAX {
                        count
                    } else {
                        u32::MAX as nat
                    }) as u32,
                },
                paths: all.ctx.paths,
                diagnostics: all.ctx.diagnostics.push(branch_limit(count)),
                includes: all.ctx.includes,
            }
        },
    }
}

/// What [`flatten_body`] returns.
pub struct FlattenResult {
    pub sql: SqlText,
    pub property_paths: Vec<Spanned<String>>,
    pub diagnostics: Vec<Diagnostic>,
    pub found_includes: Vec<Spanned<IncludeRef>>,
}

impl View for FlattenResult {
    type V = FlatBody;

    open spec fn view(&self) -> FlatBody {
        FlatBody {
            sql: self.sql@,
            paths: model::deep(self.property_paths@),
            diagnostics: model::deep(self.diagnostics@),
            includes: model::deep(self.found_includes@),
        }
    }
}

fn finish_sql(sql: Sql) -> (r: SqlString)
    ensures
        r@ == final_sql(sql@),
{
    let mut span_map: Vec<(u32, u32)> = Vec::new();
    let mut k: usize = 0;
    while k < sql.map.len()
        invariant
            k <= sql.map@.len(),
            span_map@.len() == k,
            forall|i: int|
                0 <= i < k ==> (#[trigger] span_map@[i]) == (
                    sql.map@[i].0 as u32,
                    sql.map@[i].1,
                ),
        decreases sql.map@.len() - k,
    {
        let entry = sql.map[k];
        span_map.push((entry.0 as u32, entry.1));
        k += 1;
    }
    let r = SqlString { text: sql.text, span_map };
    assert(r@.span_map =~= final_sql(sql@).span_map);
    r
}

/// The spans of a text lie in a source of length `len`, and its map is in
/// order: the offsets grow, and each has text behind it.
pub open spec fn text_ok(sql: SqlStringView, len: int) -> bool {
    &&& valid_utf8(sql.text)
    &&& sql.text.len() <= u32::MAX
    &&& forall|k: int| 0 <= k < sql.span_map.len() ==> (#[trigger] sql.span_map[k]).1 <= len
    &&& forall|i: int, j: int|
        0 <= i < j < sql.span_map.len() ==> (#[trigger] sql.span_map[i]).0 < (
        #[trigger] sql.span_map[j]).0
    &&& forall|k: int|
        0 <= k < sql.span_map.len() ==> (#[trigger] sql.span_map[k]).0 < sql.text.len()
}

/// Flattened SQL in order: between one and [`BRANCH_LIMIT`] variants, or one
/// text that stands for more of them.
pub open spec fn sql_text_ok(sql: SqlTextView, len: int) -> bool {
    match sql {
        SqlTextView::Variants(variants) => {
            &&& 0 < variants.len() <= BRANCH_LIMIT
            &&& forall|k: int|
                0 <= k < variants.len() ==> text_ok((#[trigger] variants[k]).text, len)
        },
        SqlTextView::Union { text, branch_count } => {
            &&& branch_count > BRANCH_LIMIT
            &&& text_ok(text, len)
        },
        SqlTextView::Unrecognized => false,
    }
}

proof fn lemma_final_sql(sql: SqlView, len: int)
    requires
        sql::sql_ok(sql, len),
        sql.text.len() <= u32::MAX,
    ensures
        text_ok(final_sql(sql), len),
{
    let out = final_sql(sql);
    assert forall|k: int| 0 <= k < out.span_map.len() implies (#[trigger] out.span_map[k]).1
        <= len by {
        assert(sql.map[k].1 <= len);
    }
    assert forall|i: int, j: int| 0 <= i < j < out.span_map.len() implies (
    #[trigger] out.span_map[i]).0 < (#[trigger] out.span_map[j]).0 by {
        assert(sql.map[i].0 < sql.map[j].0);
        assert(0 <= sql.map[i].0 && sql.map[j].0 < sql.text.len());
    }
    assert forall|k: int| 0 <= k < out.span_map.len() implies (#[trigger] out.span_map[k]).0
        < out.text.len() by {
        assert(0 <= sql.map[k].0 < sql.text.len());
    }
}

pub fn copy_segments(segments: &Vec<BodySegment>) -> (copy: Vec<BodySegment>)
    ensures
        model::deep(copy@) == model::deep(segments@),
{
    let mut copy: Vec<BodySegment> = Vec::new();
    let mut k: usize = 0;
    while k < segments.len()
        invariant
            k <= segments@.len(),
            copy@.len() == k,
            forall|i: int| 0 <= i < k ==> (#[trigger] copy@[i]@) == segments@[i]@,
        decreases segments@.len() - k,
    {
        copy.push(body::copy_segment(&segments[k]));
        k += 1;
    }
    assert(model::deep(copy@) =~= model::deep(segments@));
    copy
}

/// Flattens a body.
pub fn flatten_body(
    source: &str,
    dialect: Dialect,
    segments: &Vec<BodySegment>,
    Ghost(room): Ghost<Room>,
) -> (r: FlattenResult)
    requires
        attrs::fits(source.spec_bytes()),
        room.source == source.spec_bytes(),
        0 <= room.from <= room.to <= source.spec_bytes().len(),
        tags::walkable_in(room, model::deep(segments@)),
    ensures
        r@ == flat_body(source.spec_bytes(), dialect, model::deep(segments@)),
        sql_text_ok(r@.sql, source.spec_bytes().len() as int),
        tags::paths_in(r@.paths, room),
        body::spans_in(r@.diagnostics, source.spec_bytes().len() as int),
        tags::includes_in(r@.includes, room),
{
    broadcast use model::group_deep;

    let ghost bytes = source.spec_bytes();
    let ghost len = bytes.len() as int;
    let ghost views = model::deep(segments@);
    proof {
        size::lemma_weight_in(room, views);
    }
    let mut attempt = new_ctx(dialect, Ghost(room));
    match run_flatten_engine(source, copy_segments(segments), &mut attempt) {
        Ok(alts) => {
            let ghost alt_views = model::deep(alts@);
            let mut variants: Vec<SqlVariant> = Vec::new();
            let mut k: usize = 0;
            let mut rest = alts;
            let count = rest.len();
            proof {
                lemma_alts_count(bytes, views, 0, tags::fresh_ctx(dialect));
            }
            let mut reversed: Vec<SqlVariant> = Vec::new();
            while k < count
                invariant
                    count == alt_views.len(),
                    k <= count,
                    rest@.len() == count - k,
                    alt_views == model::deep(alts@),
                    forall|i: int| 0 <= i < count - k ==> rest@[i] == alts@[i],
                    wrapper::alts_ok(alt_views, len),
                    size::alts_light(alt_views, size::factor(1) * size::full_weight(views)),
                    0 <= size::full_weight(views) <= MAX_INPUT_BYTES,
                    reversed@.len() == k,
                    forall|i: int|
                        0 <= i < k ==> (#[trigger] reversed@[i]@) == variant_of(
                            alt_views[count - 1 - i],
                        ) && text_ok(reversed@[i]@.text, len),
                decreases count - k,
            {
                let alt = rest.pop().unwrap();
                assert(alt@ == alt_views[count - 1 - k]);
                assert(sql::pieces_ok(alt_views[count - 1 - k].pieces, len));
                let sql = assemble(&alt.pieces, Ghost(len));
                proof {
                    size::lemma_assembly(alt@.pieces);
                    assert(size::total_len(alt_views[count - 1 - k].pieces) <= 299
                        * size::full_weight(views));
                    lemma_final_sql(sql@, len);
                }
                reversed.push(SqlVariant { text: finish_sql(sql), conditions: alt.conditions });
                k += 1;
            }
            k = 0;
            while k < count
                invariant
                    count == alt_views.len(),
                    k <= count,
                    reversed@.len() == count - k,
                    variants@.len() == k,
                    forall|i: int|
                        0 <= i < count - k ==> (#[trigger] reversed@[i]@) == variant_of(
                            alt_views[count - 1 - i],
                        ) && text_ok(reversed@[i]@.text, len),
                    forall|i: int|
                        0 <= i < k ==> (#[trigger] variants@[i]@) == variant_of(alt_views[i])
                            && text_ok(variants@[i]@.text, len),
                decreases count - k,
            {
                let variant = reversed.pop().unwrap();
                variants.push(variant);
                k += 1;
            }
            proof {
                assert(model::deep(variants@) =~= Seq::new(
                    alt_views.len(),
                    |k: int| variant_of(alt_views[k]),
                ));
                assert forall|i: int| 0 <= i < count implies text_ok(
                    (#[trigger] model::deep(variants@)[i]).text,
                    len,
                ) by {
                    assert(variants@[i]@ == variant_of(alt_views[i]));
                }
            }
            FlattenResult {
                sql: SqlText::Variants(variants),
                property_paths: attempt.property_paths,
                diagnostics: attempt.diagnostics,
                found_includes: attempt.found_includes,
            }
        },
        Err(count) => {
            let mut ctx = new_ctx(dialect, Ghost(room));
            let pieces = run_union_engine(source, copy_segments(segments), &mut ctx);
            let sql = assemble(&pieces, Ghost(len));
            proof {
                size::lemma_assembly(model::deep(pieces@));
                lemma_final_sql(sql@, len);
            }
            let message = concat3(
                "branch combinations (",
                decimal_text(count).as_str(),
                "+) exceed the cap of 32; falling back to a union of all branch text",
            );
            let mut diagnostics = ctx.diagnostics;
            diagnostics.push(diagnostic(DiagCode::BranchLimitExceeded, None, message));
            let branch_count: u32 = if count <= u32::MAX as u64 {
                count as u32
            } else {
                u32::MAX
            };
            FlattenResult {
                sql: SqlText::Union { text: finish_sql(sql), branch_count },
                property_paths: ctx.property_paths,
                diagnostics,
                found_includes: ctx.found_includes,
            }
        },
    }
}

/// At least one alternative and at most as many as the cap allows, or a count
/// over the cap.
pub open spec fn within_limit(flat: Flat) -> bool {
    match flat {
        Ok((alts, _)) => 0 < alts.len() <= BRANCH_LIMIT,
        Err(count) => count > BRANCH_LIMIT,
    }
}

/// A body that can be flattened into variants has at least one, and at most as
/// many as the cap allows.
pub proof fn lemma_alts_count(source: Seq<u8>, segments: Seq<SegmentView>, depth: int, ctx: CtxView)
    ensures
        within_limit(descend(source, segments, depth, ctx)),
    decreases DEPTH_LIMIT - depth, 0int, 0int,
{
    if depth < DEPTH_LIMIT {
        lemma_body_count(source, segments, 0, seq![wrapper::no_alt()], depth + 1, ctx);
    }
}

pub proof fn lemma_body_count(
    source: Seq<u8>,
    segments: Seq<SegmentView>,
    k: int,
    acc: Seq<AltView>,
    depth: int,
    ctx: CtxView,
)
    requires
        0 < acc.len() <= BRANCH_LIMIT,
    ensures
        within_limit(body_from(source, segments, k, acc, depth, ctx)),
    decreases DEPTH_LIMIT - depth, 2int, segments.len() - k,
{
    if k < segments.len() {
        match segments[k] {
            SegmentView::Text { .. } => {
                tags::lemma_run_end(segments, k);
                lemma_body_count(
                    source,
                    segments,
                    tags::run_end(segments, k),
                    with_piece(acc, tags::text_piece(segments, k, ctx)),
                    depth,
                    tags::after_text(segments, k, ctx),
                );
            },
            SegmentView::Tag { name, span } => {
                let open = tags::opened(source, ctx, name, span);
                match open.action {
                    ActionView::Skip => lemma_body_count(
                        source,
                        segments,
                        k + 1,
                        acc,
                        depth,
                        open.ctx,
                    ),
                    ActionView::Add(piece) => lemma_body_count(
                        source,
                        segments,
                        k + 1,
                        with_piece(acc, piece),
                        depth,
                        open.ctx,
                    ),
                    ActionView::Choose(inner) => {
                        lemma_choose_count(source, inner, 0, Seq::empty(), false, depth, open.ctx);
                        if let Ok((alts, after)) = choose_from(
                            source,
                            inner,
                            0,
                            Seq::empty(),
                            false,
                            depth,
                            open.ctx,
                        ) {
                            let pending = PendingView {
                                span,
                                kind: KindView::Identity,
                                restore: None,
                            };
                            lemma_delivered_count(source, acc, pending, alts, after);
                            if let Ok((all, next)) = delivered(source, acc, pending, alts, after) {
                                lemma_body_count(source, segments, k + 1, all, depth, next);
                            }
                        }
                    },
                    ActionView::Descend { kind, restore, inner } => {
                        lemma_alts_count(source, inner, depth, open.ctx);
                        if let Ok((alts, after)) = descend(source, inner, depth, open.ctx) {
                            let pending = PendingView { span, kind, restore };
                            lemma_delivered_count(source, acc, pending, alts, after);
                            if let Ok((all, next)) = delivered(source, acc, pending, alts, after) {
                                lemma_body_count(source, segments, k + 1, all, depth, next);
                            }
                        }
                    },
                }
            },
        }
    }
}

proof fn lemma_combined_len(acc: Seq<AltView>, local: Seq<AltView>, n: int)
    requires
        0 <= n,
    ensures
        wrapper::combined(acc, local, n).len() == n * local.len(),
    decreases n,
{
    if n > 0 {
        lemma_combined_len(acc, local, n - 1);
        assert((n - 1) * local.len() + local.len() == n * local.len()) by (nonlinear_arith);
    } else {
        assert(0 * local.len() == 0) by (nonlinear_arith);
    }
}

proof fn lemma_delivered_count(
    source: Seq<u8>,
    acc: Seq<AltView>,
    pending: PendingView,
    alts: Seq<AltView>,
    ctx: CtxView,
)
    requires
        0 < acc.len(),
        0 < alts.len(),
    ensures
        delivered(source, acc, pending, alts, ctx) matches Ok((all, _)) ==> 0 < all.len()
            <= BRANCH_LIMIT,
{
    if let Ok(local) = wrapper::finished(source, pending.span, pending.kind, alts) {
        assert(local.len() > 0);
        lemma_combined_len(acc, local, acc.len() as int);
        assert(acc.len() * local.len() > 0) by (nonlinear_arith)
            requires
                acc.len() > 0,
                local.len() > 0,
        ;
    }
}

pub proof fn lemma_choose_count(
    source: Seq<u8>,
    segments: Seq<SegmentView>,
    k: int,
    local: Seq<AltView>,
    has_otherwise: bool,
    depth: int,
    ctx: CtxView,
)
    requires
        has_otherwise ==> local.len() > 0,
    ensures
        match choose_from(source, segments, k, local, has_otherwise, depth, ctx) {
            Ok((alts, _)) => 0 < alts.len(),
            Err(count) => count > BRANCH_LIMIT,
        },
    decreases DEPTH_LIMIT - depth, 1int, segments.len() - k,
{
    if k < segments.len() {
        match segments[k] {
            SegmentView::Text { .. } => lemma_choose_count(
                source,
                segments,
                k + 1,
                local,
                has_otherwise,
                depth,
                ctx,
            ),
            SegmentView::Tag { name, span } => if name == "when"@ || name == "otherwise"@ {
                let read = if name == "when"@ {
                    tags::after_read(source, ctx, span, "test"@)
                } else {
                    ctx
                };
                let branch = if name == "when"@ {
                    BranchView::When(tags::attr_or_empty(source, span, "test"@))
                } else {
                    BranchView::Otherwise
                };
                let inner = body::subtree(source, span).segments;
                let entered = tags::noted(read, body::subtree(source, span).diagnostics);
                lemma_alts_count(source, inner, depth, entered);
                if let Ok((alts, next)) = descend(source, inner, depth, entered) {
                    if let Ok(all) = chosen(local, branch, alts) {
                        lemma_choose_count(
                            source,
                            segments,
                            k + 1,
                            all,
                            has_otherwise || name != "when"@,
                            depth,
                            next,
                        );
                    }
                }
            } else {
                lemma_choose_count(
                    source,
                    segments,
                    k + 1,
                    local,
                    has_otherwise,
                    depth,
                    tags::noted(ctx, seq![stray_choice(name, span)]),
                );
            },
        }
    }
}

} // verus!
