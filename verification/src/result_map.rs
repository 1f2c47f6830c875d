//! `<resultMap>`: its column mappings, at any depth.
use crate::attrs;
use crate::attrs::{diagnostic, read_tag_attr};
use crate::body;
use crate::body::{capture_subtree, BodySegment, SegmentView};
use crate::flatten;
use crate::flatten::FRAME_LIMIT;
use crate::model;
use crate::model::{
    ByteSpan, ColumnMapping, ColumnMappingView, DiagCode, Diagnostic, DiagnosticView, Spanned,
};
use crate::tags;
use crate::tags::DEPTH_LIMIT;
use crate::text::str_eq;
use vstd::prelude::*;
use vstd::string::*;
use vstd::utf8::*;

verus! {

// ---- mappings -----------------------------------------------------------

/// The mappings collected so far, and what was wrong.
pub struct Columns {
    pub mappings: Seq<ColumnMappingView>,
    pub diagnostics: Seq<DiagnosticView>,
}

pub open spec fn noted(columns: Columns, diagnostics: Seq<DiagnosticView>) -> Columns {
    Columns {
        mappings: columns.mappings,
        diagnostics: columns.diagnostics + diagnostics,
    }
}

pub open spec fn nesting_limit() -> DiagnosticView {
    DiagnosticView {
        code: DiagCode::NestingLimitExceeded,
        span: None,
        message: "resultMap association/collection/discriminator nesting exceeds the depth cap of 256; remaining subtree skipped"@,
    }
}

/// `columns` after an `<id>` or `<result>` at `span`.
pub open spec fn after_column(source: Seq<u8>, columns: Columns, span: ByteSpan) -> Columns {
    Columns {
        mappings: columns.mappings.push(
            ColumnMappingView {
                column: tags::attr_opt(source, span, "column"@),
                property: tags::attr_opt(source, span, "property"@),
            },
        ),
        diagnostics: columns.diagnostics + attrs::tag_attr(source, span, "column"@).diagnostics
            + attrs::tag_attr(source, span, "property"@).diagnostics,
    }
}

/// The mappings of a nested body, which is left out at the depth cap.
pub open spec fn nested(
    source: Seq<u8>,
    segments: Seq<SegmentView>,
    depth: int,
    columns: Columns,
) -> Columns
    decreases DEPTH_LIMIT - depth, 2int, 0int,
{
    if depth >= DEPTH_LIMIT {
        noted(columns, seq![nesting_limit()])
    } else {
        collected(source, segments, 0, depth, columns)
    }
}

/// `columns` and the mappings of the segments from `k` on: each `<id>` and
/// `<result>`, and those inside `<association>`, `<collection>` and the
/// `<case>`s of a `<discriminator>`.
pub open spec fn collected(
    source: Seq<u8>,
    segments: Seq<SegmentView>,
    k: int,
    depth: int,
    columns: Columns,
) -> Columns
    decreases DEPTH_LIMIT - depth, 1int, segments.len() - k,
    when depth < DEPTH_LIMIT
{
    if k >= segments.len() {
        columns
    } else {
        let next = match segments[k] {
            SegmentView::Tag { name, span } => {
                let inner = body::subtree(source, span);
                if name == "id"@ || name == "result"@ {
                    after_column(source, columns, span)
                } else if name == "association"@ || name == "collection"@ {
                    nested(source, inner.segments, depth + 1, noted(columns, inner.diagnostics))
                } else if name == "discriminator"@ {
                    cases(source, inner.segments, 0, depth, noted(columns, inner.diagnostics))
                } else {
                    columns
                }
            },
            _ => columns,
        };
        collected(source, segments, k + 1, depth, next)
    }
}

/// `columns` and the mappings of the `<case>`s from `k` on.
pub open spec fn cases(
    source: Seq<u8>,
    segments: Seq<SegmentView>,
    k: int,
    depth: int,
    columns: Columns,
) -> Columns
    decreases DEPTH_LIMIT - depth, 0int, segments.len() - k,
    when depth < DEPTH_LIMIT
{
    if k >= segments.len() {
        columns
    } else {
        let next = match segments[k] {
            SegmentView::Tag { name, span } => if name == "case"@ {
                let inner = body::subtree(source, span);
                nested(source, inner.segments, depth + 1, noted(columns, inner.diagnostics))
            } else {
                columns
            },
            _ => columns,
        };
        cases(source, segments, k + 1, depth, next)
    }
}

// ---- frames -------------------------------------------------------------

/// A body, or the children of a `<discriminator>`, in the middle of its walk.
pub struct MappingFrameView {
    pub discriminator: bool,
    pub segments: Seq<SegmentView>,
    pub k: int,
}

pub open spec fn go(
    source: Seq<u8>,
    frame: MappingFrameView,
    depth: int,
    columns: Columns,
) -> Columns {
    if frame.discriminator {
        cases(source, frame.segments, frame.k, depth, columns)
    } else {
        collected(source, frame.segments, frame.k, depth, columns)
    }
}

pub open spec fn bodies(frames: Seq<MappingFrameView>, n: int) -> int
    decreases n,
{
    if n <= 0 {
        0
    } else {
        bodies(frames, n - 1) + (if frames[n - 1].discriminator {
            0int
        } else {
            1
        })
    }
}

/// What the first `n` frames come to, starting from the last.
pub open spec fn unwind(
    source: Seq<u8>,
    frames: Seq<MappingFrameView>,
    n: int,
    columns: Columns,
) -> Columns
    decreases n,
{
    if n <= 0 {
        columns
    } else {
        unwind(
            source,
            frames,
            n - 1,
            go(source, frames[n - 1], bodies(frames, n) - 1, columns),
        )
    }
}

pub open spec fn total_steps(source: Seq<u8>, frames: Seq<MappingFrameView>, n: int) -> nat
    decreases n,
{
    if n <= 0 {
        0
    } else {
        total_steps(source, frames, n - 1) + 1 + flatten::steps(
            source,
            frames[n - 1].segments,
            frames[n - 1].k,
            n - 1,
        )
    }
}

proof fn lemma_same_prefix(
    source: Seq<u8>,
    a: Seq<MappingFrameView>,
    b: Seq<MappingFrameView>,
    n: int,
    columns: Columns,
)
    requires
        0 <= n <= a.len(),
        n <= b.len(),
        forall|i: int| 0 <= i < n ==> a[i] == b[i],
    ensures
        bodies(a, n) == bodies(b, n),
        unwind(source, a, n, columns) == unwind(source, b, n, columns),
        total_steps(source, a, n) == total_steps(source, b, n),
    decreases n,
{
    if n > 0 {
        lemma_same_prefix(source, a, b, n - 1, columns);
        lemma_same_prefix(
            source,
            a,
            b,
            n - 1,
            go(source, a[n - 1], bodies(a, n) - 1, columns),
        );
    }
}

pub open spec fn frame_ok(source: Seq<u8>, frame: MappingFrameView) -> bool {
    &&& body::segments_in(source, frame.segments)
    &&& 0 <= frame.k <= frame.segments.len()
}

/// A `<discriminator>` as frame `i` of a worklist stands on a body.
pub open spec fn on_body(frames: Seq<MappingFrameView>, i: int) -> bool {
    frames[i].discriminator ==> !frames[i - 1].discriminator
}

pub open spec fn stack_ok(source: Seq<u8>, frames: Seq<MappingFrameView>) -> bool {
    &&& frames.len() > 0 ==> !frames[0].discriminator
    &&& bodies(frames, frames.len() as int) <= DEPTH_LIMIT
    &&& forall|i: int| 0 <= i < frames.len() ==> frame_ok(source, #[trigger] frames[i])
    &&& forall|i: int| 0 < i < frames.len() ==> #[trigger] on_body(frames, i)
}

proof fn lemma_frame_count(frames: Seq<MappingFrameView>, n: int)
    requires
        0 <= n <= frames.len(),
        frames.len() > 0 ==> !frames[0].discriminator,
        forall|i: int| 0 < i < frames.len() ==> #[trigger] on_body(frames, i),
    ensures
        n <= 2 * bodies(frames, n),
        0 <= bodies(frames, n),
        n > 0 ==> 0 < bodies(frames, n),
    decreases n,
{
    if n > 0 {
        lemma_frame_count(frames, n - 1);
        if frames[n - 1].discriminator {
            if n >= 2 {
                lemma_frame_count(frames, n - 2);
                assert(on_body(frames, n - 1));
            }
        }
    }
}

// ---- the walk -----------------------------------------------------------

struct MappingFrame {
    discriminator: bool,
    segments: Vec<BodySegment>,
    idx: usize,
}

impl View for MappingFrame {
    type V = MappingFrameView;

    closed spec fn view(&self) -> MappingFrameView {
        MappingFrameView {
            discriminator: self.discriminator,
            segments: model::deep(self.segments@),
            k: self.idx as int,
        }
    }
}

/// The mappings and diagnostics that the walk adds to.
pub open spec fn columns_of(mappings: Seq<ColumnMapping>, diagnostics: Seq<Diagnostic>) -> Columns {
    Columns { mappings: model::deep(mappings), diagnostics: model::deep(diagnostics) }
}

/// The worklist is in order and comes to `whole`.
#[verifier::opaque]
spec fn running(
    source: Seq<u8>,
    frames: Seq<MappingFrameView>,
    columns: Columns,
    whole: Columns,
) -> bool {
    &&& stack_ok(source, frames)
    &&& unwind(source, frames, frames.len() as int, columns) == whole
}

#[verifier::opaque]
spec fn remaining(source: Seq<u8>, frames: Seq<MappingFrameView>) -> nat {
    total_steps(source, frames, frames.len() as int)
}

/// What one step of a frame comes to.
enum Step {
    Push(MappingFrame),
    Continue,
    Finished,
}

#[verifier::opaque]
spec fn steps_to(
    source: Seq<u8>,
    before: MappingFrameView,
    after: MappingFrameView,
    depth: int,
    columns_before: Columns,
    columns_after: Columns,
    step: Step,
) -> bool {
    let whole = go(source, before, depth, columns_before);
    match step {
        Step::Continue => {
            &&& whole == go(source, after, depth, columns_after)
            &&& frame_ok(source, after)
            &&& after.discriminator == before.discriminator
            &&& after.segments == before.segments
            &&& before.k < after.k
        },
        Step::Finished => {
            &&& whole == columns_after
        },
        Step::Push(child) => {
            let new_depth = depth + (if child@.discriminator {
                0int
            } else {
                1
            });
            &&& new_depth < DEPTH_LIMIT
            &&& child@.discriminator ==> !before.discriminator
            &&& whole == go(source, after, depth, go(source, child@, new_depth, columns_after))
            &&& frame_ok(source, after)
            &&& after.discriminator == before.discriminator
            &&& after.segments == before.segments
            &&& before.k < before.segments.len()
            &&& after.k == before.k + 1
            &&& frame_ok(source, child@)
            &&& child@.k == 0
            &&& before.segments[before.k] matches SegmentView::Tag { span, .. } && child@.segments
                == body::subtree(source, span).segments
        },
    }
}

fn nesting_limit_diagnostic() -> (d: Diagnostic)
    ensures
        d@ == nesting_limit(),
{
    diagnostic(
        DiagCode::NestingLimitExceeded,
        None,
        "resultMap association/collection/discriminator nesting exceeds the depth cap of 256; remaining subtree skipped".to_owned(),
    )
}

/// Appends diagnostics.
pub fn append_diagnostics(
    diagnostics: &mut Vec<Diagnostic>,
    more: Vec<Diagnostic>,
    Ghost(len): Ghost<int>,
)
    requires
        body::spans_in(model::deep(old(diagnostics)@), len),
        body::spans_in(model::deep(more@), len),
    ensures
        model::deep(final(diagnostics)@) == model::deep(old(diagnostics)@) + model::deep(more@),
        body::spans_in(model::deep(final(diagnostics)@), len),
{
    let mut more = more;
    let ghost a = diagnostics@;
    let ghost b = more@;
    diagnostics.append(&mut more);
    proof {
        assert(diagnostics@ =~= a + b);
        model::deep_concat(a, b);
        tags::lemma_spans_concat(model::deep(a), model::deep(b), len);
    }
}

/// Appends one diagnostic.
pub fn append_diagnostic(diagnostics: &mut Vec<Diagnostic>, d: Diagnostic, Ghost(len): Ghost<int>)
    requires
        body::spans_in(model::deep(old(diagnostics)@), len),
        body::span_in(d.span, len),
    ensures
        model::deep(final(diagnostics)@) == model::deep(old(diagnostics)@) + seq![d@],
        body::spans_in(model::deep(final(diagnostics)@), len),
{
    let mut one: Vec<Diagnostic> = Vec::new();
    one.push(d);
    assert(model::deep(one@) =~= seq![d@]);
    append_diagnostics(diagnostics, one, Ghost(len));
}

/// Reads an attribute of the tag at `span` and appends what was wrong with it.
pub fn read_spanned(
    source: &str,
    span: ByteSpan,
    name: &str,
    diagnostics: &mut Vec<Diagnostic>,
) -> (value: Option<Spanned<String>>)
    requires
        attrs::fits(source.spec_bytes()),
        tags::in_source(span, source.spec_bytes().len() as int),
        body::spans_in(model::deep(old(diagnostics)@), source.spec_bytes().len() as int),
    ensures
        model::opt(value) == attrs::tag_attr(source.spec_bytes(), span, name@).value,
        tags::attr_ok(model::opt(value), tags::room_of(source.spec_bytes(), span)),
        model::deep(final(diagnostics)@) == model::deep(old(diagnostics)@) + attrs::tag_attr(
            source.spec_bytes(),
            span,
            name@,
        ).diagnostics,
        body::spans_in(model::deep(final(diagnostics)@), source.spec_bytes().len() as int),
{
    proof {
        encode_utf8_valid_utf8(source@);
        tags::lemma_attr_spans(source.spec_bytes(), span, name@);
    }
    let (value, more) = read_tag_attr(source, span, name);
    append_diagnostics(diagnostics, more, Ghost(source.spec_bytes().len() as int));
    value
}

/// Reads an `<id>` or `<result>`.
fn add_column(
    source: &str,
    span: ByteSpan,
    mappings: &mut Vec<ColumnMapping>,
    diagnostics: &mut Vec<Diagnostic>,
)
    requires
        attrs::fits(source.spec_bytes()),
        tags::in_source(span, source.spec_bytes().len() as int),
        body::spans_in(model::deep(old(diagnostics)@), source.spec_bytes().len() as int),
    ensures
        columns_of(final(mappings)@, final(diagnostics)@) == after_column(
            source.spec_bytes(),
            columns_of(old(mappings)@, old(diagnostics)@),
            span,
        ),
        body::spans_in(model::deep(final(diagnostics)@), source.spec_bytes().len() as int),
{
    let column = read_spanned(source, span, "column", diagnostics);
    let property = read_spanned(source, span, "property", diagnostics);
    let mapping = ColumnMapping {
        column: match column {
            Some(value) => Some(value.value),
            None => None,
        },
        property: match property {
            Some(value) => Some(value.value),
            None => None,
        },
    };
    let ghost before = mappings@;
    mappings.push(mapping);
    proof {
        model::deep_push(before, mapping);
    }
}

/// Goes down into a body, as far as the depth cap allows.
fn descend_mapping(
    source: &str,
    span: ByteSpan,
    depth: usize,
    mappings: &Vec<ColumnMapping>,
    diagnostics: &mut Vec<Diagnostic>,
) -> (r: Option<MappingFrame>)
    requires
        attrs::fits(source.spec_bytes()),
        body::element_at(source.spec_bytes(), span),
        depth <= DEPTH_LIMIT,
        body::spans_in(model::deep(old(diagnostics)@), source.spec_bytes().len() as int),
    ensures
        body::spans_in(model::deep(final(diagnostics)@), source.spec_bytes().len() as int),
        ({
            let bytes = source.spec_bytes();
            let inner = body::subtree(bytes, span);
            let whole = nested(
                bytes,
                inner.segments,
                depth as int,
                noted(columns_of(mappings@, old(diagnostics)@), inner.diagnostics),
            );
            match r {
                Some(child) => {
                    &&& depth < DEPTH_LIMIT
                    &&& !child@.discriminator
                    &&& child@.k == 0
                    &&& child@.segments == inner.segments
                    &&& frame_ok(bytes, child@)
                    &&& whole == go(
                        bytes,
                        child@,
                        depth as int,
                        columns_of(mappings@, final(diagnostics)@),
                    )
                },
                None => whole == columns_of(mappings@, final(diagnostics)@),
            }
        }),
{
    let ghost len = source.spec_bytes().len() as int;
    let captured = capture_subtree(source, span);
    append_diagnostics(diagnostics, captured.diagnostics, Ghost(len));
    if depth >= DEPTH_LIMIT as usize {
        append_diagnostic(diagnostics, nesting_limit_diagnostic(), Ghost(len));
        return None;
    }
    Some(MappingFrame { discriminator: false, segments: captured.segments, idx: 0 })
}

impl MappingFrame {
    /// Passes the next child.
    fn step(
        &mut self,
        source: &str,
        depth: usize,
        mappings: &mut Vec<ColumnMapping>,
        diagnostics: &mut Vec<Diagnostic>,
    ) -> (step: Step)
        requires
            attrs::fits(source.spec_bytes()),
            frame_ok(source.spec_bytes(), old(self)@),
            depth < DEPTH_LIMIT,
            body::spans_in(model::deep(old(diagnostics)@), source.spec_bytes().len() as int),
        ensures
            body::spans_in(model::deep(final(diagnostics)@), source.spec_bytes().len() as int),
            steps_to(
                source.spec_bytes(),
                old(self)@,
                final(self)@,
                depth as int,
                columns_of(old(mappings)@, old(diagnostics)@),
                columns_of(final(mappings)@, final(diagnostics)@),
                step,
            ),
    {
        let ghost bytes = source.spec_bytes();
        let ghost len = bytes.len() as int;
        let ghost views = model::deep(self.segments@);
        let ghost k = self.idx as int;
        proof {
            reveal(steps_to);
        }
        if self.idx >= self.segments.len() {
            return Step::Finished;
        }
        proof {
            assert(views[k] == self.segments@[k]@);
            assert(body::segment_in(bytes, views[k]));
        }
        if let BodySegment::DynamicTag { name, span } = &self.segments[self.idx] {
            let span = *span;
            let name = name.as_str();
            if self.discriminator {
                if str_eq(name, "case") {
                    let child = descend_mapping(source, span, depth + 1, mappings, diagnostics);
                    self.idx = self.idx + 1;
                    return match child {
                        Some(child) => Step::Push(child),
                        None => Step::Continue,
                    };
                }
            } else if str_eq(name, "id") || str_eq(name, "result") {
                add_column(source, span, mappings, diagnostics);
            } else if str_eq(name, "association") || str_eq(name, "collection") {
                let child = descend_mapping(source, span, depth + 1, mappings, diagnostics);
                self.idx = self.idx + 1;
                return match child {
                    Some(child) => Step::Push(child),
                    None => Step::Continue,
                };
            } else if str_eq(name, "discriminator") {
                let captured = capture_subtree(source, span);
                append_diagnostics(diagnostics, captured.diagnostics, Ghost(len));
                self.idx = self.idx + 1;
                return Step::Push(
                    MappingFrame { discriminator: true, segments: captured.segments, idx: 0 },
                );
            }
        }
        self.idx = self.idx + 1;
        Step::Continue
    }
}

proof fn lemma_after_step(
    source: Seq<u8>,
    rest: Seq<MappingFrameView>,
    before: MappingFrameView,
    after: MappingFrameView,
    columns: Columns,
    columns_after: Columns,
    whole: Columns,
    step: Step,
)
    requires
        running(source, rest.push(before), columns, whole),
        steps_to(
            source,
            before,
            after,
            bodies(rest.push(before), rest.len() + 1int) - 1,
            columns,
            columns_after,
            step,
        ),
    ensures
        match step {
            Step::Continue => {
                &&& running(source, rest.push(after), columns_after, whole)
                &&& bodies(rest.push(after), rest.len() + 1int) == bodies(
                    rest.push(before),
                    rest.len() + 1int,
                )
                &&& remaining(source, rest.push(after)) < remaining(source, rest.push(before))
            },
            Step::Push(child) => {
                let frames = rest.push(after).push(child@);
                &&& running(source, frames, columns_after, whole)
                &&& bodies(frames, rest.len() + 2int) == bodies(
                    rest.push(before),
                    rest.len() + 1int,
                ) + (if child@.discriminator {
                    0int
                } else {
                    1
                })
                &&& remaining(source, frames) < remaining(source, rest.push(before))
            },
            Step::Finished => {
                &&& running(source, rest, columns_after, whole)
                &&& bodies(rest, rest.len() as int) == bodies(
                    rest.push(before),
                    rest.len() + 1int,
                ) - (if before.discriminator {
                    0int
                } else {
                    1
                })
                &&& remaining(source, rest) < remaining(source, rest.push(before))
            },
        },
{
    reveal(running);
    reveal(remaining);
    reveal(steps_to);
    let b = rest.push(before);
    let n = rest.len() as int;
    let depth = bodies(b, n + 1) - 1;
    assert(b[n] == before);
    match step {
        Step::Continue => {
            let a = rest.push(after);
            lemma_same_prefix(source, a, b, n, go(source, after, depth, columns_after));
            flatten::lemma_steps(source, before.segments, before.k, after.k, n);
            assert(a[n] == after);
            assert forall|i: int| 0 <= i < a.len() implies frame_ok(source, #[trigger] a[i]) by {
                if i < n {
                    assert(a[i] == b[i]);
                }
            }
            assert forall|i: int| 0 < i < a.len() implies #[trigger] on_body(a, i) by {
                assert(on_body(b, i));
            }
        },
        Step::Push(child) => {
            let a = rest.push(after).push(child@);
            let new_depth = depth + (if child@.discriminator {
                0int
            } else {
                1
            });
            let inner = go(source, child@, new_depth, columns_after);
            lemma_same_prefix(source, a, b, n, columns);
            lemma_same_prefix(source, a, b, n, go(source, after, depth, inner));
            assert(a[n] == after);
            assert(a[n + 1] == child@);
            assert(bodies(a, n + 1) == depth + 1);
            assert(unwind(source, a, n + 2, columns_after) == unwind(source, a, n + 1, inner));
            assert(unwind(source, a, n + 1, inner) == unwind(
                source,
                a,
                n,
                go(source, after, depth, inner),
            ));
            lemma_frame_count(b, n + 1);
            assert(n < FRAME_LIMIT);
            assert(total_steps(source, a, n + 1) == total_steps(source, a, n) + 1
                + flatten::steps(source, after.segments, after.k, n));
            assert(flatten::steps(source, before.segments, before.k, n) == 6 + flatten::steps(
                source,
                child@.segments,
                0,
                n + 1,
            ) + flatten::steps(source, before.segments, before.k + 1, n));
            assert forall|i: int| 0 <= i < a.len() implies frame_ok(source, #[trigger] a[i]) by {
                if i < n {
                    assert(a[i] == b[i]);
                }
            }
            assert forall|i: int| 0 < i < a.len() implies #[trigger] on_body(a, i) by {
                if i <= n {
                    assert(on_body(b, i));
                }
            }
        },
        Step::Finished => {
            lemma_same_prefix(source, rest, b, n, columns_after);
            lemma_frame_count(b, n);
            assert forall|i: int| 0 <= i < rest.len() implies frame_ok(
                source,
                #[trigger] rest[i],
            ) by {
                assert(rest[i] == b[i]);
            }
            assert forall|i: int| 0 < i < rest.len() implies #[trigger] on_body(rest, i) by {
                assert(on_body(b, i));
            }
            if n > 0 {
                assert(rest[0] == b[0]);
            }
        },
    }
}

/// Appends the mappings of a body, nested ones flattened into the list.
pub fn collect_mappings(
    source: &str,
    segments: Vec<BodySegment>,
    mappings: &mut Vec<ColumnMapping>,
    diagnostics: &mut Vec<Diagnostic>,
)
    requires
        attrs::fits(source.spec_bytes()),
        body::segments_in(source.spec_bytes(), model::deep(segments@)),
        body::spans_in(model::deep(old(diagnostics)@), source.spec_bytes().len() as int),
    ensures
        columns_of(final(mappings)@, final(diagnostics)@) == nested(
            source.spec_bytes(),
            model::deep(segments@),
            0,
            columns_of(old(mappings)@, old(diagnostics)@),
        ),
        body::spans_in(model::deep(final(diagnostics)@), source.spec_bytes().len() as int),
{
    let ghost bytes = source.spec_bytes();
    let ghost len = bytes.len() as int;
    let first = MappingFrame { discriminator: false, segments, idx: 0 };
    let ghost whole = go(bytes, first@, 0, columns_of(mappings@, diagnostics@));
    let mut depth: usize = 1;
    let mut stack: Vec<MappingFrame> = Vec::new();
    stack.push(first);
    proof {
        reveal(running);
        let frames = model::deep(stack@);
        assert(frames =~= seq![first@]);
        assert(bodies(frames, 0) == 0);
        assert(bodies(frames, 1) == 1);
        assert(unwind(bytes, frames, 0, whole) == whole);
        assert(unwind(bytes, frames, 1, columns_of(mappings@, diagnostics@)) == whole);
    }
    while stack.len() > 0
        invariant
            bytes == source.spec_bytes(),
            len == bytes.len(),
            attrs::fits(bytes),
            body::spans_in(model::deep(diagnostics@), len),
            depth == bodies(model::deep(stack@), stack@.len() as int),
            running(
                bytes,
                model::deep(stack@),
                columns_of(mappings@, diagnostics@),
                whole,
            ),
        decreases remaining(bytes, model::deep(stack@)),
    {
        let ghost frames = model::deep(stack@);
        let ghost rest = frames.drop_last();
        let ghost before = frames.last();
        let ghost columns = columns_of(mappings@, diagnostics@);
        proof {
            assert(frames =~= rest.push(before));
            reveal(running);
            lemma_frame_count(frames, frames.len() as int);
            assert(frame_ok(bytes, frames[frames.len() - 1]));
        }
        let mut top = stack.pop().unwrap();
        proof {
            assert(model::deep(stack@) =~= rest);
            assert(top@ == before);
        }
        let is_discriminator = top.discriminator;
        let step = top.step(source, depth - 1, mappings, diagnostics);
        proof {
            lemma_after_step(
                bytes,
                rest,
                before,
                top@,
                columns,
                columns_of(mappings@, diagnostics@),
                whole,
                step,
            );
            model::deep_push(stack@, top);
        }
        match step {
            Step::Continue => {
                stack.push(top);
            },
            Step::Push(child) => {
                if !child.discriminator {
                    depth += 1;
                }
                proof {
                    model::deep_push(stack@.push(top), child);
                }
                stack.push(top);
                stack.push(child);
            },
            Step::Finished => {
                if !is_discriminator {
                    depth -= 1;
                }
            },
        }
    }
    proof {
        reveal(running);
    }
}

} // verus!
