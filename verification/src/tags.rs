//! Dynamic tags: what opening one reads and records, and what is to be done
//! with its body.
use crate::attrs;
use crate::attrs::{diagnostic, read_tag_attr};
use crate::body;
use crate::body::{capture_subtree, BodySegment, SegmentView};
use crate::model;
use crate::model::{
    ByteSpan, DiagCode, Diagnostic, DiagnosticView, Dialect, IncludeRef, IncludeRefView,
    IncludeTarget, IncludeTargetView, Spanned,
};
use crate::placeholder;
use crate::placeholder::{normalize_merged, RunView, TextRun};
use crate::sql;
use crate::sql::{Piece, PieceView};
use crate::text;
use crate::text::{all_space, concat, concat3, find, find_last_byte, push, slice, str_eq};
use crate::wrapper;
use crate::wrapper::{split_overrides, KindView, PendingKind};
use vstd::prelude::*;
use vstd::string::*;
use vstd::utf8::*;

verus! {

/// The deepest nesting of tags that is looked into.
pub const DEPTH_LIMIT: u32 = 256;

pub const DOT: u8 = 0x2E;

// ---- the record of a walk -----------------------------------------------

/// What a walk over a body collects on its way.
pub struct Ctx {
    pub dialect: Dialect,
    pub diagnostics: Vec<Diagnostic>,
    pub property_paths: Vec<Spanned<String>>,
    pub found_includes: Vec<Spanned<IncludeRef>>,
    /// How many tags are open.
    pub depth: u32,
    /// Inside an element that was reported as unknown, so that its children
    /// are not reported again.
    pub inside_unknown_element: bool,
    /// Where everything that is recorded lies.
    pub room: Ghost<Room>,
}

/// A part of a source.
pub struct Room {
    pub source: Seq<u8>,
    pub from: int,
    pub to: int,
}

/// What has been collected. How many tags are open, and where the record lies,
/// the contracts say apart.
pub struct CtxView {
    pub dialect: Dialect,
    pub diagnostics: Seq<DiagnosticView>,
    pub paths: Seq<Spanned<Seq<char>>>,
    pub includes: Seq<Spanned<IncludeRefView>>,
    pub inside_unknown: bool,
}

impl View for Ctx {
    type V = CtxView;

    open spec fn view(&self) -> CtxView {
        CtxView {
            dialect: self.dialect,
            diagnostics: model::deep(self.diagnostics@),
            paths: model::deep(self.property_paths@),
            includes: model::deep(self.found_includes@),
            inside_unknown: self.inside_unknown_element,
        }
    }
}

pub open spec fn in_source(span: ByteSpan, len: int) -> bool {
    span.start <= span.end <= len
}

/// A span inside a part of a source.
pub open spec fn in_room(span: ByteSpan, room: Room) -> bool {
    room.from <= span.start <= span.end <= room.to
}

/// The text of `value` stands in the source at `span`.
#[verifier::opaque]
pub open spec fn stands_at(source: Seq<u8>, value: Seq<char>, span: ByteSpan) -> bool {
    &&& span.start <= span.end <= source.len()
    &&& source.subrange(span.start as int, span.end as int) == encode_utf8(value)
}

/// A range that starts like a tag.
pub open spec fn starts_a_tag(source: Seq<u8>, span: ByteSpan) -> bool {
    span.start < span.end <= source.len() && source[span.start as int] == attrs::LESS_THAN
}

/// A path is found in the source where its span says, unless the span is a
/// point or the tag that holds the path in an attribute.
pub open spec fn path_found(source: Seq<u8>, path: Spanned<Seq<char>>) -> bool {
    ||| path.span.start == path.span.end
    ||| stands_at(source, path.value, path.span)
    ||| starts_a_tag(source, path.span)
}

/// What is recorded lies in its room, which is a part of `source`; the
/// diagnostics lie anywhere in `source`.
pub open spec fn ctx_ok(ctx: Ctx, source: Seq<u8>) -> bool {
    &&& ctx.room@.source == source
    &&& body::spans_in(ctx@.diagnostics, source.len() as int)
    &&& paths_in(ctx@.paths, ctx.room@)
    &&& includes_in(ctx@.includes, ctx.room@)
}

pub open spec fn paths_in(paths: Seq<Spanned<Seq<char>>>, room: Room) -> bool {
    forall|k: int|
        0 <= k < paths.len() ==> in_room((#[trigger] paths[k]).span, room) && path_found(
            room.source,
            paths[k],
        )
}

pub open spec fn includes_in(includes: Seq<Spanned<IncludeRefView>>, room: Room) -> bool {
    forall|k: int| 0 <= k < includes.len() ==> in_room((#[trigger] includes[k]).span, room)
}

pub open spec fn fresh_ctx(dialect: Dialect) -> CtxView {
    CtxView {
        dialect,
        diagnostics: Seq::empty(),
        paths: Seq::empty(),
        includes: Seq::empty(),
        inside_unknown: false,
    }
}

pub fn new_ctx(dialect: Dialect, Ghost(room): Ghost<Room>) -> (ctx: Ctx)
    ensures
        ctx@ == fresh_ctx(dialect),
        ctx.room@ == room,
        ctx.depth == 0,
{
    let ctx = Ctx {
        dialect,
        diagnostics: Vec::new(),
        property_paths: Vec::new(),
        found_includes: Vec::new(),
        depth: 0,
        inside_unknown_element: false,
        room: Ghost(room),
    };
    assert(ctx@.diagnostics =~= Seq::empty());
    assert(ctx@.paths =~= Seq::empty());
    assert(ctx@.includes =~= Seq::empty());
    ctx
}

/// `ctx` with more diagnostics.
pub open spec fn noted(ctx: CtxView, diagnostics: Seq<DiagnosticView>) -> CtxView {
    CtxView { diagnostics: ctx.diagnostics + diagnostics, ..ctx }
}

/// `ctx` with one more path, where it is not empty.
pub open spec fn with_path(ctx: CtxView, value: Seq<char>, span: ByteSpan) -> CtxView {
    if value.len() == 0 {
        ctx
    } else {
        CtxView { paths: ctx.paths.push(Spanned { value, span }), ..ctx }
    }
}

/// Appends diagnostics to the record.
pub fn note(ctx: &mut Ctx, diagnostics: Vec<Diagnostic>, Ghost(source): Ghost<Seq<u8>>)
    requires
        ctx_ok(*old(ctx), source),
        body::spans_in(model::deep(diagnostics@), source.len() as int),
    ensures
        final(ctx)@ == noted(old(ctx)@, model::deep(diagnostics@)),
        final(ctx).depth == old(ctx).depth,
        final(ctx).room == old(ctx).room,
        ctx_ok(*final(ctx), source),
{
    broadcast use model::group_deep;

    let mut more = diagnostics;
    ctx.diagnostics.append(&mut more);
    proof {
        let a = model::deep(old(ctx).diagnostics@);
        let b = model::deep(diagnostics@);
        assert(ctx@.diagnostics == a + b);
        lemma_spans_concat(a, b, source.len() as int);
    }
}

pub proof fn lemma_spans_concat(a: Seq<DiagnosticView>, b: Seq<DiagnosticView>, len: int)
    requires
        body::spans_in(a, len),
        body::spans_in(b, len),
    ensures
        body::spans_in(a + b, len),
{
    assert forall|k: int| 0 <= k < (a + b).len() implies body::span_in(
        (#[trigger] (a + b)[k]).span,
        len,
    ) by {
        if k < a.len() {
            assert((a + b)[k] == a[k]);
        } else {
            assert((a + b)[k] == b[k - a.len()]);
        }
    }
}

/// Appends one diagnostic to the record.
pub fn note_one(ctx: &mut Ctx, d: Diagnostic, Ghost(source): Ghost<Seq<u8>>)
    requires
        ctx_ok(*old(ctx), source),
        body::span_in(d.span, source.len() as int),
    ensures
        final(ctx)@ == noted(old(ctx)@, seq![d@]),
        final(ctx).depth == old(ctx).depth,
        final(ctx).room == old(ctx).room,
        ctx_ok(*final(ctx), source),
{
    let mut one: Vec<Diagnostic> = Vec::new();
    one.push(d);
    assert(model::deep(one@) =~= seq![d@]);
    note(ctx, one, Ghost(source));
}

pub fn add_path(ctx: &mut Ctx, value: String, span: ByteSpan, Ghost(source): Ghost<Seq<u8>>)
    requires
        ctx_ok(*old(ctx), source),
        in_room(span, old(ctx).room@),
        starts_a_tag(source, span),
    ensures
        final(ctx)@ == with_path(old(ctx)@, value@, span),
        final(ctx).depth == old(ctx).depth,
        final(ctx).room == old(ctx).room,
        ctx_ok(*final(ctx), source),
{
    broadcast use model::group_deep;

    if !value.as_str().is_empty() {
        ctx.property_paths.push(Spanned { value, span });
    }
}

// ---- attributes ---------------------------------------------------------

pub open spec fn attr_opt(source: Seq<u8>, span: ByteSpan, name: Seq<char>) -> Option<Seq<char>> {
    match attrs::tag_attr(source, span, name).value {
        Some(value) => Some(value.value),
        None => None,
    }
}

/// The attribute's value, empty where it is missing.
pub open spec fn attr_or_empty(source: Seq<u8>, span: ByteSpan, name: Seq<char>) -> Seq<char> {
    match attr_opt(source, span, name) {
        Some(value) => value,
        None => Seq::empty(),
    }
}

/// `ctx` after the attribute `name` of the tag at `span` has been read.
pub open spec fn after_read(
    source: Seq<u8>,
    ctx: CtxView,
    span: ByteSpan,
    name: Seq<char>,
) -> CtxView {
    noted(ctx, attrs::tag_attr(source, span, name).diagnostics)
}

proof fn lemma_read_spans(
    bytes: Seq<u8>,
    list: Seq<attrs::AttrView>,
    name: Seq<char>,
    k: int,
    seen: bool,
    room: Room,
)
    requires
        valid_utf8(bytes),
        attrs::fits(bytes),
        0 <= k,
        room.source == bytes,
        0 <= room.from <= room.to <= bytes.len(),
        attrs::attrs_in(bytes, list, room.from, room.to),
    ensures
        body::spans_in(
            attrs::read_from(bytes, list, name, k, seen).diagnostics,
            bytes.len() as int,
        ),
        attr_ok(attrs::read_from(bytes, list, name, k, seen).value, room),
    decreases list.len() - k,
{
    if k < list.len() {
        assert(attrs::attr_in(bytes, list[k], room.from, room.to));
        let (from, to) = list[k].value;
        text::lemma_between_cuts(bytes, from, to);
        decode_utf8_encode_utf8(bytes.subrange(from, to));
        reveal(stands_at);
        lemma_read_spans(bytes, list, name, k + 1, seen, room);
        lemma_read_spans(bytes, list, name, k + 1, true, room);
    }
}

/// The value of an attribute, if there is one, lies in a part of the source and
/// is what the source holds there.
pub open spec fn attr_ok(value: Option<Spanned<Seq<char>>>, room: Room) -> bool {
    match value {
        Some(value) => in_room(value.span, room) && stands_at(
            room.source,
            value.value,
            value.span,
        ),
        None => true,
    }
}

/// The extent of an element as a part of the source.
pub open spec fn room_of(source: Seq<u8>, span: ByteSpan) -> Room {
    Room { source, from: span.start as int, to: span.end as int }
}

/// The value of an attribute lies in its tag, and what reading it reports in
/// the source.
pub proof fn lemma_attr_spans(source: Seq<u8>, span: ByteSpan, name: Seq<char>)
    requires
        valid_utf8(source),
        attrs::fits(source),
        in_source(span, source.len() as int),
    ensures
        body::spans_in(attrs::tag_attr(source, span, name).diagnostics, source.len() as int),
        attr_ok(attrs::tag_attr(source, span, name).value, room_of(source, span)),
{
    let list = attrs::tag_attrs(source, span.start as int, span.end as int);
    attrs::lemma_tag_attrs(source, span.start as int, span.end as int);
    lemma_read_spans(source, list, name, 0, false, room_of(source, span));
}

/// Reads an attribute of the tag at `span`.
pub fn read_attr_opt(source: &str, span: ByteSpan, name: &str, ctx: &mut Ctx) -> (value: Option<
    String,
>)
    requires
        attrs::fits(source.spec_bytes()),
        in_source(span, source.spec_bytes().len() as int),
        ctx_ok(*old(ctx), source.spec_bytes()),
    ensures
        model::opt(value) == attr_opt(source.spec_bytes(), span, name@),
        final(ctx)@ == after_read(source.spec_bytes(), old(ctx)@, span, name@),
        final(ctx).depth == old(ctx).depth,
        final(ctx).room == old(ctx).room,
        ctx_ok(*final(ctx), source.spec_bytes()),
{
    let ghost len = source.spec_bytes().len() as int;
    proof {
        encode_utf8_valid_utf8(source@);
        lemma_attr_spans(source.spec_bytes(), span, name@);
    }
    let (value, diagnostics) = read_tag_attr(source, span, name);
    note(ctx, diagnostics, Ghost(source.spec_bytes()));
    match value {
        Some(value) => Some(value.value),
        None => None,
    }
}

/// Reads an attribute of the tag at `span`, empty where it is missing.
pub fn read_attr(source: &str, span: ByteSpan, name: &str, ctx: &mut Ctx) -> (value: String)
    requires
        attrs::fits(source.spec_bytes()),
        in_source(span, source.spec_bytes().len() as int),
        ctx_ok(*old(ctx), source.spec_bytes()),
    ensures
        value@ == attr_or_empty(source.spec_bytes(), span, name@),
        final(ctx)@ == after_read(source.spec_bytes(), old(ctx)@, span, name@),
        final(ctx).depth == old(ctx).depth,
        final(ctx).room == old(ctx).room,
        ctx_ok(*final(ctx), source.spec_bytes()),
{
    match read_attr_opt(source, span, name, ctx) {
        Some(value) => value,
        None => String::new(),
    }
}

// ---- <include> ----------------------------------------------------------

/// What a `refid` points at. One with `${` in it cannot be resolved; MyBatis
/// takes what stands before the last dot for a namespace; iBatis ids may hold
/// dots.
pub open spec fn classified(raw: Seq<char>, dialect: Dialect) -> IncludeTargetView {
    let bytes = encode_utf8(raw);
    let len = bytes.len() as int;
    if text::first_match(bytes, encode_utf8("${"@), 0) is Some {
        IncludeTargetView::Dynamic
    } else if dialect == Dialect::Mybatis && text::last_byte(bytes, DOT, len) is Some {
        let dot = text::last_byte(bytes, DOT, len)->0;
        IncludeTargetView::Qualified {
            ns: decode_utf8(bytes.subrange(0, dot)),
            id: decode_utf8(bytes.subrange(dot + 1, len)),
        }
    } else {
        IncludeTargetView::Local(raw)
    }
}

pub fn classify_include(raw: &str, dialect: Dialect) -> (target: IncludeTarget)
    ensures
        target@ == classified(raw@, dialect),
{
    let bytes = raw.as_bytes();
    if find(bytes, "${".as_bytes(), 0).is_some() {
        return IncludeTarget::Dynamic;
    }
    if dialect == Dialect::Mybatis {
        if let Some(dot) = find_last_byte(bytes, DOT) {
            proof {
                encode_utf8_valid_utf8(raw@);
                text::lemma_ascii_cuts(bytes@, dot as int);
                text::lemma_cut_is_boundary(bytes@, 0);
                text::lemma_cut_is_boundary(bytes@, bytes@.len() as int);
            }
            let len = bytes.len();
            return IncludeTarget::Qualified {
                ns: slice(raw, 0, dot).to_owned(),
                id: slice(raw, dot + 1, len).to_owned(),
            };
        }
    }
    IncludeTarget::Local(raw.to_owned())
}

/// The reference of the `<include>` at `span`.
pub open spec fn include_ref(
    raw: Seq<char>,
    dialect: Dialect,
    span: ByteSpan,
) -> Spanned<IncludeRefView> {
    Spanned { value: IncludeRefView { raw, target: classified(raw, dialect) }, span }
}

/// `ctx` after the `<include>` at `span` has been recorded; one without a
/// `refid` is not.
pub open spec fn after_include(source: Seq<u8>, ctx: CtxView, span: ByteSpan) -> CtxView {
    let read = after_read(source, ctx, span, "refid"@);
    match attr_opt(source, span, "refid"@) {
        Some(raw) => CtxView {
            includes: read.includes.push(include_ref(raw, ctx.dialect, span)),
            ..read
        },
        None => read,
    }
}

/// Records an `<include>` and gives its piece.
pub fn record_include(source: &str, span: ByteSpan, ctx: &mut Ctx) -> (piece: Piece)
    requires
        attrs::fits(source.spec_bytes()),
        in_source(span, source.spec_bytes().len() as int),
        in_room(span, old(ctx).room@),
        ctx_ok(*old(ctx), source.spec_bytes()),
    ensures
        final(ctx)@ == after_include(source.spec_bytes(), old(ctx)@, span),
        final(ctx).depth == old(ctx).depth,
        final(ctx).room == old(ctx).room,
        ctx_ok(*final(ctx), source.spec_bytes()),
        piece@ == (PieceView::Include {
            raw: attr_or_empty(source.spec_bytes(), span, "refid"@),
            span,
        }),
{
    broadcast use model::group_deep;

    match read_attr_opt(source, span, "refid", ctx) {
        Some(raw) => {
            let target = classify_include(raw.as_str(), ctx.dialect);
            let value = IncludeRef { raw: raw.clone(), target };
            ctx.found_includes.push(Spanned { value, span });
            Piece::Include { raw, span }
        },
        None => Piece::Include { raw: String::new(), span },
    }
}

// ---- wrapper boundaries -------------------------------------------------

/// Whether a segment is more than whitespace.
pub open spec fn is_content(segment: SegmentView) -> bool {
    match segment {
        SegmentView::Text { decoded, .. } => !text::is_all_space(decoded),
        SegmentView::Tag { .. } => true,
    }
}

/// The first content at or after `k`; the number of segments where there is
/// none.
pub open spec fn first_content(segments: Seq<SegmentView>, k: int) -> int
    decreases segments.len() - k,
{
    if k >= segments.len() || is_content(segments[k]) {
        k
    } else {
        first_content(segments, k + 1)
    }
}

/// The last content before `k`; -1 where there is none.
pub open spec fn last_content(segments: Seq<SegmentView>, k: int) -> int
    decreases k,
{
    if k <= 0 || is_content(segments[k - 1]) {
        k - 1
    } else {
        last_content(segments, k - 1)
    }
}

pub open spec fn boundary_diagnostic(wrapper: Seq<char>, span: ByteSpan) -> DiagnosticView {
    DiagnosticView {
        code: DiagCode::IncludeAtWrapperBoundary,
        span: Some(span),
        message: "<include> is the first or last non-whitespace content inside <"@ + wrapper
            + "> -- since <include> expands before dynamic evaluation in MyBatis/iBatis, re-apply "@
            + wrapper
            + "'s leading AND/OR or trailing-comma rule to the substituted fragment text (a wrapper whose only content is this include must be treated as conditional)"@,
    }
}

pub open spec fn boundary_at(
    wrapper: Seq<char>,
    segments: Seq<SegmentView>,
    k: int,
) -> Seq<DiagnosticView> {
    if 0 <= k < segments.len() {
        match segments[k] {
            SegmentView::Tag { name, span } => if name == "include"@ {
                seq![boundary_diagnostic(wrapper, span)]
            } else {
                Seq::empty()
            },
            _ => Seq::empty(),
        }
    } else {
        Seq::empty()
    }
}

/// An `<include>` that is the first or the last content of a wrapper, each
/// reported once.
pub open spec fn boundaries(wrapper: Seq<char>, segments: Seq<SegmentView>) -> Seq<DiagnosticView> {
    let first = first_content(segments, 0);
    let last = last_content(segments, segments.len() as int);
    boundary_at(wrapper, segments, first) + (if last != first {
        boundary_at(wrapper, segments, last)
    } else {
        Seq::empty()
    })
}

/// The tags whose ends matter.
pub open spec fn is_wrapper(name: Seq<char>) -> bool {
    name == "where"@ || name == "set"@ || name == "trim"@
}

pub fn is_wrapper_tag(name: &str) -> (r: bool)
    ensures
        r == is_wrapper(name@),
{
    str_eq(name, "where") || str_eq(name, "set") || str_eq(name, "trim")
}

proof fn lemma_first_content(segments: Seq<SegmentView>, from: int, k: int)
    requires
        0 <= from <= k < segments.len(),
        is_content(segments[k]),
        forall|i: int| from <= i < k ==> !is_content(#[trigger] segments[i]),
    ensures
        first_content(segments, from) == k,
    decreases k - from,
{
    if from < k {
        lemma_first_content(segments, from + 1, k);
    }
}

proof fn lemma_last_content(segments: Seq<SegmentView>, to: int, k: int)
    requires
        0 <= k < to <= segments.len(),
        is_content(segments[k]),
        forall|i: int| k < i < to ==> !is_content(#[trigger] segments[i]),
    ensures
        last_content(segments, to) == k,
    decreases to,
{
    if k < to - 1 {
        lemma_last_content(segments, to - 1, k);
    }
}

/// An `<include>` with nothing but whitespace before it in a wrapper, or nothing
/// but whitespace behind it, is reported at its place.
pub proof fn law_boundary_is_reported(
    wrapper: Seq<char>,
    segments: Seq<SegmentView>,
    k: int,
    span: ByteSpan,
)
    requires
        0 <= k < segments.len(),
        segments[k] == (SegmentView::Tag { name: "include"@, span }),
        (forall|i: int| 0 <= i < k ==> !is_content(#[trigger] segments[i])) || (forall|i: int|
            k < i < segments.len() ==> !is_content(#[trigger] segments[i])),
    ensures
        boundaries(wrapper, segments).contains(boundary_diagnostic(wrapper, span)),
{
    let all = boundaries(wrapper, segments);
    let first = first_content(segments, 0);
    if forall|i: int| 0 <= i < k ==> !is_content(#[trigger] segments[i]) {
        lemma_first_content(segments, 0, k);
        assert(all[0] == boundary_diagnostic(wrapper, span));
    } else {
        lemma_last_content(segments, segments.len() as int, k);
        let head = boundary_at(wrapper, segments, first);
        if first != k {
            assert(all[head.len() as int] == boundary_diagnostic(wrapper, span));
        } else {
            assert(all[0] == boundary_diagnostic(wrapper, span));
        }
    }
}

fn has_content(segment: &BodySegment) -> (r: bool)
    ensures
        r == is_content(segment@),
{
    match segment {
        BodySegment::Text(t) => !all_space(t.decoded.as_str()),
        BodySegment::DynamicTag { .. } => true,
    }
}

fn boundary_message(wrapper: &str) -> (message: String)
    ensures
        message@ == boundary_diagnostic(wrapper@, ByteSpan { start: 0, end: 0 }).message,
{
    let mut message = concat3(
        "<include> is the first or last non-whitespace content inside <",
        wrapper,
        "> -- since <include> expands before dynamic evaluation in MyBatis/iBatis, re-apply ",
    );
    push(&mut message, wrapper);
    push(
        &mut message,
        "'s leading AND/OR or trailing-comma rule to the substituted fragment text (a wrapper whose only content is this include must be treated as conditional)",
    );
    message
}

/// Reports the segment at `k` where it is an `<include>`.
fn note_boundary(
    wrapper: &str,
    segments: &Vec<BodySegment>,
    k: usize,
    ctx: &mut Ctx,
    Ghost(source): Ghost<Seq<u8>>,
)
    requires
        k < segments@.len(),
        body::segments_in(source, model::deep(segments@)),
        ctx_ok(*old(ctx), source),
    ensures
        final(ctx)@ == noted(
            old(ctx)@,
            boundary_at(wrapper@, model::deep(segments@), k as int),
        ),
        final(ctx).depth == old(ctx).depth,
        final(ctx).room == old(ctx).room,
        ctx_ok(*final(ctx), source),
{
    let ghost views = model::deep(segments@);
    assert(views[k as int] == segments@[k as int]@);
    assert(body::segment_in(source, views[k as int]));
    if let BodySegment::DynamicTag { name, span } = &segments[k] {
        if str_eq(name.as_str(), "include") {
            let d = diagnostic(
                DiagCode::IncludeAtWrapperBoundary,
                Some(*span),
                boundary_message(wrapper),
            );
            note_one(ctx, d, Ghost(source));
            return ;
        }
    }
    assert(ctx@.diagnostics + Seq::<DiagnosticView>::empty() =~= ctx@.diagnostics);
}

/// Reports an `<include>` at either end of a wrapper's content.
pub fn check_include_at_wrapper_boundary(
    wrapper: &str,
    segments: &Vec<BodySegment>,
    ctx: &mut Ctx,
    Ghost(source): Ghost<Seq<u8>>,
)
    requires
        body::segments_in(source, model::deep(segments@)),
        ctx_ok(*old(ctx), source),
    ensures
        final(ctx)@ == noted(old(ctx)@, boundaries(wrapper@, model::deep(segments@))),
        final(ctx).depth == old(ctx).depth,
        final(ctx).room == old(ctx).room,
        ctx_ok(*final(ctx), source),
{
    let ghost views = model::deep(segments@);
    let ghost start = ctx@;
    let mut first: usize = 0;
    while first < segments.len() && !has_content(&segments[first])
        invariant
            views == model::deep(segments@),
            first <= segments@.len(),
            first_content(views, first as int) == first_content(views, 0),
        decreases segments@.len() - first,
    {
        first += 1;
    }
    let mut after: usize = segments.len();
    while after > 0 && !has_content(&segments[after - 1])
        invariant
            views == model::deep(segments@),
            after <= segments@.len(),
            last_content(views, after as int) == last_content(views, views.len() as int),
        decreases after,
    {
        after -= 1;
    }
    proof {
        if first < views.len() {
            assert(views[first as int] == segments@[first as int]@);
        }
        if after > 0 {
            assert(views[after - 1] == segments@[after - 1]@);
        }
        assert(start.diagnostics + Seq::<DiagnosticView>::empty() =~= start.diagnostics);
    }
    if first < segments.len() {
        note_boundary(wrapper, segments, first, ctx, Ghost(source));
    }
    let ghost one = ctx@.diagnostics;
    if after > 0 && after - 1 != first {
        note_boundary(wrapper, segments, after - 1, ctx, Ghost(source));
    }
    proof {
        assert(ctx@.diagnostics =~= start.diagnostics + boundaries(wrapper@, views));
    }
}

// ---- runs of text -------------------------------------------------------

/// The end of the run of text segments at `k`.
pub open spec fn run_end(segments: Seq<SegmentView>, k: int) -> int
    decreases segments.len() - k,
{
    if k < segments.len() && segments[k] is Text {
        run_end(segments, k + 1)
    } else {
        k
    }
}

pub proof fn lemma_run_end(segments: Seq<SegmentView>, k: int)
    requires
        k <= segments.len(),
    ensures
        k <= run_end(segments, k) <= segments.len(),
        forall|i: int| k <= i < run_end(segments, k) ==> (#[trigger] segments[i]) is Text,
        k < segments.len() && segments[k] is Text ==> k < run_end(segments, k),
    decreases segments.len() - k,
{
    if k < segments.len() && segments[k] is Text {
        lemma_run_end(segments, k + 1);
    }
}

pub open spec fn as_run(segment: SegmentView) -> RunView {
    match segment {
        SegmentView::Text { decoded, span } => RunView { decoded, span },
        SegmentView::Tag { span, .. } => RunView { decoded: Seq::empty(), span },
    }
}

/// The text segments from `from` to `to` as runs.
pub open spec fn runs_of(segments: Seq<SegmentView>, from: int, to: int) -> Seq<RunView> {
    segments.subrange(from, to).map_values(|s: SegmentView| as_run(s))
}

/// The run of text at `k`, normalized.
pub open spec fn norm_at(
    segments: Seq<SegmentView>,
    k: int,
    dialect: Dialect,
) -> placeholder::Norm {
    placeholder::normalized(runs_of(segments, k, run_end(segments, k)), dialect)
}

/// `ctx` after the run of text at `k`.
pub open spec fn after_text(segments: Seq<SegmentView>, k: int, ctx: CtxView) -> CtxView {
    let norm = norm_at(segments, k, ctx.dialect);
    CtxView {
        diagnostics: ctx.diagnostics + norm.diagnostics,
        paths: ctx.paths + norm.paths,
        ..ctx
    }
}

/// The piece that the run of text at `k` gives.
pub open spec fn text_piece(segments: Seq<SegmentView>, k: int, ctx: CtxView) -> PieceView {
    let norm = norm_at(segments, k, ctx.dialect);
    PieceView::Normalized { text: norm.text, map: norm.map }
}

/// Where the run of text at `start` ends.
pub fn text_run_end(segments: &Vec<BodySegment>, start: usize) -> (end: usize)
    requires
        start <= segments@.len(),
    ensures
        end == run_end(model::deep(segments@), start as int),
        start <= end <= segments@.len(),
{
    let ghost views = model::deep(segments@);
    let mut i = start;
    while i < segments.len() && matches!(segments[i], BodySegment::Text(_))
        invariant
            views == model::deep(segments@),
            start <= i <= segments@.len(),
            run_end(views, i as int) == run_end(views, start as int),
        decreases segments@.len() - i,
    {
        assert(views[i as int] == segments@[i as int]@);
        i += 1;
    }
    proof {
        if i < segments@.len() {
            assert(views[i as int] == segments@[i as int]@);
        }
    }
    i
}

fn text_runs<'a>(segments: &'a Vec<BodySegment>, start: usize, end: usize) -> (runs: Vec<
    TextRun<'a>,
>)
    requires
        start <= end <= segments@.len(),
        forall|i: int| start <= i < end ==> (#[trigger] segments@[i]) is Text,
    ensures
        model::deep(runs@) == runs_of(model::deep(segments@), start as int, end as int),
{
    let ghost views = model::deep(segments@);
    let mut runs: Vec<TextRun> = Vec::new();
    let mut i = start;
    while i < end
        invariant
            start <= i <= end <= segments@.len(),
            views == model::deep(segments@),
            forall|i: int| start <= i < end ==> (#[trigger] segments@[i]) is Text,
            runs@.len() == i - start,
            forall|j: int| 0 <= j < i - start ==> (#[trigger] runs@[j]@) == as_run(views[start + j]),
        decreases end - i,
    {
        assert(views[i as int] == segments@[i as int]@);
        if let BodySegment::Text(t) = &segments[i] {
            runs.push(TextRun { decoded: t.decoded.as_str(), raw_span: t.raw_span });
        }
        i += 1;
    }
    assert(model::deep(runs@) =~= runs_of(views, start as int, end as int));
    runs
}

/// Normalizes the run of text at `start` and records what is found in it.
/// Returns its piece and its end.
pub fn normalize_run(
    segments: &Vec<BodySegment>,
    start: usize,
    ctx: &mut Ctx,
    Ghost(source): Ghost<Seq<u8>>,
) -> (r: (Piece, usize))
    requires
        start < segments@.len(),
        segments@[start as int] is Text,
        body::segments_in(source, model::deep(segments@)),
        body::ordered(model::deep(segments@)),
        segments_within(model::deep(segments@), old(ctx).room@),
        ctx_ok(*old(ctx), source),
    ensures
        final(ctx)@ == after_text(model::deep(segments@), start as int, old(ctx)@),
        final(ctx).depth == old(ctx).depth,
        final(ctx).room == old(ctx).room,
        ctx_ok(*final(ctx), source),
        r.0@ == text_piece(model::deep(segments@), start as int, old(ctx)@),
        sql::piece_ok(r.0@, source.len() as int),
        r.1 == run_end(model::deep(segments@), start as int),
        start < r.1 <= segments@.len(),
{
    broadcast use model::group_deep;

    let ghost views = model::deep(segments@);
    let ghost room = ctx.room@;
    let end = text_run_end(segments, start);
    proof {
        lemma_run_end(views, start as int);
        assert(views[start as int] == segments@[start as int]@);
        assert forall|i: int| start <= i < end implies (#[trigger] segments@[i]) is Text by {
            assert(views[i] == segments@[i]@);
        }
    }
    let runs = text_runs(segments, start, end);
    let ghost run_views = model::deep(runs@);
    proof {
        assert forall|k: int| 0 <= k < run_views.len() implies placeholder::run_in(
            source,
            #[trigger] run_views[k],
        ) by {
            assert(body::segment_in(source, views[start + k]));
        }
        assert forall|i: int, j: int| 0 <= i < j < run_views.len() implies (
        #[trigger] run_views[i]).span.end <= (#[trigger] run_views[j]).span.start by {
            assert(body::segment_span(views[start + i]).end <= body::segment_span(
                views[start + j],
            ).start);
        }
        placeholder::lemma_runs_ok(source, run_views);
        placeholder::law_map_grows(run_views, ctx.dialect);
        placeholder::law_norm_in_source(source, run_views, ctx.dialect);
        assert forall|k: int| 0 <= k < run_views.len() implies room.from <= (
        #[trigger] run_views[k]).span.start <= run_views[k].span.end <= room.to by {
            assert(in_room(body::segment_span(views[start + k]), room));
        }
        placeholder::law_paths_between(run_views, ctx.dialect, room.from, room.to);
    }
    let result = normalize_merged(&runs, ctx.dialect);
    let ghost norm = result@;
    let mut paths = result.property_paths;
    ctx.property_paths.append(&mut paths);
    let ghost before = ctx@;
    proof {
        assert(before.paths == old(ctx)@.paths + norm.paths);
        assert forall|k: int| 0 <= k < before.paths.len() implies in_room(
            (#[trigger] before.paths[k]).span,
            room,
        ) && path_found(source, before.paths[k]) by {
            reveal(stands_at);
            if k >= old(ctx)@.paths.len() {
                let path = norm.paths[k - old(ctx)@.paths.len()];
                assert(placeholder::path_in(source, path));
                assert(room.from <= path.span.start <= path.span.end <= room.to);
            } else {
                assert(before.paths[k] == old(ctx)@.paths[k]);
            }
        }
    }
    note(ctx, result.diagnostics, Ghost(source));
    proof {
        encode_utf8_valid_utf8(result.text@);
    }
    (Piece::Normalized { text: result.text, map: result.span_map }, end)
}

// ---- opening a tag ------------------------------------------------------

/// What opening a tag asks for.
pub enum ActionView {
    /// Nothing.
    Skip,
    Add(PieceView),
    /// The `<when>` and `<otherwise>` among these are the branches.
    Choose(Seq<SegmentView>),
    /// Flatten these and apply the rule; the flag is to be restored then.
    Descend { kind: KindView, restore: Option<bool>, inner: Seq<SegmentView> },
}

pub struct OpenView {
    pub action: ActionView,
    pub ctx: CtxView,
}

/// A tag whose body is flattened: `ctx` also gets the diagnostics of reading
/// the body.
pub open spec fn descending(source: Seq<u8>, ctx: CtxView, span: ByteSpan, kind: KindView) -> OpenView {
    OpenView {
        action: ActionView::Descend {
            kind,
            restore: None,
            inner: body::subtree(source, span).segments,
        },
        ctx: noted(ctx, body::subtree(source, span).diagnostics),
    }
}

/// The same, for a wrapper whose ends matter.
pub open spec fn wrapping(
    source: Seq<u8>,
    ctx: CtxView,
    span: ByteSpan,
    kind: KindView,
    name: Seq<char>,
) -> OpenView {
    let open = descending(source, ctx, span, kind);
    OpenView {
        action: open.action,
        ctx: noted(open.ctx, boundaries(name, body::subtree(source, span).segments)),
    }
}

/// The condition that an iBatis conditional tag stands for.
pub open spec fn condition_of(name: Seq<char>, source: Seq<u8>, span: ByteSpan) -> Seq<char> {
    let property = attr_or_empty(source, span, "property"@);
    match attr_opt(source, span, "compareValue"@) {
        Some(value) => name + "("@ + property + ", '"@ + value + "')"@,
        None => match attr_opt(source, span, "compareProperty"@) {
            Some(other) => name + "("@ + property + ", "@ + other + ")"@,
            None => name + "("@ + property + ")"@,
        },
    }
}

/// `ctx` after the condition of an iBatis conditional tag has been read.
pub open spec fn after_condition(source: Seq<u8>, ctx: CtxView, span: ByteSpan) -> CtxView {
    let read = after_read(
        source,
        after_read(source, ctx, span, "property"@),
        span,
        "compareValue"@,
    );
    if attr_opt(source, span, "compareValue"@) is Some {
        read
    } else {
        after_read(source, read, span, "compareProperty"@)
    }
}

/// Elements that are left out on purpose.
pub open spec fn is_ignorable(name: Seq<char>) -> bool {
    name == "cache"@ || name == "cache-ref"@ || name == "parameterMap"@ || name == "cacheModel"@
        || name == "typeAlias"@
}

pub fn is_known_ignorable_element(name: &str) -> (r: bool)
    ensures
        r == is_ignorable(name@),
{
    str_eq(name, "cache") || str_eq(name, "cache-ref") || str_eq(name, "parameterMap") || str_eq(
        name,
        "cacheModel",
    ) || str_eq(name, "typeAlias")
}

pub open spec fn unknown_tag(name: Seq<char>, span: ByteSpan) -> DiagnosticView {
    DiagnosticView {
        code: DiagCode::UnknownElement,
        span: Some(span),
        message: "unrecognized element <"@ + name
            + "> in dynamic position -- not a known MyBatis/iBatis dynamic tag, and not one of this crate's known-ignorable elements; its content is still folded in transparently (possible typo?)"@,
    }
}

/// A tag without a meaning of its own: its content is kept. The outermost
/// unknown one is reported.
pub open spec fn opened_other(
    source: Seq<u8>,
    ctx: CtxView,
    name: Seq<char>,
    span: ByteSpan,
) -> OpenView {
    let reported = if !is_ignorable(name) && !ctx.inside_unknown {
        noted(ctx, seq![unknown_tag(name, span)])
    } else {
        ctx
    };
    let inside = CtxView { inside_unknown: ctx.inside_unknown || !is_ignorable(name), ..reported };
    OpenView {
        action: ActionView::Descend {
            kind: KindView::Identity,
            restore: Some(ctx.inside_unknown),
            inner: body::subtree(source, span).segments,
        },
        ctx: noted(inside, body::subtree(source, span).diagnostics),
    }
}

/// The text with a separator behind it, or nothing.
pub open spec fn spaced_after(text: Seq<char>) -> Seq<char> {
    if text.len() == 0 {
        text
    } else {
        text + " "@
    }
}

/// The text with a separator before it, or nothing.
pub open spec fn spaced_before(text: Seq<char>) -> Seq<char> {
    if text.len() == 0 {
        text
    } else {
        " "@ + text
    }
}

pub open spec fn starts_with_is(name: Seq<char>) -> bool {
    text::occurs_at(encode_utf8(name), encode_utf8("is"@), 0)
}

/// What opening the tag `name` at `span` reads, records and asks for.
#[verifier::opaque]
pub open spec fn opened(source: Seq<u8>, ctx: CtxView, name: Seq<char>, span: ByteSpan) -> OpenView {
    if name == "include"@ {
        OpenView {
            action: ActionView::Add(
                PieceView::Include { raw: attr_or_empty(source, span, "refid"@), span },
            ),
            ctx: after_include(source, ctx, span),
        }
    } else if name == "bind"@ {
        OpenView {
            action: ActionView::Skip,
            ctx: with_path(
                after_read(source, ctx, span, "value"@),
                attr_or_empty(source, span, "value"@),
                span,
            ),
        }
    } else if name == "choose"@ {
        OpenView {
            action: ActionView::Choose(body::subtree(source, span).segments),
            ctx: noted(ctx, body::subtree(source, span).diagnostics),
        }
    } else if name == "if"@ {
        descending(
            source,
            after_read(source, ctx, span, "test"@),
            span,
            KindView::If { test_value: attr_or_empty(source, span, "test"@) },
        )
    } else if name == "where"@ {
        wrapping(source, ctx, span, KindView::WhereClause, "where"@)
    } else if name == "set"@ {
        wrapping(source, ctx, span, KindView::SetClause, "set"@)
    } else if name == "trim"@ {
        let read = after_read(
            source,
            after_read(
                source,
                after_read(
                    source,
                    after_read(source, ctx, span, "prefix"@),
                    span,
                    "suffix"@,
                ),
                span,
                "prefixOverrides"@,
            ),
            span,
            "suffixOverrides"@,
        );
        wrapping(
            source,
            read,
            span,
            KindView::Trim {
                prefix: spaced_after(attr_or_empty(source, span, "prefix"@)),
                suffix: spaced_before(attr_or_empty(source, span, "suffix"@)),
                prefix_words: wrapper::overrides(attr_or_empty(source, span, "prefixOverrides"@)),
                suffix_words: wrapper::overrides(attr_or_empty(source, span, "suffixOverrides"@)),
            },
            "trim"@,
        )
    } else if name == "foreach"@ {
        descending(
            source,
            after_read(source, after_read(source, ctx, span, "open"@), span, "close"@),
            span,
            KindView::Foreach {
                open: attr_or_empty(source, span, "open"@),
                close: attr_or_empty(source, span, "close"@),
            },
        )
    } else if name == "dynamic"@ {
        descending(
            source,
            after_read(source, ctx, span, "prepend"@),
            span,
            KindView::Dynamic { prepend: attr_or_empty(source, span, "prepend"@) },
        )
    } else if name == "iterate"@ {
        let read = after_read(
            source,
            after_read(source, after_read(source, ctx, span, "open"@), span, "close"@),
            span,
            "property"@,
        );
        descending(
            source,
            with_path(read, attr_or_empty(source, span, "property"@), span),
            span,
            KindView::Iterate {
                open: attr_or_empty(source, span, "open"@),
                close: attr_or_empty(source, span, "close"@),
            },
        )
    } else if starts_with_is(name) {
        descending(
            source,
            after_read(source, after_condition(source, ctx, span), span, "prepend"@),
            span,
            KindView::Conditional {
                condition: condition_of(name, source, span),
                prepend: attr_opt(source, span, "prepend"@),
            },
        )
    } else {
        opened_other(source, ctx, name, span)
    }
}

/// What is to be walked inside a tag is what stands inside it.
pub proof fn lemma_opened(source: Seq<u8>, ctx: CtxView, name: Seq<char>, span: ByteSpan)
    ensures
        match opened(source, ctx, name, span).action {
            ActionView::Choose(inner) => inner == body::subtree(source, span).segments,
            ActionView::Descend { inner, .. } => inner == body::subtree(source, span).segments,
            _ => true,
        },
        opened(source, ctx, name, span).ctx.dialect == ctx.dialect,
{
    reveal(opened);
}

/// What opening a tag asks for.
pub enum Action {
    Skip,
    Add(Piece),
    Choose(Vec<BodySegment>),
    Descend { kind: PendingKind, restore: Option<bool>, inner: Vec<BodySegment> },
}

impl View for Action {
    type V = ActionView;

    open spec fn view(&self) -> ActionView {
        match self {
            Action::Skip => ActionView::Skip,
            Action::Add(piece) => ActionView::Add(piece@),
            Action::Choose(inner) => ActionView::Choose(model::deep(inner@)),
            Action::Descend { kind, restore, inner } => ActionView::Descend {
                kind: kind@,
                restore: *restore,
                inner: model::deep(inner@),
            },
        }
    }
}

/// Segments that a walk can work on.
pub open spec fn walkable(source: Seq<u8>, segments: Seq<SegmentView>) -> bool {
    body::segments_in(source, segments) && body::ordered(segments)
}

/// Segments inside a part of a source.
pub open spec fn segments_within(segments: Seq<SegmentView>, room: Room) -> bool {
    forall|k: int|
        0 <= k < segments.len() ==> in_room(body::segment_span(#[trigger] segments[k]), room)
}

/// Segments that a walk can work on, inside a part of the source.
pub open spec fn walkable_in(room: Room, segments: Seq<SegmentView>) -> bool {
    walkable(room.source, segments) && segments_within(segments, room)
}

/// What is to be walked lies inside the tag at `span`.
pub open spec fn action_inside(source: Seq<u8>, span: ByteSpan, action: ActionView) -> bool {
    match action {
        ActionView::Choose(inner) => walkable_in(room_of(source, span), inner),
        ActionView::Descend { inner, .. } => walkable_in(room_of(source, span), inner),
        _ => true,
    }
}

pub open spec fn action_ok(room: Room, action: ActionView) -> bool {
    match action {
        ActionView::Skip => true,
        ActionView::Add(piece) => sql::piece_ok(piece, room.source.len() as int),
        ActionView::Choose(inner) => walkable_in(room, inner),
        ActionView::Descend { inner, .. } => walkable_in(room, inner),
    }
}

/// Reads the body of the tag at `span` and records its diagnostics.
pub fn open_body(source: &str, span: ByteSpan, ctx: &mut Ctx) -> (inner: Vec<BodySegment>)
    requires
        attrs::fits(source.spec_bytes()),
        body::element_at(source.spec_bytes(), span),
        in_room(span, old(ctx).room@),
        ctx_ok(*old(ctx), source.spec_bytes()),
    ensures
        model::deep(inner@) == body::subtree(source.spec_bytes(), span).segments,
        walkable_in(old(ctx).room@, model::deep(inner@)),
        walkable_in(room_of(source.spec_bytes(), span), model::deep(inner@)),
        final(ctx)@ == noted(
            old(ctx)@,
            body::subtree(source.spec_bytes(), span).diagnostics,
        ),
        final(ctx).depth == old(ctx).depth,
        final(ctx).room == old(ctx).room,
        ctx_ok(*final(ctx), source.spec_bytes()),
{
    let captured = capture_subtree(source, span);
    note(ctx, captured.diagnostics, Ghost(source.spec_bytes()));
    captured.segments
}

/// Reads the condition of an iBatis conditional tag.
fn synthesize_condition(name: &str, source: &str, span: ByteSpan, ctx: &mut Ctx) -> (condition:
    String)
    requires
        attrs::fits(source.spec_bytes()),
        in_source(span, source.spec_bytes().len() as int),
        ctx_ok(*old(ctx), source.spec_bytes()),
    ensures
        condition@ == condition_of(name@, source.spec_bytes(), span),
        final(ctx)@ == after_condition(source.spec_bytes(), old(ctx)@, span),
        final(ctx).depth == old(ctx).depth,
        final(ctx).room == old(ctx).room,
        ctx_ok(*final(ctx), source.spec_bytes()),
{
    let property = read_attr(source, span, "property", ctx);
    let mut condition = concat3(name, "(", property.as_str());
    if let Some(value) = read_attr_opt(source, span, "compareValue", ctx) {
        push(&mut condition, ", '");
        push(&mut condition, value.as_str());
        push(&mut condition, "')");
    } else if let Some(other) = read_attr_opt(source, span, "compareProperty", ctx) {
        push(&mut condition, ", ");
        push(&mut condition, other.as_str());
        push(&mut condition, ")");
    } else {
        push(&mut condition, ")");
    }
    condition
}

fn open_trim(source: &str, span: ByteSpan, ctx: &mut Ctx) -> (action: Action)
    requires
        attrs::fits(source.spec_bytes()),
        body::element_at(source.spec_bytes(), span),
        in_room(span, old(ctx).room@),
        ctx_ok(*old(ctx), source.spec_bytes()),
    ensures
        action@ == opened(source.spec_bytes(), old(ctx)@, "trim"@, span).action,
        action_ok(old(ctx).room@, action@),
        action_inside(source.spec_bytes(), span, action@),
        final(ctx)@ == opened(source.spec_bytes(), old(ctx)@, "trim"@, span).ctx,
        final(ctx).depth == old(ctx).depth,
        final(ctx).room == old(ctx).room,
        ctx_ok(*final(ctx), source.spec_bytes()),
{
    let ghost bytes = source.spec_bytes();
    let prefix = read_attr(source, span, "prefix", ctx);
    let suffix = read_attr(source, span, "suffix", ctx);
    let prefix_words = split_overrides(
        read_attr(source, span, "prefixOverrides", ctx).as_str(),
    );
    let suffix_words = split_overrides(
        read_attr(source, span, "suffixOverrides", ctx).as_str(),
    );
    let prefix = if prefix.as_str().is_empty() {
        prefix
    } else {
        concat(prefix.as_str(), " ")
    };
    let suffix = if suffix.as_str().is_empty() {
        suffix
    } else {
        concat(" ", suffix.as_str())
    };
    let inner = open_body(source, span, ctx);
    check_include_at_wrapper_boundary("trim", &inner, ctx, Ghost(bytes));
    proof {
        lemma_names();
        reveal(opened);
    }
    Action::Descend {
        kind: PendingKind::Trim { prefix, suffix, prefix_words, suffix_words },
        restore: None,
        inner,
    }
}

/// The names of the tags differ.
proof fn lemma_names()
    ensures
        "trim"@ != "include"@,
        "trim"@ != "bind"@,
        "trim"@ != "choose"@,
        "trim"@ != "if"@,
        "trim"@ != "where"@,
        "trim"@ != "set"@,
{
    reveal_strlit("include");
    reveal_strlit("bind");
    reveal_strlit("choose");
    reveal_strlit("if");
    reveal_strlit("where");
    reveal_strlit("set");
    reveal_strlit("trim");
    assert("trim"@[0] == 't');
    assert("bind"@[0] == 'b');
}

fn open_other(source: &str, name: &str, span: ByteSpan, ctx: &mut Ctx) -> (action: Action)
    requires
        attrs::fits(source.spec_bytes()),
        body::element_at(source.spec_bytes(), span),
        in_room(span, old(ctx).room@),
        ctx_ok(*old(ctx), source.spec_bytes()),
    ensures
        action@ == opened_other(source.spec_bytes(), old(ctx)@, name@, span).action,
        action_ok(old(ctx).room@, action@),
        action_inside(source.spec_bytes(), span, action@),
        final(ctx)@ == opened_other(source.spec_bytes(), old(ctx)@, name@, span).ctx,
        final(ctx).depth == old(ctx).depth,
        final(ctx).room == old(ctx).room,
        ctx_ok(*final(ctx), source.spec_bytes()),
{
    let ghost len = source.spec_bytes().len() as int;
    let unknown = !is_known_ignorable_element(name);
    let was_inside = ctx.inside_unknown_element;
    if unknown && !was_inside {
        let message = concat3(
            "unrecognized element <",
            name,
            "> in dynamic position -- not a known MyBatis/iBatis dynamic tag, and not one of this crate's known-ignorable elements; its content is still folded in transparently (possible typo?)",
        );
        note_one(ctx, diagnostic(DiagCode::UnknownElement, Some(span), message), Ghost(source.spec_bytes()));
    }
    if unknown {
        ctx.inside_unknown_element = true;
    }
    let inner = open_body(source, span, ctx);
    Action::Descend { kind: PendingKind::Identity, restore: Some(was_inside), inner }
}

/// Opens the tag `name` at `span`.
#[verifier::rlimit(40)]
pub fn open_tag(source: &str, name: &str, span: ByteSpan, ctx: &mut Ctx) -> (action: Action)
    requires
        attrs::fits(source.spec_bytes()),
        body::element_at(source.spec_bytes(), span),
        in_room(span, old(ctx).room@),
        ctx_ok(*old(ctx), source.spec_bytes()),
    ensures
        action@ == opened(source.spec_bytes(), old(ctx)@, name@, span).action,
        action_ok(old(ctx).room@, action@),
        action_inside(source.spec_bytes(), span, action@),
        final(ctx)@ == opened(source.spec_bytes(), old(ctx)@, name@, span).ctx,
        final(ctx).depth == old(ctx).depth,
        final(ctx).room == old(ctx).room,
        ctx_ok(*final(ctx), source.spec_bytes()),
{
    let ghost bytes = source.spec_bytes();
    let ghost len = bytes.len() as int;
    proof {
        reveal(opened);
    }
    if str_eq(name, "include") {
        return Action::Add(record_include(source, span, ctx));
    }
    if str_eq(name, "bind") {
        let value = read_attr(source, span, "value", ctx);
        add_path(ctx, value, span, Ghost(bytes));
        return Action::Skip;
    }
    if str_eq(name, "choose") {
        return Action::Choose(open_body(source, span, ctx));
    }
    if str_eq(name, "if") {
        let test_value = read_attr(source, span, "test", ctx);
        let inner = open_body(source, span, ctx);
        return Action::Descend { kind: PendingKind::If { test_value }, restore: None, inner };
    }
    if str_eq(name, "where") {
        let inner = open_body(source, span, ctx);
        check_include_at_wrapper_boundary("where", &inner, ctx, Ghost(bytes));
        return Action::Descend { kind: PendingKind::WhereClause, restore: None, inner };
    }
    if str_eq(name, "set") {
        let inner = open_body(source, span, ctx);
        check_include_at_wrapper_boundary("set", &inner, ctx, Ghost(bytes));
        return Action::Descend { kind: PendingKind::SetClause, restore: None, inner };
    }
    if str_eq(name, "trim") {
        return open_trim(source, span, ctx);
    }
    if str_eq(name, "foreach") {
        let open = read_attr(source, span, "open", ctx);
        let close = read_attr(source, span, "close", ctx);
        let inner = open_body(source, span, ctx);
        return Action::Descend {
            kind: PendingKind::Foreach { open, close },
            restore: None,
            inner,
        };
    }
    if str_eq(name, "dynamic") {
        let prepend = read_attr(source, span, "prepend", ctx);
        let inner = open_body(source, span, ctx);
        return Action::Descend { kind: PendingKind::Dynamic { prepend }, restore: None, inner };
    }
    if str_eq(name, "iterate") {
        let open = read_attr(source, span, "open", ctx);
        let close = read_attr(source, span, "close", ctx);
        let property = read_attr(source, span, "property", ctx);
        add_path(ctx, property, span, Ghost(bytes));
        let inner = open_body(source, span, ctx);
        return Action::Descend {
            kind: PendingKind::Iterate { open, close },
            restore: None,
            inner,
        };
    }
    if text::occurs(name.as_bytes(), "is".as_bytes(), 0) {
        let condition = synthesize_condition(name, source, span, ctx);
        let prepend = read_attr_opt(source, span, "prepend", ctx);
        let inner = open_body(source, span, ctx);
        return Action::Descend {
            kind: PendingKind::Conditional { condition, prepend },
            restore: None,
            inner,
        };
    }
    open_other(source, name, span, ctx)
}

} // verus!
