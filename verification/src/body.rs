//! Element bodies: the walk over the tokens of a statement, fragment or
//! dynamic tag that collects its text and its child tags.
use crate::attrs;
use crate::attrs::{diagnostic, span_of};
use crate::model;
use crate::model::{ByteSpan, DiagCode, Diagnostic, DiagnosticView};
use crate::text;
use crate::text::{concat, concat3, slice};
use crate::xml;
use crate::xml::{tokenize, EventView, TokenView, XmlEvent, XmlToken};
use vstd::prelude::*;
use vstd::string::*;
use vstd::utf8::*;

verus! {

pub const AMPERSAND: u8 = 0x26;

/// A run of text: its resolved value, and the source bytes it was read from.
#[derive(Debug, Clone, PartialEq)]
pub struct TextSegment {
    pub decoded: String,
    pub raw_span: ByteSpan,
}

/// One piece of a body, in document order. A child element is kept as a marker
/// with its whole extent.
#[derive(Debug, Clone, PartialEq)]
pub enum BodySegment {
    Text(TextSegment),
    DynamicTag { name: String, span: ByteSpan },
}

pub enum SegmentView {
    Text { decoded: Seq<u8>, span: ByteSpan },
    Tag { name: Seq<char>, span: ByteSpan },
}

impl View for BodySegment {
    type V = SegmentView;

    open spec fn view(&self) -> SegmentView {
        match self {
            BodySegment::Text(segment) => SegmentView::Text {
                decoded: encode_utf8(segment.decoded@),
                span: segment.raw_span,
            },
            BodySegment::DynamicTag { name, span } => SegmentView::Tag { name: name@, span: *span },
        }
    }
}

// ---- diagnostics --------------------------------------------------------

pub open spec fn unclosed(start: int, end: int, message: Seq<char>) -> DiagnosticView {
    DiagnosticView {
        code: DiagCode::UnclosedTag,
        span: Some(attrs::byte_span(start, end)),
        message,
    }
}

/// An `UnclosedTag` diagnostic for `[start, end)`.
pub fn unclosed_tag(start: usize, end: usize, message: String) -> (d: Diagnostic)
    ensures
        d@ == unclosed(start as int, end as int, message@),
{
    diagnostic(DiagCode::UnclosedTag, Some(span_of(start, end)), message)
}

/// Markup that the reader skipped: a closing tag out of place is ignored,
/// anything else malformed is stepped over.
pub open spec fn recovery(orphan_close: bool, message: Seq<char>, position: u64) -> DiagnosticView {
    unclosed(
        position as int,
        position as int,
        if orphan_close {
            "orphan or mismatched closing tag ignored: "@ + message
        } else {
            "malformed markup skipped, resynchronizing: "@ + message
        },
    )
}

pub fn recovery_diagnostic(orphan_close: bool, message: &str, position: u64) -> (d: Diagnostic)
    requires
        position <= usize::MAX,
    ensures
        d@ == recovery(orphan_close, message@, position),
{
    let text = if orphan_close {
        concat("orphan or mismatched closing tag ignored: ", message)
    } else {
        concat("malformed markup skipped, resynchronizing: ", message)
    };
    unclosed_tag(position as usize, position as usize, text)
}

/// What a run of text that starts at `start` is diagnosed with: a lone `&` at
/// its front is no entity reference.
pub open spec fn dangling_amp(decoded: Seq<u8>, start: int) -> Seq<DiagnosticView> {
    if decoded.len() > 0 && decoded[0] == AMPERSAND {
        seq![
            DiagnosticView {
                code: DiagCode::InvalidEntity,
                span: Some(attrs::byte_span(start, start + 1)),
                message: "dangling '&' without a terminating ';' is not a well-formed entity reference; kept as literal text"@,
            },
        ]
    } else {
        Seq::empty()
    }
}

/// Appends the diagnostic of a text that starts with a lone `&`, if it does.
pub fn dangling_amp_diagnostic(
    decoded: &str,
    start: usize,
    diagnostics: &mut Vec<Diagnostic>,
)
    requires
        start < usize::MAX,
    ensures
        model::deep(final(diagnostics)@) == model::deep(old(diagnostics)@) + dangling_amp(
            decoded.spec_bytes(),
            start as int,
        ),
{
    broadcast use model::group_deep;

    let bytes = decoded.as_bytes();
    if bytes.len() > 0 && bytes[0] == AMPERSAND {
        let d = diagnostic(
            DiagCode::InvalidEntity,
            Some(span_of(start, start + 1)),
            "dangling '&' without a terminating ';' is not a well-formed entity reference; kept as literal text".to_owned(),
        );
        diagnostics.push(d);
    }
    assert(model::deep(diagnostics@) =~= model::deep(old(diagnostics)@) + dangling_amp(
        decoded.spec_bytes(),
        start as int,
    ));
}

// ---- references ---------------------------------------------------------

/// The text with its entity and character references resolved, or the message
/// of the first that cannot be.
pub uninterp spec fn unescaped(raw: Seq<char>) -> Result<Seq<char>, Seq<char>>;

/// `quick_xml::escape::unescape`.
///
/// Resolved text is shorter than the raw text, for every reference is longer
/// than what it stands for, unless there was no reference in it.
#[verifier::external_body]
fn unescape(raw: &str) -> (r: Result<String, String>)
    ensures
        match r {
            Ok(resolved) => unescaped(raw@) == Ok::<Seq<char>, Seq<char>>(resolved@) && (resolved@
                == raw@ || encode_utf8(resolved@).len() < encode_utf8(raw@).len()),
            Err(message) => unescaped(raw@) == Err::<Seq<char>, Seq<char>>(message@),
        },
{
    match quick_xml::escape::unescape(raw) {
        Ok(resolved) => Ok(resolved.into_owned()),
        Err(error) => Err(format!("{error}")),
    }
}

/// What a reference comes to that is resolved to `resolved`: where that failed,
/// its raw text is kept.
pub open spec fn settled_value(raw: Seq<u8>, resolved: Result<Seq<char>, Seq<char>>) -> Seq<u8> {
    match resolved {
        Ok(value) => encode_utf8(value),
        Err(_) => raw,
    }
}

pub open spec fn settled_diagnostics(
    span: ByteSpan,
    resolved: Result<Seq<char>, Seq<char>>,
) -> Seq<DiagnosticView> {
    match resolved {
        Ok(_) => Seq::empty(),
        Err(message) => seq![
            DiagnosticView {
                code: DiagCode::InvalidEntity,
                span: Some(span),
                message: "unresolvable entity reference: "@ + message,
            },
        ],
    }
}

/// The value of the reference `raw`.
pub open spec fn reference_value(raw: Seq<u8>) -> Seq<u8> {
    settled_value(raw, unescaped(decode_utf8(raw)))
}

/// What the reference `raw` at `span` is diagnosed with.
pub open spec fn reference_diagnostics(raw: Seq<u8>, span: ByteSpan) -> Seq<DiagnosticView> {
    settled_diagnostics(span, unescaped(decode_utf8(raw)))
}

pub open spec fn outcome(resolved: Result<String, String>) -> Result<Seq<char>, Seq<char>> {
    match resolved {
        Ok(value) => Ok(value@),
        Err(message) => Err(message@),
    }
}

/// Takes a reference as it was resolved; where that failed, its text is kept
/// and a diagnostic appended.
pub fn settle_reference(
    raw_text: &str,
    raw_span: ByteSpan,
    resolved: Result<String, String>,
    diagnostics: &mut Vec<Diagnostic>,
) -> (decoded: String)
    ensures
        encode_utf8(decoded@) == settled_value(raw_text.spec_bytes(), outcome(resolved)),
        model::deep(final(diagnostics)@) == model::deep(old(diagnostics)@) + settled_diagnostics(
            raw_span,
            outcome(resolved),
        ),
        decoded@ == match resolved {
            Ok(value) => value@,
            Err(_) => raw_text@,
        },
{
    broadcast use model::group_deep;

    let ghost before = model::deep(diagnostics@);
    match resolved {
        Ok(value) => {
            assert(model::deep(diagnostics@) =~= before + settled_diagnostics(
                raw_span,
                outcome(resolved),
            ));
            value
        },
        Err(message) => {
            let text = concat("unresolvable entity reference: ", message.as_str());
            diagnostics.push(diagnostic(DiagCode::InvalidEntity, Some(raw_span), text));
            assert(model::deep(diagnostics@) =~= before + settled_diagnostics(
                raw_span,
                outcome(resolved),
            ));
            raw_text.to_owned()
        },
    }
}

/// Resolves one reference.
pub fn resolve_general_ref(
    raw_text: &str,
    raw_span: ByteSpan,
    diagnostics: &mut Vec<Diagnostic>,
) -> (decoded: String)
    ensures
        encode_utf8(decoded@) == reference_value(raw_text.spec_bytes()),
        model::deep(final(diagnostics)@) == model::deep(old(diagnostics)@)
            + reference_diagnostics(raw_text.spec_bytes(), raw_span),
        decoded@ == raw_text@ || encode_utf8(decoded@).len() < raw_text.spec_bytes().len(),
{
    proof {
        encode_utf8_decode_utf8(raw_text@);
    }
    let resolved = unescape(raw_text);
    settle_reference(raw_text, raw_span, resolved, diagnostics)
}

// ---- skipping a subtree -------------------------------------------------

pub enum SkipEnd {
    /// The matching end tag was found.
    Closed,
    /// The document ended first.
    Eof,
    /// The reader reported the same place twice in a row, with this message.
    Stuck(Seq<char>),
}

pub struct Skip {
    pub end: SkipEnd,
    pub diagnostics: Seq<DiagnosticView>,
    pub next: int,
}

/// Passes over the tokens from `pos` up to the end tag that closes `depth`
/// open elements.
pub open spec fn skip_from(
    tokens: Seq<TokenView>,
    pos: int,
    depth: int,
    last_error: Option<u64>,
) -> Skip
    decreases tokens.len() - pos,
{
    if pos >= tokens.len() {
        Skip { end: SkipEnd::Eof, diagnostics: Seq::empty(), next: pos }
    } else {
        match tokens[pos].event {
            EventView::Start(_) => skip_from(tokens, pos + 1, depth + 1, last_error),
            EventView::End => if depth <= 1 {
                Skip { end: SkipEnd::Closed, diagnostics: Seq::empty(), next: pos + 1 }
            } else {
                skip_from(tokens, pos + 1, depth - 1, last_error)
            },
            EventView::Malformed { orphan_close, message, position } => if last_error == Some(
                position,
            ) {
                Skip { end: SkipEnd::Stuck(message), diagnostics: Seq::empty(), next: pos + 1 }
            } else {
                let rest = skip_from(tokens, pos + 1, depth, Some(position));
                Skip {
                    end: rest.end,
                    diagnostics: seq![recovery(orphan_close, message, position)]
                        + rest.diagnostics,
                    next: rest.next,
                }
            },
            _ => skip_from(tokens, pos + 1, depth, last_error),
        }
    }
}

/// Every span of the list lies in a source of length `len`.
pub open spec fn spans_in(diagnostics: Seq<DiagnosticView>, len: int) -> bool {
    forall|k: int|
        0 <= k < diagnostics.len() ==> span_in((#[trigger] diagnostics[k]).span, len)
}

/// A span, if there is one, that lies in a source of length `len`.
pub open spec fn span_in(span: Option<ByteSpan>, len: int) -> bool {
    match span {
        Some(span) => span.start <= span.end <= len,
        None => true,
    }
}

pub proof fn lemma_skip(
    source: Seq<u8>,
    tokens: Seq<TokenView>,
    pos: int,
    depth: int,
    last_error: Option<u64>,
)
    requires
        attrs::fits(source),
        xml::well_placed(source, tokens),
        0 <= pos <= tokens.len(),
    ensures
        pos <= skip_from(tokens, pos, depth, last_error).next <= tokens.len(),
        skip_from(tokens, pos, depth, last_error).end !is Eof ==> pos < skip_from(
            tokens,
            pos,
            depth,
            last_error,
        ).next,
        spans_in(
            skip_from(tokens, pos, depth, last_error).diagnostics,
            source.len() as int,
        ),
    decreases tokens.len() - pos,
{
    if pos < tokens.len() {
        assert(xml::placed(source, xml::token_start(tokens, pos), tokens[pos]));
        match tokens[pos].event {
            EventView::Start(_) => lemma_skip(source, tokens, pos + 1, depth + 1, last_error),
            EventView::End => if depth > 1 {
                lemma_skip(source, tokens, pos + 1, depth - 1, last_error);
            },
            EventView::Malformed { orphan_close, message, position } => {
                lemma_skip(source, tokens, pos + 1, depth, Some(position));
            },
            _ => lemma_skip(source, tokens, pos + 1, depth, last_error),
        }
    }
}

/// How a skip ended.
pub enum SkipOutcome {
    Closed,
    Eof,
    Stuck(String),
}

impl View for SkipOutcome {
    type V = SkipEnd;

    open spec fn view(&self) -> SkipEnd {
        match self {
            SkipOutcome::Closed => SkipEnd::Closed,
            SkipOutcome::Eof => SkipEnd::Eof,
            SkipOutcome::Stuck(message) => SkipEnd::Stuck(message@),
        }
    }
}

/// Consumes the tokens from `from` up to the end tag that matches the start tag
/// just before `from`. Returns how that went and the next token.
pub fn skip_subtree(
    tokens: &Vec<XmlToken>,
    from: usize,
    diagnostics: &mut Vec<Diagnostic>,
) -> (r: (SkipOutcome, usize))
    requires
        0 < from <= tokens@.len(),
        forall|i: int|
            0 <= i < tokens@.len() ==> ((#[trigger] tokens@[i]).event matches XmlEvent::Malformed {
                position,
                ..
            } ==> position <= usize::MAX),
    ensures
        ({
            let skip = skip_from(model::deep(tokens@), from as int, 1, None);
            &&& r.0@ == skip.end
            &&& r.1 == skip.next
            &&& from <= r.1 <= tokens@.len()
            &&& model::deep(final(diagnostics)@) == model::deep(old(diagnostics)@)
                + skip.diagnostics
        }),
{
    broadcast use model::group_deep;

    let ghost views = model::deep(tokens@);
    let ghost whole = skip_from(views, from as int, 1, None);
    let ghost start = model::deep(diagnostics@);
    let mut depth: usize = 1;
    let mut last_error: Option<u64> = None;
    let mut pos = from;
    assert(start + whole.diagnostics == model::deep(diagnostics@) + whole.diagnostics);
    while pos < tokens.len()
        invariant
            0 < from <= pos <= tokens@.len(),
            1 <= depth <= pos - from + 1,
            views == model::deep(tokens@),
            forall|i: int|
                0 <= i < tokens@.len() ==> ((
                #[trigger] tokens@[i]).event matches XmlEvent::Malformed { position, .. }
                    ==> position <= usize::MAX),
            ({
                let rest = skip_from(views, pos as int, depth as int, last_error);
                &&& whole.end == rest.end
                &&& whole.next == rest.next
                &&& start + whole.diagnostics == model::deep(diagnostics@) + rest.diagnostics
            }),
            start == model::deep(old(diagnostics)@),
            whole == skip_from(views, from as int, 1, None),
        decreases tokens@.len() - pos,
    {
        assert(views[pos as int] == tokens@[pos as int]@);
        match &tokens[pos].event {
            XmlEvent::Start(_) => {
                depth += 1;
            },
            XmlEvent::End => {
                if depth == 1 {
                    assert(model::deep(diagnostics@) =~= start + whole.diagnostics);
                    return (SkipOutcome::Closed, pos + 1);
                }
                depth -= 1;
            },
            XmlEvent::Malformed { orphan_close, message, position } => {
                if last_error.is_some() && last_error.unwrap() == *position {
                    assert(model::deep(diagnostics@) =~= start + whole.diagnostics);
                    return (SkipOutcome::Stuck(message.clone()), pos + 1);
                }
                let ghost done = model::deep(diagnostics@);
                diagnostics.push(recovery_diagnostic(*orphan_close, message.as_str(), *position));
                last_error = Some(*position);
                assert(start + whole.diagnostics =~= model::deep(diagnostics@) + skip_from(
                    views,
                    pos + 1,
                    depth as int,
                    last_error,
                ).diagnostics);
            },
            _ => {},
        }
        pos += 1;
    }
    assert(model::deep(diagnostics@) =~= start + whole.diagnostics);
    (SkipOutcome::Eof, pos)
}

// ---- capturing a body ---------------------------------------------------

/// What the walk over a body gives.
pub struct Capture {
    pub segments: Seq<SegmentView>,
    pub diagnostics: Seq<DiagnosticView>,
    /// The document ended, or the reader got stuck, before the end tag.
    pub truncated: bool,
    /// The token after the body.
    pub next: int,
}

/// `rest`, with these segments and diagnostics in front.
pub open spec fn prepend(
    segments: Seq<SegmentView>,
    diagnostics: Seq<DiagnosticView>,
    rest: Capture,
) -> Capture {
    Capture {
        segments: segments + rest.segments,
        diagnostics: diagnostics + rest.diagnostics,
        truncated: rest.truncated,
        next: rest.next,
    }
}

/// What one token of a body contributes, and how the walk goes on.
pub enum Effect {
    Go {
        segments: Seq<SegmentView>,
        diagnostics: Seq<DiagnosticView>,
        last_error: Option<u64>,
        next: int,
    },
    /// The walk is over, with these diagnostics.
    Stop { diagnostics: Seq<DiagnosticView>, truncated: bool, next: int },
}

/// The effect of the token at `pos` on the walk over a body.
pub open spec fn token_effect(
    source: Seq<u8>,
    tokens: Seq<TokenView>,
    pos: int,
    last_error: Option<u64>,
) -> Effect {
    let len = source.len() as int;
    let start = xml::token_start(tokens, pos);
    let end = tokens[pos].end as int;
    let span = attrs::byte_span(start, end);
    match tokens[pos].event {
        EventView::End => Effect::Stop {
            diagnostics: Seq::empty(),
            truncated: false,
            next: pos + 1,
        },
        EventView::Malformed { orphan_close, message, position } => if last_error == Some(
            position,
        ) {
            Effect::Stop {
                diagnostics: seq![
                    unclosed(
                        position as int,
                        len,
                        "XML parse error in statement body (unrecoverable): "@ + message,
                    ),
                ],
                truncated: true,
                next: pos + 1,
            }
        } else {
            Effect::Go {
                segments: Seq::empty(),
                diagnostics: seq![recovery(orphan_close, message, position)],
                last_error: Some(position),
                next: pos + 1,
            }
        },
        EventView::Text => {
            let decoded = source.subrange(start, end);
            Effect::Go {
                segments: seq![SegmentView::Text { decoded, span }],
                diagnostics: dangling_amp(decoded, start),
                last_error,
                next: pos + 1,
            }
        },
        EventView::Reference => {
            let raw = source.subrange(start, end);
            Effect::Go {
                segments: seq![SegmentView::Text { decoded: reference_value(raw), span }],
                diagnostics: reference_diagnostics(raw, span),
                last_error,
                next: pos + 1,
            }
        },
        EventView::CData => Effect::Go {
            segments: seq![
                SegmentView::Text {
                    decoded: source.subrange(start + 9, end - 3),
                    span: attrs::byte_span(start + 9, end - 3),
                },
            ],
            diagnostics: Seq::empty(),
            last_error,
            next: pos + 1,
        },
        EventView::Start(name) => {
            let skip = skip_from(tokens, pos + 1, 1, None);
            match skip.end {
                SkipEnd::Closed => Effect::Go {
                    segments: seq![
                        SegmentView::Tag {
                            name,
                            span: attrs::byte_span(start, xml::token_start(tokens, skip.next)),
                        },
                    ],
                    diagnostics: skip.diagnostics,
                    last_error,
                    next: skip.next,
                },
                SkipEnd::Eof => Effect::Stop {
                    diagnostics: skip.diagnostics.push(
                        unclosed(start, len, "<"@ + name + "> was never closed"@),
                    ),
                    truncated: true,
                    next: skip.next,
                },
                SkipEnd::Stuck(message) => Effect::Stop {
                    diagnostics: skip.diagnostics.push(
                        unclosed(
                            start,
                            len,
                            "XML parse error while skipping <"@ + name + ">: "@ + message,
                        ),
                    ),
                    truncated: true,
                    next: skip.next,
                },
            }
        },
        EventView::Empty(name) => Effect::Go {
            segments: seq![SegmentView::Tag { name, span }],
            diagnostics: Seq::empty(),
            last_error,
            next: pos + 1,
        },
        _ => Effect::Go {
            segments: Seq::empty(),
            diagnostics: Seq::empty(),
            last_error,
            next: pos + 1,
        },
    }
}

/// Walks the body of the element that starts at `tag_start` from the token at
/// `pos` on, up to its end tag.
pub open spec fn capture_from(
    source: Seq<u8>,
    tokens: Seq<TokenView>,
    pos: int,
    tag_start: int,
    last_error: Option<u64>,
) -> Capture
    decreases tokens.len() - pos,
{
    if pos >= tokens.len() {
        Capture {
            segments: Seq::empty(),
            diagnostics: seq![
                unclosed(tag_start, source.len() as int, "statement body was never closed"@),
            ],
            truncated: true,
            next: pos,
        }
    } else {
        match token_effect(source, tokens, pos, last_error) {
            Effect::Stop { diagnostics, truncated, next } => Capture {
                segments: Seq::empty(),
                diagnostics,
                truncated,
                next,
            },
            Effect::Go { segments, diagnostics, last_error, next } => if pos < next
                <= tokens.len() {
                prepend(
                    segments,
                    diagnostics,
                    capture_from(source, tokens, next, tag_start, last_error),
                )
            } else {
                arbitrary()
            },
        }
    }
}

/// A segment that lies in `source`, between two cuts; a tag starts with `<`.
pub open spec fn segment_in(source: Seq<u8>, segment: SegmentView) -> bool {
    let span = match segment {
        SegmentView::Text { decoded, span } => span,
        SegmentView::Tag { name, span } => span,
    };
    &&& span.start <= span.end <= source.len()
    &&& text::is_cut(source, span.start as int)
    &&& text::is_cut(source, span.end as int)
    &&& match segment {
        SegmentView::Text { decoded, span } => {
            &&& valid_utf8(decoded)
            &&& decoded.len() <= span.end - span.start
            // A text whose length is that of its source bytes is those bytes.
            &&& decoded.len() == span.end - span.start ==> decoded == source.subrange(
                span.start as int,
                span.end as int,
            )
        },
        SegmentView::Tag { name, span } => span.start + encode_utf8(name).len() + 2 <= span.end
            && source[span.start as int] == attrs::LESS_THAN,
    }
}

/// A token's effect keeps the walk among the tokens, and its diagnostics lie in
/// the source.
pub proof fn lemma_effect(
    source: Seq<u8>,
    tokens: Seq<TokenView>,
    pos: int,
    last_error: Option<u64>,
)
    requires
        attrs::fits(source),
        xml::well_placed(source, tokens),
        0 <= pos < tokens.len(),
    ensures
        match token_effect(source, tokens, pos, last_error) {
            Effect::Stop { diagnostics, next, .. } => pos < next <= tokens.len() && spans_in(
                diagnostics,
                source.len() as int,
            ),
            Effect::Go { diagnostics, next, .. } => pos < next <= tokens.len() && spans_in(
                diagnostics,
                source.len() as int,
            ),
        },
{
    assert(xml::placed(source, xml::token_start(tokens, pos), tokens[pos]));
    lemma_skip(source, tokens, pos + 1, 1, None);
}

/// The walk stays among the tokens, and its diagnostics in the source.
pub proof fn lemma_capture(
    source: Seq<u8>,
    tokens: Seq<TokenView>,
    pos: int,
    tag_start: int,
    last_error: Option<u64>,
)
    requires
        attrs::fits(source),
        xml::well_placed(source, tokens),
        0 <= pos <= tokens.len(),
        0 <= tag_start <= source.len(),
    ensures
        pos <= capture_from(source, tokens, pos, tag_start, last_error).next <= tokens.len(),
        spans_in(
            capture_from(source, tokens, pos, tag_start, last_error).diagnostics,
            source.len() as int,
        ),
    decreases tokens.len() - pos,
{
    if pos < tokens.len() {
        lemma_effect(source, tokens, pos, last_error);
        match token_effect(source, tokens, pos, last_error) {
            Effect::Stop { .. } => {},
            Effect::Go { last_error, next, .. } => {
                lemma_capture(source, tokens, next, tag_start, last_error);
            },
        }
    }
}

/// The span of a segment.
pub open spec fn segment_span(segment: SegmentView) -> ByteSpan {
    match segment {
        SegmentView::Text { decoded, span } => span,
        SegmentView::Tag { name, span } => span,
    }
}

/// Segments in document order, none overlapping the next.
pub open spec fn ordered(segments: Seq<SegmentView>) -> bool {
    forall|i: int, j: int|
        0 <= i < j < segments.len() ==> segment_span(#[trigger] segments[i]).end
            <= segment_span(#[trigger] segments[j]).start
}

/// Segments between two offsets.
#[verifier::opaque]
pub open spec fn lie_between(segments: Seq<SegmentView>, from: int, to: int) -> bool {
    forall|k: int|
        0 <= k < segments.len() ==> from <= segment_span(#[trigger] segments[k]).start
            && segment_span(segments[k]).end <= to
}

/// The segments of a body come in document order, up to the end of the body.
pub proof fn lemma_capture_ordered(
    source: Seq<u8>,
    tokens: Seq<TokenView>,
    pos: int,
    tag_start: int,
    last_error: Option<u64>,
)
    requires
        attrs::fits(source),
        xml::well_placed(source, tokens),
        0 <= pos <= tokens.len(),
    ensures
        ordered(capture_from(source, tokens, pos, tag_start, last_error).segments),
        lie_between(
            capture_from(source, tokens, pos, tag_start, last_error).segments,
            xml::token_start(tokens, pos),
            xml::token_start(
                tokens,
                capture_from(source, tokens, pos, tag_start, last_error).next,
            ),
        ),
        pos <= capture_from(source, tokens, pos, tag_start, last_error).next <= tokens.len(),
    decreases tokens.len() - pos,
{
    reveal(lie_between);
    if pos < tokens.len() {
        lemma_effect(source, tokens, pos, last_error);
        assert(xml::placed(source, xml::token_start(tokens, pos), tokens[pos]));
        match token_effect(source, tokens, pos, last_error) {
            Effect::Stop { .. } => {},
            Effect::Go { segments, last_error, next, .. } => {
                lemma_capture_ordered(source, tokens, next, tag_start, last_error);
                lemma_token_starts(source, tokens, pos, next);
                lemma_token_starts(source, tokens, pos + 1, next);
                lemma_token_starts(
                    source,
                    tokens,
                    next,
                    capture_from(source, tokens, next, tag_start, last_error).next,
                );
                assert(xml::placed(source, xml::token_start(tokens, next - 1), tokens[next - 1]));
                assert(segments.len() <= 1);
                if segments.len() == 1 {
                    assert(segment_span(segments[0]).end <= xml::token_start(tokens, next));
                    assert(xml::token_start(tokens, pos) <= segment_span(segments[0]).start);
                }
            },
        }
    }
}

pub open spec fn segments_in(source: Seq<u8>, segments: Seq<SegmentView>) -> bool {
    forall|k: int| 0 <= k < segments.len() ==> segment_in(source, #[trigger] segments[k])
}

/// What [`capture_body`] returns.
pub struct Captured {
    pub segments: Vec<BodySegment>,
    pub diagnostics: Vec<Diagnostic>,
    pub truncated: bool,
    pub next: usize,
}

impl View for Captured {
    type V = Capture;

    open spec fn view(&self) -> Capture {
        Capture {
            segments: model::deep(self.segments@),
            diagnostics: model::deep(self.diagnostics@),
            truncated: self.truncated,
            next: self.next as int,
        }
    }
}

/// The tokens of a source, in their executable form.
pub open spec fn tokens_of(source: Seq<u8>, tokens: Seq<XmlToken>) -> bool {
    &&& attrs::fits(source)
    &&& xml::well_placed(source, model::deep(tokens))
}

/// The position of the token at `i`, which is the end of the one before.
pub fn token_begin(tokens: &Vec<XmlToken>, i: usize) -> (start: usize)
    requires
        i <= tokens@.len(),
    ensures
        start == xml::token_start(model::deep(tokens@), i as int),
{
    if i == 0 {
        0
    } else {
        tokens[i - 1].end
    }
}

/// Each token lies in the source and ends at a cut.
pub proof fn lemma_token(source: Seq<u8>, tokens: Seq<XmlToken>, i: int)
    requires
        valid_utf8(source),
        tokens_of(source, tokens),
        0 <= i < tokens.len(),
    ensures
        model::deep(tokens)[i] == tokens[i]@,
        xml::placed(source, xml::token_start(model::deep(tokens), i), tokens[i]@),
        text::is_cut(source, xml::token_start(model::deep(tokens), i)),
        0 <= xml::token_start(model::deep(tokens), i),
{
    let views = model::deep(tokens);
    assert(xml::placed(source, xml::token_start(views, i), views[i]));
    text::lemma_cut_is_boundary(source, 0);
    if i > 0 {
        assert(xml::placed(source, xml::token_start(views, i - 1), views[i - 1]));
    }
}

proof fn lemma_prepend(
    a: Seq<SegmentView>,
    b: Seq<DiagnosticView>,
    segments: Seq<SegmentView>,
    diagnostics: Seq<DiagnosticView>,
    rest: Capture,
)
    ensures
        prepend(a, b, prepend(segments, diagnostics, rest)) == prepend(
            a + segments,
            b + diagnostics,
            rest,
        ),
{
    assert(a + (segments + rest.segments) =~= (a + segments) + rest.segments);
    assert(b + (diagnostics + rest.diagnostics) =~= (b + diagnostics) + rest.diagnostics);
}

/// The text between `start` and `end` as a segment.
fn plain_segment(source: &str, start: usize, end: usize) -> (segment: BodySegment)
    requires
        attrs::fits(source.spec_bytes()),
        start <= end,
        text::is_cut(source.spec_bytes(), start as int),
        text::is_cut(source.spec_bytes(), end as int),
    ensures
        segment@ == (SegmentView::Text {
            decoded: source.spec_bytes().subrange(start as int, end as int),
            span: attrs::byte_span(start as int, end as int),
        }),
        segment_in(source.spec_bytes(), segment@),
{
    let decoded = slice(source, start, end);
    proof {
        encode_utf8_valid_utf8(decoded@);
    }
    BodySegment::Text(
        TextSegment { decoded: decoded.to_owned(), raw_span: span_of(start, end) },
    )
}

/// The reference between `start` and `end` as a segment.
fn reference_segment(
    source: &str,
    start: usize,
    end: usize,
    diagnostics: &mut Vec<Diagnostic>,
) -> (segment: BodySegment)
    requires
        attrs::fits(source.spec_bytes()),
        start <= end,
        text::is_cut(source.spec_bytes(), start as int),
        text::is_cut(source.spec_bytes(), end as int),
    ensures
        ({
            let raw = source.spec_bytes().subrange(start as int, end as int);
            let span = attrs::byte_span(start as int, end as int);
            &&& segment@ == (SegmentView::Text { decoded: reference_value(raw), span })
            &&& model::deep(final(diagnostics)@) == model::deep(old(diagnostics)@)
                + reference_diagnostics(raw, span)
        }),
        segment_in(source.spec_bytes(), segment@),
{
    let raw_span = span_of(start, end);
    let raw = slice(source, start, end);
    let decoded = resolve_general_ref(raw, raw_span, diagnostics);
    proof {
        encode_utf8_valid_utf8(decoded@);
    }
    BodySegment::Text(TextSegment { decoded, raw_span })
}

/// A child element as a segment.
#[verifier::rlimit(50)]
fn tag_segment(
    source: &str,
    tokens: &Vec<XmlToken>,
    name: &String,
    pos: usize,
    next: usize,
) -> (segment: BodySegment)
    requires
        valid_utf8(source.spec_bytes()),
        tokens_of(source.spec_bytes(), tokens@),
        pos < next <= tokens@.len(),
        tokens@[pos as int].event@ == EventView::Start(name@) || tokens@[pos as int].event@
            == EventView::Empty(name@),
    ensures
        segment@ == (SegmentView::Tag {
            name: name@,
            span: attrs::byte_span(
                xml::token_start(model::deep(tokens@), pos as int),
                xml::token_start(model::deep(tokens@), next as int),
            ),
        }),
        segment_in(source.spec_bytes(), segment@),
{
    let start = token_begin(tokens, pos);
    let after = token_begin(tokens, next);
    proof {
        lemma_token(source.spec_bytes(), tokens@, pos as int);
        lemma_token(source.spec_bytes(), tokens@, next - 1);
        lemma_token_starts(source.spec_bytes(), model::deep(tokens@), pos + 1, next as int);
    }
    BodySegment::DynamicTag { name: name.clone(), span: span_of(start, after) }
}

/// What one step of the walk over a body decides.
enum Step {
    /// Go on with the token at this position.
    Go(usize),
    /// The walk is over.
    Done { truncated: bool, next: usize },
}

/// `step` and what it added are the effect of a token.
spec fn has_effect(
    effect: Effect,
    more: Seq<SegmentView>,
    news: Seq<DiagnosticView>,
    last_error: Option<u64>,
    step: Step,
) -> bool {
    match step {
        Step::Go(next) => effect == (Effect::Go {
            segments: more,
            diagnostics: news,
            last_error,
            next: next as int,
        }),
        Step::Done { truncated, next } => more.len() == 0 && effect == (Effect::Stop {
            diagnostics: news,
            truncated,
            next: next as int,
        }),
    }
}

/// What `after` has over `before`.
spec fn added<T: View>(before: Seq<T>, after: Seq<T>) -> Seq<T::V> {
    model::deep(after).subrange(before.len() as int, after.len() as int)
}

spec fn extends<T: View>(before: Seq<T>, after: Seq<T>) -> bool {
    before.len() <= after.len() && model::deep(after) == model::deep(before) + added(before, after)
}

proof fn lemma_added<T: View>(before: Seq<T>, after: Seq<T>, more: Seq<T::V>)
    requires
        model::deep(after) =~= model::deep(before) + more,
    ensures
        added(before, after) == more,
        extends(before, after),
{
    assert(model::deep(after).len() == after.len());
    assert(model::deep(before).len() == before.len());
    assert(added(before, after) =~= more);
}

/// A child element: the tokens of its subtree are passed over.
#[verifier::rlimit(50)]
fn capture_child(
    source: &str,
    tokens: &Vec<XmlToken>,
    pos: usize,
    last_error: Option<u64>,
    name: &String,
    segments: &mut Vec<BodySegment>,
    diagnostics: &mut Vec<Diagnostic>,
) -> (step: Step)
    requires
        valid_utf8(source.spec_bytes()),
        tokens_of(source.spec_bytes(), tokens@),
        pos < tokens@.len(),
        tokens@[pos as int].event matches XmlEvent::Start(n) && n == name,
        segments_in(source.spec_bytes(), model::deep(old(segments)@)),
    ensures
        extends(old(segments)@, final(segments)@),
        extends(old(diagnostics)@, final(diagnostics)@),
        segments_in(source.spec_bytes(), model::deep(final(segments)@)),
        has_effect(
            token_effect(source.spec_bytes(), model::deep(tokens@), pos as int, last_error),
            added(old(segments)@, final(segments)@),
            added(old(diagnostics)@, final(diagnostics)@),
            last_error,
            step,
        ),
{
    let ghost bytes = source.spec_bytes();
    let ghost views = model::deep(tokens@);
    let ghost skip = skip_from(views, pos + 1, 1, None);
    let count = tokens.len();
    let start = token_begin(tokens, pos);
    proof {
        lemma_token(bytes, tokens@, pos as int);
        lemma_skip(bytes, views, pos + 1, 1, None);
        assert forall|i: int| 0 <= i < tokens@.len() implies ((
        #[trigger] tokens@[i]).event matches XmlEvent::Malformed { position, .. } ==> position
            <= usize::MAX) by {
            lemma_token(bytes, tokens@, i);
        }
    }
    let (outcome, next) = skip_subtree(tokens, pos + 1, diagnostics);
    proof {
        lemma_added(old(diagnostics)@, diagnostics@, skip.diagnostics);
        lemma_added(old(segments)@, segments@, Seq::<SegmentView>::empty());
    }
    let ghost skipped = diagnostics@;
    match outcome {
        SkipOutcome::Closed => {
            let segment = tag_segment(source, tokens, name, pos, next);
            segments.push(segment);
            proof {
                model::deep_push(old(segments)@, segment);
                lemma_added(old(segments)@, segments@, seq![segment@]);
            }
            Step::Go(next)
        },
        SkipOutcome::Eof => {
            let text = concat3("<", name.as_str(), "> was never closed");
            let last = unclosed_tag(start, source.len(), text);
            diagnostics.push(last);
            proof {
                model::deep_push(skipped, last);
                lemma_added(old(diagnostics)@, diagnostics@, skip.diagnostics.push(last@));
            }
            Step::Done { truncated: true, next }
        },
        SkipOutcome::Stuck(message) => {
            let mut text = concat3("XML parse error while skipping <", name.as_str(), ">: ");
            text::push(&mut text, message.as_str());
            let last = unclosed_tag(start, source.len(), text);
            diagnostics.push(last);
            proof {
                model::deep_push(skipped, last);
                lemma_added(old(diagnostics)@, diagnostics@, skip.diagnostics.push(last@));
            }
            Step::Done { truncated: true, next }
        },
    }
}

/// Takes the token at `pos` into the body.
#[verifier::rlimit(60)]
fn capture_token(
    source: &str,
    tokens: &Vec<XmlToken>,
    pos: usize,
    last_error: &mut Option<u64>,
    segments: &mut Vec<BodySegment>,
    diagnostics: &mut Vec<Diagnostic>,
) -> (step: Step)
    requires
        valid_utf8(source.spec_bytes()),
        tokens_of(source.spec_bytes(), tokens@),
        pos < tokens@.len(),
        segments_in(source.spec_bytes(), model::deep(old(segments)@)),
    ensures
        extends(old(segments)@, final(segments)@),
        extends(old(diagnostics)@, final(diagnostics)@),
        segments_in(source.spec_bytes(), model::deep(final(segments)@)),
        has_effect(
            token_effect(source.spec_bytes(), model::deep(tokens@), pos as int, *old(last_error)),
            added(old(segments)@, final(segments)@),
            added(old(diagnostics)@, final(diagnostics)@),
            *final(last_error),
            step,
        ),
{
    let ghost bytes = source.spec_bytes();
    let ghost views = model::deep(tokens@);
    proof {
        lemma_token(bytes, tokens@, pos as int);
    }
    let count = tokens.len();
    let start = token_begin(tokens, pos);
    let end = tokens[pos].end;
    let mut segment: Option<BodySegment> = None;
    let ghost mut news = Seq::<DiagnosticView>::empty();
    match &tokens[pos].event {
        XmlEvent::End => {
            proof {
                lemma_added(old(segments)@, segments@, Seq::<SegmentView>::empty());
                lemma_added(old(diagnostics)@, diagnostics@, Seq::<DiagnosticView>::empty());
            }
            return Step::Done { truncated: false, next: pos + 1 };
        },
        XmlEvent::Malformed { orphan_close, message, position } => {
            if last_error.is_some() && last_error.unwrap() == *position {
                let text = concat(
                    "XML parse error in statement body (unrecoverable): ",
                    message.as_str(),
                );
                let last = unclosed_tag(*position as usize, source.len(), text);
                diagnostics.push(last);
                proof {
                    model::deep_push(old(diagnostics)@, last);
                    lemma_added(old(segments)@, segments@, Seq::<SegmentView>::empty());
                    lemma_added(old(diagnostics)@, diagnostics@, seq![last@]);
                }
                return Step::Done { truncated: true, next: pos + 1 };
            }
            let recovered = recovery_diagnostic(*orphan_close, message.as_str(), *position);
            diagnostics.push(recovered);
            *last_error = Some(*position);
            proof {
                model::deep_push(old(diagnostics)@, recovered);
                news = seq![recovered@];
            }
        },
        XmlEvent::Start(name) => {
            return capture_child(source, tokens, pos, *last_error, name, segments, diagnostics);
        },
        XmlEvent::Text => {
            dangling_amp_diagnostic(slice(source, start, end), start, diagnostics);
            segment = Some(plain_segment(source, start, end));
            proof {
                news = dangling_amp(bytes.subrange(start as int, end as int), start as int);
            }
        },
        XmlEvent::Reference => {
            segment = Some(reference_segment(source, start, end, diagnostics));
            proof {
                news = reference_diagnostics(
                    bytes.subrange(start as int, end as int),
                    attrs::byte_span(start as int, end as int),
                );
            }
        },
        XmlEvent::CData => {
            segment = Some(plain_segment(source, start + 9, end - 3));
        },
        XmlEvent::Empty(name) => {
            segment = Some(tag_segment(source, tokens, name, pos, pos + 1));
        },
        _ => {},
    }
    proof {
        assert(model::deep(diagnostics@) =~= model::deep(old(diagnostics)@) + news);
        lemma_added(old(diagnostics)@, diagnostics@, news);
        lemma_added(old(segments)@, segments@, Seq::<SegmentView>::empty());
    }
    if let Some(segment) = segment {
        segments.push(segment);
        proof {
            model::deep_push(old(segments)@, segment);
            lemma_added(old(segments)@, segments@, seq![segment@]);
        }
    }
    Step::Go(pos + 1)
}

/// Walks a body from the token at `from` up to its end tag and collects its
/// text and child tags.
#[verifier::rlimit(50)]
pub fn capture_body(
    source: &str,
    tokens: &Vec<XmlToken>,
    from: usize,
    tag_start: usize,
) -> (captured: Captured)
    requires
        tokens_of(source.spec_bytes(), tokens@),
        from <= tokens@.len(),
        tag_start <= source.spec_bytes().len(),
    ensures
        captured@ == capture_from(
            source.spec_bytes(),
            model::deep(tokens@),
            from as int,
            tag_start as int,
            None,
        ),
        segments_in(source.spec_bytes(), captured@.segments),
        ordered(captured@.segments),
        lie_between(
            captured@.segments,
            xml::token_start(model::deep(tokens@), from as int),
            xml::token_start(model::deep(tokens@), captured.next as int),
        ),
        spans_in(captured@.diagnostics, source.spec_bytes().len() as int),
        from <= captured.next <= tokens@.len(),
{
    let ghost bytes = source.spec_bytes();
    let ghost views = model::deep(tokens@);
    let ghost whole = capture_from(bytes, views, from as int, tag_start as int, None);
    proof {
        encode_utf8_valid_utf8(source@);
        lemma_capture(bytes, views, from as int, tag_start as int, None);
        lemma_capture_ordered(bytes, views, from as int, tag_start as int, None);
    }
    let mut segments: Vec<BodySegment> = Vec::new();
    let mut diagnostics: Vec<Diagnostic> = Vec::new();
    let mut last_error: Option<u64> = None;
    let mut pos = from;
    proof {
        assert(model::deep(segments@) + whole.segments =~= whole.segments);
        assert(model::deep(diagnostics@) + whole.diagnostics =~= whole.diagnostics);
    }
    while pos < tokens.len()
        invariant
            bytes == source.spec_bytes(),
            valid_utf8(bytes),
            views == model::deep(tokens@),
            tokens_of(bytes, tokens@),
            from <= pos <= tokens@.len(),
            segments_in(bytes, model::deep(segments@)),
            whole == capture_from(bytes, views, from as int, tag_start as int, None),
            spans_in(whole.diagnostics, bytes.len() as int),
            ordered(whole.segments),
            lie_between(
                whole.segments,
                xml::token_start(views, from as int),
                xml::token_start(views, whole.next),
            ),
            from <= whole.next <= tokens@.len(),
            whole == prepend(
                model::deep(segments@),
                model::deep(diagnostics@),
                capture_from(bytes, views, pos as int, tag_start as int, last_error),
            ),
        decreases tokens@.len() - pos,
    {
        let ghost segs = segments@;
        let ghost diags = diagnostics@;
        proof {
            lemma_effect(bytes, views, pos as int, last_error);
        }
        let step = capture_token(
            source,
            tokens,
            pos,
            &mut last_error,
            &mut segments,
            &mut diagnostics,
        );
        match step {
            Step::Done { truncated, next } => {
                let captured = Captured { segments, diagnostics, truncated, next };
                assert(captured@.segments =~= whole.segments);
                return captured;
            },
            Step::Go(next) => {
                proof {
                    lemma_prepend(
                        model::deep(segs),
                        model::deep(diags),
                        added(segs, segments@),
                        added(diags, diagnostics@),
                        capture_from(bytes, views, next as int, tag_start as int, last_error),
                    );
                }
                pos = next;
            },
        }
    }
    let ghost before = diagnostics@;
    let last = unclosed_tag(
        tag_start,
        source.len(),
        "statement body was never closed".to_owned(),
    );
    diagnostics.push(last);
    let captured = Captured { segments, diagnostics, truncated: true, next: pos };
    proof {
        model::deep_push(before, last);
        assert(captured@.segments =~= whole.segments);
        assert(captured@.diagnostics =~= whole.diagnostics);
    }
    captured
}

/// Later tokens start later.
pub proof fn lemma_token_starts(source: Seq<u8>, tokens: Seq<TokenView>, i: int, j: int)
    requires
        xml::well_placed(source, tokens),
        0 <= i <= j <= tokens.len(),
    ensures
        xml::token_start(tokens, i) <= xml::token_start(tokens, j),
    decreases j - i,
{
    if i < j {
        lemma_token_starts(source, tokens, i, j - 1);
        assert(xml::placed(source, xml::token_start(tokens, j - 1), tokens[j - 1]));
    }
}

// ---- capturing a subtree ------------------------------------------------

pub open spec fn shift_span(span: ByteSpan, offset: u32) -> ByteSpan {
    attrs::byte_span(span.start + offset, span.end + offset)
}

pub open spec fn shift_segment(segment: SegmentView, offset: u32) -> SegmentView {
    match segment {
        SegmentView::Text { decoded, span } => SegmentView::Text {
            decoded,
            span: shift_span(span, offset),
        },
        SegmentView::Tag { name, span } => SegmentView::Tag {
            name,
            span: shift_span(span, offset),
        },
    }
}

pub open spec fn shift_diagnostic(d: DiagnosticView, offset: u32) -> DiagnosticView {
    DiagnosticView {
        code: d.code,
        span: match d.span {
            Some(span) => Some(shift_span(span, offset)),
            None => None,
        },
        message: d.message,
    }
}

/// The body of the element at `span`, read from that part of the source alone,
/// with every span counted from the start of the source again.
pub open spec fn subtree(source: Seq<u8>, span: ByteSpan) -> Capture {
    let part = source.subrange(span.start as int, span.end as int);
    let tokens = xml::xml_tokens(decode_utf8(part));
    if tokens.len() > 0 && tokens[0].event is Start {
        let capture = capture_from(part, tokens, 1, 0, None);
        Capture {
            segments: capture.segments.map_values(|s: SegmentView| shift_segment(s, span.start)),
            diagnostics: capture.diagnostics.map_values(
                |d: DiagnosticView| shift_diagnostic(d, span.start),
            ),
            truncated: capture.truncated,
            next: capture.next,
        }
    } else {
        Capture {
            segments: Seq::empty(),
            diagnostics: Seq::empty(),
            truncated: false,
            next: 0,
        }
    }
}

/// A span of an element: between two cuts, with `<` at its start.
pub open spec fn element_at(source: Seq<u8>, span: ByteSpan) -> bool {
    segment_in(source, SegmentView::Tag { name: Seq::empty(), span })
}

proof fn lemma_shift_segment(source: Seq<u8>, span: ByteSpan, segment: SegmentView)
    requires
        attrs::fits(source),
        element_at(source, span),
        segment_in(source.subrange(span.start as int, span.end as int), segment),
    ensures
        segment_in(source, shift_segment(segment, span.start)),
{
    let part = source.subrange(span.start as int, span.end as int);
    let inner = match segment {
        SegmentView::Text { decoded, span } => span,
        SegmentView::Tag { name, span } => span,
    };
    text::lemma_cut_of_part(source, span.start as int, span.end as int, inner.start as int);
    text::lemma_cut_of_part(source, span.start as int, span.end as int, inner.end as int);
    if let SegmentView::Text { decoded, span: own } = segment {
        assert(part.subrange(own.start as int, own.end as int) =~= source.subrange(
            span.start + own.start,
            span.start + own.end,
        ));
    }
}

pub fn copy_segment(segment: &BodySegment) -> (copy: BodySegment)
    ensures
        copy@ == segment@,
{
    match segment {
        BodySegment::Text(t) => BodySegment::Text(
            TextSegment { decoded: t.decoded.clone(), raw_span: t.raw_span },
        ),
        BodySegment::DynamicTag { name, span } => BodySegment::DynamicTag {
            name: name.clone(),
            span: *span,
        },
    }
}

fn shift(span: ByteSpan, offset: u32) -> (shifted: ByteSpan)
    requires
        span.start + offset <= u32::MAX,
        span.end + offset <= u32::MAX,
    ensures
        shifted == shift_span(span, offset),
{
    ByteSpan { start: span.start + offset, end: span.end + offset }
}

fn shift_segments(segments: Vec<BodySegment>, offset: u32, len: usize) -> (shifted: Vec<
    BodySegment,
>)
    requires
        offset + len <= u32::MAX,
        forall|k: int|
            0 <= k < segments@.len() ==> match #[trigger] segments@[k] {
                BodySegment::Text(t) => t.raw_span.start <= t.raw_span.end <= len,
                BodySegment::DynamicTag { span, .. } => span.start <= span.end <= len,
            },
    ensures
        model::deep(shifted@) == model::deep(segments@).map_values(
            |s: SegmentView| shift_segment(s, offset),
        ),
{
    let mut shifted: Vec<BodySegment> = Vec::new();
    let mut k: usize = 0;
    while k < segments.len()
        invariant
            k <= segments@.len(),
            offset + len <= u32::MAX,
            forall|k: int|
                0 <= k < segments@.len() ==> match #[trigger] segments@[k] {
                    BodySegment::Text(t) => t.raw_span.start <= t.raw_span.end <= len,
                    BodySegment::DynamicTag { span, .. } => span.start <= span.end <= len,
                },
            shifted@.len() == k,
            forall|i: int|
                0 <= i < k ==> #[trigger] shifted@[i]@ == shift_segment(segments@[i]@, offset),
        decreases segments@.len() - k,
    {
        let next = match &segments[k] {
            BodySegment::Text(t) => BodySegment::Text(
                TextSegment { decoded: t.decoded.clone(), raw_span: shift(t.raw_span, offset) },
            ),
            BodySegment::DynamicTag { name, span } => BodySegment::DynamicTag {
                name: name.clone(),
                span: shift(*span, offset),
            },
        };
        shifted.push(next);
        k += 1;
    }
    assert(model::deep(shifted@) =~= model::deep(segments@).map_values(
        |s: SegmentView| shift_segment(s, offset),
    ));
    shifted
}

fn shift_diagnostics(diagnostics: Vec<Diagnostic>, offset: u32, len: usize) -> (shifted: Vec<
    Diagnostic,
>)
    requires
        offset + len <= u32::MAX,
        spans_in(model::deep(diagnostics@), len as int),
    ensures
        model::deep(shifted@) == model::deep(diagnostics@).map_values(
            |d: DiagnosticView| shift_diagnostic(d, offset),
        ),
{
    let mut shifted: Vec<Diagnostic> = Vec::new();
    let mut k: usize = 0;
    while k < diagnostics.len()
        invariant
            k <= diagnostics@.len(),
            offset + len <= u32::MAX,
            spans_in(model::deep(diagnostics@), len as int),
            shifted@.len() == k,
            forall|i: int|
                0 <= i < k ==> #[trigger] shifted@[i]@ == shift_diagnostic(
                    diagnostics@[i]@,
                    offset,
                ),
        decreases diagnostics@.len() - k,
    {
        let d = &diagnostics[k];
        assert(span_in(model::deep(diagnostics@)[k as int].span, len as int));
        let span = match d.span {
            Some(span) => Some(shift(span, offset)),
            None => None,
        };
        shifted.push(diagnostic(d.code, span, d.message.clone()));
        k += 1;
    }
    assert(model::deep(shifted@) =~= model::deep(diagnostics@).map_values(
        |d: DiagnosticView| shift_diagnostic(d, offset),
    ));
    shifted
}

/// Reads the body of the element at `span` again, on its own.
pub fn capture_subtree(source: &str, span: ByteSpan) -> (captured: Captured)
    requires
        attrs::fits(source.spec_bytes()),
        element_at(source.spec_bytes(), span),
    ensures
        captured@ == subtree(source.spec_bytes(), span),
        segments_in(source.spec_bytes(), captured@.segments),
        ordered(captured@.segments),
        forall|k: int|
            0 <= k < captured@.segments.len() ==> span.start <= segment_span(
                #[trigger] captured@.segments[k],
            ).start && segment_span(captured@.segments[k]).end <= span.end,
        spans_in(captured@.diagnostics, source.spec_bytes().len() as int),
{
    let ghost bytes = source.spec_bytes();
    let ghost part_bytes = bytes.subrange(span.start as int, span.end as int);
    let part = slice(source, span.start as usize, span.end as usize);
    proof {
        assert(part_bytes[0] == bytes[span.start as int]);
    }
    let tokens = tokenize(part);
    let ghost views = model::deep(tokens@);
    if tokens.len() > 0 && matches!(tokens[0].event, XmlEvent::Start(_)) {
        assert(views[0] == tokens@[0]@);
        let captured = capture_body(part, &tokens, 1, 0);
        let len = part.len();
        let ghost capture = captured@;
        proof {
            assert(segments_in(part_bytes, capture.segments));
            assert(spans_in(capture.diagnostics, part_bytes.len() as int));
            assert forall|k: int| 0 <= k < captured.segments@.len() implies match
                #[trigger] captured.segments@[k] {
                BodySegment::Text(t) => t.raw_span.start <= t.raw_span.end <= len,
                BodySegment::DynamicTag { span, .. } => span.start <= span.end <= len,
            } by {
                assert(segment_in(part_bytes, captured@.segments[k]));
            }
        }
        let segments = shift_segments(captured.segments, span.start, len);
        let diagnostics = shift_diagnostics(captured.diagnostics, span.start, len);
        let shifted = Captured {
            segments,
            diagnostics,
            truncated: captured.truncated,
            next: captured.next,
        };
        proof {
            assert(shifted@.segments.len() == capture.segments.len());
            assert(shifted@.diagnostics.len() == capture.diagnostics.len());
            assert forall|k: int| 0 <= k < capture.segments.len() implies segment_in(
                bytes,
                #[trigger] shifted@.segments[k],
            ) by {
                assert(segment_in(part_bytes, capture.segments[k]));
                lemma_shift_segment(bytes, span, capture.segments[k]);
            }
            assert forall|k: int| 0 <= k < capture.segments.len() implies span.start
                <= segment_span(#[trigger] shifted@.segments[k]).start && segment_span(
                shifted@.segments[k],
            ).end <= span.end by {
                assert(segment_in(part_bytes, capture.segments[k]));
            }
            assert forall|i: int, j: int| 0 <= i < j < capture.segments.len() implies segment_span(
                #[trigger] shifted@.segments[i],
            ).end <= segment_span(#[trigger] shifted@.segments[j]).start by {
                assert(segment_in(part_bytes, capture.segments[i]));
                assert(segment_in(part_bytes, capture.segments[j]));
                assert(segment_span(capture.segments[i]).end <= segment_span(
                    capture.segments[j],
                ).start);
            }
            assert forall|k: int| 0 <= k < capture.diagnostics.len() implies span_in(
                (#[trigger] shifted@.diagnostics[k]).span,
                bytes.len() as int,
            ) by {
                assert(span_in(capture.diagnostics[k].span, part_bytes.len() as int));
            }
        }
        shifted
    } else {
        proof {
            if views.len() > 0 {
                assert(views[0] == tokens@[0]@);
            }
        }
        let empty = Captured {
            segments: Vec::new(),
            diagnostics: Vec::new(),
            truncated: false,
            next: 0,
        };
        assert(empty@.segments =~= Seq::empty());
        assert(empty@.diagnostics =~= Seq::empty());
        empty
    }
}

} // verus!
