//! What is read from the text of a tag and from the tokens of a body, said of
//! the bytes and the tokens themselves.
use crate::attrs;
use crate::attrs::AttrView;
use crate::body;
use crate::body::SegmentView;
use crate::model::{ByteSpan, DiagCode, Dialect, IncludeTargetView};
use crate::strips::is_gap;
use crate::tags;
use crate::text;
use crate::xml;
use crate::xml::{EventView, TokenView};
use vstd::prelude::*;
use vstd::string::*;
use vstd::utf8::*;

verus! {

// ---- attributes ---------------------------------------------------------

/// Blanks from `i` up to `j`.
pub open spec fn gaps(bytes: Seq<u8>, i: int, j: int) -> bool {
    forall|k: int| i <= k < j ==> is_gap(#[trigger] bytes[k])
}

/// A byte of the name of an element: no blank, `>` or `/`.
pub open spec fn in_name(b: u8) -> bool {
    !is_gap(b) && b != 0x3E && b != 0x2F
}

/// The name of an attribute from `i` up to `j`: no blank, `=`, `>` or `/` in it.
pub open spec fn names(bytes: Seq<u8>, i: int, j: int) -> bool {
    i < j && forall|k: int| i <= k < j ==> in_name(#[trigger] bytes[k]) && bytes[k] != 0x3D
}

proof fn lemma_skip(bytes: Seq<u8>, i: int, j: int, end: int)
    requires
        0 <= i <= j <= end,
        gaps(bytes, i, j),
        j < end ==> !is_gap(bytes[j]),
    ensures
        attrs::skip_blanks(bytes, i, end) == j,
    decreases j - i,
{
    if i < j {
        assert(is_gap(bytes[i]));
        lemma_skip(bytes, i + 1, j, end);
    }
}

proof fn lemma_name(bytes: Seq<u8>, i: int, j: int, end: int)
    requires
        0 <= i <= j <= end,
        forall|k: int| i <= k < j ==> in_name(#[trigger] bytes[k]) && bytes[k] != 0x3D,
        j < end ==> !in_name(bytes[j]) || bytes[j] == 0x3D,
    ensures
        attrs::attr_name_end(bytes, i, end) == j,
    decreases j - i,
{
    if i < j {
        assert(in_name(bytes[i]) && bytes[i] != 0x3D);
        lemma_name(bytes, i + 1, j, end);
    }
}

proof fn lemma_quoted(bytes: Seq<u8>, i: int, j: int, end: int, quote: u8)
    requires
        0 <= i <= j < end,
        forall|k: int| i <= k < j ==> #[trigger] bytes[k] != quote,
        bytes[j] == quote,
    ensures
        attrs::quoted_end(bytes, i, end, quote) == j,
    decreases j - i,
{
    if i < j {
        assert(bytes[i] != quote);
        lemma_quoted(bytes, i + 1, j, end, quote);
    }
}

/// In a tag, a name, an equals sign and a value in quotes of either kind are an
/// attribute, with blanks anywhere between them. The value is all that stands
/// between the quotes. What follows is read on.
pub proof fn law_attribute_is_read(
    bytes: Seq<u8>,
    i: int,
    name: int,
    name_end: int,
    equals: int,
    quote: int,
    close: int,
    end: int,
)
    requires
        0 <= i <= name < name_end <= equals < quote < close < end <= bytes.len(),
        gaps(bytes, i, name),
        names(bytes, name, name_end),
        gaps(bytes, name_end, equals),
        bytes[equals] == 0x3D,
        gaps(bytes, equals + 1, quote),
        bytes[quote] == 0x22 || bytes[quote] == 0x27,
        forall|k: int| quote < k < close ==> #[trigger] bytes[k] != bytes[quote],
        bytes[close] == bytes[quote],
    ensures
        attrs::attrs_from(bytes, i, end) == seq![
            AttrView { name: (name, name_end), value: (quote + 1, close) },
        ] + attrs::attrs_from(bytes, close + 1, end),
{
    assert(in_name(bytes[name]));
    lemma_skip(bytes, i, name, end);
    if name_end < equals {
        assert(is_gap(bytes[name_end]));
    }
    lemma_name(bytes, name, name_end, end);
    lemma_skip(bytes, name_end, equals, end);
    lemma_skip(bytes, equals + 1, quote, end);
    lemma_quoted(bytes, quote + 1, close, end, bytes[quote]);
}

/// The attributes of a tag end with the tag.
pub proof fn law_attributes_end(bytes: Seq<u8>, i: int, at: int, end: int)
    requires
        0 <= i <= at <= end,
        gaps(bytes, i, at),
        at < end ==> bytes[at] == 0x3E || bytes[at] == 0x2F,
    ensures
        attrs::attrs_from(bytes, i, end).len() == 0,
{
    lemma_skip(bytes, i, at, end);
}

/// A name without a value is passed over.
pub proof fn law_lone_name_is_passed(
    bytes: Seq<u8>,
    i: int,
    name: int,
    name_end: int,
    next: int,
    end: int,
)
    requires
        0 <= i <= name < name_end <= next <= end,
        gaps(bytes, i, name),
        names(bytes, name, name_end),
        gaps(bytes, name_end, next),
        name_end == next ==> (next < end ==> !in_name(bytes[next])),
        next < end ==> !is_gap(bytes[next]) && bytes[next] != 0x3D,
    ensures
        attrs::attrs_from(bytes, i, end) == attrs::attrs_from(bytes, next, end),
{
    assert(in_name(bytes[name]));
    lemma_skip(bytes, i, name, end);
    if name_end < next {
        assert(is_gap(bytes[name_end]));
    }
    lemma_name(bytes, name, name_end, end);
    lemma_skip(bytes, name_end, next, end);
}

proof fn lemma_tag_name(bytes: Seq<u8>, i: int, j: int, end: int)
    requires
        0 <= i <= j <= end,
        forall|k: int| i <= k < j ==> in_name(#[trigger] bytes[k]),
        j < end ==> !in_name(bytes[j]),
    ensures
        attrs::tag_name_end(bytes, i, end) == j,
    decreases j - i,
{
    if i < j {
        assert(in_name(bytes[i]));
        lemma_tag_name(bytes, i + 1, j, end);
    }
}

/// The attributes of a tag are read from behind its name.
pub proof fn law_attributes_follow_the_name(bytes: Seq<u8>, start: int, name_end: int, end: int)
    requires
        0 <= start < name_end <= end <= bytes.len(),
        bytes[start] == 0x3C,
        forall|k: int| start < k < name_end ==> in_name(#[trigger] bytes[k]),
        name_end < end ==> !in_name(bytes[name_end]),
    ensures
        attrs::tag_attrs(bytes, start, end) == attrs::attrs_from(bytes, name_end, end),
{
    lemma_tag_name(bytes, start + 1, name_end, end);
}

/// An attribute of a tag has a value exactly where one of that name stands
/// there: the value of the first, at its place.
pub proof fn law_attribute_value(bytes: Seq<u8>, span: ByteSpan, name: Seq<char>)
    ensures
        ({
            let list = attrs::tag_attrs(bytes, span.start as int, span.end as int);
            let read = attrs::tag_attr(bytes, span, name);
            &&& read.value is None <==> forall|k: int|
                0 <= k < list.len() ==> bytes.subrange(
                    (#[trigger] list[k]).name.0,
                    list[k].name.1,
                ) != encode_utf8(name)
            &&& forall|k: int|
                {
                    &&& 0 <= k < list.len()
                    &&& bytes.subrange((#[trigger] list[k]).name.0, list[k].name.1) == encode_utf8(
                        name,
                    )
                    &&& forall|j: int|
                        0 <= j < k ==> bytes.subrange((#[trigger] list[j]).name.0, list[j].name.1)
                            != encode_utf8(name)
                } ==> {
                    &&& read.value is Some
                    &&& read.value->0.value == decode_utf8(
                        bytes.subrange(list[k].value.0, list[k].value.1),
                    )
                    &&& read.value->0.span == attrs::byte_span(list[k].value.0, list[k].value.1)
                }
        }),
{
    let list = attrs::tag_attrs(bytes, span.start as int, span.end as int);
    if forall|k: int|
        0 <= k < list.len() ==> bytes.subrange((#[trigger] list[k]).name.0, list[k].name.1)
            != encode_utf8(name) {
        lemma_missing(bytes, list, name, 0);
    } else {
        lemma_present(bytes, list, name, 0);
    }
    assert forall|k: int|
        {
            &&& 0 <= k < list.len()
            &&& bytes.subrange((#[trigger] list[k]).name.0, list[k].name.1) == encode_utf8(name)
            &&& forall|j: int|
                0 <= j < k ==> bytes.subrange((#[trigger] list[j]).name.0, list[j].name.1)
                    != encode_utf8(name)
        } implies {
        let read = attrs::tag_attr(bytes, span, name);
        &&& read.value is Some
        &&& read.value->0.value == decode_utf8(bytes.subrange(list[k].value.0, list[k].value.1))
        &&& read.value->0.span == attrs::byte_span(list[k].value.0, list[k].value.1)
    } by {
        assert forall|j: int| 0 <= j < k implies !attrs::is_named(
            bytes,
            #[trigger] list[j],
            name,
        ) by {}
        attrs::law_first_value_wins(bytes, list, name, k);
    }
}

proof fn lemma_missing(bytes: Seq<u8>, list: Seq<AttrView>, name: Seq<char>, k: int)
    requires
        0 <= k <= list.len(),
        forall|k: int| 0 <= k < list.len() ==> !attrs::is_named(bytes, #[trigger] list[k], name),
    ensures
        attrs::read_from(bytes, list, name, k, false).value is None,
    decreases list.len() - k,
{
    if k < list.len() {
        lemma_missing(bytes, list, name, k + 1);
    }
}

proof fn lemma_present(bytes: Seq<u8>, list: Seq<AttrView>, name: Seq<char>, k: int)
    requires
        0 <= k <= list.len(),
        exists|j: int| k <= j < list.len() && attrs::is_named(bytes, #[trigger] list[j], name),
    ensures
        attrs::read_from(bytes, list, name, k, false).value is Some,
    decreases list.len() - k,
{
    if k < list.len() && !attrs::is_named(bytes, list[k], name) {
        lemma_present(bytes, list, name, k + 1);
    }
}

// ---- bodies -------------------------------------------------------------

/// A token of a body gives one segment or none: text and what stands in CDATA
/// as they stand, a reference as its value, an element with its whole extent.
/// The end tag ends the body; anything else gives none. What follows is read on.
pub proof fn law_body_of_tokens(
    source: Seq<u8>,
    tokens: Seq<TokenView>,
    pos: int,
    tag_start: int,
    last_error: Option<u64>,
)
    requires
        0 <= pos < tokens.len(),
    ensures
        ({
            let start = xml::token_start(tokens, pos);
            let end = tokens[pos].end as int;
            let here = body::capture_from(source, tokens, pos, tag_start, last_error);
            let rest = body::capture_from(source, tokens, pos + 1, tag_start, last_error);
            match tokens[pos].event {
                EventView::Text => here.segments == seq![
                    SegmentView::Text {
                        decoded: source.subrange(start, end),
                        span: attrs::byte_span(start, end),
                    },
                ] + rest.segments && here.next == rest.next && here.truncated == rest.truncated,
                EventView::CData => here.segments == seq![
                    SegmentView::Text {
                        decoded: source.subrange(start + 9, end - 3),
                        span: attrs::byte_span(start + 9, end - 3),
                    },
                ] + rest.segments && here.next == rest.next && here.truncated == rest.truncated,
                EventView::Reference => here.segments == seq![
                    SegmentView::Text {
                        decoded: body::reference_value(source.subrange(start, end)),
                        span: attrs::byte_span(start, end),
                    },
                ] + rest.segments && here.next == rest.next && here.truncated == rest.truncated,
                EventView::Empty(name) => here.segments == seq![
                    SegmentView::Tag { name, span: attrs::byte_span(start, end) },
                ] + rest.segments && here.next == rest.next && here.truncated == rest.truncated,
                EventView::End => here.segments.len() == 0 && here.next == pos + 1
                    && !here.truncated && here.diagnostics.len() == 0,
                EventView::Other => here.segments == rest.segments && here.next == rest.next,
                _ => true,
            }
        }),
{
    let rest = body::capture_from(source, tokens, pos + 1, tag_start, last_error);
    assert(Seq::empty() + rest.segments =~= rest.segments);
}

/// An element with a body in a body gives one segment with its name, from its
/// start tag to the end tag that closes it; what stands in it is no part of the
/// outer body.
pub proof fn law_element_in_a_body(
    source: Seq<u8>,
    tokens: Seq<TokenView>,
    pos: int,
    tag_start: int,
    last_error: Option<u64>,
    name: Seq<char>,
)
    requires
        0 <= pos < tokens.len(),
        tokens[pos].event == EventView::Start(name),
        body::skip_from(tokens, pos + 1, 1, None).end is Closed,
        pos < body::skip_from(tokens, pos + 1, 1, None).next <= tokens.len(),
    ensures
        ({
            let next = body::skip_from(tokens, pos + 1, 1, None).next;
            let here = body::capture_from(source, tokens, pos, tag_start, last_error);
            let rest = body::capture_from(source, tokens, next, tag_start, last_error);
            &&& here.segments == seq![
                SegmentView::Tag {
                    name,
                    span: attrs::byte_span(
                        xml::token_start(tokens, pos),
                        xml::token_start(tokens, next),
                    ),
                },
            ] + rest.segments
            &&& here.next == rest.next
        }),
{
}

/// What is wrong in a body is reported as it is read: an ampersand that text
/// starts with, at its place; markup that cannot be read, unless it is the same
/// as before, which ends the body.
pub proof fn law_body_reports(
    source: Seq<u8>,
    tokens: Seq<TokenView>,
    pos: int,
    tag_start: int,
    last_error: Option<u64>,
)
    requires
        0 <= pos < tokens.len(),
    ensures
        ({
            let start = xml::token_start(tokens, pos);
            let end = tokens[pos].end as int;
            let here = body::capture_from(source, tokens, pos, tag_start, last_error);
            let rest = body::capture_from(source, tokens, pos + 1, tag_start, last_error);
            match tokens[pos].event {
                EventView::Text => {
                    let raw = source.subrange(start, end);
                    if raw.len() > 0 && raw[0] == 0x26 {
                        &&& here.diagnostics.len() == rest.diagnostics.len() + 1
                        &&& here.diagnostics[0].code == DiagCode::InvalidEntity
                        &&& here.diagnostics[0].span == Some(attrs::byte_span(start, start + 1))
                        &&& here.diagnostics.skip(1) == rest.diagnostics
                    } else {
                        here.diagnostics == rest.diagnostics
                    }
                },
                EventView::CData | EventView::Empty(_) | EventView::Other => here.diagnostics
                    == rest.diagnostics,
                EventView::Malformed { position, .. } => if last_error == Some(position) {
                    &&& here.segments.len() == 0
                    &&& here.truncated
                    &&& here.diagnostics.len() == 1
                    &&& here.diagnostics[0].code == DiagCode::UnclosedTag
                } else {
                    let next = body::capture_from(
                        source,
                        tokens,
                        pos + 1,
                        tag_start,
                        Some(position),
                    );
                    &&& here.segments == next.segments
                    &&& here.diagnostics.len() == next.diagnostics.len() + 1
                    &&& here.diagnostics[0].code == DiagCode::UnclosedTag
                    &&& here.diagnostics.skip(1) == next.diagnostics
                },
                _ => true,
            }
        }),
{
    let start = xml::token_start(tokens, pos);
    let end = tokens[pos].end as int;
    let here = body::capture_from(source, tokens, pos, tag_start, last_error);
    let rest = body::capture_from(source, tokens, pos + 1, tag_start, last_error);
    assert(Seq::empty() + rest.diagnostics =~= rest.diagnostics);
    assert(Seq::empty() + rest.segments =~= rest.segments);
    match tokens[pos].event {
        EventView::Text => {
            let raw = source.subrange(start, end);
            if raw.len() > 0 && raw[0] == 0x26 {
                assert(here.diagnostics.skip(1) =~= rest.diagnostics);
            }
        },
        EventView::Malformed { position, .. } => {
            if last_error != Some(position) {
                let next = body::capture_from(source, tokens, pos + 1, tag_start, Some(position));
                assert(Seq::empty() + next.segments =~= next.segments);
                assert(here.diagnostics.skip(1) =~= next.diagnostics);
            }
        },
        _ => {},
    }
}

/// A reference that can be resolved is its value, without a diagnostic. One that
/// cannot keeps its text and is reported at its place.
pub proof fn law_references(raw: Seq<u8>, span: ByteSpan)
    ensures
        match body::unescaped(decode_utf8(raw)) {
            Ok(value) => body::reference_value(raw) == encode_utf8(value)
                && body::reference_diagnostics(raw, span).len() == 0,
            Err(_) => {
                &&& body::reference_value(raw) == raw
                &&& body::reference_diagnostics(raw, span).len() == 1
                &&& body::reference_diagnostics(raw, span)[0].code == DiagCode::InvalidEntity
                &&& body::reference_diagnostics(raw, span)[0].span == Some(span)
            },
        },
{
}

/// The elements that are open behind the first `n` tokens from `from` on.
pub open spec fn open_after(tokens: Seq<TokenView>, from: int, n: int) -> int
    decreases n,
{
    if n <= 0 {
        1
    } else {
        open_after(tokens, from, n - 1) + (match tokens[from + n - 1].event {
            EventView::Start(_) => 1int,
            EventView::End => -1,
            _ => 0,
        })
    }
}

/// An element is closed by the end tag behind which as many elements have ended
/// as have started, and by none before it.
pub proof fn law_element_is_closed(tokens: Seq<TokenView>, from: int, close: int)
    requires
        0 <= from <= close < tokens.len(),
        forall|k: int| from <= k <= close ==> (#[trigger] tokens[k]).event !is Malformed,
        tokens[close].event is End,
        open_after(tokens, from, close + 1 - from) == 0,
        forall|n: int| 0 <= n <= close - from ==> #[trigger] open_after(tokens, from, n) >= 1,
    ensures
        body::skip_from(tokens, from, 1, None).end is Closed,
        body::skip_from(tokens, from, 1, None).next == close + 1,
{
    lemma_skipped(tokens, from, close, 0);
}

proof fn lemma_skipped(tokens: Seq<TokenView>, from: int, close: int, n: int)
    requires
        0 <= from <= close < tokens.len(),
        0 <= n <= close - from,
        forall|k: int| from <= k <= close ==> (#[trigger] tokens[k]).event !is Malformed,
        tokens[close].event is End,
        open_after(tokens, from, close + 1 - from) == 0,
        forall|n: int| 0 <= n <= close - from ==> #[trigger] open_after(tokens, from, n) >= 1,
    ensures
        body::skip_from(tokens, from + n, open_after(tokens, from, n), None).end is Closed,
        body::skip_from(tokens, from + n, open_after(tokens, from, n), None).next == close + 1,
    decreases close - from - n,
{
    assert(tokens[from + n].event !is Malformed);
    if n < close - from {
        lemma_skipped(tokens, from, close, n + 1);
        assert(open_after(tokens, from, n + 1) >= 1);
    }
}

// ---- references ---------------------------------------------------------

/// A `${` stands at `i`.
pub open spec fn starts_dynamic(bytes: Seq<u8>, i: int) -> bool {
    0 <= i < bytes.len() - 1 && bytes[i] == 0x24 && bytes[i + 1] == 0x7B
}

/// A `refid` with `${` in it can stand for anything. Without one, MyBatis takes
/// what stands before the last dot for a namespace, with an id without a dot
/// behind it; one without a dot, and any of iBatis, is an id of the same file.
pub proof fn law_include_target(raw: Seq<char>, dialect: Dialect)
    ensures
        ({
            let bytes = encode_utf8(raw);
            let target = tags::classified(raw, dialect);
            let dynamic = exists|i: int| #[trigger] starts_dynamic(bytes, i);
            &&& dynamic ==> target is Dynamic
            &&& !dynamic && dialect != Dialect::Mybatis ==> target == IncludeTargetView::Local(raw)
            &&& !dynamic && dialect == Dialect::Mybatis && (forall|i: int|
                0 <= i < bytes.len() ==> #[trigger] bytes[i] != 0x2E)
                ==> target == IncludeTargetView::Local(raw)
            &&& !dynamic && dialect == Dialect::Mybatis ==> forall|dot: int|
                {
                    &&& 0 <= dot < bytes.len()
                    &&& #[trigger] bytes[dot] == 0x2E
                    &&& forall|i: int| dot < i < bytes.len() ==> #[trigger] bytes[i] != 0x2E
                } ==> target == (IncludeTargetView::Qualified {
                    ns: decode_utf8(bytes.subrange(0, dot)),
                    id: decode_utf8(bytes.subrange(dot + 1, bytes.len() as int)),
                })
        }),
{
    let bytes = encode_utf8(raw);
    let needle = encode_utf8("${"@);
    reveal_strlit("${");
    is_ascii_chars_encode_utf8("${"@);
    assert(needle =~= seq![0x24u8, 0x7B]);
    text::lemma_first_match(bytes, needle, 0);
    let dynamic = exists|i: int| #[trigger] starts_dynamic(bytes, i);
    if dynamic {
        let i = choose|i: int| #[trigger] starts_dynamic(bytes, i);
        assert(bytes.subrange(i, i + 2) =~= needle);
        assert(text::occurs_at(bytes, needle, i));
    } else if text::first_match(bytes, needle, 0) is Some {
        let i = text::first_match(bytes, needle, 0)->0;
        assert(bytes.subrange(i, i + 2)[0] == bytes[i]);
        assert(bytes.subrange(i, i + 2)[1] == bytes[i + 1]);
        assert(starts_dynamic(bytes, i));
    }
    lemma_last(bytes, bytes.len() as int);
}

proof fn lemma_last(bytes: Seq<u8>, to: int)
    requires
        0 <= to <= bytes.len(),
    ensures
        match text::last_byte(bytes, 0x2E, to) {
            Some(k) => 0 <= k < to && bytes[k] == 0x2E && forall|i: int|
                k < i < to ==> #[trigger] bytes[i] != 0x2E,
            None => forall|i: int| 0 <= i < to ==> #[trigger] bytes[i] != 0x2E,
        },
    decreases to,
{
    if to > 0 && bytes[to - 1] != 0x2E {
        lemma_last(bytes, to - 1);
    }
}

} // verus!
