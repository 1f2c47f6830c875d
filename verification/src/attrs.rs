//! Attributes of a tag, read straight from the source bytes so that every
//! value keeps its span.
use crate::model;
use crate::model::{ByteSpan, DiagCode, Diagnostic, DiagnosticView, Spanned};
use crate::text;
use crate::text::{blank, bytes_eq, concat3, slice};
use vstd::prelude::*;
use vstd::string::*;
use vstd::utf8::*;

verus! {

pub const LESS_THAN: u8 = 0x3C;

pub const GREATER_THAN: u8 = 0x3E;

pub const SLASH: u8 = 0x2F;

pub const EQUALS: u8 = 0x3D;

pub const DOUBLE_QUOTE: u8 = 0x22;

pub const SINGLE_QUOTE: u8 = 0x27;

/// A `name="value"` pair as byte ranges into the source, quotes and `=` left
/// out.
#[derive(Debug, Clone, Copy, PartialEq)]
pub struct RawAttr {
    pub name: (usize, usize),
    pub value: (usize, usize),
}

pub struct AttrView {
    pub name: (int, int),
    pub value: (int, int),
}

impl View for RawAttr {
    type V = AttrView;

    open spec fn view(&self) -> AttrView {
        AttrView {
            name: (self.name.0 as int, self.name.1 as int),
            value: (self.value.0 as int, self.value.1 as int),
        }
    }
}

// ---- scanning -----------------------------------------------------------

/// The first position at or after `i` that is not blank, `end` at most.
pub open spec fn skip_blanks(bytes: Seq<u8>, i: int, end: int) -> int
    decreases end - i,
{
    if i < end && text::is_blank(bytes[i]) {
        skip_blanks(bytes, i + 1, end)
    } else {
        i
    }
}

/// A byte that ends an element's name.
pub open spec fn ends_name(b: u8) -> bool {
    text::is_blank(b) || b == GREATER_THAN || b == SLASH
}

/// Where the element name that starts at `i` ends.
pub open spec fn tag_name_end(bytes: Seq<u8>, i: int, end: int) -> int
    decreases end - i,
{
    if i < end && !ends_name(bytes[i]) {
        tag_name_end(bytes, i + 1, end)
    } else {
        i
    }
}

/// Where the attribute name that starts at `i` ends.
pub open spec fn attr_name_end(bytes: Seq<u8>, i: int, end: int) -> int
    decreases end - i,
{
    if i < end && bytes[i] != EQUALS && !ends_name(bytes[i]) {
        attr_name_end(bytes, i + 1, end)
    } else {
        i
    }
}

/// The first position at or after `i` that holds `quote`, `end` at most.
pub open spec fn quoted_end(bytes: Seq<u8>, i: int, end: int, quote: u8) -> int
    decreases end - i,
{
    if i < end && bytes[i] != quote {
        quoted_end(bytes, i + 1, end, quote)
    } else {
        i
    }
}

pub open spec fn is_quote(b: u8) -> bool {
    b == DOUBLE_QUOTE || b == SINGLE_QUOTE
}

/// The attributes of a tag from `i` on. A value is taken whole, whatever it
/// contains; a name without a value is skipped; the list ends with the tag, at
/// a value without its opening quote, or at one without its closing quote.
pub open spec fn attrs_from(bytes: Seq<u8>, i: int, end: int) -> Seq<AttrView>
    decreases end - i,
    when 0 <= i
{
    let name_start = skip_blanks(bytes, i, end);
    if name_start >= end || bytes[name_start] == GREATER_THAN || bytes[name_start] == SLASH {
        Seq::empty()
    } else {
        proof {
            lemma_skip_blanks(bytes, i, end);
        }
        let name_end = attr_name_end(bytes, name_start, end);
        let eq = skip_blanks(bytes, name_end, end);
        proof {
            lemma_attr_name_end(bytes, name_start, end);
            lemma_skip_blanks(bytes, name_end, end);
        }
        if eq >= end || bytes[eq] != EQUALS {
            if eq > i {
                attrs_from(bytes, eq, end)
            } else {
                Seq::empty()
            }
        } else {
            let quote = skip_blanks(bytes, eq + 1, end);
            proof {
                lemma_skip_blanks(bytes, eq + 1, end);
            }
            if quote >= bytes.len() || !is_quote(bytes[quote]) {
                Seq::empty()
            } else {
                let value_end = quoted_end(bytes, quote + 1, end, bytes[quote]);
                proof {
                    lemma_quoted_end(bytes, quote + 1, end, bytes[quote]);
                }
                if value_end >= end {
                    Seq::empty()
                } else {
                    seq![
                        AttrView { name: (name_start, name_end), value: (quote + 1, value_end) },
                    ] + attrs_from(bytes, value_end + 1, end)
                }
            }
        }
    }
}

/// The attributes of the first tag in `bytes[start..end]`.
pub open spec fn tag_attrs(bytes: Seq<u8>, start: int, end: int) -> Seq<AttrView> {
    let name = if start < end && bytes[start] == LESS_THAN {
        start + 1
    } else {
        start
    };
    attrs_from(bytes, tag_name_end(bytes, name, end), end)
}

pub proof fn lemma_skip_blanks(bytes: Seq<u8>, i: int, end: int)
    ensures
        i <= skip_blanks(bytes, i, end),
        i <= end ==> skip_blanks(bytes, i, end) <= end,
        skip_blanks(bytes, i, end) < end ==> !text::is_blank(bytes[skip_blanks(bytes, i, end)]),
    decreases end - i,
{
    if i < end && text::is_blank(bytes[i]) {
        lemma_skip_blanks(bytes, i + 1, end);
    }
}

pub proof fn lemma_tag_name_end(bytes: Seq<u8>, i: int, end: int)
    ensures
        i <= tag_name_end(bytes, i, end),
        i <= end ==> tag_name_end(bytes, i, end) <= end,
    decreases end - i,
{
    if i < end && !ends_name(bytes[i]) {
        lemma_tag_name_end(bytes, i + 1, end);
    }
}

pub proof fn lemma_attr_name_end(bytes: Seq<u8>, i: int, end: int)
    ensures
        i <= attr_name_end(bytes, i, end),
        i <= end ==> attr_name_end(bytes, i, end) <= end,
        i < end && bytes[i] != EQUALS && !ends_name(bytes[i]) ==> i < attr_name_end(
            bytes,
            i,
            end,
        ),
        i < end && bytes[i] == EQUALS ==> attr_name_end(bytes, i, end) == i,
    decreases end - i,
{
    if i < end && bytes[i] != EQUALS && !ends_name(bytes[i]) {
        lemma_attr_name_end(bytes, i + 1, end);
    }
}

pub proof fn lemma_quoted_end(bytes: Seq<u8>, i: int, end: int, quote: u8)
    ensures
        i <= quoted_end(bytes, i, end, quote),
        i <= end ==> quoted_end(bytes, i, end, quote) <= end,
        quoted_end(bytes, i, end, quote) < end ==> bytes[quoted_end(bytes, i, end, quote)]
            == quote,
    decreases end - i,
{
    if i < end && bytes[i] != quote {
        lemma_quoted_end(bytes, i + 1, end, quote);
    }
}

/// An attribute's ranges lie between `start` and `end`, its value between two
/// cuts.
pub open spec fn attr_in(bytes: Seq<u8>, attr: AttrView, start: int, end: int) -> bool {
    &&& start <= attr.name.0 <= attr.name.1 <= attr.value.0 <= attr.value.1 < end
    &&& text::is_cut(bytes, attr.value.0)
    &&& text::is_cut(bytes, attr.value.1)
}

pub open spec fn attrs_in(bytes: Seq<u8>, attrs: Seq<AttrView>, start: int, end: int) -> bool {
    forall|k: int| 0 <= k < attrs.len() ==> attr_in(bytes, #[trigger] attrs[k], start, end)
}

proof fn lemma_attrs_from(bytes: Seq<u8>, start: int, i: int, end: int)
    requires
        valid_utf8(bytes),
        0 <= start <= i,
        end <= bytes.len(),
    ensures
        attrs_in(bytes, attrs_from(bytes, i, end), start, end),
    decreases end - i,
{
    let name_start = skip_blanks(bytes, i, end);
    if name_start >= end || bytes[name_start] == GREATER_THAN || bytes[name_start] == SLASH {
    } else {
        lemma_skip_blanks(bytes, i, end);
        let name_end = attr_name_end(bytes, name_start, end);
        let eq = skip_blanks(bytes, name_end, end);
        lemma_attr_name_end(bytes, name_start, end);
        lemma_skip_blanks(bytes, name_end, end);
        if eq >= end || bytes[eq] != EQUALS {
            if eq > i {
                lemma_attrs_from(bytes, start, eq, end);
            }
        } else {
            let quote = skip_blanks(bytes, eq + 1, end);
            lemma_skip_blanks(bytes, eq + 1, end);
            if quote >= bytes.len() || !is_quote(bytes[quote]) {
            } else {
                let value_end = quoted_end(bytes, quote + 1, end, bytes[quote]);
                lemma_quoted_end(bytes, quote + 1, end, bytes[quote]);
                if value_end < end {
                    text::lemma_ascii_cuts(bytes, quote);
                    text::lemma_ascii_cuts(bytes, value_end);
                    lemma_attrs_from(bytes, start, value_end + 1, end);
                }
            }
        }
    }
}

/// The attributes of a tag lie in the tag.
pub proof fn lemma_tag_attrs(bytes: Seq<u8>, start: int, end: int)
    requires
        valid_utf8(bytes),
        0 <= start <= end <= bytes.len(),
    ensures
        attrs_in(bytes, tag_attrs(bytes, start, end), start, end),
{
    let name = if start < end && bytes[start] == LESS_THAN {
        start + 1
    } else {
        start
    };
    lemma_tag_name_end(bytes, name, end);
    lemma_attrs_from(bytes, start, tag_name_end(bytes, name, end), end);
}

pub fn skip_blanks_at(bytes: &[u8], from: usize, end: usize) -> (r: usize)
    requires
        from <= end <= bytes@.len(),
    ensures
        r == skip_blanks(bytes@, from as int, end as int),
        from <= r <= end,
{
    let mut i = from;
    while i < end && blank(bytes[i])
        invariant
            from <= i <= end <= bytes@.len(),
            skip_blanks(bytes@, i as int, end as int) == skip_blanks(
                bytes@,
                from as int,
                end as int,
            ),
        decreases end - i,
    {
        i += 1;
    }
    i
}

/// Reads the attributes of the tag at the start of `bytes[tag_start..tag_end]`.
pub fn scan_attributes(bytes: &[u8], tag_start: usize, tag_end: usize) -> (attrs: Vec<RawAttr>)
    requires
        tag_start <= tag_end <= bytes@.len(),
    ensures
        model::deep(attrs@) == tag_attrs(bytes@, tag_start as int, tag_end as int),
{
    broadcast use model::group_deep;

    let mut attrs: Vec<RawAttr> = Vec::new();
    let mut i = tag_start;
    if i < tag_end && bytes[i] == LESS_THAN {
        i += 1;
    }
    let ghost name = i as int;
    while i < tag_end && !blank(bytes[i]) && bytes[i] != GREATER_THAN && bytes[i] != SLASH
        invariant
            i <= tag_end <= bytes@.len(),
            tag_name_end(bytes@, i as int, tag_end as int) == tag_name_end(
                bytes@,
                name,
                tag_end as int,
            ),
        decreases tag_end - i,
    {
        i += 1;
    }
    let ghost all = tag_attrs(bytes@, tag_start as int, tag_end as int);
    assert(model::deep(attrs@) + attrs_from(bytes@, i as int, tag_end as int) =~= all);
    loop
        invariant
            i <= tag_end <= bytes@.len(),
            model::deep(attrs@) + attrs_from(bytes@, i as int, tag_end as int) == all,
        ensures
            model::deep(attrs@) == all,
        decreases tag_end - i,
    {
        let ghost before = i as int;
        let name_start = skip_blanks_at(bytes, i, tag_end);
        if name_start >= tag_end || bytes[name_start] == GREATER_THAN || bytes[name_start] == SLASH {
            assert(model::deep(attrs@) =~= all);
            break;
        }
        let mut name_end = name_start;
        while name_end < tag_end && bytes[name_end] != EQUALS && !blank(bytes[name_end])
            && bytes[name_end] != GREATER_THAN && bytes[name_end] != SLASH
            invariant
                name_start <= name_end <= tag_end <= bytes@.len(),
                attr_name_end(bytes@, name_end as int, tag_end as int) == attr_name_end(
                    bytes@,
                    name_start as int,
                    tag_end as int,
                ),
            decreases tag_end - name_end,
        {
            name_end += 1;
        }
        proof {
            lemma_attr_name_end(bytes@, name_start as int, tag_end as int);
            lemma_skip_blanks(bytes@, i as int, tag_end as int);
            lemma_skip_blanks(bytes@, name_end as int, tag_end as int);
        }
        let eq = skip_blanks_at(bytes, name_end, tag_end);
        if eq >= tag_end || bytes[eq] != EQUALS {
            i = eq;
            continue;
        }
        let quote = skip_blanks_at(bytes, eq + 1, tag_end);
        if quote >= bytes.len() || (bytes[quote] != DOUBLE_QUOTE && bytes[quote]
            != SINGLE_QUOTE) {
            assert(model::deep(attrs@) =~= all);
            break;
        }
        if quote >= tag_end {
            assert(model::deep(attrs@) =~= all);
            break;
        }
        let quote_byte: u8 = bytes[quote];
        let mut value_end = quote + 1;
        while value_end < tag_end && bytes[value_end] != quote_byte
            invariant
                quote < value_end <= tag_end <= bytes@.len(),
                quoted_end(bytes@, value_end as int, tag_end as int, quote_byte) == quoted_end(
                    bytes@,
                    quote + 1,
                    tag_end as int,
                    quote_byte,
                ),
            decreases tag_end - value_end,
        {
            value_end += 1;
        }
        if value_end >= tag_end {
            assert(model::deep(attrs@) =~= all);
            break;
        }
        let attr = RawAttr { name: (name_start, name_end), value: (quote + 1, value_end) };
        let ghost done = model::deep(attrs@);
        attrs.push(attr);
        i = value_end + 1;
        assert(model::deep(attrs@) + attrs_from(bytes@, i as int, tag_end as int) =~= done + (seq![
            attr@,
        ] + attrs_from(bytes@, i as int, tag_end as int)));
    }
    attrs
}

// ---- reading ------------------------------------------------------------

/// What reading one attribute gives: the first value, and a diagnostic for
/// each repetition.
pub struct AttrRead {
    pub value: Option<Spanned<Seq<char>>>,
    pub diagnostics: Seq<DiagnosticView>,
}

pub open spec fn is_named(bytes: Seq<u8>, attr: AttrView, name: Seq<char>) -> bool {
    bytes.subrange(attr.name.0, attr.name.1) == encode_utf8(name)
}

pub open spec fn byte_span(start: int, end: int) -> ByteSpan {
    ByteSpan { start: start as u32, end: end as u32 }
}

pub open spec fn duplicate_attribute(attr: AttrView, name: Seq<char>) -> DiagnosticView {
    DiagnosticView {
        code: DiagCode::DuplicateAttribute,
        span: Some(byte_span(attr.name.0, attr.name.1)),
        message: "duplicate '"@ + name + "' attribute; first value wins"@,
    }
}

/// Reads the attribute `name` from the attributes at `k` on; `seen` says
/// whether it has been read before.
pub open spec fn read_from(
    bytes: Seq<u8>,
    attrs: Seq<AttrView>,
    name: Seq<char>,
    k: int,
    seen: bool,
) -> AttrRead
    decreases attrs.len() - k,
{
    if k >= attrs.len() {
        AttrRead { value: None, diagnostics: Seq::empty() }
    } else if !is_named(bytes, attrs[k], name) {
        read_from(bytes, attrs, name, k + 1, seen)
    } else {
        let rest = read_from(bytes, attrs, name, k + 1, true);
        if seen {
            AttrRead {
                value: rest.value,
                diagnostics: seq![duplicate_attribute(attrs[k], name)] + rest.diagnostics,
            }
        } else {
            AttrRead {
                value: Some(
                    Spanned {
                        value: decode_utf8(bytes.subrange(attrs[k].value.0, attrs[k].value.1)),
                        span: byte_span(attrs[k].value.0, attrs[k].value.1),
                    },
                ),
                diagnostics: rest.diagnostics,
            }
        }
    }
}

/// The attribute `name` among `attrs`.
pub open spec fn attr_value(bytes: Seq<u8>, attrs: Seq<AttrView>, name: Seq<char>) -> AttrRead {
    read_from(bytes, attrs, name, 0, false)
}

/// The attribute `name` of the tag at the start of `bytes[span]`.
pub open spec fn tag_attr(bytes: Seq<u8>, span: ByteSpan, name: Seq<char>) -> AttrRead {
    attr_value(bytes, tag_attrs(bytes, span.start as int, span.end as int), name)
}

/// The number of the attributes from `k` on that have this name.
pub open spec fn times_named(
    bytes: Seq<u8>,
    attrs: Seq<AttrView>,
    name: Seq<char>,
    k: int,
) -> nat
    decreases attrs.len() - k,
{
    if k >= attrs.len() {
        0
    } else {
        times_named(bytes, attrs, name, k + 1) + (if is_named(bytes, attrs[k], name) {
            1nat
        } else {
            0
        })
    }
}

proof fn lemma_times_named(
    bytes: Seq<u8>,
    attrs: Seq<AttrView>,
    name: Seq<char>,
    k: int,
    seen: bool,
)
    ensures
        ({
            let read = read_from(bytes, attrs, name, k, seen);
            let times = times_named(bytes, attrs, name, k);
            &&& seen ==> read.value is None && read.diagnostics.len() == times
            &&& !seen ==> (read.value is Some <==> times > 0)
            &&& !seen && times > 0 ==> read.diagnostics.len() == times - 1
            &&& times == 0 ==> read.diagnostics.len() == 0
            &&& forall|i: int|
                0 <= i < read.diagnostics.len() ==> (#[trigger] read.diagnostics[i]).code
                    == DiagCode::DuplicateAttribute
        }),
    decreases attrs.len() - k,
{
    if k < attrs.len() {
        lemma_times_named(bytes, attrs, name, k + 1, seen);
        lemma_times_named(bytes, attrs, name, k + 1, true);
    }
}

/// All that reading an attribute reports is repetitions of it.
pub proof fn lemma_attr_codes(bytes: Seq<u8>, span: ByteSpan, name: Seq<char>)
    ensures
        forall|i: int|
            0 <= i < tag_attr(bytes, span, name).diagnostics.len() ==> (
            #[trigger] tag_attr(bytes, span, name).diagnostics[i]).code
                == DiagCode::DuplicateAttribute,
{
    let attrs = tag_attrs(bytes, span.start as int, span.end as int);
    lemma_times_named(bytes, attrs, name, 0, false);
}

/// Of several attributes with one name the first counts, and each of the others
/// is reported.
pub proof fn law_first_value_wins(bytes: Seq<u8>, attrs: Seq<AttrView>, name: Seq<char>, k: int)
    requires
        0 <= k < attrs.len(),
        is_named(bytes, attrs[k], name),
        forall|i: int| 0 <= i < k ==> !is_named(bytes, #[trigger] attrs[i], name),
    ensures
        attr_value(bytes, attrs, name).value == Some(
            Spanned {
                value: decode_utf8(bytes.subrange(attrs[k].value.0, attrs[k].value.1)),
                span: byte_span(attrs[k].value.0, attrs[k].value.1),
            },
        ),
        attr_value(bytes, attrs, name).diagnostics.len() == times_named(bytes, attrs, name, 0) - 1,
        forall|i: int|
            0 <= i < attr_value(bytes, attrs, name).diagnostics.len() ==> (
            #[trigger] attr_value(bytes, attrs, name).diagnostics[i]).code
                == DiagCode::DuplicateAttribute,
{
    lemma_first_named(bytes, attrs, name, 0, k);
    lemma_times_named(bytes, attrs, name, 0, false);
}

proof fn lemma_first_named(
    bytes: Seq<u8>,
    attrs: Seq<AttrView>,
    name: Seq<char>,
    from: int,
    k: int,
)
    requires
        0 <= from <= k < attrs.len(),
        is_named(bytes, attrs[k], name),
        forall|i: int| from <= i < k ==> !is_named(bytes, #[trigger] attrs[i], name),
    ensures
        read_from(bytes, attrs, name, from, false).value == Some(
            Spanned {
                value: decode_utf8(bytes.subrange(attrs[k].value.0, attrs[k].value.1)),
                span: byte_span(attrs[k].value.0, attrs[k].value.1),
            },
        ),
        times_named(bytes, attrs, name, from) > 0,
    decreases k - from,
{
    if from < k {
        lemma_first_named(bytes, attrs, name, from + 1, k);
    }
}

/// A source short enough for its offsets to fit a span.
pub open spec fn fits(bytes: Seq<u8>) -> bool {
    bytes.len() <= crate::MAX_INPUT_BYTES
}

pub fn diagnostic(code: DiagCode, span: Option<ByteSpan>, message: String) -> (d: Diagnostic)
    ensures
        d@ == (DiagnosticView { code, span, message: message@ }),
{
    Diagnostic { code, span, message }
}

/// A span of a source that fits.
pub fn span_of(start: usize, end: usize) -> (span: ByteSpan)
    ensures
        span == byte_span(start as int, end as int),
{
    ByteSpan { start: start as u32, end: end as u32 }
}

/// Reads the attribute `name`: its first value, and a diagnostic for every
/// repetition.
pub fn attr_value_spanned(source: &str, attrs: &Vec<RawAttr>, name: &str) -> (r: (
    Option<Spanned<String>>,
    Vec<Diagnostic>,
))
    requires
        fits(source.spec_bytes()),
        attrs_in(source.spec_bytes(), model::deep(attrs@), 0, source.spec_bytes().len() as int),
    ensures
        model::opt(r.0) == attr_value(source.spec_bytes(), model::deep(attrs@), name@).value,
        model::deep(r.1@) == attr_value(
            source.spec_bytes(),
            model::deep(attrs@),
            name@,
        ).diagnostics,
{
    broadcast use model::group_deep;

    let bytes = source.as_bytes();
    let name_bytes = name.as_bytes();
    let mut value: Option<Spanned<String>> = None;
    let mut diagnostics: Vec<Diagnostic> = Vec::new();
    let ghost views = model::deep(attrs@);
    let ghost whole = attr_value(bytes@, views, name@);
    let mut k: usize = 0;
    while k < attrs.len()
        invariant
            bytes@ == source.spec_bytes(),
            name_bytes@ == encode_utf8(name@),
            fits(bytes@),
            k <= attrs@.len(),
            views == model::deep(attrs@),
            attrs_in(bytes@, views, 0, bytes@.len() as int),
            ({
                let rest = read_from(bytes@, views, name@, k as int, value is Some);
                &&& whole.diagnostics == model::deep(diagnostics@) + rest.diagnostics
                &&& value is Some ==> whole.value == model::opt(value)
                &&& value is None ==> whole.value == rest.value
            }),
        decreases attrs@.len() - k,
    {
        let attr = attrs[k];
        assert(views[k as int] == attr@);
        assert(attr_in(bytes@, views[k as int], 0, bytes@.len() as int));
        if bytes_eq(vstd::slice::slice_subrange(bytes, attr.name.0, attr.name.1), name_bytes) {
            let ghost done = model::deep(diagnostics@);
            if value.is_some() {
                let message = concat3("duplicate '", name, "' attribute; first value wins");
                diagnostics.push(
                    diagnostic(
                        DiagCode::DuplicateAttribute,
                        Some(span_of(attr.name.0, attr.name.1)),
                        message,
                    ),
                );
                assert(whole.diagnostics =~= model::deep(diagnostics@) + read_from(
                    bytes@,
                    views,
                    name@,
                    k + 1,
                    true,
                ).diagnostics);
            } else {
                value = Some(
                    Spanned {
                        value: slice(source, attr.value.0, attr.value.1).to_owned(),
                        span: span_of(attr.value.0, attr.value.1),
                    },
                );
            }
        }
        k += 1;
    }
    assert(model::deep(diagnostics@) =~= whole.diagnostics);
    (value, diagnostics)
}

/// Reads one attribute of the tag at the start of `span`.
pub fn read_tag_attr(source: &str, span: ByteSpan, name: &str) -> (r: (
    Option<Spanned<String>>,
    Vec<Diagnostic>,
))
    requires
        fits(source.spec_bytes()),
        span.start <= span.end <= source.spec_bytes().len(),
    ensures
        model::opt(r.0) == tag_attr(source.spec_bytes(), span, name@).value,
        model::deep(r.1@) == tag_attr(source.spec_bytes(), span, name@).diagnostics,
{
    let attrs = scan_attributes(source.as_bytes(), span.start as usize, span.end as usize);
    proof {
        encode_utf8_valid_utf8(source@);
        lemma_tag_attrs(source.spec_bytes(), span.start as int, span.end as int);
    }
    attr_value_spanned(source, &attrs, name)
}

} // verus!
