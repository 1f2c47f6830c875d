//! The document: its root element, what stands before it and what follows.
use crate::attrs;
use crate::attrs::{diagnostic, span_of};
use crate::body;
use crate::body::{recovery_diagnostic, token_begin, unclosed_tag};
use crate::codes;
use crate::codes::Origin;
use crate::encoding;
use crate::encoding::{Decoded, DecodedView};
use crate::mapper;
use crate::mapper::{build_mapper, mapper_with_namespace, note_stray_text, same_place};
use crate::model;
use crate::model::{
    ByteSpan, DiagCode, Diagnostic, DiagnosticView, Dialect, MapperView, ParseResult,
    ParseResultView,
};
use crate::result_map::{append_diagnostic, append_diagnostics};
use crate::tags;
use crate::text;
use crate::text::{concat, concat3, decimal_text, slice, str_eq};
use crate::xml;
use crate::xml::{next_event, open_reader, tokenize, EventView, TokenView, XmlEvent, XmlToken};
use crate::MAX_INPUT_BYTES;
use vstd::prelude::*;
use vstd::string::*;
use vstd::utf8::*;

verus! {

// ---- the whole document -------------------------------------------------

/// The dialect that the name of the root element tells.
pub open spec fn dialect_of(name: Seq<char>) -> Dialect {
    if name == "mapper"@ {
        Dialect::Mybatis
    } else if name == "sqlMap"@ {
        Dialect::Ibatis
    } else {
        Dialect::Unknown
    }
}

/// `bytes` without the byte-order marks that it starts with.
pub open spec fn unmarked(bytes: Seq<u8>) -> Seq<u8>
    decreases bytes.len(),
{
    if xml::starts_with_mark(bytes) {
        unmarked(bytes.subrange(3, bytes.len() as int))
    } else {
        bytes
    }
}

/// The message about an input of `n` bytes.
pub open spec fn oversize_message(n: nat) -> Seq<char> {
    "input is "@ + text::decimal(n) + " bytes, over the 10485760-byte cap"@
}

pub open spec fn oversize(n: nat, encoding: Option<Seq<char>>) -> ParseResultView {
    ParseResultView {
        dialect: Dialect::Unknown,
        mapper: None,
        encoding,
        diagnostics: seq![
            DiagnosticView {
                code: DiagCode::OversizeInput,
                span: None,
                message: oversize_message(n),
            },
        ],
    }
}

/// A document without a mapper.
pub open spec fn no_mapper(diagnostics: Seq<DiagnosticView>) -> ParseResultView {
    ParseResultView {
        dialect: Dialect::Unknown,
        mapper: None,
        encoding: Some("UTF-8"@),
        diagnostics,
    }
}

pub open spec fn with_mapper(
    dialect: Dialect,
    mapper: MapperView,
    diagnostics: Seq<DiagnosticView>,
) -> ParseResultView {
    ParseResultView { dialect, mapper: Some(mapper), encoding: Some("UTF-8"@), diagnostics }
}

pub open spec fn no_root() -> DiagnosticView {
    DiagnosticView {
        code: DiagCode::UnknownElement,
        span: None,
        message: "no root element found"@,
    }
}

pub open spec fn wrong_root(name: Seq<char>, span: ByteSpan) -> DiagnosticView {
    DiagnosticView {
        code: DiagCode::UnknownElement,
        span: Some(span),
        message: "root element <"@ + name + "> is not a mapper/sqlMap"@,
    }
}

/// Whether the token at `pos` is an error at the place of the last one, which
/// stops the reading.
pub open spec fn is_stuck(tokens: Seq<TokenView>, pos: int, last_error: Option<u64>) -> bool {
    match tokens[pos].event {
        EventView::Malformed { position, .. } => last_error == Some(position),
        _ => false,
    }
}

/// What is wrong with the text after the root, from the token at `pos` on. Only
/// lone ampersands and unknown references are reported there.
pub open spec fn trailing(
    source: Seq<u8>,
    tokens: Seq<TokenView>,
    pos: int,
    last_error: Option<u64>,
) -> Seq<DiagnosticView>
    decreases tokens.len() - pos,
{
    if pos >= tokens.len() || is_stuck(tokens, pos, last_error) {
        Seq::empty()
    } else {
        mapper::stray_text(source, tokens, pos) + trailing(
            source,
            tokens,
            pos + 1,
            mapper::error_after(tokens, pos, last_error),
        )
    }
}

/// The root whose start tag is the token at `pos`.
pub open spec fn from_start(
    source: Seq<u8>,
    tokens: Seq<TokenView>,
    pos: int,
    name: Seq<char>,
    diagnostics: Seq<DiagnosticView>,
) -> ParseResultView {
    let dialect = dialect_of(name);
    if dialect == Dialect::Unknown {
        no_mapper(diagnostics.push(wrong_root(name, mapper::token_span(tokens, pos))))
    } else {
        let mapped = mapper::mapped(source, dialect, tokens, pos);
        with_mapper(
            dialect,
            mapped.mapper,
            diagnostics + mapped.diagnostics + trailing(source, tokens, mapped.next, None),
        )
    }
}

/// The self-closed root at `pos`.
pub open spec fn from_empty(
    source: Seq<u8>,
    tokens: Seq<TokenView>,
    pos: int,
    name: Seq<char>,
    diagnostics: Seq<DiagnosticView>,
) -> ParseResultView {
    let dialect = dialect_of(name);
    let span = mapper::token_span(tokens, pos);
    if dialect == Dialect::Unknown {
        no_mapper(diagnostics.push(wrong_root(name, span)))
    } else {
        with_mapper(
            dialect,
            mapper::bare_mapper(source, span),
            diagnostics + attrs::tag_attr(source, span, "namespace"@).diagnostics + trailing(
                source,
                tokens,
                pos + 1,
                None,
            ),
        )
    }
}

/// The document from the token at `pos` on, with no root before it.
pub open spec fn parsed_from(
    source: Seq<u8>,
    tokens: Seq<TokenView>,
    pos: int,
    last_error: Option<u64>,
    diagnostics: Seq<DiagnosticView>,
) -> ParseResultView
    decreases tokens.len() - pos,
{
    if pos >= tokens.len() {
        no_mapper(diagnostics.push(no_root()))
    } else {
        match tokens[pos].event {
            EventView::Start(name) => from_start(source, tokens, pos, name, diagnostics),
            EventView::Empty(name) => from_empty(source, tokens, pos, name, diagnostics),
            EventView::Malformed { orphan_close, message, position } => if last_error == Some(
                position,
            ) {
                no_mapper(
                    diagnostics.push(
                        body::unclosed(
                            position as int,
                            position as int,
                            "XML parse error (unrecoverable): "@ + message,
                        ),
                    ),
                )
            } else {
                parsed_from(
                    source,
                    tokens,
                    pos + 1,
                    Some(position),
                    diagnostics.push(body::recovery(orphan_close, message, position)),
                )
            },
            _ => parsed_from(
                source,
                tokens,
                pos + 1,
                last_error,
                diagnostics + mapper::stray_text(source, tokens, pos),
            ),
        }
    }
}

/// What the text of `bytes` parses to.
pub open spec fn parsed(bytes: Seq<u8>) -> ParseResultView {
    let source = unmarked(bytes);
    if source.len() > MAX_INPUT_BYTES {
        oversize(source.len(), Some("UTF-8"@))
    } else {
        parsed_from(source, xml::xml_tokens(decode_utf8(source)), 0, None, Seq::empty())
    }
}

/// The dialect that the first element from the token at `pos` on tells.
pub open spec fn root_dialect(
    tokens: Seq<TokenView>,
    pos: int,
    last_error: Option<u64>,
) -> Dialect
    decreases tokens.len() - pos,
{
    if pos >= tokens.len() {
        Dialect::Unknown
    } else {
        match tokens[pos].event {
            EventView::Start(name) => dialect_of(name),
            EventView::Empty(name) => dialect_of(name),
            _ => if is_stuck(tokens, pos, last_error) {
                Dialect::Unknown
            } else {
                root_dialect(tokens, pos + 1, mapper::error_after(tokens, pos, last_error))
            },
        }
    }
}

/// The dialect of the text of `bytes`.
pub open spec fn detected(bytes: Seq<u8>) -> Dialect {
    let source = unmarked(bytes);
    if source.len() > MAX_INPUT_BYTES {
        Dialect::Unknown
    } else {
        root_dialect(xml::xml_tokens(decode_utf8(source)), 0, None)
    }
}

/// A result in order: everything in it lies in the source and is found there,
/// and the diagnostics are those of the dialect.
pub open spec fn result_ok(result: ParseResultView, source: Seq<u8>) -> bool {
    found_in(result, source) && codes::own_codes(
        result.diagnostics,
        Origin::Document(result.dialect),
    )
}

/// Everything in a result lies in the source and is found there.
pub open spec fn found_in(result: ParseResultView, source: Seq<u8>) -> bool {
    &&& result.mapper matches Some(mapper) ==> mapper::mapper_ok(mapper, source)
    &&& body::spans_in(result.diagnostics, source.len() as int)
}

/// What a decoded document parses to. One that no encoding fitted has no mapper:
/// what it holds is not known.
pub open spec fn parsed_decoded(decoded: DecodedView) -> ParseResultView {
    if decoded.lossy {
        ParseResultView {
            dialect: Dialect::Unknown,
            mapper: None,
            encoding: Some(decoded.encoding),
            diagnostics: decoded.diagnostics,
        }
    } else {
        let result = parsed(encode_utf8(decoded.text));
        ParseResultView {
            encoding: Some(decoded.encoding),
            diagnostics: decoded.diagnostics + result.diagnostics,
            ..result
        }
    }
}

/// What the bytes of a document parse to.
pub open spec fn parsed_bytes(bytes: Seq<u8>) -> ParseResultView {
    if bytes.len() > MAX_INPUT_BYTES {
        oversize(bytes.len(), None)
    } else {
        parsed_decoded(encoding::decoded(bytes))
    }
}

/// The dialect of the bytes of a document.
pub open spec fn detected_bytes(bytes: Seq<u8>) -> Dialect {
    if bytes.len() > MAX_INPUT_BYTES || encoding::decoded(bytes).lossy {
        Dialect::Unknown
    } else {
        detected(encode_utf8(encoding::decoded(bytes).text))
    }
}

/// The text that the spans of a parse of `bytes` point into.
pub open spec fn source_of(bytes: Seq<u8>) -> Seq<u8> {
    unmarked(encode_utf8(encoding::decoded(bytes).text))
}

// ---- laws ---------------------------------------------------------------

proof fn lemma_detected(
    source: Seq<u8>,
    tokens: Seq<TokenView>,
    pos: int,
    last_error: Option<u64>,
    diagnostics: Seq<DiagnosticView>,
)
    ensures
        ({
            let r = parsed_from(source, tokens, pos, last_error, diagnostics);
            &&& r.dialect == root_dialect(tokens, pos, last_error)
            &&& r.mapper is None <==> r.dialect == Dialect::Unknown
            &&& r.mapper is None ==> r.diagnostics.len() > 0
            &&& r.encoding == Some("UTF-8"@)
        }),
    decreases tokens.len() - pos,
{
    if pos < tokens.len() {
        match tokens[pos].event {
            EventView::Start(_) => {},
            EventView::Empty(_) => {},
            EventView::Malformed { orphan_close, message, position } => {
                lemma_detected(
                    source,
                    tokens,
                    pos + 1,
                    Some(position),
                    diagnostics.push(body::recovery(orphan_close, message, position)),
                );
            },
            _ => {
                lemma_detected(
                    source,
                    tokens,
                    pos + 1,
                    last_error,
                    diagnostics + mapper::stray_text(source, tokens, pos),
                );
            },
        }
    }
}

/// The dialect that is detected ahead of a parse is the dialect of the parse.
pub proof fn law_detection_agrees(bytes: Seq<u8>)
    ensures
        parsed(bytes).dialect == detected(bytes),
{
    let source = unmarked(bytes);
    lemma_detected(source, xml::xml_tokens(decode_utf8(source)), 0, None, Seq::empty());
}

/// There is a mapper exactly where the dialect is known, and where there is
/// none the diagnostics say why.
pub proof fn law_no_mapper_is_explained(bytes: Seq<u8>)
    ensures
        parsed(bytes).mapper is None <==> parsed(bytes).dialect == Dialect::Unknown,
        parsed(bytes).mapper is None ==> parsed(bytes).diagnostics.len() > 0,
{
    let source = unmarked(bytes);
    lemma_detected(source, xml::xml_tokens(decode_utf8(source)), 0, None, Seq::empty());
}

/// A text is parsed as UTF-8, whatever is in it.
pub proof fn law_text_is_utf8(bytes: Seq<u8>)
    ensures
        parsed(bytes).encoding == Some("UTF-8"@),
{
    let source = unmarked(bytes);
    lemma_detected(source, xml::xml_tokens(decode_utf8(source)), 0, None, Seq::empty());
}

/// A byte-order mark ahead of a text changes nothing, spans included.
pub proof fn law_mark_changes_nothing(bytes: Seq<u8>)
    ensures
        parsed(seq![0xEFu8, 0xBB, 0xBF] + bytes) == parsed(bytes),
        detected(seq![0xEFu8, 0xBB, 0xBF] + bytes) == detected(bytes),
{
    let marked = seq![0xEFu8, 0xBB, 0xBF] + bytes;
    assert(marked.subrange(3, marked.len() as int) =~= bytes);
    assert(unmarked(marked) == unmarked(bytes));
}

/// The same holds of the bytes of a document, whatever their encoding.
pub proof fn law_byte_detection_agrees(bytes: Seq<u8>)
    ensures
        parsed_bytes(bytes).dialect == detected_bytes(bytes),
        parsed_bytes(bytes).mapper is None <==> parsed_bytes(bytes).dialect == Dialect::Unknown,
        parsed_bytes(bytes).mapper is None ==> parsed_bytes(bytes).diagnostics.len() > 0,
        parsed_bytes(bytes).encoding is None <==> bytes.len() > MAX_INPUT_BYTES,
{
    if bytes.len() <= MAX_INPUT_BYTES {
        let text = encode_utf8(encoding::decoded(bytes).text);
        law_detection_agrees(text);
        law_no_mapper_is_explained(text);
    }
}

/// The bytes of a text in UTF-8 parse as the text does, but for what is wrong
/// with a declaration of another encoding.
pub proof fn law_bytes_of_a_text(bytes: Seq<u8>)
    requires
        valid_utf8(bytes),
        !xml::starts_with_mark(bytes),
        bytes.len() <= MAX_INPUT_BYTES,
    ensures
        parsed_bytes(bytes) == (ParseResultView {
            diagnostics: encoding::mismatches(encoding::declared(bytes), "UTF-8"@) + parsed(
                bytes,
            ).diagnostics,
            ..parsed(bytes)
        }),
{
    encoding::law_utf8_is_kept(bytes);
    law_text_is_utf8(bytes);
}

/// The bytes of a text in UTF-8 whose content declares no encoding parse as the
/// text does, in every field, with any number of byte-order marks ahead.
pub proof fn law_bytes_are_their_text(bytes: Seq<u8>)
    requires
        valid_utf8(bytes),
        bytes.len() <= MAX_INPUT_BYTES,
        encoding::declared(encoding::content_of(bytes)) is None,
    ensures
        parsed_bytes(bytes) == parsed(bytes),
{
    let content = encoding::content_of(bytes);
    if xml::starts_with_mark(bytes) {
        assert(bytes =~= seq![0xEFu8, 0xBB, 0xBF] + content);
        text::lemma_next_cut(bytes, 0);
        text::lemma_between_cuts(bytes, 3, bytes.len() as int);
        law_mark_changes_nothing(content);
    }
    decode_utf8_encode_utf8(content);
    law_text_is_utf8(content);
    assert(encoding::decoded(bytes).diagnostics + parsed(content).diagnostics =~= parsed(
        content,
    ).diagnostics);
}

/// That is so of every text without `encoding=` in it.
pub proof fn law_bytes_without_a_label(bytes: Seq<u8>)
    requires
        valid_utf8(bytes),
        bytes.len() <= MAX_INPUT_BYTES,
        text::first_match(bytes, encode_utf8("encoding="@), 0) is None,
    ensures
        parsed_bytes(bytes) == parsed(bytes),
{
    let content = encoding::content_of(bytes);
    if xml::starts_with_mark(bytes) {
        encoding::lemma_absent(bytes, encode_utf8("encoding="@), 3, bytes.len() as int);
    }
    encoding::law_nothing_is_declared(content);
    law_bytes_are_their_text(bytes);
}

/// One byte-order mark ahead of a document in UTF-8 changes nothing. Behind
/// more of them a declaration is not looked for, and the document parses as its
/// text does.
pub proof fn law_byte_mark_changes_nothing(bytes: Seq<u8>)
    requires
        valid_utf8(bytes),
        bytes.len() + 3 <= MAX_INPUT_BYTES,
    ensures
        !xml::starts_with_mark(bytes) ==> parsed_bytes(seq![0xEFu8, 0xBB, 0xBF] + bytes)
            == parsed_bytes(bytes),
        xml::starts_with_mark(bytes) ==> parsed_bytes(seq![0xEFu8, 0xBB, 0xBF] + bytes) == parsed(
            bytes,
        ),
{
    let mark = seq![0xEFu8, 0xBB, 0xBF];
    let marked = mark + bytes;
    assert(marked.subrange(3, marked.len() as int) =~= bytes);
    if xml::starts_with_mark(bytes) {
        encoding::lemma_mark_hides(bytes);
        decode_utf8_encode_utf8(bytes);
        law_text_is_utf8(bytes);
        assert(encoding::decoded(marked).diagnostics + parsed(bytes).diagnostics =~= parsed(
            bytes,
        ).diagnostics);
    }
}

/// A document that no encoding fits has no mapper, an unknown dialect, and one
/// diagnostic that says so.
pub proof fn law_undetectable_has_no_mapper(bytes: Seq<u8>)
    requires
        bytes.len() <= MAX_INPUT_BYTES,
        encoding::decoded(bytes).lossy,
    ensures
        parsed_bytes(bytes).mapper is None,
        parsed_bytes(bytes).dialect == Dialect::Unknown,
        parsed_bytes(bytes).diagnostics == seq![encoding::undetectable()],
        parsed_bytes(bytes).diagnostics[0].code == DiagCode::EncodingUndetectable,
        detected_bytes(bytes) == Dialect::Unknown,
{
}

/// An input over the cap has no mapper, an unknown dialect, and one diagnostic
/// that says so.
pub proof fn law_oversize_is_refused(bytes: Seq<u8>)
    requires
        unmarked(bytes).len() > MAX_INPUT_BYTES,
    ensures
        parsed(bytes).mapper is None,
        parsed(bytes).dialect == Dialect::Unknown,
        parsed(bytes).diagnostics.len() == 1,
        parsed(bytes).diagnostics[0].code == DiagCode::OversizeInput,
{
}

// ---- reading ------------------------------------------------------------

fn dialect_named(name: &str) -> (dialect: Dialect)
    ensures
        dialect == dialect_of(name@),
{
    if str_eq(name, "mapper") {
        Dialect::Mybatis
    } else if str_eq(name, "sqlMap") {
        Dialect::Ibatis
    } else {
        Dialect::Unknown
    }
}

proof fn lemma_unmarked(bytes: Seq<u8>)
    ensures
        unmarked(bytes).len() <= bytes.len(),
        !xml::starts_with_mark(unmarked(bytes)),
    decreases bytes.len(),
{
    if xml::starts_with_mark(bytes) {
        lemma_unmarked(bytes.subrange(3, bytes.len() as int));
    }
}

/// The text after its leading byte-order marks.
pub fn strip_marks<'a>(source: &'a str) -> (rest: &'a str)
    ensures
        rest.spec_bytes() == unmarked(source.spec_bytes()),
        rest@ == decode_utf8(unmarked(source.spec_bytes())),
        !xml::starts_with_mark(rest.spec_bytes()),
{
    let mut rest = source;
    proof {
        encode_utf8_decode_utf8(source@);
        lemma_unmarked(source.spec_bytes());
    }
    loop
        invariant
            unmarked(rest.spec_bytes()) == unmarked(source.spec_bytes()),
            rest@ == decode_utf8(rest.spec_bytes()),
        ensures
            rest.spec_bytes() == unmarked(source.spec_bytes()),
            rest@ == decode_utf8(rest.spec_bytes()),
        decreases rest.spec_bytes().len(),
    {
        let bytes = rest.as_bytes();
        if !(bytes.len() >= 3 && bytes[0] == 0xEF && bytes[1] == 0xBB && bytes[2] == 0xBF) {
            break;
        }
        proof {
            encode_utf8_valid_utf8(rest@);
            text::lemma_next_cut(rest.spec_bytes(), 0);
        }
        rest = slice(rest, 3, bytes.len());
    }
    rest
}

/// Reports what [`trailing`] says.
#[verifier::rlimit(50)]
fn scan_trailing_content(
    source: &str,
    tokens: &Vec<XmlToken>,
    from: usize,
    diagnostics: &mut Vec<Diagnostic>,
)
    requires
        body::tokens_of(source.spec_bytes(), tokens@),
        from <= tokens@.len(),
        body::spans_in(model::deep(old(diagnostics)@), source.spec_bytes().len() as int),
    ensures
        model::deep(final(diagnostics)@) == model::deep(old(diagnostics)@) + trailing(
            source.spec_bytes(),
            model::deep(tokens@),
            from as int,
            None,
        ),
        body::spans_in(model::deep(final(diagnostics)@), source.spec_bytes().len() as int),
{
    let ghost bytes = source.spec_bytes();
    let ghost views = model::deep(tokens@);
    let ghost whole = model::deep(diagnostics@) + trailing(bytes, views, from as int, None);
    let mut last_error: Option<u64> = None;
    let mut pos = from;
    proof {
        encode_utf8_valid_utf8(source@);
    }
    while pos < tokens.len()
        invariant
            bytes == source.spec_bytes(),
            valid_utf8(bytes),
            views == model::deep(tokens@),
            body::tokens_of(bytes, tokens@),
            pos <= tokens@.len(),
            body::spans_in(model::deep(diagnostics@), bytes.len() as int),
            whole == model::deep(diagnostics@) + trailing(bytes, views, pos as int, last_error),
            whole == model::deep(old(diagnostics)@) + trailing(bytes, views, from as int, None),
        decreases tokens@.len() - pos,
    {
        let ghost before = model::deep(diagnostics@);
        let ghost last = last_error;
        assert(views[pos as int] == tokens@[pos as int]@);
        if let XmlEvent::Malformed { position, .. } = &tokens[pos].event {
            if same_place(last_error, *position) {
                assert(before + trailing(bytes, views, pos as int, last) =~= before);
                return;
            }
            last_error = Some(*position);
        }
        note_stray_text(source, tokens, pos, diagnostics);
        assert(model::deep(diagnostics@) + trailing(bytes, views, pos + 1, last_error) =~= before
            + trailing(bytes, views, pos as int, last));
        pos += 1;
    }
    assert(model::deep(diagnostics@) + trailing(bytes, views, pos as int, last_error)
        =~= model::deep(diagnostics@));
}

fn without_mapper(diagnostics: Vec<Diagnostic>) -> (result: ParseResult)
    ensures
        result@ == no_mapper(model::deep(diagnostics@)),
{
    ParseResult {
        dialect: Dialect::Unknown,
        mapper: None,
        encoding: Some("UTF-8".to_owned()),
        diagnostics,
    }
}

/// The result for an input of `n` bytes, which is too much.
pub fn oversize_result(n: usize, encoding: Option<String>) -> (result: ParseResult)
    ensures
        result@ == oversize(n as nat, model::opt(encoding)),
{
    let message = concat3(
        "input is ",
        decimal_text(n as u64).as_str(),
        " bytes, over the 10485760-byte cap",
    );
    let mut diagnostics: Vec<Diagnostic> = Vec::new();
    diagnostics.push(diagnostic(DiagCode::OversizeInput, None, message));
    let result = ParseResult { dialect: Dialect::Unknown, mapper: None, encoding, diagnostics };
    assert(result@.diagnostics =~= oversize(n as nat, model::opt(encoding)).diagnostics);
    result
}

/// The root that the token at `pos` starts, or the root that it is.
#[verifier::rlimit(50)]
fn parse_root(
    source: &str,
    tokens: &Vec<XmlToken>,
    pos: usize,
    name: &str,
    diagnostics: Vec<Diagnostic>,
) -> (result: ParseResult)
    requires
        body::tokens_of(source.spec_bytes(), tokens@),
        pos < tokens@.len(),
        tokens@[pos as int].event@ == EventView::Start(name@) || tokens@[pos as int].event@
            == EventView::Empty(name@),
        body::spans_in(model::deep(diagnostics@), source.spec_bytes().len() as int),
    ensures
        tokens@[pos as int].event is Start ==> result@ == from_start(
            source.spec_bytes(),
            model::deep(tokens@),
            pos as int,
            name@,
            model::deep(diagnostics@),
        ),
        tokens@[pos as int].event is Empty ==> result@ == from_empty(
            source.spec_bytes(),
            model::deep(tokens@),
            pos as int,
            name@,
            model::deep(diagnostics@),
        ),
        found_in(result@, source.spec_bytes()),
{
    let ghost bytes = source.spec_bytes();
    let ghost len = bytes.len() as int;
    let ghost views = model::deep(tokens@);
    let ghost given = model::deep(diagnostics@);
    let mut diagnostics = diagnostics;
    proof {
        encode_utf8_valid_utf8(source@);
        body::lemma_token(bytes, tokens@, pos as int);
    }
    let count = tokens.len();
    let span = span_of(token_begin(tokens, pos), tokens[pos].end);
    let dialect = dialect_named(name);
    if dialect == Dialect::Unknown {
        let message = concat3("root element <", name, "> is not a mapper/sqlMap");
        append_diagnostic(
            &mut diagnostics,
            diagnostic(DiagCode::UnknownElement, Some(span), message),
            Ghost(len),
        );
        assert(given.push(wrong_root(name@, span)) =~= given + seq![wrong_root(name@, span)]);
        return without_mapper(diagnostics);
    }
    let (mapper, next) = if matches!(tokens[pos].event, XmlEvent::Start(_)) {
        let mapped = build_mapper(source, dialect, tokens, pos);
        append_diagnostics(&mut diagnostics, mapped.diagnostics, Ghost(len));
        (mapped.mapper, mapped.next)
    } else {
        let mapper = mapper_with_namespace(source, span, &mut diagnostics);
        (mapper, pos + 1)
    };
    scan_trailing_content(source, tokens, next, &mut diagnostics);
    ParseResult {
        dialect,
        mapper: Some(mapper),
        encoding: Some("UTF-8".to_owned()),
        diagnostics,
    }
}

/// Parses the tokens of a text: finds the root element, builds its mapper, and
/// reports everything that is wrong on the way.
#[verifier::rlimit(50)]
pub fn parse_tokens(source: &str, tokens: &Vec<XmlToken>) -> (result: ParseResult)
    requires
        body::tokens_of(source.spec_bytes(), tokens@),
    ensures
        result@ == parsed_from(
            source.spec_bytes(),
            model::deep(tokens@),
            0,
            None,
            Seq::empty(),
        ),
        result_ok(result@, source.spec_bytes()),
{
    let ghost bytes = source.spec_bytes();
    let ghost len = bytes.len() as int;
    let ghost views = model::deep(tokens@);
    let mut diagnostics: Vec<Diagnostic> = Vec::new();
    let mut last_error: Option<u64> = None;
    let mut pos: usize = 0;
    let ghost whole = parsed_from(bytes, views, 0, None, Seq::empty());
    proof {
        encode_utf8_valid_utf8(source@);
        assert(model::deep(diagnostics@) =~= Seq::empty());
        codes::law_document_codes(bytes, views);
    }
    while pos < tokens.len()
        invariant
            bytes == source.spec_bytes(),
            whole == parsed_from(bytes, views, 0, None, Seq::empty()),
            codes::own_codes(whole.diagnostics, Origin::Document(whole.dialect)),
            valid_utf8(bytes),
            len == bytes.len(),
            views == model::deep(tokens@),
            body::tokens_of(bytes, tokens@),
            pos <= tokens@.len(),
            body::spans_in(model::deep(diagnostics@), len),
            whole == parsed_from(
                bytes,
                views,
                pos as int,
                last_error,
                model::deep(diagnostics@),
            ),
        decreases tokens@.len() - pos,
    {
        proof {
            body::lemma_token(bytes, tokens@, pos as int);
        }
        let ghost given = model::deep(diagnostics@);
        match &tokens[pos].event {
            XmlEvent::Start(name) => {
                return parse_root(source, tokens, pos, name.as_str(), diagnostics);
            },
            XmlEvent::Empty(name) => {
                return parse_root(source, tokens, pos, name.as_str(), diagnostics);
            },
            XmlEvent::Malformed { orphan_close, message, position } => {
                if same_place(last_error, *position) {
                    let text = concat("XML parse error (unrecoverable): ", message.as_str());
                    let d = unclosed_tag(*position as usize, *position as usize, text);
                    append_diagnostic(&mut diagnostics, d, Ghost(len));
                    assert(given + seq![d@] =~= given.push(d@));
                    return without_mapper(diagnostics);
                }
                last_error = Some(*position);
                let d = recovery_diagnostic(*orphan_close, message.as_str(), *position);
                append_diagnostic(&mut diagnostics, d, Ghost(len));
                assert(given + seq![d@] =~= given.push(d@));
            },
            _ => {
                note_stray_text(source, tokens, pos, &mut diagnostics);
            },
        }
        pos += 1;
    }
    let ghost given = model::deep(diagnostics@);
    append_diagnostic(
        &mut diagnostics,
        diagnostic(DiagCode::UnknownElement, None, "no root element found".to_owned()),
        Ghost(len),
    );
    assert(given + seq![no_root()] =~= given.push(no_root()));
    without_mapper(diagnostics)
}

/// Parses a text.
pub fn parse_str(source: &str) -> (result: ParseResult)
    ensures
        result@ == parsed(source.spec_bytes()),
        result_ok(result@, unmarked(source.spec_bytes())),
{
    let rest = strip_marks(source);
    let size = rest.as_bytes().len();
    if size > MAX_INPUT_BYTES {
        let name = Some("UTF-8".to_owned());
        return oversize_result(size, name);
    }
    let tokens = tokenize(rest);
    parse_tokens(rest, &tokens)
}

/// Parses a decoded document.
pub fn parse_decoded(decoded: Decoded) -> (result: ParseResult)
    ensures
        result@ == parsed_decoded(decoded@),
        encoding::about_encoding(decoded@.diagnostics) ==> result_ok(
            result@,
            unmarked(encode_utf8(decoded.text@)),
        ),
{
    if decoded.lossy {
        return ParseResult {
            dialect: Dialect::Unknown,
            mapper: None,
            encoding: Some(decoded.encoding),
            diagnostics: decoded.diagnostics,
        };
    }
    let parsed_text = parse_str(decoded.text.as_str());
    let mut diagnostics = decoded.diagnostics;
    let mut more = parsed_text.diagnostics;
    let ghost a = diagnostics@;
    let ghost b = more@;
    diagnostics.append(&mut more);
    proof {
        let len = unmarked(encode_utf8(decoded.text@)).len() as int;
        assert(diagnostics@ =~= a + b);
        model::deep_concat(a, b);
        if encoding::about_encoding(decoded@.diagnostics) {
            assert(body::spans_in(model::deep(a), len));
            tags::lemma_spans_concat(model::deep(a), model::deep(b), len);
            let origin = Origin::Document(parsed_text.dialect);
            assert(codes::own_codes(model::deep(a), origin));
            assert(codes::own_codes(model::deep(a) + model::deep(b), origin));
        }
    }
    ParseResult {
        dialect: parsed_text.dialect,
        mapper: parsed_text.mapper,
        encoding: Some(decoded.encoding),
        diagnostics,
    }
}

/// Finds the dialect of a text. Nothing after the start of its root is read.
pub fn detect_dialect_str(source: &str) -> (dialect: Dialect)
    ensures
        dialect == detected(source.spec_bytes()),
        dialect == parsed(source.spec_bytes()).dialect,
{
    proof {
        law_detection_agrees(source.spec_bytes());
    }
    let rest = strip_marks(source);
    if rest.as_bytes().len() > MAX_INPUT_BYTES {
        return Dialect::Unknown;
    }
    let mut reader = open_reader(rest);
    let ghost tokens = xml::pending(reader);
    let ghost mut pos: int = 0;
    let mut last_error: Option<u64> = None;
    assert(tokens.subrange(0, tokens.len() as int) =~= tokens);
    loop
        invariant
            tokens == xml::xml_tokens(rest@),
            detected(source.spec_bytes()) == root_dialect(tokens, 0, None),
            detected(source.spec_bytes()) == parsed(source.spec_bytes()).dialect,
            0 <= pos <= tokens.len(),
            xml::pending(reader) == tokens.subrange(pos, tokens.len() as int),
            root_dialect(tokens, 0, None) == root_dialect(tokens, pos, last_error),
        decreases tokens.len() - pos,
    {
        let event = next_event(&mut reader);
        proof {
            if pos < tokens.len() {
                assert(tokens.subrange(pos, tokens.len() as int).drop_first() =~= tokens.subrange(
                    pos + 1,
                    tokens.len() as int,
                ));
            }
        }
        match &event {
            XmlEvent::Eof => {
                return Dialect::Unknown;
            },
            XmlEvent::Start(name) => {
                return dialect_named(name.as_str());
            },
            XmlEvent::Empty(name) => {
                return dialect_named(name.as_str());
            },
            XmlEvent::Malformed { position, .. } => {
                if same_place(last_error, *position) {
                    return Dialect::Unknown;
                }
                last_error = Some(*position);
            },
            _ => {},
        }
        proof {
            pos = pos + 1;
        }
    }
}

} // verus!
