//! Finding out how the bytes of a document are encoded, and decoding them.
//!
//! A UTF-16 byte-order mark settles the encoding, if the rest decodes by it.
//! Otherwise the bytes are read as UTF-8, then by the label of the XML
//! declaration, then as EUC-KR, and the first that fits is taken. Where none
//! does, the bytes are read as UTF-8 with replacement characters. What fits
//! wins over what is declared.
use crate::attrs;
use crate::attrs::diagnostic;
use crate::model;
use crate::model::{DiagCode, Diagnostic, DiagnosticView};
use crate::text;
use crate::text::{bytes_eq, find, find_byte, occurs, push, str_eq, trim_start};
use crate::xml;
use encoding_rs::Encoding;
use vstd::prelude::*;
use vstd::slice::*;
use vstd::string::*;
use vstd::utf8::*;

verus! {

// ---- decoders -----------------------------------------------------------

/// What a decoder makes of some bytes.
pub struct Decoding {
    pub text: String,
    /// The name of the encoding that was used.
    pub encoding: String,
    /// Whether something was replaced.
    pub malformed: bool,
}

pub struct DecodingView {
    pub text: Seq<char>,
    pub encoding: Seq<char>,
    pub malformed: bool,
}

impl View for Decoding {
    type V = DecodingView;

    open spec fn view(&self) -> DecodingView {
        DecodingView {
            text: self.text@,
            encoding: self.encoding@,
            malformed: self.malformed,
        }
    }
}

/// The name of the encoding that a label of the Encoding Standard stands for.
pub uninterp spec fn registered(label: Seq<char>) -> Option<Seq<char>>;

/// What the decoder that a label stands for makes of `bytes`.
pub uninterp spec fn decoding(label: Seq<char>, bytes: Seq<u8>) -> Option<DecodingView>;

/// What `bytes` reads as in UTF-8, with replacement characters for what is not
/// UTF-8.
pub uninterp spec fn lossy_text(bytes: Seq<u8>) -> Seq<char>;

/// The text of `bytes`: what they read as in UTF-8.
pub open spec fn text_of(bytes: Seq<u8>) -> Seq<char> {
    if valid_utf8(bytes) {
        decode_utf8(bytes)
    } else {
        lossy_text(bytes)
    }
}

/// The bytes of a UTF-16 code unit.
pub open spec fn unit_bytes(unit: int, big: bool) -> Seq<u8> {
    let low = (unit % 256) as u8;
    let high = (unit / 256) as u8;
    if big {
        seq![high, low]
    } else {
        seq![low, high]
    }
}

/// A character in UTF-16: one code unit, or a high and a low surrogate.
pub open spec fn utf16_char(c: char, big: bool) -> Seq<u8> {
    let v = c as u32 as int;
    if v < 0x10000 {
        unit_bytes(v, big)
    } else {
        unit_bytes(0xD800 + (v - 0x10000) / 0x400, big) + unit_bytes(
            0xDC00 + (v - 0x10000) % 0x400,
            big,
        )
    }
}

/// A text in UTF-16, without a byte-order mark.
pub open spec fn utf16(text: Seq<char>, big: bool) -> Seq<u8>
    decreases text.len(),
{
    if text.len() == 0 {
        Seq::empty()
    } else {
        utf16_char(text[0], big) + utf16(text.drop_first(), big)
    }
}

pub open spec fn utf16_label(big: bool) -> Seq<char> {
    if big {
        "UTF-16BE"@
    } else {
        "UTF-16LE"@
    }
}

pub open spec fn utf16_mark(big: bool) -> Seq<u8> {
    if big {
        seq![0xFEu8, 0xFF]
    } else {
        seq![0xFFu8, 0xFE]
    }
}

/// Bytes that are few enough for their text to be built in memory.
pub open spec fn decodable(bytes: Seq<u8>) -> bool {
    bytes.len() <= usize::MAX / 16
}

/// `encoding_rs::Encoding::for_label`, and the name of what it finds.
///
/// The result depends on the label alone.
#[verifier::external_body]
fn name_of_label(label: &str) -> (name: Option<String>)
    ensures
        model::opt(name) == registered(label@),
{
    Encoding::for_label(label.as_bytes()).map(|encoding| encoding.name().to_owned())
}

/// `encoding_rs::Encoding::decode`, on the encoding that a label stands for.
///
/// The result depends on the label and the bytes alone, and there is one
/// exactly where the label is known. A byte-order mark decides over the label;
/// without one the encoding of the label is used. The decoders of the two forms
/// of UTF-16 give back the text that was written in that form, with nothing
/// replaced. The decoder asks for a buffer of at most three bytes and a few more
/// for each byte, and doubles it at most once: that must not overflow.
#[verifier::external_body]
fn decode_by_label(label: &str, bytes: &[u8]) -> (decoded: Option<Decoding>)
    requires
        decodable(bytes@),
    ensures
        model::opt(decoded) == decoding(label@, bytes@),
        decoded is Some <==> registered(label@) is Some,
        decoded is Some && !xml::starts_with_mark(bytes@) && !starts_with_wide_mark(bytes@) ==> Some(
            decoded->Some_0.encoding@,
        ) == registered(label@),
        !xml::starts_with_mark(bytes@) && !starts_with_wide_mark(bytes@) ==> forall|
            text: Seq<char>,
            big: bool,
        |
            label@ == utf16_label(big) && bytes@ == #[trigger] utf16(text, big) ==> model::opt(
                decoded,
            ) == Some(DecodingView { text, encoding: utf16_label(big), malformed: false }),
{
    Encoding::for_label(label.as_bytes()).map(|encoding| {
        let (text, used, malformed) = encoding.decode(bytes);
        Decoding { text: text.into_owned(), encoding: used.name().to_owned(), malformed }
    })
}

/// `std::str::from_utf8`: the text of bytes that are valid UTF-8.
#[verifier::external_body]
fn utf8_text<'a>(bytes: &'a [u8]) -> (text: Option<&'a str>)
    ensures
        text is Some <==> valid_utf8(bytes@),
        text matches Some(text) ==> text.spec_bytes() == bytes@,
{
    std::str::from_utf8(bytes).ok()
}

/// `String::from_utf8_lossy`.
///
/// The result depends on the bytes alone, and is their text where they are
/// valid UTF-8. What is replaced takes up to three bytes, which must not
/// overflow the text.
#[verifier::external_body]
fn utf8_lossy(bytes: &[u8]) -> (text: String)
    requires
        decodable(bytes@),
    ensures
        text@ == lossy_text(bytes@),
        valid_utf8(bytes@) ==> text@ == decode_utf8(bytes@),
{
    String::from_utf8_lossy(bytes).into_owned()
}

// ---- labels -------------------------------------------------------------

/// The letters and digits of a label, in upper case.
pub open spec fn condensed(label: Seq<u8>) -> Seq<u8>
    decreases label.len(),
{
    if label.len() == 0 {
        Seq::empty()
    } else {
        let b = label.last();
        let before = condensed(label.drop_last());
        if 0x30 <= b <= 0x39 || 0x41 <= b <= 0x5A {
            before.push(b)
        } else if 0x61 <= b <= 0x7A {
            before.push((b - 0x20) as u8)
        } else {
            before
        }
    }
}

/// The names of Korean code pages that the Encoding Standard does not register,
/// condensed.
pub open spec fn is_korean_code_page(name: Seq<u8>) -> bool {
    ||| name == encode_utf8("CP949"@)
    ||| name == encode_utf8("MS949"@)
    ||| name == encode_utf8("XEUCKR"@)
    ||| name == encode_utf8("UHC"@)
}

/// The name of the encoding that a label stands for, where `registered_name` is
/// what the Encoding Standard says of it.
pub open spec fn resolved_with(
    label: Seq<char>,
    registered_name: Option<Seq<char>>,
) -> Option<Seq<char>> {
    match registered_name {
        Some(name) => Some(name),
        None => if is_korean_code_page(condensed(encode_utf8(label))) {
            Some("EUC-KR"@)
        } else {
            None
        },
    }
}

/// The name of the encoding that a label stands for.
pub open spec fn resolved(label: Seq<char>) -> Option<Seq<char>> {
    resolved_with(label, registered(label))
}

fn condense(label: &[u8]) -> (name: Vec<u8>)
    ensures
        name@ == condensed(label@),
{
    let mut name: Vec<u8> = Vec::new();
    let mut i: usize = 0;
    assert(label@.subrange(0, 0) =~= Seq::empty());
    while i < label.len()
        invariant
            i <= label@.len(),
            name@ == condensed(label@.subrange(0, i as int)),
        decreases label@.len() - i,
    {
        let b = label[i];
        proof {
            let next = label@.subrange(0, i + 1);
            assert(next.drop_last() =~= label@.subrange(0, i as int));
            assert(next.last() == b);
        }
        if (b >= 0x30 && b <= 0x39) || (b >= 0x41 && b <= 0x5A) {
            name.push(b);
        } else if b >= 0x61 && b <= 0x7A {
            name.push(b - 0x20);
        }
        i += 1;
    }
    assert(label@.subrange(0, label@.len() as int) =~= label@);
    name
}

/// Settles what a label stands for, once it is known what the Encoding Standard
/// says.
pub fn resolve_with(label: &str, registered_name: Option<String>) -> (name: Option<String>)
    ensures
        model::opt(name) == resolved_with(label@, model::opt(registered_name)),
{
    if registered_name.is_some() {
        return registered_name;
    }
    let name = condense(label.as_bytes());
    let name = name.as_slice();
    if bytes_eq(name, "CP949".as_bytes()) || bytes_eq(name, "MS949".as_bytes()) || bytes_eq(
        name,
        "XEUCKR".as_bytes(),
    ) || bytes_eq(name, "UHC".as_bytes()) {
        Some("EUC-KR".to_owned())
    } else {
        None
    }
}

/// Finds the encoding that a label stands for.
pub fn resolve_label(label: &str) -> (name: Option<String>)
    ensures
        model::opt(name) == resolved(label@),
{
    resolve_with(label, name_of_label(label))
}

// ---- the XML declaration ------------------------------------------------

/// The bytes in which an XML declaration is looked for.
pub open spec fn head_of(bytes: Seq<u8>) -> Seq<u8> {
    if bytes.len() <= 200 {
        bytes
    } else {
        bytes.subrange(0, 200)
    }
}

/// The part of a head up to the first `?>`, which ends an XML declaration.
pub open spec fn declaration_of(head: Seq<u8>) -> Seq<u8> {
    match text::first_match(head, encode_utf8("?>"@), 0) {
        Some(end) => head.subrange(0, end),
        None => head,
    }
}

/// The quoted value of `encoding=` in a declaration, if it is one.
pub open spec fn quoted_label(declaration: Seq<u8>) -> Option<Seq<u8>> {
    if !text::occurs_at(
        declaration,
        encode_utf8("<?xml"@),
        text::trimmed_start(declaration, 0, declaration.len() as int),
    ) {
        None
    } else {
        match text::first_match(declaration, encode_utf8("encoding="@), 0) {
            Some(i) => {
                let quote = i + 9;
                if quote < declaration.len() && attrs::is_quote(declaration[quote]) {
                    match text::first_byte(declaration, declaration[quote], quote + 1) {
                        Some(end) => Some(declaration.subrange(quote + 1, end)),
                        None => None,
                    }
                } else {
                    None
                }
            },
            None => None,
        }
    }
}

/// The label in the XML declaration that a head starts with. What stands behind
/// the declaration does not count.
pub open spec fn declared_in(head: Seq<u8>) -> Option<Seq<u8>> {
    quoted_label(declaration_of(head))
}

/// The encoding that the XML declaration of a document names.
pub open spec fn declared(bytes: Seq<u8>) -> Option<Seq<char>> {
    match declared_in(head_of(bytes)) {
        Some(label) => Some(text_of(label)),
        None => None,
    }
}

/// A needle that does not occur in a text does not occur in a part of it.
pub proof fn lemma_absent(bytes: Seq<u8>, needle: Seq<u8>, from: int, to: int)
    requires
        0 <= from <= to <= bytes.len(),
        text::first_match(bytes, needle, 0) is None,
    ensures
        text::first_match(bytes.subrange(from, to), needle, 0) is None,
{
    let part = bytes.subrange(from, to);
    text::lemma_first_match(bytes, needle, 0);
    text::lemma_first_match(part, needle, 0);
    if let Some(i) = text::first_match(part, needle, 0) {
        assert(bytes.subrange(from + i, from + i + needle.len()) =~= part.subrange(
            i,
            i + needle.len(),
        ));
        assert(text::occurs_at(bytes, needle, from + i));
    }
}

/// A document without `encoding=` declares no encoding.
pub proof fn law_nothing_is_declared(bytes: Seq<u8>)
    requires
        text::first_match(bytes, encode_utf8("encoding="@), 0) is None,
    ensures
        declared(bytes) is None,
{
    let needle = encode_utf8("encoding="@);
    let head = head_of(bytes);
    lemma_absent(bytes, needle, 0, head.len() as int);
    assert(bytes.subrange(0, head.len() as int) =~= head);
    text::lemma_first_match(head, encode_utf8("?>"@), 0);
    if let Some(end) = text::first_match(head, encode_utf8("?>"@), 0) {
        lemma_absent(head, needle, 0, end);
    }
}

/// A declaration behind a byte-order mark is not seen.
pub proof fn lemma_mark_hides(bytes: Seq<u8>)
    requires
        xml::starts_with_mark(bytes),
    ensures
        declared(bytes) is None,
{
    let head = head_of(bytes);
    let declaration = declaration_of(head);
    reveal_strlit("<?xml");
    is_ascii_chars_encode_utf8("<?xml"@);
    text::lemma_first_match(head, encode_utf8("?>"@), 0);
    let start = text::trimmed_start(declaration, 0, declaration.len() as int);
    if declaration.len() > 0 {
        assert(declaration[0] == 0xEF);
        assert(text::space_width(declaration, 0, declaration.len() as int) == 0);
        assert(start == 0);
        if text::occurs_at(declaration, encode_utf8("<?xml"@), 0) {
            assert(declaration.subrange(0, 5)[0] == declaration[0]);
        }
    }
}

/// Nothing that stands behind the end of an XML declaration is taken for its
/// encoding.
pub proof fn law_only_the_declaration_counts(declaration: Seq<u8>, rest: Seq<u8>)
    requires
        text::first_match(declaration + encode_utf8("?>"@), encode_utf8("?>"@), 0) == Some(
            declaration.len() as int,
        ),
    ensures
        declared_in(declaration + encode_utf8("?>"@) + rest) == quoted_label(declaration),
{
    let end = encode_utf8("?>"@);
    let n = declaration.len() as int;
    let short = declaration + end;
    let head = short + rest;
    text::lemma_first_match(short, end, 0);
    text::lemma_first_match(head, end, 0);
    assert(head.subrange(n, n + end.len()) =~= short.subrange(n, n + end.len()));
    assert(text::occurs_at(head, end, n));
    let at = text::first_match(head, end, 0)->0;
    if at < n {
        assert(head.subrange(at, at + end.len()) =~= short.subrange(at, at + end.len()));
        assert(text::occurs_at(short, end, at));
    }
    assert(head.subrange(0, n) =~= declaration);
}

/// The part of a head in which a label is looked for.
fn declaration_in<'a>(head: &'a [u8]) -> (declaration: &'a [u8])
    ensures
        declaration@ == declaration_of(head@),
        declaration@.len() <= head@.len(),
{
    match find(head, "?>".as_bytes(), 0) {
        Some(end) => slice_subrange(head, 0, end),
        None => head,
    }
}

/// Reads the label in the XML declaration that `head` starts with.
pub fn declared_label<'a>(head: &'a [u8]) -> (label: Option<&'a [u8]>)
    ensures
        match label {
            Some(label) => declared_in(head@) == Some(label@) && label@.len() <= head@.len(),
            None => declared_in(head@) is None,
        },
{
    let bytes = declaration_in(head);
    let len = bytes.len();
    let needle = "encoding=";
    proof {
        reveal_strlit("encoding=");
        is_ascii_chars_encode_utf8(needle@);
    }
    if !occurs(bytes, "<?xml".as_bytes(), trim_start(bytes, 0, len)) {
        return None;
    }
    match find(bytes, needle.as_bytes(), 0) {
        Some(i) => {
            let quote = i + needle.as_bytes().len();
            assert(quote == i + 9);
            if quote >= len || (bytes[quote] != attrs::DOUBLE_QUOTE && bytes[quote]
                != attrs::SINGLE_QUOTE) {
                return None;
            }
            match find_byte(bytes, quote + 1, bytes[quote]) {
                Some(end) => Some(slice_subrange(bytes, quote + 1, end)),
                None => None,
            }
        },
        None => None,
    }
}

/// Looks for an XML declaration in the first bytes of a document and reads the
/// encoding that it names.
pub fn detect_declared_encoding(bytes: &[u8]) -> (label: Option<String>)
    ensures
        model::opt(label) == declared(bytes@),
{
    let head = if bytes.len() <= 200 {
        bytes
    } else {
        slice_subrange(bytes, 0, 200)
    };
    match declared_label(head) {
        Some(label) => Some(utf8_lossy(label)),
        None => None,
    }
}

// ---- the choice ---------------------------------------------------------

pub open spec fn starts_with_wide_mark(bytes: Seq<u8>) -> bool {
    bytes.len() >= 2 && (bytes[0] == 0xFF && bytes[1] == 0xFE || bytes[0] == 0xFE && bytes[1]
        == 0xFF)
}

/// What a declared label that does not stand for the actual encoding is
/// diagnosed with. `name` is what the label stands for.
pub open spec fn mismatch(
    label: Seq<char>,
    name: Option<Seq<char>>,
    actual: Seq<char>,
) -> Option<DiagnosticView> {
    if name == Some(actual) {
        None
    } else {
        Some(
            DiagnosticView {
                code: DiagCode::EncodingMismatch,
                span: None,
                message: "declared encoding '"@ + label
                    + "' does not match the actual encoding ("@ + actual + "); using "@ + actual,
            },
        )
    }
}

/// The diagnostics of a document in `actual` that declares `label`.
pub open spec fn mismatches(label: Option<Seq<char>>, actual: Seq<char>) -> Seq<DiagnosticView> {
    match label {
        Some(label) => match mismatch(label, resolved(label), actual) {
            Some(d) => seq![d],
            None => Seq::empty(),
        },
        None => Seq::empty(),
    }
}

pub open spec fn undetectable() -> DiagnosticView {
    DiagnosticView {
        code: DiagCode::EncodingUndetectable,
        span: None,
        message: "could not confidently detect an encoding (tried UTF-8, the declared label, EUC-KR/CP949 heuristic); decoded lossily"@,
    }
}

/// A decoded document.
pub struct Decoded {
    pub text: String,
    pub diagnostics: Vec<Diagnostic>,
    /// The name of the encoding that was used.
    pub encoding: String,
    /// No encoding fitted, and what is not UTF-8 was replaced.
    pub lossy: bool,
}

pub struct DecodedView {
    pub text: Seq<char>,
    pub diagnostics: Seq<DiagnosticView>,
    pub encoding: Seq<char>,
    pub lossy: bool,
}

impl View for Decoded {
    type V = DecodedView;

    open spec fn view(&self) -> DecodedView {
        DecodedView {
            text: self.text@,
            diagnostics: model::deep(self.diagnostics@),
            encoding: self.encoding@,
            lossy: self.lossy,
        }
    }
}

/// The bytes of a document without a leading UTF-8 byte-order mark.
pub open spec fn content_of(bytes: Seq<u8>) -> Seq<u8> {
    if xml::starts_with_mark(bytes) {
        bytes.subrange(3, bytes.len() as int)
    } else {
        bytes
    }
}

/// A decoding is taken where nothing was replaced in it.
pub open spec fn taken(
    decoding: Option<DecodingView>,
    diagnostics: Seq<DiagnosticView>,
) -> Option<DecodedView> {
    match decoding {
        Some(d) => if d.malformed {
            None
        } else {
            Some(DecodedView { text: d.text, diagnostics, encoding: d.encoding, lossy: false })
        },
        None => None,
    }
}

/// What a UTF-16 byte-order mark calls for.
pub open spec fn by_mark(bytes: Seq<u8>) -> Option<DecodingView> {
    if bytes.len() >= 2 && bytes[0] == 0xFF && bytes[1] == 0xFE {
        decoding("UTF-16LE"@, bytes.subrange(2, bytes.len() as int))
    } else if bytes.len() >= 2 && bytes[0] == 0xFE && bytes[1] == 0xFF {
        decoding("UTF-16BE"@, bytes.subrange(2, bytes.len() as int))
    } else {
        None
    }
}

/// What a declared label calls for.
pub open spec fn by_declaration(
    label: Option<Seq<char>>,
    content: Seq<u8>,
) -> Option<DecodingView> {
    match label {
        Some(label) => match resolved(label) {
            Some(name) => decoding(name, content),
            None => None,
        },
        None => None,
    }
}

pub open spec fn decoded_lossily(content: Seq<u8>) -> DecodedView {
    DecodedView {
        text: lossy_text(content),
        diagnostics: seq![undetectable()],
        encoding: "UTF-8"@,
        lossy: true,
    }
}

/// What a document without a byte-order mark decodes to.
pub open spec fn decoded_content(content: Seq<u8>) -> DecodedView {
    let label = declared(content);
    if valid_utf8(content) {
        DecodedView {
            text: decode_utf8(content),
            diagnostics: mismatches(label, "UTF-8"@),
            encoding: "UTF-8"@,
            lossy: false,
        }
    } else {
        match taken(by_declaration(label, content), Seq::empty()) {
            Some(d) => d,
            None => match taken(decoding("EUC-KR"@, content), mismatches(label, "EUC-KR"@)) {
                Some(d) => d,
                None => decoded_lossily(content),
            },
        }
    }
}

/// What a document decodes to.
pub open spec fn decoded(bytes: Seq<u8>) -> DecodedView {
    match taken(by_mark(bytes), Seq::empty()) {
        Some(d) => d,
        None => decoded_content(content_of(bytes)),
    }
}

/// Diagnostics about the encoding, which have no place in the text.
pub open spec fn about_encoding(diagnostics: Seq<DiagnosticView>) -> bool {
    forall|k: int|
        0 <= k < diagnostics.len() ==> (#[trigger] diagnostics[k]).span is None && (
        diagnostics[k].code == DiagCode::EncodingMismatch || diagnostics[k].code
            == DiagCode::EncodingUndetectable)
}

/// A document that is valid UTF-8 is decoded to its own text, whatever its
/// declaration says.
pub proof fn law_utf8_is_kept(bytes: Seq<u8>)
    requires
        valid_utf8(bytes),
        !xml::starts_with_mark(bytes),
    ensures
        decoded(bytes).text == decode_utf8(bytes),
        decoded(bytes).encoding == "UTF-8"@,
        encode_utf8(decoded(bytes).text) == bytes,
{
    decode_utf8_encode_utf8(bytes);
}

/// A document that is valid UTF-8 behind a byte-order mark is decoded to the
/// text behind the mark.
pub proof fn law_utf8_mark_is_dropped(bytes: Seq<u8>)
    requires
        valid_utf8(bytes),
    ensures
        decoded(seq![0xEFu8, 0xBB, 0xBF] + bytes).text == decode_utf8(bytes),
        decoded(seq![0xEFu8, 0xBB, 0xBF] + bytes).encoding == "UTF-8"@,
{
    let marked = seq![0xEFu8, 0xBB, 0xBF] + bytes;
    assert(marked.subrange(3, marked.len() as int) =~= bytes);
}

/// What fits wins over what is declared: a document in UTF-8 that declares
/// something else is diagnosed, and one that declares UTF-8 or nothing is not.
pub proof fn law_mismatch_is_reported(bytes: Seq<u8>)
    requires
        valid_utf8(bytes),
        !xml::starts_with_mark(bytes),
    ensures
        match declared(bytes) {
            Some(label) => if resolved(label) == Some("UTF-8"@) {
                decoded(bytes).diagnostics.len() == 0
            } else {
                decoded(bytes).diagnostics.len() == 1 && decoded(bytes).diagnostics[0].code
                    == DiagCode::EncodingMismatch
            },
            None => decoded(bytes).diagnostics.len() == 0,
        },
{
}

/// What a document in UTF-16 behind its byte-order mark decodes to, whatever it
/// declares.
pub open spec fn from_utf16(text: Seq<char>, big: bool) -> DecodedView {
    DecodedView { text, diagnostics: Seq::empty(), encoding: utf16_label(big), lossy: false }
}

/// A text in UTF-16 behind its byte-order mark, behind which no further mark
/// stands: the decoder would drop a second one.
pub open spec fn is_utf16_of(bytes: Seq<u8>, text: Seq<char>, big: bool) -> bool {
    let rest = utf16(text, big);
    &&& bytes == utf16_mark(big) + rest
    &&& !xml::starts_with_mark(rest)
    &&& !starts_with_wide_mark(rest)
}

/// A character that alone, or with what follows, reads as a byte-order mark in
/// UTF-16.
pub open spec fn may_read_as_mark(c: char) -> bool {
    let v = c as u32;
    v == 0xFEFF || v == 0xFFFE || v == 0xEFBB || v == 0xBBEF
}

proof fn lemma_first_unit(c: char, big: bool)
    requires
        !may_read_as_mark(c),
    ensures
        utf16_char(c, big).len() >= 2,
        ({
            let first = utf16_char(c, big)[0];
            let second = utf16_char(c, big)[1];
            &&& !(first == 0xFF && second == 0xFE)
            &&& !(first == 0xFE && second == 0xFF)
            &&& !(first == 0xEF && second == 0xBB)
        }),
{
    let v = c as u32 as int;
    if v < 0x10000 {
        assert(v == 256 * (v / 256) + v % 256);
    } else {
        assert(0xD8 <= (0xD800 + (v - 0x10000) / 0x400) / 256 <= 0xDB);
    }
}

/// A text in UTF-16 behind its byte-order mark is one without a further mark,
/// unless its first character reads as one. Markup, which starts with `<`, is.
pub proof fn law_utf16_has_one_mark(text: Seq<char>, big: bool)
    requires
        text.len() > 0 ==> !may_read_as_mark(text[0]),
    ensures
        is_utf16_of(utf16_mark(big) + utf16(text, big), text, big),
{
    if text.len() > 0 {
        lemma_first_unit(text[0], big);
        let rest = utf16(text, big);
        assert(rest[0] == utf16_char(text[0], big)[0] && rest[1] == utf16_char(text[0], big)[1]);
    }
}

/// Compares what is declared with what fits.
pub fn declared_mismatch_diagnostic(
    label: &str,
    name: &Option<String>,
    actual: &str,
) -> (found: Option<Diagnostic>)
    ensures
        model::opt(found) == mismatch(label@, model::opt(*name), actual@),
{
    if let Some(name) = name {
        if str_eq(name.as_str(), actual) {
            return None;
        }
    }
    let mut message = "declared encoding '".to_owned();
    push(&mut message, label);
    push(&mut message, "' does not match the actual encoding (");
    push(&mut message, actual);
    push(&mut message, "); using ");
    push(&mut message, actual);
    Some(diagnostic(DiagCode::EncodingMismatch, None, message))
}

fn note_mismatch(label: &Option<String>, actual: &str) -> (diagnostics: Vec<Diagnostic>)
    ensures
        model::deep(diagnostics@) == mismatches(model::opt(*label), actual@),
{
    let mut diagnostics: Vec<Diagnostic> = Vec::new();
    assert(model::deep(diagnostics@) =~= Seq::empty());
    if let Some(label) = label {
        let name = resolve_label(label.as_str());
        if let Some(d) = declared_mismatch_diagnostic(label.as_str(), &name, actual) {
            diagnostics.push(d);
            assert(model::deep(diagnostics@) =~= seq![d@]);
        }
    }
    diagnostics
}

/// Takes a decoding in which nothing was replaced.
pub fn take_faithful(
    decoding: Option<Decoding>,
    diagnostics: Vec<Diagnostic>,
) -> (taken_as: Option<Decoded>)
    ensures
        model::opt(taken_as) == taken(model::opt(decoding), model::deep(diagnostics@)),
{
    match decoding {
        Some(d) => if d.malformed {
            None
        } else {
            Some(Decoded { text: d.text, diagnostics, encoding: d.encoding, lossy: false })
        },
        None => None,
    }
}

fn try_mark(bytes: &[u8]) -> (found: Option<Decoding>)
    requires
        decodable(bytes@),
    ensures
        model::opt(found) == by_mark(bytes@),
        forall|text: Seq<char>, big: bool| #[trigger]
            is_utf16_of(bytes@, text, big) ==> model::opt(found) == Some(
                DecodingView { text, encoding: utf16_label(big), malformed: false },
            ),
{
    let ghost rest = bytes@.subrange(2, bytes@.len() as int);
    proof {
        assert forall|text: Seq<char>, big: bool| #[trigger]
            is_utf16_of(bytes@, text, big) implies rest == utf16(text, big)
            && !xml::starts_with_mark(rest) && !starts_with_wide_mark(rest) && bytes@.len() >= 2
            && bytes@[0] == utf16_mark(big)[0] && bytes@[1] == utf16_mark(big)[1] by {
            assert(rest =~= utf16(text, big));
        }
    }
    if bytes.len() >= 2 && bytes[0] == 0xFF && bytes[1] == 0xFE {
        decode_by_label("UTF-16LE", slice_subrange(bytes, 2, bytes.len()))
    } else if bytes.len() >= 2 && bytes[0] == 0xFE && bytes[1] == 0xFF {
        decode_by_label("UTF-16BE", slice_subrange(bytes, 2, bytes.len()))
    } else {
        None
    }
}

fn try_declared(label: &Option<String>, content: &[u8]) -> (found: Option<Decoding>)
    requires
        decodable(content@),
    ensures
        model::opt(found) == by_declaration(model::opt(*label), content@),
{
    match label {
        Some(label) => match resolve_label(label.as_str()) {
            Some(name) => decode_by_label(name.as_str(), content),
            None => None,
        },
        None => None,
    }
}

/// Decodes a document, and names the encoding that was used.
pub fn decode_named(bytes: &[u8]) -> (r: Decoded)
    requires
        decodable(bytes@),
    ensures
        r@ == decoded(bytes@),
        about_encoding(r@.diagnostics),
        forall|text: Seq<char>, big: bool| #[trigger]
            is_utf16_of(bytes@, text, big) ==> r@ == from_utf16(text, big),
{
    let none: Vec<Diagnostic> = Vec::new();
    assert(model::deep(none@) =~= Seq::empty());
    if let Some(r) = take_faithful(try_mark(bytes), none) {
        return r;
    }
    let content = if bytes.len() >= 3 && bytes[0] == 0xEF && bytes[1] == 0xBB && bytes[2]
        == 0xBF {
        slice_subrange(bytes, 3, bytes.len())
    } else {
        bytes
    };
    let label = detect_declared_encoding(content);
    if let Some(text) = utf8_text(content) {
        proof {
            encode_utf8_decode_utf8(text@);
        }
        return Decoded {
            text: text.to_owned(),
            diagnostics: note_mismatch(&label, "UTF-8"),
            encoding: "UTF-8".to_owned(),
            lossy: false,
        };
    }
    let none: Vec<Diagnostic> = Vec::new();
    assert(model::deep(none@) =~= Seq::empty());
    if let Some(r) = take_faithful(try_declared(&label, content), none) {
        return r;
    }
    if let Some(r) = take_faithful(
        decode_by_label("EUC-KR", content),
        note_mismatch(&label, "EUC-KR"),
    ) {
        return r;
    }
    let mut diagnostics: Vec<Diagnostic> = Vec::new();
    let message = "could not confidently detect an encoding (tried UTF-8, the declared label, EUC-KR/CP949 heuristic); decoded lossily";
    diagnostics.push(diagnostic(DiagCode::EncodingUndetectable, None, message.to_owned()));
    assert(model::deep(diagnostics@) =~= seq![undetectable()]);
    Decoded {
        text: utf8_lossy(content),
        diagnostics,
        encoding: "UTF-8".to_owned(),
        lossy: true,
    }
}

/// Decodes a document.
pub fn decode(bytes: &[u8]) -> (r: (String, Vec<Diagnostic>))
    requires
        decodable(bytes@),
    ensures
        r.0@ == decoded(bytes@).text,
        model::deep(r.1@) == decoded(bytes@).diagnostics,
        forall|text: Seq<char>, big: bool| #[trigger]
            is_utf16_of(bytes@, text, big) ==> r.0@ == text && r.1@.len() == 0,
{
    let decoded = decode_named(bytes);
    assert(decoded@.diagnostics.len() == decoded.diagnostics@.len());
    (decoded.text, decoded.diagnostics)
}

} // verus!
