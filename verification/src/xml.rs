//! The XML token stream, read through `quick_xml`.
use crate::model;
use crate::text;
use quick_xml::errors::IllFormedError::{MismatchedEndTag, UnmatchedEndTag};
use quick_xml::events::Event;
use quick_xml::reader::Reader;
use quick_xml::Error::IllFormed;
use vstd::prelude::*;
use vstd::string::*;
use vstd::utf8::*;

verus! {

/// What one token of an XML document is. A tag carries its local name, that is
/// its name without the namespace prefix.
#[derive(Debug, Clone, PartialEq)]
pub enum XmlEvent {
    Start(String),
    Empty(String),
    End,
    Text,
    CData,
    /// An entity or character reference, from `&` to `;`.
    Reference,
    /// A comment, a processing instruction or a declaration.
    Other,
    /// Markup that the reader rejects and skips.
    Malformed {
        /// A closing tag that closes nothing, or another element.
        orphan_close: bool,
        message: String,
        position: u64,
    },
    /// The end of the document.
    Eof,
}

pub enum EventView {
    Start(Seq<char>),
    Empty(Seq<char>),
    End,
    Text,
    CData,
    Reference,
    Other,
    Malformed { orphan_close: bool, message: Seq<char>, position: u64 },
    Eof,
}

impl View for XmlEvent {
    type V = EventView;

    open spec fn view(&self) -> EventView {
        match self {
            XmlEvent::Start(name) => EventView::Start(name@),
            XmlEvent::Empty(name) => EventView::Empty(name@),
            XmlEvent::End => EventView::End,
            XmlEvent::Text => EventView::Text,
            XmlEvent::CData => EventView::CData,
            XmlEvent::Reference => EventView::Reference,
            XmlEvent::Other => EventView::Other,
            XmlEvent::Malformed { orphan_close, message, position } => EventView::Malformed {
                orphan_close: *orphan_close,
                message: message@,
                position: *position,
            },
            XmlEvent::Eof => EventView::Eof,
        }
    }
}

/// One token, and where it ends in the document. It starts where the token
/// before it ends.
#[derive(Debug, Clone, PartialEq)]
pub struct XmlToken {
    pub event: XmlEvent,
    pub end: usize,
}

pub struct TokenView {
    pub event: EventView,
    pub end: nat,
}

impl View for XmlToken {
    type V = TokenView;

    open spec fn view(&self) -> TokenView {
        TokenView { event: self.event@, end: self.end as nat }
    }
}

#[verifier::external_type_specification]
#[verifier::external_body]
#[verifier::reject_recursive_types(R)]
pub struct ExReader<R>(quick_xml::reader::Reader<R>);

/// The tokens of a document, without the end of the document.
pub uninterp spec fn xml_tokens(source: Seq<char>) -> Seq<TokenView>;

/// The tokens that a reader has still to give.
pub uninterp spec fn pending(reader: Reader<&[u8]>) -> Seq<TokenView>;

/// How many bytes of its document a reader has consumed.
pub uninterp spec fn consumed(reader: Reader<&[u8]>) -> nat;

/// Whether a text starts with a byte-order mark.
pub open spec fn starts_with_mark(source: Seq<u8>) -> bool {
    source.len() >= 3 && source[0] == 0xEF && source[1] == 0xBB && source[2] == 0xBF
}

/// Where the token at `i` starts.
pub open spec fn token_start(tokens: Seq<TokenView>, i: int) -> int {
    if i <= 0 {
        0
    } else {
        tokens[i - 1].end as int
    }
}

/// `token` stands in `source` at `start`.
pub open spec fn placed(source: Seq<u8>, start: int, token: TokenView) -> bool {
    &&& start <= token.end <= source.len()
    &&& text::is_cut(source, token.end as int)
    &&& match token.event {
        EventView::Start(name) => start + encode_utf8(name).len() + 2 <= token.end
            && source[start] == 0x3C,
        EventView::Empty(name) => start + encode_utf8(name).len() + 2 <= token.end
            && source[start] == 0x3C,
        EventView::Reference => start < token.end && source[start] == 0x26,
        EventView::CData => start + 12 <= token.end && text::is_cut(source, start + 9) && text::is_cut(
            source,
            token.end - 3,
        ),
        EventView::Malformed { position, .. } => position <= token.end,
        EventView::Eof => false,
        _ => start < token.end,
    }
}

/// The tokens stand in `source` one after the other.
pub open spec fn well_placed(source: Seq<u8>, tokens: Seq<TokenView>) -> bool {
    forall|i: int|
        0 <= i < tokens.len() ==> placed(source, token_start(tokens, i), #[trigger] tokens[i])
}

/// `quick_xml::Reader::from_str`, with lone ampersands let through as text.
///
/// The reader is at the start of the document and has its tokens to give.
/// They follow each other without a gap, each ends at a character boundary,
/// tags start with `<` and hold their name and two delimiters, references start
/// with `&`, and a CDATA section holds its opening delimiter of nine bytes and
/// its closing one of three. The reader drops a leading byte-order mark and does
/// not count it in its positions, so the last part is claimed of documents
/// without one.
#[verifier::external_body]
pub(crate) fn open_reader<'a>(source: &'a str) -> (reader: Reader<&'a [u8]>)
    ensures
        pending(reader) == xml_tokens(source@),
        consumed(reader) == 0,
        !starts_with_mark(source.spec_bytes()) ==> well_placed(
            source.spec_bytes(),
            pending(reader),
        ),
{
    let mut reader = Reader::from_str(source);
    reader.config_mut().allow_dangling_amp = true;
    reader
}

/// `quick_xml::Reader::read_event` on a document in memory.
///
/// It gives the first pending token and leaves the others, or says that the
/// document has ended, and goes on saying so. Every token but a malformed one
/// consumes input. Reading goes on behind what is ill-formed (tags that do not
/// match, a doctype without a name), which has been consumed, and ends at an
/// error of any other kind. So the tokens of a document are finitely many.
#[verifier::external_body]
pub(crate) fn next_event(reader: &mut Reader<&[u8]>) -> (event: XmlEvent)
    ensures
        event is Eof <==> pending(*old(reader)).len() == 0,
        event is Eof ==> pending(*final(reader)) == pending(*old(reader)) && consumed(
            *final(reader),
        ) == consumed(*old(reader)),
        event !is Eof ==> {
            &&& event@ == pending(*old(reader))[0].event
            &&& consumed(*final(reader)) == pending(*old(reader))[0].end
            &&& pending(*final(reader)) == pending(*old(reader)).drop_first()
        },
{
    match reader.read_event() {
        Ok(Event::Start(tag)) => XmlEvent::Start(String::from_utf8_lossy(tag.local_name().as_ref()).into_owned()),
        Ok(Event::Empty(tag)) => XmlEvent::Empty(String::from_utf8_lossy(tag.local_name().as_ref()).into_owned()),
        Ok(Event::End(_)) => XmlEvent::End,
        Ok(Event::Text(_)) => XmlEvent::Text,
        Ok(Event::CData(_)) => XmlEvent::CData,
        Ok(Event::GeneralRef(_)) => XmlEvent::Reference,
        Ok(Event::Eof) => XmlEvent::Eof,
        Ok(_) => XmlEvent::Other,
        Err(error) => XmlEvent::Malformed {
            orphan_close: matches!(error, IllFormed(UnmatchedEndTag(_) | MismatchedEndTag { .. })),
            message: format!("{error}"),
            position: reader.error_position(),
        },
    }
}

/// `quick_xml::Reader::buffer_position`: the number of bytes consumed.
#[verifier::external_body]
fn position(reader: &Reader<&[u8]>) -> (position: u64)
    ensures
        position == consumed(*reader),
{
    reader.buffer_position()
}

/// Reads the whole of a document into its tokens.
pub fn tokenize(source: &str) -> (tokens: Vec<XmlToken>)
    requires
        !starts_with_mark(source.spec_bytes()),
    ensures
        model::deep(tokens@) == xml_tokens(source@),
        well_placed(source.spec_bytes(), xml_tokens(source@)),
{
    broadcast use model::group_deep;

    let mut reader = open_reader(source);
    let mut tokens: Vec<XmlToken> = Vec::new();
    let ghost all = pending(reader);
    loop
        invariant
            model::deep(tokens@) + pending(reader) == all,
            all == xml_tokens(source@),
            well_placed(source.spec_bytes(), all),
            tokens@.len() <= all.len(),
        ensures
            model::deep(tokens@) == all,
        decreases pending(reader).len(),
    {
        let ghost before = pending(reader);
        let event = next_event(&mut reader);
        if matches!(event, XmlEvent::Eof) {
            assert(model::deep(tokens@) =~= all);
            break;
        }
        assert(all[tokens@.len() as int] == before[0]);
        let end: u64 = position(&reader);
        let bytes = source.as_bytes();
        assert(end <= bytes.len());
        let ghost old_tokens = tokens@;
        tokens.push(XmlToken { event, end: end as usize });
        assert(model::deep(tokens@) + pending(reader) =~= all);
    }
    tokens
}

} // verus!
