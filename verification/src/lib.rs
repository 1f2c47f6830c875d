//! A parser for MyBatis and iBatis mapper XML that flattens dynamic SQL.
//!
//! A mapper file is read into its statements, fragments and result maps. The
//! SQL of each statement comes out as the shapes that it can take, each with
//! the conditions under which it does and with a map back to the source.
//! Nothing is ever refused: what is wrong with a file is reported as a
//! diagnostic, and what can be read of it is read.
use vstd::prelude::*;
use vstd::string::*;
use vstd::utf8::*;

pub mod attrs;
pub mod body;
pub mod choosing;
pub mod codes;
pub mod columns;
pub mod edges;
pub mod elements;
pub mod encoding;
pub mod finds;
pub mod flatten;
pub mod includes;
pub mod mapper;
pub mod model;
pub mod order;
pub mod parse;
pub mod paths;
pub mod placeholder;
pub mod places;
pub mod reading;
pub mod result_map;
pub mod size;
pub mod sql;
pub mod statement;
pub mod strips;
pub mod tags;
pub mod text;
pub mod union_walk;
pub mod unions;
pub mod ways;
pub mod wrapper;
pub mod xml;

pub use model::{
    ByteSpan, ClassRef, ColumnMapping, DiagCode, Diagnostic, Dialect, IncludeRef, IncludeTarget,
    Mapper, ParseResult, ResultMap, Spanned, SqlFragment, SqlString, SqlText, SqlVariant,
    Statement, StatementKind,
};

verus! {

/// How many bytes of input are accepted. More is answered with
/// [`DiagCode::OversizeInput`].
pub const MAX_INPUT_BYTES: usize = 10485760;

/// Parses a text. Whatever is wrong with it is in
/// [`ParseResult::diagnostics`].
pub fn parse(source: &str) -> (result: ParseResult)
    ensures
        result@ == parse::parsed(source.spec_bytes()),
        parse::result_ok(result@, parse::unmarked(source.spec_bytes())),
        result.encoding is Some && result.encoding->Some_0@ == "UTF-8"@,
        result.mapper is None <==> result.dialect == Dialect::Unknown,
{
    proof {
        parse::law_text_is_utf8(source.spec_bytes());
        parse::law_no_mapper_is_explained(source.spec_bytes());
    }
    parse::parse_str(source)
}

/// Finds out how a document is encoded, decodes it and parses it. The encoding
/// that was used is in [`ParseResult::encoding`]. A document that no encoding
/// fits has no mapper and is diagnosed with [`DiagCode::EncodingUndetectable`].
/// A document in UTF-16 behind its byte-order mark parses as its text does.
pub fn parse_bytes(bytes: &[u8]) -> (result: ParseResult)
    ensures
        result@ == parse::parsed_bytes(bytes@),
        bytes@.len() <= MAX_INPUT_BYTES ==> parse::result_ok(result@, parse::source_of(bytes@)),
        result.mapper is None <==> result.dialect == Dialect::Unknown,
        result.encoding is None <==> bytes@.len() > MAX_INPUT_BYTES,
        forall|text: Seq<char>, big: bool| #[trigger]
            encoding::is_utf16_of(bytes@, text, big) && bytes@.len() <= MAX_INPUT_BYTES ==> result@
                == (model::ParseResultView {
                encoding: Some(encoding::utf16_label(big)),
                ..parse::parsed(encode_utf8(text))
            }),
{
    proof {
        parse::law_byte_detection_agrees(bytes@);
    }
    if bytes.len() > MAX_INPUT_BYTES {
        return parse::oversize_result(bytes.len(), None);
    }
    let decoded = encoding::decode_named(bytes);
    proof {
        assert forall|text: Seq<char>, big: bool| #[trigger]
            encoding::is_utf16_of(bytes@, text, big) implies parse::parsed_decoded(decoded@)
            == (model::ParseResultView {
            encoding: Some(encoding::utf16_label(big)),
            ..parse::parsed(encode_utf8(text))
        }) by {
            let plain = parse::parsed(encode_utf8(text)).diagnostics;
            assert(decoded@.diagnostics + plain =~= plain);
        }
    }
    parse::parse_decoded(decoded)
}

/// Finds the dialect of a document without parsing it. It is the dialect that
/// [`parse_bytes`] reports.
pub fn detect_dialect(bytes: &[u8]) -> (dialect: Dialect)
    ensures
        dialect == parse::detected_bytes(bytes@),
        dialect == parse::parsed_bytes(bytes@).dialect,
{
    proof {
        parse::law_byte_detection_agrees(bytes@);
    }
    if bytes.len() > MAX_INPUT_BYTES {
        return Dialect::Unknown;
    }
    let decoded = encoding::decode_named(bytes);
    if decoded.lossy {
        return Dialect::Unknown;
    }
    parse::detect_dialect_str(decoded.text.as_str())
}

} // verus!
