//! Which encoding a document is read in, said case by case of what its bytes
//! are and declare.
use crate::encoding;
use crate::encoding::{declared, decoded, decoding, registered, resolved};
use crate::model::DiagCode;
use crate::text;
use crate::xml;
use vstd::prelude::*;
use vstd::string::*;
use vstd::utf8::*;

verus! {

/// A document that is no UTF-8 and has no mark.
pub open spec fn is_foreign(bytes: Seq<u8>) -> bool {
    &&& !valid_utf8(bytes)
    &&& !xml::starts_with_mark(bytes)
    &&& !encoding::starts_with_wide_mark(bytes)
}

/// The bytes can be read in the encoding of this name with nothing replaced.
pub open spec fn fits(name: Seq<char>, bytes: Seq<u8>) -> bool {
    decoding(name, bytes) is Some && !decoding(name, bytes)->0.malformed
}

/// The bytes can be read in the encoding that they declare.
pub open spec fn fits_declared(bytes: Seq<u8>) -> bool {
    &&& declared(bytes) is Some
    &&& resolved(declared(bytes)->0) is Some
    &&& fits(resolved(declared(bytes)->0)->0, bytes)
}

/// A document that is no UTF-8 is read in the encoding that it declares where
/// that fits, without a diagnostic.
pub proof fn law_declared_encoding_is_used(bytes: Seq<u8>)
    requires
        is_foreign(bytes),
        fits_declared(bytes),
    ensures
        ({
            let d = decoding(resolved(declared(bytes)->0)->0, bytes)->0;
            &&& decoded(bytes).text == d.text
            &&& decoded(bytes).encoding == d.encoding
            &&& decoded(bytes).diagnostics.len() == 0
            &&& !decoded(bytes).lossy
        }),
{
}

/// Where what is declared does not fit, or nothing is declared, a document is
/// read as EUC-KR if that fits; where another encoding was declared, that is
/// reported.
pub proof fn law_korean_is_tried_next(bytes: Seq<u8>)
    requires
        is_foreign(bytes),
        !fits_declared(bytes),
        fits("EUC-KR"@, bytes),
    ensures
        decoded(bytes).text == decoding("EUC-KR"@, bytes)->0.text,
        decoded(bytes).encoding == decoding("EUC-KR"@, bytes)->0.encoding,
        !decoded(bytes).lossy,
        declared(bytes) is None ==> decoded(bytes).diagnostics.len() == 0,
        declared(bytes) matches Some(label) ==> resolved(label) != Some("EUC-KR"@)
            ==> decoded(bytes).diagnostics.len() == 1 && decoded(bytes).diagnostics[0].code
            == DiagCode::EncodingMismatch,
{
}

/// A document that nothing fits is read as UTF-8 with what is not replaced, and
/// that is reported.
pub proof fn law_nothing_fits(bytes: Seq<u8>)
    requires
        is_foreign(bytes),
        !fits_declared(bytes),
        !fits("EUC-KR"@, bytes),
    ensures
        decoded(bytes).text == encoding::lossy_text(bytes),
        decoded(bytes).lossy,
        decoded(bytes).encoding == "UTF-8"@,
        decoded(bytes).diagnostics.len() == 1,
        decoded(bytes).diagnostics[0].code == DiagCode::EncodingUndetectable,
        decoded(bytes).diagnostics[0].span is None,
{
}

/// A label that is registered stands for what is registered. Of the others, the
/// names of the Korean code pages stand for EUC-KR and any other for nothing.
pub proof fn law_labels(label: Seq<char>)
    ensures
        registered(label) is Some ==> resolved(label) == registered(label),
        registered(label) is None ==> ({
            let name = encoding::condensed(encode_utf8(label));
            if name == encode_utf8("CP949"@) || name == encode_utf8("MS949"@) || name
                == encode_utf8("XEUCKR"@) || name == encode_utf8("UHC"@) {
                resolved(label) == Some("EUC-KR"@)
            } else {
                resolved(label) is None
            }
        }),
{
}

/// A label is compared by its letters and digits alone, in any letter case.
pub proof fn law_label_spelling(a: Seq<u8>, b: Seq<u8>)
    ensures
        encoding::condensed(a + b) == encoding::condensed(a) + encoding::condensed(b),
        forall|c: u8|
            #![trigger encoding::condensed(seq![c])]
            {
                &&& 0x30 <= c <= 0x39 || 0x41 <= c <= 0x5A ==> encoding::condensed(seq![c])
                    == seq![c]
                &&& 0x61 <= c <= 0x7A ==> encoding::condensed(seq![c]) == seq![(c - 0x20) as u8]
                &&& !(0x30 <= c <= 0x39 || 0x41 <= c <= 0x5A || 0x61 <= c <= 0x7A)
                    ==> encoding::condensed(seq![c]).len() == 0
            },
{
    lemma_condensed(a, b);
    assert forall|c: u8|
        #![trigger encoding::condensed(seq![c])]
        {
            &&& 0x30 <= c <= 0x39 || 0x41 <= c <= 0x5A ==> encoding::condensed(seq![c]) == seq![c]
            &&& 0x61 <= c <= 0x7A ==> encoding::condensed(seq![c]) == seq![(c - 0x20) as u8]
            &&& !(0x30 <= c <= 0x39 || 0x41 <= c <= 0x5A || 0x61 <= c <= 0x7A)
                ==> encoding::condensed(seq![c]).len() == 0
        } by {
        let one = seq![c];
        reveal_with_fuel(encoding::condensed, 2);
        assert(one.drop_last() =~= Seq::empty());
        assert(one.last() == c);
        assert(Seq::empty().push(c) =~= seq![c]);
        assert(Seq::empty().push((c - 0x20) as u8) =~= seq![(c - 0x20) as u8]);
    }
}

proof fn lemma_condensed(a: Seq<u8>, b: Seq<u8>)
    ensures
        encoding::condensed(a + b) == encoding::condensed(a) + encoding::condensed(b),
    decreases b.len(),
{
    if b.len() > 0 {
        lemma_condensed(a, b.drop_last());
        assert((a + b).drop_last() =~= a + b.drop_last());
        assert((a + b).last() == b.last());
        assert(encoding::condensed(a + b) =~= encoding::condensed(a) + encoding::condensed(b));
    } else {
        assert(a + b =~= a);
        assert(encoding::condensed(a) + encoding::condensed(b) =~= encoding::condensed(a));
    }
}

/// An XML declaration names what stands in quotes of either kind behind the
/// first `encoding=` in it.
pub proof fn law_declaration_is_read(
    declaration: Seq<u8>,
    at: int,
    close: int,
)
    requires
        text::first_match(declaration, encode_utf8("encoding="@), 0) == Some(at),
        text::occurs_at(
            declaration,
            encode_utf8("<?xml"@),
            text::trimmed_start(declaration, 0, declaration.len() as int),
        ),
        0 <= at,
        at + 9 < close < declaration.len(),
        declaration[at + 9] == 0x22 || declaration[at + 9] == 0x27,
        declaration[close] == declaration[at + 9],
        forall|k: int| at + 9 < k < close ==> #[trigger] declaration[k] != declaration[at + 9],
    ensures
        encoding::quoted_label(declaration) == Some(declaration.subrange(at + 10, close)),
{
    reveal_strlit("encoding=");
    is_ascii_chars_encode_utf8("encoding="@);
    assert(encode_utf8("encoding="@).len() == 9);
    let quote = declaration[at + 9];
    text::lemma_first_byte(declaration, quote, at + 10);
    let found = text::first_byte(declaration, quote, at + 10);
    assert(found == Some(close)) by {
        if found is None {
            assert(declaration[close] != quote);
        } else if found->0 < close {
            assert(declaration[found->0] != quote);
        } else if close < found->0 {
            assert(declaration[close] != quote);
        }
    }
}

} // verus!
