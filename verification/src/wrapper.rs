//! Branch alternatives and the rules of the wrapper tags: what `<where>`,
//! `<set>`, `<trim>`, `<foreach>`, `<dynamic>`, `<iterate>` and the conditional
//! tags make of the alternatives of their bodies.
use crate::attrs;
use crate::attrs::skip_blanks_at;
use crate::model;
use crate::model::ByteSpan;
use crate::placeholder;
use crate::sql;
use crate::sql::{
    assemble, byte_len, copy_piece, to_piece, with_prefix, with_suffix, with_suffix_strip, Piece,
    PieceView, Sql, SqlView,
};
use crate::text;
use crate::text::{all_space, blank, concat, occurs_ignoring_case, slice};
use vstd::prelude::*;
use vstd::string::*;
use vstd::utf8::*;

verus! {

/// The most variants that a body is flattened into.
pub const BRANCH_LIMIT: u32 = 32;

// ---- what is stripped ---------------------------------------------------

/// Where the trailing blanks of `bytes[..to]` start.
pub open spec fn blanks_from(bytes: Seq<u8>, to: int) -> int
    decreases to,
{
    if to > 0 && text::is_blank(bytes[to - 1]) {
        blanks_from(bytes, to - 1)
    } else {
        to
    }
}

/// `word` stands at `i` with a blank after it.
pub open spec fn word_at(bytes: Seq<u8>, word: Seq<u8>, i: int) -> bool {
    text::occurs_uncased(bytes, word, i) && i + word.len() < bytes.len() && text::is_blank(
        bytes[i + word.len()],
    )
}

/// The length of a leading `AND` or `OR`, in any letter case, with the blanks
/// on both sides.
pub open spec fn leading_and_or(bytes: Seq<u8>) -> int {
    let len = bytes.len() as int;
    let i = attrs::skip_blanks(bytes, 0, len);
    if word_at(bytes, encode_utf8("and"@), i) {
        attrs::skip_blanks(bytes, i + encode_utf8("and"@).len(), len)
    } else if word_at(bytes, encode_utf8("or"@), i) {
        attrs::skip_blanks(bytes, i + encode_utf8("or"@).len(), len)
    } else {
        0
    }
}

/// The length of a leading comma with the blanks on both sides.
pub open spec fn leading_comma(bytes: Seq<u8>) -> int {
    let len = bytes.len() as int;
    let i = attrs::skip_blanks(bytes, 0, len);
    if i < len && bytes[i] == placeholder::COMMA {
        attrs::skip_blanks(bytes, i + 1, len)
    } else {
        0
    }
}

/// The length of a trailing comma with the blanks after it.
pub open spec fn trailing_comma(bytes: Seq<u8>) -> int {
    let end = blanks_from(bytes, bytes.len() as int);
    if end > 0 && bytes[end - 1] == placeholder::COMMA {
        bytes.len() - end + 1
    } else {
        0
    }
}

/// The length of the first of `words` from `k` on that stands at the start,
/// with the blanks before it.
pub open spec fn leading_word(bytes: Seq<u8>, words: Seq<Seq<char>>, k: int) -> int
    decreases words.len() - k,
{
    let i = attrs::skip_blanks(bytes, 0, bytes.len() as int);
    if k >= words.len() {
        0
    } else if text::occurs_uncased(bytes, encode_utf8(words[k]), i) {
        i + encode_utf8(words[k]).len()
    } else {
        leading_word(bytes, words, k + 1)
    }
}

/// The length of the first of `words` from `k` on that stands at the end, with
/// the blanks after it.
pub open spec fn trailing_word(bytes: Seq<u8>, words: Seq<Seq<char>>, k: int) -> int
    decreases words.len() - k,
{
    let end = blanks_from(bytes, bytes.len() as int);
    if k >= words.len() {
        0
    } else if text::occurs_uncased(
        bytes,
        encode_utf8(words[k]),
        end - encode_utf8(words[k]).len(),
    ) {
        bytes.len() - end + encode_utf8(words[k]).len()
    } else {
        trailing_word(bytes, words, k + 1)
    }
}

/// The non-empty parts of `bytes[from..]` between bars.
pub open spec fn bar_parts(bytes: Seq<u8>, from: int) -> Seq<Seq<char>>
    decreases bytes.len() - from,
    when 0 <= from <= bytes.len()
{
    let end = placeholder::before_separator(bytes, from, bytes.len() as int, sql::BAR);
    let part = if end > from {
        seq![decode_utf8(bytes.subrange(from, end))]
    } else {
        Seq::empty()
    };
    if from <= end < bytes.len() {
        part + bar_parts(bytes, end + 1)
    } else {
        part
    }
}

/// The alternatives of a `prefixOverrides` or `suffixOverrides` attribute.
pub open spec fn overrides(raw: Seq<char>) -> Seq<Seq<char>> {
    bar_parts(encode_utf8(raw), 0)
}

proof fn lemma_skip_blanks_cut(bytes: Seq<u8>, i: int)
    requires
        valid_utf8(bytes),
        text::is_cut(bytes, i),
    ensures
        text::is_cut(bytes, attrs::skip_blanks(bytes, i, bytes.len() as int)),
    decreases bytes.len() - i,
{
    if i < bytes.len() && text::is_blank(bytes[i]) {
        text::lemma_ascii_cuts(bytes, i);
        lemma_skip_blanks_cut(bytes, i + 1);
    }
}

proof fn lemma_blanks_from(bytes: Seq<u8>, to: int)
    requires
        valid_utf8(bytes),
        text::is_cut(bytes, to),
    ensures
        0 <= blanks_from(bytes, to) <= to,
        text::is_cut(bytes, blanks_from(bytes, to)),
    decreases to,
{
    if to > 0 && text::is_blank(bytes[to - 1]) {
        lemma_blanks_from(bytes, to - 1);
    }
}

/// A word that stands in a text, letter case aside, ends at a cut of the text.
proof fn lemma_word_end(bytes: Seq<u8>, word: Seq<u8>, i: int, k: int)
    requires
        valid_utf8(bytes),
        valid_utf8(word),
        text::occurs_uncased(bytes, word, i),
        text::is_cut(word, k),
        text::is_cut(bytes, i + k),
    ensures
        text::is_cut(bytes, i + word.len()),
    decreases word.len() - k,
{
    if k < word.len() {
        assert(text::lower(word[k]) == text::lower(bytes[i + k]));
        text::lemma_next_cut(word, k);
        text::lemma_next_cut(bytes, i + k);
        assert(text::char_width(word[k]) == text::char_width(bytes[i + k]));
        lemma_word_end(bytes, word, i, k + text::char_width(word[k]));
    }
}

/// A word that stands in a text, letter case aside, starts at a cut of it,
/// provided that it ends at one.
proof fn lemma_word_start(bytes: Seq<u8>, word: Seq<u8>, i: int)
    requires
        valid_utf8(bytes),
        valid_utf8(word),
        text::occurs_uncased(bytes, word, i),
        text::is_cut(bytes, i + word.len()),
    ensures
        text::is_cut(bytes, i),
{
    if word.len() > 0 {
        text::lemma_cut_is_boundary(word, 0);
        assert(text::is_cut(word, 0));
        assert(text::lower(word[0]) == text::lower(bytes[i]));
    }
}

/// Every rule strips whole characters.
pub proof fn lemma_strips(bytes: Seq<u8>, words: Seq<Seq<char>>)
    requires
        valid_utf8(bytes),
    ensures
        text::is_cut(bytes, leading_and_or(bytes)),
        text::is_cut(bytes, leading_comma(bytes)),
        0 <= trailing_comma(bytes) <= bytes.len(),
        text::is_cut(bytes, bytes.len() - trailing_comma(bytes)),
        text::is_cut(bytes, leading_word(bytes, words, 0)),
        0 <= trailing_word(bytes, words, 0) <= bytes.len(),
        text::is_cut(bytes, bytes.len() - trailing_word(bytes, words, 0)),
{
    let len = bytes.len() as int;
    text::lemma_cut_is_boundary(bytes, 0);
    text::lemma_cut_is_boundary(bytes, len);
    lemma_skip_blanks_cut(bytes, 0);
    let i = attrs::skip_blanks(bytes, 0, len);
    attrs::lemma_skip_blanks(bytes, 0, len);
    for_word(bytes, "and"@, i);
    for_word(bytes, "or"@, i);
    if i < len && bytes[i] == placeholder::COMMA {
        text::lemma_ascii_cuts(bytes, i);
        lemma_skip_blanks_cut(bytes, i + 1);
    }
    lemma_blanks_from(bytes, len);
    let end = blanks_from(bytes, len);
    if end > 0 && bytes[end - 1] == placeholder::COMMA {
        text::lemma_ascii_cuts(bytes, end - 1);
    }
    lemma_leading_word(bytes, words, 0);
    lemma_trailing_word(bytes, words, 0);
}

proof fn for_word(bytes: Seq<u8>, word: Seq<char>, i: int)
    requires
        valid_utf8(bytes),
        text::is_cut(bytes, i),
    ensures
        word_at(bytes, encode_utf8(word), i) ==> text::is_cut(
            bytes,
            attrs::skip_blanks(bytes, i + encode_utf8(word).len(), bytes.len() as int),
        ),
{
    if word_at(bytes, encode_utf8(word), i) {
        encode_utf8_valid_utf8(word);
        text::lemma_cut_is_boundary(encode_utf8(word), 0);
        lemma_word_end(bytes, encode_utf8(word), i, 0);
        lemma_skip_blanks_cut(bytes, i + encode_utf8(word).len());
    }
}

proof fn lemma_leading_word(bytes: Seq<u8>, words: Seq<Seq<char>>, k: int)
    requires
        valid_utf8(bytes),
        0 <= k,
    ensures
        text::is_cut(bytes, leading_word(bytes, words, k)),
    decreases words.len() - k,
{
    let len = bytes.len() as int;
    text::lemma_cut_is_boundary(bytes, 0);
    lemma_skip_blanks_cut(bytes, 0);
    let i = attrs::skip_blanks(bytes, 0, len);
    if k < words.len() {
        let word = encode_utf8(words[k]);
        if text::occurs_uncased(bytes, word, i) {
            encode_utf8_valid_utf8(words[k]);
            text::lemma_cut_is_boundary(word, 0);
            lemma_word_end(bytes, word, i, 0);
        } else {
            lemma_leading_word(bytes, words, k + 1);
        }
    }
}

proof fn lemma_trailing_word(bytes: Seq<u8>, words: Seq<Seq<char>>, k: int)
    requires
        valid_utf8(bytes),
        0 <= k,
    ensures
        0 <= trailing_word(bytes, words, k) <= bytes.len(),
        text::is_cut(bytes, bytes.len() - trailing_word(bytes, words, k)),
    decreases words.len() - k,
{
    let len = bytes.len() as int;
    text::lemma_cut_is_boundary(bytes, len);
    lemma_blanks_from(bytes, len);
    let end = blanks_from(bytes, len);
    if k < words.len() {
        let word = encode_utf8(words[k]);
        if text::occurs_uncased(bytes, word, end - word.len()) {
            encode_utf8_valid_utf8(words[k]);
            lemma_word_start(bytes, word, end - word.len());
        } else {
            lemma_trailing_word(bytes, words, k + 1);
        }
    }
}

fn blanks_before(bytes: &[u8]) -> (start: usize)
    ensures
        start == blanks_from(bytes@, bytes@.len() as int),
        start <= bytes@.len(),
{
    let mut start = bytes.len();
    while start > 0 && blank(bytes[start - 1])
        invariant
            start <= bytes@.len(),
            blanks_from(bytes@, start as int) == blanks_from(bytes@, bytes@.len() as int),
        decreases start,
    {
        start -= 1;
    }
    start
}

fn blank_follows(bytes: &[u8], word: &[u8], i: usize) -> (r: bool)
    ensures
        r == word_at(bytes@, word@, i as int),
{
    if !occurs_ignoring_case(bytes, word, i) {
        return false;
    }
    let len = bytes.len();
    let end: usize = i + word.len();
    end < len && blank(bytes[end])
}

/// The length of a leading `AND` or `OR` with its blanks.
pub fn leading_and_or_strip_len(text: &str) -> (n: usize)
    ensures
        n == leading_and_or(text.spec_bytes()),
{
    let bytes = text.as_bytes();
    let i = skip_blanks_at(bytes, 0, bytes.len());
    let and = "and".as_bytes();
    let or = "or".as_bytes();
    if blank_follows(bytes, and, i) {
        skip_blanks_at(bytes, i + and.len(), bytes.len())
    } else if blank_follows(bytes, or, i) {
        skip_blanks_at(bytes, i + or.len(), bytes.len())
    } else {
        0
    }
}

/// The length of a leading comma with its blanks.
pub fn leading_comma_strip_len(text: &str) -> (n: usize)
    ensures
        n == leading_comma(text.spec_bytes()),
{
    let bytes = text.as_bytes();
    let i = skip_blanks_at(bytes, 0, bytes.len());
    if i < bytes.len() && bytes[i] == placeholder::COMMA {
        skip_blanks_at(bytes, i + 1, bytes.len())
    } else {
        0
    }
}

/// The length of a trailing comma with its blanks.
pub fn trailing_comma_strip_len(text: &str) -> (n: usize)
    ensures
        n == trailing_comma(text.spec_bytes()),
{
    let bytes = text.as_bytes();
    let end = blanks_before(bytes);
    if end > 0 && bytes[end - 1] == placeholder::COMMA {
        bytes.len() - end + 1
    } else {
        0
    }
}

/// Splits an override list at its bars.
pub fn split_overrides(raw: &str) -> (words: Vec<String>)
    ensures
        model::deep(words@) == overrides(raw@),
{
    broadcast use model::group_deep;

    let bytes = raw.as_bytes();
    let mut words: Vec<String> = Vec::new();
    let mut from: usize = 0;
    let ghost all = bar_parts(bytes@, 0);
    proof {
        encode_utf8_valid_utf8(raw@);
        text::lemma_cut_is_boundary(bytes@, 0);
        assert(model::deep(words@) + all =~= all);
    }
    loop
        invariant_except_break
            model::deep(words@) + bar_parts(bytes@, from as int) == all,
        invariant
            bytes@ == raw.spec_bytes(),
            valid_utf8(bytes@),
            from <= bytes@.len(),
            text::is_cut(bytes@, from as int),
        ensures
            model::deep(words@) == all,
        decreases bytes@.len() - from,
    {
        let ghost done = model::deep(words@);
        proof {
            text::lemma_cut_is_boundary(bytes@, bytes@.len() as int);
            placeholder::lemma_before_separator(
                bytes@,
                from as int,
                bytes@.len() as int,
                sql::BAR,
            );
        }
        let end = placeholder::separator_at(bytes, from, bytes.len(), sql::BAR);
        if end > from {
            words.push(slice(raw, from, end).to_owned());
        }
        if end >= bytes.len() {
            assert(model::deep(words@) =~= all);
            break;
        }
        proof {
            lemma_separator_found(bytes@, from as int, bytes@.len() as int, sql::BAR);
            text::lemma_ascii_cuts(bytes@, end as int);
            assert(model::deep(words@) + bar_parts(bytes@, end + 1) =~= all);
        }
        from = end + 1;
    }
    words
}

proof fn lemma_separator_found(bytes: Seq<u8>, from: int, to: int, separator: u8)
    ensures
        placeholder::before_separator(bytes, from, to, separator) < to
            ==> bytes[placeholder::before_separator(bytes, from, to, separator)] == separator,
    decreases to - from,
{
    if from < to && bytes[from] != separator {
        lemma_separator_found(bytes, from + 1, to, separator);
    }
}

/// The length of the first override that stands at the start.
pub fn leading_override_strip_len(text: &str, words: &Vec<String>) -> (n: usize)
    ensures
        n == leading_word(text.spec_bytes(), model::deep(words@), 0),
{
    let bytes = text.as_bytes();
    let len = bytes.len();
    let i = skip_blanks_at(bytes, 0, len);
    let ghost views = model::deep(words@);
    let mut k: usize = 0;
    while k < words.len()
        invariant
            views == model::deep(words@),
            k <= words@.len(),
            bytes@ == text.spec_bytes(),
            len == bytes@.len(),
            i == attrs::skip_blanks(bytes@, 0, bytes@.len() as int),
            leading_word(bytes@, views, k as int) == leading_word(bytes@, views, 0),
        decreases words@.len() - k,
    {
        assert(views[k as int] == words@[k as int]@);
        let word = words[k].as_str().as_bytes();
        if occurs_ignoring_case(bytes, word, i) {
            return i + word.len();
        }
        k += 1;
    }
    0
}

/// The length of the first override that stands at the end.
pub fn trailing_override_strip_len(text: &str, words: &Vec<String>) -> (n: usize)
    ensures
        n == trailing_word(text.spec_bytes(), model::deep(words@), 0),
{
    let bytes = text.as_bytes();
    let end = blanks_before(bytes);
    let ghost views = model::deep(words@);
    let mut k: usize = 0;
    while k < words.len()
        invariant
            views == model::deep(words@),
            k <= words@.len(),
            bytes@ == text.spec_bytes(),
            end == blanks_from(bytes@, bytes@.len() as int),
            end <= bytes@.len(),
            trailing_word(bytes@, views, k as int) == trailing_word(bytes@, views, 0),
        decreases words@.len() - k,
    {
        assert(views[k as int] == words@[k as int]@);
        let word = words[k].as_str().as_bytes();
        if end >= word.len() && occurs_ignoring_case(bytes, word, end - word.len()) {
            return bytes.len() - end + word.len();
        }
        k += 1;
    }
    0
}

// ---- alternatives -------------------------------------------------------

/// One way through the branches of a body: its pieces, and the conditions that
/// lead there.
pub struct Alt {
    pub pieces: Vec<Piece>,
    pub conditions: Vec<String>,
}

pub struct AltView {
    pub pieces: Seq<PieceView>,
    pub conditions: Seq<Seq<char>>,
}

impl View for Alt {
    type V = AltView;

    open spec fn view(&self) -> AltView {
        AltView { pieces: model::deep(self.pieces@), conditions: model::deep(self.conditions@) }
    }
}

pub open spec fn no_alt() -> AltView {
    AltView { pieces: Seq::empty(), conditions: Seq::empty() }
}

/// The alternative without text and conditions.
pub fn empty_alt() -> (alt: Alt)
    ensures
        alt@ == no_alt(),
{
    let alt = Alt { pieces: Vec::new(), conditions: Vec::new() };
    assert(alt@.pieces =~= Seq::empty());
    assert(alt@.conditions =~= Seq::empty());
    alt
}

pub open spec fn alts_ok(alts: Seq<AltView>, len: int) -> bool {
    forall|k: int| 0 <= k < alts.len() ==> sql::pieces_ok((#[trigger] alts[k]).pieces, len)
}

fn copy_pieces(pieces: &Vec<Piece>) -> (copy: Vec<Piece>)
    ensures
        model::deep(copy@) == model::deep(pieces@),
{
    let mut copy: Vec<Piece> = Vec::new();
    append_pieces(&mut copy, pieces);
    assert(model::deep(copy@) =~= model::deep(pieces@));
    copy
}

/// Puts a copy of `more` at the end of `pieces`.
pub fn append_pieces(pieces: &mut Vec<Piece>, more: &Vec<Piece>)
    ensures
        model::deep(final(pieces)@) == model::deep(old(pieces)@) + model::deep(more@),
{
    broadcast use model::group_deep;

    let ghost views = model::deep(more@);
    let mut k: usize = 0;
    assert(model::deep(pieces@) + views.take(0) =~= model::deep(pieces@));
    while k < more.len()
        invariant
            k <= more@.len(),
            views == model::deep(more@),
            model::deep(pieces@) == model::deep(old(pieces)@) + views.take(k as int),
        decreases more@.len() - k,
    {
        let piece = copy_piece(&more[k]);
        proof {
            model::lemma_grow(model::deep(old(pieces)@), pieces@, piece, views, k as int);
        }
        pieces.push(piece);
        k += 1;
    }
    assert(views.take(k as int) =~= views);
}

/// Puts a copy of `more` at the end of `texts`.
fn append_texts(texts: &mut Vec<String>, more: &Vec<String>)
    ensures
        model::deep(final(texts)@) == model::deep(old(texts)@) + model::deep(more@),
{
    broadcast use model::group_deep;

    let ghost views = model::deep(more@);
    let mut k: usize = 0;
    assert(model::deep(texts@) + views.take(0) =~= model::deep(texts@));
    while k < more.len()
        invariant
            k <= more@.len(),
            views == model::deep(more@),
            model::deep(texts@) == model::deep(old(texts)@) + views.take(k as int),
        decreases more@.len() - k,
    {
        let text = more[k].clone();
        proof {
            model::lemma_grow(model::deep(old(texts)@), texts@, text, views, k as int);
        }
        texts.push(text);
        k += 1;
    }
    assert(views.take(k as int) =~= views);
}

/// Both alternatives, one after the other.
pub open spec fn joined(a: AltView, b: AltView) -> AltView {
    AltView { pieces: a.pieces + b.pieces, conditions: a.conditions + b.conditions }
}

fn join(a: &Alt, b: &Alt) -> (alt: Alt)
    ensures
        alt@ == joined(a@, b@),
{
    let mut pieces = copy_pieces(&a.pieces);
    append_pieces(&mut pieces, &b.pieces);
    let mut conditions: Vec<String> = Vec::new();
    append_texts(&mut conditions, &a.conditions);
    append_texts(&mut conditions, &b.conditions);
    assert(model::deep(conditions@) =~= model::deep(a.conditions@) + model::deep(b.conditions@));
    Alt { pieces, conditions }
}

/// The first `n` of `acc`, each followed by each of `local`.
pub open spec fn combined(acc: Seq<AltView>, local: Seq<AltView>, n: int) -> Seq<AltView>
    decreases n,
{
    if n <= 0 {
        Seq::empty()
    } else {
        combined(acc, local, n - 1) + Seq::new(local.len(), |j: int| joined(acc[n - 1], local[j]))
    }
}

/// The cartesian product of two lists of alternatives, or its size where it is
/// over the cap.
pub open spec fn product(acc: Seq<AltView>, local: Seq<AltView>) -> Result<Seq<AltView>, nat> {
    if acc.len() * local.len() > BRANCH_LIMIT {
        Err(acc.len() * local.len())
    } else {
        Ok(combined(acc, local, acc.len() as int))
    }
}

pub proof fn lemma_combined(acc: Seq<AltView>, local: Seq<AltView>, n: int, len: int)
    requires
        0 <= n <= acc.len(),
        alts_ok(acc, len),
        alts_ok(local, len),
    ensures
        combined(acc, local, n).len() == n * local.len(),
        alts_ok(combined(acc, local, n), len),
    decreases n,
{
    if n > 0 {
        lemma_combined(acc, local, n - 1, len);
        let before = combined(acc, local, n - 1);
        let row = Seq::new(local.len(), |j: int| joined(acc[n - 1], local[j]));
        let all = combined(acc, local, n);
        assert((n - 1) * local.len() + local.len() == n * local.len()) by (nonlinear_arith);
        assert forall|k: int| 0 <= k < all.len() implies sql::pieces_ok(
            (#[trigger] all[k]).pieces,
            len,
        ) by {
            if k < before.len() {
                assert(all[k] == before[k]);
            } else {
                let j = k - before.len();
                assert(all[k] == joined(acc[n - 1], local[j]));
                assert(sql::pieces_ok(acc[n - 1].pieces, len));
                assert(sql::pieces_ok(local[j].pieces, len));
            }
        }
    } else {
        assert(0 * local.len() == 0) by (nonlinear_arith);
    }
}

/// What a step over alternatives gives: the alternatives, or how many there
/// would have been.
pub open spec fn same_alts(r: Result<Vec<Alt>, u64>, spec: Result<Seq<AltView>, nat>) -> bool {
    match r {
        Ok(alts) => spec == Ok::<Seq<AltView>, nat>(model::deep(alts@)),
        Err(n) => spec == Err::<Seq<AltView>, nat>(n as nat),
    }
}

/// Combines two lists of alternatives.
pub fn try_combine(acc: &Vec<Alt>, local: &Vec<Alt>, Ghost(len): Ghost<int>) -> (r: Result<
    Vec<Alt>,
    u64,
>)
    requires
        acc@.len() <= BRANCH_LIMIT + 1,
        local@.len() <= BRANCH_LIMIT + 1,
        alts_ok(model::deep(acc@), len),
        alts_ok(model::deep(local@), len),
    ensures
        same_alts(r, product(model::deep(acc@), model::deep(local@))),
        r matches Ok(alts) ==> alts@.len() <= BRANCH_LIMIT && alts_ok(model::deep(alts@), len),
        r matches Err(n) ==> n > BRANCH_LIMIT,
{
    broadcast use model::group_deep;

    let ghost a = model::deep(acc@);
    let ghost b = model::deep(local@);
    proof {
        assert(a.len() * b.len() <= 33 * 33) by (nonlinear_arith)
            requires
                a.len() <= 33,
                b.len() <= 33,
        ;
        assert(acc@.len() * local@.len() == a.len() * b.len());
        lemma_combined(a, b, a.len() as int, len);
    }
    let size: u64 = acc.len() as u64 * local.len() as u64;
    if size > BRANCH_LIMIT as u64 {
        return Err(size);
    }
    let mut result: Vec<Alt> = Vec::new();
    let mut i: usize = 0;
    assert(model::deep(result@) =~= combined(a, b, 0));
    while i < acc.len()
        invariant
            i <= acc@.len(),
            a == model::deep(acc@),
            b == model::deep(local@),
            model::deep(result@) == combined(a, b, i as int),
        decreases acc@.len() - i,
    {
        let ghost before = model::deep(result@);
        let ghost row = Seq::new(b.len(), |j: int| joined(a[i as int], b[j]));
        let mut j: usize = 0;
        assert(before + row.take(0) =~= before);
        while j < local.len()
            invariant
                i < acc@.len(),
                j <= local@.len(),
                a == model::deep(acc@),
                b == model::deep(local@),
                row == Seq::new(b.len(), |j: int| joined(a[i as int], b[j])),
                model::deep(result@) == before + row.take(j as int),
            decreases local@.len() - j,
        {
            let alt = join(&acc[i], &local[j]);
            proof {
                assert(alt@ == row[j as int]);
                model::lemma_grow(before, result@, alt, row, j as int);
            }
            result.push(alt);
            j += 1;
        }
        assert(row.take(j as int) =~= row);
        i += 1;
    }
    Ok(result)
}

// ---- what a tag does to the alternatives of its body --------------------

/// What is to be done with the alternatives of a tag's body.
pub enum PendingKind {
    /// Nothing.
    Identity,
    If { test_value: String },
    Conditional { condition: String, prepend: Option<String> },
    WhereClause,
    SetClause,
    Trim { prefix: String, suffix: String, prefix_words: Vec<String>, suffix_words: Vec<String> },
    Foreach { open: String, close: String },
    Dynamic { prepend: String },
    Iterate { open: String, close: String },
}

pub enum KindView {
    Identity,
    If { test_value: Seq<char> },
    Conditional { condition: Seq<char>, prepend: Option<Seq<char>> },
    WhereClause,
    SetClause,
    Trim {
        prefix: Seq<char>,
        suffix: Seq<char>,
        prefix_words: Seq<Seq<char>>,
        suffix_words: Seq<Seq<char>>,
    },
    Foreach { open: Seq<char>, close: Seq<char> },
    Dynamic { prepend: Seq<char> },
    Iterate { open: Seq<char>, close: Seq<char> },
}

impl View for PendingKind {
    type V = KindView;

    open spec fn view(&self) -> KindView {
        match self {
            PendingKind::Identity => KindView::Identity,
            PendingKind::If { test_value } => KindView::If { test_value: test_value@ },
            PendingKind::Conditional { condition, prepend } => KindView::Conditional {
                condition: condition@,
                prepend: model::opt(*prepend),
            },
            PendingKind::WhereClause => KindView::WhereClause,
            PendingKind::SetClause => KindView::SetClause,
            PendingKind::Trim { prefix, suffix, prefix_words, suffix_words } => KindView::Trim {
                prefix: prefix@,
                suffix: suffix@,
                prefix_words: model::deep(prefix_words@),
                suffix_words: model::deep(suffix_words@),
            },
            PendingKind::Foreach { open, close } => KindView::Foreach {
                open: open@,
                close: close@,
            },
            PendingKind::Dynamic { prepend } => KindView::Dynamic { prepend: prepend@ },
            PendingKind::Iterate { open, close } => KindView::Iterate {
                open: open@,
                close: close@,
            },
        }
    }
}

pub open spec fn sql_piece(sql: SqlView) -> Seq<PieceView> {
    seq![PieceView::Normalized { text: sql.text, map: sql.map }]
}

pub open spec fn lesser(a: int, b: int) -> int {
    if a <= b {
        a
    } else {
        b
    }
}

/// The position of the first `Prepend` from `k` on.
pub open spec fn first_prepend(pieces: Seq<PieceView>, k: int) -> Option<int>
    decreases pieces.len() - k,
{
    if k >= pieces.len() {
        None
    } else if pieces[k] is Prepend {
        Some(k)
    } else {
        first_prepend(pieces, k + 1)
    }
}

/// The pieces without their first `Prepend`.
pub open spec fn without_prepend(pieces: Seq<PieceView>) -> Seq<PieceView> {
    match first_prepend(pieces, 0) {
        Some(k) => pieces.remove(k),
        None => pieces,
    }
}

/// `text` between `open` and `close`, mapped to the tag at `wrapper`.
pub open spec fn enclosed(
    source: Seq<u8>,
    sql: SqlView,
    wrapper: u32,
    open: Seq<char>,
    close: Seq<char>,
) -> SqlView {
    sql::suffixed(
        sql::prefixed(source, sql, wrapper, 0, encode_utf8(open)),
        wrapper,
        encode_utf8(close),
    )
}

/// `sql` with `lead` bytes stripped at its start and `trail` at its end, as far
/// as these do not overlap, between `prefix` and `suffix`.
pub open spec fn trimmed(
    source: Seq<u8>,
    sql: SqlView,
    wrapper: u32,
    lead: int,
    trail: int,
    prefix: Seq<char>,
    suffix: Seq<char>,
) -> SqlView {
    sql::suffixed(
        sql::shortened(
            sql::prefixed(source, sql, wrapper, lead, encode_utf8(prefix)),
            lesser(trail, sql.text.len() - lead),
        ),
        wrapper,
        encode_utf8(suffix),
    )
}

/// What a wrapper tag makes of the pieces of one alternative of its body.
pub open spec fn wrapped(
    source: Seq<u8>,
    wrapper: u32,
    kind: KindView,
    pieces: Seq<PieceView>,
) -> Seq<PieceView> {
    let sql = sql::assembly(pieces);
    match kind {
        KindView::WhereClause => if text::is_all_space(sql.text) {
            Seq::empty()
        } else {
            sql_piece(
                sql::prefixed(
                    source,
                    sql,
                    wrapper,
                    leading_and_or(sql.text),
                    encode_utf8("WHERE "@),
                ),
            )
        },
        KindView::SetClause => if text::is_all_space(sql.text) {
            Seq::empty()
        } else {
            sql_piece(
                trimmed(
                    source,
                    sql,
                    wrapper,
                    leading_comma(sql.text),
                    trailing_comma(sql.text),
                    "SET "@,
                    Seq::empty(),
                ),
            )
        },
        KindView::Trim { prefix, suffix, prefix_words, suffix_words } => if text::is_all_space(
            sql.text,
        ) {
            Seq::empty()
        } else {
            sql_piece(
                trimmed(
                    source,
                    sql,
                    wrapper,
                    leading_word(sql.text, prefix_words, 0),
                    trailing_word(sql.text, suffix_words, 0),
                    prefix,
                    suffix,
                ),
            )
        },
        KindView::Foreach { open, close } => sql_piece(
            enclosed(source, sql, wrapper, open, close),
        ),
        KindView::Iterate { open, close } => sql_piece(
            enclosed(source, sql, wrapper, open, close),
        ),
        KindView::Dynamic { prepend } => {
            let rest = sql::assembly(without_prepend(pieces));
            if text::is_all_space(rest.text) {
                Seq::empty()
            } else if prepend.len() == 0 {
                sql_piece(rest)
            } else {
                sql_piece(sql::prefixed(source, rest, wrapper, 0, encode_utf8(prepend + " "@)))
            }
        },
        _ => pieces,
    }
}

/// An alternative of a conditional tag that is taken.
pub open spec fn taken(condition: Seq<char>, lead: Seq<PieceView>, alt: AltView) -> AltView {
    AltView { pieces: lead + alt.pieces, conditions: seq![condition] + alt.conditions }
}

/// A conditional tag: not taken, or taken with any alternative of its body.
pub open spec fn branched(condition: Seq<char>, lead: Seq<PieceView>, alts: Seq<AltView>) -> Result<
    Seq<AltView>,
    nat,
> {
    let local = seq![no_alt()] + Seq::new(alts.len(), |k: int| taken(condition, lead, alts[k]));
    if local.len() > BRANCH_LIMIT {
        Err(local.len())
    } else {
        Ok(local)
    }
}

/// What a tag at `span` makes of the alternatives of its body.
pub open spec fn finished(
    source: Seq<u8>,
    span: ByteSpan,
    kind: KindView,
    alts: Seq<AltView>,
) -> Result<Seq<AltView>, nat> {
    match kind {
        KindView::Identity => Ok(alts),
        KindView::If { test_value } => branched(test_value, Seq::empty(), alts),
        KindView::Conditional { condition, prepend } => branched(
            condition,
            match prepend {
                Some(value) => seq![PieceView::Prepend { value, span }],
                None => Seq::empty(),
            },
            alts,
        ),
        _ => Ok(
            Seq::new(
                alts.len(),
                |k: int|
                    AltView {
                        pieces: wrapped(source, span.start, kind, alts[k].pieces),
                        conditions: alts[k].conditions,
                    },
            ),
        ),
    }
}

// ---- ... and doing it ---------------------------------------------------

fn one_piece(sql: Sql) -> (pieces: Vec<Piece>)
    ensures
        model::deep(pieces@) == sql_piece(sql@),
{
    let mut pieces: Vec<Piece> = Vec::new();
    pieces.push(to_piece(sql));
    assert(model::deep(pieces@) =~= sql_piece(sql@));
    pieces
}

fn no_pieces() -> (pieces: Vec<Piece>)
    ensures
        model::deep(pieces@) == Seq::<PieceView>::empty(),
{
    let pieces: Vec<Piece> = Vec::new();
    assert(model::deep(pieces@) =~= Seq::empty());
    pieces
}

/// Strips both ends and adds to both ends.
fn trim_sql(
    source: &str,
    sql: Sql,
    wrapper: u32,
    lead: usize,
    trail: usize,
    prefix: &str,
    suffix: &str,
) -> (r: Sql)
    requires
        attrs::fits(source.spec_bytes()),
        sql::sql_ok(sql@, source.spec_bytes().len() as int),
        wrapper <= source.spec_bytes().len(),
        text::is_cut(sql@.text, lead as int),
        trail <= sql@.text.len(),
        text::is_cut(sql@.text, sql@.text.len() - trail),
    ensures
        r@ == trimmed(
            source.spec_bytes(),
            sql@,
            wrapper,
            lead as int,
            trail as int,
            prefix@,
            suffix@,
        ),
        sql::sql_ok(r@, source.spec_bytes().len() as int),
{
    let ghost len = source.spec_bytes().len() as int;
    let ghost before = sql@;
    let size: usize = byte_len(&sql.text);
    let cut: usize = if trail <= size - lead {
        trail
    } else {
        size - lead
    };
    let with_lead = with_prefix(source, sql, wrapper, lead, prefix);
    proof {
        let text = with_lead@.text;
        assert(text =~= prefix.spec_bytes() + before.text.skip(lead as int));
        let keep = text.len() - cut;
        if cut > 0 && keep < text.len() {
            if cut == size - lead {
                assert(text[keep] == before.text[lead as int]);
            } else {
                assert(text[keep] == before.text[size - trail]);
            }
        }
        assert(text::is_cut(text, keep));
    }
    let short = with_suffix_strip(with_lead, cut, Ghost(len));
    with_suffix(short, wrapper, suffix, Ghost(len))
}

/// Removes the first `Prepend`.
pub fn remove_first_prepend(pieces: &mut Vec<Piece>)
    ensures
        model::deep(final(pieces)@) == without_prepend(model::deep(old(pieces)@)),
{
    let ghost views = model::deep(pieces@);
    let mut k: usize = 0;
    while k < pieces.len()
        invariant
            k <= pieces@.len(),
            pieces@ == old(pieces)@,
            views == model::deep(pieces@),
            first_prepend(views, k as int) == first_prepend(views, 0),
        decreases pieces@.len() - k,
    {
        assert(views[k as int] == pieces@[k as int]@);
        if matches!(pieces[k], Piece::Prepend { .. }) {
            pieces.remove(k);
            assert(model::deep(pieces@) =~= views.remove(k as int));
            return ;
        }
        k += 1;
    }
}

proof fn lemma_without_prepend(pieces: Seq<PieceView>, k: int, len: int)
    requires
        sql::pieces_ok(pieces, len),
        0 <= k <= pieces.len(),
    ensures
        first_prepend(pieces, k) matches Some(i) ==> 0 <= i < pieces.len() && sql::pieces_ok(
            pieces.remove(i),
            len,
        ),
    decreases pieces.len() - k,
{
    if k < pieces.len() {
        if pieces[k] is Prepend {
            let rest = pieces.remove(k);
            assert forall|i: int| 0 <= i < rest.len() implies sql::piece_ok(
                #[trigger] rest[i],
                len,
            ) by {
                if i < k {
                    assert(rest[i] == pieces[i]);
                } else {
                    assert(rest[i] == pieces[i + 1]);
                }
            }
        } else {
            lemma_without_prepend(pieces, k + 1, len);
        }
    }
}

/// Applies a wrapper tag to the pieces of one alternative.
fn wrap_pieces(source: &str, wrapper: u32, kind: &PendingKind, pieces: &Vec<Piece>) -> (r: Vec<
    Piece,
>)
    requires
        attrs::fits(source.spec_bytes()),
        wrapper <= source.spec_bytes().len(),
        sql::pieces_ok(model::deep(pieces@), source.spec_bytes().len() as int),
    ensures
        model::deep(r@) == wrapped(
            source.spec_bytes(),
            wrapper,
            kind@,
            model::deep(pieces@),
        ),
        sql::pieces_ok(model::deep(r@), source.spec_bytes().len() as int),
{
    let ghost bytes = source.spec_bytes();
    let ghost len = bytes.len() as int;
    let inner = assemble(pieces, Ghost(len));
    proof {
        text::lemma_cut_is_boundary(inner@.text, 0);
        lemma_strips(inner@.text, Seq::empty());
    }
    match kind {
        PendingKind::WhereClause => {
            if all_space(inner.text.as_str()) {
                return no_pieces();
            }
            let strip = leading_and_or_strip_len(inner.text.as_str());
            one_piece(with_prefix(source, inner, wrapper, strip, "WHERE "))
        },
        PendingKind::SetClause => {
            if all_space(inner.text.as_str()) {
                return no_pieces();
            }
            let lead = leading_comma_strip_len(inner.text.as_str());
            let trail = trailing_comma_strip_len(inner.text.as_str());
            proof {
                reveal_strlit("");
                assert(""@ =~= Seq::<char>::empty());
            }
            one_piece(trim_sql(source, inner, wrapper, lead, trail, "SET ", ""))
        },
        PendingKind::Trim { prefix, suffix, prefix_words, suffix_words } => {
            if all_space(inner.text.as_str()) {
                return no_pieces();
            }
            proof {
                lemma_strips(inner@.text, model::deep(prefix_words@));
                lemma_strips(inner@.text, model::deep(suffix_words@));
            }
            let lead = leading_override_strip_len(inner.text.as_str(), prefix_words);
            let trail = trailing_override_strip_len(inner.text.as_str(), suffix_words);
            one_piece(
                trim_sql(source, inner, wrapper, lead, trail, prefix.as_str(), suffix.as_str()),
            )
        },
        PendingKind::Foreach { open, close } => {
            let opened = with_prefix(source, inner, wrapper, 0, open.as_str());
            one_piece(with_suffix(opened, wrapper, close.as_str(), Ghost(len)))
        },
        PendingKind::Iterate { open, close } => {
            let opened = with_prefix(source, inner, wrapper, 0, open.as_str());
            one_piece(with_suffix(opened, wrapper, close.as_str(), Ghost(len)))
        },
        PendingKind::Dynamic { prepend } => {
            let mut rest_pieces = copy_pieces(pieces);
            proof {
                lemma_without_prepend(model::deep(pieces@), 0, len);
            }
            remove_first_prepend(&mut rest_pieces);
            let rest = assemble(&rest_pieces, Ghost(len));
            if all_space(rest.text.as_str()) {
                return no_pieces();
            }
            if prepend.as_str().is_empty() {
                return one_piece(rest);
            }
            proof {
                text::lemma_cut_is_boundary(rest@.text, 0);
            }
            let prefix = concat(prepend.as_str(), " ");
            one_piece(with_prefix(source, rest, wrapper, 0, prefix.as_str()))
        },
        _ => copy_pieces(pieces),
    }
}

/// The alternative with a condition in front.
pub fn take_branch(condition: &String, alt: &Alt) -> (r: Alt)
    ensures
        r@ == taken(condition@, Seq::empty(), alt@),
{
    let pieces = copy_pieces(&alt.pieces);
    let mut conditions: Vec<String> = Vec::new();
    conditions.push(condition.clone());
    assert(model::deep(conditions@) =~= seq![condition@]);
    append_texts(&mut conditions, &alt.conditions);
    assert(model::deep(pieces@) =~= Seq::<PieceView>::empty() + model::deep(alt.pieces@));
    Alt { pieces, conditions }
}

/// A conditional tag over the alternatives of its body.
fn branch(
    condition: &String,
    lead: &Vec<Piece>,
    alts: &Vec<Alt>,
    Ghost(len): Ghost<int>,
) -> (r: Result<Vec<Alt>, u64>)
    requires
        alts@.len() <= BRANCH_LIMIT + 1,
        sql::pieces_ok(model::deep(lead@), len),
        alts_ok(model::deep(alts@), len),
    ensures
        same_alts(r, branched(condition@, model::deep(lead@), model::deep(alts@))),
        r matches Ok(local) ==> local@.len() <= BRANCH_LIMIT && alts_ok(
            model::deep(local@),
            len,
        ),
        r matches Err(n) ==> n > BRANCH_LIMIT,
{
    broadcast use model::group_deep;

    let ghost views = model::deep(alts@);
    let ghost heads = model::deep(lead@);
    let ghost all = seq![no_alt()] + Seq::new(
        views.len(),
        |k: int| taken(condition@, heads, views[k]),
    );
    let mut local: Vec<Alt> = Vec::new();
    local.push(empty_alt());
    assert(model::deep(local@) =~= all.take(1));
    let mut k: usize = 0;
    while k < alts.len()
        invariant
            k <= alts@.len(),
            views == model::deep(alts@),
            heads == model::deep(lead@),
            all == seq![no_alt()] + Seq::new(
                views.len(),
                |k: int| taken(condition@, heads, views[k]),
            ),
            local@.len() == k + 1,
            model::deep(local@) == all.take(k + 1),
        decreases alts@.len() - k,
    {
        let alt = &alts[k];
        assert(views[k as int] == alt@);
        let mut pieces = copy_pieces(lead);
        append_pieces(&mut pieces, &alt.pieces);
        let mut conditions: Vec<String> = Vec::new();
        conditions.push(condition.clone());
        assert(model::deep(conditions@) =~= seq![condition@]);
        append_texts(&mut conditions, &alt.conditions);
        let next = Alt { pieces, conditions };
        assert(next@ == taken(condition@, heads, views[k as int]));
        assert(all[k + 1] == next@);
        local.push(next);
        assert(all.take(k + 2) =~= all.take(k + 1).push(all[k + 1]));
        k += 1;
    }
    assert(all.take(k + 1) =~= all);
    if local.len() as u64 > BRANCH_LIMIT as u64 {
        return Err(local.len() as u64);
    }
    proof {
        assert forall|k: int| 0 <= k < all.len() implies sql::pieces_ok(
            (#[trigger] all[k]).pieces,
            len,
        ) by {
            if k > 0 {
                assert(all[k] == taken(condition@, heads, views[k - 1]));
                assert(sql::pieces_ok(views[k - 1].pieces, len));
            }
        }
    }
    Ok(local)
}

/// Does with the alternatives of a tag's body what the tag asks for.
pub fn finish_pending(source: &str, span: ByteSpan, kind: PendingKind, alts: Vec<Alt>) -> (r:
    Result<Vec<Alt>, u64>)
    requires
        attrs::fits(source.spec_bytes()),
        span.start <= span.end <= source.spec_bytes().len(),
        alts@.len() <= BRANCH_LIMIT + 1,
        alts_ok(model::deep(alts@), source.spec_bytes().len() as int),
    ensures
        same_alts(r, finished(source.spec_bytes(), span, kind@, model::deep(alts@))),
        r matches Ok(local) ==> local@.len() <= BRANCH_LIMIT + 1 && alts_ok(
            model::deep(local@),
            source.spec_bytes().len() as int,
        ),
        r matches Err(n) ==> n > BRANCH_LIMIT,
{
    let ghost bytes = source.spec_bytes();
    let ghost len = bytes.len() as int;
    let ghost views = model::deep(alts@);
    match &kind {
        PendingKind::Identity => {
            return Ok(alts);
        },
        PendingKind::If { test_value } => {
            return branch(test_value, &no_pieces(), &alts, Ghost(len));
        },
        PendingKind::Conditional { condition, prepend } => {
            let mut lead = no_pieces();
            if let Some(value) = prepend {
                lead.push(Piece::Prepend { value: value.clone(), span });
            }
            assert(model::deep(lead@) =~= match model::opt(*prepend) {
                Some(value) => seq![PieceView::Prepend { value, span }],
                None => Seq::empty(),
            });
            return branch(condition, &lead, &alts, Ghost(len));
        },
        _ => {},
    }
    let mut local: Vec<Alt> = Vec::new();
    let mut k: usize = 0;
    while k < alts.len()
        invariant
            bytes == source.spec_bytes(),
            len == bytes.len(),
            attrs::fits(bytes),
            span.start <= span.end <= bytes.len(),
            views == model::deep(alts@),
            alts_ok(views, len),
            k <= alts@.len(),
            local@.len() == k,
            forall|i: int|
                0 <= i < k ==> (#[trigger] local@[i]@) == (AltView {
                    pieces: wrapped(bytes, span.start, kind@, views[i].pieces),
                    conditions: views[i].conditions,
                }) && sql::pieces_ok(local@[i]@.pieces, len),
        decreases alts@.len() - k,
    {
        let alt = &alts[k];
        assert(views[k as int] == alt@);
        assert(sql::pieces_ok(views[k as int].pieces, len));
        let pieces = wrap_pieces(source, span.start, &kind, &alt.pieces);
        let mut conditions: Vec<String> = Vec::new();
        append_texts(&mut conditions, &alt.conditions);
        assert(model::deep(conditions@) =~= model::deep(alt.conditions@));
        local.push(Alt { pieces, conditions });
        k += 1;
    }
    assert(finished(bytes, span, kind@, views)->Ok_0 =~= model::deep(local@));
    Ok(local)
}

} // verus!
