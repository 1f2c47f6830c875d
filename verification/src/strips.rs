//! What the wrapper tags make of the text of their bodies, said of the texts
//! themselves: what is taken away at either end and what is put there.
use crate::attrs;
use crate::model::ByteSpan;
use crate::paths;
use crate::placeholder;
use crate::sql;
use crate::sql::PieceView;
use crate::text;
use crate::wrapper;
use crate::wrapper::KindView;
use vstd::prelude::*;
use vstd::string::*;
use vstd::utf8::*;

verus! {

/// The text of pieces.
pub open spec fn text_of(pieces: Seq<PieceView>) -> Seq<u8> {
    sql::assembly(pieces).text
}

/// A space, a tab, a line feed, a form feed or a carriage return.
pub open spec fn is_gap(b: u8) -> bool {
    b == 0x20 || b == 0x09 || b == 0x0A || b == 0x0C || b == 0x0D
}

pub open spec fn all_gaps(bytes: Seq<u8>) -> bool {
    forall|k: int| 0 <= k < bytes.len() ==> is_gap(#[trigger] bytes[k])
}

/// `AND` in any letter case.
pub open spec fn is_and(word: Seq<u8>) -> bool {
    &&& word.len() == 3
    &&& word[0] == 0x41 || word[0] == 0x61
    &&& word[1] == 0x4E || word[1] == 0x6E
    &&& word[2] == 0x44 || word[2] == 0x64
}

/// `OR` in any letter case.
pub open spec fn is_or(word: Seq<u8>) -> bool {
    &&& word.len() == 2
    &&& word[0] == 0x4F || word[0] == 0x6F
    &&& word[1] == 0x52 || word[1] == 0x72
}

/// A body that starts with a connective: blanks, `AND` or `OR`, at least one
/// blank, and a rest that starts with none.
pub open spec fn starts_with_connective(
    body: Seq<u8>,
    lead: Seq<u8>,
    word: Seq<u8>,
    gap: Seq<u8>,
    rest: Seq<u8>,
) -> bool {
    &&& body == lead + word + gap + rest
    &&& all_gaps(lead)
    &&& is_and(word) || is_or(word)
    &&& gap.len() > 0
    &&& all_gaps(gap)
    &&& rest.len() > 0 ==> !is_gap(rest[0])
}

proof fn lemma_skip(bytes: Seq<u8>, i: int, j: int)
    requires
        0 <= i <= j <= bytes.len(),
        forall|k: int| i <= k < j ==> is_gap(#[trigger] bytes[k]),
        j < bytes.len() ==> !is_gap(bytes[j]),
    ensures
        attrs::skip_blanks(bytes, i, bytes.len() as int) == j,
    decreases j - i,
{
    if i < j {
        assert(is_gap(bytes[i]));
        lemma_skip(bytes, i + 1, j);
    }
}

proof fn lemma_skipped(bytes: Seq<u8>, i: int)
    requires
        0 <= i <= bytes.len(),
    ensures
        ({
            let j = attrs::skip_blanks(bytes, i, bytes.len() as int);
            &&& i <= j <= bytes.len()
            &&& forall|k: int| i <= k < j ==> is_gap(#[trigger] bytes[k])
            &&& j < bytes.len() ==> !is_gap(bytes[j])
        }),
    decreases bytes.len() - i,
{
    if i < bytes.len() && text::is_blank(bytes[i]) {
        lemma_skipped(bytes, i + 1);
    }
}

proof fn lemma_blanks_back(bytes: Seq<u8>, to: int, e: int)
    requires
        0 <= e <= to <= bytes.len(),
        forall|k: int| e <= k < to ==> is_gap(#[trigger] bytes[k]),
        e > 0 ==> !is_gap(bytes[e - 1]),
    ensures
        wrapper::blanks_from(bytes, to) == e,
    decreases to,
{
    if to > e {
        assert(is_gap(bytes[to - 1]));
        lemma_blanks_back(bytes, to - 1, e);
    }
}

proof fn lemma_words()
    ensures
        encode_utf8("and"@) == seq![0x61u8, 0x6E, 0x64],
        encode_utf8("or"@) == seq![0x6Fu8, 0x72],
{
    reveal_strlit("and");
    reveal_strlit("or");
    is_ascii_chars_encode_utf8("and"@);
    is_ascii_chars_encode_utf8("or"@);
    assert(encode_utf8("and"@) =~= seq![0x61u8, 0x6E, 0x64]);
    assert(encode_utf8("or"@) =~= seq![0x6Fu8, 0x72]);
}

proof fn lemma_word_at(bytes: Seq<u8>, i: int)
    requires
        0 <= i,
    ensures
        wrapper::word_at(bytes, encode_utf8("and"@), i) <==> i + 3 < bytes.len() && is_and(
            bytes.subrange(i, i + 3),
        ) && is_gap(bytes[i + 3]),
        wrapper::word_at(bytes, encode_utf8("or"@), i) <==> i + 2 < bytes.len() && is_or(
            bytes.subrange(i, i + 2),
        ) && is_gap(bytes[i + 2]),
{
    lemma_words();
    let and = encode_utf8("and"@);
    let or = encode_utf8("or"@);
    assert(and.len() == 3 && and[0] == 0x61 && and[1] == 0x6E && and[2] == 0x64);
    assert(or.len() == 2 && or[0] == 0x6F && or[1] == 0x72);
    if i + 3 < bytes.len() {
        assert(bytes.subrange(i, i + 3)[0] == bytes[i] && bytes.subrange(i, i + 3)[1] == bytes[i
            + 1] && bytes.subrange(i, i + 3)[2] == bytes[i + 2]);
        if wrapper::word_at(bytes, and, i) {
            assert(text::lower(and[0]) == text::lower(bytes[i + 0]));
            assert(text::lower(and[1]) == text::lower(bytes[i + 1]));
            assert(text::lower(and[2]) == text::lower(bytes[i + 2]));
        }
    }
    if i + 2 < bytes.len() {
        assert(bytes.subrange(i, i + 2)[0] == bytes[i] && bytes.subrange(i, i + 2)[1] == bytes[i
            + 1]);
        if wrapper::word_at(bytes, or, i) {
            assert(text::lower(or[0]) == text::lower(bytes[i + 0]));
            assert(text::lower(or[1]) == text::lower(bytes[i + 1]));
        }
    }
}

proof fn lemma_not_space(bytes: Seq<u8>, i: int, k: int)
    requires
        0 <= i <= k < bytes.len(),
        0x21 <= bytes[k] <= 0x7E,
    ensures
        text::trimmed_start(bytes, i, bytes.len() as int) <= k,
    decreases k - i,
{
    let w = text::space_width(bytes, i, bytes.len() as int);
    if w > 0 {
        assert(i + w <= k);
        lemma_not_space(bytes, i + w, k);
    }
}

proof fn lemma_space(bytes: Seq<u8>, i: int)
    requires
        0 <= i <= bytes.len(),
        all_gaps(bytes),
    ensures
        text::trimmed_start(bytes, i, bytes.len() as int) == bytes.len(),
    decreases bytes.len() - i,
{
    if i < bytes.len() {
        assert(is_gap(bytes[i]));
        lemma_space(bytes, i + 1);
    }
}

/// A text of blanks has no content, and one with a printable ASCII character
/// has.
pub proof fn law_content(bytes: Seq<u8>)
    ensures
        all_gaps(bytes) ==> text::is_all_space(bytes),
        (exists|k: int| 0 <= k < bytes.len() && 0x21 <= #[trigger] bytes[k] <= 0x7E)
            ==> !text::is_all_space(bytes),
{
    if all_gaps(bytes) {
        lemma_space(bytes, 0);
    }
    if exists|k: int| 0 <= k < bytes.len() && 0x21 <= #[trigger] bytes[k] <= 0x7E {
        let k = choose|k: int| 0 <= k < bytes.len() && 0x21 <= #[trigger] bytes[k] <= 0x7E;
        lemma_not_space(bytes, 0, k);
    }
}

proof fn lemma_one_piece(sql: sql::SqlView)
    ensures
        text_of(wrapper::sql_piece(sql)) == sql.text,
{
    let pieces = wrapper::sql_piece(sql);
    assert(sql::assembled(pieces, 0).text =~= Seq::empty());
    assert(text_of(pieces) =~= sql.text);
}

/// A tag around a body without content leaves nothing of it: `<where>`, `<set>`
/// and `<trim>` alike.
pub proof fn law_no_content_gives_nothing(
    source: Seq<u8>,
    wrapper: u32,
    kind: KindView,
    pieces: Seq<PieceView>,
)
    requires
        kind is WhereClause || kind is SetClause || kind is Trim,
        text::is_all_space(text_of(pieces)),
    ensures
        wrapper::wrapped(source, wrapper, kind, pieces).len() == 0,
{
}

/// A `<where>` whose body starts with a connective gives `WHERE ` and what
/// stands behind the connective.
pub proof fn law_where_drops_a_connective(
    source: Seq<u8>,
    wrapper: u32,
    pieces: Seq<PieceView>,
    lead: Seq<u8>,
    word: Seq<u8>,
    gap: Seq<u8>,
    rest: Seq<u8>,
)
    requires
        starts_with_connective(text_of(pieces), lead, word, gap, rest),
    ensures
        text_of(wrapper::wrapped(source, wrapper, KindView::WhereClause, pieces)) == encode_utf8(
            "WHERE "@,
        ) + rest,
{
    let body = text_of(pieces);
    let i = lead.len() as int;
    let n = i + word.len();
    let end = n + gap.len();
    assert forall|k: int| 0 <= k < i implies is_gap(#[trigger] body[k]) by {
        assert(body[k] == lead[k]);
    }
    assert(body[i] == word[0]);
    lemma_skip(body, 0, i);
    assert(body.subrange(i, n) =~= word);
    assert(body[n] == gap[0]);
    assert forall|k: int| n <= k < end implies is_gap(#[trigger] body[k]) by {
        assert(body[k] == gap[k - n]);
    }
    if rest.len() > 0 {
        assert(body[end] == rest[0]);
    }
    lemma_skip(body, n, end);
    lemma_word_at(body, i);
    lemma_words();
    law_content(body);
    assert(0x21 <= body[i] <= 0x7E);
    assert(!is_and(body.subrange(i, n)) || !is_or(body.subrange(i, n)));
    if is_or(word) {
        assert(body[i] != 0x41 && body[i] != 0x61);
        if i + 3 < body.len() {
            assert(body.subrange(i, i + 3)[0] == body[i]);
        }
    }
    assert(wrapper::leading_and_or(body) == end);
    assert(body.skip(end) =~= rest);
    lemma_one_piece(
        sql::prefixed(
            source,
            sql::assembly(pieces),
            wrapper,
            end,
            encode_utf8("WHERE "@),
        ),
    );
}

/// A `<where>` with any other content gives `WHERE ` and all of it.
pub proof fn law_where_keeps_the_rest(source: Seq<u8>, wrapper: u32, pieces: Seq<PieceView>)
    requires
        !text::is_all_space(text_of(pieces)),
        forall|lead: Seq<u8>, word: Seq<u8>, gap: Seq<u8>, rest: Seq<u8>|
            !#[trigger] starts_with_connective(text_of(pieces), lead, word, gap, rest),
    ensures
        text_of(wrapper::wrapped(source, wrapper, KindView::WhereClause, pieces)) == encode_utf8(
            "WHERE "@,
        ) + text_of(pieces),
{
    let body = text_of(pieces);
    let len = body.len() as int;
    lemma_skipped(body, 0);
    let i = attrs::skip_blanks(body, 0, len);
    lemma_word_at(body, i);
    lemma_words();
    if wrapper::word_at(body, encode_utf8("and"@), i) {
        lemma_no_connective(body, i, i + 3);
    }
    if wrapper::word_at(body, encode_utf8("or"@), i) {
        lemma_no_connective(body, i, i + 2);
    }
    assert(wrapper::leading_and_or(body) == 0);
    assert(body.skip(0) =~= body);
    reveal_strlit("WHERE ");
    is_ascii_chars_encode_utf8("WHERE "@);
    lemma_one_piece(
        sql::prefixed(source, sql::assembly(pieces), wrapper, 0, encode_utf8("WHERE "@)),
    );
}

proof fn lemma_no_connective(body: Seq<u8>, i: int, n: int)
    requires
        0 <= i < n < body.len(),
        forall|k: int| 0 <= k < i ==> is_gap(#[trigger] body[k]),
        is_and(body.subrange(i, n)) || is_or(body.subrange(i, n)),
        is_gap(body[n]),
    ensures
        exists|lead: Seq<u8>, word: Seq<u8>, gap: Seq<u8>, rest: Seq<u8>| #[trigger]
            starts_with_connective(body, lead, word, gap, rest),
{
    lemma_skipped(body, n);
    let end = attrs::skip_blanks(body, n, body.len() as int);
    assert(end > n);
    let lead = body.subrange(0, i);
    let word = body.subrange(i, n);
    let gap = body.subrange(n, end);
    let rest = body.subrange(end, body.len() as int);
    assert(body =~= lead + word + gap + rest);
    assert(starts_with_connective(body, lead, word, gap, rest));
}

/// What a `<set>` takes away at the start of its body: a comma with the blanks
/// around it, or nothing where the first character that is no blank is no comma.
pub open spec fn comma_head(body: Seq<u8>, h: int) -> bool {
    ||| h == 0 && exists|i: int|
        0 <= i < body.len() && !is_gap(#[trigger] body[i]) && body[i] != 0x2C && all_gaps(
            body.take(i),
        )
    ||| exists|i: int|
        0 <= i < h <= body.len() && #[trigger] body[i] == 0x2C && all_gaps(body.take(i))
            && all_gaps(body.subrange(i + 1, h)) && (h < body.len() ==> !is_gap(body[h]))
}

/// What a `<set>` keeps up to: a comma with the blanks behind it, or the end
/// where the last character that is no blank is no comma.
pub open spec fn comma_tail(body: Seq<u8>, t: int) -> bool {
    ||| t == body.len() && exists|i: int|
        0 <= i < body.len() && !is_gap(#[trigger] body[i]) && body[i] != 0x2C && all_gaps(
            body.skip(i + 1),
        )
    ||| 0 <= t < body.len() && body[t] == 0x2C && all_gaps(body.skip(t + 1))
}

/// A `<set>` with content gives `SET ` and its body without a comma at either
/// end.
pub proof fn law_set_drops_commas(
    source: Seq<u8>,
    wrapper: u32,
    pieces: Seq<PieceView>,
    h: int,
    t: int,
)
    requires
        !text::is_all_space(text_of(pieces)),
        comma_head(text_of(pieces), h),
        comma_tail(text_of(pieces), t),
    ensures
        text_of(wrapper::wrapped(source, wrapper, KindView::SetClause, pieces)) == encode_utf8(
            "SET "@,
        ) + text_of(pieces).subrange(h, at_least(h, t)),
{
    let body = text_of(pieces);
    let len = body.len() as int;
    lemma_head(body, h);
    lemma_tail(body, t);
    reveal_strlit("SET ");
    is_ascii_chars_encode_utf8("SET "@);
    let sql = sql::assembly(pieces);
    let prefix = encode_utf8("SET "@);
    let out = wrapper::trimmed(source, sql, wrapper, h, len - t, "SET "@, Seq::empty());
    lemma_trimmed(source, sql, wrapper, h, len - t, "SET "@, Seq::empty());
    encode_utf8_empty();
    let kept = body.subrange(h, at_least(h, t));
    assert(prefix + kept + Seq::<u8>::empty() =~= prefix + kept);
    lemma_one_piece(out);
}

proof fn encode_utf8_empty()
    ensures
        encode_utf8(Seq::<char>::empty()) == Seq::<u8>::empty(),
{
    is_ascii_chars_encode_utf8(Seq::<char>::empty());
    assert(encode_utf8(Seq::<char>::empty()) =~= Seq::<u8>::empty());
}

proof fn lemma_head(body: Seq<u8>, h: int)
    requires
        comma_head(body, h),
    ensures
        wrapper::leading_comma(body) == h,
        0 <= h <= body.len(),
{
    if exists|i: int|
        0 <= i < h <= body.len() && #[trigger] body[i] == 0x2C && all_gaps(body.take(i))
            && all_gaps(body.subrange(i + 1, h)) && (h < body.len() ==> !is_gap(body[h])) {
        let i = choose|i: int|
            0 <= i < h <= body.len() && #[trigger] body[i] == 0x2C && all_gaps(body.take(i))
                && all_gaps(body.subrange(i + 1, h)) && (h < body.len() ==> !is_gap(body[h]));
        assert forall|k: int| 0 <= k < i implies is_gap(#[trigger] body[k]) by {
            assert(body.take(i)[k] == body[k]);
        }
        assert forall|k: int| i + 1 <= k < h implies is_gap(#[trigger] body[k]) by {
            assert(body.subrange(i + 1, h)[k - i - 1] == body[k]);
        }
        lemma_skip(body, 0, i);
        lemma_skip(body, i + 1, h);
    } else {
        let i = choose|i: int|
            0 <= i < body.len() && !is_gap(#[trigger] body[i]) && body[i] != 0x2C && all_gaps(
                body.take(i),
            );
        assert forall|k: int| 0 <= k < i implies is_gap(#[trigger] body[k]) by {
            assert(body.take(i)[k] == body[k]);
        }
        lemma_skip(body, 0, i);
    }
}

proof fn lemma_tail(body: Seq<u8>, t: int)
    requires
        comma_tail(body, t),
    ensures
        wrapper::trailing_comma(body) == body.len() - t,
        0 <= t <= body.len(),
{
    let len = body.len() as int;
    if 0 <= t < len && body[t] == 0x2C && all_gaps(body.skip(t + 1)) {
        assert forall|k: int| t + 1 <= k < len implies is_gap(#[trigger] body[k]) by {
            assert(body.skip(t + 1)[k - t - 1] == body[k]);
        }
        lemma_blanks_back(body, len, t + 1);
    } else {
        let i = choose|i: int|
            0 <= i < body.len() && !is_gap(#[trigger] body[i]) && body[i] != 0x2C && all_gaps(
                body.skip(i + 1),
            );
        assert forall|k: int| i + 1 <= k < len implies is_gap(#[trigger] body[k]) by {
            assert(body.skip(i + 1)[k - i - 1] == body[k]);
        }
        lemma_blanks_back(body, len, i + 1);
    }
}

/// The end of what is kept, where what is taken away at both ends may overlap.
pub open spec fn at_least(h: int, t: int) -> int {
    if t < h {
        h
    } else {
        t
    }
}

proof fn lemma_trimmed(
    source: Seq<u8>,
    sql: sql::SqlView,
    wrapper: u32,
    lead: int,
    trail: int,
    prefix: Seq<char>,
    suffix: Seq<char>,
)
    requires
        0 <= lead <= sql.text.len(),
        0 <= trail,
    ensures
        wrapper::trimmed(source, sql, wrapper, lead, trail, prefix, suffix).text == encode_utf8(
            prefix,
        ) + sql.text.subrange(lead, at_least(lead, sql.text.len() - trail)) + encode_utf8(suffix),
{
    let len = sql.text.len() as int;
    let a = encode_utf8(prefix);
    let one = sql::prefixed(source, sql, wrapper, lead, a);
    assert(one.text =~= a + sql.text.skip(lead));
    let two = sql::shortened(one, wrapper::lesser(trail, len - lead));
    let end = at_least(lead, len - trail);
    assert(two.text =~= a + sql.text.subrange(lead, end));
    assert(wrapper::trimmed(source, sql, wrapper, lead, trail, prefix, suffix).text =~= a
        + sql.text.subrange(lead, end) + encode_utf8(suffix));
}

/// A byte with an ASCII capital made small.
pub open spec fn folded(b: u8) -> int {
    if 0x41 <= b <= 0x5A {
        b + 0x20
    } else {
        b as int
    }
}

/// `word` stands in `bytes` at `at`, letter case aside.
pub open spec fn stands(bytes: Seq<u8>, word: Seq<char>, at: int) -> bool {
    let letters = encode_utf8(word);
    &&& 0 <= at
    &&& at + letters.len() <= bytes.len()
    &&& forall|k: int|
        0 <= k < letters.len() ==> folded(#[trigger] letters[k]) == folded(bytes[at + k])
}

/// Where the body of a `<trim>` starts once the first of `words` that stands
/// behind its leading blanks is taken away with these blanks.
pub open spec fn word_head(body: Seq<u8>, words: Seq<Seq<char>>, h: int) -> bool {
    exists|g: int|
        {
            &&& 0 <= g <= body.len()
            &&& #[trigger] all_gaps(body.take(g))
            &&& g < body.len() ==> !is_gap(body[g])
            &&& {
                ||| h == 0 && forall|j: int|
                    0 <= j < words.len() ==> !stands(body, #[trigger] words[j], g)
                ||| exists|k: int|
                    0 <= k < words.len() && stands(body, #[trigger] words[k], g) && h == g
                        + encode_utf8(words[k]).len() && forall|j: int|
                        0 <= j < k ==> !stands(body, #[trigger] words[j], g)
            }
        }
}

/// Where the body of a `<trim>` ends once the first of `words` that stands
/// before its trailing blanks is taken away with these blanks.
pub open spec fn word_tail(body: Seq<u8>, words: Seq<Seq<char>>, t: int) -> bool {
    exists|e: int|
        {
            &&& 0 <= e <= body.len()
            &&& #[trigger] all_gaps(body.skip(e))
            &&& e > 0 ==> !is_gap(body[e - 1])
            &&& {
                ||| t == body.len() && forall|j: int|
                    0 <= j < words.len() ==> !stands(
                        body,
                        #[trigger] words[j],
                        e - encode_utf8(words[j]).len(),
                    )
                ||| exists|k: int|
                    0 <= k < words.len() && stands(body, #[trigger] words[k], t) && t == e
                        - encode_utf8(words[k]).len() && forall|j: int|
                        0 <= j < k ==> !stands(
                            body,
                            #[trigger] words[j],
                            e - encode_utf8(words[j]).len(),
                        )
            }
        }
}

proof fn lemma_stands(bytes: Seq<u8>, word: Seq<char>, at: int)
    ensures
        stands(bytes, word, at) <==> text::occurs_uncased(bytes, encode_utf8(word), at),
{
    let letters = encode_utf8(word);
    if stands(bytes, word, at) {
        assert forall|k: int| 0 <= k < letters.len() implies text::lower(#[trigger] letters[k])
            == text::lower(bytes[at + k]) by {
            assert(folded(letters[k]) == folded(bytes[at + k]));
        }
    }
    if text::occurs_uncased(bytes, letters, at) {
        assert forall|k: int| 0 <= k < letters.len() implies folded(#[trigger] letters[k])
            == folded(bytes[at + k]) by {
            assert(text::lower(letters[k]) == text::lower(bytes[at + k]));
        }
    }
}

proof fn lemma_leading(body: Seq<u8>, words: Seq<Seq<char>>, g: int, from: int, k: int)
    requires
        attrs::skip_blanks(body, 0, body.len() as int) == g,
        0 <= from <= k <= words.len(),
        k < words.len() ==> stands(body, words[k], g),
        forall|j: int| from <= j < k ==> !stands(body, #[trigger] words[j], g),
    ensures
        wrapper::leading_word(body, words, from) == (if k < words.len() {
            g + encode_utf8(words[k]).len()
        } else {
            0
        }),
    decreases k - from,
{
    if from < words.len() {
        lemma_stands(body, words[from], g);
        if from < k {
            lemma_leading(body, words, g, from + 1, k);
        }
    }
}

proof fn lemma_trailing(body: Seq<u8>, words: Seq<Seq<char>>, e: int, from: int, k: int)
    requires
        wrapper::blanks_from(body, body.len() as int) == e,
        0 <= from <= k <= words.len(),
        k < words.len() ==> stands(body, words[k], e - encode_utf8(words[k]).len()),
        forall|j: int|
            from <= j < k ==> !stands(body, #[trigger] words[j], e - encode_utf8(words[j]).len()),
    ensures
        wrapper::trailing_word(body, words, from) == (if k < words.len() {
            body.len() - e + encode_utf8(words[k]).len()
        } else {
            0
        }),
    decreases k - from,
{
    if from < words.len() {
        lemma_stands(body, words[from], e - encode_utf8(words[from]).len());
        if from < k {
            lemma_trailing(body, words, e, from + 1, k);
        }
    }
}

proof fn lemma_word_head(body: Seq<u8>, words: Seq<Seq<char>>, h: int)
    requires
        word_head(body, words, h),
    ensures
        wrapper::leading_word(body, words, 0) == h,
        0 <= h <= body.len(),
{
    let g = choose|g: int|
        {
            &&& 0 <= g <= body.len()
            &&& #[trigger] all_gaps(body.take(g))
            &&& g < body.len() ==> !is_gap(body[g])
            &&& {
                ||| h == 0 && forall|j: int|
                    0 <= j < words.len() ==> !stands(body, #[trigger] words[j], g)
                ||| exists|k: int|
                    0 <= k < words.len() && stands(body, #[trigger] words[k], g) && h == g
                        + encode_utf8(words[k]).len() && forall|j: int|
                        0 <= j < k ==> !stands(body, #[trigger] words[j], g)
            }
        };
    assert forall|k: int| 0 <= k < g implies is_gap(#[trigger] body[k]) by {
        assert(body.take(g)[k] == body[k]);
    }
    lemma_skip(body, 0, g);
    if exists|k: int|
        0 <= k < words.len() && stands(body, #[trigger] words[k], g) && h == g + encode_utf8(
            words[k],
        ).len() && forall|j: int| 0 <= j < k ==> !stands(body, #[trigger] words[j], g) {
        let k = choose|k: int|
            0 <= k < words.len() && stands(body, #[trigger] words[k], g) && h == g + encode_utf8(
                words[k],
            ).len() && forall|j: int| 0 <= j < k ==> !stands(body, #[trigger] words[j], g);
        lemma_leading(body, words, g, 0, k);
    } else {
        lemma_leading(body, words, g, 0, words.len() as int);
    }
}

proof fn lemma_word_tail(body: Seq<u8>, words: Seq<Seq<char>>, t: int)
    requires
        word_tail(body, words, t),
    ensures
        wrapper::trailing_word(body, words, 0) == body.len() - t,
        0 <= t <= body.len(),
{
    let e = choose|e: int|
        {
            &&& 0 <= e <= body.len()
            &&& #[trigger] all_gaps(body.skip(e))
            &&& e > 0 ==> !is_gap(body[e - 1])
            &&& {
                ||| t == body.len() && forall|j: int|
                    0 <= j < words.len() ==> !stands(
                        body,
                        #[trigger] words[j],
                        e - encode_utf8(words[j]).len(),
                    )
                ||| exists|k: int|
                    0 <= k < words.len() && stands(body, #[trigger] words[k], t) && t == e
                        - encode_utf8(words[k]).len() && forall|j: int|
                        0 <= j < k ==> !stands(
                            body,
                            #[trigger] words[j],
                            e - encode_utf8(words[j]).len(),
                        )
            }
        };
    assert forall|k: int| e <= k < body.len() implies is_gap(#[trigger] body[k]) by {
        assert(body.skip(e)[k - e] == body[k]);
    }
    lemma_blanks_back(body, body.len() as int, e);
    if exists|k: int|
        0 <= k < words.len() && stands(body, #[trigger] words[k], t) && t == e - encode_utf8(
            words[k],
        ).len() && forall|j: int|
            0 <= j < k ==> !stands(body, #[trigger] words[j], e - encode_utf8(words[j]).len()) {
        let k = choose|k: int|
            0 <= k < words.len() && stands(body, #[trigger] words[k], t) && t == e - encode_utf8(
                words[k],
            ).len() && forall|j: int|
                0 <= j < k ==> !stands(
                    body,
                    #[trigger] words[j],
                    e - encode_utf8(words[j]).len(),
                );
        lemma_trailing(body, words, e, 0, k);
    } else {
        lemma_trailing(body, words, e, 0, words.len() as int);
    }
}

/// A `<trim>` with content gives its prefix, its body without the first of the
/// words that stands at either end, and its suffix.
pub proof fn law_trim_drops_words(
    source: Seq<u8>,
    wrapper: u32,
    pieces: Seq<PieceView>,
    prefix: Seq<char>,
    suffix: Seq<char>,
    prefix_words: Seq<Seq<char>>,
    suffix_words: Seq<Seq<char>>,
    h: int,
    t: int,
)
    requires
        !text::is_all_space(text_of(pieces)),
        word_head(text_of(pieces), prefix_words, h),
        word_tail(text_of(pieces), suffix_words, t),
    ensures
        text_of(
            wrapper::wrapped(
                source,
                wrapper,
                KindView::Trim { prefix, suffix, prefix_words, suffix_words },
                pieces,
            ),
        ) == encode_utf8(prefix) + text_of(pieces).subrange(h, at_least(h, t)) + encode_utf8(suffix),
{
    let body = text_of(pieces);
    lemma_word_head(body, prefix_words, h);
    lemma_word_tail(body, suffix_words, t);
    let sql = sql::assembly(pieces);
    lemma_trimmed(source, sql, wrapper, h, body.len() - t, prefix, suffix);
    lemma_one_piece(
        wrapper::trimmed(source, sql, wrapper, h, body.len() - t, prefix, suffix),
    );
}

/// A `<foreach>` and an `<iterate>` give their body between what they open and
/// close it with.
pub proof fn law_loops_enclose(
    source: Seq<u8>,
    wrapper: u32,
    pieces: Seq<PieceView>,
    open: Seq<char>,
    close: Seq<char>,
)
    ensures
        text_of(wrapper::wrapped(source, wrapper, KindView::Foreach { open, close }, pieces))
            == encode_utf8(open) + text_of(pieces) + encode_utf8(close),
        text_of(wrapper::wrapped(source, wrapper, KindView::Iterate { open, close }, pieces))
            == encode_utf8(open) + text_of(pieces) + encode_utf8(close),
{
    let sql = sql::assembly(pieces);
    let out = wrapper::enclosed(source, sql, wrapper, open, close);
    assert(sql.text.skip(0) =~= sql.text);
    assert(sql::prefixed(source, sql, wrapper, 0, encode_utf8(open)).text =~= encode_utf8(open)
        + sql.text);
    assert(out.text =~= encode_utf8(open) + sql.text + encode_utf8(close));
    lemma_one_piece(out);
}

/// What the body of a `<dynamic>` is without its first `prepend`.
pub open spec fn drops_first_prepend(pieces: Seq<PieceView>, rest: Seq<PieceView>) -> bool {
    ||| rest == pieces && forall|k: int|
        0 <= k < pieces.len() ==> (#[trigger] pieces[k]) !is Prepend
    ||| exists|i: int|
        0 <= i < pieces.len() && (#[trigger] pieces[i]) is Prepend && rest == pieces.remove(i)
            && forall|k: int| 0 <= k < i ==> (#[trigger] pieces[k]) !is Prepend
}

/// A `<dynamic>` gives its own `prepend` and its body without the first
/// `prepend` in it; without content it gives nothing.
pub proof fn law_dynamic_prepends(
    source: Seq<u8>,
    wrapper: u32,
    pieces: Seq<PieceView>,
    prepend: Seq<char>,
    rest: Seq<PieceView>,
)
    requires
        drops_first_prepend(pieces, rest),
    ensures
        ({
            let out = text_of(
                wrapper::wrapped(source, wrapper, KindView::Dynamic { prepend }, pieces),
            );
            if text::is_all_space(text_of(rest)) {
                out.len() == 0
            } else if prepend.len() == 0 {
                out == text_of(rest)
            } else {
                out == encode_utf8(prepend + " "@) + text_of(rest)
            }
        }),
{
    if exists|i: int|
        0 <= i < pieces.len() && (#[trigger] pieces[i]) is Prepend && rest == pieces.remove(i)
            && forall|k: int| 0 <= k < i ==> (#[trigger] pieces[k]) !is Prepend {
        let i = choose|i: int|
            0 <= i < pieces.len() && (#[trigger] pieces[i]) is Prepend && rest == pieces.remove(i)
                && forall|k: int| 0 <= k < i ==> (#[trigger] pieces[k]) !is Prepend;
        lemma_first_prepend(pieces, 0, i);
    } else {
        lemma_first_prepend(pieces, 0, pieces.len() as int);
    }
    assert(wrapper::without_prepend(pieces) == rest);
    let sql = sql::assembly(rest);
    assert(sql.text.skip(0) =~= sql.text);
    assert(sql::assembled(Seq::<PieceView>::empty(), 0).text.len() == 0);
    lemma_one_piece(sql);
    let lead = encode_utf8(prepend + " "@);
    assert(sql::prefixed(source, sql, wrapper, 0, lead).text =~= lead + sql.text);
    lemma_one_piece(sql::prefixed(source, sql, wrapper, 0, lead));
}

proof fn lemma_first_prepend(pieces: Seq<PieceView>, from: int, i: int)
    requires
        0 <= from <= i <= pieces.len(),
        i < pieces.len() ==> pieces[i] is Prepend,
        forall|k: int| from <= k < i ==> (#[trigger] pieces[k]) !is Prepend,
    ensures
        wrapper::first_prepend(pieces, from) == (if i < pieces.len() {
            Some(i)
        } else {
            None
        }),
    decreases i - from,
{
    if from < i {
        lemma_first_prepend(pieces, from + 1, i);
    }
}

// ---- lists of words -----------------------------------------------------

/// A list of words without a bar is one word; an empty one is none.
pub proof fn law_words_without_a_bar(raw: Seq<char>)
    requires
        forall|k: int| 0 <= k < raw.len() ==> #[trigger] raw[k] != '|',
    ensures
        wrapper::overrides(raw) == (if raw.len() == 0 {
            Seq::empty()
        } else {
            seq![raw]
        }),
{
    let bytes = encode_utf8(raw);
    let len = bytes.len() as int;
    lemma_no_bar(raw);
    lemma_bar_free(bytes, 0);
    encode_utf8_decode_utf8(raw);
    assert(bytes.subrange(0, len) =~= bytes);
    if raw.len() == 0 {
        encode_utf8_empty();
        assert(raw =~= Seq::empty());
    } else {
        encode_utf8_first_scalar(raw);
        assert(len > 0) by {
            if len == 0 {
                assert(bytes =~= Seq::empty());
                encode_utf8_empty();
                encode_utf8_decode_utf8(Seq::<char>::empty());
                assert(raw =~= Seq::empty());
            }
        }
    }
    assert(wrapper::overrides(raw) =~= (if raw.len() == 0 {
        Seq::empty()
    } else {
        seq![raw]
    }));
}

/// A bar parts a list of words in two.
pub proof fn law_bar_parts_words(a: Seq<char>, b: Seq<char>)
    requires
        forall|k: int| 0 <= k < a.len() ==> #[trigger] a[k] != '|',
    ensures
        wrapper::overrides(a + seq!['|'] + b) == wrapper::overrides(a) + wrapper::overrides(b),
{
    let x = encode_utf8(a);
    let y = encode_utf8(b);
    let bar = seq!['|'];
    let all = encode_utf8(a + bar + b);
    text::lemma_encode_concat(a + bar, b);
    text::lemma_encode_concat(a, bar);
    is_ascii_chars_encode_utf8(bar);
    assert(encode_utf8(bar) =~= seq![0x7Cu8]);
    assert(all =~= x + seq![0x7Cu8] + y);
    lemma_no_bar(a);
    let n = x.len() as int;
    assert forall|k: int| 0 <= k < n implies #[trigger] all[k] != 0x7C by {
        assert(all[k] == x[k]);
    }
    lemma_bar_at(all, 0, n);
    lemma_bar_free(x, 0);
    lemma_moved_parts(all, n + 1, 0);
    assert(all.skip(n + 1) =~= y);
    assert(all.subrange(0, n) =~= x.subrange(0, n));
}

proof fn lemma_no_bar(raw: Seq<char>)
    requires
        forall|k: int| 0 <= k < raw.len() ==> #[trigger] raw[k] != '|',
    ensures
        forall|k: int| 0 <= k < encode_utf8(raw).len() ==> #[trigger] encode_utf8(raw)[k] != 0x7C,
    decreases raw.len(),
{
    if raw.len() > 0 {
        let rest = raw.drop_first();
        assert forall|k: int| 0 <= k < rest.len() implies #[trigger] rest[k] != '|' by {
            assert(raw[k + 1] != '|');
        }
        lemma_no_bar(rest);
        let one = seq![raw[0]];
        assert(raw =~= one + rest);
        text::lemma_encode_concat(one, rest);
        lemma_one_char(raw[0]);
        let bytes = encode_utf8(raw);
        assert forall|k: int| 0 <= k < bytes.len() implies #[trigger] bytes[k] != 0x7C by {
            if k < encode_utf8(one).len() {
                assert(bytes[k] == encode_utf8(one)[k]);
            } else {
                assert(bytes[k] == encode_utf8(rest)[k - encode_utf8(one).len()]);
            }
        }
    } else {
        encode_utf8_empty();
        assert(raw =~= Seq::empty());
    }
}

proof fn lemma_one_char(c: char)
    requires
        c != '|',
    ensures
        forall|k: int|
            0 <= k < encode_utf8(seq![c]).len() ==> #[trigger] encode_utf8(seq![c])[k] != 0x7C,
{
    let one = seq![c];
    let bytes = encode_utf8(one);
    encode_utf8_valid_utf8(one);
    encode_utf8_decode_utf8(one);
    if exists|k: int| 0 <= k < bytes.len() && #[trigger] bytes[k] == 0x7C {
        let k = choose|k: int| 0 <= k < bytes.len() && #[trigger] bytes[k] == 0x7C;
        text::lemma_ascii_cuts(bytes, k);
        text::lemma_cut_is_boundary(bytes, k);
        valid_utf8_split(bytes, k);
        decode_utf8_split(bytes, k);
        let a = bytes.subrange(0, k);
        let b = bytes.subrange(k, bytes.len() as int);
        text::lemma_cut_is_boundary(b, 1);
        assert(text::is_cut(b, 1));
        valid_utf8_split(b, 1);
        decode_utf8_split(b, 1);
        let bar = b.subrange(0, 1);
        let tail = b.subrange(1, b.len() as int);
        assert(bar =~= seq![0x7Cu8]);
        let mid = seq!['|'];
        is_ascii_chars_encode_utf8(mid);
        assert(encode_utf8(mid) =~= bar);
        encode_utf8_decode_utf8(mid);
        let whole = decode_utf8(a) + (mid + decode_utf8(tail));
        assert(whole == one);
        assert(whole[decode_utf8(a).len() as int] == '|');
        assert(whole.len() == 1);
    }
}

proof fn lemma_bar_free(bytes: Seq<u8>, from: int)
    requires
        0 <= from <= bytes.len(),
        forall|k: int| 0 <= k < bytes.len() ==> #[trigger] bytes[k] != 0x7C,
    ensures
        placeholder::before_separator(bytes, from, bytes.len() as int, 0x7C) == bytes.len(),
    decreases bytes.len() - from,
{
    if from < bytes.len() {
        assert(bytes[from] != 0x7C);
        lemma_bar_free(bytes, from + 1);
    }
}

proof fn lemma_bar_at(bytes: Seq<u8>, from: int, at: int)
    requires
        0 <= from <= at < bytes.len(),
        forall|k: int| from <= k < at ==> #[trigger] bytes[k] != 0x7C,
        bytes[at] == 0x7C,
    ensures
        placeholder::before_separator(bytes, from, bytes.len() as int, 0x7C) == at,
    decreases at - from,
{
    if from < at {
        assert(bytes[from] != 0x7C);
        lemma_bar_at(bytes, from + 1, at);
    }
}

proof fn lemma_moved_parts(bytes: Seq<u8>, off: int, from: int)
    requires
        0 <= off,
        0 <= from,
        off + from <= bytes.len(),
    ensures
        wrapper::bar_parts(bytes, off + from) == wrapper::bar_parts(bytes.skip(off), from),
    decreases bytes.len() - off - from,
{
    let part = bytes.skip(off);
    paths::lemma_separator_moved(bytes, off, from, part.len() as int, sql::BAR);
    paths::lemma_separator_end(part, from, part.len() as int, sql::BAR);
    let end = placeholder::before_separator(part, from, part.len() as int, sql::BAR);
    assert(bytes.subrange(off + from, off + end) =~= part.subrange(from, end));
    if end < part.len() {
        lemma_moved_parts(bytes, off, end + 1);
    }
}

// ---- pieces -------------------------------------------------------------

/// The text of pieces is the text of each, one after the other.
pub proof fn law_text_of_parts(a: Seq<PieceView>, b: Seq<PieceView>)
    ensures
        text_of(a + b) == text_of(a) + text_of(b),
    decreases b.len(),
{
    if b.len() > 0 {
        let rest = b.drop_last();
        law_text_of_parts(a, rest);
        lemma_prefix(a + b, a + rest, a.len() as int + rest.len());
        lemma_prefix(b, rest, rest.len() as int);
        assert((a + b)[a.len() as int + rest.len()] == b.last());
        let x = sql::assembled(a + b, a.len() as int + rest.len());
        let y = sql::assembled(b, rest.len() as int);
        assert(text_of(a + b) == sql::append_piece(x, b.last()).text);
        assert(text_of(b) == sql::append_piece(y, b.last()).text);
        assert(x.text == text_of(a) + text_of(rest));
        assert(y.text == text_of(rest));
        match b.last() {
            PieceView::Normalized { text, .. } => {
                assert(text_of(a) + text_of(rest) + text =~= text_of(a) + (text_of(rest) + text));
            },
            PieceView::Include { raw, .. } => {
                let t = sql::include_token(raw);
                assert(text_of(a) + text_of(rest) + t =~= text_of(a) + (text_of(rest) + t));
            },
            PieceView::Prepend { value, .. } => {
                let v = encode_utf8(value);
                let s = encode_utf8(" "@);
                assert(text_of(a) + text_of(rest) + v + s =~= text_of(a) + (text_of(rest) + v
                    + s));
            },
        }
    } else {
        assert(a + b =~= a);
        assert(sql::assembled(b, 0).text =~= Seq::empty());
        assert(text_of(a) + text_of(b) =~= text_of(a));
    }
}

proof fn lemma_prefix(x: Seq<PieceView>, y: Seq<PieceView>, n: int)
    requires
        0 <= n <= x.len(),
        n <= y.len(),
        forall|k: int| 0 <= k < n ==> #[trigger] x[k] == y[k],
    ensures
        sql::assembled(x, n) == sql::assembled(y, n),
    decreases n,
{
    if n > 0 {
        lemma_prefix(x, y, n - 1);
        assert(x[n - 1] == y[n - 1]);
    }
}

/// The text of one piece: normalized text as it is, a comment that names an
/// `<include>`, and a `prepend` with a space behind it.
pub proof fn law_text_of_a_piece(
    text: Seq<u8>,
    map: Seq<(int, u32)>,
    value: Seq<char>,
    span: ByteSpan,
)
    ensures
        text_of(seq![PieceView::Normalized { text, map }]) == text,
        text_of(seq![PieceView::Prepend { value, span }]) == encode_utf8(value) + seq![0x20u8],
        text_of(seq![PieceView::Include { raw: value, span }]) == sql::include_token(value),
        (forall|k: int| 0 <= k < encode_utf8(value).len() ==> #[trigger] encode_utf8(value)[k]
            != 0x2A) ==> text_of(seq![PieceView::Include { raw: value, span }]) == encode_utf8(
            "/* batis:include("@,
        ) + encode_utf8(value) + encode_utf8(") */"@),
{
    let a = seq![PieceView::Normalized { text, map }];
    let b = seq![PieceView::Prepend { value, span }];
    let c = seq![PieceView::Include { raw: value, span }];
    let none = sql::assembled(a, 0);
    assert(none.text =~= Seq::empty());
    assert(sql::assembled(b, 0) == none && sql::assembled(c, 0) == none);
    assert(text_of(a) =~= text);
    reveal_strlit(" ");
    is_ascii_chars_encode_utf8(" "@);
    assert(encode_utf8(" "@) =~= seq![0x20u8]);
    assert(text_of(b) =~= encode_utf8(value) + seq![0x20u8]);
    assert(text_of(c) =~= sql::include_token(value));
    if forall|k: int| 0 <= k < encode_utf8(value).len() ==> #[trigger] encode_utf8(value)[k] != 0x2A {
        lemma_undefused(encode_utf8(value), 0);
        assert(encode_utf8(value).skip(0) =~= encode_utf8(value));
    }
}

proof fn lemma_undefused(bytes: Seq<u8>, i: int)
    requires
        0 <= i <= bytes.len(),
        forall|k: int| 0 <= k < bytes.len() ==> #[trigger] bytes[k] != 0x2A,
    ensures
        sql::defused(bytes, i) == bytes.skip(i),
    decreases bytes.len() - i,
{
    if i < bytes.len() {
        assert(bytes[i] != 0x2A);
        lemma_undefused(bytes, i + 1);
        assert(bytes.skip(i) =~= seq![bytes[i]] + bytes.skip(i + 1));
    } else {
        assert(bytes.skip(i) =~= Seq::empty());
    }
}

} // verus!
