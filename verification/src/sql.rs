//! SQL text under construction: pieces, their assembly, and the wrapper rules
//! that add and strip text at both ends while the map back to the source is
//! kept.
use crate::attrs;
use crate::model;
use crate::model::ByteSpan;
use crate::placeholder;
use crate::text;
use crate::text::{push, slice};
use vstd::prelude::*;
use vstd::string::*;
use vstd::utf8::*;

verus! {

pub const STAR: u8 = 0x2A;

pub const BAR: u8 = 0x7C;

/// Text with a map of segment starts to source offsets.
pub struct Sql {
    pub text: String,
    pub map: Vec<(usize, u32)>,
}

pub struct SqlView {
    pub text: Seq<u8>,
    pub map: Seq<(int, u32)>,
}

impl View for Sql {
    type V = SqlView;

    open spec fn view(&self) -> SqlView {
        SqlView { text: encode_utf8(self.text@), map: placeholder::entries(self.map@) }
    }
}

/// One unit of the text of a branch.
pub enum Piece {
    Normalized { text: String, map: Vec<(usize, u32)> },
    Include { raw: String, span: ByteSpan },
    /// The `prepend` attribute of an iBatis conditional, which `<dynamic>` may
    /// have to take away again.
    Prepend { value: String, span: ByteSpan },
}

pub enum PieceView {
    Normalized { text: Seq<u8>, map: Seq<(int, u32)> },
    Include { raw: Seq<char>, span: ByteSpan },
    Prepend { value: Seq<char>, span: ByteSpan },
}

impl View for Piece {
    type V = PieceView;

    open spec fn view(&self) -> PieceView {
        match self {
            Piece::Normalized { text, map } => PieceView::Normalized {
                text: encode_utf8(text@),
                map: placeholder::entries(map@),
            },
            Piece::Include { raw, span } => PieceView::Include { raw: raw@, span: *span },
            Piece::Prepend { value, span } => PieceView::Prepend { value: value@, span: *span },
        }
    }
}

fn copy_map(map: &Vec<(usize, u32)>) -> (copy: Vec<(usize, u32)>)
    ensures
        copy@ == map@,
{
    let mut copy: Vec<(usize, u32)> = Vec::new();
    let mut k: usize = 0;
    while k < map.len()
        invariant
            k <= map@.len(),
            copy@ == map@.take(k as int),
        decreases map@.len() - k,
    {
        copy.push(map[k]);
        assert(map@.take(k + 1) =~= map@.take(k as int).push(map@[k as int]));
        k += 1;
    }
    assert(map@.take(k as int) =~= map@);
    copy
}

pub fn copy_piece(piece: &Piece) -> (copy: Piece)
    ensures
        copy@ == piece@,
{
    match piece {
        Piece::Normalized { text, map } => Piece::Normalized {
            text: text.clone(),
            map: copy_map(map),
        },
        Piece::Include { raw, span } => Piece::Include { raw: raw.clone(), span: *span },
        Piece::Prepend { value, span } => Piece::Prepend { value: value.clone(), span: *span },
    }
}

// ---- the map ------------------------------------------------------------

/// Adds an entry; one that stands at the same offset already gives way.
pub open spec fn push_entry(map: Seq<(int, u32)>, offset: int, raw: u32) -> Seq<(int, u32)> {
    if map.len() > 0 && map.last().0 == offset {
        map.drop_last().push((offset, raw))
    } else {
        map.push((offset, raw))
    }
}

pub fn push_span_entry(map: &mut Vec<(usize, u32)>, offset: usize, raw: u32)
    ensures
        placeholder::entries(final(map)@) == push_entry(
            placeholder::entries(old(map)@),
            offset as int,
            raw,
        ),
{
    let len = map.len();
    if len > 0 && map[len - 1].0 == offset {
        map.pop();
    }
    map.push((offset, raw));
    assert(placeholder::entries(map@) =~= push_entry(
        placeholder::entries(old(map)@),
        offset as int,
        raw,
    ));
}

/// The first `n` entries of `more`, moved by `base`, added to `map`.
pub open spec fn appended(
    map: Seq<(int, u32)>,
    more: Seq<(int, u32)>,
    base: int,
    n: int,
) -> Seq<(int, u32)>
    decreases n,
{
    if n <= 0 {
        map
    } else {
        push_entry(appended(map, more, base, n - 1), base + more[n - 1].0, more[n - 1].1)
    }
}

// ---- assembly -----------------------------------------------------------

/// `bytes` from `i` on, with every `*/` written `*_/`.
pub open spec fn defused(bytes: Seq<u8>, i: int) -> Seq<u8>
    decreases bytes.len() - i,
{
    if i >= bytes.len() {
        Seq::empty()
    } else if i + 1 < bytes.len() && bytes[i] == STAR && bytes[i + 1] == attrs::SLASH {
        encode_utf8("*_/"@) + defused(bytes, i + 2)
    } else {
        seq![bytes[i]] + defused(bytes, i + 1)
    }
}

/// What stands for an `<include>` in the text.
pub open spec fn include_token(raw: Seq<char>) -> Seq<u8> {
    encode_utf8("/* batis:include("@) + defused(encode_utf8(raw), 0) + encode_utf8(") */"@)
}

/// The text of `raw` with every `*/` written `*_/`.
fn defuse(raw: &str) -> (text: String)
    ensures
        encode_utf8(text@) == defused(raw.spec_bytes(), 0),
{
    let bytes = raw.as_bytes();
    let mut text = String::new();
    let mut copy: usize = 0;
    let mut i: usize = 0;
    proof {
        encode_utf8_valid_utf8(raw@);
        text::lemma_cut_is_boundary(bytes@, 0);
        text::lemma_cut_is_boundary(bytes@, bytes@.len() as int);
        assert(encode_utf8(text@) + bytes@.subrange(0, 0) + defused(bytes@, 0) =~= defused(
            bytes@,
            0,
        ));
    }
    while i < bytes.len()
        invariant
            bytes@ == raw.spec_bytes(),
            valid_utf8(bytes@),
            copy <= i <= bytes@.len(),
            text::is_cut(bytes@, copy as int),
            encode_utf8(text@) + bytes@.subrange(copy as int, i as int) + defused(
                bytes@,
                i as int,
            ) == defused(bytes@, 0),
        decreases bytes@.len() - i,
    {
        let ghost done = encode_utf8(text@);
        let ghost rest = defused(bytes@, i as int);
        if bytes.len() - i > 1 && bytes[i] == STAR && bytes[i + 1] == attrs::SLASH {
            proof {
                text::lemma_ascii_cuts(bytes@, i as int);
                text::lemma_ascii_cuts(bytes@, i + 1);
            }
            push(&mut text, slice(raw, copy, i));
            push(&mut text, "*_/");
            i += 2;
            copy = i;
            assert(encode_utf8(text@) + bytes@.subrange(copy as int, i as int) + defused(
                bytes@,
                i as int,
            ) =~= defused(bytes@, 0));
        } else {
            i += 1;
            assert(encode_utf8(text@) + bytes@.subrange(copy as int, i as int) + defused(
                bytes@,
                i as int,
            ) =~= done + bytes@.subrange(copy as int, i - 1) + rest);
        }
    }
    proof {
        text::lemma_cut_is_boundary(bytes@, bytes@.len() as int);
    }
    push(&mut text, slice(raw, copy, bytes.len()));
    assert(encode_utf8(text@) =~= defused(bytes@, 0));
    text
}

/// `sql` with one more piece at its end.
pub open spec fn append_piece(sql: SqlView, piece: PieceView) -> SqlView {
    let len = sql.text.len() as int;
    match piece {
        PieceView::Normalized { text, map } => SqlView {
            text: sql.text + text,
            map: appended(sql.map, map, len, map.len() as int),
        },
        PieceView::Include { raw, span } => SqlView {
            text: sql.text + include_token(raw),
            map: push_entry(sql.map, len, span.start),
        },
        PieceView::Prepend { value, span } => SqlView {
            text: sql.text + encode_utf8(value) + encode_utf8(" "@),
            map: push_entry(sql.map, len, span.start),
        },
    }
}

/// The text of the first `n` pieces.
pub open spec fn assembled(pieces: Seq<PieceView>, n: int) -> SqlView
    decreases n,
{
    if n <= 0 {
        SqlView { text: Seq::empty(), map: Seq::empty() }
    } else {
        append_piece(assembled(pieces, n - 1), pieces[n - 1])
    }
}

pub open spec fn assembly(pieces: Seq<PieceView>) -> SqlView {
    assembled(pieces, pieces.len() as int)
}

/// The length of a text in bytes.
pub fn byte_len(text: &String) -> (len: usize)
    ensures
        len == encode_utf8(text@).len(),
{
    text.as_str().as_bytes().len()
}

/// A text whose map has growing offsets, each with text after it, and leads
/// into a source of length `len`.
pub open spec fn sql_ok(sql: SqlView, len: int) -> bool {
    &&& placeholder::map_of(sql.map, sql.text.len() as int)
    &&& placeholder::raws_in(sql.map, len)
    &&& valid_utf8(sql.text)
}

pub open spec fn piece_ok(piece: PieceView, len: int) -> bool {
    match piece {
        PieceView::Normalized { text, map } => sql_ok(SqlView { text, map }, len),
        PieceView::Include { raw, span } => span.start <= span.end <= len,
        PieceView::Prepend { value, span } => span.start <= span.end <= len,
    }
}

pub open spec fn pieces_ok(pieces: Seq<PieceView>, len: int) -> bool {
    forall|k: int| 0 <= k < pieces.len() ==> piece_ok(#[trigger] pieces[k], len)
}

proof fn lemma_appended(
    map: Seq<(int, u32)>,
    more: Seq<(int, u32)>,
    base: int,
    size: int,
    n: int,
    len: int,
)
    requires
        0 <= size,
        placeholder::map_of(map, base),
        placeholder::map_of(more, size),
        placeholder::raws_in(map, len),
        placeholder::raws_in(more, len),
        0 <= n <= more.len(),
        0 <= base,
    ensures
        appended(map, more, base, n) == map + Seq::new(
            n as nat,
            |k: int| (base + more[k].0, more[k].1),
        ),
        placeholder::map_of(appended(map, more, base, n), base + size),
        placeholder::raws_in(appended(map, more, base, n), len),
    decreases n,
{
    let moved = Seq::new(n as nat, |k: int| (base + more[k].0, more[k].1));
    if n > 0 {
        lemma_appended(map, more, base, size, n - 1, len);
        let before = Seq::new((n - 1) as nat, |k: int| (base + more[k].0, more[k].1));
        let prior = appended(map, more, base, n - 1);
        assert(prior == map + before);
        if prior.len() > 0 {
            if before.len() > 0 {
                assert(prior.last() == before[n - 2]);
                assert(more[n - 2].0 < more[n - 1].0);
            } else {
                assert(prior.last() == map.last());
                assert(map[map.len() - 1].0 < base);
            }
        }
        assert(map + moved =~= (map + before).push((base + more[n - 1].0, more[n - 1].1)));
    } else {
        assert(map + moved =~= map);
    }
    let all = map + moved;
    assert forall|i: int, j: int| 0 <= i < j < all.len() implies (#[trigger] all[i]).0 < (
    #[trigger] all[j]).0 by {
        if j >= map.len() {
            assert(more[j - map.len()].0 >= 0);
            if i >= map.len() {
                assert(more[i - map.len()].0 < more[j - map.len()].0);
            }
        }
    }
    assert forall|i: int| 0 <= i < all.len() implies 0 <= (#[trigger] all[i]).0 < base + size
        && all[i].1 <= len by {
        if i >= map.len() {
            assert(0 <= more[i - map.len()].0 < size);
            assert(more[i - map.len()].1 <= len);
        } else {
            assert(0 <= map[i].0 < base);
            assert(map[i].1 <= len);
        }
    }
}

/// The fixed parts of a token.
proof fn lemma_token_parts()
    ensures
        encode_utf8("/* batis:include("@).len() > 0,
        encode_utf8(" "@).len() == 1,
{
    reveal_strlit("/* batis:include(");
    reveal_strlit(" ");
    is_ascii_chars_encode_utf8("/* batis:include("@);
    is_ascii_chars_encode_utf8(" "@);
}

proof fn lemma_push_at_end(map: Seq<(int, u32)>, offset: int, raw: u32, total: int, len: int)
    requires
        placeholder::map_of(map, offset),
        placeholder::raws_in(map, len),
        raw <= len,
        0 <= offset < total,
    ensures
        push_entry(map, offset, raw) == map.push((offset, raw)),
        placeholder::map_of(push_entry(map, offset, raw), total),
        placeholder::raws_in(push_entry(map, offset, raw), len),
{
    if map.len() > 0 {
        assert(map[map.len() - 1].0 < offset);
    }
}

proof fn lemma_defused_valid(raw: Seq<char>)
    ensures
        valid_utf8(include_token(raw)),
{
    lemma_defused(encode_utf8(raw), 0);
    encode_utf8_valid_utf8(raw);
    text::lemma_cut_is_boundary(encode_utf8(raw), 0);
    lemma_defused_from(encode_utf8(raw), 0, 0);
    assert(encode_utf8(raw).subrange(0, 0) + defused(encode_utf8(raw), 0) =~= defused(
        encode_utf8(raw),
        0,
    ));
    encode_utf8_valid_utf8("/* batis:include("@);
    encode_utf8_valid_utf8(") */"@);
    valid_utf8_concat(encode_utf8("/* batis:include("@), defused(encode_utf8(raw), 0));
    valid_utf8_concat(
        encode_utf8("/* batis:include("@) + defused(encode_utf8(raw), 0),
        encode_utf8(") */"@),
    );
}

/// What has been copied since the cut `copy`, followed by the rest, is valid.
proof fn lemma_defused_from(bytes: Seq<u8>, copy: int, i: int)
    requires
        valid_utf8(bytes),
        text::is_cut(bytes, copy),
        0 <= copy <= i <= bytes.len(),
    ensures
        valid_utf8(bytes.subrange(copy, i) + defused(bytes, i)),
    decreases bytes.len() - i,
{
    let head = bytes.subrange(copy, i);
    if i >= bytes.len() {
        text::lemma_cut_is_boundary(bytes, bytes.len() as int);
        text::lemma_between_cuts(bytes, copy, i);
        assert(head + defused(bytes, i) =~= head);
    } else if i + 1 < bytes.len() && bytes[i] == STAR && bytes[i + 1] == attrs::SLASH {
        text::lemma_ascii_cuts(bytes, i);
        text::lemma_ascii_cuts(bytes, i + 1);
        lemma_defused_from(bytes, i + 2, i + 2);
        text::lemma_between_cuts(bytes, copy, i);
        encode_utf8_valid_utf8("*_/"@);
        let tail = bytes.subrange(i + 2, i + 2) + defused(bytes, i + 2);
        assert(tail =~= defused(bytes, i + 2));
        valid_utf8_concat(encode_utf8("*_/"@), tail);
        valid_utf8_concat(head, encode_utf8("*_/"@) + tail);
        assert(head + defused(bytes, i) =~= head + (encode_utf8("*_/"@) + tail));
    } else {
        lemma_defused_from(bytes, copy, i + 1);
        assert(head + defused(bytes, i) =~= bytes.subrange(copy, i + 1) + defused(bytes, i + 1));
    }
}

/// A `*/` stands at `k`.
pub open spec fn comment_ends_at(bytes: Seq<u8>, k: int) -> bool {
    bytes[k] == STAR && bytes[k + 1] == attrs::SLASH
}

/// No `*/` stands in what is put between the token's brackets.
pub proof fn lemma_defused(bytes: Seq<u8>, i: int)
    requires
        0 <= i,
    ensures
        forall|k: int|
            0 <= k < defused(bytes, i).len() - 1 ==> !#[trigger] comment_ends_at(
                defused(bytes, i),
                k,
            ),
        i < bytes.len() ==> defused(bytes, i).len() > 0 && defused(bytes, i)[0] == bytes[i],
    decreases bytes.len() - i,
{
    reveal_strlit("*_/");
    is_ascii_chars_encode_utf8("*_/"@);
    if i < bytes.len() {
        if i + 1 < bytes.len() && bytes[i] == STAR && bytes[i + 1] == attrs::SLASH {
            lemma_defused(bytes, i + 2);
            let rest = defused(bytes, i + 2);
            let all = defused(bytes, i);
            assert(all == encode_utf8("*_/"@) + rest);
            assert(all[0] == STAR && all[1] == 0x5F && all[2] == attrs::SLASH);
            assert forall|k: int| 0 <= k < all.len() - 1 implies !#[trigger] comment_ends_at(
                all,
                k,
            ) by {
                if k >= 3 {
                    assert(!comment_ends_at(rest, k - 3));
                    assert(rest[k - 3] == all[k] && rest[k - 2] == all[k + 1]);
                }
            }
        } else {
            lemma_defused(bytes, i + 1);
            let rest = defused(bytes, i + 1);
            let all = defused(bytes, i);
            assert(all == seq![bytes[i]] + rest);
            assert forall|k: int| 0 <= k < all.len() - 1 implies !#[trigger] comment_ends_at(
                all,
                k,
            ) by {
                if k >= 1 {
                    assert(!comment_ends_at(rest, k - 1));
                    assert(rest[k - 1] == all[k] && rest[k] == all[k + 1]);
                } else {
                    assert(rest.len() > 0);
                    assert(i + 1 < bytes.len());
                }
            }
        }
    }
}

/// The token of an `<include>` starts with its fixed prefix, ends with its fixed
/// end, and holds no other end of a comment.
pub proof fn law_token_closes_once(raw: Seq<char>)
    ensures
        ({
            let token = include_token(raw);
            let prefix = encode_utf8("/* batis:include("@);
            &&& token.len() >= prefix.len()
            &&& token.subrange(0, prefix.len() as int) == prefix
            &&& comment_ends_at(token, token.len() - 2)
            &&& forall|k: int| 0 <= k < token.len() - 2 ==> !#[trigger] comment_ends_at(token, k)
        }),
{
    let token = include_token(raw);
    let prefix = encode_utf8("/* batis:include("@);
    let inner = defused(encode_utf8(raw), 0);
    let end = encode_utf8(") */"@);
    reveal_strlit("/* batis:include(");
    reveal_strlit(") */");
    is_ascii_chars_encode_utf8("/* batis:include("@);
    is_ascii_chars_encode_utf8(") */"@);
    lemma_defused(encode_utf8(raw), 0);
    assert(prefix.len() == 17 && end.len() == 4);
    assert(token.subrange(0, 17) =~= prefix);
    assert(prefix[0] == attrs::SLASH && prefix[1] == STAR && prefix[2] == text::SPACE);
    assert(end[0] == 0x29 && end[1] == text::SPACE && end[2] == STAR && end[3] == attrs::SLASH);
    assert forall|k: int| 0 <= k < token.len() - 2 implies !#[trigger] comment_ends_at(
        token,
        k,
    ) by {
        if k < 17 {
            assert(token[k] == prefix[k]);
            assert(token[1] == prefix[1] && token[2] == prefix[2]);
            assert(k != 1 ==> prefix[k] != STAR);
        } else if k < 17 + inner.len() {
            assert(token[k] == inner[k - 17]);
            if k + 1 < 17 + inner.len() {
                assert(!comment_ends_at(inner, k - 17));
                assert(token[k + 1] == inner[k - 16]);
            } else {
                assert(token[k + 1] == end[0]);
            }
        } else {
            assert(token[k] == end[k - 17 - inner.len()]);
        }
    }
}

/// A piece added at the end keeps the map in order.
pub proof fn lemma_append_piece(sql: SqlView, piece: PieceView, len: int)
    requires
        sql_ok(sql, len),
        piece_ok(piece, len),
    ensures
        sql_ok(append_piece(sql, piece), len),
{
    let base = sql.text.len() as int;
    lemma_token_parts();
    match piece {
        PieceView::Normalized { text, map } => {
            lemma_appended(sql.map, map, base, text.len() as int, map.len() as int, len);
            valid_utf8_concat(sql.text, text);
        },
        PieceView::Include { raw, span } => {
            lemma_push_at_end(
                sql.map,
                base,
                span.start,
                append_piece(sql, piece).text.len() as int,
                len,
            );
            lemma_defused_valid(raw);
            valid_utf8_concat(sql.text, include_token(raw));
        },
        PieceView::Prepend { value, span } => {
            lemma_push_at_end(
                sql.map,
                base,
                span.start,
                append_piece(sql, piece).text.len() as int,
                len,
            );
            encode_utf8_valid_utf8(value);
            encode_utf8_valid_utf8(" "@);
            valid_utf8_concat(sql.text, encode_utf8(value));
            valid_utf8_concat(sql.text + encode_utf8(value), encode_utf8(" "@));
        },
    }
}

/// The text of well-formed pieces is well-formed.
pub proof fn lemma_assembled(pieces: Seq<PieceView>, n: int, len: int)
    requires
        pieces_ok(pieces, len),
        0 <= n <= pieces.len(),
    ensures
        sql_ok(assembled(pieces, n), len),
    decreases n,
{
    if n > 0 {
        lemma_assembled(pieces, n - 1, len);
        assert(piece_ok(pieces[n - 1], len));
        lemma_append_piece(assembled(pieces, n - 1), pieces[n - 1], len);
    }
}

/// Puts a piece at the end of `sql`.
fn add_piece(sql: &mut Sql, piece: &Piece, Ghost(len): Ghost<int>)
    requires
        sql_ok(old(sql)@, len),
        piece_ok(piece@, len),
    ensures
        final(sql)@ == append_piece(old(sql)@, piece@),
{
    let base: usize = byte_len(&sql.text);
    match piece {
        Piece::Normalized { text, map } => {
            let ghost more = placeholder::entries(map@);
            push(&mut sql.text, text.as_str());
            let total: usize = byte_len(&sql.text);
            let mut k: usize = 0;
            while k < map.len()
                invariant
                    k <= map@.len(),
                    more == placeholder::entries(map@),
                    placeholder::map_of(more, encode_utf8(text@).len() as int),
                    encode_utf8(sql.text@) == old(sql)@.text + encode_utf8(text@),
                    base == old(sql)@.text.len(),
                    total == base + encode_utf8(text@).len(),
                    placeholder::entries(sql.map@) == appended(
                        old(sql)@.map,
                        more,
                        base as int,
                        k as int,
                    ),
                decreases map@.len() - k,
            {
                let entry = map[k];
                assert(more[k as int] == (entry.0 as int, entry.1));
                push_span_entry(&mut sql.map, base + entry.0, entry.1);
                k += 1;
            }
        },
        Piece::Include { raw, span } => {
            push_span_entry(&mut sql.map, base, span.start);
            push(&mut sql.text, "/* batis:include(");
            push(&mut sql.text, defuse(raw.as_str()).as_str());
            push(&mut sql.text, ") */");
            assert(sql@.text =~= old(sql)@.text + include_token(raw@));
        },
        Piece::Prepend { value, span } => {
            push_span_entry(&mut sql.map, base, span.start);
            push(&mut sql.text, value.as_str());
            push(&mut sql.text, " ");
        },
    }
}

/// Concatenates the pieces.
pub fn assemble(pieces: &Vec<Piece>, Ghost(len): Ghost<int>) -> (sql: Sql)
    requires
        pieces_ok(model::deep(pieces@), len),
    ensures
        sql@ == assembly(model::deep(pieces@)),
        sql_ok(sql@, len),
{
    let ghost views = model::deep(pieces@);
    let mut sql = Sql { text: String::new(), map: Vec::new() };
    let mut k: usize = 0;
    proof {
        assert(sql@.text =~= Seq::empty());
        assert(sql@.map =~= Seq::empty());
    }
    while k < pieces.len()
        invariant
            k <= pieces@.len(),
            views == model::deep(pieces@),
            pieces_ok(views, len),
            sql@ == assembled(views, k as int),
        decreases pieces@.len() - k,
    {
        proof {
            lemma_assembled(views, k as int, len);
            assert(views[k as int] == pieces@[k as int]@);
            assert(piece_ok(views[k as int], len));
        }
        add_piece(&mut sql, &pieces[k], Ghost(len));
        k += 1;
    }
    proof {
        lemma_assembled(views, k as int, len);
    }
    sql
}

pub fn to_piece(sql: Sql) -> (piece: Piece)
    ensures
        piece@ == (PieceView::Normalized { text: sql@.text, map: sql@.map }),
{
    Piece::Normalized { text: sql.text, map: sql.map }
}

// ---- text put before and after ------------------------------------------

/// The last entry from `k` on before the first that lies beyond `strip`; `base`
/// where there is none.
pub open spec fn base_entry(
    map: Seq<(int, u32)>,
    strip: int,
    k: int,
    base: (int, u32),
) -> (int, u32)
    decreases map.len() - k,
{
    if k < map.len() && map[k].0 <= strip {
        base_entry(map, strip, k + 1, map[k])
    } else {
        base
    }
}

/// Where the byte at `strip` of the text stands in the source: extrapolated
/// from the entry before it where the source holds the same bytes there, and
/// that entry's own place otherwise.
pub open spec fn split_raw(source: Seq<u8>, sql: SqlView, wrapper: u32, strip: int) -> u32 {
    let first = if sql.map.len() > 0 {
        sql.map[0].1
    } else {
        wrapper
    };
    let (offset, raw) = base_entry(sql.map, strip, 0, (0, first));
    let candidate = raw + (strip - offset);
    if candidate <= source.len() && source.subrange(raw as int, candidate) == sql.text.subrange(
        offset,
        strip,
    ) {
        candidate as u32
    } else {
        raw
    }
}

/// The first `n` entries of `more` that lie beyond `strip`, moved to follow a
/// prefix of length `base`.
pub open spec fn moved(
    map: Seq<(int, u32)>,
    more: Seq<(int, u32)>,
    base: int,
    strip: int,
    n: int,
) -> Seq<(int, u32)>
    decreases n,
{
    if n <= 0 {
        map
    } else {
        let before = moved(map, more, base, strip, n - 1);
        if more[n - 1].0 > strip {
            push_entry(before, base + (more[n - 1].0 - strip), more[n - 1].1)
        } else {
            before
        }
    }
}

/// `sql` without its first `strip` bytes and with `prefix` in front. The prefix
/// has no source of its own and is mapped to the wrapper tag.
pub open spec fn prefixed(
    source: Seq<u8>,
    sql: SqlView,
    wrapper: u32,
    strip: int,
    prefix: Seq<u8>,
) -> SqlView {
    if prefix.len() == 0 && strip == 0 {
        sql
    } else {
        let text = prefix + sql.text.skip(strip);
        let start = push_entry(
            seq![(0int, wrapper)],
            prefix.len() as int,
            split_raw(source, sql, wrapper, strip),
        );
        let map = moved(start, sql.map, prefix.len() as int, strip, sql.map.len() as int);
        SqlView { text, map: placeholder::inner_entries(map, text.len() as int) }
    }
}

/// `sql` with `suffix` at its end, mapped to the wrapper tag.
pub open spec fn suffixed(sql: SqlView, wrapper: u32, suffix: Seq<u8>) -> SqlView {
    if suffix.len() == 0 {
        sql
    } else {
        SqlView {
            text: sql.text + suffix,
            map: push_entry(sql.map, sql.text.len() as int, wrapper),
        }
    }
}

/// `sql` without its last `strip` bytes.
pub open spec fn shortened(sql: SqlView, strip: int) -> SqlView {
    if strip <= 0 {
        sql
    } else {
        let keep = sql.text.len() - strip;
        SqlView {
            text: sql.text.take(keep),
            map: placeholder::inner_entries(sql.map, keep),
        }
    }
}

proof fn lemma_base_entry(
    map: Seq<(int, u32)>,
    strip: int,
    k: int,
    base: (int, u32),
    len: int,
)
    requires
        0 <= k <= map.len(),
        0 <= base.0 <= strip,
        base.1 <= len,
        placeholder::raws_in(map, len),
        forall|i: int| 0 <= i < map.len() ==> 0 <= (#[trigger] map[i]).0,
    ensures
        0 <= base_entry(map, strip, k, base).0 <= strip,
        base_entry(map, strip, k, base).1 <= len,
    decreases map.len() - k,
{
    if k < map.len() && map[k].0 <= strip {
        assert(map[k].1 <= len);
        lemma_base_entry(map, strip, k + 1, map[k], len);
    }
}

proof fn lemma_moved(
    map: Seq<(int, u32)>,
    more: Seq<(int, u32)>,
    base: int,
    strip: int,
    n: int,
    len: int,
)
    requires
        0 <= n <= more.len(),
        0 <= base,
        0 <= strip,
        placeholder::increasing(more),
        placeholder::raws_in(more, len),
        placeholder::map_of(map, base + 1),
        placeholder::raws_in(map, len),
    ensures
        placeholder::increasing(moved(map, more, base, strip, n)),
        placeholder::raws_in(moved(map, more, base, strip, n), len),
        forall|i: int|
            0 <= i < moved(map, more, base, strip, n).len() ==> 0 <= (#[trigger] moved(
                map,
                more,
                base,
                strip,
                n,
            )[i]).0,
        forall|i: int|
            0 <= i < moved(map, more, base, strip, n).len() ==> (#[trigger] moved(
                map,
                more,
                base,
                strip,
                n,
            )[i]).0 <= base || (n > 0 && moved(map, more, base, strip, n)[i].0 <= base + (
            more[n - 1].0 - strip)),
    decreases n,
{
    if n > 0 {
        lemma_moved(map, more, base, strip, n - 1, len);
        let before = moved(map, more, base, strip, n - 1);
        assert(more[n - 1].1 <= len);
        if n > 1 {
            assert(more[n - 2].0 < more[n - 1].0);
        }
        if more[n - 1].0 > strip {
            let at = base + (more[n - 1].0 - strip);
            assert forall|i: int| 0 <= i < before.len() implies (#[trigger] before[i]).0 < at by {}
            assert(moved(map, more, base, strip, n) == before.push((at, more[n - 1].1)));
        }
    }
}

/// Text put in front keeps the map in order.
pub proof fn lemma_prefixed(
    source: Seq<u8>,
    sql: SqlView,
    wrapper: u32,
    strip: int,
    prefix: Seq<u8>,
)
    requires
        attrs::fits(source),
        sql_ok(sql, source.len() as int),
        wrapper <= source.len(),
        text::is_cut(sql.text, strip),
        valid_utf8(prefix),
    ensures
        sql_ok(prefixed(source, sql, wrapper, strip, prefix), source.len() as int),
        split_raw(source, sql, wrapper, strip) <= source.len(),
{
    let len = source.len() as int;
    let first = if sql.map.len() > 0 {
        sql.map[0].1
    } else {
        wrapper
    };
    if sql.map.len() > 0 {
        assert(sql.map[0].1 <= len);
    }
    lemma_base_entry(sql.map, strip, 0, (0, first), len);
    let raw = split_raw(source, sql, wrapper, strip);
    assert(raw <= len);
    if prefix.len() == 0 && strip == 0 {
    } else {
        let base = prefix.len() as int;
        let start = push_entry(seq![(0int, wrapper)], base, raw);
        let map = moved(start, sql.map, base, strip, sql.map.len() as int);
        lemma_moved(start, sql.map, base, strip, sql.map.len() as int, len);
        let text = prefix + sql.text.skip(strip);
        placeholder::lemma_inner_entries(map, text.len() as int);
        lemma_kept_raws(map, text.len() as int, len);
        text::lemma_cut_is_boundary(sql.text, sql.text.len() as int);
        text::lemma_between_cuts(sql.text, strip, sql.text.len() as int);
        assert(sql.text.skip(strip) =~= sql.text.subrange(strip, sql.text.len() as int));
        valid_utf8_concat(prefix, sql.text.skip(strip));
    }
}

proof fn lemma_kept_raws(map: Seq<(int, u32)>, size: int, len: int)
    requires
        placeholder::raws_in(map, len),
    ensures
        placeholder::raws_in(placeholder::inner_entries(map, size), len),
    decreases map.len(),
{
    if map.len() > 0 {
        assert(map[map.len() - 1].1 <= len);
        assert(placeholder::raws_in(map.drop_last(), len));
        lemma_kept_raws(map.drop_last(), size, len);
    }
}

/// Text put at the end keeps the map in order.
pub proof fn lemma_suffixed(sql: SqlView, wrapper: u32, suffix: Seq<u8>, len: int)
    requires
        sql_ok(sql, len),
        wrapper <= len,
        valid_utf8(suffix),
    ensures
        sql_ok(suffixed(sql, wrapper, suffix), len),
{
    if suffix.len() > 0 {
        lemma_push_at_end(
            sql.map,
            sql.text.len() as int,
            wrapper,
            (sql.text + suffix).len() as int,
            len,
        );
        valid_utf8_concat(sql.text, suffix);
    }
}

/// Text taken from the end keeps the map in order.
pub proof fn lemma_shortened(sql: SqlView, strip: int, len: int)
    requires
        sql_ok(sql, len),
        0 <= strip <= sql.text.len(),
        text::is_cut(sql.text, sql.text.len() - strip),
    ensures
        sql_ok(shortened(sql, strip), len),
{
    if strip > 0 {
        let keep = sql.text.len() - strip;
        placeholder::lemma_inner_entries(sql.map, keep);
        lemma_kept_raws(sql.map, keep, len);
        text::lemma_cut_is_boundary(sql.text, 0);
        text::lemma_between_cuts(sql.text, 0, keep);
        assert(sql.text.take(keep) =~= sql.text.subrange(0, keep));
    }
}

/// Finds where the byte at `strip` of the text stands in the source.
fn split_point(source: &str, sql: &Sql, wrapper: u32, strip: usize) -> (raw: u32)
    requires
        attrs::fits(source.spec_bytes()),
        sql_ok(sql@, source.spec_bytes().len() as int),
        wrapper <= source.spec_bytes().len(),
        strip <= sql@.text.len(),
    ensures
        raw == split_raw(source.spec_bytes(), sql@, wrapper, strip as int),
{
    let source_bytes = source.as_bytes();
    let text_bytes = sql.text.as_str().as_bytes();
    let ghost map = sql@.map;
    let ghost len = source_bytes@.len() as int;
    let mut offset: usize = 0;
    let mut raw: u32 = if sql.map.len() > 0 {
        sql.map[0].1
    } else {
        wrapper
    };
    let ghost first = (0int, raw);
    proof {
        if map.len() > 0 {
            assert(map[0] == (sql.map@[0].0 as int, sql.map@[0].1));
            assert(map[0].1 <= len);
        }
        lemma_base_entry(map, strip as int, 0, first, len);
    }
    let mut k: usize = 0;
    while k < sql.map.len() && sql.map[k].0 <= strip
        invariant
            map == placeholder::entries(sql.map@),
            k <= sql.map@.len(),
            base_entry(map, strip as int, k as int, (offset as int, raw)) == base_entry(
                map,
                strip as int,
                0,
                first,
            ),
        decreases sql.map@.len() - k,
    {
        assert(map[k as int] == (sql.map@[k as int].0 as int, sql.map@[k as int].1));
        offset = sql.map[k].0;
        raw = sql.map[k].1;
        k += 1;
    }
    proof {
        if k < map.len() {
            assert(map[k as int] == (sql.map@[k as int].0 as int, sql.map@[k as int].1));
        }
    }
    let delta: usize = strip - offset;
    if delta > source_bytes.len() - raw as usize {
        return raw;
    }
    let candidate: usize = raw as usize + delta;
    let same = text::bytes_eq(
        vstd::slice::slice_subrange(source_bytes, raw as usize, candidate),
        vstd::slice::slice_subrange(text_bytes, offset, strip),
    );
    if same {
        candidate as u32
    } else {
        raw
    }
}

/// Strips `strip` leading bytes and puts `prefix` in front.
pub fn with_prefix(source: &str, sql: Sql, wrapper: u32, strip: usize, prefix: &str) -> (r: Sql)
    requires
        attrs::fits(source.spec_bytes()),
        sql_ok(sql@, source.spec_bytes().len() as int),
        wrapper <= source.spec_bytes().len(),
        text::is_cut(sql@.text, strip as int),
    ensures
        r@ == prefixed(source.spec_bytes(), sql@, wrapper, strip as int, prefix.spec_bytes()),
        sql_ok(r@, source.spec_bytes().len() as int),
{
    let ghost bytes = source.spec_bytes();
    proof {
        encode_utf8_valid_utf8(prefix@);
        encode_utf8_valid_utf8(sql.text@);
        lemma_prefixed(bytes, sql@, wrapper, strip as int, prefix.spec_bytes());
        text::lemma_cut_is_boundary(sql@.text, sql@.text.len() as int);
    }
    let base: usize = prefix.as_bytes().len();
    if base == 0 && strip == 0 {
        return sql;
    }
    let raw = split_point(source, &sql, wrapper, strip);
    let mut map: Vec<(usize, u32)> = Vec::new();
    map.push((0, wrapper));
    assert(placeholder::entries(map@) =~= seq![(0int, wrapper)]);
    push_span_entry(&mut map, base, raw);
    let ghost start = placeholder::entries(map@);
    let size: usize = byte_len(&sql.text);
    let mut text = prefix.to_owned();
    push(&mut text, slice(sql.text.as_str(), strip, size));
    let total: usize = byte_len(&text);
    assert(encode_utf8(text@) =~= prefix.spec_bytes() + sql@.text.skip(strip as int));
    let mut k: usize = 0;
    while k < sql.map.len()
        invariant
            k <= sql.map@.len(),
            placeholder::map_of(sql@.map, sql@.text.len() as int),
            size == sql@.text.len(),
            total == base + (size - strip),
            strip <= size,
            placeholder::entries(map@) == moved(
                start,
                sql@.map,
                base as int,
                strip as int,
                k as int,
            ),
        decreases sql.map@.len() - k,
    {
        let entry = sql.map[k];
        assert(sql@.map[k as int] == (entry.0 as int, entry.1));
        if entry.0 > strip {
            push_span_entry(&mut map, base + (entry.0 - strip), entry.1);
        }
        k += 1;
    }
    let kept = placeholder::drop_phantoms(&map, total);
    Sql { text, map: kept }
}

/// Puts `suffix` at the end.
pub fn with_suffix(sql: Sql, wrapper: u32, suffix: &str, Ghost(len): Ghost<int>) -> (r: Sql)
    requires
        sql_ok(sql@, len),
        wrapper <= len,
    ensures
        r@ == suffixed(sql@, wrapper, suffix.spec_bytes()),
        sql_ok(r@, len),
{
    proof {
        encode_utf8_valid_utf8(suffix@);
        lemma_suffixed(sql@, wrapper, suffix.spec_bytes(), len);
    }
    if suffix.as_bytes().len() == 0 {
        return sql;
    }
    let mut text = sql.text;
    let mut map = sql.map;
    let at: usize = byte_len(&text);
    push_span_entry(&mut map, at, wrapper);
    push(&mut text, suffix);
    Sql { text, map }
}

/// Strips `strip` trailing bytes.
pub fn with_suffix_strip(sql: Sql, strip: usize, Ghost(len): Ghost<int>) -> (r: Sql)
    requires
        sql_ok(sql@, len),
        strip <= sql@.text.len(),
        text::is_cut(sql@.text, sql@.text.len() - strip),
    ensures
        r@ == shortened(sql@, strip as int),
        sql_ok(r@, len),
{
    proof {
        lemma_shortened(sql@, strip as int, len);
        text::lemma_cut_is_boundary(sql@.text, 0);
    }
    if strip == 0 {
        return sql;
    }
    let keep: usize = byte_len(&sql.text) - strip;
    let text = slice(sql.text.as_str(), 0, keep).to_owned();
    let map = placeholder::drop_phantoms(&sql.map, keep);
    assert(sql@.text.subrange(0, keep as int) =~= sql@.text.take(keep as int));
    proof {
        encode_utf8_decode_utf8(text@);
    }
    Sql { text, map }
}

} // verus!
