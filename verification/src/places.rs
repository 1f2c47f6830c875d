//! Where the parts of a normal form stand in the source, said of a text that is
//! its own source bytes.
use crate::model::{ByteSpan, Dialect};
use crate::paths;
use crate::paths::{balanced, no_delimiter, whole};
use crate::placeholder;
use crate::placeholder::{Mark, Norm, RunView};
use crate::sql;
use crate::sql::{PieceView, SqlView};
use vstd::prelude::*;
use vstd::string::*;
use vstd::utf8::*;

verus! {

/// A text that stands in the source as it is, from `start` on.
pub open spec fn verbatim(bytes: Seq<u8>, start: int) -> Seq<RunView> {
    seq![
        RunView {
            decoded: bytes,
            span: ByteSpan { start: start as u32, end: (start + bytes.len()) as u32 },
        },
    ]
}

/// A map of a text that is moved by `by`.
pub open spec fn moved_by(map: Seq<(int, u32)>, by: int) -> Seq<(int, u32)> {
    Seq::new(map.len(), |k: int| (map[k].0 + by, map[k].1))
}

pub open spec fn in_range(bytes: Seq<u8>, start: int) -> bool {
    0 <= start && start + bytes.len() <= u32::MAX
}

proof fn lemma_verbatim(bytes: Seq<u8>, start: int)
    requires
        in_range(bytes, start),
    ensures
        whole(verbatim(bytes, start)) == bytes,
        forall|x: int|
            0 <= x <= bytes.len() ==> #[trigger] placeholder::raw_at(verbatim(bytes, start), x)
                == start + x,
        placeholder::raw_in(verbatim(bytes, start), 0, 0) == start,
        forall|pos: int, to: int, base: int|
            0 <= pos ==> (#[trigger] placeholder::junctions(
                verbatim(bytes, start),
                0,
                pos,
                to,
                base,
            )).len() == 0,
{
    let runs = verbatim(bytes, start);
    reveal_with_fuel(placeholder::merged_text, 2);
    assert(whole(runs) =~= bytes);
    assert(placeholder::run_start(runs, 0) == 0);
    assert forall|pos: int, to: int, base: int| 0 <= pos implies (#[trigger] placeholder::junctions(
        runs,
        0,
        pos,
        to,
        base,
    )).len() == 0 by {
        reveal_with_fuel(placeholder::junctions, 2);
    }
}

spec fn rest_map(bytes: Seq<u8>, start: int, dialect: Dialect, i: int) -> Seq<(int, u32)> {
    placeholder::scan_from(
        verbatim(bytes, start),
        bytes,
        dialect,
        i,
        i,
        paths::nothing_yet(),
    ).map
}

proof fn lemma_copied(bytes: Seq<u8>, start: int, st: Norm, from: int, to: int)
    requires
        in_range(bytes, start),
        0 <= from <= to <= bytes.len(),
    ensures
        placeholder::copied(verbatim(bytes, start), bytes, st, from, to).map == st.map,
        placeholder::copied(verbatim(bytes, start), bytes, st, from, to).text.len()
            == st.text.len() + (to - from),
{
    lemma_verbatim(bytes, start);
    if from < to {
        let more = placeholder::junctions(
            verbatim(bytes, start),
            0,
            from,
            to,
            st.text.len() - from,
        );
        assert(st.map + more =~= st.map);
    }
}

#[verifier::rlimit(40)]
proof fn lemma_map(
    bytes: Seq<u8>,
    start: int,
    dialect: Dialect,
    off: int,
    copy: int,
    i: int,
    st: Norm,
)
    requires
        in_range(bytes, start),
        0 <= off <= i <= bytes.len(),
        0 <= copy <= i,
    ensures
        placeholder::scan_from(verbatim(bytes, start), bytes, dialect, copy, i, st).map == st.map
            + moved_by(
            rest_map(bytes.skip(off), start + off, dialect, i - off),
            st.text.len() + (i - copy),
        ),
    decreases bytes.len() - i, 0int,
{
    let runs = verbatim(bytes, start);
    let part = bytes.skip(off);
    let other = verbatim(part, start + off);
    let len = bytes.len() as int;
    let j = i - off;
    let none = paths::nothing_yet();
    lemma_verbatim(bytes, start);
    lemma_verbatim(part, start + off);
    if i < len {
        paths::lemma_mark_moved(bytes, dialect, off, j);
        match placeholder::mark_at(part, dialect, j) {
            Mark::Plain => {
                lemma_map(bytes, start, dialect, off, copy, i + 1, st);
                lemma_map_part(bytes, start, dialect, off, j, i + 1, none);
                let m = rest_map(part, start + off, dialect, j + 1);
                assert(none.map + moved_by(m, 1) =~= moved_by(m, 1));
                assert(moved_by(moved_by(m, 1), st.text.len() + (i - copy)) =~= moved_by(
                    m,
                    st.text.len() + (i + 1 - copy),
                ));
            },
            Mark::Unclosed => {
                lemma_copied(bytes, start, st, copy, len);
                lemma_copied(part, start + off, none, j, part.len() as int);
                assert(st.map + moved_by(none.map, st.text.len() + (i - copy)) =~= st.map);
            },
            Mark::Doubled => {
                let before = placeholder::copied(runs, bytes, st, copy, i);
                lemma_copied(bytes, start, st, copy, i);
                lemma_copied(part, start + off, none, j, j);
                let mark = bytes.subrange(i, i + 1);
                assert(part.subrange(j, j + 1) =~= mark);
                let next = placeholder::replaced(runs, before, Seq::empty(), mark, i + 2);
                let own = placeholder::replaced(
                    other,
                    placeholder::copied(other, part, none, j, j),
                    Seq::empty(),
                    mark,
                    j + 2,
                );
                lemma_map(bytes, start, dialect, off, i + 2, i + 2, next);
                lemma_map_part(bytes, start, dialect, off, j + 2, i + 2, own);
                lemma_joined_maps(
                    st.map,
                    rest_map(part, start + off, dialect, j + 2),
                    st.text.len() + (i - copy),
                    1,
                    (start + i + 2) as u32,
                );
            },
            Mark::Hole { from, to, end, dynamic, separator } => {
                let before = placeholder::copied(runs, bytes, st, copy, i);
                lemma_copied(bytes, start, st, copy, i);
                lemma_copied(part, start + off, none, j, j);
                let marker = placeholder::hole_marker(dynamic);
                let here = placeholder::path_entry(
                    runs,
                    bytes,
                    placeholder::path_range(bytes, off + from, off + to, separator),
                );
                let there = placeholder::path_entry(
                    other,
                    part,
                    placeholder::path_range(part, from, to, separator),
                );
                let next = placeholder::replaced(runs, before, here, marker, off + end);
                let own = placeholder::replaced(
                    other,
                    placeholder::copied(other, part, none, j, j),
                    there,
                    marker,
                    end,
                );
                lemma_map(bytes, start, dialect, off, off + end, off + end, next);
                lemma_map_part(bytes, start, dialect, off, end, off + end, own);
                lemma_joined_maps(
                    st.map,
                    rest_map(part, start + off, dialect, end),
                    st.text.len() + (i - copy),
                    marker.len() as int,
                    (start + off + end) as u32,
                );
            },
        }
    } else {
        lemma_copied(bytes, start, st, copy, len);
        lemma_copied(part, start + off, none, j, part.len() as int);
        assert(st.map + moved_by(none.map, st.text.len() + (i - copy)) =~= st.map);
    }
}

/// An entry behind a marker of length `size`, then the rest, put together in
/// either order.
proof fn lemma_joined_maps(
    map: Seq<(int, u32)>,
    rest: Seq<(int, u32)>,
    by: int,
    size: int,
    raw: u32,
)
    ensures
        map.push((by + size, raw)) + moved_by(rest, by + size) == map + moved_by(
            Seq::<(int, u32)>::empty().push((size, raw)) + moved_by(rest, size),
            by,
        ),
{
    assert(map.push((by + size, raw)) + moved_by(rest, by + size) =~= map + moved_by(
        Seq::<(int, u32)>::empty().push((size, raw)) + moved_by(rest, size),
        by,
    ));
}

proof fn lemma_map_part(
    bytes: Seq<u8>,
    start: int,
    dialect: Dialect,
    off: int,
    copy: int,
    i: int,
    st: Norm,
)
    requires
        in_range(bytes, start),
        0 <= off <= i <= bytes.len(),
        0 <= copy <= i - off,
    ensures
        placeholder::scan_from(
            verbatim(bytes.skip(off), start + off),
            bytes.skip(off),
            dialect,
            copy,
            i - off,
            st,
        ).map == st.map + moved_by(
            rest_map(bytes.skip(off), start + off, dialect, i - off),
            st.text.len() + (i - off - copy),
        ),
    decreases bytes.len() - i, 1int,
{
    let part = bytes.skip(off);
    assert(part.skip(0) =~= part);
    lemma_map(part, start + off, dialect, 0, copy, i - off, st);
}

proof fn lemma_inner_moved(map: Seq<(int, u32)>, len: int, by: int)
    ensures
        placeholder::inner_entries(moved_by(map, by), len + by) == moved_by(
            placeholder::inner_entries(map, len),
            by,
        ),
    decreases map.len(),
{
    if map.len() > 0 {
        lemma_inner_moved(map.drop_last(), len, by);
        assert(moved_by(map, by).drop_last() =~= moved_by(map.drop_last(), by));
        let rest = placeholder::inner_entries(map.drop_last(), len);
        assert(moved_by(rest.push(map.last()), by) =~= moved_by(rest, by).push(
            (map.last().0 + by, map.last().1),
        ));
    } else {
        assert(moved_by(map, by) =~= map);
    }
}

proof fn lemma_inner_first(first: (int, u32), map: Seq<(int, u32)>, len: int)
    requires
        first.0 < len,
    ensures
        placeholder::inner_entries(seq![first] + map, len) == seq![first]
            + placeholder::inner_entries(map, len),
    decreases map.len(),
{
    let all = seq![first] + map;
    if map.len() > 0 {
        lemma_inner_first(first, map.drop_last(), len);
        assert(all.drop_last() =~= seq![first] + map.drop_last());
        assert(all.last() == map.last());
        let rest = placeholder::inner_entries(map.drop_last(), len);
        assert(seq![first] + rest.push(map.last()) =~= (seq![first] + rest).push(map.last()));
    } else {
        assert(all =~= seq![first]);
        reveal_with_fuel(placeholder::inner_entries, 2);
        assert(all.drop_last() =~= Seq::empty());
        assert(placeholder::inner_entries(map, len) =~= Seq::empty());
        assert(placeholder::inner_entries(all, len) =~= seq![first]);
    }
}

/// A text without a placeholder stands where its first byte stands.
pub proof fn law_place_of_plain_text(bytes: Seq<u8>, start: int, dialect: Dialect)
    requires
        in_range(bytes, start),
        no_delimiter(bytes),
        bytes.len() > 0,
    ensures
        placeholder::normalized(verbatim(bytes, start), dialect).map == seq![
            (0int, start as u32),
        ],
{
    let runs = verbatim(bytes, start);
    let len = bytes.len() as int;
    lemma_verbatim(bytes, start);
    let st = Norm {
        text: Seq::empty(),
        map: seq![(0int, placeholder::raw_in(runs, 0, 0))],
        paths: Seq::empty(),
        diagnostics: Seq::empty(),
    };
    paths::lemma_plain_until(runs, bytes, dialect, 0, 0, len, st);
    lemma_copied(bytes, start, st, 0, len);
    lemma_inner_first((0int, start as u32), Seq::empty(), len);
    assert(seq![(0int, start as u32)] + Seq::<(int, u32)>::empty() =~= seq![(0int, start as u32)]);
    reveal_with_fuel(placeholder::inner_entries, 1);
    assert(seq![(0int, start as u32)] + placeholder::inner_entries(Seq::empty(), len) =~= seq![
        (0int, start as u32),
    ]);
}

/// What stands before a `#{}` or `${}` starts where the text starts, and what
/// stands behind it has the places that it has alone, behind the placeholder in
/// the source and behind its mark in the text.
pub proof fn law_places_around_a_placeholder(
    bytes: Seq<u8>,
    start: int,
    dialect: Dialect,
    before: Seq<u8>,
    dynamic: bool,
    content: Seq<u8>,
    after: Seq<u8>,
)
    requires
        in_range(bytes, start),
        bytes == before + seq![
            if dynamic {
                0x24u8
            } else {
                0x23
            },
            0x7B,
        ] + content + seq![0x7Du8] + after,
        no_delimiter(before),
        balanced(content),
    ensures
        placeholder::normalized(verbatim(bytes, start), dialect).map == seq![
            (0int, start as u32),
        ] + moved_by(
            placeholder::normalized(
                verbatim(after, start + before.len() + content.len() + 3),
                dialect,
            ).map,
            before.len() as int + encode_utf8(
                if dynamic {
                    "__BATIS_DYN__"@
                } else {
                    "?"@
                },
            ).len(),
        ),
{
    let runs = verbatim(bytes, start);
    let i = before.len() as int;
    let from = i + 2;
    let to = from + content.len();
    let end = to + 1;
    let marker = placeholder::hole_marker(dynamic);
    let k = i + marker.len();
    lemma_verbatim(bytes, start);
    lemma_marker(dynamic);
    let st = Norm {
        text: Seq::empty(),
        map: seq![(0int, placeholder::raw_in(runs, 0, 0))],
        paths: Seq::empty(),
        diagnostics: Seq::empty(),
    };
    assert forall|x: int| 0 <= x < i implies #[trigger] bytes[x] != 0x23 && bytes[x] != 0x24 by {
        assert(bytes[x] == before[x]);
    }
    assert(bytes[i] == (if dynamic {
        0x24u8
    } else {
        0x23
    }));
    assert(bytes[i + 1] == 0x7B);
    assert forall|x: int| 0 <= x < content.len() implies bytes[from + x]
        == #[trigger] content[x] by {}
    assert(bytes[to] == 0x7D);
    paths::lemma_close(bytes, from, content, 0);
    paths::lemma_plain_until(runs, bytes, dialect, 0, 0, i, st);
    lemma_copied(bytes, start, st, 0, i);
    let copied = placeholder::copied(runs, bytes, st, 0, i);
    let entry = placeholder::path_entry(
        runs,
        bytes,
        placeholder::path_range(bytes, from, to, placeholder::COMMA),
    );
    let next = placeholder::replaced(runs, copied, entry, marker, end);
    lemma_map(bytes, start, dialect, end, end, end, next);
    assert(bytes.skip(end) =~= after);
    let more = rest_map(after, start + end, dialect, 0);
    let raw = (start + end) as u32;
    let first = (0int, start as u32);
    let all = placeholder::scan_from(runs, bytes, dialect, 0, 0, st);
    assert(all.map =~= seq![first] + moved_by(seq![(0int, raw)] + more, k));
    // the rest alone
    let rest = verbatim(after, start + end);
    lemma_verbatim(after, start + end);
    let rest_st = Norm {
        text: Seq::empty(),
        map: seq![(0int, placeholder::raw_in(rest, 0, 0))],
        paths: Seq::empty(),
        diagnostics: Seq::empty(),
    };
    lemma_map(after, start + end, dialect, 0, 0, 0, rest_st);
    assert(after.skip(0) =~= after);
    assert(moved_by(more, 0) =~= more);
    let alone = placeholder::scan_from(rest, after, dialect, 0, 0, rest_st);
    assert(alone.map =~= seq![(0int, raw)] + more);
    // lengths
    paths::lemma_rest(runs, rest, bytes, dialect, end, end, next);
    assert(bytes.subrange(end, end).len() == 0);
    assert(all.text.len() == k + alone.text.len());
    lemma_inner_moved(alone.map, alone.text.len() as int, k);
    lemma_inner_first(first, moved_by(alone.map, k), all.text.len() as int);
}

proof fn lemma_marker(dynamic: bool)
    ensures
        placeholder::hole_marker(dynamic).len() > 0,
        placeholder::hole_marker(dynamic) == encode_utf8(
            if dynamic {
                "__BATIS_DYN__"@
            } else {
                "?"@
            },
        ),
{
    reveal_strlit("__BATIS_DYN__");
    reveal_strlit("?");
    is_ascii_chars_encode_utf8("__BATIS_DYN__"@);
    is_ascii_chars_encode_utf8("?"@);
}

// ---- pieces -------------------------------------------------------------

proof fn lemma_appended_map(map: Seq<(int, u32)>, more: Seq<(int, u32)>, base: int, n: int)
    requires
        placeholder::map_of(map, base),
        placeholder::increasing(more),
        forall|i: int| 0 <= i < more.len() ==> 0 <= (#[trigger] more[i]).0,
        0 <= n <= more.len(),
    ensures
        sql::appended(map, more, base, n) == map + moved_by(more.take(n), base),
    decreases n,
{
    if n > 0 {
        lemma_appended_map(map, more, base, n - 1);
        let before = sql::appended(map, more, base, n - 1);
        if before.len() > 0 {
            if n == 1 {
                assert(before.last() == map[map.len() - 1]);
            } else {
                assert(before.last() == (more[n - 2].0 + base, more[n - 2].1));
                assert(more[n - 2].0 < more[n - 1].0);
            }
        }
        assert(sql::appended(map, more, base, n) =~= map + moved_by(more.take(n), base));
    } else {
        assert(map + moved_by(more.take(0), base) =~= map);
    }
}

/// A piece keeps its places when it is added to a text: they move by what stands
/// before it. What stands for an `<include>` or is put in front by a `prepend`
/// is mapped to its tag.
pub proof fn law_place_of_a_piece(pieces: Seq<PieceView>, piece: PieceView, len: int)
    requires
        sql::pieces_ok(pieces, len),
        sql::piece_ok(piece, len),
    ensures
        ({
            let before = sql::assembly(pieces);
            let at = before.text.len() as int;
            sql::assembly(pieces.push(piece)).map == before.map + match piece {
                PieceView::Normalized { text, map } => moved_by(map, at),
                PieceView::Include { raw, span } => seq![(at, span.start)],
                PieceView::Prepend { value, span } => seq![(at, span.start)],
            }
        }),
{
    let all = pieces.push(piece);
    let n = pieces.len() as int;
    lemma_same_pieces(pieces, all, n);
    sql::lemma_assembled(pieces, n, len);
    let before = sql::assembly(pieces);
    if before.map.len() > 0 {
        assert(before.map[before.map.len() - 1].0 < before.text.len());
    }
    match piece {
        PieceView::Normalized { text, map } => {
            lemma_appended_map(before.map, map, before.text.len() as int, map.len() as int);
            assert(map.take(map.len() as int) =~= map);
        },
        PieceView::Include { raw, span } => {
            assert(sql::assembly(all).map =~= before.map + seq![
                (before.text.len() as int, span.start),
            ]);
        },
        PieceView::Prepend { value, span } => {
            assert(sql::assembly(all).map =~= before.map + seq![
                (before.text.len() as int, span.start),
            ]);
        },
    }
}

proof fn lemma_same_pieces(a: Seq<PieceView>, b: Seq<PieceView>, n: int)
    requires
        0 <= n <= a.len(),
        n <= b.len(),
        forall|i: int| 0 <= i < n ==> #[trigger] a[i] == b[i],
    ensures
        sql::assembled(a, n) == sql::assembled(b, n),
    decreases n,
{
    if n > 0 {
        assert(a[n - 1] == b[n - 1]);
        lemma_same_pieces(a, b, n - 1);
    }
}

// ---- prefixes and suffixes ----------------------------------------------

proof fn lemma_kept(map: Seq<(int, u32)>, len: int, entry: (int, u32))
    ensures
        placeholder::inner_entries(map, len).contains(entry) <==> map.contains(entry) && entry.0
            < len,
    decreases map.len(),
{
    if map.len() > 0 {
        let before = map.drop_last();
        let kept = placeholder::inner_entries(before, len);
        lemma_kept(before, len, entry);
        if map.last().0 < len {
            lemma_pushed(kept, map.last(), entry);
        }
        assert(map =~= before.push(map.last()));
        lemma_pushed(before, map.last(), entry);
    }
}

proof fn lemma_pushed(list: Seq<(int, u32)>, item: (int, u32), entry: (int, u32))
    ensures
        list.push(item).contains(entry) <==> list.contains(entry) || item == entry,
{
    let all = list.push(item);
    if list.contains(entry) {
        let k = choose|k: int| 0 <= k < list.len() && list[k] == entry;
        assert(all[k] == entry);
    }
    if item == entry {
        assert(all[list.len() as int] == entry);
    }
    if all.contains(entry) {
        let k = choose|k: int| 0 <= k < all.len() && all[k] == entry;
        if k < list.len() {
            assert(list[k] == entry);
        }
    }
}

proof fn lemma_moved_behind(
    map: Seq<(int, u32)>,
    more: Seq<(int, u32)>,
    base: int,
    strip: int,
    n: int,
)
    requires
        placeholder::increasing(more),
        forall|i: int| 0 <= i < map.len() ==> (#[trigger] map[i]).0 <= base,
        0 <= n <= more.len(),
    ensures
        ({
            let r = sql::moved(map, more, base, strip, n);
            &&& forall|e: (int, u32)| #[trigger] map.contains(e) ==> r.contains(e)
            &&& forall|k: int|
                0 <= k < n && (#[trigger] more[k]).0 > strip ==> r.contains(
                    (base + (more[k].0 - strip), more[k].1),
                )
            &&& forall|i: int|
                0 <= i < r.len() ==> (#[trigger] r[i]).0 <= base || n > 0 && r[i].0 <= base + (
                more[n - 1].0 - strip)
        }),
    decreases n,
{
    if n > 0 {
        lemma_moved_behind(map, more, base, strip, n - 1);
        let before = sql::moved(map, more, base, strip, n - 1);
        let r = sql::moved(map, more, base, strip, n);
        if n > 1 {
            assert(more[n - 2].0 < more[n - 1].0);
        }
        if more[n - 1].0 > strip {
            let item = (base + (more[n - 1].0 - strip), more[n - 1].1);
            if before.len() > 0 {
                assert(before[before.len() - 1].0 < item.0);
            }
            assert(r == before.push(item));
            assert forall|e: (int, u32)| before.contains(e) implies #[trigger] r.contains(e) by {
                lemma_pushed(before, item, e);
            }
            lemma_pushed(before, item, item);
        }
    }
}

proof fn lemma_base(map: Seq<(int, u32)>, strip: int, from: int, k: int, base: (int, u32))
    requires
        placeholder::increasing(map),
        0 <= from <= k < map.len(),
        map[k].0 <= strip,
        k + 1 < map.len() ==> map[k + 1].0 > strip,
    ensures
        sql::base_entry(map, strip, from, base) == map[k],
    decreases k - from,
{
    if from < k {
        assert(map[from].0 < map[k].0);
        lemma_base(map, strip, from + 1, k, map[from]);
    } else {
        assert(sql::base_entry(map, strip, k + 1, map[k]) == map[k]);
    }
}

/// Where text is taken off the front and a prefix put there, the prefix is
/// mapped to the tag and what follows keeps its places. The first byte that is
/// kept stands as far behind the entry before it as in the source, where the
/// source holds the same bytes, and at that entry's place otherwise.
pub proof fn law_places_behind_a_prefix(
    source: Seq<u8>,
    text: SqlView,
    tag: u32,
    strip: int,
    prefix: Seq<u8>,
    k: int,
)
    requires
        sql::sql_ok(text, source.len() as int),
        source.len() <= u32::MAX,
        0 <= strip < text.text.len(),
        prefix.len() > 0 || strip > 0,
        0 <= k < text.map.len(),
    ensures
        ({
            let r = sql::prefixed(source, text, tag, strip, prefix);
            let (offset, raw) = text.map[k];
            let far = raw + (strip - offset);
            &&& prefix.len() > 0 ==> r.map.contains((0int, tag))
            &&& offset > strip ==> r.map.contains((prefix.len() + (offset - strip), raw))
            &&& offset <= strip && (k + 1 < text.map.len() ==> text.map[k + 1].0 > strip) ==> {
                &&& far <= source.len() && source.subrange(raw as int, far)
                    == text.text.subrange(offset, strip) ==> r.map.contains(
                    (prefix.len() as int, far as u32),
                )
                &&& far > source.len() || source.subrange(raw as int, far)
                    != text.text.subrange(offset, strip) ==> r.map.contains(
                    (prefix.len() as int, raw),
                )
            }
        }),
{
    let size = prefix.len() as int;
    let raw = sql::split_raw(source, text, tag, strip);
    let start = sql::push_entry(seq![(0int, tag)], size, raw);
    let map = sql::moved(start, text.map, size, strip, text.map.len() as int);
    let total = (prefix + text.text.skip(strip)).len() as int;
    let (offset, place) = text.map[k];
    lemma_moved_behind(start, text.map, size, strip, text.map.len() as int);
    if size > 0 {
        assert(start[0] == (0int, tag));
        assert(start[1] == (size, raw));
        assert(start.contains((0int, tag)));
    } else {
        assert(start[0] == (size, raw));
    }
    assert(start.contains((size, raw)));
    lemma_kept(map, total, (0int, tag));
    lemma_kept(map, total, (size, raw));
    lemma_kept(map, total, (size + (offset - strip), place));
    if offset <= strip && (k + 1 < text.map.len() ==> text.map[k + 1].0 > strip) {
        lemma_base(text.map, strip, 0, k, (0int, text.map[0].1));
    }
}

/// A suffix is mapped to the tag, and all before it keeps its places.
pub proof fn law_place_of_a_suffix(text: SqlView, tag: u32, suffix: Seq<u8>, len: int)
    requires
        sql::sql_ok(text, len),
        suffix.len() > 0,
    ensures
        sql::suffixed(text, tag, suffix).map == text.map.push((text.text.len() as int, tag)),
{
    if text.map.len() > 0 {
        assert(text.map[text.map.len() - 1].0 < text.text.len());
    }
}

/// Where text is taken off the end, just the places of what is kept stay.
pub proof fn law_places_of_what_is_kept(text: SqlView, strip: int, entry: (int, u32))
    requires
        0 < strip <= text.text.len(),
    ensures
        sql::shortened(text, strip).map.contains(entry) <==> text.map.contains(entry) && entry.0
            < text.text.len() - strip,
{
    lemma_kept(text.map, text.text.len() - strip, entry);
}

} // verus!
