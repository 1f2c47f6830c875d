//! How long a flattened text can get.
//!
//! What a text, a reference or a tag adds to a flattened text is bounded by its
//! length in the source: a text or a reference by a small multiple, and a tag,
//! besides what its body adds, by its own length once. Tags nest as deep as the
//! depth cap allows, so the whole is shorter than what an offset can count.
use crate::attrs;
use crate::attrs::AttrView;
use crate::body;
use crate::body::SegmentView;
use crate::flatten;
use crate::flatten::{FrameView, PendingView};
use crate::model::{ByteSpan, Dialect};
use crate::placeholder;
use crate::placeholder::{Mark, Norm, RunView};
use crate::sql;
use crate::sql::PieceView;
use crate::tags;
use crate::tags::{ActionView, CtxView, Room};
use crate::text;
use crate::union_walk;
use crate::union_walk::UnionFrameView;
use crate::wrapper;
use crate::wrapper::{AltView, KindView};
use vstd::prelude::*;
use vstd::string::*;
use vstd::utf8::*;

verus! {

// ---- pieces -------------------------------------------------------------

pub open spec fn piece_len(piece: PieceView) -> int {
    match piece {
        PieceView::Normalized { text, .. } => text.len() as int,
        PieceView::Include { raw, .. } => sql::include_token(raw).len() as int,
        PieceView::Prepend { value, .. } => encode_utf8(value).len() + 1int,
    }
}

/// How long the first `n` pieces are together.
pub open spec fn total(pieces: Seq<PieceView>, n: int) -> int
    decreases n,
{
    if n <= 0 {
        0
    } else {
        total(pieces, n - 1) + piece_len(pieces[n - 1])
    }
}

pub open spec fn total_len(pieces: Seq<PieceView>) -> int {
    total(pieces, pieces.len() as int)
}

proof fn lemma_space()
    ensures
        encode_utf8(" "@).len() == 1,
{
    reveal_strlit(" ");
    is_ascii_chars_encode_utf8(" "@);
}

proof fn lemma_assembled(pieces: Seq<PieceView>, n: int)
    requires
        0 <= n <= pieces.len(),
    ensures
        sql::assembled(pieces, n).text.len() == total(pieces, n),
    decreases n,
{
    lemma_space();
    if n > 0 {
        lemma_assembled(pieces, n - 1);
    }
}

/// Pieces are as long together as their text.
pub proof fn lemma_assembly(pieces: Seq<PieceView>)
    ensures
        sql::assembly(pieces).text.len() == total_len(pieces),
{
    lemma_assembled(pieces, pieces.len() as int);
}

proof fn lemma_total_prefix(a: Seq<PieceView>, b: Seq<PieceView>, n: int)
    requires
        0 <= n <= a.len(),
        n <= b.len(),
        forall|i: int| 0 <= i < n ==> a[i] == b[i],
    ensures
        total(a, n) == total(b, n),
    decreases n,
{
    if n > 0 {
        lemma_total_prefix(a, b, n - 1);
    }
}

proof fn lemma_total_concat(a: Seq<PieceView>, b: Seq<PieceView>, n: int)
    requires
        0 <= n <= b.len(),
    ensures
        total(a + b, a.len() + n) == total_len(a) + total(b, n),
    decreases n,
{
    if n > 0 {
        lemma_total_concat(a, b, n - 1);
    } else {
        lemma_total_prefix(a, a + b, a.len() as int);
    }
}

pub proof fn lemma_concat(a: Seq<PieceView>, b: Seq<PieceView>)
    ensures
        total_len(a + b) == total_len(a) + total_len(b),
{
    lemma_total_concat(a, b, b.len() as int);
}

pub proof fn lemma_push(pieces: Seq<PieceView>, piece: PieceView)
    ensures
        total_len(pieces.push(piece)) == total_len(pieces) + piece_len(piece),
{
    lemma_concat(pieces, seq![piece]);
    assert(pieces + seq![piece] =~= pieces.push(piece));
    assert(total(seq![piece], 0) == 0);
    assert(total_len(seq![piece]) == piece_len(piece));
}

proof fn lemma_total_positive(pieces: Seq<PieceView>, n: int)
    requires
        n <= pieces.len(),
    ensures
        0 <= total(pieces, n),
    decreases n,
{
    if n > 0 {
        lemma_total_positive(pieces, n - 1);
    }
}

proof fn lemma_total_remove(pieces: Seq<PieceView>, k: int)
    requires
        0 <= k < pieces.len(),
    ensures
        total_len(pieces.remove(k)) <= total_len(pieces),
{
    let a = pieces.subrange(0, k);
    let b = pieces.subrange(k + 1, pieces.len() as int);
    lemma_concat(a, b);
    lemma_push(a, pieces[k]);
    lemma_concat(a.push(pieces[k]), b);
    assert(a + b =~= pieces.remove(k));
    assert(a.push(pieces[k]) + b =~= pieces);
}

// ---- texts --------------------------------------------------------------

proof fn lemma_markers()
    ensures
        placeholder::hole_marker(true).len() == 13,
        placeholder::hole_marker(false).len() == 1,
{
    reveal_strlit("__BATIS_DYN__");
    reveal_strlit("?");
    is_ascii_chars_encode_utf8("__BATIS_DYN__"@);
    is_ascii_chars_encode_utf8("?"@);
}

proof fn lemma_scan(
    runs: Seq<RunView>,
    merged: Seq<u8>,
    dialect: Dialect,
    copy: int,
    i: int,
    st: Norm,
)
    requires
        valid_utf8(merged),
        0 <= copy <= i <= merged.len(),
        st.text.len() <= 13 * copy,
    ensures
        placeholder::scan_from(runs, merged, dialect, copy, i, st).text.len() <= 13 * merged.len(),
    decreases merged.len() - i,
{
    lemma_markers();
    if i < merged.len() {
        placeholder::lemma_mark(merged, dialect, i);
        let before = placeholder::copied(runs, merged, st, copy, i);
        match placeholder::mark_at(merged, dialect, i) {
            Mark::Plain => lemma_scan(runs, merged, dialect, copy, i + 1, st),
            Mark::Unclosed => {},
            Mark::Doubled => {
                let next = placeholder::replaced(
                    runs,
                    before,
                    Seq::empty(),
                    merged.subrange(i, i + 1),
                    i + 2,
                );
                lemma_scan(runs, merged, dialect, i + 2, i + 2, next);
            },
            Mark::Hole { from, to, end, dynamic, separator } => {
                let paths = placeholder::path_entry(
                    runs,
                    merged,
                    placeholder::path_range(merged, from, to, separator),
                );
                let next = placeholder::replaced(
                    runs,
                    before,
                    paths,
                    placeholder::hole_marker(dynamic),
                    end,
                );
                lemma_scan(runs, merged, dialect, end, end, next);
            },
        }
    }
}

/// A normal form is at most thirteen times as long as the text.
proof fn lemma_normalized(runs: Seq<RunView>, dialect: Dialect)
    requires
        placeholder::runs_ok(runs),
    ensures
        placeholder::normalized(runs, dialect).text.len() <= 13 * placeholder::merged_text(
            runs,
            runs.len() as int,
        ).len(),
{
    placeholder::lemma_merged(runs, 0, runs.len() as int);
    let merged = placeholder::merged_text(runs, runs.len() as int);
    let start = Norm {
        text: Seq::empty(),
        map: seq![(0int, placeholder::raw_in(runs, 0, 0))],
        paths: Seq::empty(),
        diagnostics: Seq::empty(),
    };
    lemma_scan(runs, merged, dialect, 0, 0, start);
}

// ---- segments -----------------------------------------------------------

pub open spec fn span_len(span: ByteSpan) -> int {
    span.end - span.start
}

/// How long the first `n` segments are in the source.
pub open spec fn weight(segments: Seq<SegmentView>, n: int) -> int
    decreases n,
{
    if n <= 0 {
        0
    } else {
        weight(segments, n - 1) + span_len(body::segment_span(segments[n - 1]))
    }
}

pub open spec fn full_weight(segments: Seq<SegmentView>) -> int {
    weight(segments, segments.len() as int)
}

/// Later segments only add to the weight.
pub proof fn lemma_weight(source: Seq<u8>, segments: Seq<SegmentView>, k: int, n: int)
    requires
        body::segments_in(source, segments),
        0 <= k <= n <= segments.len(),
    ensures
        0 <= weight(segments, k) <= weight(segments, n),
    decreases n,
{
    if n > 0 {
        assert(body::segment_in(source, segments[n - 1]));
        if k < n {
            lemma_weight(source, segments, k, n - 1);
        } else {
            lemma_weight(source, segments, k - 1, n - 1);
        }
    }
}

/// One segment weighs at most what all of them do.
pub proof fn lemma_one_weight(source: Seq<u8>, segments: Seq<SegmentView>, k: int)
    requires
        body::segments_in(source, segments),
        0 <= k < segments.len(),
    ensures
        0 <= span_len(body::segment_span(segments[k])) <= full_weight(segments),
{
    assert(body::segment_in(source, segments[k]));
    lemma_weight(source, segments, 0, k);
    lemma_weight(source, segments, k + 1, segments.len() as int);
    assert(weight(segments, k + 1) == weight(segments, k) + span_len(
        body::segment_span(segments[k]),
    ));
}

proof fn lemma_weight_between(room: Room, segments: Seq<SegmentView>, n: int)
    requires
        tags::walkable_in(room, segments),
        0 < n <= segments.len(),
    ensures
        weight(segments, n) <= body::segment_span(segments[n - 1]).end - room.from,
    decreases n,
{
    assert(tags::in_room(body::segment_span(segments[n - 1]), room));
    if n > 1 {
        lemma_weight_between(room, segments, n - 1);
        assert(body::segment_span(segments[n - 2]).end <= body::segment_span(
            segments[n - 1],
        ).start);
    } else {
        assert(weight(segments, 0) == 0);
    }
}

/// Segments weigh at most what the part of the source does that they lie in.
pub proof fn lemma_weight_in(room: Room, segments: Seq<SegmentView>)
    requires
        tags::walkable_in(room, segments),
        room.from <= room.to,
    ensures
        0 <= full_weight(segments) <= room.to - room.from,
{
    lemma_weight(room.source, segments, 0, segments.len() as int);
    if segments.len() > 0 {
        lemma_weight_between(room, segments, segments.len() as int);
        assert(tags::in_room(body::segment_span(segments[segments.len() - 1]), room));
    }
}

proof fn lemma_run_text(source: Seq<u8>, segments: Seq<SegmentView>, k: int, to: int, n: int)
    requires
        body::segments_in(source, segments),
        0 <= k <= to <= segments.len(),
        forall|i: int| k <= i < to ==> (#[trigger] segments[i]) is Text,
        0 <= n <= to - k,
    ensures
        placeholder::merged_text(tags::runs_of(segments, k, to), n).len() <= weight(
            segments,
            k + n,
        ) - weight(segments, k),
    decreases n,
{
    if n > 0 {
        lemma_run_text(source, segments, k, to, n - 1);
        let runs = tags::runs_of(segments, k, to);
        assert(runs[n - 1] == tags::as_run(segments[k + n - 1]));
        assert(body::segment_in(source, segments[k + n - 1]));
    }
}

/// The piece of a run of text is at most thirteen times as long as the run is
/// in the source.
pub proof fn lemma_text_piece(
    source: Seq<u8>,
    segments: Seq<SegmentView>,
    k: int,
    ctx: CtxView,
)
    requires
        body::segments_in(source, segments),
        0 <= k < segments.len(),
        segments[k] is Text,
    ensures
        piece_len(tags::text_piece(segments, k, ctx)) <= 13 * (weight(
            segments,
            tags::run_end(segments, k),
        ) - weight(segments, k)),
{
    tags::lemma_run_end(segments, k);
    let to = tags::run_end(segments, k);
    let runs = tags::runs_of(segments, k, to);
    lemma_run_text(source, segments, k, to, to - k);
    assert forall|i: int| 0 <= i < runs.len() implies valid_utf8((#[trigger] runs[i]).decoded)
        && runs[i].span.start <= runs[i].span.end by {
        assert(runs[i] == tags::as_run(segments[k + i]));
        assert(body::segment_in(source, segments[k + i]));
    }
    lemma_normalized(runs, ctx.dialect);
}

proof fn lemma_defused_len(bytes: Seq<u8>, i: int)
    requires
        0 <= i <= bytes.len(),
    ensures
        sql::defused(bytes, i).len() <= 2 * (bytes.len() - i),
    decreases bytes.len() - i,
{
    reveal_strlit("*_/");
    is_ascii_chars_encode_utf8("*_/"@);
    if i < bytes.len() {
        if i + 1 < bytes.len() && bytes[i] == sql::STAR && bytes[i + 1] == attrs::SLASH {
            lemma_defused_len(bytes, i + 2);
        } else {
            lemma_defused_len(bytes, i + 1);
        }
    }
}

// ---- attributes ---------------------------------------------------------

/// Attributes one after the other.
pub open spec fn apart(list: Seq<AttrView>) -> bool {
    forall|i: int, j: int|
        0 <= i < j < list.len() ==> (#[trigger] list[i]).value.1 + 2 <= (
        #[trigger] list[j]).value.0
}

proof fn lemma_apart(bytes: Seq<u8>, i: int, end: int)
    requires
        0 <= i,
        end <= bytes.len(),
    ensures
        apart(attrs::attrs_from(bytes, i, end)),
        forall|k: int|
            0 <= k < attrs::attrs_from(bytes, i, end).len() ==> i + 1 <= (
            #[trigger] attrs::attrs_from(bytes, i, end)[k]).value.0,
    decreases end - i,
{
    let name_start = attrs::skip_blanks(bytes, i, end);
    if name_start >= end || bytes[name_start] == attrs::GREATER_THAN || bytes[name_start]
        == attrs::SLASH {
    } else {
        attrs::lemma_skip_blanks(bytes, i, end);
        let name_end = attrs::attr_name_end(bytes, name_start, end);
        let eq = attrs::skip_blanks(bytes, name_end, end);
        attrs::lemma_attr_name_end(bytes, name_start, end);
        attrs::lemma_skip_blanks(bytes, name_end, end);
        if eq >= end || bytes[eq] != attrs::EQUALS {
            if eq > i {
                lemma_apart(bytes, eq, end);
            }
        } else {
            let quote = attrs::skip_blanks(bytes, eq + 1, end);
            attrs::lemma_skip_blanks(bytes, eq + 1, end);
            if quote >= bytes.len() || !attrs::is_quote(bytes[quote]) {
            } else {
                let value_end = attrs::quoted_end(bytes, quote + 1, end, bytes[quote]);
                attrs::lemma_quoted_end(bytes, quote + 1, end, bytes[quote]);
                if value_end < end {
                    lemma_apart(bytes, value_end + 1, end);
                    let rest = attrs::attrs_from(bytes, value_end + 1, end);
                    let first = AttrView {
                        name: (name_start, name_end),
                        value: (quote + 1, value_end),
                    };
                    let all = seq![first] + rest;
                    assert(attrs::attrs_from(bytes, i, end) == all);
                    assert forall|a: int, b: int| 0 <= a < b < all.len() implies (
                    #[trigger] all[a]).value.1 + 2 <= (#[trigger] all[b]).value.0 by {
                        assert(all[b] == rest[b - 1]);
                        if a > 0 {
                            assert(all[a] == rest[a - 1]);
                        }
                    }
                }
            }
        }
    }
}

/// The value of an attribute that was read is that of one in the list.
proof fn lemma_read(bytes: Seq<u8>, list: Seq<AttrView>, name: Seq<char>, k: int, seen: bool) -> (at:
    int)
    requires
        0 <= k,
        attrs::read_from(bytes, list, name, k, seen).value is Some,
    ensures
        k <= at < list.len(),
        attrs::is_named(bytes, list[at], name),
        attrs::read_from(bytes, list, name, k, seen).value->0.value == decode_utf8(
            bytes.subrange(list[at].value.0, list[at].value.1),
        ),
    decreases list.len() - k,
{
    if !attrs::is_named(bytes, list[k], name) {
        lemma_read(bytes, list, name, k + 1, seen)
    } else if seen {
        lemma_read(bytes, list, name, k + 1, true)
    } else {
        k
    }
}

pub open spec fn attr_len(source: Seq<u8>, span: ByteSpan, name: Seq<char>) -> int {
    encode_utf8(tags::attr_or_empty(source, span, name)).len() as int
}

proof fn lemma_empty_len()
    ensures
        encode_utf8(Seq::<char>::empty()).len() == 0,
{
}

/// Two attributes are together shorter than their tag.
pub proof fn lemma_attrs_fit(
    source: Seq<u8>,
    span: ByteSpan,
    first: Seq<char>,
    second: Seq<char>,
)
    requires
        valid_utf8(source),
        tags::in_source(span, source.len() as int),
        2 <= span_len(span),
        first != second,
    ensures
        attr_len(source, span, first) + attr_len(source, span, second) + 2 <= span_len(span),
        attr_len(source, span, first) + 2 <= span_len(span),
{
    let start = span.start as int;
    let end = span.end as int;
    let list = attrs::tag_attrs(source, start, end);
    attrs::lemma_tag_attrs(source, start, end);
    let name = if start < end && source[start] == attrs::LESS_THAN {
        start + 1
    } else {
        start
    };
    attrs::lemma_tag_name_end(source, name, end);
    lemma_apart(source, attrs::tag_name_end(source, name, end), end);
    lemma_empty_len();
    let a = attrs::read_from(source, list, first, 0, false).value;
    let b = attrs::read_from(source, list, second, 0, false).value;
    if a is Some {
        let i = lemma_read(source, list, first, 0, false);
        assert(attrs::attr_in(source, list[i], start, end));
        text::lemma_between_cuts(source, list[i].value.0, list[i].value.1);
        decode_utf8_encode_utf8(source.subrange(list[i].value.0, list[i].value.1));
        if b is Some {
            let j = lemma_read(source, list, second, 0, false);
            assert(attrs::attr_in(source, list[j], start, end));
            text::lemma_between_cuts(source, list[j].value.0, list[j].value.1);
            decode_utf8_encode_utf8(source.subrange(list[j].value.0, list[j].value.1));
            if i == j {
                text::lemma_encode_injective(first, second);
            }
        }
    } else if b is Some {
        let j = lemma_read(source, list, second, 0, false);
        assert(attrs::attr_in(source, list[j], start, end));
        text::lemma_between_cuts(source, list[j].value.0, list[j].value.1);
        decode_utf8_encode_utf8(source.subrange(list[j].value.0, list[j].value.1));
    }
}

// ---- what tags add ------------------------------------------------------

/// How much a tag adds to each alternative of its body, at most.
pub open spec fn kind_adds(kind: KindView) -> int {
    match kind {
        KindView::Identity => 0,
        KindView::If { .. } => 0,
        KindView::Conditional { prepend, .. } => match prepend {
            Some(value) => encode_utf8(value).len() + 1int,
            None => 0,
        },
        KindView::WhereClause => 6,
        KindView::SetClause => 4,
        KindView::Trim { prefix, suffix, .. } => encode_utf8(prefix).len() + encode_utf8(
            suffix,
        ).len() as int,
        KindView::Foreach { open, close } => encode_utf8(open).len() + encode_utf8(
            close,
        ).len() as int,
        KindView::Dynamic { prepend } => encode_utf8(prepend).len() + 1int,
        KindView::Iterate { open, close } => encode_utf8(open).len() + encode_utf8(
            close,
        ).len() as int,
    }
}

proof fn lemma_words()
    ensures
        encode_utf8("WHERE "@).len() == 6,
        encode_utf8("SET "@).len() == 4,
        encode_utf8("where"@).len() == 5,
        encode_utf8("set"@).len() == 3,
        encode_utf8(" "@).len() == 1,
        "prefix"@ != "suffix"@,
        "open"@ != "close"@,
        "prepend"@ != "open"@,
{
    reveal_strlit("WHERE ");
    reveal_strlit("SET ");
    reveal_strlit("where");
    reveal_strlit("set");
    reveal_strlit(" ");
    reveal_strlit("prefix");
    reveal_strlit("suffix");
    reveal_strlit("open");
    reveal_strlit("close");
    reveal_strlit("prepend");
    is_ascii_chars_encode_utf8("WHERE "@);
    is_ascii_chars_encode_utf8("SET "@);
    is_ascii_chars_encode_utf8("where"@);
    is_ascii_chars_encode_utf8("set"@);
    is_ascii_chars_encode_utf8(" "@);
    assert("prefix"@[0] == 'p');
    assert("suffix"@[0] == 's');
    assert("open"@.len() != "close"@.len());
    assert("prepend"@.len() != "open"@.len());
}

/// What a tag adds is no longer than the tag.
pub proof fn lemma_kind_fits(source: Seq<u8>, ctx: CtxView, name: Seq<char>, span: ByteSpan)
    requires
        valid_utf8(source),
        tags::in_source(span, source.len() as int),
        encode_utf8(name).len() + 2 <= span_len(span),
    ensures
        tags::opened(source, ctx, name, span).action matches ActionView::Descend { kind, .. }
            ==> kind_adds(kind) <= span_len(span),
{
    reveal(tags::opened);
    lemma_words();
    lemma_attrs_fit(source, span, "prefix"@, "suffix"@);
    lemma_attrs_fit(source, span, "open"@, "close"@);
    lemma_attrs_fit(source, span, "prepend"@, "open"@);
    text::lemma_encode_concat(tags::attr_or_empty(source, span, "prefix"@), " "@);
    text::lemma_encode_concat(" "@, tags::attr_or_empty(source, span, "suffix"@));
}

proof fn lemma_wrapped(
    source: Seq<u8>,
    start: u32,
    kind: KindView,
    pieces: Seq<PieceView>,
    len: int,
)
    requires
        sql::pieces_ok(pieces, len),
        0 <= len,
    ensures
        total_len(wrapper::wrapped(source, start, kind, pieces)) <= total_len(pieces) + kind_adds(
            kind,
        ),
{
    lemma_words();
    lemma_assembly(pieces);
    lemma_total_positive(pieces, pieces.len() as int);
    sql::lemma_assembled(pieces, pieces.len() as int, len);
    let whole = sql::assembly(pieces);
    match kind {
        KindView::Trim { prefix_words, suffix_words, .. } => {
            wrapper::lemma_strips(whole.text, prefix_words);
            wrapper::lemma_strips(whole.text, suffix_words);
        },
        KindView::Dynamic { prepend } => {
            let rest = wrapper::without_prepend(pieces);
            if let Some(k) = wrapper::first_prepend(pieces, 0) {
                lemma_first_prepend(pieces, 0);
                lemma_total_remove(pieces, k);
            }
            lemma_assembly(rest);
            text::lemma_encode_concat(prepend, " "@);
        },
        _ => {
            wrapper::lemma_strips(whole.text, Seq::empty());
        },
    }
    let out = wrapper::wrapped(source, start, kind, pieces);
    if out.len() == 1 {
        assert(total(out, 0) == 0);
        assert(total_len(out) == piece_len(out[0]));
    }
}

proof fn lemma_first_prepend(pieces: Seq<PieceView>, k: int)
    requires
        0 <= k,
    ensures
        wrapper::first_prepend(pieces, k) matches Some(i) ==> k <= i < pieces.len(),
    decreases pieces.len() - k,
{
    if k < pieces.len() && !(pieces[k] is Prepend) {
        lemma_first_prepend(pieces, k + 1);
    }
}

// ---- alternatives -------------------------------------------------------

/// Alternatives none of which is longer than `bound`.
pub open spec fn alts_light(alts: Seq<AltView>, bound: int) -> bool {
    forall|k: int| 0 <= k < alts.len() ==> total_len((#[trigger] alts[k]).pieces) <= bound
}

pub proof fn lemma_lone_alt(bound: int)
    requires
        0 <= bound,
    ensures
        alts_light(seq![wrapper::no_alt()], bound),
{
    assert(total_len(wrapper::no_alt().pieces) == 0);
}

proof fn lemma_combined(acc: Seq<AltView>, local: Seq<AltView>, n: int, a: int, b: int)
    requires
        0 <= n <= acc.len(),
        alts_light(acc, a),
        alts_light(local, b),
    ensures
        alts_light(wrapper::combined(acc, local, n), a + b),
    decreases n,
{
    if n > 0 {
        lemma_combined(acc, local, n - 1, a, b);
        let before = wrapper::combined(acc, local, n - 1);
        let all = wrapper::combined(acc, local, n);
        assert forall|k: int| 0 <= k < all.len() implies total_len((#[trigger] all[k]).pieces) <= a
            + b by {
            if k < before.len() {
                assert(all[k] == before[k]);
            } else {
                let j = k - before.len();
                assert(all[k] == wrapper::joined(acc[n - 1], local[j]));
                lemma_concat(acc[n - 1].pieces, local[j].pieces);
                assert(total_len(acc[n - 1].pieces) <= a);
                assert(total_len(local[j].pieces) <= b);
            }
        }
    }
}

proof fn lemma_taken(
    condition: Seq<char>,
    lead: Seq<PieceView>,
    alts: Seq<AltView>,
    bound: int,
    more: int,
)
    requires
        alts_light(alts, bound),
        total_len(lead) <= more,
    ensures
        alts_light(
            Seq::new(alts.len(), |k: int| wrapper::taken(condition, lead, alts[k])),
            bound + more,
        ),
{
    let all = Seq::new(alts.len(), |k: int| wrapper::taken(condition, lead, alts[k]));
    assert forall|k: int| 0 <= k < all.len() implies total_len((#[trigger] all[k]).pieces) <= bound
        + more by {
        lemma_concat(lead, alts[k].pieces);
        assert(total_len(alts[k].pieces) <= bound);
    }
}

proof fn lemma_branched(
    condition: Seq<char>,
    lead: Seq<PieceView>,
    alts: Seq<AltView>,
    bound: int,
    more: int,
)
    requires
        alts_light(alts, bound),
        total_len(lead) <= more,
        0 <= bound + more,
    ensures
        wrapper::branched(condition, lead, alts) matches Ok(local) ==> alts_light(
            local,
            bound + more,
        ),
{
    lemma_taken(condition, lead, alts, bound, more);
    lemma_lone_alt(bound + more);
    let taken = Seq::new(alts.len(), |k: int| wrapper::taken(condition, lead, alts[k]));
    let all = seq![wrapper::no_alt()] + taken;
    assert forall|k: int| 0 <= k < all.len() implies total_len((#[trigger] all[k]).pieces) <= bound
        + more by {
        if k == 0 {
            assert(all[k] == seq![wrapper::no_alt()][0]);
        } else {
            assert(all[k] == taken[k - 1]);
        }
    }
}

/// A tag adds at most what its kind says.
proof fn lemma_finished(
    source: Seq<u8>,
    span: ByteSpan,
    kind: KindView,
    alts: Seq<AltView>,
    bound: int,
    len: int,
)
    requires
        wrapper::alts_ok(alts, len),
        alts_light(alts, bound),
        0 <= bound,
        0 <= len,
    ensures
        wrapper::finished(source, span, kind, alts) matches Ok(local) ==> alts_light(
            local,
            bound + kind_adds(kind),
        ),
{
    match kind {
        KindView::Identity => {},
        KindView::If { test_value } => {
            assert(total_len(Seq::<PieceView>::empty()) == 0);
            lemma_branched(test_value, Seq::empty(), alts, bound, 0);
        },
        KindView::Conditional { condition, prepend } => {
            let lead = match prepend {
                Some(value) => seq![PieceView::Prepend { value, span }],
                None => Seq::empty(),
            };
            assert(total(lead, 0) == 0);
            assert(total_len(lead) == kind_adds(kind));
            lemma_branched(condition, lead, alts, bound, kind_adds(kind));
        },
        _ => {
            let local = Seq::new(
                alts.len(),
                |k: int|
                    AltView {
                        pieces: wrapper::wrapped(source, span.start, kind, alts[k].pieces),
                        conditions: alts[k].conditions,
                    },
            );
            assert forall|k: int| 0 <= k < local.len() implies total_len(
                (#[trigger] local[k]).pieces,
            ) <= bound + kind_adds(kind) by {
                assert(sql::pieces_ok(alts[k].pieces, len));
                lemma_wrapped(source, span.start, kind, alts[k].pieces, len);
                assert(total_len(alts[k].pieces) <= bound);
            }
        },
    }
}

// ---- frames -------------------------------------------------------------

/// How many times its length in the source a segment may add at this depth.
/// One more level of tags costs one.
pub open spec fn factor(depth: int) -> int {
    300 - depth
}

/// What stands behind a frame that waits: the tag it has just passed.
pub open spec fn passed_len(frame: FrameView) -> int {
    span_len(
        body::segment_span(flatten::frame_segments(frame)[flatten::frame_at(frame) - 1]),
    )
}

/// How long what a frame waits for may be.
pub open spec fn owed(frame: FrameView, depth: int) -> int {
    factor(depth + 1) * passed_len(frame)
}

/// How long what a frame comes to may be.
pub open spec fn result_bound(frame: FrameView, depth: int) -> int {
    match frame {
        FrameView::Body { segments, .. } => factor(depth) * full_weight(segments),
        FrameView::Choose { segments, .. } => factor(depth + 1) * full_weight(segments),
    }
}

/// A frame whose alternatives are no longer than the segments that it has
/// passed allow.
#[verifier::opaque]
pub open spec fn frame_light(frame: FrameView, depth: int) -> bool {
    match frame {
        FrameView::Body { segments, k, acc, pending } => match pending {
            None => alts_light(acc, factor(depth) * weight(segments, k)),
            Some(p) => {
                &&& 0 < k <= segments.len()
                &&& body::segment_span(segments[k - 1]) == p.span
                &&& kind_adds(p.kind) <= span_len(p.span)
                &&& alts_light(acc, factor(depth) * weight(segments, k - 1))
            },
        },
        FrameView::Choose { segments, k, local, pending, .. } => {
            &&& pending is Some ==> 0 < k <= segments.len()
            &&& alts_light(local, factor(depth + 1) * full_weight(segments))
        },
    }
}

pub proof fn lemma_fresh_body(segments: Seq<SegmentView>, depth: int)
    ensures
        frame_light(
            FrameView::Body { segments, k: 0, acc: seq![wrapper::no_alt()], pending: None },
            depth,
        ),
{
    reveal(frame_light);
    assert(weight(segments, 0) == 0);
    assert(factor(depth) * 0 == 0) by (nonlinear_arith);
    lemma_lone_alt(0);
}

pub proof fn lemma_fresh_choose(segments: Seq<SegmentView>, depth: int)
    ensures
        frame_light(
            FrameView::Choose {
                segments,
                k: 0,
                local: Seq::empty(),
                has_otherwise: false,
                pending: None,
            },
            depth,
        ),
{
    reveal(frame_light);
}

proof fn lemma_looser(alts: Seq<AltView>, a: int, b: int)
    requires
        alts_light(alts, a),
        a <= b,
    ensures
        alts_light(alts, b),
{
}

/// A tag without a text of its own is passed.
pub proof fn lemma_pass(
    source: Seq<u8>,
    segments: Seq<SegmentView>,
    k: int,
    acc: Seq<AltView>,
    depth: int,
)
    requires
        body::segments_in(source, segments),
        0 <= k < segments.len(),
        depth <= 300,
        frame_light(FrameView::Body { segments, k, acc, pending: None }, depth),
    ensures
        frame_light(FrameView::Body { segments, k: k + 1, acc, pending: None }, depth),
{
    reveal(frame_light);
    lemma_weight(source, segments, k, k + 1);
    let a = weight(segments, k);
    let b = weight(segments, k + 1);
    let f = factor(depth);
    assert(f * a <= f * b) by (nonlinear_arith)
        requires
            a <= b,
            0 <= f,
    ;
    lemma_looser(acc, f * a, f * b);
}

/// A run of text or a reference is passed, and its piece put behind every
/// alternative.
pub proof fn lemma_pass_piece(
    source: Seq<u8>,
    segments: Seq<SegmentView>,
    k: int,
    to: int,
    acc: Seq<AltView>,
    piece: PieceView,
    depth: int,
)
    requires
        body::segments_in(source, segments),
        0 <= k <= to <= segments.len(),
        depth <= 256,
        piece_len(piece) <= 44 * (weight(segments, to) - weight(segments, k)),
        frame_light(FrameView::Body { segments, k, acc, pending: None }, depth),
    ensures
        frame_light(
            FrameView::Body {
                segments,
                k: to,
                acc: flatten::with_piece(acc, piece),
                pending: None,
            },
            depth,
        ),
{
    reveal(frame_light);
    lemma_weight(source, segments, k, to);
    let a = weight(segments, k);
    let b = weight(segments, to);
    let f = factor(depth);
    assert(f * a + 44 * (b - a) <= f * b) by (nonlinear_arith)
        requires
            a <= b,
            44 <= f,
    ;
    let all = flatten::with_piece(acc, piece);
    assert forall|i: int| 0 <= i < all.len() implies total_len((#[trigger] all[i]).pieces) <= f
        * b by {
        lemma_push(acc[i].pieces, piece);
        assert(total_len(acc[i].pieces) <= f * a);
    }
}

/// A tag is passed whose body is gone down into.
pub proof fn lemma_wait(
    segments: Seq<SegmentView>,
    k: int,
    acc: Seq<AltView>,
    pending: PendingView,
    depth: int,
)
    requires
        0 <= k < segments.len(),
        body::segment_span(segments[k]) == pending.span,
        kind_adds(pending.kind) <= span_len(pending.span),
        frame_light(FrameView::Body { segments, k, acc, pending: None }, depth),
    ensures
        frame_light(
            FrameView::Body { segments, k: k + 1, acc, pending: Some(pending) },
            depth,
        ),
{
    reveal(frame_light);
}

/// A body takes what it waited for.
pub proof fn lemma_delivered(
    source: Seq<u8>,
    segments: Seq<SegmentView>,
    k: int,
    acc: Seq<AltView>,
    pending: PendingView,
    alts: Seq<AltView>,
    local: Seq<AltView>,
    all: Seq<AltView>,
    depth: int,
)
    requires
        body::segments_in(source, segments),
        depth <= 256,
        wrapper::alts_ok(alts, source.len() as int),
        frame_light(FrameView::Body { segments, k, acc, pending: Some(pending) }, depth),
        alts_light(
            alts,
            owed(FrameView::Body { segments, k, acc, pending: Some(pending) }, depth),
        ),
        wrapper::finished(source, pending.span, pending.kind, alts) == Ok::<
            Seq<AltView>,
            nat,
        >(local),
        wrapper::product(acc, local) == Ok::<Seq<AltView>, nat>(all),
    ensures
        frame_light(FrameView::Body { segments, k, acc: all, pending: None }, depth),
{
    reveal(frame_light);
    assert(body::segment_in(source, segments[k - 1]));
    let s = span_len(pending.span);
    let f = factor(depth);
    let g = factor(depth + 1);
    let a = weight(segments, k - 1);
    assert(0 <= g * s) by (nonlinear_arith)
        requires
            0 <= g,
            0 <= s,
    ;
    lemma_finished(source, pending.span, pending.kind, alts, g * s, source.len() as int);
    lemma_combined(acc, local, acc.len() as int, f * a, g * s + kind_adds(pending.kind));
    assert(f * a + g * s + s == f * (a + s)) by (nonlinear_arith)
        requires
            f == g + 1,
    ;
    lemma_looser(all, f * a + g * s + kind_adds(pending.kind), f * weight(segments, k));
}

/// A `<choose>` takes the branch that it waited for.
pub proof fn lemma_chosen(
    source: Seq<u8>,
    before: FrameView,
    alts: Seq<AltView>,
    branch: flatten::BranchView,
    after: Seq<AltView>,
    depth: int,
)
    requires
        before is Choose,
        body::segments_in(source, flatten::frame_segments(before)),
        depth <= 256,
        frame_light(before, depth),
        before->Choose_pending == Some(branch),
        alts_light(alts, owed(before, depth)),
        after == before->local + match branch {
            flatten::BranchView::When(test) => Seq::new(
                alts.len(),
                |k: int| wrapper::taken(test, Seq::empty(), alts[k]),
            ),
            flatten::BranchView::Otherwise => alts,
        },
    ensures
        frame_light(
            FrameView::Choose {
                segments: flatten::frame_segments(before),
                k: flatten::frame_at(before),
                local: after,
                has_otherwise: before->has_otherwise,
                pending: None,
            },
            depth,
        ),
{
    reveal(frame_light);
    let segments = flatten::frame_segments(before);
    let k = flatten::frame_at(before);
    lemma_one_weight(source, segments, k - 1);
    let g = factor(depth + 1);
    let s = passed_len(before);
    let w = full_weight(segments);
    assert(g * s <= g * w) by (nonlinear_arith)
        requires
            0 <= g,
            s <= w,
    ;
    lemma_looser(alts, g * s, g * w);
    let more = match branch {
        flatten::BranchView::When(test) => {
            assert(total_len(Seq::<PieceView>::empty()) == 0);
            lemma_taken(test, Seq::empty(), alts, g * w, 0);
            Seq::new(alts.len(), |k: int| wrapper::taken(test, Seq::empty(), alts[k]))
        },
        flatten::BranchView::Otherwise => alts,
    };
    let local = before->local;
    assert forall|i: int| 0 <= i < after.len() implies total_len((#[trigger] after[i]).pieces) <= g
        * w by {
        if i < local.len() {
            assert(after[i] == local[i]);
        } else {
            assert(after[i] == more[i - local.len()]);
        }
    }
}

/// A child of a `<choose>` is passed.
pub proof fn lemma_pass_choice(before: FrameView, after: FrameView, depth: int)
    requires
        before is Choose,
        after is Choose,
        frame_light(before, depth),
        flatten::frame_segments(after) == flatten::frame_segments(before),
        flatten::frame_at(before) < flatten::frame_segments(before).len(),
        0 <= flatten::frame_at(before),
        flatten::frame_at(after) == flatten::frame_at(before) + 1,
        after->local == before->local,
    ensures
        frame_light(after, depth),
{
    reveal(frame_light);
}

/// What a frame comes to that has passed all its segments.
pub proof fn lemma_done(source: Seq<u8>, frame: FrameView, depth: int)
    requires
        body::segments_in(source, flatten::frame_segments(frame)),
        depth <= 256,
        frame_light(frame, depth),
        flatten::frame_at(frame) >= flatten::frame_segments(frame).len(),
        flatten::frame_at(frame) <= flatten::frame_segments(frame).len(),
        !flatten::waits(frame),
    ensures
        match frame {
            FrameView::Body { acc, .. } => alts_light(acc, result_bound(frame, depth)),
            FrameView::Choose { local, .. } => alts_light(local, result_bound(frame, depth))
                && alts_light(local.push(wrapper::no_alt()), result_bound(frame, depth)),
        },
{
    reveal(frame_light);
    if let FrameView::Choose { segments, local, .. } = frame {
        lemma_weight(source, segments, 0, segments.len() as int);
        let g = factor(depth + 1);
        let w = full_weight(segments);
        assert(0 <= g * w) by (nonlinear_arith)
            requires
                0 <= g,
                0 <= w,
        ;
        assert(total_len(wrapper::no_alt().pieces) == 0);
    }
}

/// The token of an `<include>` is not much longer than its tag.
pub proof fn lemma_include(source: Seq<u8>, span: ByteSpan)
    requires
        valid_utf8(source),
        tags::in_source(span, source.len() as int),
        2 <= span_len(span),
    ensures
        piece_len(
            PieceView::Include { raw: tags::attr_or_empty(source, span, "refid"@), span },
        ) <= 44 * span_len(span),
{
    let raw = tags::attr_or_empty(source, span, "refid"@);
    reveal_strlit("refid");
    reveal_strlit("id");
    assert("refid"@.len() != "id"@.len());
    lemma_attrs_fit(source, span, "refid"@, "id"@);
    lemma_defused_len(encode_utf8(raw), 0);
    reveal_strlit("/* batis:include(");
    reveal_strlit(") */");
    is_ascii_chars_encode_utf8("/* batis:include("@);
    is_ascii_chars_encode_utf8(") */"@);
}

/// The piece that opening a tag gives is not much longer than the tag.
pub proof fn lemma_opened_piece(source: Seq<u8>, ctx: CtxView, name: Seq<char>, span: ByteSpan)
    requires
        valid_utf8(source),
        tags::in_source(span, source.len() as int),
        2 <= span_len(span),
    ensures
        tags::opened(source, ctx, name, span).action matches ActionView::Add(piece) ==> piece_len(
            piece,
        ) <= 44 * span_len(span),
{
    reveal(tags::opened);
    lemma_include(source, span);
}

// ---- worklists ----------------------------------------------------------

/// What a frame below another waits for lies in the tag it has just passed.
pub open spec fn linked(parent: FrameView, child: FrameView) -> bool {
    &&& 0 < flatten::frame_at(parent) <= flatten::frame_segments(parent).len()
    &&& full_weight(flatten::frame_segments(child)) <= passed_len(parent)
}

/// Frame `i` of a worklist lies in the tag that the one below has passed.
pub open spec fn linked_at(frames: Seq<FrameView>, i: int) -> bool {
    linked(frames[i - 1], frames[i])
}

/// A worklist of light frames, each in the tag that the one below has passed.
#[verifier::opaque]
pub open spec fn stack_light(frames: Seq<FrameView>) -> bool {
    &&& forall|i: int|
        0 <= i < frames.len() ==> frame_light(
            #[trigger] frames[i],
            flatten::bodies(frames, i + 1),
        )
    &&& forall|i: int| 0 < i < frames.len() ==> #[trigger] linked_at(frames, i)
}

proof fn lemma_same_bodies(a: Seq<FrameView>, b: Seq<FrameView>, n: int)
    requires
        0 <= n <= a.len(),
        n <= b.len(),
        forall|i: int| 0 <= i < n ==> (#[trigger] a[i] is Body) == (b[i] is Body),
    ensures
        flatten::bodies(a, n) == flatten::bodies(b, n),
    decreases n,
{
    if n > 0 {
        lemma_same_bodies(a, b, n - 1);
    }
}

pub proof fn lemma_stack_start(first: FrameView)
    requires
        first is Body,
        frame_light(first, 1),
    ensures
        stack_light(seq![first]),
{
    reveal(stack_light);
    let frames = seq![first];
    assert(flatten::bodies(frames, 0) == 0);
    assert(flatten::bodies(frames, 1) == 1);
}

pub proof fn lemma_stack_top(rest: Seq<FrameView>, before: FrameView)
    requires
        stack_light(rest.push(before)),
    ensures
        frame_light(before, flatten::bodies(rest.push(before), rest.len() as int + 1)),
        stack_light(rest),
        rest.len() > 0 ==> linked(rest.last(), before),
{
    reveal(stack_light);
    let all = rest.push(before);
    let n = rest.len() as int;
    assert(all[n] == before);
    if n > 0 {
        assert(linked_at(all, n));
    }
    assert forall|i: int| 0 <= i < n implies frame_light(
        #[trigger] rest[i],
        flatten::bodies(rest, i + 1),
    ) by {
        assert(all[i] == rest[i]);
        lemma_same_bodies(all, rest, i + 1);
    }
    assert forall|i: int| 0 < i < n implies #[trigger] linked_at(rest, i) by {
        assert(linked_at(all, i));
    }
}

pub proof fn lemma_stack_push(rest: Seq<FrameView>, frame: FrameView, depth: int)
    requires
        stack_light(rest),
        frame_light(frame, depth),
        depth == flatten::bodies(rest.push(frame), rest.len() as int + 1),
        rest.len() > 0 ==> linked(rest.last(), frame),
    ensures
        stack_light(rest.push(frame)),
{
    reveal(stack_light);
    let all = rest.push(frame);
    let n = rest.len() as int;
    assert forall|i: int| 0 <= i < all.len() implies frame_light(
        #[trigger] all[i],
        flatten::bodies(all, i + 1),
    ) by {
        if i < n {
            assert(all[i] == rest[i]);
            lemma_same_bodies(all, rest, i + 1);
        }
    }
    assert forall|i: int| 0 < i < all.len() implies #[trigger] linked_at(all, i) by {
        if i < n {
            assert(linked_at(rest, i));
        }
    }
}

/// A frame that goes on takes its own place.
pub proof fn lemma_stack_replace(
    rest: Seq<FrameView>,
    before: FrameView,
    after: FrameView,
    depth: int,
)
    requires
        stack_light(rest.push(before)),
        frame_light(after, depth),
        depth == flatten::bodies(rest.push(before), rest.len() as int + 1),
        after is Body == before is Body,
        flatten::frame_segments(after) == flatten::frame_segments(before),
    ensures
        stack_light(rest.push(after)),
        depth == flatten::bodies(rest.push(after), rest.len() as int + 1),
{
    lemma_stack_top(rest, before);
    let a = rest.push(after);
    let b = rest.push(before);
    lemma_same_bodies(a, b, rest.len() as int);
    lemma_stack_push(rest, after, depth);
}

/// The depth of a frame above another.
pub proof fn lemma_depth(rest: Seq<FrameView>, top: FrameView)
    ensures
        flatten::bodies(rest.push(top), rest.len() as int + 1) == flatten::bodies(
            rest,
            rest.len() as int,
        ) + (if top is Body {
            1int
        } else {
            0
        }),
{
    lemma_same_bodies(rest.push(top), rest, rest.len() as int);
}

/// What a waiting frame may be given is not negative.
pub proof fn lemma_owed(source: Seq<u8>, frame: FrameView, depth: int)
    requires
        body::segments_in(source, flatten::frame_segments(frame)),
        0 < flatten::frame_at(frame) <= flatten::frame_segments(frame).len(),
        depth <= 256,
    ensures
        0 <= owed(frame, depth),
{
    let g = factor(depth + 1);
    let s = passed_len(frame);
    assert(body::segment_in(
        source,
        flatten::frame_segments(frame)[flatten::frame_at(frame) - 1],
    ));
    assert(0 <= g * s) by (nonlinear_arith)
        requires
            0 <= g,
            0 <= s,
    ;
}

/// What a frame comes to is no longer than the frame below it allows.
pub proof fn lemma_handed_down(
    source: Seq<u8>,
    parent: FrameView,
    child: FrameView,
    alts: Seq<AltView>,
    depth: int,
)
    requires
        linked(parent, child),
        depth <= 256,
        body::segments_in(source, flatten::frame_segments(child)),
        alts_light(
            alts,
            result_bound(
                child,
                depth + (if child is Body {
                    1int
                } else {
                    0
                }),
            ),
        ),
    ensures
        alts_light(alts, owed(parent, depth)),
{
    let g = factor(depth + 1);
    let w = full_weight(flatten::frame_segments(child));
    let s = passed_len(parent);
    assert(g * w <= g * s) by (nonlinear_arith)
        requires
            0 <= g,
            w <= s,
    ;
    lemma_looser(alts, g * w, g * s);
}

// ---- all branches in one text -------------------------------------------

/// What stands behind a frame that waits.
pub open spec fn union_passed(frame: UnionFrameView) -> int {
    span_len(body::segment_span(frame.segments[frame.k - 1]))
}

/// A frame whose pieces are no longer than the segments that it has passed
/// allow.
pub open spec fn union_light(frame: UnionFrameView) -> bool {
    &&& 0 <= frame.k <= frame.segments.len()
    &&& total_len(frame.pieces) <= 44 * weight(frame.segments, frame.k)
}

/// The same of a frame that waits for the tag it has just passed.
pub open spec fn union_waiting(frame: UnionFrameView) -> bool {
    &&& 0 < frame.k <= frame.segments.len()
    &&& total_len(frame.pieces) <= 44 * weight(frame.segments, frame.k - 1)
}

/// A worklist of light frames, each in the tag that the one below has passed.
#[verifier::opaque]
pub open spec fn union_stack_light(frames: Seq<UnionFrameView>) -> bool {
    &&& frames.len() > 0 ==> union_light(frames.last())
    &&& waiting_below(frames)
}

/// A frame waits, and the one above it lies in the tag that it has passed.
pub open spec fn waits_for(parent: UnionFrameView, child: UnionFrameView) -> bool {
    &&& union_waiting(parent)
    &&& full_weight(child.segments) <= union_passed(parent)
}

/// The frame below frame `i` of a worklist waits for it.
pub open spec fn waits_at(frames: Seq<UnionFrameView>, i: int) -> bool {
    waits_for(frames[i - 1], frames[i])
}

/// Every frame but the last waits for the one above it.
pub open spec fn waiting_below(frames: Seq<UnionFrameView>) -> bool {
    forall|i: int| 0 < i < frames.len() ==> #[trigger] waits_at(frames, i)
}

pub proof fn lemma_union_top(rest: Seq<UnionFrameView>, top: UnionFrameView)
    requires
        union_stack_light(rest.push(top)),
    ensures
        union_light(top),
        waiting_below(rest),
        rest.len() > 0 ==> waits_for(rest.last(), top),
{
    reveal(union_stack_light);
    let all = rest.push(top);
    assert(all.last() == top);
    if rest.len() > 0 {
        assert(waits_at(all, rest.len() as int));
    }
    assert forall|i: int| 0 < i < rest.len() implies #[trigger] waits_at(rest, i) by {
        assert(waits_at(all, i));
    }
}

pub proof fn lemma_union_push(rest: Seq<UnionFrameView>, top: UnionFrameView)
    requires
        waiting_below(rest),
        union_light(top),
        rest.len() > 0 ==> waits_for(rest.last(), top),
    ensures
        union_stack_light(rest.push(top)),
{
    reveal(union_stack_light);
    let all = rest.push(top);
    assert forall|i: int| 0 < i < all.len() implies #[trigger] waits_at(all, i) by {
        if i < rest.len() {
            assert(waits_at(rest, i));
        }
    }
}

/// The same with a frame below the top that waits.
pub proof fn lemma_union_wait(rest: Seq<UnionFrameView>, before: UnionFrameView, after: UnionFrameView)
    requires
        waiting_below(rest),
        rest.len() > 0 ==> waits_for(rest.last(), before),
        after.segments == before.segments,
    ensures
        waiting_below(rest.push(after)),
{
    let all = rest.push(after);
    assert forall|i: int| 0 < i < all.len() implies #[trigger] waits_at(all, i) by {
        if i < rest.len() {
            assert(waits_at(rest, i));
        }
    }
}

/// A frame takes what it waited for.
pub proof fn lemma_union_fed(
    parent: UnionFrameView,
    child: Seq<SegmentView>,
    pieces: Seq<PieceView>,
)
    requires
        union_waiting(parent),
        full_weight(child) <= union_passed(parent),
        total_len(pieces) <= 44 * full_weight(child),
    ensures
        union_light(union_walk::fed(parent, pieces)),
{
    lemma_concat(parent.pieces, pieces);
}

/// Nothing is added by a segment that gives no piece.
pub proof fn lemma_union_pass(
    source: Seq<u8>,
    segments: Seq<SegmentView>,
    k: int,
    pieces: Seq<PieceView>,
)
    requires
        body::segments_in(source, segments),
        0 <= k < segments.len(),
        total_len(pieces) <= 44 * weight(segments, k),
    ensures
        total_len(pieces) <= 44 * weight(segments, k + 1),
{
    lemma_weight(source, segments, k, k + 1);
}

} // verus!
