//! What normalizing makes of a placeholder and what it collects from it, said of
//! a text, the placeholder in it and what follows.
use crate::model::{Dialect, Spanned};
use crate::placeholder;
use crate::placeholder::{Mark, Norm, RunView};
use crate::text;
use vstd::prelude::*;
use vstd::string::*;
use vstd::utf8::*;

verus! {

/// The paths of a normal form, without their places.
pub open spec fn values(paths: Seq<Spanned<Seq<char>>>) -> Seq<Seq<char>> {
    paths.map_values(|p: Spanned<Seq<char>>| p.value)
}

/// The text of all runs.
pub open spec fn whole(runs: Seq<RunView>) -> Seq<u8> {
    placeholder::merged_text(runs, runs.len() as int)
}

/// A text without `#` and `$`.
pub open spec fn no_delimiter(bytes: Seq<u8>) -> bool {
    forall|k: int| 0 <= k < bytes.len() ==> #[trigger] bytes[k] != 0x23 && bytes[k] != 0x24
}

pub open spec fn lacks(bytes: Seq<u8>, b: u8) -> bool {
    forall|k: int| 0 <= k < bytes.len() ==> #[trigger] bytes[k] != b
}

/// A text without the whitespace around it, as a list: none where nothing is
/// left.
pub open spec fn trimmed_text(bytes: Seq<u8>) -> Seq<Seq<char>> {
    let len = bytes.len() as int;
    let from = text::trimmed_start(bytes, 0, len);
    let to = text::trimmed_end(bytes, from, len);
    if from >= to {
        Seq::empty()
    } else {
        seq![decode_utf8(bytes.subrange(from, to))]
    }
}

// ---- moving a text ------------------------------------------------------

proof fn lemma_braces_moved(bytes: Seq<u8>, off: int, j: int, depth: int)
    requires
        0 <= off <= bytes.len(),
        0 <= j,
    ensures
        placeholder::braces_close(bytes, off + j, depth) == (match placeholder::braces_close(
            bytes.skip(off),
            j,
            depth,
        ) {
            Some(k) => Some(off + k),
            None => None,
        }),
    decreases bytes.len() - off - j,
{
    let part = bytes.skip(off);
    if j < part.len() {
        assert(part[j] == bytes[off + j]);
        lemma_braces_moved(bytes, off, j + 1, depth);
        lemma_braces_moved(bytes, off, j + 1, depth + 1);
        lemma_braces_moved(bytes, off, j + 1, depth - 1);
    }
}

proof fn lemma_first_byte_moved(bytes: Seq<u8>, off: int, target: u8, j: int)
    requires
        0 <= off <= bytes.len(),
        0 <= j,
    ensures
        text::first_byte(bytes, target, off + j) == (match text::first_byte(
            bytes.skip(off),
            target,
            j,
        ) {
            Some(k) => Some(off + k),
            None => None,
        }),
    decreases bytes.len() - off - j,
{
    let part = bytes.skip(off);
    if j < part.len() {
        assert(part[j] == bytes[off + j]);
        lemma_first_byte_moved(bytes, off, target, j + 1);
    }
}

pub proof fn lemma_separator_moved(bytes: Seq<u8>, off: int, from: int, to: int, separator: u8)
    requires
        0 <= off,
        0 <= from <= to,
        off + to <= bytes.len(),
    ensures
        placeholder::before_separator(bytes, off + from, off + to, separator) == off
            + placeholder::before_separator(bytes.skip(off), from, to, separator),
    decreases to - from,
{
    if from < to {
        assert(bytes.skip(off)[from] == bytes[off + from]);
        lemma_separator_moved(bytes, off, from + 1, to, separator);
    }
}

proof fn lemma_space_moved(bytes: Seq<u8>, off: int, i: int, to: int)
    requires
        0 <= off,
        0 <= i <= to,
        off + to <= bytes.len(),
    ensures
        text::space_width(bytes, off + i, off + to) == text::space_width(bytes.skip(off), i, to),
        0 <= text::space_width(bytes.skip(off), i, to) <= to - i,
{
    let part = bytes.skip(off);
    if i < to {
        assert(part[i] == bytes[off + i]);
    }
    if i + 1 < to {
        assert(part[i + 1] == bytes[off + i + 1]);
    }
    if i + 2 < to {
        assert(part[i + 2] == bytes[off + i + 2]);
    }
}

proof fn lemma_start_moved(bytes: Seq<u8>, off: int, from: int, to: int)
    requires
        0 <= off,
        0 <= from <= to,
        off + to <= bytes.len(),
    ensures
        text::trimmed_start(bytes, off + from, off + to) == off + text::trimmed_start(
            bytes.skip(off),
            from,
            to,
        ),
        from <= text::trimmed_start(bytes.skip(off), from, to) <= to,
    decreases to - from,
{
    lemma_space_moved(bytes, off, from, to);
    let w = text::space_width(bytes.skip(off), from, to);
    if w > 0 {
        lemma_start_moved(bytes, off, from + w, to);
    }
}

proof fn lemma_end_moved(bytes: Seq<u8>, off: int, from: int, to: int)
    requires
        0 <= off,
        0 <= from <= to,
        off + to <= bytes.len(),
    ensures
        text::trimmed_end(bytes, off + from, off + to) == off + text::trimmed_end(
            bytes.skip(off),
            from,
            to,
        ),
        from <= text::trimmed_end(bytes.skip(off), from, to) <= to,
    decreases to - from,
{
    if from <= to - 1 {
        lemma_space_moved(bytes, off, to - 1, to);
    }
    if from <= to - 2 {
        lemma_space_moved(bytes, off, to - 2, to);
    }
    if from <= to - 3 {
        lemma_space_moved(bytes, off, to - 3, to);
    }
    let w = text::space_width_before(bytes.skip(off), from, to);
    assert(text::space_width_before(bytes, off + from, off + to) == w);
    assert(0 <= w <= to - from);
    if w > 0 {
        lemma_end_moved(bytes, off, from, to - w);
    }
}

proof fn lemma_range_moved(bytes: Seq<u8>, off: int, from: int, to: int, separator: u8)
    requires
        0 <= off,
        0 <= from <= to,
        off + to <= bytes.len(),
    ensures
        ({
            let here = placeholder::path_range(bytes, off + from, off + to, separator);
            let there = placeholder::path_range(bytes.skip(off), from, to, separator);
            &&& here.0 == off + there.0
            &&& here.1 == off + there.1
            &&& from <= there.0 <= there.1 <= to
        }),
{
    let part = bytes.skip(off);
    lemma_separator_moved(bytes, off, from, to, separator);
    lemma_separator_end(part, from, to, separator);
    let cut = placeholder::before_separator(part, from, to, separator);
    lemma_start_moved(bytes, off, from, cut);
    lemma_end_moved(bytes, off, text::trimmed_start(part, from, cut), cut);
}

pub proof fn lemma_separator_end(bytes: Seq<u8>, from: int, to: int, separator: u8)
    requires
        from <= to,
    ensures
        from <= placeholder::before_separator(bytes, from, to, separator) <= to,
    decreases to - from,
{
    if from < to && bytes[from] != separator {
        lemma_separator_end(bytes, from + 1, to, separator);
    }
}

/// A mark in a text, moved.
pub open spec fn moved(mark: Mark, off: int) -> Mark {
    match mark {
        Mark::Hole { from, to, end, dynamic, separator } => Mark::Hole {
            from: off + from,
            to: off + to,
            end: off + end,
            dynamic,
            separator,
        },
        m => m,
    }
}

pub proof fn lemma_mark_moved(bytes: Seq<u8>, dialect: Dialect, off: int, i: int)
    requires
        0 <= off,
        0 <= i,
        off + i < bytes.len(),
    ensures
        placeholder::mark_at(bytes, dialect, off + i) == moved(
            placeholder::mark_at(bytes.skip(off), dialect, i),
            off,
        ),
        placeholder::mark_at(bytes.skip(off), dialect, i) matches Mark::Hole { from, to, end, .. }
            ==> i < from <= to < end <= bytes.len() - off,
        placeholder::mark_at(bytes.skip(off), dialect, i) is Doubled ==> off + i + 1 < bytes.len(),
{
    let part = bytes.skip(off);
    assert(part[i] == bytes[off + i]);
    if i + 1 < part.len() {
        assert(part[i + 1] == bytes[off + i + 1]);
        lemma_braces_moved(bytes, off, i + 2, 1);
        placeholder::lemma_braces_close(part, i + 2, 1);
    }
    lemma_first_byte_moved(bytes, off, bytes[off + i], i + 1);
    text::lemma_first_byte(part, part[i], i + 1);
    if let Some(close) = text::first_byte(part, part[i], i + 1) {
        assert(placeholder::has_blank(part, i + 1, close) == placeholder::has_blank(
            bytes,
            off + i + 1,
            off + close,
        )) by {
            if placeholder::has_blank(part, i + 1, close) {
                let k = choose|k: int|
                    i + 1 <= k < close && text::is_blank(#[trigger] part[k]);
                assert(text::is_blank(bytes[off + k]));
            }
            if placeholder::has_blank(bytes, off + i + 1, off + close) {
                let k = choose|k: int|
                    off + i + 1 <= k < off + close && text::is_blank(#[trigger] bytes[k]);
                assert(text::is_blank(part[k - off]));
            }
        }
    }
}

// ---- the scan -----------------------------------------------------------

pub open spec fn nothing_yet() -> Norm {
    Norm {
        text: Seq::empty(),
        map: Seq::empty(),
        paths: Seq::empty(),
        diagnostics: Seq::empty(),
    }
}

/// What a scan from `i` on adds.
pub open spec fn rest_of(runs: Seq<RunView>, bytes: Seq<u8>, dialect: Dialect, i: int) -> Norm {
    placeholder::scan_from(runs, bytes, dialect, i, i, nothing_yet())
}

pub open spec fn adds(st: Norm, kept: Seq<u8>, more: Norm, all: Norm) -> bool {
    &&& all.text == st.text + kept + more.text
    &&& values(all.paths) == values(st.paths) + values(more.paths)
    &&& all.diagnostics.len() == st.diagnostics.len() + more.diagnostics.len()
}

proof fn lemma_values(a: Seq<Spanned<Seq<char>>>, b: Seq<Spanned<Seq<char>>>)
    ensures
        values(a + b) == values(a) + values(b),
{
    assert(values(a + b) =~= values(a) + values(b));
}

proof fn lemma_entry_moved(
    runs: Seq<RunView>,
    other: Seq<RunView>,
    bytes: Seq<u8>,
    off: int,
    from: int,
    to: int,
    separator: u8,
)
    requires
        0 <= off,
        0 <= from <= to,
        off + to <= bytes.len(),
    ensures
        values(
            placeholder::path_entry(
                runs,
                bytes,
                placeholder::path_range(bytes, off + from, off + to, separator),
            ),
        ) == values(
            placeholder::path_entry(
                other,
                bytes.skip(off),
                placeholder::path_range(bytes.skip(off), from, to, separator),
            ),
        ),
{
    lemma_range_moved(bytes, off, from, to, separator);
    let there = placeholder::path_range(bytes.skip(off), from, to, separator);
    let here = placeholder::path_range(bytes, off + from, off + to, separator);
    if there.0 < there.1 {
        assert(bytes.skip(off).subrange(there.0, there.1) =~= bytes.subrange(here.0, here.1));
        assert(values(placeholder::path_entry(runs, bytes, here)) =~= seq![
            decode_utf8(bytes.subrange(here.0, here.1)),
        ]);
        assert(values(placeholder::path_entry(other, bytes.skip(off), there)) =~= seq![
            decode_utf8(bytes.subrange(here.0, here.1)),
        ]);
    } else {
        assert(values(placeholder::path_entry(runs, bytes, here)) =~= Seq::empty());
        assert(values(placeholder::path_entry(other, bytes.skip(off), there)) =~= Seq::empty());
    }
}

/// What a scan adds from a place on depends on the text from there on alone.
#[verifier::rlimit(50)]
proof fn lemma_scan(
    runs: Seq<RunView>,
    other: Seq<RunView>,
    bytes: Seq<u8>,
    dialect: Dialect,
    off: int,
    copy: int,
    i: int,
    st: Norm,
)
    requires
        0 <= off <= i <= bytes.len(),
        0 <= copy <= i,
    ensures
        adds(
            st,
            bytes.subrange(copy, i),
            rest_of(other, bytes.skip(off), dialect, i - off),
            placeholder::scan_from(runs, bytes, dialect, copy, i, st),
        ),
    decreases bytes.len() - i, 0int,
{
    let part = bytes.skip(off);
    let j = i - off;
    let len = bytes.len() as int;
    let none = nothing_yet();
    assert(part.skip(0) =~= part);
    assert(values(none.paths) =~= Seq::empty());
    if i < len {
        lemma_mark_moved(bytes, dialect, off, j);
        match placeholder::mark_at(part, dialect, j) {
            Mark::Plain => {
                lemma_scan(runs, other, bytes, dialect, off, copy, i + 1, st);
                lemma_scan_part(other, bytes, dialect, off, j, i + 1, none);
                assert(bytes.subrange(copy, i + 1) =~= bytes.subrange(copy, i) + bytes.subrange(
                    i,
                    i + 1,
                ));
                assert(part.subrange(j, j + 1) =~= bytes.subrange(i, i + 1));
                let more = rest_of(other, part, dialect, j + 1);
                assert(none.text + part.subrange(j, j + 1) + more.text =~= bytes.subrange(i, i + 1)
                    + more.text);
                assert(st.text + bytes.subrange(copy, i + 1) + more.text =~= st.text
                    + bytes.subrange(copy, i) + (bytes.subrange(i, i + 1) + more.text));
            },
            Mark::Unclosed => {
                assert(bytes.subrange(copy, len) =~= bytes.subrange(copy, i) + bytes.subrange(
                    i,
                    len,
                ));
                assert(part.subrange(j, part.len() as int) =~= bytes.subrange(i, len));
                let all = placeholder::copied(runs, bytes, st, copy, len);
                assert(all.text =~= st.text + bytes.subrange(copy, len));
                let rest = rest_of(other, part, dialect, j);
                assert(rest.text =~= bytes.subrange(i, len));
                assert(st.text + bytes.subrange(copy, i) + rest.text =~= st.text + bytes.subrange(
                    copy,
                    len,
                ));
                assert(values(st.paths) + values(rest.paths) =~= values(st.paths));
            },
            Mark::Doubled => {
                let before = placeholder::copied(runs, bytes, st, copy, i);
                let next = placeholder::replaced(
                    runs,
                    before,
                    Seq::empty(),
                    bytes.subrange(i, i + 1),
                    i + 2,
                );
                lemma_scan(runs, other, bytes, dialect, off, i + 2, i + 2, next);
                let own = placeholder::replaced(
                    other,
                    placeholder::copied(other, part, none, j, j),
                    Seq::empty(),
                    part.subrange(j, j + 1),
                    j + 2,
                );
                lemma_scan_part(other, bytes, dialect, off, j + 2, i + 2, own);
                assert(part.subrange(j, j + 1) =~= bytes.subrange(i, i + 1));
                lemma_values(st.paths, Seq::empty());
                lemma_values(none.paths, Seq::empty());
                let more = rest_of(other, part, dialect, j + 2);
                assert(before.text =~= st.text + bytes.subrange(copy, i));
                assert(bytes.subrange(i + 2, i + 2) =~= Seq::empty());
                assert(part.subrange(j + 2, j + 2) =~= Seq::empty());
                let all = placeholder::scan_from(runs, bytes, dialect, copy, i, st);
                let rest = rest_of(other, part, dialect, j);
                assert(rest.text =~= bytes.subrange(i, i + 1) + more.text);
                assert(all.text =~= st.text + bytes.subrange(copy, i) + rest.text);
                assert(values(rest.paths) =~= values(more.paths));
                assert(values(all.paths) =~= values(st.paths) + values(rest.paths));
            },
            Mark::Hole { from, to, end, dynamic, separator } => {
                let before = placeholder::copied(runs, bytes, st, copy, i);
                let marker = placeholder::hole_marker(dynamic);
                let here = placeholder::path_entry(
                    runs,
                    bytes,
                    placeholder::path_range(bytes, off + from, off + to, separator),
                );
                let there = placeholder::path_entry(
                    other,
                    part,
                    placeholder::path_range(part, from, to, separator),
                );
                lemma_entry_moved(runs, other, bytes, off, from, to, separator);
                let next = placeholder::replaced(runs, before, here, marker, off + end);
                let own = placeholder::replaced(
                    other,
                    placeholder::copied(other, part, none, j, j),
                    there,
                    marker,
                    end,
                );
                lemma_scan(runs, other, bytes, dialect, off, off + end, off + end, next);
                lemma_scan_part(other, bytes, dialect, off, end, off + end, own);
                lemma_values(st.paths, here);
                lemma_values(none.paths, there);
                let more = rest_of(other, part, dialect, end);
                assert(before.text =~= st.text + bytes.subrange(copy, i));
                assert(bytes.subrange(off + end, off + end) =~= Seq::empty());
                assert(part.subrange(end, end) =~= Seq::empty());
                let all = placeholder::scan_from(runs, bytes, dialect, copy, i, st);
                let rest = rest_of(other, part, dialect, j);
                assert(rest.text =~= marker + more.text);
                assert(all.text =~= st.text + bytes.subrange(copy, i) + rest.text);
                assert(values(rest.paths) =~= values(there) + values(more.paths));
                assert(values(all.paths) =~= values(st.paths) + values(rest.paths));
            },
        }
    } else {
        assert(bytes.subrange(copy, len) =~= bytes.subrange(copy, i));
        let rest = rest_of(other, part, dialect, j);
        assert(rest.text =~= Seq::empty());
        let all = placeholder::copied(runs, bytes, st, copy, len);
        assert(all.text =~= st.text + bytes.subrange(copy, i) + rest.text);
        assert(values(st.paths) + values(rest.paths) =~= values(st.paths));
    }
}

/// The same of the part itself.
proof fn lemma_scan_part(
    other: Seq<RunView>,
    bytes: Seq<u8>,
    dialect: Dialect,
    off: int,
    copy: int,
    i: int,
    st: Norm,
)
    requires
        0 <= off <= i <= bytes.len(),
        0 <= copy <= i - off,
    ensures
        adds(
            st,
            bytes.skip(off).subrange(copy, i - off),
            rest_of(other, bytes.skip(off), dialect, i - off),
            placeholder::scan_from(other, bytes.skip(off), dialect, copy, i - off, st),
        ),
    decreases bytes.len() - i, 1int,
{
    let part = bytes.skip(off);
    assert(part.skip(0) =~= part);
    lemma_scan(other, other, part, dialect, 0, copy, i - off, st);
}

proof fn lemma_norm(runs: Seq<RunView>, other: Seq<RunView>, dialect: Dialect)
    ensures
        placeholder::normalized(runs, dialect).text == rest_of(other, whole(runs), dialect, 0).text,
        values(placeholder::normalized(runs, dialect).paths) == values(
            rest_of(other, whole(runs), dialect, 0).paths,
        ),
        placeholder::normalized(runs, dialect).diagnostics.len() == rest_of(
            other,
            whole(runs),
            dialect,
            0,
        ).diagnostics.len(),
{
    let bytes = whole(runs);
    let start = Norm {
        text: Seq::empty(),
        map: seq![(0int, placeholder::raw_in(runs, 0, 0))],
        paths: Seq::empty(),
        diagnostics: Seq::empty(),
    };
    lemma_scan(runs, other, bytes, dialect, 0, 0, 0, start);
    assert(bytes.skip(0) =~= bytes);
    let more = rest_of(other, bytes, dialect, 0);
    assert(start.text + bytes.subrange(0, 0) + more.text =~= more.text);
    assert(values(start.paths) + values(more.paths) =~= values(more.paths));
}

/// From a place on, a scan adds what the rest of the text normalizes to.
pub proof fn lemma_rest(
    runs: Seq<RunView>,
    rest: Seq<RunView>,
    bytes: Seq<u8>,
    dialect: Dialect,
    copy: int,
    i: int,
    st: Norm,
)
    requires
        0 <= copy <= i <= bytes.len(),
        whole(rest) == bytes.skip(i),
    ensures
        adds(
            st,
            bytes.subrange(copy, i),
            placeholder::normalized(rest, dialect),
            placeholder::scan_from(runs, bytes, dialect, copy, i, st),
        ),
{
    lemma_scan(runs, rest, bytes, dialect, i, copy, i, st);
    lemma_norm(rest, rest, dialect);
}

pub proof fn lemma_plain_until(
    runs: Seq<RunView>,
    bytes: Seq<u8>,
    dialect: Dialect,
    copy: int,
    i: int,
    to: int,
    st: Norm,
)
    requires
        0 <= i <= to <= bytes.len(),
        forall|k: int| i <= k < to ==> #[trigger] bytes[k] != 0x23 && bytes[k] != 0x24,
    ensures
        placeholder::scan_from(runs, bytes, dialect, copy, i, st) == placeholder::scan_from(
            runs,
            bytes,
            dialect,
            copy,
            to,
            st,
        ),
    decreases to - i,
{
    if i < to {
        assert(bytes[i] != 0x23 && bytes[i] != 0x24);
        lemma_plain_until(runs, bytes, dialect, copy, i + 1, to, st);
    }
}

/// The braces open behind the first `k` bytes.
pub open spec fn level(content: Seq<u8>, k: int) -> int
    decreases k,
{
    if k <= 0 {
        0
    } else {
        level(content, k - 1) + (if content[k - 1] == 0x7B {
            1int
        } else if content[k - 1] == 0x7D {
            -1
        } else {
            0
        })
    }
}

/// Every brace in a text is closed in it, and none is closed that is not open.
pub open spec fn balanced(content: Seq<u8>) -> bool {
    &&& level(content, content.len() as int) == 0
    &&& forall|k: int| 0 <= k <= content.len() ==> #[trigger] level(content, k) >= 0
}

pub proof fn lemma_close(bytes: Seq<u8>, off: int, content: Seq<u8>, k: int)
    requires
        0 <= off,
        off + content.len() < bytes.len(),
        forall|i: int| 0 <= i < content.len() ==> bytes[off + i] == #[trigger] content[i],
        bytes[off + content.len()] == 0x7D,
        balanced(content),
        0 <= k <= content.len(),
    ensures
        placeholder::braces_close(bytes, off + k, 1 + level(content, k)) == Some(
            off + content.len(),
        ),
    decreases content.len() - k,
{
    if k < content.len() {
        assert(bytes[off + k] == content[k]);
        lemma_close(bytes, off, content, k + 1);
        assert(level(content, k + 1) >= 0);
    }
}

/// The head of a placeholder's content, up to the separator, is what its path is
/// taken from.
proof fn lemma_head_range(
    runs: Seq<RunView>,
    bytes: Seq<u8>,
    off: int,
    head: Seq<u8>,
    to: int,
    separator: u8,
)
    requires
        0 <= off,
        off + head.len() <= to <= bytes.len(),
        forall|i: int| 0 <= i < head.len() ==> bytes[off + i] == #[trigger] head[i],
        lacks(head, separator),
        off + head.len() < to ==> bytes[off + head.len()] == separator,
    ensures
        values(
            placeholder::path_entry(
                runs,
                bytes,
                placeholder::path_range(bytes, off, to, separator),
            ),
        ) == trimmed_text(head),
{
    let n = head.len() as int;
    assert forall|k: int| off <= k < off + n implies #[trigger] bytes[k] != separator by {
        assert(bytes[off + (k - off)] == head[k - off]);
    }
    lemma_cut(bytes, off, to, off + n, separator);
    lemma_start_moved(bytes, off, 0, n);
    let part = bytes.skip(off);
    lemma_start_same(part, head, 0, n);
    let from = text::trimmed_start(head, 0, n);
    lemma_end_moved(bytes, off, from, n);
    lemma_end_same(part, head, from, n);
    let end = text::trimmed_end(head, from, n);
    let range = placeholder::path_range(bytes, off, to, separator);
    assert(range == (off + from, off + end));
    if from < end {
        assert(bytes.subrange(off + from, off + end) =~= head.subrange(from, end));
        assert(values(placeholder::path_entry(runs, bytes, range)) =~= seq![
            decode_utf8(head.subrange(from, end)),
        ]);
    } else {
        assert(values(placeholder::path_entry(runs, bytes, range)) =~= Seq::empty());
    }
}

proof fn lemma_cut(bytes: Seq<u8>, from: int, to: int, cut: int, separator: u8)
    requires
        0 <= from <= cut <= to <= bytes.len(),
        forall|k: int| from <= k < cut ==> #[trigger] bytes[k] != separator,
        cut < to ==> bytes[cut] == separator,
    ensures
        placeholder::before_separator(bytes, from, to, separator) == cut,
    decreases cut - from,
{
    if from < cut {
        assert(bytes[from] != separator);
        lemma_cut(bytes, from + 1, to, cut, separator);
    }
}

proof fn lemma_start_same(a: Seq<u8>, b: Seq<u8>, from: int, to: int)
    requires
        0 <= from <= to <= a.len(),
        to <= b.len(),
        forall|k: int| 0 <= k < to ==> #[trigger] a[k] == b[k],
    ensures
        text::trimmed_start(a, from, to) == text::trimmed_start(b, from, to),
        from <= text::trimmed_start(b, from, to) <= to,
    decreases to - from,
{
    let w = text::space_width(a, from, to);
    lemma_width_same(a, b, from, to);
    if w > 0 {
        lemma_start_same(a, b, from + w, to);
    }
}

proof fn lemma_width_same(a: Seq<u8>, b: Seq<u8>, i: int, to: int)
    requires
        0 <= i <= to <= a.len(),
        to <= b.len(),
        forall|k: int| 0 <= k < to ==> #[trigger] a[k] == b[k],
    ensures
        text::space_width(a, i, to) == text::space_width(b, i, to),
        0 <= text::space_width(b, i, to) <= to - i,
{
    if i < to {
        assert(a[i] == b[i]);
    }
    if i + 1 < to {
        assert(a[i + 1] == b[i + 1]);
    }
    if i + 2 < to {
        assert(a[i + 2] == b[i + 2]);
    }
}

proof fn lemma_end_same(a: Seq<u8>, b: Seq<u8>, from: int, to: int)
    requires
        0 <= from <= to <= a.len(),
        to <= b.len(),
        forall|k: int| 0 <= k < to ==> #[trigger] a[k] == b[k],
    ensures
        text::trimmed_end(a, from, to) == text::trimmed_end(b, from, to),
        from <= text::trimmed_end(b, from, to) <= to,
    decreases to - from,
{
    if from <= to - 1 {
        lemma_width_same(a, b, to - 1, to);
    }
    if from <= to - 2 {
        lemma_width_same(a, b, to - 2, to);
    }
    if from <= to - 3 {
        lemma_width_same(a, b, to - 3, to);
    }
    let w = text::space_width_before(a, from, to);
    assert(text::space_width_before(b, from, to) == w);
    if w > 0 {
        lemma_end_same(a, b, from, to - w);
    }
}

proof fn lemma_hole(
    runs: Seq<RunView>,
    rest: Seq<RunView>,
    dialect: Dialect,
    i: int,
    head: Seq<u8>,
    from: int,
    to: int,
    dynamic: bool,
    separator: u8,
)
    requires
        0 <= i < from <= to < whole(runs).len(),
        forall|k: int| 0 <= k < i ==> #[trigger] whole(runs)[k] != 0x23 && whole(runs)[k] != 0x24,
        placeholder::mark_at(whole(runs), dialect, i) == (Mark::Hole {
            from,
            to,
            end: to + 1,
            dynamic,
            separator,
        }),
        from + head.len() <= to,
        forall|k: int| 0 <= k < head.len() ==> whole(runs)[from + k] == #[trigger] head[k],
        lacks(head, separator),
        from + head.len() < to ==> whole(runs)[from + head.len()] == separator,
        whole(rest) == whole(runs).skip(to + 1),
    ensures
        placeholder::normalized(runs, dialect).text == whole(runs).take(i)
            + placeholder::hole_marker(dynamic) + placeholder::normalized(rest, dialect).text,
        values(placeholder::normalized(runs, dialect).paths) == trimmed_text(head) + values(
            placeholder::normalized(rest, dialect).paths,
        ),
        placeholder::normalized(runs, dialect).diagnostics.len() == placeholder::normalized(
            rest,
            dialect,
        ).diagnostics.len(),
{
    let bytes = whole(runs);
    let none = nothing_yet();
    let end = to + 1;
    lemma_norm(runs, runs, dialect);
    lemma_plain_until(runs, bytes, dialect, 0, 0, i, none);
    lemma_head_range(runs, bytes, from, head, to, separator);
    let before = placeholder::copied(runs, bytes, none, 0, i);
    let paths = placeholder::path_entry(
        runs,
        bytes,
        placeholder::path_range(bytes, from, to, separator),
    );
    let marker = placeholder::hole_marker(dynamic);
    let next = placeholder::replaced(runs, before, paths, marker, end);
    lemma_rest(runs, rest, bytes, dialect, end, end, next);
    let more = placeholder::normalized(rest, dialect);
    assert(bytes.subrange(end, end) =~= Seq::empty());
    assert(before.text =~= bytes.take(i));
    assert(next.text + bytes.subrange(end, end) + more.text =~= bytes.take(i) + marker
        + more.text);
    assert(next.paths =~= paths);
}

/// A `#{}` or `${}` in a text gives its mark in place of it and its path: all
/// that stands in it before the first comma, without the whitespace around it.
/// What follows gives what it gives alone.
pub proof fn law_braced_placeholder(
    runs: Seq<RunView>,
    rest: Seq<RunView>,
    dialect: Dialect,
    before: Seq<u8>,
    dynamic: bool,
    head: Seq<u8>,
    options: Seq<u8>,
    after: Seq<u8>,
)
    requires
        whole(runs) == before + seq![
            if dynamic {
                0x24u8
            } else {
                0x23
            },
            0x7B,
        ] + head + options + seq![0x7Du8] + after,
        no_delimiter(before),
        balanced(head + options),
        lacks(head, 0x2C),
        options.len() > 0 ==> options[0] == 0x2C,
        whole(rest) == after,
    ensures
        placeholder::normalized(runs, dialect).text == before + encode_utf8(
            if dynamic {
                "__BATIS_DYN__"@
            } else {
                "?"@
            },
        ) + placeholder::normalized(rest, dialect).text,
        values(placeholder::normalized(runs, dialect).paths) == trimmed_text(head) + values(
            placeholder::normalized(rest, dialect).paths,
        ),
        placeholder::normalized(runs, dialect).diagnostics.len() == placeholder::normalized(
            rest,
            dialect,
        ).diagnostics.len(),
{
    let bytes = whole(runs);
    let i = before.len() as int;
    let content = head + options;
    let from = i + 2;
    let to = from + content.len();
    assert forall|k: int| 0 <= k < i implies #[trigger] bytes[k] != 0x23 && bytes[k] != 0x24 by {
        assert(bytes[k] == before[k]);
    }
    assert(bytes[i] == (if dynamic {
        0x24u8
    } else {
        0x23
    }));
    assert(bytes[i + 1] == 0x7B);
    assert forall|k: int| 0 <= k < content.len() implies bytes[from + k]
        == #[trigger] content[k] by {}
    assert forall|k: int| 0 <= k < head.len() implies bytes[from + k] == #[trigger] head[k] by {
        assert(content[k] == head[k]);
    }
    assert(bytes[to] == 0x7D);
    lemma_close(bytes, from, content, 0);
    assert(bytes.skip(to + 1) =~= after);
    assert(bytes.take(i) =~= before);
    if options.len() > 0 {
        assert(content[head.len() as int] == options[0]);
        assert(bytes[from + head.len()] == content[head.len() as int]);
    }
    lemma_hole(runs, rest, dialect, i, head, from, to, dynamic, 0x2C);
}

/// An iBatis placeholder between two `#` or `$` without a blank between them
/// gives its mark in place of it and its path: all that stands in it before the
/// first colon, without the whitespace around it.
pub proof fn law_inline_placeholder(
    runs: Seq<RunView>,
    rest: Seq<RunView>,
    before: Seq<u8>,
    dynamic: bool,
    head: Seq<u8>,
    options: Seq<u8>,
    after: Seq<u8>,
)
    requires
        ({
            let d = if dynamic {
                0x24u8
            } else {
                0x23
            };
            let content = head + options;
            &&& whole(runs) == before + seq![d] + head + options + seq![d] + after
            &&& content.len() > 0
            &&& content[0] != 0x7B
            &&& lacks(content, d)
            &&& forall|k: int|
                0 <= k < content.len() ==> #[trigger] content[k] != 0x20 && content[k] != 0x09
                    && content[k] != 0x0A && content[k] != 0x0C && content[k] != 0x0D
        }),
        no_delimiter(before),
        lacks(head, 0x3A),
        options.len() > 0 ==> options[0] == 0x3A,
        whole(rest) == after,
    ensures
        placeholder::normalized(runs, Dialect::Ibatis).text == before + encode_utf8(
            if dynamic {
                "__BATIS_DYN__"@
            } else {
                "?"@
            },
        ) + placeholder::normalized(rest, Dialect::Ibatis).text,
        values(placeholder::normalized(runs, Dialect::Ibatis).paths) == trimmed_text(head)
            + values(placeholder::normalized(rest, Dialect::Ibatis).paths),
        placeholder::normalized(runs, Dialect::Ibatis).diagnostics.len()
            == placeholder::normalized(rest, Dialect::Ibatis).diagnostics.len(),
{
    let bytes = whole(runs);
    let d = if dynamic {
        0x24u8
    } else {
        0x23
    };
    let i = before.len() as int;
    let content = head + options;
    let from = i + 1;
    let to = from + content.len();
    assert forall|k: int| 0 <= k < i implies #[trigger] bytes[k] != 0x23 && bytes[k] != 0x24 by {
        assert(bytes[k] == before[k]);
    }
    assert(bytes[i] == d);
    assert forall|k: int| 0 <= k < content.len() implies bytes[from + k]
        == #[trigger] content[k] by {}
    assert forall|k: int| 0 <= k < head.len() implies bytes[from + k] == #[trigger] head[k] by {
        assert(content[k] == head[k]);
    }
    assert(bytes[to] == d);
    assert(bytes[i + 1] == content[0]);
    lemma_first(bytes, d, from, to, content);
    assert(!placeholder::has_blank(bytes, from, to)) by {
        if placeholder::has_blank(bytes, from, to) {
            let k = choose|k: int| from <= k < to && text::is_blank(#[trigger] bytes[k]);
            assert(bytes[from + (k - from)] == content[k - from]);
        }
    }
    assert(bytes.skip(to + 1) =~= after);
    assert(bytes.take(i) =~= before);
    if options.len() > 0 {
        assert(content[head.len() as int] == options[0]);
        assert(bytes[from + head.len()] == content[head.len() as int]);
    }
    lemma_hole(runs, rest, Dialect::Ibatis, i, head, from, to, dynamic, 0x3A);
}

proof fn lemma_first(bytes: Seq<u8>, d: u8, from: int, to: int, content: Seq<u8>)
    requires
        0 <= from <= to < bytes.len(),
        to == from + content.len(),
        forall|k: int| 0 <= k < content.len() ==> bytes[from + k] == #[trigger] content[k],
        lacks(content, d),
        bytes[to] == d,
    ensures
        text::first_byte(bytes, d, from) == Some(to),
    decreases content.len(),
{
    if content.len() > 0 {
        assert(bytes[from + 0] == content[0]);
        let rest = content.skip(1);
        assert forall|k: int| 0 <= k < rest.len() implies bytes[from + 1 + k]
            == #[trigger] rest[k] by {
            assert(bytes[from + (k + 1)] == content[k + 1]);
        }
        assert forall|k: int| 0 <= k < rest.len() implies #[trigger] rest[k] != d by {
            assert(content[k + 1] != d);
        }
        lemma_first(bytes, d, from + 1, to, rest);
    }
}

/// A doubled `#` or `$` of iBatis stands for one and gives no path.
pub proof fn law_doubled_delimiter(
    runs: Seq<RunView>,
    rest: Seq<RunView>,
    before: Seq<u8>,
    d: u8,
    after: Seq<u8>,
)
    requires
        d == 0x23 || d == 0x24,
        whole(runs) == before + seq![d, d] + after,
        no_delimiter(before),
        whole(rest) == after,
    ensures
        placeholder::normalized(runs, Dialect::Ibatis).text == before + seq![d]
            + placeholder::normalized(rest, Dialect::Ibatis).text,
        values(placeholder::normalized(runs, Dialect::Ibatis).paths) == values(
            placeholder::normalized(rest, Dialect::Ibatis).paths,
        ),
{
    let bytes = whole(runs);
    let none = nothing_yet();
    let dialect = Dialect::Ibatis;
    let i = before.len() as int;
    assert forall|k: int| 0 <= k < i implies #[trigger] bytes[k] != 0x23 && bytes[k] != 0x24 by {
        assert(bytes[k] == before[k]);
    }
    assert(bytes[i] == d && bytes[i + 1] == d);
    lemma_norm(runs, runs, dialect);
    lemma_plain_until(runs, bytes, dialect, 0, 0, i, none);
    let copied = placeholder::copied(runs, bytes, none, 0, i);
    let next = placeholder::replaced(
        runs,
        copied,
        Seq::empty(),
        bytes.subrange(i, i + 1),
        i + 2,
    );
    assert(bytes.skip(i + 2) =~= after);
    lemma_rest(runs, rest, bytes, dialect, i + 2, i + 2, next);
    let more = placeholder::normalized(rest, dialect);
    assert(bytes.subrange(i + 2, i + 2) =~= Seq::empty());
    assert(copied.text =~= before);
    assert(bytes.subrange(i, i + 1) =~= seq![d]);
    assert(next.text + bytes.subrange(i + 2, i + 2) + more.text =~= before + seq![d] + more.text);
    assert(next.paths =~= Seq::empty());
    assert(values(next.paths) + values(more.paths) =~= values(more.paths));
}

/// In MyBatis a `#` or `$` without a brace behind it stands for itself.
pub proof fn law_lone_delimiter(
    runs: Seq<RunView>,
    rest: Seq<RunView>,
    dialect: Dialect,
    before: Seq<u8>,
    d: u8,
    after: Seq<u8>,
)
    requires
        dialect != Dialect::Ibatis,
        d == 0x23 || d == 0x24,
        whole(runs) == before + seq![d] + after,
        no_delimiter(before),
        after.len() > 0 ==> after[0] != 0x7B,
        whole(rest) == after,
    ensures
        placeholder::normalized(runs, dialect).text == before + seq![d] + placeholder::normalized(
            rest,
            dialect,
        ).text,
        values(placeholder::normalized(runs, dialect).paths) == values(
            placeholder::normalized(rest, dialect).paths,
        ),
{
    let bytes = whole(runs);
    let none = nothing_yet();
    let i = before.len() as int;
    assert forall|k: int| 0 <= k < i implies #[trigger] bytes[k] != 0x23 && bytes[k] != 0x24 by {
        assert(bytes[k] == before[k]);
    }
    assert(bytes[i] == d);
    if after.len() > 0 {
        assert(bytes[i + 1] == after[0]);
    }
    lemma_norm(runs, runs, dialect);
    lemma_plain_until(runs, bytes, dialect, 0, 0, i, none);
    assert(bytes.skip(i + 1) =~= after);
    lemma_rest(runs, rest, bytes, dialect, 0, i + 1, none);
    let more = placeholder::normalized(rest, dialect);
    assert(bytes.subrange(0, i + 1) =~= before + seq![d]);
    assert(none.text + bytes.subrange(0, i + 1) + more.text =~= before + seq![d] + more.text);
    assert(values(none.paths) + values(more.paths) =~= values(more.paths));
}

/// A `#{` or `${` that is never closed is reported once, and the text from it on
/// is kept.
pub proof fn law_unclosed_placeholder(
    runs: Seq<RunView>,
    dialect: Dialect,
    before: Seq<u8>,
    d: u8,
    after: Seq<u8>,
)
    requires
        d == 0x23 || d == 0x24,
        whole(runs) == before + seq![d, 0x7B] + after,
        no_delimiter(before),
        lacks(after, 0x7D),
    ensures
        placeholder::normalized(runs, dialect).text == whole(runs),
        placeholder::normalized(runs, dialect).paths.len() == 0,
        placeholder::normalized(runs, dialect).diagnostics.len() == 1,
{
    let bytes = whole(runs);
    let start = Norm {
        text: Seq::empty(),
        map: seq![(0int, placeholder::raw_in(runs, 0, 0))],
        paths: Seq::empty(),
        diagnostics: Seq::empty(),
    };
    let i = before.len() as int;
    assert forall|k: int| 0 <= k < i implies #[trigger] bytes[k] != 0x23 && bytes[k] != 0x24 by {
        assert(bytes[k] == before[k]);
    }
    assert(bytes[i] == d && bytes[i + 1] == 0x7B);
    lemma_plain_until(runs, bytes, dialect, 0, 0, i, start);
    assert forall|k: int| i + 2 <= k < bytes.len() implies #[trigger] bytes[k] != 0x7D by {
        assert(bytes[k] == after[k - i - 2]);
    }
    lemma_never_closed(bytes, i + 2, 1);
    assert(bytes.subrange(0, bytes.len() as int) =~= bytes);
    assert(start.text + bytes =~= bytes);
}

proof fn lemma_never_closed(bytes: Seq<u8>, j: int, depth: int)
    requires
        0 <= j,
        forall|k: int| j <= k < bytes.len() ==> #[trigger] bytes[k] != 0x7D,
    ensures
        placeholder::braces_close(bytes, j, depth) is None,
    decreases bytes.len() - j,
{
    if j < bytes.len() {
        lemma_never_closed(bytes, j + 1, depth);
        lemma_never_closed(bytes, j + 1, depth + 1);
    }
}

/// In iBatis a `#` or `$` that is neither doubled nor followed by a brace stands
/// for itself where no other follows, or where a blank stands before the next.
pub proof fn law_lone_ibatis_delimiter(
    runs: Seq<RunView>,
    rest: Seq<RunView>,
    before: Seq<u8>,
    d: u8,
    after: Seq<u8>,
)
    requires
        d == 0x23 || d == 0x24,
        whole(runs) == before + seq![d] + after,
        no_delimiter(before),
        after.len() > 0 ==> after[0] != 0x7B && after[0] != d,
        lacks(after, d) || exists|b: int|
            0 <= b < after.len() && text::is_blank(#[trigger] after[b]) && lacks(after.take(b), d),
        whole(rest) == after,
    ensures
        placeholder::normalized(runs, Dialect::Ibatis).text == before + seq![d]
            + placeholder::normalized(rest, Dialect::Ibatis).text,
        values(placeholder::normalized(runs, Dialect::Ibatis).paths) == values(
            placeholder::normalized(rest, Dialect::Ibatis).paths,
        ),
{
    let bytes = whole(runs);
    let dialect = Dialect::Ibatis;
    let none = nothing_yet();
    let i = before.len() as int;
    assert forall|k: int| 0 <= k < i implies #[trigger] bytes[k] != 0x23 && bytes[k] != 0x24 by {
        assert(bytes[k] == before[k]);
    }
    assert(bytes[i] == d);
    if after.len() > 0 {
        assert(bytes[i + 1] == after[0]);
    }
    text::lemma_first_byte(bytes, d, i + 1);
    if let Some(close) = text::first_byte(bytes, d, i + 1) {
        assert(bytes[close] == after[close - i - 1]);
        assert(!lacks(after, d));
        let b = choose|b: int|
            0 <= b < after.len() && text::is_blank(#[trigger] after[b]) && lacks(after.take(b), d);
        if close - i - 1 < b {
            assert(after.take(b)[close - i - 1] == d);
        }
        assert(close != i + 1 + b);
        assert(bytes[i + 1 + b] == after[b]);
        assert(placeholder::has_blank(bytes, i + 1, close));
    }
    assert(placeholder::mark_at(bytes, dialect, i) == Mark::Plain);
    lemma_norm(runs, runs, dialect);
    lemma_plain_until(runs, bytes, dialect, 0, 0, i, none);
    assert(bytes.skip(i + 1) =~= after);
    lemma_rest(runs, rest, bytes, dialect, 0, i + 1, none);
    let more = placeholder::normalized(rest, dialect);
    assert(bytes.subrange(0, i + 1) =~= before + seq![d]);
    assert(none.text + bytes.subrange(0, i + 1) + more.text =~= before + seq![d] + more.text);
    assert(values(none.paths) + values(more.paths) =~= values(more.paths));
}

} // verus!
