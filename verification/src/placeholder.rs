//! Placeholder normalization: `#{expr}` and iBatis `#expr#` become `?`,
//! `${expr}` and iBatis `$expr$` become [`dyn_marker`], and the path inside is
//! collected.
//!
//! Adjacent runs of text are scanned as one, so a placeholder that straddles
//! the boundary between text and CDATA is one placeholder. Positions are taken
//! back to the source through the run they fall in: exactly where the run's
//! text is its source bytes, to the run's start where references in it were
//! resolved.
use crate::attrs::diagnostic;
use crate::body;
use crate::body::SegmentView;
use crate::model;
use crate::model::{ByteSpan, DiagCode, Diagnostic, DiagnosticView, Dialect, Spanned};
use crate::text;
use crate::text::{blank, find_byte, push, slice, trim_end, trim_start};
use vstd::prelude::*;
use vstd::string::*;
use vstd::utf8::*;

verus! {

pub const HASH: u8 = 0x23;

pub const DOLLAR: u8 = 0x24;

pub const OPEN_BRACE: u8 = 0x7B;

pub const CLOSE_BRACE: u8 = 0x7D;

pub const COMMA: u8 = 0x2C;

pub const COLON: u8 = 0x3A;

/// What stands for a `${}` in normalized text.
pub fn dyn_marker() -> (marker: &'static str)
    ensures
        marker@ == "__BATIS_DYN__"@,
{
    "__BATIS_DYN__"
}

// ---- runs ---------------------------------------------------------------

/// One run of text: its decoded value and its span in the source.
pub struct TextRun<'a> {
    pub decoded: &'a str,
    pub raw_span: ByteSpan,
}

pub struct RunView {
    pub decoded: Seq<u8>,
    pub span: ByteSpan,
}

impl<'a> View for TextRun<'a> {
    type V = RunView;

    open spec fn view(&self) -> RunView {
        RunView { decoded: self.decoded.spec_bytes(), span: self.raw_span }
    }
}

/// The text of the first `n` runs.
pub open spec fn merged_text(runs: Seq<RunView>, n: int) -> Seq<u8>
    decreases n,
{
    if n <= 0 {
        Seq::empty()
    } else {
        merged_text(runs, n - 1) + runs[n - 1].decoded
    }
}

pub open spec fn run_start(runs: Seq<RunView>, k: int) -> int {
    merged_text(runs, k).len() as int
}

/// A run whose text is as long as its source bytes.
pub open spec fn is_verbatim(run: RunView) -> bool {
    run.decoded.len() == run.span.end - run.span.start
}

/// The last run among the first `k + 1` that starts at or before `offset`.
pub open spec fn run_below(runs: Seq<RunView>, k: int, offset: int) -> int
    decreases k,
{
    if k <= 0 {
        0
    } else if run_start(runs, k) <= offset {
        k
    } else {
        run_below(runs, k - 1, offset)
    }
}

/// The run that `offset` of the merged text falls in.
pub open spec fn run_at(runs: Seq<RunView>, offset: int) -> int {
    run_below(runs, runs.len() - 1, offset)
}

/// Where `offset` of the merged text stands in the source, seen from run `k`.
pub open spec fn raw_in(runs: Seq<RunView>, k: int, offset: int) -> u32 {
    if is_verbatim(runs[k]) {
        (runs[k].span.start + (offset - run_start(runs, k))) as u32
    } else {
        runs[k].span.start
    }
}

pub open spec fn raw_at(runs: Seq<RunView>, offset: int) -> u32 {
    raw_in(runs, run_at(runs, offset), offset)
}

/// Runs whose spans are ranges.
pub open spec fn runs_ok(runs: Seq<RunView>) -> bool {
    &&& runs.len() > 0
    &&& forall|k: int|
        0 <= k < runs.len() ==> valid_utf8((#[trigger] runs[k]).decoded) && runs[k].span.start
            <= runs[k].span.end
}

// ---- scanning -----------------------------------------------------------

/// The position of the `}` that closes `depth` open braces, at or after `j`.
pub open spec fn braces_close(bytes: Seq<u8>, j: int, depth: int) -> Option<int>
    decreases bytes.len() - j,
{
    if j >= bytes.len() {
        None
    } else if bytes[j] == OPEN_BRACE {
        braces_close(bytes, j + 1, depth + 1)
    } else if bytes[j] == CLOSE_BRACE {
        if depth <= 1 {
            Some(j)
        } else {
            braces_close(bytes, j + 1, depth - 1)
        }
    } else {
        braces_close(bytes, j + 1, depth)
    }
}

pub open spec fn has_blank(bytes: Seq<u8>, from: int, to: int) -> bool {
    exists|k: int| from <= k < to && text::is_blank(#[trigger] bytes[k])
}

/// What stands at a position of the merged text.
pub enum Mark {
    /// A character that stands for itself.
    Plain,
    /// A placeholder: its content, the position after it, whether it is
    /// substituted as text, and the separator that ends its path.
    Hole { from: int, to: int, end: int, dynamic: bool, separator: u8 },
    /// A doubled delimiter of iBatis, which stands for one.
    Doubled,
    /// A placeholder that is never closed.
    Unclosed,
}

pub open spec fn mark_at(bytes: Seq<u8>, dialect: Dialect, i: int) -> Mark {
    let delimiter = bytes[i];
    if delimiter != HASH && delimiter != DOLLAR {
        Mark::Plain
    } else if i + 1 < bytes.len() && bytes[i + 1] == OPEN_BRACE {
        match braces_close(bytes, i + 2, 1) {
            Some(close) => Mark::Hole {
                from: i + 2,
                to: close,
                end: close + 1,
                dynamic: delimiter == DOLLAR,
                separator: COMMA,
            },
            None => Mark::Unclosed,
        }
    } else if dialect != Dialect::Ibatis {
        Mark::Plain
    } else if i + 1 < bytes.len() && bytes[i + 1] == delimiter {
        Mark::Doubled
    } else {
        match text::first_byte(bytes, delimiter, i + 1) {
            Some(close) => if has_blank(bytes, i + 1, close) {
                Mark::Plain
            } else {
                Mark::Hole {
                    from: i + 1,
                    to: close,
                    end: close + 1,
                    dynamic: delimiter == DOLLAR,
                    separator: COLON,
                }
            },
            None => Mark::Plain,
        }
    }
}

/// The first `separator` in `bytes[from..to]`, or `to`.
pub open spec fn before_separator(bytes: Seq<u8>, from: int, to: int, separator: u8) -> int
    decreases to - from,
{
    if from >= to || bytes[from] == separator {
        from
    } else {
        before_separator(bytes, from + 1, to, separator)
    }
}

/// The path inside a placeholder: what stands before the first separator,
/// without the whitespace around it.
pub open spec fn path_range(bytes: Seq<u8>, from: int, to: int, separator: u8) -> (int, int) {
    let cut = before_separator(bytes, from, to, separator);
    let start = text::trimmed_start(bytes, from, cut);
    (start, text::trimmed_end(bytes, start, cut))
}

// ---- normalization ------------------------------------------------------

/// The state of the scan.
pub struct Norm {
    pub text: Seq<u8>,
    /// `(offset in text, offset in source)` of each segment's start.
    pub map: Seq<(int, u32)>,
    pub paths: Seq<Spanned<Seq<char>>>,
    pub diagnostics: Seq<DiagnosticView>,
}

/// The map entries for the run starts strictly between `pos` and `to`, from run
/// `k` on; `base` is what has to be added to an offset of the merged text.
pub open spec fn junctions(
    runs: Seq<RunView>,
    k: int,
    pos: int,
    to: int,
    base: int,
) -> Seq<(int, u32)>
    decreases runs.len() - k,
{
    if k >= runs.len() {
        Seq::empty()
    } else if pos < run_start(runs, k) < to {
        seq![(base + run_start(runs, k), runs[k].span.start)] + junctions(
            runs,
            k + 1,
            run_start(runs, k),
            to,
            base,
        )
    } else {
        junctions(runs, k + 1, pos, to, base)
    }
}

/// Copies `merged[from..to]` as it stands, with a map entry at each run that
/// starts inside.
pub open spec fn copied(runs: Seq<RunView>, merged: Seq<u8>, st: Norm, from: int, to: int) -> Norm {
    if from >= to {
        st
    } else {
        Norm {
            text: st.text + merged.subrange(from, to),
            map: st.map + junctions(runs, 0, from, to, st.text.len() - from),
            paths: st.paths,
            diagnostics: st.diagnostics,
        }
    }
}

/// The paths of a placeholder whose path is at `range`: none where it is empty.
/// The span is exact for a path inside one run that is its source bytes, and a
/// point at the path's start otherwise.
pub open spec fn path_entry(runs: Seq<RunView>, merged: Seq<u8>, range: (int, int)) -> Seq<
    Spanned<Seq<char>>,
> {
    let (from, to) = range;
    if from >= to {
        Seq::empty()
    } else {
        let first = run_at(runs, from);
        let last = run_at(runs, to - 1);
        let start = raw_in(runs, first, from);
        let span = if run_start(runs, first) == run_start(runs, last) && is_verbatim(runs[first]) {
            ByteSpan { start, end: raw_in(runs, first, to) }
        } else {
            ByteSpan { start, end: start }
        };
        seq![Spanned { value: decode_utf8(merged.subrange(from, to)), span }]
    }
}

/// Writes `marker` in place of what ends at `end`.
pub open spec fn replaced(
    runs: Seq<RunView>,
    st: Norm,
    paths: Seq<Spanned<Seq<char>>>,
    marker: Seq<u8>,
    end: int,
) -> Norm {
    Norm {
        text: st.text + marker,
        map: st.map.push(((st.text + marker).len() as int, raw_at(runs, end))),
        paths: st.paths + paths,
        diagnostics: st.diagnostics,
    }
}

pub open spec fn hole_marker(dynamic: bool) -> Seq<u8> {
    if dynamic {
        encode_utf8("__BATIS_DYN__"@)
    } else {
        encode_utf8("?"@)
    }
}

pub open spec fn unterminated(runs: Seq<RunView>) -> DiagnosticView {
    DiagnosticView {
        code: DiagCode::UnterminatedPlaceholder,
        span: Some(ByteSpan { start: runs[0].span.start, end: runs.last().span.end }),
        message: "placeholder was never closed"@,
    }
}

/// Scans the merged text from `i` on; what stands before `copy` has been
/// written.
pub open spec fn scan_from(
    runs: Seq<RunView>,
    merged: Seq<u8>,
    dialect: Dialect,
    copy: int,
    i: int,
    st: Norm,
) -> Norm
    decreases merged.len() - i,
{
    if i >= merged.len() {
        copied(runs, merged, st, copy, merged.len() as int)
    } else {
        match mark_at(merged, dialect, i) {
            Mark::Plain => scan_from(runs, merged, dialect, copy, i + 1, st),
            Mark::Unclosed => {
                let all = copied(runs, merged, st, copy, merged.len() as int);
                Norm {
                    text: all.text,
                    map: all.map,
                    paths: all.paths,
                    diagnostics: all.diagnostics.push(unterminated(runs)),
                }
            },
            Mark::Doubled => {
                let before = copied(runs, merged, st, copy, i);
                let next = replaced(
                    runs,
                    before,
                    Seq::empty(),
                    merged.subrange(i, i + 1),
                    i + 2,
                );
                scan_from(runs, merged, dialect, i + 2, i + 2, next)
            },
            Mark::Hole { from, to, end, dynamic, separator } => {
                let before = copied(runs, merged, st, copy, i);
                let paths = path_entry(runs, merged, path_range(merged, from, to, separator));
                let next = replaced(runs, before, paths, hole_marker(dynamic), end);
                if i < end <= merged.len() {
                    scan_from(runs, merged, dialect, end, end, next)
                } else {
                    next
                }
            },
        }
    }
}

/// The entries that have text after them.
pub open spec fn inner_entries(map: Seq<(int, u32)>, len: int) -> Seq<(int, u32)>
    decreases map.len(),
{
    if map.len() == 0 {
        map
    } else {
        let rest = inner_entries(map.drop_last(), len);
        if map.last().0 < len {
            rest.push(map.last())
        } else {
            rest
        }
    }
}

/// The normal form of the runs.
pub open spec fn normalized(runs: Seq<RunView>, dialect: Dialect) -> Norm {
    let merged = merged_text(runs, runs.len() as int);
    let start = Norm {
        text: Seq::empty(),
        map: seq![(0int, raw_in(runs, 0, 0))],
        paths: Seq::empty(),
        diagnostics: Seq::empty(),
    };
    let end = scan_from(runs, merged, dialect, 0, 0, start);
    Norm {
        text: end.text,
        map: inner_entries(end.map, end.text.len() as int),
        paths: end.paths,
        diagnostics: end.diagnostics,
    }
}

// ---- facts about runs and marks -----------------------------------------

/// The merged text is valid, and every run starts at a cut of it.
pub proof fn lemma_merged(runs: Seq<RunView>, k: int, n: int)
    requires
        runs_ok(runs),
        0 <= k <= n <= runs.len(),
    ensures
        valid_utf8(merged_text(runs, n)),
        run_start(runs, k) <= run_start(runs, n),
        text::is_cut(merged_text(runs, n), run_start(runs, k)),
        merged_text(runs, n).subrange(0, run_start(runs, k)) == merged_text(runs, k),
    decreases n,
{
    let all = merged_text(runs, n);
    if n > 0 {
        let before = merged_text(runs, n - 1);
        let last = runs[n - 1].decoded;
        assert(valid_utf8(last));
        if k < n {
            lemma_merged(runs, k, n - 1);
        } else {
            lemma_merged(runs, n - 1, n - 1);
        }
        valid_utf8_concat(before, last);
        if k < n {
            assert(all.subrange(0, run_start(runs, k)) =~= before.subrange(
                0,
                run_start(runs, k),
            ));
            if k == n - 1 && last.len() > 0 {
                assert(all[before.len() as int] == last[0]);
                text::lemma_cut_is_boundary(last, 0);
                assert(text::is_cut(last, 0));
            }
        } else {
            assert(all.subrange(0, all.len() as int) =~= all);
        }
    } else {
        assert(all.subrange(0, 0) =~= all);
    }
}

proof fn lemma_run_below(runs: Seq<RunView>, k: int, offset: int)
    requires
        runs_ok(runs),
        0 <= k < runs.len(),
        0 <= offset <= run_start(runs, k + 1),
    ensures
        0 <= run_below(runs, k, offset) <= k,
        run_start(runs, run_below(runs, k, offset)) <= offset <= run_start(
            runs,
            run_below(runs, k, offset) + 1,
        ),
    decreases k,
{
    if k > 0 && run_start(runs, k) > offset {
        lemma_run_below(runs, k - 1, offset);
    }
    if k == 0 {
        assert(run_start(runs, 0) == 0);
    }
}

/// The run that an offset falls in holds it.
pub proof fn lemma_run_at(runs: Seq<RunView>, offset: int)
    requires
        runs_ok(runs),
        0 <= offset <= run_start(runs, runs.len() as int),
    ensures
        0 <= run_at(runs, offset) < runs.len(),
        run_start(runs, run_at(runs, offset)) <= offset,
        offset <= run_start(runs, run_at(runs, offset)) + runs[run_at(runs, offset)].decoded.len(),
{
    lemma_run_below(runs, runs.len() - 1, offset);
    let k = run_at(runs, offset);
    assert(merged_text(runs, k + 1) == merged_text(runs, k) + runs[k].decoded);
}

pub proof fn lemma_braces_close(bytes: Seq<u8>, j: int, depth: int)
    ensures
        braces_close(bytes, j, depth) matches Some(close) ==> j <= close < bytes.len()
            && bytes[close] == CLOSE_BRACE,
    decreases bytes.len() - j,
{
    if j < bytes.len() {
        lemma_braces_close(bytes, j + 1, depth + 1);
        lemma_braces_close(bytes, j + 1, depth - 1);
        lemma_braces_close(bytes, j + 1, depth);
    }
}

/// The parts of a placeholder are in order, and between cuts.
pub proof fn lemma_mark(bytes: Seq<u8>, dialect: Dialect, i: int)
    requires
        valid_utf8(bytes),
        0 <= i < bytes.len(),
    ensures
        mark_at(bytes, dialect, i) !is Plain ==> text::is_cut(bytes, i),
        match mark_at(bytes, dialect, i) {
            Mark::Hole { from, to, end, .. } => {
                &&& i < from <= to < end <= bytes.len()
                &&& text::is_cut(bytes, from)
                &&& text::is_cut(bytes, to)
                &&& text::is_cut(bytes, end)
            },
            Mark::Doubled => i + 2 <= bytes.len() && text::is_cut(bytes, i + 1) && text::is_cut(
                bytes,
                i + 2,
            ),
            _ => true,
        },
{
    if mark_at(bytes, dialect, i) !is Plain {
        text::lemma_ascii_cuts(bytes, i);
        if i + 1 < bytes.len() && bytes[i + 1] < 0x80 {
            text::lemma_ascii_cuts(bytes, i + 1);
        }
        if i + 1 < bytes.len() && bytes[i + 1] == OPEN_BRACE {
            lemma_braces_close(bytes, i + 2, 1);
            if let Some(close) = braces_close(bytes, i + 2, 1) {
                text::lemma_ascii_cuts(bytes, close);
            }
        } else {
            text::lemma_first_byte(bytes, bytes[i], i + 1);
            if let Some(close) = text::first_byte(bytes, bytes[i], i + 1) {
                text::lemma_ascii_cuts(bytes, close);
            }
        }
    }
}

pub proof fn lemma_before_separator(bytes: Seq<u8>, from: int, to: int, separator: u8)
    requires
        0 <= from <= to <= bytes.len(),
        text::is_cut(bytes, to),
        separator < 0x80,
    ensures
        from <= before_separator(bytes, from, to, separator) <= to,
        text::is_cut(bytes, before_separator(bytes, from, to, separator)),
    decreases to - from,
{
    if from < to && bytes[from] != separator {
        lemma_before_separator(bytes, from + 1, to, separator);
    }
}

/// The path of a placeholder lies in its content, between cuts.
pub proof fn lemma_path_range(bytes: Seq<u8>, from: int, to: int, separator: u8)
    requires
        valid_utf8(bytes),
        0 <= from <= to <= bytes.len(),
        text::is_cut(bytes, from),
        text::is_cut(bytes, to),
        separator < 0x80,
    ensures
        from <= path_range(bytes, from, to, separator).0 <= path_range(
            bytes,
            from,
            to,
            separator,
        ).1 <= to,
        text::is_cut(bytes, path_range(bytes, from, to, separator).0),
        text::is_cut(bytes, path_range(bytes, from, to, separator).1),
{
    let cut = before_separator(bytes, from, to, separator);
    lemma_before_separator(bytes, from, to, separator);
    text::lemma_trimmed_start(bytes, from, cut);
    text::lemma_trimmed_end(bytes, text::trimmed_start(bytes, from, cut), cut);
}

// ---- the scanner --------------------------------------------------------

/// Normalized text with its map, the paths found and the anomalies met.
pub struct NormalizedSegment {
    pub text: String,
    /// `(offset in text, offset in source)` of each segment's start.
    pub span_map: Vec<(usize, u32)>,
    pub property_paths: Vec<Spanned<String>>,
    pub diagnostics: Vec<Diagnostic>,
}

/// Map entries with their offsets as integers.
pub open spec fn entries(map: Seq<(usize, u32)>) -> Seq<(int, u32)> {
    Seq::new(map.len(), |i: int| (map[i].0 as int, map[i].1))
}

impl View for NormalizedSegment {
    type V = Norm;

    open spec fn view(&self) -> Norm {
        Norm {
            text: encode_utf8(self.text@),
            map: entries(self.span_map@),
            paths: model::deep(self.property_paths@),
            diagnostics: model::deep(self.diagnostics@),
        }
    }
}

/// Where a run lies in the merged text, and how to get back to the source.
struct RunLayout {
    merged_start: usize,
    raw_span: ByteSpan,
    verbatim: bool,
}

spec fn layout_of(runs: Seq<RunView>, layout: Seq<RunLayout>, merged: Seq<u8>) -> bool {
    &&& runs_ok(runs)
    &&& merged == merged_text(runs, runs.len() as int)
    &&& layout.len() == runs.len()
    &&& forall|k: int|
        0 <= k < runs.len() ==> {
            &&& (#[trigger] layout[k]).merged_start == run_start(runs, k)
            &&& layout[k].raw_span == runs[k].span
            &&& layout[k].verbatim == is_verbatim(runs[k])
        }
}

/// The index of the run that `offset` falls in.
fn layout_for(
    layout: &Vec<RunLayout>,
    offset: usize,
    Ghost(runs): Ghost<Seq<RunView>>,
    Ghost(merged): Ghost<Seq<u8>>,
) -> (k: usize)
    requires
        layout_of(runs, layout@, merged),
        offset <= merged.len(),
    ensures
        k == run_at(runs, offset as int),
        k < layout@.len(),
{
    let mut k: usize = layout.len() - 1;
    while k > 0
        invariant
            layout_of(runs, layout@, merged),
            k < layout@.len(),
            run_below(runs, k as int, offset as int) == run_at(runs, offset as int),
        decreases k,
    {
        if layout[k].merged_start <= offset {
            return k;
        }
        k -= 1;
    }
    k
}

/// Where `offset` stands in the source, seen from run `k`.
fn raw_offset(
    layout: &Vec<RunLayout>,
    k: usize,
    offset: usize,
    Ghost(runs): Ghost<Seq<RunView>>,
    Ghost(merged): Ghost<Seq<u8>>,
) -> (raw: u32)
    requires
        layout_of(runs, layout@, merged),
        k < layout@.len(),
        run_start(runs, k as int) <= offset <= run_start(runs, k as int)
            + runs[k as int].decoded.len(),
    ensures
        raw == raw_in(runs, k as int, offset as int),
{
    let run = &layout[k];
    if run.verbatim {
        run.raw_span.start + (offset - run.merged_start) as u32
    } else {
        run.raw_span.start
    }
}

fn raw_for(
    layout: &Vec<RunLayout>,
    offset: usize,
    Ghost(runs): Ghost<Seq<RunView>>,
    Ghost(merged): Ghost<Seq<u8>>,
) -> (raw: u32)
    requires
        layout_of(runs, layout@, merged),
        offset <= merged.len(),
    ensures
        raw == raw_at(runs, offset as int),
{
    proof {
        lemma_run_at(runs, offset as int);
    }
    let k = layout_for(layout, offset, Ghost(runs), Ghost(merged));
    raw_offset(layout, k, offset, Ghost(runs), Ghost(merged))
}

/// Copies `merged[from..to]` to the end of `result`.
fn flush_literal(
    result: &mut NormalizedSegment,
    merged: &str,
    layout: &Vec<RunLayout>,
    from: usize,
    to: usize,
    Ghost(runs): Ghost<Seq<RunView>>,
)
    requires
        layout_of(runs, layout@, merged.spec_bytes()),
        from <= to,
        text::is_cut(merged.spec_bytes(), from as int),
        text::is_cut(merged.spec_bytes(), to as int),
    ensures
        final(result)@ == copied(runs, merged.spec_bytes(), old(result)@, from as int, to as int),
{
    if from >= to {
        return ;
    }
    let ghost bytes = merged.spec_bytes();
    let ghost before = result@;
    let base: usize = result.text.as_str().as_bytes().len();
    push(&mut result.text, slice(merged, from, to));
    let len: usize = result.text.as_str().as_bytes().len();
    assert(len == base + (to - from));
    let mut pos = from;
    let mut k: usize = 0;
    let ghost all = junctions(runs, 0, from as int, to as int, base - from);
    assert(entries(result.span_map@) + all =~= before.map + all);
    while k < layout.len()
        invariant
            layout_of(runs, layout@, bytes),
            k <= layout@.len(),
            from <= pos <= to,
            base + (to - from) <= usize::MAX,
            all == junctions(runs, 0, from as int, to as int, base - from),
            before.map + all == entries(result.span_map@) + junctions(
                runs,
                k as int,
                pos as int,
                to as int,
                base - from,
            ),
            encode_utf8(result.text@) == before.text + bytes.subrange(from as int, to as int),
            model::deep(result.property_paths@) == before.paths,
            model::deep(result.diagnostics@) == before.diagnostics,
        decreases layout@.len() - k,
    {
        let start: usize = layout[k].merged_start;
        if pos < start && start < to {
            let ghost map = result.span_map@;
            let raw = layout[k].raw_span.start;
            let at: usize = base + (start - from);
            result.span_map.push((at, raw));
            assert(entries(result.span_map@) =~= entries(map).push((at as int, raw)));
            assert(before.map + all =~= entries(result.span_map@) + junctions(
                runs,
                k + 1,
                start as int,
                to as int,
                base - from,
            ));
            pos = start;
        }
        k += 1;
    }
    assert(entries(result.span_map@) =~= before.map + all);
}

/// The position of the `}` that closes the brace before `from`.
pub fn consume_braced(bytes: &[u8], from: usize) -> (r: Option<usize>)
    requires
        0 < from <= bytes@.len(),
    ensures
        match r {
            Some(close) => braces_close(bytes@, from as int, 1) == Some(close as int) && from
                <= close < bytes@.len(),
            None => braces_close(bytes@, from as int, 1) is None,
        },
{
    let mut depth: usize = 1;
    let mut j = from;
    while j < bytes.len()
        invariant
            0 < from <= j <= bytes@.len(),
            1 <= depth <= j - from + 1,
            braces_close(bytes@, j as int, depth as int) == braces_close(bytes@, from as int, 1),
        decreases bytes@.len() - j,
    {
        if bytes[j] == OPEN_BRACE {
            depth += 1;
        } else if bytes[j] == CLOSE_BRACE {
            if depth == 1 {
                return Some(j);
            }
            depth -= 1;
        }
        j += 1;
    }
    None
}

fn any_blank(bytes: &[u8], from: usize, to: usize) -> (r: bool)
    requires
        from <= to <= bytes@.len(),
    ensures
        r == has_blank(bytes@, from as int, to as int),
{
    let mut k = from;
    while k < to
        invariant
            from <= k <= to <= bytes@.len(),
            forall|j: int| from <= j < k ==> !text::is_blank(#[trigger] bytes@[j]),
        decreases to - k,
    {
        if blank(bytes[k]) {
            assert(text::is_blank(bytes@[k as int]));
            return true;
        }
        k += 1;
    }
    false
}

pub fn separator_at(bytes: &[u8], from: usize, to: usize, separator: u8) -> (cut: usize)
    requires
        from <= to <= bytes@.len(),
    ensures
        cut == before_separator(bytes@, from as int, to as int, separator),
        from <= cut <= to,
{
    let mut k = from;
    while k < to && bytes[k] != separator
        invariant
            from <= k <= to <= bytes@.len(),
            before_separator(bytes@, k as int, to as int, separator) == before_separator(
                bytes@,
                from as int,
                to as int,
                separator,
            ),
        decreases to - k,
    {
        k += 1;
    }
    k
}

/// Records the path inside the placeholder content `merged[from..to]`.
fn push_path(
    paths: &mut Vec<Spanned<String>>,
    merged: &str,
    layout: &Vec<RunLayout>,
    from: usize,
    to: usize,
    separator: u8,
    Ghost(runs): Ghost<Seq<RunView>>,
)
    requires
        layout_of(runs, layout@, merged.spec_bytes()),
        from <= to <= merged.spec_bytes().len(),
        text::is_cut(merged.spec_bytes(), from as int),
        text::is_cut(merged.spec_bytes(), to as int),
        separator < 0x80,
    ensures
        model::deep(final(paths)@) == model::deep(old(paths)@) + path_entry(
            runs,
            merged.spec_bytes(),
            path_range(merged.spec_bytes(), from as int, to as int, separator),
        ),
{
    broadcast use model::group_deep;

    let bytes = merged.as_bytes();
    let ghost range = path_range(bytes@, from as int, to as int, separator);
    proof {
        encode_utf8_valid_utf8(merged@);
        lemma_path_range(bytes@, from as int, to as int, separator);
    }
    let cut = separator_at(bytes, from, to, separator);
    let start = trim_start(bytes, from, cut);
    let end = trim_end(bytes, start, cut);
    if start >= end {
        assert(model::deep(paths@) =~= model::deep(old(paths)@) + path_entry(runs, bytes@, range));
        return ;
    }
    proof {
        lemma_run_at(runs, start as int);
        lemma_run_at(runs, end - 1);
        let first = run_at(runs, start as int);
        let last = run_at(runs, end - 1);
        if run_start(runs, first) == run_start(runs, last) {
            lemma_same_start(runs, start as int, end - 1);
        }
    }
    let first = layout_for(layout, start, Ghost(runs), Ghost(bytes@));
    let last = layout_for(layout, end - 1, Ghost(runs), Ghost(bytes@));
    let raw = raw_offset(layout, first, start, Ghost(runs), Ghost(bytes@));
    let span = if layout[first].merged_start == layout[last].merged_start
        && layout[first].verbatim {
        ByteSpan { start: raw, end: raw_offset(layout, first, end, Ghost(runs), Ghost(bytes@)) }
    } else {
        ByteSpan { start: raw, end: raw }
    };
    let value = slice(merged, start, end).to_owned();
    paths.push(Spanned { value, span });
    assert(model::deep(paths@) =~= model::deep(old(paths)@) + path_entry(runs, bytes@, range));
}

/// Two offsets whose runs start at one place fall in one run.
proof fn lemma_same_start(runs: Seq<RunView>, a: int, b: int)
    requires
        runs_ok(runs),
        0 <= a <= b < run_start(runs, runs.len() as int),
        run_start(runs, run_at(runs, a)) == run_start(runs, run_at(runs, b)),
    ensures
        run_at(runs, a) == run_at(runs, b),
        b < run_start(runs, run_at(runs, a)) + runs[run_at(runs, a)].decoded.len(),
{
    lemma_last_run(runs, runs.len() - 1, a);
    lemma_last_run(runs, runs.len() - 1, b);
}

/// `run_below` finds the last run that starts at or before the offset, and the
/// next one starts after it.
proof fn lemma_last_run(runs: Seq<RunView>, k: int, offset: int)
    requires
        runs_ok(runs),
        0 <= k < runs.len(),
        0 <= offset < run_start(runs, k + 1),
    ensures
        0 <= run_below(runs, k, offset) <= k,
        offset < run_start(runs, run_below(runs, k, offset) + 1),
        forall|j: int|
            0 <= j <= k && #[trigger] run_start(runs, j) <= offset ==> j <= run_below(
                runs,
                k,
                offset,
            ),
        run_start(runs, run_below(runs, k, offset)) <= offset,
        run_start(runs, run_below(runs, k, offset) + 1) == run_start(
            runs,
            run_below(runs, k, offset),
        ) + runs[run_below(runs, k, offset)].decoded.len(),
    decreases k,
{
    let r = run_below(runs, k, offset);
    if k > 0 && run_start(runs, k) > offset {
        lemma_last_run(runs, k - 1, offset);
    } else {
        if k == 0 {
            assert(run_start(runs, 0) == 0);
        }
        assert(merged_text(runs, r + 1) == merged_text(runs, r) + runs[r].decoded);
    }
}

/// Writes `marker` in place of what ends at `end`.
fn write_marker(
    result: &mut NormalizedSegment,
    layout: &Vec<RunLayout>,
    marker: &str,
    end: usize,
    Ghost(runs): Ghost<Seq<RunView>>,
    Ghost(merged): Ghost<Seq<u8>>,
)
    requires
        layout_of(runs, layout@, merged),
        end <= merged.len(),
    ensures
        final(result)@ == replaced(
            runs,
            old(result)@,
            Seq::empty(),
            encode_utf8(marker@),
            end as int,
        ),
{
    let ghost map = result.span_map@;
    push(&mut result.text, marker);
    let at: usize = result.text.as_str().as_bytes().len();
    let raw = raw_for(layout, end, Ghost(runs), Ghost(merged));
    result.span_map.push((at, raw));
    assert(entries(result.span_map@) =~= entries(map).push((at as int, raw)));
    assert(old(result)@.paths + Seq::<Spanned<Seq<char>>>::empty() =~= old(result)@.paths);
}

/// One character at `i`, which is one byte wide.
fn char_at<'a>(merged: &'a str, i: usize) -> (c: &'a str)
    requires
        i < merged.spec_bytes().len(),
        text::is_cut(merged.spec_bytes(), i as int),
        text::is_cut(merged.spec_bytes(), i + 1),
    ensures
        encode_utf8(c@) == merged.spec_bytes().subrange(i as int, i + 1),
{
    let len = merged.as_bytes().len();
    slice(merged, i, i + 1)
}

/// What the scanner finds at a position.
enum Found {
    Plain,
    Hole { from: usize, to: usize, end: usize, dynamic: bool, separator: u8 },
    Doubled,
    Unclosed,
}

spec fn found_view(found: Found) -> Mark {
    match found {
        Found::Plain => Mark::Plain,
        Found::Hole { from, to, end, dynamic, separator } => Mark::Hole {
            from: from as int,
            to: to as int,
            end: end as int,
            dynamic,
            separator,
        },
        Found::Doubled => Mark::Doubled,
        Found::Unclosed => Mark::Unclosed,
    }
}

fn find_mark(bytes: &[u8], dialect: Dialect, i: usize) -> (found: Found)
    requires
        i < bytes@.len(),
    ensures
        found_view(found) == mark_at(bytes@, dialect, i as int),
{
    let delimiter: u8 = bytes[i];
    if delimiter != HASH && delimiter != DOLLAR {
        return Found::Plain;
    }
    let len = bytes.len();
    if i + 1 < len && bytes[i + 1] == OPEN_BRACE {
        return match consume_braced(bytes, i + 2) {
            Some(close) => Found::Hole {
                from: i + 2,
                to: close,
                end: close + 1,
                dynamic: delimiter == DOLLAR,
                separator: COMMA,
            },
            None => Found::Unclosed,
        };
    }
    if dialect != Dialect::Ibatis {
        return Found::Plain;
    }
    if i + 1 < len && bytes[i + 1] == delimiter {
        return Found::Doubled;
    }
    match find_byte(bytes, i + 1, delimiter) {
        Some(close) => {
            if any_blank(bytes, i + 1, close) {
                Found::Plain
            } else {
                Found::Hole {
                    from: i + 1,
                    to: close,
                    end: close + 1,
                    dynamic: delimiter == DOLLAR,
                    separator: COLON,
                }
            }
        },
        None => Found::Plain,
    }
}

/// Lays the runs out one after the other.
fn merge_runs(runs: &[TextRun]) -> (r: (String, Vec<RunLayout>))
    requires
        runs_ok(model::deep(runs@)),
    ensures
        layout_of(model::deep(runs@), r.1@, encode_utf8(r.0@)),
{
    let ghost views = model::deep(runs@);
    let mut merged = String::new();
    let mut layout: Vec<RunLayout> = Vec::new();
    let mut k: usize = 0;
    while k < runs.len()
        invariant
            views == model::deep(runs@),
            runs_ok(views),
            k <= runs@.len(),
            layout@.len() == k,
            encode_utf8(merged@) == merged_text(views, k as int),
            forall|j: int|
                0 <= j < k ==> {
                    &&& (#[trigger] layout@[j]).merged_start == run_start(views, j)
                    &&& layout@[j].raw_span == views[j].span
                    &&& layout@[j].verbatim == is_verbatim(views[j])
                },
        decreases runs@.len() - k,
    {
        let run = &runs[k];
        assert(views[k as int] == run@);
        let merged_start: usize = merged.as_str().as_bytes().len();
        let len: usize = run.decoded.as_bytes().len();
        layout.push(
            RunLayout {
                merged_start,
                raw_span: run.raw_span,
                verbatim: len == (run.raw_span.end - run.raw_span.start) as usize,
            },
        );
        push(&mut merged, run.decoded);
        k += 1;
    }
    (merged, layout)
}

fn unterminated_placeholder(layout: &Vec<RunLayout>, Ghost(runs): Ghost<Seq<RunView>>, Ghost(
    merged,
): Ghost<Seq<u8>>) -> (d: Diagnostic)
    requires
        layout_of(runs, layout@, merged),
    ensures
        d@ == unterminated(runs),
{
    let last = layout.len() - 1;
    diagnostic(
        DiagCode::UnterminatedPlaceholder,
        Some(ByteSpan { start: layout[0].raw_span.start, end: layout[last].raw_span.end }),
        "placeholder was never closed".to_owned(),
    )
}

/// Drops the entries that no text follows.
pub fn drop_phantoms(map: &Vec<(usize, u32)>, len: usize) -> (kept: Vec<(usize, u32)>)
    ensures
        entries(kept@) == inner_entries(entries(map@), len as int),
{
    let mut kept: Vec<(usize, u32)> = Vec::new();
    let mut k: usize = 0;
    let ghost all = entries(map@);
    assert(entries(kept@) =~= all.take(0));
    while k < map.len()
        invariant
            k <= map@.len(),
            all == entries(map@),
            entries(kept@) == inner_entries(all.take(k as int), len as int),
        decreases map@.len() - k,
    {
        let entry = map[k];
        let ghost before = kept@;
        if entry.0 < len {
            kept.push(entry);
            assert(entries(kept@) =~= entries(before).push(all[k as int]));
        }
        assert(all.take(k + 1).drop_last() =~= all.take(k as int));
        k += 1;
    }
    assert(all.take(k as int) =~= all);
    kept
}

/// Normalizes a run of adjacent texts as one text.
pub fn normalize_merged(runs: &[TextRun], dialect: Dialect) -> (result: NormalizedSegment)
    requires
        runs_ok(model::deep(runs@)),
    ensures
        result@ == normalized(model::deep(runs@), dialect),
{
    broadcast use model::group_deep;

    let ghost views = model::deep(runs@);
    let (merged, layout) = merge_runs(runs);
    let merged = merged.as_str();
    let bytes = merged.as_bytes();
    proof {
        encode_utf8_valid_utf8(merged@);
        text::lemma_cut_is_boundary(bytes@, 0);
    }
    let first = raw_offset(&layout, 0, 0, Ghost(views), Ghost(bytes@));
    let mut span_map: Vec<(usize, u32)> = Vec::new();
    span_map.push((0, first));
    let mut result = NormalizedSegment {
        text: String::new(),
        span_map,
        property_paths: Vec::new(),
        diagnostics: Vec::new(),
    };
    let ghost start = Norm {
        text: Seq::empty(),
        map: seq![(0int, raw_in(views, 0, 0))],
        paths: Seq::empty(),
        diagnostics: Seq::empty(),
    };
    let ghost end_state = scan_from(views, bytes@, dialect, 0, 0, start);
    proof {
        assert(result@.text =~= start.text);
        assert(result@.map =~= start.map);
        assert(result@ == start);
    }
    let mut copy: usize = 0;
    let mut i: usize = 0;
    while i < bytes.len()
        invariant
            bytes@ == merged.spec_bytes(),
            valid_utf8(bytes@),
            layout_of(views, layout@, bytes@),
            copy <= i <= bytes@.len(),
            text::is_cut(bytes@, copy as int),
            scan_from(views, bytes@, dialect, copy as int, i as int, result@) == end_state,
        decreases bytes@.len() - i,
    {
        proof {
            lemma_mark(bytes@, dialect, i as int);
        }
        match find_mark(bytes, dialect, i) {
            Found::Plain => {
                i += 1;
            },
            Found::Unclosed => {
                flush_literal(&mut result, merged, &layout, copy, bytes.len(), Ghost(views));
                let ghost before = result@;
                let ghost old_diagnostics = result.diagnostics@;
                result.diagnostics.push(
                    unterminated_placeholder(&layout, Ghost(views), Ghost(bytes@)),
                );
                proof {
                    model::deep_push(old_diagnostics, result.diagnostics@.last());
                    assert(result.diagnostics@ =~= old_diagnostics.push(
                        result.diagnostics@.last(),
                    ));
                }
                copy = bytes.len();
                i = bytes.len();
            },
            Found::Doubled => {
                flush_literal(&mut result, merged, &layout, copy, i, Ghost(views));
                write_marker(
                    &mut result,
                    &layout,
                    char_at(merged, i),
                    i + 2,
                    Ghost(views),
                    Ghost(bytes@),
                );
                copy = i + 2;
                i = i + 2;
            },
            Found::Hole { from, to, end, dynamic, separator } => {
                flush_literal(&mut result, merged, &layout, copy, i, Ghost(views));
                let ghost before = result@;
                push_path(
                    &mut result.property_paths,
                    merged,
                    &layout,
                    from,
                    to,
                    separator,
                    Ghost(views),
                );
                let marker = if dynamic {
                    dyn_marker()
                } else {
                    "?"
                };
                write_marker(&mut result, &layout, marker, end, Ghost(views), Ghost(bytes@));
                proof {
                    let paths = path_entry(
                        views,
                        bytes@,
                        path_range(bytes@, from as int, to as int, separator),
                    );
                    assert(result@ == replaced(
                        views,
                        before,
                        paths,
                        hole_marker(dynamic),
                        end as int,
                    )) by {
                        assert(before.paths + paths + Seq::<Spanned<Seq<char>>>::empty()
                            =~= before.paths + paths);
                    }
                }
                copy = end;
                i = end;
            },
        }
    }
    proof {
        text::lemma_cut_is_boundary(bytes@, bytes@.len() as int);
    }
    flush_literal(&mut result, merged, &layout, copy, bytes.len(), Ghost(views));
    let len: usize = result.text.as_str().as_bytes().len();
    let kept = drop_phantoms(&result.span_map, len);
    result.span_map = kept;
    result
}

/// Normalizes one text on its own.
pub fn normalize_segment(decoded: &str, raw_span: ByteSpan, dialect: Dialect) -> (result:
    NormalizedSegment)
    requires
        raw_span.start <= raw_span.end,
    ensures
        result@ == normalized(
            seq![RunView { decoded: decoded.spec_bytes(), span: raw_span }],
            dialect,
        ),
{
    let mut runs: Vec<TextRun> = Vec::new();
    runs.push(TextRun { decoded, raw_span });
    proof {
        encode_utf8_valid_utf8(decoded@);
        assert(model::deep(runs@) =~= seq![
            RunView { decoded: decoded.spec_bytes(), span: raw_span },
        ]);
    }
    normalize_merged(&runs, dialect)
}

// ---- laws ---------------------------------------------------------------

/// Offsets that grow from entry to entry.
pub open spec fn increasing(map: Seq<(int, u32)>) -> bool {
    forall|i: int, j: int| 0 <= i < j < map.len() ==> (#[trigger] map[i]).0 < (#[trigger] map[j]).0
}

/// A map of a text of length `len`: its offsets grow and lie in the text.
pub open spec fn map_of(map: Seq<(int, u32)>, len: int) -> bool {
    &&& increasing(map)
    &&& forall|i: int| 0 <= i < map.len() ==> 0 <= (#[trigger] map[i]).0 < len
}

/// The map during the scan, whose last entry may be at the end of the text.
spec fn growing(st: Norm) -> bool {
    &&& increasing(st.map)
    &&& forall|i: int| 0 <= i < st.map.len() ==> 0 <= (#[trigger] st.map[i]).0 <= st.text.len()
}

proof fn lemma_junctions(runs: Seq<RunView>, k: int, pos: int, to: int, base: int)
    ensures
        increasing(junctions(runs, k, pos, to, base)),
        forall|i: int|
            0 <= i < junctions(runs, k, pos, to, base).len() ==> base + pos < (
            #[trigger] junctions(runs, k, pos, to, base)[i]).0 < base + to,
    decreases runs.len() - k,
{
    if k < runs.len() {
        if pos < run_start(runs, k) < to {
            lemma_junctions(runs, k + 1, run_start(runs, k), to, base);
        } else {
            lemma_junctions(runs, k + 1, pos, to, base);
        }
    }
}

proof fn lemma_growing(
    runs: Seq<RunView>,
    merged: Seq<u8>,
    dialect: Dialect,
    copy: int,
    i: int,
    st: Norm,
)
    requires
        valid_utf8(merged),
        0 <= copy <= i <= merged.len(),
        growing(st),
    ensures
        growing(scan_from(runs, merged, dialect, copy, i, st)),
    decreases merged.len() - i,
{
    lemma_junctions(runs, 0, copy, merged.len() as int, st.text.len() - copy);
    if i < merged.len() {
        lemma_mark(merged, dialect, i);
        lemma_junctions(runs, 0, copy, i, st.text.len() - copy);
        match mark_at(merged, dialect, i) {
            Mark::Plain => lemma_growing(runs, merged, dialect, copy, i + 1, st),
            Mark::Unclosed => {},
            Mark::Doubled => {
                let before = copied(runs, merged, st, copy, i);
                let next = replaced(
                    runs,
                    before,
                    Seq::empty(),
                    merged.subrange(i, i + 1),
                    i + 2,
                );
                lemma_growing(runs, merged, dialect, i + 2, i + 2, next);
            },
            Mark::Hole { from, to, end, dynamic, separator } => {
                let before = copied(runs, merged, st, copy, i);
                let paths = path_entry(runs, merged, path_range(merged, from, to, separator));
                lemma_hole_marker(dynamic);
                let next = replaced(runs, before, paths, hole_marker(dynamic), end);
                lemma_growing(runs, merged, dialect, end, end, next);
            },
        }
    }
}

/// A marker is not empty.
proof fn lemma_hole_marker(dynamic: bool)
    ensures
        hole_marker(dynamic).len() > 0,
{
    reveal_strlit("?");
    reveal_strlit("__BATIS_DYN__");
    is_ascii_chars_encode_utf8("?"@);
    is_ascii_chars_encode_utf8("__BATIS_DYN__"@);
}

pub proof fn lemma_inner_entries(map: Seq<(int, u32)>, len: int)
    requires
        increasing(map),
        forall|i: int| 0 <= i < map.len() ==> 0 <= (#[trigger] map[i]).0,
    ensures
        map_of(inner_entries(map, len), len),
        forall|i: int|
            0 <= i < inner_entries(map, len).len() ==> map.contains(
                #[trigger] inner_entries(map, len)[i],
            ),
    decreases map.len(),
{
    if map.len() > 0 {
        let rest = map.drop_last();
        lemma_inner_entries(rest, len);
        let kept = inner_entries(rest, len);
        assert forall|i: int| 0 <= i < kept.len() implies map.contains(#[trigger] kept[i])
            && kept[i].0 < map.last().0 by {
            assert(rest.contains(kept[i]));
            let j = choose|j: int| 0 <= j < rest.len() && rest[j] == kept[i];
            assert(map[j] == kept[i]);
        }
        assert(map.contains(map.last()));
    }
}

/// The offsets of a normal form's map grow strictly, and each has text after
/// it.
pub proof fn law_map_grows(runs: Seq<RunView>, dialect: Dialect)
    requires
        runs_ok(runs),
    ensures
        map_of(normalized(runs, dialect).map, normalized(runs, dialect).text.len() as int),
{
    let merged = merged_text(runs, runs.len() as int);
    lemma_merged(runs, 0, runs.len() as int);
    let start = Norm {
        text: Seq::empty(),
        map: seq![(0int, raw_in(runs, 0, 0))],
        paths: Seq::empty(),
        diagnostics: Seq::empty(),
    };
    lemma_growing(runs, merged, dialect, 0, 0, start);
    let end = scan_from(runs, merged, dialect, 0, 0, start);
    lemma_inner_entries(end.map, end.text.len() as int);
}

proof fn lemma_plain(runs: Seq<RunView>, merged: Seq<u8>, dialect: Dialect, i: int, st: Norm)
    requires
        0 <= i <= merged.len(),
        forall|k: int|
            0 <= k < merged.len() ==> #[trigger] merged[k] != HASH && merged[k] != DOLLAR,
    ensures
        scan_from(runs, merged, dialect, 0, i, st) == copied(
            runs,
            merged,
            st,
            0,
            merged.len() as int,
        ),
    decreases merged.len() - i,
{
    if i < merged.len() {
        assert(mark_at(merged, dialect, i) == Mark::Plain);
        lemma_plain(runs, merged, dialect, i + 1, st);
    }
}

/// A text without `#` and `$` is its own normal form.
pub proof fn law_plain_text_is_kept(runs: Seq<RunView>, dialect: Dialect)
    requires
        forall|k: int|
            0 <= k < merged_text(runs, runs.len() as int).len() ==> #[trigger] merged_text(
                runs,
                runs.len() as int,
            )[k] != HASH && merged_text(runs, runs.len() as int)[k] != DOLLAR,
    ensures
        normalized(runs, dialect).text == merged_text(runs, runs.len() as int),
        normalized(runs, dialect).paths.len() == 0,
        normalized(runs, dialect).diagnostics.len() == 0,
{
    let merged = merged_text(runs, runs.len() as int);
    let start = Norm {
        text: Seq::empty(),
        map: seq![(0int, raw_in(runs, 0, 0))],
        paths: Seq::empty(),
        diagnostics: Seq::empty(),
    };
    lemma_plain(runs, merged, dialect, 0, start);
    if merged.len() > 0 {
        assert(merged.subrange(0, merged.len() as int) =~= merged);
    }
    assert(normalized(runs, dialect).text =~= merged);
}

/// Runs of text that lie in `source`, in document order.
pub open spec fn runs_in(source: Seq<u8>, runs: Seq<RunView>) -> bool {
    &&& runs.len() > 0
    &&& forall|k: int| 0 <= k < runs.len() ==> run_in(source, #[trigger] runs[k])
    &&& forall|i: int, j: int|
        0 <= i < j < runs.len() ==> (#[trigger] runs[i]).span.end <= (#[trigger] runs[j]).span.start
}

pub open spec fn run_in(source: Seq<u8>, run: RunView) -> bool {
    body::segment_in(source, SegmentView::Text { decoded: run.decoded, span: run.span })
}

/// A path that lies in `source`: a point, or the range that holds it.
pub open spec fn path_in(source: Seq<u8>, path: Spanned<Seq<char>>) -> bool {
    &&& path.span.start <= path.span.end <= source.len()
    &&& path.span.start < path.span.end ==> source.subrange(
        path.span.start as int,
        path.span.end as int,
    ) == encode_utf8(path.value)
}

/// Every source offset of the map lies in a source of length `len`.
pub open spec fn raws_in(map: Seq<(int, u32)>, len: int) -> bool {
    forall|i: int| 0 <= i < map.len() ==> (#[trigger] map[i]).1 <= len
}

/// Everything that a normal form says of the source is true of it.
pub open spec fn norm_in(source: Seq<u8>, norm: Norm) -> bool {
    &&& raws_in(norm.map, source.len() as int)
    &&& forall|i: int| 0 <= i < norm.paths.len() ==> path_in(source, #[trigger] norm.paths[i])
    &&& body::spans_in(norm.diagnostics, source.len() as int)
}

proof fn lemma_raw_in(source: Seq<u8>, runs: Seq<RunView>, offset: int)
    requires
        runs_ok(runs),
        runs_in(source, runs),
        0 <= offset <= run_start(runs, runs.len() as int),
    ensures
        raw_at(runs, offset) <= source.len(),
{
    lemma_run_at(runs, offset);
    let k = run_at(runs, offset);
    assert(run_in(source, runs[k]));
}

proof fn lemma_junctions_in(
    source: Seq<u8>,
    runs: Seq<RunView>,
    k: int,
    pos: int,
    to: int,
    base: int,
)
    requires
        runs_in(source, runs),
        0 <= k,
    ensures
        raws_in(junctions(runs, k, pos, to, base), source.len() as int),
    decreases runs.len() - k,
{
    if k < runs.len() {
        assert(run_in(source, runs[k]));
        assert(runs[k].span.start <= source.len());
        if pos < run_start(runs, k) < to {
            lemma_junctions_in(source, runs, k + 1, run_start(runs, k), to, base);
        } else {
            lemma_junctions_in(source, runs, k + 1, pos, to, base);
        }
    }
}

/// The text of a run stands in the merged text at the run's start.
proof fn lemma_run_text(runs: Seq<RunView>, k: int)
    requires
        runs_ok(runs),
        0 <= k < runs.len(),
    ensures
        merged_text(runs, runs.len() as int).subrange(
            run_start(runs, k),
            run_start(runs, k) + runs[k].decoded.len(),
        ) == runs[k].decoded,
        run_start(runs, k) + runs[k].decoded.len() <= run_start(runs, runs.len() as int),
{
    let all = merged_text(runs, runs.len() as int);
    let n = runs.len() as int;
    lemma_merged(runs, k + 1, n);
    assert(merged_text(runs, k + 1) == merged_text(runs, k) + runs[k].decoded);
    let upto = all.subrange(0, run_start(runs, k + 1));
    assert(upto == merged_text(runs, k) + runs[k].decoded);
    assert(all.subrange(run_start(runs, k), run_start(runs, k + 1)) =~= upto.subrange(
        run_start(runs, k),
        run_start(runs, k + 1),
    ));
    assert(upto.subrange(run_start(runs, k), run_start(runs, k + 1)) =~= runs[k].decoded);
}

proof fn lemma_path_in(source: Seq<u8>, runs: Seq<RunView>, range: (int, int))
    requires
        runs_ok(runs),
        runs_in(source, runs),
        0 <= range.0 <= range.1 <= run_start(runs, runs.len() as int),
        text::is_cut(merged_text(runs, runs.len() as int), range.0),
        text::is_cut(merged_text(runs, runs.len() as int), range.1),
    ensures
        forall|i: int|
            0 <= i < path_entry(runs, merged_text(runs, runs.len() as int), range).len()
                ==> path_in(
                source,
                #[trigger] path_entry(runs, merged_text(runs, runs.len() as int), range)[i],
            ),
{
    let merged = merged_text(runs, runs.len() as int);
    let (from, to) = range;
    if from < to {
        lemma_run_at(runs, from);
        lemma_run_at(runs, to - 1);
        let first = run_at(runs, from);
        let last = run_at(runs, to - 1);
        let entry = path_entry(runs, merged, range)[0];
        let run = runs[first];
        assert(run_in(source, run));
        if run_start(runs, first) == run_start(runs, last) && is_verbatim(run) {
            lemma_same_start(runs, from, to - 1);
            lemma_run_text(runs, first);
            lemma_merged(runs, 0, runs.len() as int);
            text::lemma_between_cuts(merged, from, to);
            decode_utf8_encode_utf8(merged.subrange(from, to));
            let s = run_start(runs, first);
            assert(merged.subrange(from, to) =~= run.decoded.subrange(from - s, to - s)) by {
                assert(run.decoded.subrange(from - s, to - s) =~= merged.subrange(
                    s,
                    s + run.decoded.len(),
                ).subrange(from - s, to - s));
            }
            assert(run.decoded == source.subrange(run.span.start as int, run.span.end as int));
            assert(source.subrange(entry.span.start as int, entry.span.end as int)
                =~= run.decoded.subrange(from - s, to - s));
        }
    }
}

proof fn lemma_scan_in(
    source: Seq<u8>,
    runs: Seq<RunView>,
    dialect: Dialect,
    copy: int,
    i: int,
    st: Norm,
)
    requires
        runs_ok(runs),
        runs_in(source, runs),
        0 <= copy <= i <= run_start(runs, runs.len() as int),
        norm_in(source, st),
    ensures
        norm_in(
            source,
            scan_from(runs, merged_text(runs, runs.len() as int), dialect, copy, i, st),
        ),
    decreases run_start(runs, runs.len() as int) - i,
{
    let merged = merged_text(runs, runs.len() as int);
    lemma_merged(runs, 0, runs.len() as int);
    lemma_junctions_in(source, runs, 0, copy, merged.len() as int, st.text.len() - copy);
    if i < merged.len() {
        lemma_mark(merged, dialect, i);
        lemma_junctions_in(source, runs, 0, copy, i, st.text.len() - copy);
        match mark_at(merged, dialect, i) {
            Mark::Plain => lemma_scan_in(source, runs, dialect, copy, i + 1, st),
            Mark::Unclosed => {
                assert(run_in(source, runs[0]));
                assert(run_in(source, runs.last()));
            },
            Mark::Doubled => {
                let before = copied(runs, merged, st, copy, i);
                let next = replaced(
                    runs,
                    before,
                    Seq::empty(),
                    merged.subrange(i, i + 1),
                    i + 2,
                );
                lemma_raw_in(source, runs, i + 2);
                lemma_scan_in(source, runs, dialect, i + 2, i + 2, next);
            },
            Mark::Hole { from, to, end, dynamic, separator } => {
                let before = copied(runs, merged, st, copy, i);
                let range = path_range(merged, from, to, separator);
                let paths = path_entry(runs, merged, range);
                lemma_path_range(merged, from, to, separator);
                lemma_path_in(source, runs, range);
                let next = replaced(runs, before, paths, hole_marker(dynamic), end);
                lemma_raw_in(source, runs, end);
                lemma_scan_in(source, runs, dialect, end, end, next);
            },
        }
    }
}

/// Every offset and span of a normal form lies in the source, and a path whose
/// span is a range is what the source holds there.
pub proof fn law_norm_in_source(source: Seq<u8>, runs: Seq<RunView>, dialect: Dialect)
    requires
        runs_in(source, runs),
    ensures
        norm_in(source, normalized(runs, dialect)),
{
    lemma_runs_ok(source, runs);
    let start = Norm {
        text: Seq::empty(),
        map: seq![(0int, raw_in(runs, 0, 0))],
        paths: Seq::empty(),
        diagnostics: Seq::empty(),
    };
    assert(run_in(source, runs[0]));
    assert(run_start(runs, 0) == 0);
    lemma_merged(runs, 0, runs.len() as int);
    lemma_scan_in(source, runs, dialect, 0, 0, start);
    let merged = merged_text(runs, runs.len() as int);
    let end = scan_from(runs, merged, dialect, 0, 0, start);
    lemma_growing(runs, merged, dialect, 0, 0, start);
    lemma_inner_entries(end.map, end.text.len() as int);
    let kept = inner_entries(end.map, end.text.len() as int);
    assert forall|i: int| 0 <= i < kept.len() implies (#[trigger] kept[i]).1 <= source.len() by {
        assert(end.map.contains(kept[i]));
        let j = choose|j: int| 0 <= j < end.map.len() && end.map[j] == kept[i];
        assert(end.map[j].1 <= source.len());
    }
}

/// Paths between two offsets.
pub open spec fn paths_between(paths: Seq<Spanned<Seq<char>>>, lo: int, hi: int) -> bool {
    forall|i: int|
        0 <= i < paths.len() ==> lo <= (#[trigger] paths[i]).span.start <= paths[i].span.end <= hi
}

/// Runs between two offsets.
pub open spec fn runs_between(runs: Seq<RunView>, lo: int, hi: int) -> bool {
    forall|k: int|
        0 <= k < runs.len() ==> lo <= (#[trigger] runs[k]).span.start <= runs[k].span.end <= hi
}

proof fn lemma_scan_between(
    runs: Seq<RunView>,
    dialect: Dialect,
    copy: int,
    i: int,
    st: Norm,
    lo: int,
    hi: int,
)
    requires
        runs_ok(runs),
        runs_between(runs, lo, hi),
        0 <= copy <= i <= run_start(runs, runs.len() as int),
        paths_between(st.paths, lo, hi),
    ensures
        paths_between(
            scan_from(
                runs,
                merged_text(runs, runs.len() as int),
                dialect,
                copy,
                i,
                st,
            ).paths,
            lo,
            hi,
        ),
    decreases run_start(runs, runs.len() as int) - i,
{
    let merged = merged_text(runs, runs.len() as int);
    lemma_merged(runs, 0, runs.len() as int);
    if i < merged.len() {
        lemma_mark(merged, dialect, i);
        match mark_at(merged, dialect, i) {
            Mark::Plain => lemma_scan_between(runs, dialect, copy, i + 1, st, lo, hi),
            Mark::Unclosed => {},
            Mark::Doubled => {
                let before = copied(runs, merged, st, copy, i);
                let next = replaced(
                    runs,
                    before,
                    Seq::empty(),
                    merged.subrange(i, i + 1),
                    i + 2,
                );
                lemma_scan_between(runs, dialect, i + 2, i + 2, next, lo, hi);
            },
            Mark::Hole { from, to, end, dynamic, separator } => {
                let before = copied(runs, merged, st, copy, i);
                let range = path_range(merged, from, to, separator);
                let paths = path_entry(runs, merged, range);
                lemma_path_range(merged, from, to, separator);
                if range.0 < range.1 {
                    lemma_run_at(runs, range.0);
                    lemma_run_at(runs, range.1 - 1);
                    let run = runs[run_at(runs, range.0)];
                    assert(lo <= run.span.start <= run.span.end <= hi);
                    if run_start(runs, run_at(runs, range.0)) == run_start(
                        runs,
                        run_at(runs, range.1 - 1),
                    ) {
                        lemma_same_start(runs, range.0, range.1 - 1);
                    }
                }
                let next = replaced(runs, before, paths, hole_marker(dynamic), end);
                lemma_scan_between(runs, dialect, end, end, next, lo, hi);
            },
        }
    }
}

/// The paths of a normal form lie where its runs lie.
pub proof fn law_paths_between(runs: Seq<RunView>, dialect: Dialect, lo: int, hi: int)
    requires
        runs_ok(runs),
        runs_between(runs, lo, hi),
    ensures
        paths_between(normalized(runs, dialect).paths, lo, hi),
{
    let start = Norm {
        text: Seq::empty(),
        map: seq![(0int, raw_in(runs, 0, 0))],
        paths: Seq::empty(),
        diagnostics: Seq::empty(),
    };
    lemma_scan_between(runs, dialect, 0, 0, start, lo, hi);
}

/// Runs of a source have ranges for spans.
pub proof fn lemma_runs_ok(source: Seq<u8>, runs: Seq<RunView>)
    requires
        runs_in(source, runs),
    ensures
        runs_ok(runs),
{
    assert forall|k: int| 0 <= k < runs.len() implies valid_utf8((#[trigger] runs[k]).decoded)
        && runs[k].span.start <= runs[k].span.end by {
        assert(run_in(source, runs[k]));
    }
}

} // verus!
