//! Byte-level text helpers: UTF-8 slicing, concatenation, whitespace, search
//! and decimal rendering.
use vstd::prelude::*;
use vstd::string::*;
use vstd::utf8::*;

verus! {

pub const TAB: u8 = 0x09;

pub const LINE_FEED: u8 = 0x0A;

pub const FORM_FEED: u8 = 0x0C;

pub const CARRIAGE_RETURN: u8 = 0x0D;

pub const SPACE: u8 = 0x20;

/// A position of `bytes` at which the text may be cut in two: its end, or the
/// first byte of a character.
pub open spec fn is_cut(bytes: Seq<u8>, i: int) -> bool {
    0 <= i <= bytes.len() && (i == bytes.len() || !is_continuation_byte(bytes[i]))
}

/// Of a valid UTF-8 text, the cuts are its character boundaries.
pub proof fn lemma_cut_is_boundary(bytes: Seq<u8>, i: int)
    requires
        valid_utf8(bytes),
    ensures
        is_cut(bytes, i) <==> 0 <= i <= bytes.len() && is_char_boundary(bytes, i),
{
    is_char_boundary_start_end_of_seq(bytes);
    if 0 <= i < bytes.len() {
        is_char_boundary_iff_not_is_continuation_byte(bytes, i);
    }
}

/// The width in bytes of the character that `lead` starts.
pub open spec fn char_width(lead: u8) -> int {
    if lead < 0x80 {
        1
    } else if lead < 0xE0 {
        2
    } else if lead < 0xF0 {
        3
    } else {
        4
    }
}

/// The character that starts at a cut ends at a cut.
pub proof fn lemma_next_cut(bytes: Seq<u8>, i: int)
    requires
        valid_utf8(bytes),
        is_cut(bytes, i),
        i < bytes.len(),
    ensures
        is_cut(bytes, i + char_width(bytes[i])),
{
    lemma_cut_is_boundary(bytes, i);
    valid_utf8_split(bytes, i);
    let rest = bytes.subrange(i, bytes.len() as int);
    assert(valid_utf8(rest));
    assert(rest[0] == bytes[i]);
    let n = length_of_first_scalar(rest);
    assert(n == char_width(bytes[i]));
    let tail = pop_first_scalar(rest);
    assert(valid_utf8(tail));
    if tail.len() > 0 {
        assert(tail[0] == bytes[i + n]);
        assert(valid_first_scalar(tail));
    }
}

/// Both sides of an ASCII byte are cuts.
pub proof fn lemma_ascii_cuts(bytes: Seq<u8>, i: int)
    requires
        valid_utf8(bytes),
        0 <= i < bytes.len(),
        bytes[i] < 0x80,
    ensures
        is_cut(bytes, i),
        is_cut(bytes, i + 1),
{
    lemma_next_cut(bytes, i);
}

/// The text between two cuts is valid UTF-8.
pub proof fn lemma_between_cuts(bytes: Seq<u8>, from: int, to: int)
    requires
        valid_utf8(bytes),
        is_cut(bytes, from),
        is_cut(bytes, to),
        from <= to,
    ensures
        valid_utf8(bytes.subrange(from, to)),
{
    lemma_cut_is_boundary(bytes, to);
    valid_utf8_split(bytes, to);
    let head = bytes.subrange(0, to);
    assert(is_cut(head, from));
    lemma_cut_is_boundary(head, from);
    valid_utf8_split(head, from);
    assert(head.subrange(from, to) =~= bytes.subrange(from, to));
}

/// A cut of a part of a text that lies between two cuts is a cut of the text.
pub proof fn lemma_cut_of_part(bytes: Seq<u8>, from: int, to: int, i: int)
    requires
        is_cut(bytes, from),
        is_cut(bytes, to),
        from <= to,
        is_cut(bytes.subrange(from, to), i),
    ensures
        is_cut(bytes, from + i),
{
}

/// Encoding distributes over concatenation.
pub proof fn lemma_encode_concat(a: Seq<char>, b: Seq<char>)
    ensures
        encode_utf8(a + b) == encode_utf8(a) + encode_utf8(b),
    decreases a.len(),
{
    if a.len() == 0 {
        assert(a + b =~= b);
        assert(encode_utf8(a) + encode_utf8(b) =~= encode_utf8(b));
    } else {
        lemma_encode_concat(a.drop_first(), b);
        assert((a + b).drop_first() =~= a.drop_first() + b);
        assert(encode_utf8(a + b) =~= encode_utf8(a) + encode_utf8(b));
    }
}

/// Two texts with the same encoding are the same text.
pub proof fn lemma_encode_injective(a: Seq<char>, b: Seq<char>)
    requires
        encode_utf8(a) == encode_utf8(b),
    ensures
        a == b,
{
    encode_utf8_decode_utf8(a);
    encode_utf8_decode_utf8(b);
}

/// Whether the two byte strings are equal.
pub fn bytes_eq(a: &[u8], b: &[u8]) -> (equal: bool)
    ensures
        equal == (a@ == b@),
{
    if a.len() != b.len() {
        return false;
    }
    let mut i: usize = 0;
    while i < a.len()
        invariant
            i <= a.len(),
            a.len() == b.len(),
            forall|j: int| 0 <= j < i ==> a@[j] == b@[j],
        decreases a.len() - i,
    {
        if a[i] != b[i] {
            return false;
        }
        i += 1;
    }
    assert(a@ =~= b@);
    true
}

/// Whether the two texts are equal.
pub fn str_eq(a: &str, b: &str) -> (equal: bool)
    ensures
        equal == (a@ == b@),
{
    let equal = bytes_eq(a.as_bytes(), b.as_bytes());
    proof {
        if equal {
            lemma_encode_injective(a@, b@);
        }
    }
    equal
}

/// The part of `text` between two cuts.
pub fn slice<'a>(text: &'a str, from: usize, to: usize) -> (part: &'a str)
    requires
        from <= to,
        is_cut(text.spec_bytes(), from as int),
        is_cut(text.spec_bytes(), to as int),
    ensures
        part.spec_bytes() == text.spec_bytes().subrange(from as int, to as int),
        part@ == decode_utf8(text.spec_bytes().subrange(from as int, to as int)),
{
    proof {
        encode_utf8_valid_utf8(text@);
        lemma_cut_is_boundary(text.spec_bytes(), to as int);
    }
    let (head, _) = text.split_at(to);
    proof {
        encode_utf8_valid_utf8(head@);
        assert(is_cut(head.spec_bytes(), from as int));
        lemma_cut_is_boundary(head.spec_bytes(), from as int);
    }
    let (_, part) = head.split_at(from);
    proof {
        assert(part.spec_bytes() =~= text.spec_bytes().subrange(from as int, to as int));
        encode_utf8_decode_utf8(part@);
    }
    part
}

/// Appends `more` to `text`.
pub fn push(text: &mut String, more: &str)
    ensures
        final(text)@ == old(text)@ + more@,
        encode_utf8(final(text)@) == encode_utf8(old(text)@) + encode_utf8(more@),
{
    proof {
        lemma_encode_concat(text@, more@);
    }
    text.append(more);
}

/// The concatenation of two texts.
pub fn concat(a: &str, b: &str) -> (text: String)
    ensures
        text@ == a@ + b@,
        encode_utf8(text@) == encode_utf8(a@) + encode_utf8(b@),
{
    let mut text = a.to_owned();
    push(&mut text, b);
    text
}

/// The concatenation of three texts.
pub fn concat3(a: &str, b: &str, c: &str) -> (text: String)
    ensures
        text@ == a@ + b@ + c@,
{
    let mut text = a.to_owned();
    push(&mut text, b);
    push(&mut text, c);
    text
}

// ---- whitespace ---------------------------------------------------------

/// The ASCII whitespace bytes: blank, tab, line feed, form feed, carriage
/// return.
pub open spec fn is_blank(b: u8) -> bool {
    b == SPACE || b == TAB || b == LINE_FEED || b == FORM_FEED || b == CARRIAGE_RETURN
}

pub fn blank(b: u8) -> (r: bool)
    ensures
        r == is_blank(b),
{
    b == SPACE || b == TAB || b == LINE_FEED || b == FORM_FEED || b == CARRIAGE_RETURN
}

/// The width of the Unicode `White_Space` character that starts at `i` and
/// ends at or before `to`; 0 where there is none.
pub open spec fn space_width(bytes: Seq<u8>, i: int, to: int) -> int {
    if i < to && (0x09 <= bytes[i] <= 0x0D || bytes[i] == 0x20) {
        1
    } else if i + 1 < to && bytes[i] == 0xC2 && (bytes[i + 1] == 0x85 || bytes[i + 1] == 0xA0) {
        2
    } else if i + 2 < to && is_wide_space(bytes[i], bytes[i + 1], bytes[i + 2]) {
        3
    } else {
        0
    }
}

/// The three-byte encodings of `White_Space` characters: U+1680,
/// U+2000..=U+200A, U+2028, U+2029, U+202F, U+205F and U+3000.
pub open spec fn is_wide_space(a: u8, b: u8, c: u8) -> bool {
    ||| a == 0xE1 && b == 0x9A && c == 0x80
    ||| a == 0xE2 && b == 0x80 && (0x80 <= c <= 0x8A || c == 0xA8 || c == 0xA9 || c == 0xAF)
    ||| a == 0xE2 && b == 0x81 && c == 0x9F
    ||| a == 0xE3 && b == 0x80 && c == 0x80
}

fn wide_space(a: u8, b: u8, c: u8) -> (r: bool)
    ensures
        r == is_wide_space(a, b, c),
{
    (a == 0xE1 && b == 0x9A && c == 0x80) || (a == 0xE2 && b == 0x80 && ((0x80 <= c && c <= 0x8A)
        || c == 0xA8 || c == 0xA9 || c == 0xAF)) || (a == 0xE2 && b == 0x81 && c == 0x9F) || (a
        == 0xE3 && b == 0x80 && c == 0x80)
}

fn space_width_at(bytes: &[u8], i: usize, to: usize) -> (w: usize)
    requires
        i <= to <= bytes@.len(),
    ensures
        w == space_width(bytes@, i as int, to as int),
        i + w <= to,
{
    if i < to && ((0x09 <= bytes[i] && bytes[i] <= 0x0D) || bytes[i] == 0x20) {
        1
    } else if to - i > 1 && bytes[i] == 0xC2 && (bytes[i + 1] == 0x85 || bytes[i + 1] == 0xA0) {
        2
    } else if to - i > 2 && wide_space(bytes[i], bytes[i + 1], bytes[i + 2]) {
        3
    } else {
        0
    }
}

/// Where `bytes[from..to]` starts once its leading whitespace is dropped.
pub open spec fn trimmed_start(bytes: Seq<u8>, from: int, to: int) -> int
    decreases to - from,
{
    let w = space_width(bytes, from, to);
    if w > 0 {
        trimmed_start(bytes, from + w, to)
    } else {
        from
    }
}

/// The width of the whitespace character that ends at `to` and starts at or
/// after `from`; 0 where there is none.
pub open spec fn space_width_before(bytes: Seq<u8>, from: int, to: int) -> int {
    if from <= to - 1 && space_width(bytes, to - 1, to) == 1 {
        1
    } else if from <= to - 2 && space_width(bytes, to - 2, to) == 2 {
        2
    } else if from <= to - 3 && space_width(bytes, to - 3, to) == 3 {
        3
    } else {
        0
    }
}

/// Where `bytes[from..to]` ends once its trailing whitespace is dropped.
pub open spec fn trimmed_end(bytes: Seq<u8>, from: int, to: int) -> int
    decreases to - from,
{
    let w = space_width_before(bytes, from, to);
    if w > 0 {
        trimmed_end(bytes, from, to - w)
    } else {
        to
    }
}

/// Trimming the start stays in the range and at a cut.
pub proof fn lemma_trimmed_start(bytes: Seq<u8>, from: int, to: int)
    requires
        valid_utf8(bytes),
        is_cut(bytes, from),
        from <= to <= bytes.len(),
    ensures
        from <= trimmed_start(bytes, from, to) <= to,
        is_cut(bytes, trimmed_start(bytes, from, to)),
    decreases to - from,
{
    let w = space_width(bytes, from, to);
    if w > 0 {
        lemma_next_cut(bytes, from);
        lemma_trimmed_start(bytes, from + w, to);
    }
}

/// Trimming the end stays in the range and at a cut.
pub proof fn lemma_trimmed_end(bytes: Seq<u8>, from: int, to: int)
    requires
        is_cut(bytes, to),
        0 <= from <= to <= bytes.len(),
    ensures
        from <= trimmed_end(bytes, from, to) <= to,
        is_cut(bytes, trimmed_end(bytes, from, to)),
    decreases to - from,
{
    let w = space_width_before(bytes, from, to);
    if w > 0 {
        lemma_trimmed_end(bytes, from, to - w);
    }
}

pub fn trim_start(bytes: &[u8], from: usize, to: usize) -> (start: usize)
    requires
        from <= to <= bytes@.len(),
    ensures
        start == trimmed_start(bytes@, from as int, to as int),
        from <= start <= to,
{
    let mut start = from;
    let mut w: usize = space_width_at(bytes, start, to);
    while w > 0
        invariant
            from <= start,
            start + w <= to <= bytes@.len(),
            w == space_width(bytes@, start as int, to as int),
            trimmed_start(bytes@, start as int, to as int) == trimmed_start(
                bytes@,
                from as int,
                to as int,
            ),
        decreases to - start,
    {
        start += w;
        w = space_width_at(bytes, start, to);
    }
    start
}

pub fn trim_end(bytes: &[u8], from: usize, to: usize) -> (end: usize)
    requires
        from <= to <= bytes@.len(),
    ensures
        end == trimmed_end(bytes@, from as int, to as int),
        from <= end <= to,
{
    let mut end = to;
    loop
        invariant
            from <= end <= to <= bytes@.len(),
            trimmed_end(bytes@, from as int, end as int) == trimmed_end(
                bytes@,
                from as int,
                to as int,
            ),
        decreases end,
    {
        if end - from >= 1 && space_width_at(bytes, end - 1, end) == 1 {
            end -= 1;
        } else if end - from >= 2 && space_width_at(bytes, end - 2, end) == 2 {
            end -= 2;
        } else if end - from >= 3 && space_width_at(bytes, end - 3, end) == 3 {
            end -= 3;
        } else {
            return end;
        }
    }
}

/// A text that holds nothing but whitespace.
pub open spec fn is_all_space(bytes: Seq<u8>) -> bool {
    trimmed_start(bytes, 0, bytes.len() as int) == bytes.len()
}

pub fn all_space(text: &str) -> (r: bool)
    ensures
        r == is_all_space(text.spec_bytes()),
{
    let bytes = text.as_bytes();
    trim_start(bytes, 0, bytes.len()) == bytes.len()
}

// ---- search -------------------------------------------------------------

/// Whether `needle` stands in `bytes` at `i`.
pub open spec fn occurs_at(bytes: Seq<u8>, needle: Seq<u8>, i: int) -> bool {
    0 <= i && i + needle.len() <= bytes.len() && bytes.subrange(i, i + needle.len()) == needle
}

/// The first position at or after `from` at which `needle` stands.
pub open spec fn first_match(bytes: Seq<u8>, needle: Seq<u8>, from: int) -> Option<int>
    decreases bytes.len() + 1 - from,
{
    if from + needle.len() > bytes.len() {
        None
    } else if occurs_at(bytes, needle, from) {
        Some(from)
    } else {
        first_match(bytes, needle, from + 1)
    }
}

/// `first_match` finds an occurrence, and none stands before it.
pub proof fn lemma_first_match(bytes: Seq<u8>, needle: Seq<u8>, from: int)
    requires
        0 <= from,
    ensures
        match first_match(bytes, needle, from) {
            Some(i) => from <= i && occurs_at(bytes, needle, i) && forall|j: int|
                from <= j < i ==> !#[trigger] occurs_at(bytes, needle, j),
            None => forall|j: int| from <= j ==> !#[trigger] occurs_at(bytes, needle, j),
        },
    decreases bytes.len() + 1 - from,
{
    if from + needle.len() <= bytes.len() && !occurs_at(bytes, needle, from) {
        lemma_first_match(bytes, needle, from + 1);
    }
}

/// Whether `needle` stands in `bytes` at `i`.
pub fn occurs(bytes: &[u8], needle: &[u8], i: usize) -> (r: bool)
    ensures
        r == occurs_at(bytes@, needle@, i as int),
{
    if i > bytes.len() || bytes.len() - i < needle.len() {
        return false;
    }
    let mut k: usize = 0;
    while k < needle.len()
        invariant
            k <= needle.len(),
            i + needle.len() <= bytes.len(),
            forall|j: int| 0 <= j < k ==> bytes@[i + j] == needle@[j],
        decreases needle.len() - k,
    {
        if bytes[i + k] != needle[k] {
            assert(bytes@.subrange(i as int, i + needle.len())[k as int] != needle@[k as int]);
            return false;
        }
        k += 1;
    }
    assert(bytes@.subrange(i as int, i + needle.len()) =~= needle@);
    true
}

pub fn find(bytes: &[u8], needle: &[u8], from: usize) -> (r: Option<usize>)
    requires
        from <= bytes@.len(),
    ensures
        match r {
            Some(i) => first_match(bytes@, needle@, from as int) == Some(i as int),
            None => first_match(bytes@, needle@, from as int) is None,
        },
        r matches Some(i) ==> from <= i && i + needle@.len() <= bytes@.len(),
{
    let mut i = from;
    while bytes.len() - i >= needle.len()
        invariant
            from <= i <= bytes@.len(),
            first_match(bytes@, needle@, i as int) == first_match(bytes@, needle@, from as int),
        decreases bytes.len() - i,
    {
        if occurs(bytes, needle, i) {
            return Some(i);
        }
        if i == bytes.len() {
            assert(first_match(bytes@, needle@, i + 1) is None);
            return None;
        }
        i += 1;
    }
    None
}

/// The first position at or after `from` that holds `target`.
pub open spec fn first_byte(bytes: Seq<u8>, target: u8, from: int) -> Option<int>
    decreases bytes.len() - from,
{
    if from >= bytes.len() {
        None
    } else if bytes[from] == target {
        Some(from)
    } else {
        first_byte(bytes, target, from + 1)
    }
}

/// `first_byte` finds the target, and it does not stand before.
pub proof fn lemma_first_byte(bytes: Seq<u8>, target: u8, from: int)
    requires
        0 <= from,
    ensures
        match first_byte(bytes, target, from) {
            Some(i) => from <= i < bytes.len() && bytes[i] == target && forall|j: int|
                from <= j < i ==> bytes[j] != target,
            None => forall|j: int| from <= j < bytes.len() ==> bytes[j] != target,
        },
    decreases bytes.len() - from,
{
    if from < bytes.len() && bytes[from] != target {
        lemma_first_byte(bytes, target, from + 1);
    }
}

pub fn find_byte(bytes: &[u8], from: usize, target: u8) -> (r: Option<usize>)
    requires
        from <= bytes@.len(),
    ensures
        match r {
            Some(i) => first_byte(bytes@, target, from as int) == Some(i as int) && from <= i
                < bytes@.len() && bytes@[i as int] == target,
            None => first_byte(bytes@, target, from as int) is None,
        },
{
    let mut i = from;
    while i < bytes.len()
        invariant
            from <= i <= bytes@.len(),
            first_byte(bytes@, target, i as int) == first_byte(bytes@, target, from as int),
        decreases bytes.len() - i,
    {
        if bytes[i] == target {
            return Some(i);
        }
        i += 1;
    }
    None
}

/// The last position before `to` that holds `target`.
pub open spec fn last_byte(bytes: Seq<u8>, target: u8, to: int) -> Option<int>
    decreases to,
{
    if to <= 0 {
        None
    } else if bytes[to - 1] == target {
        Some(to - 1)
    } else {
        last_byte(bytes, target, to - 1)
    }
}

pub fn find_last_byte(bytes: &[u8], target: u8) -> (r: Option<usize>)
    ensures
        match r {
            Some(i) => last_byte(bytes@, target, bytes@.len() as int) == Some(i as int) && i
                < bytes@.len() && bytes@[i as int] == target,
            None => last_byte(bytes@, target, bytes@.len() as int) is None,
        },
{
    let mut i = bytes.len();
    while i > 0
        invariant
            i <= bytes@.len(),
            last_byte(bytes@, target, i as int) == last_byte(
                bytes@,
                target,
                bytes@.len() as int,
            ),
        decreases i,
    {
        if bytes[i - 1] == target {
            return Some(i - 1);
        }
        i -= 1;
    }
    None
}

// ---- case-insensitive comparison ----------------------------------------

pub open spec fn lower(b: u8) -> u8 {
    if 0x41 <= b <= 0x5A {
        (b + 0x20) as u8
    } else {
        b
    }
}

fn to_lower(b: u8) -> (r: u8)
    ensures
        r == lower(b),
{
    if 0x41 <= b && b <= 0x5A {
        b + 0x20
    } else {
        b
    }
}

/// Whether `word` stands in `bytes` at `i`, letter case aside.
pub open spec fn occurs_uncased(bytes: Seq<u8>, word: Seq<u8>, i: int) -> bool {
    &&& 0 <= i
    &&& i + word.len() <= bytes.len()
    &&& forall|k: int| 0 <= k < word.len() ==> lower(#[trigger] word[k]) == lower(bytes[i + k])
}

pub fn occurs_ignoring_case(bytes: &[u8], word: &[u8], i: usize) -> (r: bool)
    ensures
        r == occurs_uncased(bytes@, word@, i as int),
{
    if i > bytes.len() || bytes.len() - i < word.len() {
        return false;
    }
    let mut k: usize = 0;
    while k < word.len()
        invariant
            k <= word.len(),
            i + word.len() <= bytes.len(),
            forall|j: int| 0 <= j < k ==> lower(#[trigger] word@[j]) == lower(bytes@[i + j]),
        decreases word.len() - k,
    {
        if to_lower(bytes[i + k]) != to_lower(word[k]) {
            return false;
        }
        k += 1;
    }
    true
}

// ---- decimal ------------------------------------------------------------

/// The decimal digit `d`.
pub open spec fn digit(d: nat) -> Seq<char> {
    if d == 0 {
        "0"@
    } else if d == 1 {
        "1"@
    } else if d == 2 {
        "2"@
    } else if d == 3 {
        "3"@
    } else if d == 4 {
        "4"@
    } else if d == 5 {
        "5"@
    } else if d == 6 {
        "6"@
    } else if d == 7 {
        "7"@
    } else if d == 8 {
        "8"@
    } else {
        "9"@
    }
}

/// The decimal numeral of `n`.
pub open spec fn decimal(n: nat) -> Seq<char>
    decreases n,
{
    if n < 10 {
        digit(n)
    } else {
        decimal(n / 10) + digit(n % 10)
    }
}

fn digit_text(d: u64) -> (text: &'static str)
    requires
        d < 10,
    ensures
        text@ == digit(d as nat),
{
    if d == 0 {
        "0"
    } else if d == 1 {
        "1"
    } else if d == 2 {
        "2"
    } else if d == 3 {
        "3"
    } else if d == 4 {
        "4"
    } else if d == 5 {
        "5"
    } else if d == 6 {
        "6"
    } else if d == 7 {
        "7"
    } else if d == 8 {
        "8"
    } else {
        "9"
    }
}

pub fn decimal_text(n: u64) -> (text: String)
    ensures
        text@ == decimal(n as nat),
    decreases n,
{
    if n < 10 {
        digit_text(n).to_owned()
    } else {
        let mut text = decimal_text(n / 10);
        push(&mut text, digit_text(n % 10));
        text
    }
}

} // verus!
