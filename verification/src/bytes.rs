//! Byte-level reading of UTF-8 text: the classes of byte the engine's scanners
//! stop at, and the scans themselves.
//!
//! Every offset the engine hands out is a UTF-8 byte offset into a Document,
//! because that is what the parser reports, so the scanners here read bytes.
//! Each one says exactly where it stops in terms of the spec functions beside
//! it, so a caller's contract can be stated over the same functions.

use vstd::prelude::*;

verus! {

/// `\n` or `\r`: a byte that ends a line.
pub open spec fn is_line_end(byte: u8) -> bool {
    byte == 10 || byte == 13
}

/// A space or a tab.
pub open spec fn is_blank(byte: u8) -> bool {
    byte == 32 || byte == 9
}

/// The five bytes `u8::is_ascii_whitespace` accepts: space, tab, line feed,
/// form feed and carriage return.
pub open spec fn is_ascii_space(byte: u8) -> bool {
    byte == 32 || byte == 9 || byte == 10 || byte == 12 || byte == 13
}

/// An ASCII digit.
pub open spec fn is_digit(byte: u8) -> bool {
    48 <= byte <= 57
}

/// Where the run of line-ending bytes starting at `from` stops, no later than
/// `to`.
pub open spec fn skip_line_ends(text: Seq<u8>, from: int, to: int) -> int
    decreases to - from,
{
    if from < to && is_line_end(text[from]) {
        skip_line_ends(text, from + 1, to)
    } else {
        from
    }
}

/// Where the run of line-ending bytes ending at `to` starts, no earlier than
/// `from`.
pub open spec fn back_over_line_ends(text: Seq<u8>, from: int, to: int) -> int
    decreases to - from,
{
    if from < to && is_line_end(text[to - 1]) {
        back_over_line_ends(text, from, to - 1)
    } else {
        to
    }
}

/// Where the run of bytes of `class` starting at `from` stops, no later than
/// `to`.
pub open spec fn skip_while(text: Seq<u8>, from: int, to: int, class: spec_fn(u8) -> bool) -> int
    decreases to - from,
{
    if from < to && class(text[from]) {
        skip_while(text, from + 1, to, class)
    } else {
        from
    }
}

/// Where the run of bytes equal to `byte` starting at `from` stops, no later
/// than `to`.
pub open spec fn skip_byte(text: Seq<u8>, from: int, to: int, byte: u8) -> int
    decreases to - from,
{
    if from < to && text[from] == byte {
        skip_byte(text, from + 1, to, byte)
    } else {
        from
    }
}

/// Where the run of bytes equal to `byte` ending at `to` starts, no earlier
/// than `from`.
pub open spec fn back_over_byte(text: Seq<u8>, from: int, to: int, byte: u8) -> int
    decreases to - from,
{
    if from < to && text[to - 1] == byte {
        back_over_byte(text, from, to - 1, byte)
    } else {
        to
    }
}

/// The bounds of [`skip_line_ends`].
pub proof fn lemma_skip_line_ends(text: Seq<u8>, from: int, to: int)
    requires
        from <= to,
    ensures
        from <= skip_line_ends(text, from, to) <= to,
        forall|k: int| from <= k < skip_line_ends(text, from, to) ==> is_line_end(#[trigger] text[k]),
        skip_line_ends(text, from, to) < to ==> !is_line_end(text[skip_line_ends(text, from, to)]),
    decreases to - from,
{
    if from < to && is_line_end(text[from]) {
        lemma_skip_line_ends(text, from + 1, to);
    }
}

/// The bounds of [`back_over_line_ends`].
pub proof fn lemma_back_over_line_ends(text: Seq<u8>, from: int, to: int)
    requires
        from <= to,
    ensures
        from <= back_over_line_ends(text, from, to) <= to,
        forall|k: int| back_over_line_ends(text, from, to) <= k < to ==> is_line_end(#[trigger] text[k]),
        back_over_line_ends(text, from, to) > from ==> !is_line_end(
            text[back_over_line_ends(text, from, to) - 1],
        ),
    decreases to - from,
{
    if from < to && is_line_end(text[to - 1]) {
        lemma_back_over_line_ends(text, from, to - 1);
    }
}

/// [`skip_byte`], run.
pub fn skip_byte_from(text: &[u8], from: usize, to: usize, byte: u8) -> (end: usize)
    requires
        from <= to <= text.len(),
    ensures
        end == skip_byte(text@, from as int, to as int, byte),
        from <= end <= to,
{
    let mut end = from;
    while end < to && text[end] == byte
        invariant
            from <= end <= to <= text.len(),
            skip_byte(text@, from as int, to as int, byte) == skip_byte(
                text@,
                end as int,
                to as int,
                byte,
            ),
        decreases to - end,
    {
        end = end + 1;
    }
    end
}

/// [`back_over_byte`], run.
pub fn back_over_byte_to(text: &[u8], from: usize, to: usize, byte: u8) -> (start: usize)
    requires
        from <= to <= text.len(),
    ensures
        start == back_over_byte(text@, from as int, to as int, byte),
        from <= start <= to,
{
    let mut start = to;
    while start > from && text[start - 1] == byte
        invariant
            from <= start <= to <= text.len(),
            back_over_byte(text@, from as int, to as int, byte) == back_over_byte(
                text@,
                from as int,
                start as int,
                byte,
            ),
        decreases start - from,
    {
        start = start - 1;
    }
    start
}

/// Where the run of ASCII digits starting at `from` stops, no later than `to`.
pub fn skip_digits(text: &[u8], from: usize, to: usize) -> (end: usize)
    requires
        from <= to <= text.len(),
    ensures
        end == skip_while(text@, from as int, to as int, |b: u8| is_digit(b)),
        from <= end <= to,
{
    let mut end = from;
    while end < to && text[end] >= 48 && text[end] <= 57
        invariant
            from <= end <= to <= text.len(),
            skip_while(text@, from as int, to as int, |b: u8| is_digit(b)) == skip_while(
                text@,
                end as int,
                to as int,
                |b: u8| is_digit(b),
            ),
        decreases to - end,
    {
        end = end + 1;
    }
    end
}

/// Where the run of spaces and tabs starting at `from` stops, no later than
/// `to`.
pub fn skip_blanks(text: &[u8], from: usize, to: usize) -> (end: usize)
    requires
        from <= to <= text.len(),
    ensures
        end == skip_while(text@, from as int, to as int, |b: u8| is_blank(b)),
        from <= end <= to,
{
    let mut end = from;
    while end < to && (text[end] == 32 || text[end] == 9)
        invariant
            from <= end <= to <= text.len(),
            skip_while(text@, from as int, to as int, |b: u8| is_blank(b)) == skip_while(
                text@,
                end as int,
                to as int,
                |b: u8| is_blank(b),
            ),
        decreases to - end,
    {
        end = end + 1;
    }
    end
}


/// A byte that is a whitespace character on its own: tab, line feed, vertical
/// tab, form feed, carriage return, space.
pub open spec fn is_white_byte(byte: u8) -> bool {
    byte == 32 || (9 <= byte && byte <= 13)
}

/// How many bytes the whitespace character starting at `at` takes, before
/// `end`, or 0 where none starts there.
///
/// The Unicode `White_Space` property, which `char::is_whitespace` is, in its
/// UTF-8 encodings: the six ASCII bytes, U+0085 and U+00A0, U+1680, U+2000 to
/// U+200A, U+2028, U+2029, U+202F, U+205F and U+3000.
pub open spec fn white_at(text: Seq<u8>, at: int, end: int) -> int {
    if at < end && is_white_byte(text[at]) {
        1
    } else if at + 1 < end && text[at] == 0xC2 && (text[at + 1] == 0x85 || text[at + 1] == 0xA0) {
        2
    } else if at + 2 < end && three_byte_white(text[at], text[at + 1], text[at + 2]) {
        3
    } else {
        0
    }
}

/// Whether three bytes encode one of the three-byte whitespace characters.
pub open spec fn three_byte_white(a: u8, b: u8, c: u8) -> bool {
    ||| (a == 0xE1 && b == 0x9A && c == 0x80)
    ||| (a == 0xE2 && b == 0x80 && ((0x80 <= c && c <= 0x8A) || c == 0xA8 || c == 0xA9 || c
        == 0xAF))
    ||| (a == 0xE2 && b == 0x81 && c == 0x9F)
    ||| (a == 0xE3 && b == 0x80 && c == 0x80)
}

/// How many bytes the whitespace character ending at `end` takes, after
/// `start`, or 0 where none ends there.
pub open spec fn white_before(text: Seq<u8>, start: int, end: int) -> int {
    if start < end && is_white_byte(text[end - 1]) {
        1
    } else if start + 1 < end && text[end - 2] == 0xC2 && (text[end - 1] == 0x85 || text[end - 1]
        == 0xA0) {
        2
    } else if start + 2 < end && three_byte_white(text[end - 3], text[end - 2], text[end - 1]) {
        3
    } else {
        0
    }
}

/// Where `start..end` begins once its leading whitespace is gone.
pub open spec fn trim_front(text: Seq<u8>, start: int, end: int) -> int
    decreases end - start,
{
    if start < end && white_at(text, start, end) > 0 {
        trim_front(text, start + white_at(text, start, end), end)
    } else {
        start
    }
}

/// Where `start..end` ends once its trailing whitespace is gone.
pub open spec fn trim_back(text: Seq<u8>, start: int, end: int) -> int
    decreases end - start,
{
    if start < end && white_before(text, start, end) > 0 {
        trim_back(text, start, end - white_before(text, start, end))
    } else {
        end
    }
}

/// The whitespace character starting at `at`, as [`white_at`] measures it.
pub fn white_len_at(text: &[u8], at: usize, end: usize) -> (len: usize)
    requires
        at <= end <= text.len(),
    ensures
        len == white_at(text@, at as int, end as int),
        len <= end - at,
{
    if at < end && (text[at] == 32 || (9 <= text[at] && text[at] <= 13)) {
        1
    } else if end - at > 1 && text[at] == 0xC2 && (text[at + 1] == 0x85 || text[at + 1] == 0xA0) {
        2
    } else if end - at > 2 && is_three_byte_white(text[at], text[at + 1], text[at + 2]) {
        3
    } else {
        0
    }
}

/// The whitespace character ending at `end`, as [`white_before`] measures it.
pub fn white_len_before(text: &[u8], start: usize, end: usize) -> (len: usize)
    requires
        start <= end <= text.len(),
    ensures
        len == white_before(text@, start as int, end as int),
        len <= end - start,
{
    if start < end && (text[end - 1] == 32 || (9 <= text[end - 1] && text[end - 1] <= 13)) {
        1
    } else if end - start > 1 && text[end - 2] == 0xC2 && (text[end - 1] == 0x85 || text[end - 1]
        == 0xA0) {
        2
    } else if end - start > 2 && is_three_byte_white(text[end - 3], text[end - 2], text[end - 1]) {
        3
    } else {
        0
    }
}

/// Whether three bytes encode one of the three-byte whitespace characters.
fn is_three_byte_white(a: u8, b: u8, c: u8) -> (yes: bool)
    ensures
        yes == three_byte_white(a, b, c),
{
    (a == 0xE1 && b == 0x9A && c == 0x80) || (a == 0xE2 && b == 0x80 && ((0x80 <= c && c <= 0x8A)
        || c == 0xA8 || c == 0xA9 || c == 0xAF)) || (a == 0xE2 && b == 0x81 && c == 0x9F) || (a
        == 0xE3 && b == 0x80 && c == 0x80)
}

/// `start..end` without the whitespace at either end, as `str::trim` cuts it.
pub fn trim_white(text: &[u8], start: usize, end: usize) -> (trimmed: std::ops::Range<usize>)
    requires
        start <= end <= text.len(),
    ensures
        trimmed.start == trim_front(text@, start as int, end as int),
        trimmed.end == trim_back(text@, trimmed.start as int, end as int),
        start <= trimmed.start <= trimmed.end <= end,
{
    let mut from = start;
    let mut width = white_len_at(text, from, end);
    while from < end && width > 0
        invariant
            start <= from <= end <= text.len(),
            width == white_at(text@, from as int, end as int),
            width <= end - from,
            trim_front(text@, start as int, end as int) == trim_front(text@, from as int, end as int),
        decreases end - from,
    {
        from = from + width;
        width = white_len_at(text, from, end);
    }
    let mut to = end;
    let mut width = white_len_before(text, from, to);
    while from < to && width > 0
        invariant
            from <= to <= end <= text.len(),
            width == white_before(text@, from as int, to as int),
            width <= to - from,
            trim_back(text@, from as int, end as int) == trim_back(text@, from as int, to as int),
        decreases to - from,
    {
        to = to - width;
        width = white_len_before(text, from, to);
    }
    from..to
}

/// Where `start..end` begins once its leading whitespace is gone, as
/// [`trim_front`] says.
pub fn trim_start_at(text: &[u8], start: usize, end: usize) -> (from: usize)
    requires
        start <= end <= text.len(),
    ensures
        from == trim_front(text@, start as int, end as int),
        start <= from <= end,
{
    let mut from = start;
    let mut width = white_len_at(text, from, end);
    while from < end && width > 0
        invariant
            start <= from <= end <= text.len(),
            width == white_at(text@, from as int, end as int),
            width <= end - from,
            trim_front(text@, start as int, end as int) == trim_front(text@, from as int, end as int),
        decreases end - from,
    {
        from = from + width;
        width = white_len_at(text, from, end);
    }
    from
}

/// Where `start..end` ends once its trailing whitespace is gone, as
/// [`trim_back`] says.
pub fn trim_end_at(text: &[u8], start: usize, end: usize) -> (to: usize)
    requires
        start <= end <= text.len(),
    ensures
        to == trim_back(text@, start as int, end as int),
        start <= to <= end,
{
    let mut to = end;
    let mut width = white_len_before(text, start, to);
    while start < to && width > 0
        invariant
            start <= to <= end <= text.len(),
            width == white_before(text@, start as int, to as int),
            width <= to - start,
            trim_back(text@, start as int, end as int) == trim_back(text@, start as int, to as int),
        decreases to - start,
    {
        to = to - width;
        width = white_len_before(text, start, to);
    }
    to
}

/// Where the run of line-ending bytes ending at `to` starts, no earlier than
/// `from`.
pub fn back_over_breaks(text: &[u8], from: usize, to: usize) -> (start: usize)
    requires
        from <= to <= text.len(),
    ensures
        start == back_over_line_ends(text@, from as int, to as int),
        from <= start <= to,
{
    let mut end = to;
    while end > from && (text[end - 1] == 10 || text[end - 1] == 13)
        invariant
            from <= end <= to <= text.len(),
            back_over_line_ends(text@, from as int, to as int) == back_over_line_ends(text@, from as int, end as int),
        decreases end - from,
    {
        end = end - 1;
    }
    end
}

} // verus!
