//! Which bytes one edit's block-scoped re-parse covers, decided against the
//! text as it was.
//!
//! An edit inside one block bounds its change to that block and the blank
//! lines around it. An edit that touches a block boundary (a written or
//! deleted newline, a blank line, a fence, a list marker, a setext
//! underline) widens to the block's neighbours, and the region is carried
//! out on both sides to a seam a slice can be cut at: a blank line, a block
//! that begins wherever it begins, or the Document's edge. A container the
//! edit leaves open past the region (the fence flip) carries the region on
//! to the line that closes it again.

use vstd::prelude::*;
use std::ops::Range;

use vstd::string::StringSliceAdditionalSpecFns;
use vstd::utf8::{decode_utf8, encode_utf8, is_char_boundary};

use crate::annotate::{Mark, Span};
use crate::document::{
    block_at_of, index, index_of, line_of, line_start_of, spans_reaching, Block, Document, Kind, Scope,
};
use crate::text::push_text;

verus! {

/// A fence's opening line, in the two things that close it again: the byte
/// it is written in, and how many of it there are.
#[derive(Clone, Copy, Debug, PartialEq, Eq, Structural)]
pub struct Fence {
    /// A backtick, a tilde, or the dash of a metadata block.
    pub byte: u8,
    /// How many of it opened the container.
    pub len: usize,
}

/// What a container left open past a region gives the scan to look for.
#[derive(Clone, Copy, Debug, PartialEq, Eq, Structural)]
pub enum Open {
    /// Read on for the line that closes this fence.
    Fence(Fence),
    /// Read on to the end of the Document: an HTML block runs to a closing
    /// tag, which no line scan can match.
    ToTheEnd,
}

/// The first byte of `line` from `k` on that is not a space.
pub open spec fn spaces_end(line: Seq<u8>, k: int) -> int
    decreases line.len() - k,
{
    if 0 <= k < line.len() && line[k] == 32 {
        spaces_end(line, k + 1)
    } else {
        k
    }
}

/// The first byte of `line` from `k` on that is not `byte`.
pub open spec fn run_end(line: Seq<u8>, byte: u8, k: int) -> int
    decreases line.len() - k,
{
    if 0 <= k < line.len() && line[k] == byte {
        run_end(line, byte, k + 1)
    } else {
        k
    }
}

/// Whether `byte` is ASCII white space.
pub open spec fn white_byte(byte: u8) -> bool {
    byte == 32 || (9 <= byte && byte <= 13)
}

/// Whether every byte of `line` from `k` on is ASCII white space.
pub open spec fn white_from(line: Seq<u8>, k: int) -> bool {
    forall|i: int| k <= i < line.len() ==> white_byte(#[trigger] line[i])
}

/// The fence `line` is written in: at most three spaces, then three or more
/// backticks, tildes or dashes; none for any other line.
pub open spec fn fence_of(line: Seq<u8>) -> Option<Fence> {
    let b = spaces_end(line, 0);
    if b > 3 || b >= line.len() {
        None
    } else {
        let byte = line[b];
        if !(byte == 96 || byte == 126 || byte == 45) {
            None
        } else {
            let e = run_end(line, byte, b);
            if e - b >= 3 {
                Some(Fence { byte, len: (e - b) as usize })
            } else {
                None
            }
        }
    }
}

/// Whether `line` closes `fence`: a fence line of the same byte, as long or
/// longer, with nothing but white space after it.
pub open spec fn closed_by(fence: Fence, line: Seq<u8>) -> bool {
    match fence_of(line) {
        Some(other) => other.byte == fence.byte && other.len >= fence.len && white_from(
            line,
            spaces_end(line, 0) + other.len,
        ),
        None => false,
    }
}

/// One past the end of the line of `text` that starts at `s`: past its
/// newline, or the end of the text.
pub open spec fn line_end(text: Seq<u8>, s: int) -> int
    decreases text.len() - s,
{
    if s < 0 || s >= text.len() {
        text.len() as int
    } else if text[s] == 10 {
        s + 1
    } else {
        line_end(text, s + 1)
    }
}

/// The byte just past the first line of `text` from `s` on that closes
/// `fence`; none where no line does.
pub open spec fn closes_from(fence: Fence, text: Seq<u8>, s: int) -> Option<int>
    decreases text.len() - s,
{
    if s < 0 || s >= text.len() {
        None
    } else {
        let e = line_end(text, s);
        if e <= s || e > text.len() {
            None
        } else if closed_by(fence, text.subrange(s, e)) {
            Some(e)
        } else {
            closes_from(fence, text, e)
        }
    }
}

/// The container the block `block`, of `kind`, opens and does not close
/// again: an HTML block always; a fence whose first line opens it and no
/// later line closes it.
pub open spec fn left_open_of(block: Seq<u8>, kind: Kind) -> Option<Open> {
    if kind == Kind::Html {
        Some(Open::ToTheEnd)
    } else if block.len() == 0 {
        None
    } else {
        let first = line_end(block, 0);
        match fence_of(block.subrange(0, first)) {
            Some(fence) => if closes_from(fence, block, first) is None {
                Some(Open::Fence(fence))
            } else {
                None
            },
            None => None,
        }
    }
}

proof fn lemma_spaces_end(line: Seq<u8>, k: int)
    requires
        0 <= k <= line.len(),
    ensures
        k <= spaces_end(line, k) <= line.len(),
    decreases line.len() - k,
{
    if k < line.len() && line[k] == 32 {
        lemma_spaces_end(line, k + 1);
    }
}

proof fn lemma_run_end(line: Seq<u8>, byte: u8, k: int)
    requires
        0 <= k <= line.len(),
    ensures
        k <= run_end(line, byte, k) <= line.len(),
    decreases line.len() - k,
{
    if k < line.len() && line[k] == byte {
        lemma_run_end(line, byte, k + 1);
    }
}

proof fn lemma_line_end(text: Seq<u8>, s: int)
    requires
        0 <= s < text.len(),
    ensures
        s < line_end(text, s) <= text.len(),
    decreases text.len() - s,
{
    if text[s] != 10 {
        if s + 1 < text.len() {
            lemma_line_end(text, s + 1);
        } else {
            assert(line_end(text, s + 1) == text.len());
        }
    }
}

proof fn lemma_not_white(line: Seq<u8>, from: int, i: int)
    requires
        from <= i < line.len(),
        !white_byte(line[i]),
    ensures
        !white_from(line, from),
{
}

proof fn lemma_closes_after(fence: Fence, text: Seq<u8>, s: int)
    ensures
        closes_from(fence, text, s) matches Some(e) ==> s < e <= text.len(),
    decreases text.len() - s,
{
    if 0 <= s < text.len() {
        let e = line_end(text, s);
        if e > s && e <= text.len() && !closed_by(fence, text.subrange(s, e)) {
            lemma_closes_after(fence, text, e);
        }
    }
}

/// The fence the bytes `text[s..e]` are written in.
pub fn fence_at(text: &[u8], s: usize, e: usize) -> (fence: Option<Fence>)
    requires
        s <= e <= text@.len(),
    ensures
        fence == fence_of(text@.subrange(s as int, e as int)),
{
    let ghost line = text@.subrange(s as int, e as int);
    let mut b: usize = s;
    while b < e && text[b] == 32
        invariant
            s <= b <= e <= text@.len(),
            line == text@.subrange(s as int, e as int),
            spaces_end(line, 0) == spaces_end(line, b - s),
        decreases e - b,
    {
        assert(line[b - s] == text@[b as int]);
        b = b + 1;
    }
    proof {
        lemma_spaces_end(line, 0);
        if b < e {
            assert(line[b - s] == text@[b as int]);
        }
        assert(spaces_end(line, b - s) == b - s);
    }
    if b - s > 3 || b >= e {
        return None;
    }
    let byte = text[b];
    if !(byte == 96 || byte == 126 || byte == 45) {
        return None;
    }
    let mut r: usize = b;
    while r < e && text[r] == byte
        invariant
            s <= b <= r <= e <= text@.len(),
            line == text@.subrange(s as int, e as int),
            run_end(line, byte, b - s) == run_end(line, byte, r - s),
        decreases e - r,
    {
        assert(line[r - s] == text@[r as int]);
        r = r + 1;
    }
    proof {
        if r < e {
            assert(line[r - s] == text@[r as int]);
        }
        assert(run_end(line, byte, r - s) == r - s);
        assert(line[b - s] == byte);
    }
    if r - b >= 3 {
        Some(Fence { byte, len: r - b })
    } else {
        None
    }
}

/// Whether the bytes `text[s..e]` close `fence`.
pub fn closes_line(fence: Fence, text: &[u8], s: usize, e: usize) -> (yes: bool)
    requires
        s <= e <= text@.len(),
    ensures
        yes == closed_by(fence, text@.subrange(s as int, e as int)),
{
    let ghost line = text@.subrange(s as int, e as int);
    assert(line.len() == e - s);
    match fence_at(text, s, e) {
        None => false,
        Some(other) => {
            if other.byte != fence.byte || other.len < fence.len {
                return false;
            }
            let mut b: usize = s;
            while b < e && text[b] == 32
                invariant
                    s <= b <= e <= text@.len(),
                    line == text@.subrange(s as int, e as int),
                    spaces_end(line, 0) == spaces_end(line, b - s),
                decreases e - b,
            {
                assert(line[b - s] == text@[b as int]);
                b = b + 1;
            }
            proof {
                if b < e {
                    assert(line[b - s] == text@[b as int]);
                }
                assert(spaces_end(line, b - s) == b - s);
                assert(spaces_end(line, 0) == b - s);
                lemma_spaces_end(line, b - s);
                lemma_run_end(line, other.byte, b - s);
                assert(b + other.len <= e);
            }
            let mut k: usize = b + other.len;
            while k < e
                invariant
                    s <= b,
                    b + other.len <= k <= e <= text@.len(),
                    line == text@.subrange(s as int, e as int),
                    forall|i: int| b - s + other.len <= i < k - s ==> white_byte(#[trigger] line[i]),
                    spaces_end(line, 0) == b - s,
                    fence_of(line) == Some(other),
                    other.byte == fence.byte && other.len >= fence.len,
                decreases e - k,
            {
                let c = text[k];
                assert(line[k - s] == c);
                if !(c == 32 || (9 <= c && c <= 13)) {
                    assert(!white_byte(line[k - s]));
                    assert(b - s + other.len <= k - s);
                    assert(k - s < line.len());
                    proof { lemma_not_white(line, b - s + other.len, k - s); }
                    assert(spaces_end(line, 0) + other.len == b - s + other.len);
                    return false;
                }
                k = k + 1;
            }
            assert(white_from(line, b - s + other.len));
            true
        },
    }
}

/// One past the end of the line of `text` that starts at `s`.
pub fn next_line_end(text: &[u8], s: usize) -> (e: usize)
    requires
        s < text@.len(),
    ensures
        e == line_end(text@, s as int),
        s < e <= text@.len(),
{
    proof {
        lemma_line_end(text@, s as int);
    }
    let mut k: usize = s;
    while k < text.len() && text[k] != 10
        invariant
            s <= k <= text@.len(),
            line_end(text@, s as int) == line_end(text@, k as int),
        decreases text.len() - k,
    {
        k = k + 1;
    }
    if k < text.len() {
        k + 1
    } else {
        k
    }
}

/// The byte just past the first line of `text` from `s` on that closes
/// `fence`, or none.
pub fn closes(fence: Fence, text: &[u8], s: usize) -> (found: Option<usize>)
    ensures
        found == (match closes_from(fence, text@, s as int) {
            Some(e) => Some(e as usize),
            None => None,
        }),
        found matches Some(e) ==> s < e <= text@.len(),
{
    proof {
        lemma_closes_after(fence, text@, s as int);
    }
    let mut at: usize = s;
    if at >= text.len() {
        return None;
    }
    while at < text.len()
        invariant
            s <= at <= text@.len(),
            closes_from(fence, text@, s as int) == closes_from(fence, text@, at as int),
            at == s || at <= text@.len(),
            closes_from(fence, text@, s as int) matches Some(e) ==> s < e,
        decreases text.len() - at,
    {
        let e = next_line_end(text, at);
        if closes_line(fence, text, at, e) {
            return Some(e);
        }
        at = e;
    }
    None
}

/// The container the block `text[s..e]`, of `kind`, opens and does not
/// close again.
pub fn left_open(text: &[u8], s: usize, e: usize, kind: Kind) -> (open: Option<Open>)
    requires
        s <= e <= text@.len(),
    ensures
        open == left_open_of(text@.subrange(s as int, e as int), kind),
{
    if kind == Kind::Html {
        return Some(Open::ToTheEnd);
    }
    if s == e {
        return None;
    }
    let ghost block = text@.subrange(s as int, e as int);
    let mut k: usize = s;
    let mut block_bytes: Vec<u8> = Vec::new();
    while k < e
        invariant
            s <= k <= e <= text@.len(),
            block_bytes@ == text@.subrange(s as int, k as int),
        decreases e - k,
    {
        block_bytes.push(text[k]);
        proof {
            assert(block_bytes@ =~= text@.subrange(s as int, k + 1));
        }
        k = k + 1;
    }
    let bytes = block_bytes.as_slice();
    assert(bytes@ == block);
    let first = next_line_end(bytes, 0);
    proof {
        assert(block.subrange(0, first as int) =~= bytes@.subrange(0, first as int));
    }
    match fence_at(bytes, 0, first) {
        Some(fence) => {
            if closes(fence, bytes, first).is_none() {
                Some(Open::Fence(fence))
            } else {
                None
            }
        },
        None => None,
    }
}

/// Whether block `i` of `blocks` is a gap: blank lines, and so a byte
/// nothing is open at.
pub open spec fn blank(blocks: Seq<(int, int, Kind)>, i: int) -> bool {
    blocks[i].2 == Kind::Gap
}

/// Whether block `i` starts at a seam a slice can be cut at: it is a gap,
/// or it begins wherever it begins.
pub open spec fn settled(blocks: Seq<(int, int, Kind)>, i: int) -> bool {
    blank(blocks, i) || blocks[i].2.spec_begins_a_block()
}

/// The last block at or over `k` that is not a gap, or the first block.
pub open spec fn before_from(blocks: Seq<(int, int, Kind)>, k: int) -> int
    decreases k + 1,
{
    if k < 0 {
        0
    } else if !blank(blocks, k) {
        k
    } else {
        before_from(blocks, k - 1)
    }
}

/// The first block at or under `k` that is not a gap, or the last block.
pub open spec fn after_from(blocks: Seq<(int, int, Kind)>, k: int) -> int
    decreases blocks.len() - k,
{
    if k < 0 || k >= blocks.len() - 1 {
        if 0 <= k < blocks.len() && !blank(blocks, k) { k } else { blocks.len() - 1 }
    } else if !blank(blocks, k) {
        k
    } else {
        after_from(blocks, k + 1)
    }
}

/// `lo` walked up until the block there is settled, or to the first block.
pub open spec fn settle_up(blocks: Seq<(int, int, Kind)>, lo: int) -> int
    decreases lo,
{
    if 0 < lo < blocks.len() && !settled(blocks, lo) {
        settle_up(blocks, lo - 1)
    } else {
        lo
    }
}

/// The block a region beginning at block `hi` ends with: walked down while
/// the edge under it is not one a slice can be cut at, or it ends before
/// `past`.
pub open spec fn gap_out(blocks: Seq<(int, int, Kind)>, hi: int, past: int) -> int
    decreases blocks.len() - hi,
{
    if 0 <= hi < blocks.len() - 1 && ((!blank(blocks, hi) && !blocks[hi + 1].2.spec_begins_a_block())
        || blocks[hi].1 < past) {
        gap_out(blocks, hi + 1, past)
    } else {
        hi
    }
}

/// Whether `bytes` hold a newline from `s` to `e`.
pub open spec fn has_newline(bytes: Seq<u8>, s: int, e: int) -> bool {
    exists|k: int| s <= k < e && 0 <= k < bytes.len() && #[trigger] bytes[k] == 10
}

/// Whether the edit at `s..e` reaches into `marker`: an insertion, a point,
/// when it falls inside it; a deletion when it overlaps it at all.
pub open spec fn touches(s: int, e: int, marker: Range<usize>) -> bool {
    if s == e {
        marker.start <= s < marker.end
    } else {
        s < marker.end && marker.start < e
    }
}

/// Whether a list marker of `spans` is touched by the edit at `s..e`.
pub open spec fn marker_touched(spans: Seq<Span>, s: int, e: int) -> bool {
    exists|k: int|
        0 <= k < spans.len() && ((#[trigger] spans[k]).mark == Mark::BulletMarker || spans[k].mark == Mark::OrderedMarker)
            && touches(s, e, spans[k].at)
}

/// The byte the last line of the bytes `s..e` starts at.
pub open spec fn last_line_start(bytes: Seq<u8>, s: int, e: int) -> int {
    let line = if e > s { line_of(bytes, e - 1) } else { line_of(bytes, s) };
    line_start_of(bytes, line)
}

/// The spans the Document hands out for the bytes `s..e`.
pub open spec fn spans_over(blocks: Seq<(int, int, Kind)>, spans: Seq<Span>, len: int, s: int, e: int) -> Seq<Span> {
    spans_reaching(
        blocks,
        spans,
        match block_at_of(blocks, len, s) {
            Some(i) => i,
            None => 0,
        },
        e,
        0,
        0,
    )
}

/// Whether the edit of `s..e` writing `inserted` touches something block
/// `f` alone cannot answer: a newline written or taken away, a gap, a
/// fence or front matter, a list marker, or a setext heading's underline.
pub open spec fn at_a_boundary(
    bytes: Seq<u8>,
    blocks: Seq<(int, int, Kind)>,
    spans: Seq<Span>,
    s: int,
    e: int,
    inserted: Seq<u8>,
    f: int,
) -> bool {
    if has_newline(inserted, 0, inserted.len() as int) || has_newline(bytes, s, e) {
        true
    } else {
        let kind = blocks[f].2;
        if kind == Kind::Gap || kind == (Kind::Code { fenced: true }) || kind == Kind::FrontMatter {
            true
        } else if kind == Kind::List {
            marker_touched(spans_over(blocks, spans, bytes.len() as int, blocks[f].0, blocks[f].1), s, e)
        } else if kind == (Kind::Heading { setext: true }) {
            e >= last_line_start(bytes, blocks[f].0, blocks[f].1)
        } else {
            false
        }
    }
}

/// The bytes the edit of `s..e` re-parses before any container scan: the
/// block the edit is in, widened to its neighbours where the edit crossed a
/// boundary, carried out to seams on both sides; the whole Document where no
/// block holds the edit.
pub open spec fn widened_of(
    bytes: Seq<u8>,
    blocks: Seq<(int, int, Kind)>,
    spans: Seq<Span>,
    s: int,
    e: int,
    inserted: Seq<u8>,
) -> (int, int) {
    match block_at_of(blocks, bytes.len() as int, s) {
        None => (0, bytes.len() as int),
        Some(f) => {
            let widen = e > blocks[f].1 || at_a_boundary(bytes, blocks, spans, s, e, inserted, f);
            let lo = if widen { before_from(blocks, f - 1) } else { f };
            let hi = if widen { after_from(blocks, f + 1) } else { f };
            (blocks[settle_up(blocks, lo)].0, blocks[gap_out(blocks, hi, e)].1)
        },
    }
}

/// Whether the region `r` can be cut out for the edit of `s..e`: it holds
/// the edit, and each edge is the Document's own or a character boundary.
pub open spec fn cuttable(bytes: Seq<u8>, r: (int, int), s: int, e: int) -> bool {
    &&& 0 <= r.0 <= s
    &&& e <= r.1 <= bytes.len()
    &&& (r.0 == 0 || is_char_boundary(bytes.subrange(0, s), r.0))
    &&& (r.1 == bytes.len() || is_char_boundary(bytes.subrange(e, bytes.len() as int), r.1 - e))
}

/// The region's bytes with the edit written into them.
pub open spec fn slice_bytes(bytes: Seq<u8>, r: (int, int), s: int, e: int, inserted: Seq<u8>) -> Seq<u8> {
    bytes.subrange(r.0, s) + inserted + bytes.subrange(e, r.1)
}

/// The block index of the slice, rebased onto the Document.
pub open spec fn slice_index(bytes: Seq<u8>, r: (int, int), s: int, e: int, inserted: Seq<u8>) -> Seq<(int, int, Kind)> {
    let sb = slice_bytes(bytes, r, s, e, inserted);
    index_of(decode_utf8(sb), sb, r.0)
}

/// The container a re-parsed slice leaves open past the region `r`, where
/// there is Document left for it to reach.
pub open spec fn left_open_at(len: int, r: (int, int), found: Seq<(int, int, Kind)>, sb: Seq<u8>) -> Option<Open> {
    if found.len() == 0 {
        None
    } else {
        let last = found.last();
        if r.1 >= len || !last.2.spec_opens() {
            None
        } else {
            left_open_of(sb.subrange(last.0 - r.0, last.1 - r.0), last.2)
        }
    }
}

/// Where the container `open` re-converges past `from`: the line that closes
/// the fence, carried out to a block edge nothing is open at; the end of the
/// Document where nothing closes it.
pub open spec fn reconverges_of(bytes: Seq<u8>, blocks: Seq<(int, int, Kind)>, from: int, open: Open) -> int {
    match open {
        Open::ToTheEnd => bytes.len() as int,
        Open::Fence(fence) => match closes_from(fence, bytes, from) {
            None => bytes.len() as int,
            Some(closed) => match block_at_of(blocks, bytes.len() as int, closed) {
                None => bytes.len() as int,
                Some(hi) => {
                    let end = blocks[gap_out(blocks, hi, closed)].1;
                    if end > closed { end } else { closed }
                },
            },
        },
    }
}

/// The region the edit re-parses, from `r` on: cut where it can be, and
/// carried on while the slice leaves a container open past it; the whole
/// Document where a region cannot be cut.
pub open spec fn plan_from(
    bytes: Seq<u8>,
    blocks: Seq<(int, int, Kind)>,
    s: int,
    e: int,
    inserted: Seq<u8>,
    r: (int, int),
) -> (int, int)
    decreases bytes.len() - r.1,
{
    if !cuttable(bytes, r, s, e) || r.1 >= bytes.len() {
        if cuttable(bytes, r, s, e) { r } else { (0, bytes.len() as int) }
    } else {
        let sb = slice_bytes(bytes, r, s, e, inserted);
        match left_open_at(bytes.len() as int, r, slice_index(bytes, r, s, e, inserted), sb) {
            None => r,
            Some(open) => {
                let next = reconverges_of(bytes, blocks, r.1, open);
                let end = if r.1 < next <= bytes.len() { next } else { bytes.len() as int };
                plan_from(bytes, blocks, s, e, inserted, (r.0, end))
            },
        }
    }
}

/// The region the edit of `s..e` writing `inserted` re-parses.
pub open spec fn plan_of(
    bytes: Seq<u8>,
    blocks: Seq<(int, int, Kind)>,
    spans: Seq<Span>,
    s: int,
    e: int,
    inserted: Seq<u8>,
) -> (int, int) {
    plan_from(bytes, blocks, s, e, inserted, widened_of(bytes, blocks, spans, s, e, inserted))
}

/// How many blocks, from `from` on, start before `x`.
pub open spec fn below_through(blocks: Seq<(int, int, Kind)>, x: int, from: int) -> int
    decreases blocks.len() - from,
{
    if 0 <= from < blocks.len() && blocks[from].0 < x {
        below_through(blocks, x, from + 1)
    } else {
        from
    }
}

proof fn lemma_below_grows(blocks: Seq<(int, int, Kind)>, x: int, y: int, k: int)
    requires
        x <= y,
        0 <= k,
    ensures
        below_through(blocks, x, k) <= below_through(blocks, y, k),
        k <= below_through(blocks, x, k),
        below_through(blocks, y, k) <= if k <= blocks.len() { blocks.len() as int } else { k },
    decreases blocks.len() - k,
{
    if k < blocks.len() {
        lemma_below_grows(blocks, x, y, k + 1);
    }
}

/// The kind of block `i` of the index the splice makes: the blocks before
/// the region, the slice's, then the blocks after it.
pub open spec fn spliced_kind(
    blocks: Seq<(int, int, Kind)>,
    found: Seq<(int, int, Kind)>,
    head: int,
    stale: int,
    i: int,
) -> Kind {
    if i < head {
        blocks[i].2
    } else if i < head + found.len() {
        found[i - head].2
    } else {
        blocks[stale + i - head - found.len()].2
    }
}

/// The blocks the re-parse of region `r` produced, by their index after the
/// edit: the slice's blocks in place of the region's, a gap the slice ends
/// in joined to a gap after it, and a gap it begins with joined to a gap
/// before it.
pub open spec fn scope_blocks(blocks: Seq<(int, int, Kind)>, r: (int, int), found: Seq<(int, int, Kind)>) -> (int, int) {
    let head = below_through(blocks, r.0, 0);
    let stale = below_through(blocks, r.1, 0);
    let grew = found.len() as int;
    let n = head + grew + (blocks.len() - stale);
    let tail = head + grew;
    let heal_tail = 0 < tail < n && spliced_kind(blocks, found, head, stale, tail - 1) == Kind::Gap
        && spliced_kind(blocks, found, head, stale, tail) == Kind::Gap;
    let m = if heal_tail { n - 1 } else { n };
    let at_head = if heal_tail && head >= tail {
        spliced_kind(blocks, found, head, stale, head + 1)
    } else {
        spliced_kind(blocks, found, head, stale, head)
    };
    let heal_head = 0 < head < m && spliced_kind(blocks, found, head, stale, head - 1) == Kind::Gap && at_head
        == Kind::Gap;
    if heal_head {
        (head - 1, tail - 1)
    } else {
        (head, tail)
    }
}

/// What the edit of `s..e` writing `inserted` re-parses, as the blocks and
/// the bytes it covers after the edit.
pub open spec fn scope_of(
    bytes: Seq<u8>,
    blocks: Seq<(int, int, Kind)>,
    spans: Seq<Span>,
    s: int,
    e: int,
    inserted: Seq<u8>,
) -> Scope {
    let r = plan_of(bytes, blocks, spans, s, e, inserted);
    let b = scope_blocks(blocks, r, slice_index(bytes, r, s, e, inserted));
    Scope {
        blocks: Range { start: b.0 as usize, end: b.1 as usize },
        bytes: Range { start: r.0 as usize, end: (r.1 - (e - s) + inserted.len()) as usize },
    }
}

impl Document {
    /// The kind of block `i`.
    fn kind_of(&self, i: usize) -> (kind: Kind)
        requires
            i < self.spec_blocks().len(),
        ensures
            kind == self.spec_blocks()[i as int].2,
    {
        self.block(i).kind
    }

    /// Whether block `i` is a gap.
    fn is_blank(&self, i: usize) -> (yes: bool)
        requires
            i < self.spec_blocks().len(),
        ensures
            yes == blank(self.spec_blocks(), i as int),
    {
        self.kind_of(i) == Kind::Gap
    }

    /// The block over `found` that is not a gap, or the first.
    fn before(&self, found: usize) -> (at: usize)
        requires
            found < self.spec_blocks().len(),
        ensures
            at == before_from(self.spec_blocks(), found - 1),
            at < self.spec_blocks().len(),
    {
        let mut k: usize = found;
        while k > 0 && self.is_blank(k - 1)
            invariant
                k <= found < self.spec_blocks().len(),
                before_from(self.spec_blocks(), found - 1) == before_from(self.spec_blocks(), k - 1),
            decreases k,
        {
            k = k - 1;
        }
        if k == 0 {
            0
        } else {
            k - 1
        }
    }

    /// The block under `found` that is not a gap, or the last.
    fn after(&self, found: usize) -> (at: usize)
        requires
            found < self.spec_blocks().len(),
        ensures
            at == after_from(self.spec_blocks(), found + 1),
            at < self.spec_blocks().len(),
    {
        let n = self.block_count();
        let last = n - 1;
        let mut k: usize = found + 1;
        while k < last && self.is_blank(k)
            invariant
                found + 1 <= k,
                n == self.spec_blocks().len(),
                last == n - 1,
                after_from(self.spec_blocks(), found + 1) == after_from(self.spec_blocks(), k as int),
            decreases last - k,
        {
            k = k + 1;
        }
        if k < last {
            k
        } else if k == last && !self.is_blank(k) {
            k
        } else {
            last
        }
    }

    /// `lo` walked up to a settled block, or to the first.
    fn settle(&self, lo: usize) -> (at: usize)
        requires
            lo < self.spec_blocks().len(),
        ensures
            at == settle_up(self.spec_blocks(), lo as int),
            at <= lo,
    {
        let mut k = lo;
        while k > 0 && !(self.is_blank(k) || self.kind_of(k).begins_a_block())
            invariant
                k <= lo < self.spec_blocks().len(),
                settle_up(self.spec_blocks(), lo as int) == settle_up(self.spec_blocks(), k as int),
            decreases k,
        {
            k = k - 1;
        }
        k
    }

    /// The block a region beginning at block `hi` ends with.
    fn out_to_a_gap(&self, hi: usize, past: usize) -> (at: usize)
        requires
            hi < self.spec_blocks().len(),
        ensures
            at == gap_out(self.spec_blocks(), hi as int, past as int),
            at < self.spec_blocks().len(),
    {
        let n = self.block_count();
        let mut k = hi;
        while k < n - 1 && ((!self.is_blank(k) && !self.kind_of(k + 1).begins_a_block()) || self.block(k).at.end < past)
            invariant
                hi <= k < n,
                n == self.spec_blocks().len(),
                gap_out(self.spec_blocks(), hi as int, past as int) == gap_out(self.spec_blocks(), k as int, past as int),
            decreases n - k,
        {
            k = k + 1;
        }
        k
    }

    /// Whether the edit of `s..e` writing `inserted` touches something the
    /// block `f` alone cannot answer.
    #[verifier::loop_isolation(false)]
    fn at_a_boundary(&self, s: usize, e: usize, inserted: &str, f: usize) -> (yes: bool)
        requires
            s <= e <= self.spec_bytes().len(),
            f < self.spec_blocks().len(),
        ensures
            yes == at_a_boundary(self.spec_bytes(), self.spec_blocks(), self.spec_spans(), s as int, e as int,
                inserted.spec_bytes(), f as int),
    {
        let ins = inserted.as_bytes();
        let mut k: usize = 0;
        while k < ins.len()
            invariant
                0 <= k <= ins@.len(),
                ins@ == inserted.spec_bytes(),
                forall|j: int| 0 <= j < k ==> ins@[j] != 10,
            decreases ins.len() - k,
        {
            if ins[k] == 10 {
                assert(inserted.spec_bytes()[k as int] == 10);
                return true;
            }
            k = k + 1;
        }
        let text = self.text().as_bytes();
        let mut j: usize = s;
        while j < e
            invariant
                s <= j <= e <= text@.len(),
                text@ == self.spec_bytes(),
                forall|i: int| s <= i < j ==> text@[i] != 10,
            decreases e - j,
        {
            if text[j] == 10 {
                assert(self.spec_bytes()[j as int] == 10);
                return true;
            }
            j = j + 1;
        }
        assert(!has_newline(inserted.spec_bytes(), 0, inserted.spec_bytes().len() as int));
        assert(!has_newline(self.spec_bytes(), s as int, e as int));
        let block = self.block(f);
        match block.kind {
            Kind::Gap | Kind::Code { fenced: true } | Kind::FrontMatter => true,
            Kind::List => {
                let found = self.spans_in(&block.at);
                let ghost over = spans_over(self.spec_blocks(), self.spec_spans(), self.spec_bytes().len() as int,
                    self.spec_blocks()[f as int].0, self.spec_blocks()[f as int].1);
                assert(found@ == over);
                let mut m: usize = 0;
                while m < found.len()
                    invariant
                        0 <= m <= found@.len(),
                        found@ == over,
                        forall|i: int| 0 <= i < m ==> !(((#[trigger] found@[i]).mark == Mark::BulletMarker
                            || found@[i].mark == Mark::OrderedMarker) && touches(s as int, e as int, found@[i].at)),
                    decreases found.len() - m,
                {
                    let mark = found[m].mark;
                    let at = &found[m].at;
                    let touched = if s == e {
                        at.start <= s && s < at.end
                    } else {
                        s < at.end && at.start < e
                    };
                    if (mark == Mark::BulletMarker || mark == Mark::OrderedMarker) && touched {
                        assert(touches(s as int, e as int, found@[m as int].at));
                        assert(over[m as int] == found@[m as int]);
                        assert(marker_touched(over, s as int, e as int));
                        assert(self.spec_blocks()[f as int].2 == Kind::List);
                        assert(at_a_boundary(self.spec_bytes(), self.spec_blocks(), self.spec_spans(), s as int,
                            e as int, inserted.spec_bytes(), f as int));
                        return true;
                    }
                    m = m + 1;
                }
                false
            },
            Kind::Heading { setext: true } => {
                let line = if block.at.end > block.at.start {
                    self.line_of(block.at.end - 1)
                } else {
                    self.line_of(block.at.start)
                };
                e >= self.line_start(line)
            },
            _ => false,
        }
    }

    /// The bytes the edit of `s..e` re-parses before any container scan.
    fn widened(&self, s: usize, e: usize, inserted: &str) -> (r: (usize, usize))
        requires
            s <= e <= self.spec_bytes().len(),
        ensures
            (r.0 as int, r.1 as int) == widened_of(self.spec_bytes(), self.spec_blocks(), self.spec_spans(), s as int,
                e as int, inserted.spec_bytes()),
    {
        let len = self.text().as_bytes().len();
        match self.block_at(s) {
            None => (0, len),
            Some(f) => {
                let widen = e > self.block(f).at.end || self.at_a_boundary(s, e, inserted, f);
                let lo = if widen { self.before(f) } else { f };
                let hi = if widen { self.after(f) } else { f };
                let top = self.settle(lo);
                let bottom = self.out_to_a_gap(hi, e);
                (self.block(top).at.start, self.block(bottom).at.end)
            },
        }
    }
}

impl Document {
    /// Whether the region `r0..r1` can be cut out for the edit of `s..e`.
    fn cuttable(&self, r0: usize, r1: usize, s: usize, e: usize) -> (yes: bool)
        requires
            s <= e <= self.spec_bytes().len(),
            is_char_boundary(self.spec_bytes(), s as int),
            is_char_boundary(self.spec_bytes(), e as int),
        ensures
            yes == cuttable(self.spec_bytes(), (r0 as int, r1 as int), s as int, e as int),
    {
        let t = self.text();
        let n = t.as_bytes().len();
        if !(r0 <= s && e <= r1 && r1 <= n) {
            return false;
        }
        let (a, _) = t.split_at(s);
        let (_, b) = t.split_at(e);
        (r0 == 0 || a.is_char_boundary(r0)) && (r1 == n || b.is_char_boundary(r1 - e))
    }

    /// The region `r0..r1`'s bytes with the edit of `s..e` written into them.
    fn slice_at(&self, r0: usize, r1: usize, s: usize, e: usize, inserted: &str) -> (slice: String)
        requires
            s <= e <= self.spec_bytes().len(),
            is_char_boundary(self.spec_bytes(), s as int),
            is_char_boundary(self.spec_bytes(), e as int),
            cuttable(self.spec_bytes(), (r0 as int, r1 as int), s as int, e as int),
        ensures
            encode_utf8(slice@) == slice_bytes(self.spec_bytes(), (r0 as int, r1 as int), s as int, e as int,
                inserted.spec_bytes()),
            slice@ == decode_utf8(encode_utf8(slice@)),
    {
        let t = self.text();
        let n = t.as_bytes().len();
        let ghost bytes = self.spec_bytes();
        let (a, _) = t.split_at(s);
        let (_, b) = t.split_at(e);
        let head = if r0 == 0 {
            a
        } else {
            let (_, h) = a.split_at(r0);
            h
        };
        let tail = if r1 == n {
            b
        } else {
            let (x, _) = b.split_at(r1 - e);
            x
        };
        proof {
            assert(head.spec_bytes() =~= bytes.subrange(r0 as int, s as int));
            assert(tail.spec_bytes() =~= bytes.subrange(e as int, r1 as int));
        }
        let mut slice = String::new();
        push_text(&mut slice, head);
        push_text(&mut slice, inserted);
        push_text(&mut slice, tail);
        proof {
            assert(slice@ =~= head@ + inserted@ + tail@);
            crate::document::edit::lemma_encode_concat(head@ + inserted@, tail@);
            crate::document::edit::lemma_encode_concat(head@, inserted@);
            vstd::utf8::encode_utf8_decode_utf8(slice@);
        }
        slice
    }

    /// The container the slice of region `r0..r1`, whose index is `found`,
    /// leaves open past it.
    fn open_past(&self, r0: usize, r1: usize, found: &Vec<Block>, slice: &str) -> (open: Option<Open>)
        requires
            forall|i: int| 0 <= i < found@.len() ==> r0 <= (#[trigger] found@[i]).at.start <= found@[i].at.end <= r0
                + slice.spec_bytes().len(),
        ensures
            open == left_open_at(self.spec_bytes().len() as int, (r0 as int, r1 as int),
                crate::document::block_views(found@), slice.spec_bytes()),
    {
        let n = self.text().as_bytes().len();
        if found.len() == 0 {
            return None;
        }
        let last = &found[found.len() - 1];
        proof {
            assert(crate::document::block_views(found@).last() == (last.at.start as int, last.at.end as int, last.kind));
        }
        if r1 >= n || !last.kind.opens() {
            return None;
        }
        left_open(slice.as_bytes(), last.at.start - r0, last.at.end - r0, last.kind)
    }

    /// Where the container `open` re-converges past `from`.
    fn reconverges(&self, from: usize, open: Open) -> (end: usize)
        ensures
            end == reconverges_of(self.spec_bytes(), self.spec_blocks(), from as int, open),
    {
        let text = self.text().as_bytes();
        let n = text.len();
        let ghost bytes = self.spec_bytes();
        assert(text@ == bytes);
        assert(n == bytes.len());
        let fence = match open {
            Open::ToTheEnd => {
                return n;
            },
            Open::Fence(fence) => fence,
        };
        let closed = match closes(fence, text, from) {
            None => {
                return n;
            },
            Some(closed) => closed,
        };
        proof {
            lemma_closes_after(fence, bytes, from as int);
        }
        assert(closes_from(fence, bytes, from as int) == Some(closed as int));
        let hi = match self.block_at(closed) {
            None => {
                return n;
            },
            Some(hi) => hi,
        };
        let at = self.out_to_a_gap(hi, closed);
        let end = self.block(at).at.end;
        if end > closed {
            end
        } else {
            closed
        }
    }

    /// The region the edit of `s..e` writing `inserted` re-parses, and the
    /// slice's block index over it.
    fn plan(&self, s: usize, e: usize, inserted: &str) -> (planned: (usize, usize, Vec<Block>))
        requires
            s <= e <= self.spec_bytes().len(),
            is_char_boundary(self.spec_bytes(), s as int),
            is_char_boundary(self.spec_bytes(), e as int),
            self.spec_bytes().len() - (e - s) + inserted.spec_bytes().len() <= usize::MAX,
        ensures
            (planned.0 as int, planned.1 as int) == plan_of(self.spec_bytes(), self.spec_blocks(), self.spec_spans(),
                s as int, e as int, inserted.spec_bytes()),
            cuttable(self.spec_bytes(), (planned.0 as int, planned.1 as int), s as int, e as int),
            crate::document::block_views(planned.2@) == slice_index(self.spec_bytes(), (planned.0 as int,
                planned.1 as int), s as int, e as int, inserted.spec_bytes()),
    {
        let n = self.text().as_bytes().len();
        let ghost bytes = self.spec_bytes();
        let ghost blocks = self.spec_blocks();
        let ghost ins = inserted.spec_bytes();
        let w = self.widened(s, e, inserted);
        let mut r0 = w.0;
        let mut r1 = w.1;
        loop
            invariant
                s <= e <= n,
                n == bytes.len(),
                bytes == self.spec_bytes(),
                blocks == self.spec_blocks(),
                ins == inserted.spec_bytes(),
                is_char_boundary(bytes, s as int),
                is_char_boundary(bytes, e as int),
                bytes.len() - (e - s) + ins.len() <= usize::MAX,
                plan_of(bytes, blocks, self.spec_spans(), s as int, e as int, ins) == plan_from(bytes, blocks,
                    s as int, e as int, ins, (r0 as int, r1 as int)),
            decreases n - r1,
        {
            if !self.cuttable(r0, r1, s, e) {
                r0 = 0;
                r1 = n;
                proof {
                    assert(bytes.subrange(0, s as int).len() == s);
                }
                let slice = self.slice_at(r0, r1, s, e, inserted);
                let found = index(slice.as_str(), r0);
                proof {
                    vstd::utf8::encode_utf8_decode_utf8(slice@);
                }
                return (r0, r1, found);
            }
            let slice = self.slice_at(r0, r1, s, e, inserted);
            let found = index(slice.as_str(), r0);
            if r1 >= n {
                return (r0, r1, found);
            }
            match self.open_past(r0, r1, &found, slice.as_str()) {
                None => {
                    return (r0, r1, found);
                },
                Some(open) => {
                    let next = self.reconverges(r1, open);
                    r1 = if r1 < next && next <= n {
                        next
                    } else {
                        n
                    };
                },
            }
        }
    }

    /// How many blocks, from the first on, start before `x`.
    fn below(&self, x: usize) -> (count: usize)
        ensures
            count == below_through(self.spec_blocks(), x as int, 0),
            count <= self.spec_blocks().len(),
    {
        let n = self.block_count();
        let mut k: usize = 0;
        while k < n && self.block(k).at.start < x
            invariant
                k <= n,
                n == self.spec_blocks().len(),
                below_through(self.spec_blocks(), x as int, 0) == below_through(self.spec_blocks(), x as int, k as int),
            decreases n - k,
        {
            k = k + 1;
        }
        k
    }

    /// The kind of block `i` of the index the splice makes.
    fn spliced(&self, found: &Vec<Block>, head: usize, stale: usize, i: u128) -> (kind: Kind)
        requires
            head <= stale <= self.spec_blocks().len(),
            i < head + found@.len() + (self.spec_blocks().len() - stale),
        ensures
            kind == spliced_kind(self.spec_blocks(), crate::document::block_views(found@), head as int, stale as int,
                i as int),
    {
        let n = self.block_count();
        if i < head as u128 {
            let k = i as usize;
            assert(k as int == i as int);
            self.kind_of(k)
        } else if i < head as u128 + found.len() as u128 {
            let k = (i - head as u128) as usize;
            assert(k as int == i - head);
            assert(crate::document::block_views(found@)[k as int].2 == found@[k as int].kind);
            found[k].kind
        } else {
            let grew = found.len() as u128;
            assert(i >= head + found@.len());
            let over = i - head as u128 - grew;
            assert(over < self.spec_blocks().len() - stale);
            let k = stale + over as usize;
            assert(k as int == stale + i - head - found@.len());
            self.kind_of(k)
        }
    }

    /// The blocks and bytes the edit of `s..e` writing `inserted`
    /// re-parses, as they are after the edit.
    pub(crate) fn scope(&self, s: usize, e: usize, inserted: &str) -> (scope: Scope)
        requires
            s <= e <= self.spec_bytes().len(),
            is_char_boundary(self.spec_bytes(), s as int),
            is_char_boundary(self.spec_bytes(), e as int),
            self.spec_bytes().len() - (e - s) + inserted.spec_bytes().len() <= usize::MAX,
        ensures
            scope == scope_of(self.spec_bytes(), self.spec_blocks(), self.spec_spans(), s as int, e as int,
                inserted.spec_bytes()),
    {
        let (r0, r1, found) = self.plan(s, e, inserted);
        let head = self.below(r0);
        let stale = self.below(r1);
        let n = self.block_count();
        proof {
            lemma_below_grows(self.spec_blocks(), r0 as int, r1 as int, 0);
        }
        let h = head as u128;
        let grew = found.len() as u128;
        let total = h + grew + (n - stale) as u128;
        let tail = h + grew;
        let heal_tail = 0 < tail && tail < total && self.spliced(&found, head, stale, tail - 1) == Kind::Gap
            && self.spliced(&found, head, stale, tail) == Kind::Gap;
        let m = if heal_tail { total - 1 } else { total };
        let at_head = if heal_tail && h >= tail {
            if h + 1 < total {
                self.spliced(&found, head, stale, h + 1)
            } else {
                Kind::Other
            }
        } else {
            if h < total {
                self.spliced(&found, head, stale, h)
            } else {
                Kind::Other
            }
        };
        let heal_head = 0 < h && h < m && self.spliced(&found, head, stale, h - 1) == Kind::Gap && at_head == Kind::Gap;
        let bytes_end = r1 - (e - s) + inserted.as_bytes().len();
        if heal_head {
            Scope { blocks: (h - 1) as usize..(tail - 1) as usize, bytes: r0..bytes_end }
        } else {
            Scope { blocks: head..tail as usize, bytes: r0..bytes_end }
        }
    }
}

} // verus!
