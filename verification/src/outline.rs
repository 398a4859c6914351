//! The heading outline, for Heading navigation: the list of a Document's
//! headings with their byte ranges and levels, read off the Document's own
//! block index, and the heading whose section a caret stands in.
//!
//! A heading's words are the Editor's, which never carry a number, minus the
//! heading's own markers: the leading `#`s and the space after them, any
//! closing `#`s, a setext underline. Inline markup stays as written, because
//! that is what the page shows.

use vstd::prelude::*;
use std::ops::Range;
use vstd::string::StringSliceAdditionalSpecFns;

use crate::annotate::lemma_skip_bounds;
use crate::bytes::{
    back_over_breaks, back_over_byte, back_over_byte_to, back_over_line_ends, is_blank, lemma_back_over_line_ends,
    skip_byte, skip_byte_from, skip_while, trim_back, trim_end_at, trim_front, trim_start_at,
};
use crate::document::{block_at_of, block_views, Block, Document, Kind};
use crate::text::{byte_len, chars_in, chars_of, text_in};

verus! {

/// One heading of a Document.
#[derive(Debug, PartialEq, Eq)]
pub struct Heading {
    /// Its level, 1 to 6, as Markdown writes them.
    pub level: u8,
    /// What it says: the words with the heading's own markers gone.
    pub text: String,
    /// The index of the block it is in the Document's block index.
    pub block: usize,
    /// The Document bytes it is: the words alone, after the markers and
    /// before any underline, so that the start is where a jump puts the
    /// caret.
    pub source: Range<usize>,
}

/// Where the first `\n` at or after `from` is, or `to` when there is none
/// before it.
pub open spec fn newline_at(text: Seq<u8>, from: int, to: int) -> int {
    skip_while(text, from, to, |b: u8| b != 10)
}

/// Where the first line of `start..end` stops, as `str::lines` cuts it:
/// before its `\n`, and before a `\r` just before that `\n`.
pub open spec fn first_line_end(text: Seq<u8>, start: int, end: int) -> int {
    let nl = newline_at(text, start, end);
    if start < nl < end && text[nl - 1] == 13 {
        nl - 1
    } else {
        nl
    }
}

/// The level and the words, as `(level, start, end)`, of the ATX heading
/// over `start..end`: on its first line, after the `#`s and the space, before
/// a closing run of `#`s. A closing run counts only after a space or a tab,
/// so `# C#` keeps its sharp; a line of nothing but `#`s says nothing.
pub open spec fn atx_words_of(text: Seq<u8>, start: int, end: int) -> (int, int, int) {
    let line_end = first_line_end(text, start, end);
    let opened = trim_front(text, start, line_end);
    let hashes = skip_byte(text, opened, line_end, 35) - opened;
    let level = if hashes < 1 {
        1
    } else if hashes > 6 {
        6
    } else {
        hashes
    };
    let body_start = trim_front(text, opened + hashes, line_end);
    let body_end = trim_back(text, body_start, line_end);
    let kept = back_over_byte(text, body_start, body_end, 35);
    let words_end = if kept < body_end {
        if kept == body_start {
            body_start
        } else if is_blank(text[kept - 1]) {
            trim_back(text, body_start, kept - 1)
        } else {
            body_end
        }
    } else {
        body_end
    };
    (level, body_start, words_end)
}

/// The lines of `from..to` as `split_inclusive('\n')` gives them, each as
/// the bytes it starts at and ends at once its trailing `\n` and `\r` bytes
/// are gone.
pub open spec fn lines_of(text: Seq<u8>, from: int, to: int) -> Seq<(int, int)>
    decreases to - from,
{
    if from < to {
        proof {
            lemma_skip_bounds(text, from, to, |b: u8| b != 10);
        }
        let nl = newline_at(text, from, to);
        let next = if nl < to {
            nl + 1
        } else {
            to
        };
        seq![(from, back_over_line_ends(text, from, next))] + lines_of(text, next, to)
    } else {
        seq![]
    }
}

/// Whether the line `line` holds anything but whitespace.
pub open spec fn solid(text: Seq<u8>, line: (int, int)) -> bool {
    trim_front(text, line.0, line.1) < line.1
}

/// The first of `lines` from `from` on that holds anything but whitespace,
/// or the count of `lines` when none does.
pub open spec fn first_solid(text: Seq<u8>, lines: Seq<(int, int)>, from: int) -> int
    decreases lines.len() - from,
{
    if 0 <= from < lines.len() {
        if solid(text, lines[from]) {
            from
        } else {
            first_solid(text, lines, from + 1)
        }
    } else {
        from
    }
}

/// The last of the first `n` of `lines` that holds anything but whitespace,
/// or -1 when none does.
pub open spec fn last_solid(text: Seq<u8>, lines: Seq<(int, int)>, n: int) -> int
    decreases n,
{
    if n <= 0 {
        -1
    } else if solid(text, lines[n - 1]) {
        n - 1
    } else {
        last_solid(text, lines, n - 1)
    }
}

/// The level and the words, as `(level, start, end)`, of the setext heading
/// over `start..end`: every line above the underline, from the first solid
/// one's first solid byte to the last solid one's last, `===` making a level
/// 1 and `---` a level 2.
pub open spec fn setext_words_of(text: Seq<u8>, start: int, end: int) -> (int, int, int) {
    let lines = lines_of(text, start, end);
    if lines.len() == 0 {
        (1, start, start)
    } else {
        let underline = lines.last();
        let level = if solid(text, underline) && text[trim_front(text, underline.0, underline.1)] == 45 {
            2
        } else {
            1
        };
        let body = lines.drop_last();
        let first = first_solid(text, body, 0);
        if first >= body.len() {
            (level, start, start)
        } else {
            let last = last_solid(text, body, body.len() as int);
            (level, trim_front(text, body[first].0, body[first].1), trim_back(text, body[last].0, body[last].1))
        }
    }
}

/// The headings among the first `n` blocks of `blocks`, a block index of the
/// bytes `text`, in reading order, each as `(level, block, start, end)`.
pub open spec fn headings_from(text: Seq<u8>, blocks: Seq<(int, int, Kind)>, n: int) -> Seq<(int, int, int, int)>
    decreases n,
{
    if n <= 0 {
        seq![]
    } else {
        let before = headings_from(text, blocks, n - 1);
        let block = blocks[n - 1];
        match block.2 {
            Kind::Heading { setext } => {
                let words = if setext {
                    setext_words_of(text, block.0, block.1)
                } else {
                    atx_words_of(text, block.0, block.1)
                };
                before.push((words.0, n - 1, words.1, words.2))
            },
            _ => before,
        }
    }
}

/// The headings of a text of `bytes`, read off its block index `blocks`,
/// in reading order, each as `(level, block, start, end)`.
pub open spec fn outline_of(bytes: Seq<u8>, blocks: Seq<(int, int, Kind)>) -> Seq<(int, int, int, int)> {
    headings_from(bytes, blocks, blocks.len() as int)
}

/// The heading whose section the block `block` is in, as an index into the
/// first `n` of `heads`, the block each heading is: the last one at or above
/// it.
pub open spec fn last_at_or_above(heads: Seq<int>, block: int, n: int) -> Option<int>
    decreases n,
{
    if n <= 0 {
        None
    } else if heads[n - 1] <= block {
        Some(n - 1)
    } else {
        last_at_or_above(heads, block, n - 1)
    }
}

/// The heading whose section `caret` stands in, for the block index `blocks`
/// of a text `len` bytes long and headings that are the blocks `heads`.
pub open spec fn section_of(blocks: Seq<(int, int, Kind)>, len: int, heads: Seq<int>, caret: int) -> Option<int> {
    match block_at_of(blocks, len, caret) {
        Some(block) => last_at_or_above(heads, block, heads.len() as int),
        None => None,
    }
}

/// The block each of `headings` is.
pub open spec fn heads_of(headings: Seq<Heading>) -> Seq<int> {
    headings.map_values(|heading: Heading| heading.block as int)
}

/// Where the first `\n` at or after `from` is, before `to`.
fn newline_from(text: &[u8], from: usize, to: usize) -> (nl: usize)
    requires
        from <= to <= text.len(),
    ensures
        nl == newline_at(text@, from as int, to as int),
        from <= nl <= to,
{
    let mut nl = from;
    while nl < to && text[nl] != 10
        invariant
            from <= nl <= to <= text.len(),
            skip_while(text@, from as int, to as int, |b: u8| b != 10) == skip_while(
                text@,
                nl as int,
                to as int,
                |b: u8| b != 10,
            ),
        decreases to - nl,
    {
        nl = nl + 1;
    }
    nl
}

/// The level and the words of the ATX heading over `start..end`.
fn atx_words(text: &[u8], start: usize, end: usize) -> (words: (u8, usize, usize))
    requires
        start <= end <= text.len(),
    ensures
        (words.0 as int, words.1 as int, words.2 as int) == atx_words_of(text@, start as int, end as int),
        start <= words.1 <= words.2 <= end,
{
    let nl = newline_from(text, start, end);
    let line_end = if start < nl && nl < end && text[nl - 1] == 13 {
        nl - 1
    } else {
        nl
    };
    let opened = trim_start_at(text, start, line_end);
    let after = skip_byte_from(text, opened, line_end, 35);
    let hashes = after - opened;
    let level: u8 = if hashes < 1 {
        1
    } else if hashes > 6 {
        6
    } else {
        hashes as u8
    };
    let body_start = trim_start_at(text, after, line_end);
    let body_end = trim_end_at(text, body_start, line_end);
    let kept = back_over_byte_to(text, body_start, body_end, 35);
    let words_end = if kept < body_end {
        if kept == body_start {
            body_start
        } else if text[kept - 1] == 32 || text[kept - 1] == 9 {
            trim_end_at(text, body_start, kept - 1)
        } else {
            body_end
        }
    } else {
        body_end
    };
    (level, body_start, words_end)
}

/// The lines of `from..to`, as [`lines_of`] gives them.
fn lines_in(text: &[u8], from: usize, to: usize) -> (lines: Vec<(usize, usize)>)
    requires
        from <= to <= text.len(),
    ensures
        lines@.map_values(|line: (usize, usize)| (line.0 as int, line.1 as int)) == lines_of(text@, from as int, to as int),
        forall|i: int| 0 <= i < lines@.len() ==> from <= (#[trigger] lines@[i]).0 <= lines@[i].1 <= to,
{
    let mut lines: Vec<(usize, usize)> = Vec::new();
    let mut at = from;
    while at < to
        invariant
            from <= at <= to <= text.len(),
            lines@.map_values(|line: (usize, usize)| (line.0 as int, line.1 as int)) + lines_of(text@, at as int, to as int)
                == lines_of(text@, from as int, to as int),
            forall|i: int| 0 <= i < lines@.len() ==> from <= (#[trigger] lines@[i]).0 <= lines@[i].1 <= to,
        decreases to - at,
    {
        let ghost before = lines@;
        let nl = newline_from(text, at, to);
        let next = if nl < to {
            nl + 1
        } else {
            to
        };
        let stop = back_over_breaks(text, at, next);
        lines.push((at, stop));
        proof {
            assert(lines@.map_values(|line: (usize, usize)| (line.0 as int, line.1 as int)) =~= before.map_values(
                |line: (usize, usize)| (line.0 as int, line.1 as int),
            ).push((at as int, stop as int)));
        }
        at = next;
    }
    lines
}

/// Whether the line `start..end` holds anything but whitespace.
fn is_solid(text: &[u8], start: usize, end: usize) -> (yes: bool)
    requires
        start <= end <= text.len(),
    ensures
        yes == solid(text@, (start as int, end as int)),
{
    trim_start_at(text, start, end) < end
}

/// The level and the words of the setext heading over `start..end`.
fn setext_words(text: &[u8], start: usize, end: usize) -> (words: (u8, usize, usize))
    requires
        start <= end <= text.len(),
    ensures
        (words.0 as int, words.1 as int, words.2 as int) == setext_words_of(text@, start as int, end as int),
        start <= words.1,
        words.2 <= end,
{
    let lines = lines_in(text, start, end);
    let ghost views = lines@.map_values(|line: (usize, usize)| (line.0 as int, line.1 as int));
    if lines.len() == 0 {
        return (1, start, start);
    }
    let count = lines.len() - 1;
    let (u_start, u_end) = lines[count];
    proof {
        assert(views.last() == (u_start as int, u_end as int));
    }
    let level: u8 = if is_solid(text, u_start, u_end) && text[trim_start_at(text, u_start, u_end)] == 45 {
        2
    } else {
        1
    };
    let ghost body = views.drop_last();
    let mut first: usize = 0;
    while first < count && !is_solid(text, lines[first].0, lines[first].1)
        invariant
            0 <= first <= count,
            count + 1 == lines@.len(),
            views == lines@.map_values(|line: (usize, usize)| (line.0 as int, line.1 as int)),
            body == views.drop_last(),
            forall|i: int| 0 <= i < lines@.len() ==> start <= (#[trigger] lines@[i]).0 <= lines@[i].1 <= end,
            end <= text.len(),
            first_solid(text@, body, 0) == first_solid(text@, body, first as int),
        decreases count - first,
    {
        assert(body[first as int] == (lines@[first as int].0 as int, lines@[first as int].1 as int));
        first = first + 1;
    }
    if first < count {
        assert(body[first as int] == (lines@[first as int].0 as int, lines@[first as int].1 as int));
    }
    assert(first_solid(text@, body, first as int) == first);
    if first >= count {
        return (level, start, start);
    }
    let mut last: usize = count;
    while last > 0 && !is_solid(text, lines[last - 1].0, lines[last - 1].1)
        invariant
            0 <= last <= count,
            count + 1 == lines@.len(),
            views == lines@.map_values(|line: (usize, usize)| (line.0 as int, line.1 as int)),
            body == views.drop_last(),
            forall|i: int| 0 <= i < lines@.len() ==> start <= (#[trigger] lines@[i]).0 <= lines@[i].1 <= end,
            end <= text.len(),
            last_solid(text@, body, count as int) == last_solid(text@, body, last as int),
        decreases last,
    {
        assert(body[last - 1] == (lines@[last - 1].0 as int, lines@[last - 1].1 as int));
        last = last - 1;
    }
    proof {
        if last > 0 {
            assert(body[last - 1] == (lines@[last - 1].0 as int, lines@[last - 1].1 as int));
        }
        assert(last_solid(text@, body, first as int + 1) == first as int) by {
            assert(body[first as int] == (lines@[first as int].0 as int, lines@[first as int].1 as int));
        }
        lemma_last_solid_from(text@, body, first as int, count as int);
    }
    let at = last - 1;
    assert(body[at as int] == (lines@[at as int].0 as int, lines@[at as int].1 as int));
    assert(body[first as int] == (lines@[first as int].0 as int, lines@[first as int].1 as int));
    let words_start = trim_start_at(text, lines[first].0, lines[first].1);
    let words_end = trim_end_at(text, lines[at].0, lines[at].1);
    (level, words_start, words_end)
}

/// Once one of the first `n` lines past `first` is solid, the last solid one
/// is at or after `first`.
proof fn lemma_last_solid_from(text: Seq<u8>, lines: Seq<(int, int)>, first: int, n: int)
    requires
        0 <= first < n <= lines.len(),
        solid(text, lines[first]),
    ensures
        first <= last_solid(text, lines, n) < n,
    decreases n,
{
    if n - 1 > first && !solid(text, lines[n - 1]) {
        lemma_last_solid_from(text, lines, first, n - 1);
    }
}

/// The headings of `document`, in reading order, read off its block index.
///
/// One walk over the blocks, linear in the Document. A heading inside a
/// quote, a list or a code block is none of those blocks' kind and is not
/// here; front matter never is.
pub fn of_blocks(document: &Document) -> (headings: Vec<Heading>)
    ensures
        headings@.len() == outline_of(document.spec_bytes(), document.spec_blocks()).len(),
        forall|i: int|
            0 <= i < headings@.len() ==> {
                let found = outline_of(document.spec_bytes(), document.spec_blocks())[i];
                &&& (#[trigger] headings@[i]).level == found.0
                &&& headings@[i].block == found.1
                &&& headings@[i].source.start == found.2
                &&& headings@[i].source.end == found.3
                &&& headings@[i].text@ == chars_in(document.spec_text(), found.2, found.3)
            },
{
    let text = document.text();
    let bytes = text.as_bytes();
    let len = bytes.len();
    let blocks = document.blocks();
    let ghost views = block_views(blocks@);
    let chars = chars_of(text);
    let total = byte_len(text);
    let mut headings: Vec<Heading> = Vec::new();
    let ghost mut found: Seq<(int, int, int, int)> = seq![];
    let mut k: usize = 0;
    while k < blocks.len()
        invariant
            0 <= k <= blocks@.len(),
            bytes@ == document.spec_bytes(),
            text@ == document.spec_text(),
            len == bytes@.len(),
            views == block_views(blocks@),
            views == document.spec_blocks(),
            forall|i: int| 0 <= i < blocks@.len() ==> 0 <= (#[trigger] blocks@[i]).at.start <= blocks@[i].at.end <= len,
            chars@ == text@,
            total == crate::text::utf8_size(chars@),
            found == headings_from(bytes@, views, k as int),
            headings@.len() == found.len(),
            forall|i: int|
                0 <= i < headings@.len() ==> {
                    &&& (#[trigger] headings@[i]).level == found[i].0
                    &&& headings@[i].block == found[i].1
                    &&& headings@[i].source.start == found[i].2
                    &&& headings@[i].source.end == found[i].3
                    &&& headings@[i].text@ == chars_in(text@, found[i].2, found[i].3)
                },
        decreases blocks.len() - k,
    {
        let block: &Block = &blocks[k];
        assert(views[k as int] == (block.at.start as int, block.at.end as int, block.kind));
        match block.kind {
            Kind::Heading { setext } => {
                let (level, start, end) = if setext {
                    setext_words(bytes, block.at.start, block.at.end)
                } else {
                    atx_words(bytes, block.at.start, block.at.end)
                };
                let words = text_in(&chars, total, start, end);
                headings.push(Heading { level, text: words, block: k, source: start..end });
                proof {
                    found = found.push((level as int, k as int, start as int, end as int));
                }
            },
            _ => {},
        }
        k = k + 1;
    }
    headings
}

/// The heading whose section `caret` stands in, as an index into
/// `headings` from [`of_blocks`] of `document`: the last heading at or above the
/// caret's block, or none when the caret stands above the first heading.
///
/// By block rather than by byte, so a caret anywhere on a heading's own line
/// (on its `#`, before its words) is in that heading's section.
pub fn section(document: &Document, headings: &[Heading], caret: usize) -> (found: Option<usize>)
    ensures
        found == (match section_of(
            document.spec_blocks(),
            document.spec_bytes().len() as int,
            heads_of(headings@),
            caret as int,
        ) {
            Some(i) => Some(i as usize),
            None => None,
        }),
{
    let block = match document.block_at(caret) {
        Some(block) => block,
        None => return None,
    };
    let ghost heads = heads_of(headings@);
    assert(heads.len() == headings@.len());
    let mut n = headings.len();
    while n > 0 && headings[n - 1].block > block
        invariant
            0 <= n <= headings@.len(),
            heads == heads_of(headings@),
            last_at_or_above(heads, block as int, headings@.len() as int) == last_at_or_above(heads, block as int, n as int),
        decreases n,
    {
        assert(heads[n - 1] == headings@[n - 1].block);
        n = n - 1;
    }
    if n > 0 {
        assert(heads[n - 1] == headings@[n - 1].block);
        Some(n - 1)
    } else {
        None
    }
}

} // verus!
