//! The Markup Annotator: the spans a Document's Markdown is drawn by.
//!
//! An Annotator turns a byte range of a Document into spans, each a byte range
//! and a mark. The Markup Annotator reads the parser's event stream
//! ([`crate::markdown::events`]): every construct is a span over the whole of
//! it, markers and all, and its markers are what is left of it once the
//! writer's words and the constructs nested inside it are taken out — the
//! subtraction this module is built on. No delimiter span is ever expected
//! from the parser.
//!
//! A span covers its whole construct — `**bold**` including both pairs of
//! asterisks — and the markers are spanned over the top of it, so nesting is
//! ordinary: a span inside another span is resolved after it.
//!
//! All offsets are UTF-8 bytes from the start of the Document, because that is
//! what the parser emits.

pub mod live;
pub mod paint;

use std::ops::Range;

use vstd::prelude::*;
use vstd::string::StringSliceAdditionalSpecFns;

use crate::bytes::{back_over_byte_to, back_over_line_ends, is_blank, is_digit, is_line_end, skip_blanks, skip_digits, skip_while, trim_white, white_len_at, white_at, back_over_byte, trim_front, trim_back, is_ascii_space, lemma_back_over_line_ends, lemma_skip_line_ends, skip_byte, skip_byte_from, skip_line_ends};
use crate::markdown::{events, parse, in_bounds, Element, Parsed, Token};

verus! {

/// What an Annotator says a range of bytes is.
#[derive(Clone, Copy, Debug, PartialEq, Eq, Hash, Structural)]
pub enum Mark {
    /// Delimiter bytes: a heading's `#`s and the space after them, the
    /// asterisks around emphasis, a code span's backticks, and the backslash
    /// of an escape.
    Markup,
    /// A heading, at its level, 1 to 6.
    Heading(u8),
    /// `*emphasis*`.
    Emphasis,
    /// `**strong**`.
    Strong,
    /// `~~struck~~`.
    Strikethrough,
    /// A code span, backticks included.
    Code,
    /// A link, from its opening bracket to its closing parenthesis.
    Link,
    /// An image, `![alt](src)`.
    Image,
    /// A link's destination and title.
    Url,
    /// The `[`, `]`, `(` and `)` of a link or an image.
    LinkMark,
    /// Inline or block HTML.
    Html,
    /// A block quote, from its first `>` to the end of its last line.
    Quote,
    /// The `>` of a quoted line, and the space after it.
    QuoteMarker,
    /// A bullet list item's marker, with the whitespace before and after it.
    BulletMarker,
    /// An ordered list item's marker — `1. `, `2) ` — measured the same way.
    OrderedMarker,
    /// A task list's `[ ]` or `[x]`.
    TaskBox,
    /// A fenced or indented code block, fences and all.
    CodeBlock,
    /// The backticks or tildes of an opening or closing fence.
    Fence,
    /// The info string after an opening fence.
    InfoString,
    /// A thematic break.
    ThematicBreak,
    /// A front-matter block, delimiters and all.
    FrontMatter,
    /// The label of a link-reference or footnote definition, read lexically.
    DefinitionLabel,
}

/// The colour a run's text is drawn in, named by the role it plays.
#[derive(Clone, Copy, Debug, PartialEq, Eq, Hash, Structural)]
pub enum Ink {
    /// The ink prose is set in.
    Prose,
    /// The ink Markdown's markers are set in.
    Marker,
    /// The grey a link's plumbing goes quiet in.
    Link,
}

/// The weight a run is set at.
#[derive(Clone, Copy, Debug, PartialEq, Eq, Hash, Structural)]
pub enum Weight {
    /// The weight the prose is set at.
    Regular,
    /// Bold: headings and strong.
    Bold,
}

/// Whether a run is upright or slanted.
#[derive(Clone, Copy, Debug, PartialEq, Eq, Hash, Structural)]
pub enum Slant {
    /// Upright.
    Upright,
    /// Italic.
    Italic,
}

/// What a run is drawn on.
#[derive(Clone, Copy, Debug, PartialEq, Eq, Hash, Structural)]
pub enum Ground {
    /// The page.
    Page,
    /// The code ground.
    Code,
}

/// Everything the app needs to draw one run, with nothing left to resolve.
#[derive(Clone, Copy, Debug, PartialEq, Eq, Hash, Structural)]
pub struct Look {
    /// The colour of the text, as a role.
    pub ink: Ink,
    /// How opaque that colour is, 0 to 255.
    pub alpha: u8,
    /// The weight the run is set at.
    pub weight: Weight,
    /// Whether the run is slanted.
    pub slant: Slant,
    /// What the run is drawn on.
    pub ground: Ground,
}

/// Fully opaque, which everything the Markup Annotator draws is.
pub const OPAQUE: u8 = 255;

impl Look {
    /// Plain prose: what a run is before any mark is resolved into it.
    pub open spec fn prose_spec() -> Look {
        Look {
            ink: Ink::Prose,
            alpha: 255,
            weight: Weight::Regular,
            slant: Slant::Upright,
            ground: Ground::Page,
        }
    }

    /// Plain prose: what a run is before any mark is resolved into it.
    #[verifier::when_used_as_spec(prose_spec)]
    pub fn prose() -> (look: Look)
        ensures
            look == Look::prose_spec(),
    {
        Look {
            ink: Ink::Prose,
            alpha: OPAQUE,
            weight: Weight::Regular,
            slant: Slant::Upright,
            ground: Ground::Page,
        }
    }
}

/// One Annotator's judgement about one byte range of a Document.
#[derive(Debug, PartialEq, Eq)]
pub struct Span {
    /// Absolute UTF-8 bytes from the start of the Document.
    pub at: Range<usize>,
    /// What those bytes are.
    pub mark: Mark,
}

impl Span {
    /// A span of `mark` over `at`.
    pub fn new(at: Range<usize>, mark: Mark) -> (span: Self)
        ensures
            span.at == at,
            span.mark == mark,
    {
        Span { at, mark }
    }
}

/// A stretch of a Document that one set of tags is applied to.
#[derive(Debug, PartialEq, Eq)]
pub struct Run {
    /// Absolute UTF-8 bytes from the start of the Document.
    pub at: Range<usize>,
    /// How those bytes are drawn.
    pub look: Look,
}

/// The look `mark` gives the bytes it covers, over the look `under` of the
/// spans it sits inside: each mark sets the properties it is about and leaves
/// the rest as it found them, and every marker resets to the marker ink,
/// upright, at the prose's weight.
pub open spec fn resolved(mark: Mark, under: Look) -> Look {
    match mark {
        Mark::Markup | Mark::QuoteMarker | Mark::BulletMarker | Mark::OrderedMarker
        | Mark::TaskBox | Mark::Fence | Mark::InfoString | Mark::ThematicBreak
        | Mark::FrontMatter | Mark::DefinitionLabel => Look {
            ink: Ink::Marker,
            weight: Weight::Regular,
            slant: Slant::Upright,
            ..under
        },
        Mark::Quote | Mark::Link | Mark::Image => under,
        Mark::CodeBlock => Look { ink: Ink::Prose, ..under },
        Mark::Heading(_) | Mark::Strong => Look { weight: Weight::Bold, ..under },
        Mark::Emphasis => Look { slant: Slant::Italic, ..under },
        Mark::Strikethrough | Mark::Html => Look { ink: Ink::Marker, ..under },
        Mark::Url => Look { ink: Ink::Link, ..under },
        Mark::LinkMark => Look {
            ink: Ink::Link,
            weight: Weight::Regular,
            slant: Slant::Upright,
            ..under
        },
        Mark::Code => Look { ink: Ink::Prose, ground: Ground::Code, ..under },
    }
}

/// `mark` resolved over the look of the spans it sits inside.
pub fn resolve(mark: Mark, under: Look) -> (look: Look)
    ensures
        look == resolved(mark, under),
{
    match mark {
        Mark::Markup | Mark::QuoteMarker | Mark::BulletMarker | Mark::OrderedMarker
        | Mark::TaskBox | Mark::Fence | Mark::InfoString | Mark::ThematicBreak
        | Mark::FrontMatter | Mark::DefinitionLabel => Look {
            ink: Ink::Marker,
            weight: Weight::Regular,
            slant: Slant::Upright,
            ..under
        },
        Mark::Quote | Mark::Link | Mark::Image => under,
        Mark::CodeBlock => Look { ink: Ink::Prose, ..under },
        Mark::Heading(_) | Mark::Strong => Look { weight: Weight::Bold, ..under },
        Mark::Emphasis => Look { slant: Slant::Italic, ..under },
        Mark::Strikethrough | Mark::Html => Look { ink: Ink::Marker, ..under },
        Mark::Url => Look { ink: Ink::Link, ..under },
        Mark::LinkMark => Look {
            ink: Ink::Link,
            weight: Weight::Regular,
            slant: Slant::Upright,
            ..under
        },
        Mark::Code => Look { ink: Ink::Prose, ground: Ground::Code, ..under },
    }
}

/// The mark the delimiter bytes of a construct marked `mark` carry.
pub open spec fn marker_of(mark: Mark) -> Mark {
    match mark {
        Mark::Quote => Mark::QuoteMarker,
        Mark::Link | Mark::Image => Mark::LinkMark,
        _ => Mark::Markup,
    }
}

/// The mark the delimiter bytes of a construct marked `mark` carry: a quote's
/// `>`s, a link's brackets, and [`Mark::Markup`] for every other construct.
fn marker_mark(mark: Mark) -> (marker: Mark)
    ensures
        marker == marker_of(mark),
{
    match mark {
        Mark::Quote => Mark::QuoteMarker,
        Mark::Link | Mark::Image => Mark::LinkMark,
        _ => Mark::Markup,
    }
}

/// Whether `span` is one the Annotator may hand out over `text`: in bounds, not
/// empty, and neither opening nor closing with a line ending.
pub open spec fn clean(text: Seq<u8>, span: Span) -> bool {
    &&& span.at.start < span.at.end <= text.len()
    &&& !is_line_end(text[span.at.start as int])
    &&& !is_line_end(text[span.at.end - 1])
}

/// The span [`push_span`] adds for `mark` over `start..end`, if any: the range
/// with its line endings taken off both ends, when anything is left.
pub open spec fn trimmed_span(text: Seq<u8>, start: int, end: int, mark: Mark) -> Seq<Span> {
    let from = skip_line_ends(text, start, end);
    let to = back_over_line_ends(text, from, end);
    if to > from {
        seq![Span { at: Range { start: from as usize, end: to as usize }, mark }]
    } else {
        seq![]
    }
}

/// Adds `at` as a span of `mark`, once the line endings are off both ends of
/// it; an empty range adds nothing.
fn push_span(text: &[u8], at: Range<usize>, mark: Mark, spans: &mut Vec<Span>)
    requires
        at.start <= at.end <= text.len(),
    ensures
        final(spans)@ == old(spans)@ + trimmed_span(text@, at.start as int, at.end as int, mark),
{
    let mut start = at.start;
    while start < at.end && (text[start] == 10 || text[start] == 13)
        invariant
            at.start <= start <= at.end <= text.len(),
            skip_line_ends(text@, at.start as int, at.end as int) == skip_line_ends(
                text@,
                start as int,
                at.end as int,
            ),
        decreases at.end - start,
    {
        start = start + 1;
    }
    let mut end = at.end;
    while end > start && (text[end - 1] == 10 || text[end - 1] == 13)
        invariant
            start <= end <= at.end <= text.len(),
            back_over_line_ends(text@, start as int, at.end as int) == back_over_line_ends(
                text@,
                start as int,
                end as int,
            ),
        decreases end - start,
    {
        end = end - 1;
    }
    if end > start {
        spans.push(Span::new(start..end, mark));
    }
}

/// Every span [`trimmed_span`] gives is clean, inside the range it was cut
/// from, and of the mark it was asked for.
proof fn lemma_trimmed_clean(text: Seq<u8>, start: int, end: int, mark: Mark)
    requires
        0 <= start <= end <= text.len(),
        end <= usize::MAX,
    ensures
        forall|i: int|
            0 <= i < trimmed_span(text, start, end, mark).len() ==> {
                let s = #[trigger] trimmed_span(text, start, end, mark)[i];
                &&& clean(text, s)
                &&& start <= s.at.start
                &&& s.at.end <= end
                &&& s.mark == mark
            },
{
    lemma_skip_line_ends(text, start, end);
    let from = skip_line_ends(text, start, end);
    lemma_back_over_line_ends(text, from, end);
    let to = back_over_line_ends(text, from, end);
    if to > from {
        let s = trimmed_span(text, start, end, mark)[0];
        assert(s.at.start == from && s.at.end == to);
    }
}

/// Whether the heading at `at` is written with `#`s rather than underlined: a
/// heading's range begins at its first `#`, so the first byte decides.
pub open spec fn atx(text: Seq<u8>, at: Range<usize>) -> bool {
    at.start < at.end && text[at.start as int] == 35
}

/// Whether the heading at `at` is written with `#`s rather than underlined.
fn is_atx(text: &[u8], at: &Range<usize>) -> (yes: bool)
    requires
        at.start <= at.end <= text.len(),
    ensures
        yes == atx(text@, *at),
{
    at.start < at.end && text[at.start] == 35
}

/// The bytes between the backticks of the code span at `at`.
pub open spec fn code_inside(text: Seq<u8>, at: Range<usize>) -> Range<usize> {
    let ticks = skip_byte(text, at.start as int, at.end as int, 96) - at.start;
    let start = at.start + ticks;
    let end = if at.end - ticks > start { at.end - ticks } else { start };
    Range { start: start as usize, end: end as usize }
}

/// The text of the code span at `at`, without the backticks on either side:
/// the opening run is counted and that many are taken off both ends.
fn code_text(text: &[u8], at: &Range<usize>) -> (inside: Range<usize>)
    requires
        at.start <= at.end <= text.len(),
    ensures
        inside == code_inside(text@, *at),
        at.start <= inside.start <= inside.end <= at.end,
{
    let after = skip_byte_from(text, at.start, at.end, 96);
    let ticks = after - at.start;
    let start = at.start + ticks;
    let end = if at.end - ticks > start { at.end - ticks } else { start };
    start..end
}

/// The mark an opening carries, or `None` for one the Editor draws nothing
/// for; a heading carries one only when it is written with `#`s.
pub open spec fn mark_of(element: Element, text: Seq<u8>, at: Range<usize>) -> Option<Mark> {
    match element {
        Element::Heading(level) => if atx(text, at) { Some(Mark::Heading(level)) } else { None },
        Element::Emphasis => Some(Mark::Emphasis),
        Element::Strong => Some(Mark::Strong),
        Element::Strikethrough => Some(Mark::Strikethrough),
        Element::Link { .. } => Some(Mark::Link),
        Element::Image => Some(Mark::Image),
        Element::BlockQuote => Some(Mark::Quote),
        Element::FencedCode | Element::IndentedCode => Some(Mark::CodeBlock),
        Element::Metadata => Some(Mark::FrontMatter),
        _ => None,
    }
}

/// The mark `element` carries, or `None` for an opening the Editor draws
/// nothing for.
fn tag_mark(element: Element, text: &[u8], at: &Range<usize>) -> (mark: Option<Mark>)
    requires
        at.start <= at.end <= text.len(),
    ensures
        mark == mark_of(element, text@, *at),
{
    match element {
        Element::Heading(level) => if is_atx(text, at) {
            Some(Mark::Heading(level))
        } else {
            None
        },
        Element::Emphasis => Some(Mark::Emphasis),
        Element::Strong => Some(Mark::Strong),
        Element::Strikethrough => Some(Mark::Strikethrough),
        Element::Link { .. } => Some(Mark::Link),
        Element::Image => Some(Mark::Image),
        Element::BlockQuote => Some(Mark::Quote),
        Element::FencedCode | Element::IndentedCode => Some(Mark::CodeBlock),
        Element::Metadata => Some(Mark::FrontMatter),
        _ => None,
    }
}


/// The byte `at` lies on the line of: one past the last line feed before it,
/// or the start of the text.
pub open spec fn line_start(text: Seq<u8>, at: int) -> int
    decreases at,
{
    if at <= 0 {
        0
    } else if text[at - 1] == 10 {
        at
    } else {
        line_start(text, at - 1)
    }
}

/// Where the line `at` lies on starts.
fn line_start_of(text: &[u8], at: usize) -> (start: usize)
    requires
        at <= text.len(),
    ensures
        start == line_start(text@, at as int),
        start <= at,
{
    let mut start = at;
    while start > 0 && text[start - 1] != 10
        invariant
            start <= at <= text.len(),
            line_start(text@, at as int) == line_start(text@, start as int),
        decreases start,
    {
        start = start - 1;
    }
    start
}

/// Whether every byte of `from..to` is a space or a tab.
fn all_blank(text: &[u8], from: usize, to: usize) -> (yes: bool)
    requires
        from <= to <= text.len(),
    ensures
        yes == forall|k: int| from <= k < to ==> is_blank(#[trigger] text@[k]),
{
    let mut at = from;
    while at < to
        invariant
            from <= at <= to <= text.len(),
            forall|k: int| from <= k < at ==> is_blank(#[trigger] text@[k]),
        decreases to - at,
    {
        if text[at] != 32 && text[at] != 9 {
            return false;
        }
        at = at + 1;
    }
    true
}

/// The marker of the list item at `at`, and which kind of list it is.
///
/// The span reaches back to the start of the line whenever only spaces and
/// tabs stand between, because its width is what the app hangs the line by;
/// otherwise — `> - quoted` — it starts at the item. A digit opens an ordered
/// marker, which runs over the digits and the `.` or `)` after them; anything
/// else is a one-byte bullet. The spaces and tabs after the punctuation are
/// the marker's too.
pub open spec fn item_marker(text: Seq<u8>, at: Range<usize>) -> Option<(Range<usize>, Mark)> {
    let digits = skip_while(text, at.start as int, at.end as int, |b: u8| is_digit(b)) - at.start;
    let punctuation = if digits == 0 { 1 } else { digits + 1 };
    let mark = if digits == 0 { Mark::BulletMarker } else { Mark::OrderedMarker };
    if at.start + punctuation > at.end {
        None
    } else {
        let after = at.start + punctuation;
        let end = skip_while(text, after, at.end as int, |b: u8| is_blank(b));
        let line = line_start(text, at.start as int);
        let start = if (forall|k: int| line <= k < at.start ==> is_blank(#[trigger] text[k])) {
            line
        } else {
            at.start as int
        };
        Some((Range { start: start as usize, end: end as usize }, mark))
    }
}

/// The marker of the list item at `at`, and which kind of list it is.
fn list_marker(text: &[u8], at: &Range<usize>) -> (marker: Option<(Range<usize>, Mark)>)
    requires
        at.start <= at.end <= text.len(),
    ensures
        marker == item_marker(text@, *at),
        marker matches Some((range, _)) ==> range.start <= at.start && range.start <= range.end
            <= at.end,
{
    let digits = skip_digits(text, at.start, at.end) - at.start;
    if digits == at.end - at.start && digits > 0 {
        return None;
    }
    let (punctuation, mark) = if digits == 0 {
        (1, Mark::BulletMarker)
    } else {
        (digits + 1, Mark::OrderedMarker)
    };
    if punctuation > at.end - at.start {
        return None;
    }
    let after = at.start + punctuation;
    let end = skip_blanks(text, after, at.end);
    let line = line_start_of(text, at.start);
    let start = if all_blank(text, line, at.start) {
        line
    } else {
        at.start
    };
    Some((start..end, mark))
}

/// Whether `range` lies inside `outer`.
pub open spec fn within(range: Range<usize>, outer: Range<usize>) -> bool {
    outer.start <= range.start <= range.end <= outer.end
}

/// The fences of the fenced code block at `at`, and its info string.
///
/// The parser's range runs from the first backtick to the last, so both fences
/// are inside it. The opening run's length is counted; a fence the writer has
/// not closed yet ends in its own text, and there is nothing to mark at the
/// bottom.
pub open spec fn fences_of(text: Seq<u8>, at: Range<usize>) -> Seq<(Range<usize>, Mark)> {
    if at.start >= at.end || (text[at.start as int] != 96 && text[at.start as int] != 126) {
        seq![]
    } else {
        let fence = text[at.start as int];
        let open_end = skip_byte(text, at.start as int, at.end as int, fence);
        let line = skip_while(text, open_end, at.end as int, |b: u8| b != 10);
        let info_start = trim_front(text, open_end, line);
        let info_end = trim_back(text, info_start, line);
        let close_start = back_over_byte(text, at.start as int, at.end as int, fence);
        let opening = seq![(Range { start: at.start, end: open_end as usize }, Mark::Fence)];
        let info = if info_start < info_end {
            seq![(Range { start: info_start as usize, end: info_end as usize }, Mark::InfoString)]
        } else {
            seq![]
        };
        let closing = if close_start < at.end && close_start > open_end {
            seq![(Range { start: close_start as usize, end: at.end }, Mark::Fence)]
        } else {
            seq![]
        };
        opening + info + closing
    }
}

/// The fences of the fenced code block at `at`, and its info string.
fn fences(text: &[u8], at: &Range<usize>) -> (found: Vec<(Range<usize>, Mark)>)
    requires
        at.start <= at.end <= text.len(),
    ensures
        found@ == fences_of(text@, *at),
        forall|i: int| 0 <= i < found@.len() ==> within(#[trigger] found@[i].0, *at),
        forall|i: int|
            0 <= i < found@.len() ==> (#[trigger] found@[i].1 == Mark::Fence || found@[i].1
                == Mark::InfoString),
{
    let mut found: Vec<(Range<usize>, Mark)> = Vec::new();
    if at.start >= at.end {
        return found;
    }
    let fence = text[at.start];
    if fence != 96 && fence != 126 {
        return found;
    }
    let open_end = skip_byte_from(text, at.start, at.end, fence);
    found.push((at.start..open_end, Mark::Fence));
    // The opening line: from after the fence to the first line feed.
    let mut line = open_end;
    while line < at.end && text[line] != 10
        invariant
            open_end <= line <= at.end <= text.len(),
            skip_while(text@, open_end as int, at.end as int, |b: u8| b != 10) == skip_while(text@, line as int, at.end as int, |b: u8| b != 10),
        decreases at.end - line,
    {
        line = line + 1;
    }
    let info = trim_white(text, open_end, line);
    let ghost opening = found@;
    let ghost info_at = info;
    if info.start < info.end {
        found.push((info, Mark::InfoString));
    }
    let ghost middle = found@;
    let close_start = back_over_byte_to(text, at.start, at.end, fence);
    if close_start < at.end && close_start > open_end {
        found.push((close_start..at.end, Mark::Fence));
    }
    proof {
        let info_part = if info_at.start < info_at.end {
            seq![(Range { start: info_at.start, end: info_at.end }, Mark::InfoString)]
        } else {
            seq![]
        };
        let closing = if close_start < at.end && close_start > open_end {
            seq![(Range { start: close_start, end: at.end }, Mark::Fence)]
        } else {
            seq![]
        };
        assert(middle =~= opening + info_part);
        assert(found@ =~= opening + info_part + closing);
    }
    found
}

proof fn lemma_run_ends_at(text: Seq<u8>, from: int, to: int, byte: u8, end: int)
    requires
        from <= end <= to <= text.len(),
        forall|k: int| from <= k < end ==> #[trigger] text[k] == byte,
        end == to || text[end] != byte,
    ensures
        skip_byte(text, from, to, byte) == end,
    decreases end - from,
{
    if from < end {
        lemma_run_ends_at(text, from + 1, to, byte, end);
    }
}

proof fn lemma_run_starts_at(text: Seq<u8>, from: int, to: int, byte: u8, start: int)
    requires
        0 <= from < start <= to <= text.len(),
        forall|k: int| start <= k < to ==> #[trigger] text[k] == byte,
        text[start - 1] != byte,
    ensures
        back_over_byte(text, from, to, byte) == start,
    decreases to - start,
{
    if start < to {
        lemma_run_starts_at(text, from, to - 1, byte, start);
    }
}

/// A fenced code block whose range opens with a run of tildes or of
/// backticks has that whole run marked as its opening fence, and, where the
/// range ends in a run of the same byte past the opening one, that run
/// marked as its closing fence: tildes and backticks are marked alike.
pub proof fn lemma_both_fences_are_marked(text: Seq<u8>, at: Range<usize>, open_end: int, close_start: int)
    requires
        at.start < at.end <= text.len(),
        text[at.start as int] == 126 || text[at.start as int] == 96,
        at.start < open_end <= at.end,
        forall|k: int| at.start <= k < open_end ==> #[trigger] text[k] == text[at.start as int],
        open_end == at.end || text[open_end] != text[at.start as int],
    ensures
        fences_of(text, at).len() >= 1,
        fences_of(text, at)[0] == (Range { start: at.start, end: open_end as usize }, Mark::Fence),
        (open_end < close_start < at.end && text[close_start - 1] != text[at.start as int] && forall|k: int|
            close_start <= k < at.end ==> #[trigger] text[k] == text[at.start as int]) ==> fences_of(text, at).last()
            == (Range { start: close_start as usize, end: at.end }, Mark::Fence),
{
    let fence = text[at.start as int];
    lemma_run_ends_at(text, at.start as int, at.end as int, fence, open_end);
    if open_end < close_start < at.end && text[close_start - 1] != fence && forall|k: int|
        close_start <= k < at.end ==> #[trigger] text[k] == fence {
        lemma_run_starts_at(text, at.start as int, at.end as int, fence, close_start);
    }
}

/// The destination and title of the link or image at `at`, if it has one
/// written out.
///
/// Read backwards from the closing bracket, because that is the end whose
/// shape is unambiguous: `](` and `)` for an inline link, `][` and `]` for a
/// reference. Balanced parentheses inside the destination are counted. A
/// shortcut link finds its own first bracket as the opener, which no `]`
/// precedes, and has none; neither has an autolink, which ends in `>`.
pub open spec fn opener_scan(text: Seq<u8>, start: int, index: int, depth: int, open: u8, close: u8) -> int
    decreases index - start,
{
    if index < start {
        -1
    } else if text[index] == open && depth == 0 {
        -1
    } else if text[index] == open && depth - 1 == 0 {
        index
    } else {
        let next_depth = if text[index] == close {
            depth + 1
        } else if text[index] == open {
            depth - 1
        } else {
            depth
        };
        if index == 0 || index - 1 < start {
            -1
        } else {
            opener_scan(text, start, index - 1, next_depth, open, close)
        }
    }
}

/// The bytes of the destination of the link or image at `at`: read back
/// from a closing `)` or `]` to the bracket that balances it, which must
/// follow a `]` and not be the link's own first byte, and what lies
/// between when anything does.
pub open spec fn destination_of(text: Seq<u8>, at: Range<usize>) -> Option<Range<usize>> {
    if at.end == 0 || at.end <= at.start {
        None
    } else {
        let last = text[at.end - 1];
        if last != 41 && last != 93 {
            None
        } else {
            let (open, close) = if last == 41 {
                (40u8, 41u8)
            } else {
                (91u8, 93u8)
            };
            let opener = opener_scan(text, at.start as int, at.end - 1, 0, open, close);
            if opener < 0 || opener == at.start || text[opener - 1] != 93 {
                None
            } else if opener + 1 < at.end - 1 {
                Some(Range { start: (opener + 1) as usize, end: (at.end - 1) as usize })
            } else {
                None
            }
        }
    }
}

/// The destination of the link or image at `at`, if it has one written out.
fn destination(text: &[u8], at: &Range<usize>) -> (url: Option<Range<usize>>)
    requires
        at.start <= at.end <= text.len(),
    ensures
        url == destination_of(text@, *at),
        url matches Some(url) ==> at.start < url.start && url.start < url.end && url.end < at.end,
{
    if at.end == 0 || at.end <= at.start {
        return None;
    }
    let last = text[at.end - 1];
    let (open, close) = if last == 41 {
        (40u8, 41u8)
    } else if last == 93 {
        (91u8, 93u8)
    } else {
        return None;
    };
    let mut depth: usize = 0;
    let mut index = at.end - 1;
    let mut opener: usize = at.start;
    loop
        invariant_except_break
            at.start <= index < at.end <= text.len(),
            depth <= at.end - 1 - index,
            open != close,
            last == text@[at.end - 1],
            last == 41 || last == 93,
            (open, close) == (if last == 41 { (40u8, 41u8) } else { (91u8, 93u8) }),
            opener_scan(text@, at.start as int, at.end - 1, 0, open, close) == opener_scan(text@, at.start as int, index as int, depth as int, open, close),
        ensures
            at.start <= opener < at.end,
            opener == opener_scan(text@, at.start as int, at.end - 1, 0, open, close),
            last == text@[at.end - 1],
            last == 41 || last == 93,
            (open, close) == (if last == 41 { (40u8, 41u8) } else { (91u8, 93u8) }),
        decreases index,
    {
        if text[index] == close {
            depth = depth + 1;
        } else if text[index] == open {
            if depth == 0 {
                proof {
                    assert(opener_scan(text@, at.start as int, index as int, depth as int, open, close) == -1);
                    assert(destination_of(text@, *at) is None);
                }
                return None;
            }
            depth = depth - 1;
            if depth == 0 {
                opener = index;
                break;
            }
        }
        if index == 0 || index - 1 < at.start {
            proof {
                assert(destination_of(text@, *at) is None);
            }
            return None;
        }
        index = index - 1;
    }
    if opener == at.start || text[opener - 1] != 93 {
        return None;
    }
    if opener + 1 < at.end - 1 {
        Some((opener + 1)..(at.end - 1))
    } else {
        None
    }
}


/// Whether `ranges` holds a range around `byte`.
fn covers(ranges: &Vec<Range<usize>>, byte: usize) -> (yes: bool)
    ensures
        yes == exists|i: int|
            0 <= i < ranges@.len() && #[trigger] ranges@[i].start <= byte && byte < ranges@[i].end,
{
    let mut i: usize = 0;
    while i < ranges.len()
        invariant
            0 <= i <= ranges@.len(),
            forall|k: int| 0 <= k < i ==> !(#[trigger] ranges@[k].start <= byte && byte < ranges@[k].end),
        decreases ranges.len() - i,
    {
        if ranges[i].start <= byte && byte < ranges[i].end {
            return true;
        }
        i = i + 1;
    }
    false
}

/// Whether every range of `ranges` lies inside a text `len` bytes long.
pub open spec fn ranges_in(ranges: Seq<Range<usize>>, len: int) -> bool {
    forall|i: int| 0 <= i < ranges.len() ==> #[trigger] ranges[i].start <= ranges[i].end && ranges[i].end <= len
}

/// Whether every span of `spans` is [`clean`] over `text`.
pub open spec fn all_clean(text: Seq<u8>, spans: Seq<Span>) -> bool {
    forall|i: int| 0 <= i < spans.len() ==> clean(text, #[trigger] spans[i])
}

/// `spans` with `more` after them are all clean when both halves are.
proof fn lemma_clean_append(text: Seq<u8>, spans: Seq<Span>, more: Seq<Span>)
    requires
        all_clean(text, spans),
        forall|i: int| 0 <= i < more.len() ==> clean(text, #[trigger] more[i]),
    ensures
        all_clean(text, spans + more),
{
    assert forall|i: int| 0 <= i < (spans + more).len() implies clean(text, #[trigger] (spans + more)[i]) by {
        if i >= spans.len() {
            assert((spans + more)[i] == more[i - spans.len()]);
        }
    }
}

/// Adds `start..end` as a clean span of `mark`, as [`push_span`] does.
fn push_clean(text: &[u8], start: usize, end: usize, mark: Mark, spans: &mut Vec<Span>)
    requires
        start <= end <= text.len(),
        all_clean(text@, old(spans)@),
    ensures
        final(spans)@ == old(spans)@ + trimmed_span(text@, start as int, end as int, mark),
        all_clean(text@, final(spans)@),
{
    proof {
        lemma_trimmed_clean(text@, start as int, end as int, mark);
        lemma_clean_append(text@, old(spans)@, trimmed_span(text@, start as int, end as int, mark));
    }
    push_span(text, start..end, mark, spans);
}

/// The `[ref]:` or `[^1]:` that opens the line `start..end`, if one does: up to
/// three spaces, `[`, an optional `^`, a label that is neither empty nor opens
/// with whitespace, then `]:`.
pub open spec fn definition_label_of(text: Seq<u8>, start: int, end: int) -> Option<Range<usize>> {
    let opened = skip_byte(text, start, end, 32);
    if opened - start > 3 || opened >= end || text[opened] != 91 {
        None
    } else {
        let first = if opened + 1 < end && text[opened + 1] == 94 {
            opened + 2
        } else {
            opened + 1
        };
        if first >= end || text[first] == 93 || white_at(text, first, end) > 0 {
            None
        } else {
            let close = skip_while(text, first, end, |b: u8| b != 93);
            if close < end && end - close > 1 && text[close + 1] == 58 {
                Some(Range { start: opened as usize, end: (close + 2) as usize })
            } else {
                None
            }
        }
    }
}

/// The `[ref]:` or `[^1]:` that opens the line `start..end`, if one does.
fn definition_label(text: &[u8], start: usize, end: usize) -> (label: Option<Range<usize>>)
    requires
        start <= end <= text.len(),
    ensures
        label == definition_label_of(text@, start as int, end as int),
        label matches Some(label) ==> {
            &&& start <= label.start < label.end <= end
            &&& text@[label.start as int] == 91
            &&& text@[label.end - 1] == 58
        },
{
    let opened = skip_byte_from(text, start, end, 32);
    if opened - start > 3 || opened >= end || text[opened] != 91 {
        return None;
    }
    let first = if opened + 1 < end && text[opened + 1] == 94 {
        opened + 2
    } else {
        opened + 1
    };
    if first >= end || text[first] == 93 || white_len_at(text, first, end) > 0 {
        return None;
    }
    let mut close = first;
    while close < end && text[close] != 93
        invariant
            first <= close <= end <= text.len(),
            skip_while(text@, first as int, end as int, |b: u8| b != 93) == skip_while(text@, close as int, end as int, |b: u8| b != 93),
        decreases end - close,
    {
        close = close + 1;
    }
    if close < end && end - close > 1 && text[close + 1] == 58 {
        Some(opened..close + 2)
    } else {
        None
    }
}

/// Where the marker stops inside `start..end`, which is one line's worth of
/// one.
///
/// A quote's marker is `>` and at most one space or tab after it, so the
/// padding of `>      Beans` keeps the writer's ink; and whitespace left at
/// the end of a line is the writer's too, so a piece that is nothing else is
/// no marker at all.
pub open spec fn marker_stop(text: Seq<u8>, start: int, end: int, mark: Mark) -> int {
    let run_end = back_over_byte(text, start, end, 13);
    let caret = back_to_quote(text, start, run_end);
    if mark == Mark::QuoteMarker && caret > start {
        let padded = caret < text.len() && (text[caret] == 32 || text[caret] == 9);
        let stop = if padded {
            caret + 1
        } else {
            caret
        };
        if stop < end {
            stop
        } else {
            end
        }
    } else {
        let ends_line = run_end >= text.len() || is_ascii_space(text[run_end]);
        if ends_line && (forall|k: int| start <= k < run_end ==> is_ascii_space(#[trigger] text[k])) {
            start
        } else {
            run_end
        }
    }
}

/// Where the last `>` before `at` ends, looking back no further than
/// `start`; `start` where there is none.
pub open spec fn back_to_quote(text: Seq<u8>, start: int, at: int) -> int
    decreases at - start,
{
    if at > start && text[at - 1] != 62 {
        back_to_quote(text, start, at - 1)
    } else {
        at
    }
}

/// Where the marker stops inside `start..end`.
fn marker_end(text: &[u8], start: usize, end: usize, mark: Mark) -> (stop: usize)
    requires
        start <= end <= text.len(),
    ensures
        stop == marker_stop(text@, start as int, end as int, mark),
        start <= stop <= end,
{
    let run_end = back_over_byte_to(text, start, end, 13);
    if mark == Mark::QuoteMarker {
        let mut caret = run_end;
        while caret > start && text[caret - 1] != 62
            invariant
                start <= caret <= run_end <= end <= text.len(),
                back_to_quote(text@, start as int, run_end as int) == back_to_quote(text@, start as int, caret as int),
            decreases caret,
        {
            caret = caret - 1;
        }
        if caret > start {
            let after = caret;
            let padded = after < text.len() && (text[after] == 32 || text[after] == 9);
            let stop = if padded { after + 1 } else { after };
            return if stop < end { stop } else { end };
        }
    }
    let ends_line = run_end >= text.len() || is_space_byte(text[run_end]);
    if ends_line && all_space(text, start, run_end) {
        start
    } else {
        run_end
    }
}

/// Whether `byte` is one of the five bytes `u8::is_ascii_whitespace` accepts.
fn is_space_byte(byte: u8) -> (yes: bool)
    ensures
        yes == is_ascii_space(byte),
{
    byte == 32 || byte == 9 || byte == 10 || byte == 12 || byte == 13
}

/// Whether every byte of `from..to` is ASCII whitespace.
fn all_space(text: &[u8], from: usize, to: usize) -> (yes: bool)
    requires
        from <= to <= text.len(),
    ensures
        yes == forall|k: int| from <= k < to ==> is_ascii_space(#[trigger] text@[k]),
{
    let mut at = from;
    while at < to
        invariant
            from <= at <= to <= text.len(),
            forall|k: int| from <= k < at ==> is_ascii_space(#[trigger] text@[k]),
        decreases to - at,
    {
        if !is_space_byte(text[at]) {
            return false;
        }
        at = at + 1;
    }
    true
}

/// The marker spans of `from..end`: one per line it crosses, each stopping
/// where [`marker_stop`] says that line's marker stops.
pub open spec fn marker_spans_of(text: Seq<u8>, from: int, end: int, mark: Mark) -> Seq<Span>
    decreases end - from,
{
    if from >= end {
        seq![]
    } else {
        proof {
            lemma_skip_bounds(text, from, end, |b: u8| b != 10);
        }
        let line = skip_while(text, from, end, |b: u8| b != 10);
        let stop = marker_stop(text, from, line, mark);
        trimmed_span(text, from, stop, mark) + marker_spans_of(text, if line < end { line + 1 } else { end }, end, mark)
    }
}

/// Adds `start..end` as marker spans: one per line it crosses, each stopping
/// where [`marker_end`] says that line's marker stops.
fn marker_spans(text: &[u8], start: usize, end: usize, mark: Mark, spans: &mut Vec<Span>)
    requires
        start <= end <= text.len(),
        all_clean(text@, old(spans)@),
    ensures
        final(spans)@ == old(spans)@ + marker_spans_of(text@, start as int, end as int, mark),
        all_clean(text@, final(spans)@),
        forall|i: int| 0 <= i < old(spans)@.len() ==> final(spans)@[i] == old(spans)@[i],
        old(spans)@.len() <= final(spans)@.len(),
{
    let mut from = start;
    while from < end
        invariant
            start <= from,
            start <= end <= text.len(),
            all_clean(text@, spans@),
            spans@ + marker_spans_of(text@, from as int, end as int, mark) == old(spans)@ + marker_spans_of(text@, start as int, end as int, mark),
            forall|i: int| 0 <= i < old(spans)@.len() ==> spans@[i] == old(spans)@[i],
            old(spans)@.len() <= spans@.len(),
        decreases end - from,
    {
        let mut line = from;
        while line < end && text[line] != 10
            invariant
                from <= line <= end <= text.len(),
                skip_while(text@, from as int, end as int, |b: u8| b != 10) == skip_while(text@, line as int, end as int, |b: u8| b != 10),
            decreases end - line,
        {
            line = line + 1;
        }
        let stop = marker_end(text, from, line, mark);
        let ghost before = spans@;
        push_clean(text, from, stop, mark, spans);
        let next = if line < end { line + 1 } else { end };
        proof {
            assert(spans@ + marker_spans_of(text@, next as int, end as int, mark) =~= before + marker_spans_of(text@, from as int, end as int, mark));
        }
        from = next;
    }
}


/// A copy of `range`.
pub(crate) fn copy_range(range: &Range<usize>) -> (copy: Range<usize>)
    ensures
        copy == *range,
{
    range.start..range.end
}

/// Whether `ranges` run in the order they start in.
pub open spec fn sorted_by_start(ranges: Seq<Range<usize>>) -> bool {
    forall|i: int, j: int| 0 <= i < j < ranges.len() ==> ranges[i].start <= ranges[j].start
}

/// Whether `one` and `other` hold the same ranges, each as often as the other
/// holds it at least once.
pub open spec fn same_members<T>(one: Seq<T>, other: Seq<T>) -> bool {
    &&& forall|i: int| 0 <= i < one.len() ==> other.contains(#[trigger] one[i])
    &&& forall|i: int| 0 <= i < other.len() ==> one.contains(#[trigger] other[i])
}

/// `sorted` with `range` placed after every range that starts no later.
pub open spec fn insert_by_start(sorted: Seq<Range<usize>>, range: Range<usize>) -> Seq<Range<usize>>
    decreases sorted.len(),
{
    if sorted.len() == 0 {
        seq![range]
    } else if sorted.last().start <= range.start {
        sorted.push(range)
    } else {
        insert_by_start(sorted.drop_last(), range).push(sorted.last())
    }
}

/// `ranges` in a stable sort by where they start.
pub open spec fn by_start(ranges: Seq<Range<usize>>) -> Seq<Range<usize>>
    decreases ranges.len(),
{
    if ranges.len() == 0 {
        seq![]
    } else {
        insert_by_start(by_start(ranges.drop_last()), ranges.last())
    }
}

proof fn lemma_insert_by_start(sorted: Seq<Range<usize>>, range: Range<usize>)
    requires
        sorted_by_start(sorted),
    ensures
        insert_by_start(sorted, range).len() == sorted.len() + 1,
        sorted_by_start(insert_by_start(sorted, range)),
        forall|x| #[trigger] insert_by_start(sorted, range).contains(x) ==> x == range || sorted.contains(x),
    decreases sorted.len(),
{
    let r = insert_by_start(sorted, range);
    if sorted.len() == 0 {
        assert forall|x| #[trigger] r.contains(x) implies x == range || sorted.contains(x) by {
            let j = choose|j: int| 0 <= j < r.len() && r[j] == x;
        }
    } else if sorted.last().start <= range.start {
        assert forall|x| #[trigger] r.contains(x) implies x == range || sorted.contains(x) by {
            let j = choose|j: int| 0 <= j < r.len() && r[j] == x;
            if j < sorted.len() {
                assert(sorted[j] == x);
            }
        }
    } else {
        let shorter = sorted.drop_last();
        assert(sorted_by_start(shorter)) by {
            assert forall|i: int, j: int| 0 <= i < j < shorter.len() implies shorter[i].start <= shorter[j].start by {
                assert(shorter[i] == sorted[i] && shorter[j] == sorted[j]);
            }
        }
        lemma_insert_by_start(shorter, range);
        let inner = insert_by_start(shorter, range);
        assert forall|x| #[trigger] r.contains(x) implies x == range || sorted.contains(x) by {
            let j = choose|j: int| 0 <= j < r.len() && r[j] == x;
            if j < inner.len() {
                assert(inner[j] == x);
                assert(inner.contains(x));
                if x != range {
                    let m = choose|m: int| 0 <= m < shorter.len() && shorter[m] == x;
                    assert(sorted[m] == x);
                }
            } else {
                assert(sorted[sorted.len() - 1] == x);
            }
        }
        assert forall|i: int, j: int| 0 <= i < j < r.len() implies r[i].start <= r[j].start by {
            if j == inner.len() {
                assert(r[j] == sorted.last());
                assert(inner.contains(r[i])) by {
                    assert(inner[i] == r[i]);
                }
                if r[i] != range {
                    let m = choose|m: int| 0 <= m < shorter.len() && shorter[m] == r[i];
                    assert(sorted[m] == r[i]);
                    assert(sorted[sorted.len() - 1] == sorted.last());
                }
            } else {
                assert(r[i] == inner[i] && r[j] == inner[j]);
            }
        }
    }
}

proof fn lemma_by_start(ranges: Seq<Range<usize>>)
    ensures
        by_start(ranges).len() == ranges.len(),
        sorted_by_start(by_start(ranges)),
        forall|x| #[trigger] by_start(ranges).contains(x) ==> ranges.contains(x),
    decreases ranges.len(),
{
    if ranges.len() > 0 {
        let shorter = ranges.drop_last();
        lemma_by_start(shorter);
        lemma_insert_by_start(by_start(shorter), ranges.last());
        assert forall|x| #[trigger] by_start(ranges).contains(x) implies ranges.contains(x) by {
            if x == ranges.last() {
                assert(ranges[ranges.len() - 1] == x);
            } else {
                assert(by_start(shorter).contains(x));
                let m = choose|m: int| 0 <= m < shorter.len() && shorter[m] == x;
                assert(ranges[m] == x);
            }
        }
    }
}

/// `ranges` ordered by where they start, ranges that start together kept in
/// the order they came in.
pub(crate) fn sort_by_start(ranges: &Vec<Range<usize>>) -> (sorted: Vec<Range<usize>>)
    ensures
        sorted@ == by_start(ranges@),
        sorted@.len() == ranges@.len(),
        sorted_by_start(sorted@),
        forall|x| #[trigger] sorted@.contains(x) ==> ranges@.contains(x),
{
    let mut sorted: Vec<Range<usize>> = Vec::new();
    let mut i: usize = 0;
    while i < ranges.len()
        invariant
            0 <= i <= ranges@.len(),
            sorted@ == by_start(ranges@.take(i as int)),
        decreases ranges.len() - i,
    {
        let range = copy_range(&ranges[i]);
        proof {
            assert(ranges@.take(i + 1).drop_last() =~= ranges@.take(i as int));
        }
        let ghost s = sorted@;
        let mut j: usize = sorted.len();
        proof {
            assert(s.take(j as int) =~= s);
            assert(s.skip(j as int) =~= seq![]);
            assert(insert_by_start(s, range) =~= insert_by_start(s.take(j as int), range) + s.skip(j as int));
        }
        while j > 0 && sorted[j - 1].start > range.start
            invariant
                0 <= j <= s.len(),
                sorted@ == s,
                insert_by_start(s, range) == insert_by_start(s.take(j as int), range) + s.skip(j as int),
            decreases j,
        {
            proof {
                let t = s.take(j as int);
                assert(t.drop_last() =~= s.take(j - 1));
                assert(t.last() == s[j - 1]);
                assert(insert_by_start(s.take(j - 1), range).push(s[j - 1]) + s.skip(j as int) =~= insert_by_start(
                    s.take(j - 1),
                    range,
                ) + s.skip(j - 1));
            }
            j = j - 1;
        }
        proof {
            let t = s.take(j as int);
            if j > 0 {
                assert(t.last() == s[j - 1]);
            }
            assert(insert_by_start(t, range) =~= t.push(range));
            assert(t.push(range) + s.skip(j as int) =~= s.insert(j as int, range));
        }
        sorted.insert(j, range);
        i = i + 1;
    }
    proof {
        assert(ranges@.take(i as int) =~= ranges@);
        lemma_by_start(ranges@);
    }
    sorted
}


/// Whether every construct of `constructs` lies inside a text `len` bytes long.
pub open spec fn constructs_in(constructs: Seq<(Range<usize>, Mark)>, len: int) -> bool {
    forall|i: int|
        0 <= i < constructs.len() ==> #[trigger] constructs[i].0.start <= constructs[i].0.end
            && constructs[i].0.end <= len
}

/// The ranges of `content` that reach into `at`, in order.
pub open spec fn overlapping(content: Seq<Range<usize>>, at: Range<usize>) -> Seq<Range<usize>>
    decreases content.len(),
{
    if content.len() == 0 {
        seq![]
    } else {
        let before = overlapping(content.drop_last(), at);
        let range = content.last();
        if range.end > at.start && range.start < at.end {
            before.push(range)
        } else {
            before
        }
    }
}

/// The ranges of the first `n` constructs, but the one at `index`, that start
/// inside `at` and end no later than it, in order.
pub open spec fn nested_runs(constructs: Seq<(Range<usize>, Mark)>, index: int, at: Range<usize>, n: int) -> Seq<Range<usize>>
    decreases n,
{
    if n <= 0 || n > constructs.len() {
        seq![]
    } else {
        let before = nested_runs(constructs, index, at, n - 1);
        let run = constructs[n - 1].0;
        if n - 1 != index && run.start >= at.start && run.start < at.end && run.end <= at.end {
            before.push(run)
        } else {
            before
        }
    }
}

/// The marker spans of `at` from the cursor on, around the covered ranges
/// from the `k`th on: what lies between them is marker.
pub open spec fn marker_walk(
    text: Seq<u8>,
    covered: Seq<Range<usize>>,
    k: int,
    cursor: int,
    at: Range<usize>,
    marker: Mark,
) -> Seq<Span>
    decreases covered.len() - k,
{
    if k < 0 || k >= covered.len() {
        marker_spans_of(text, cursor, at.end as int, marker)
    } else {
        let run = covered[k];
        let head = if run.start > cursor {
            marker_spans_of(text, cursor, run.start as int, marker)
        } else {
            seq![]
        };
        let reached = if run.end > cursor {
            run.end as int
        } else {
            cursor
        };
        let next = if reached < at.end {
            reached
        } else {
            at.end as int
        };
        head + marker_walk(text, covered, k + 1, next, at, marker)
    }
}

/// The marker spans of the construct at `index`: its own bytes, less the
/// content inside it and less the constructs nested in it.
pub open spec fn markers_of(
    text: Seq<u8>,
    index: int,
    constructs: Seq<(Range<usize>, Mark)>,
    content: Seq<Range<usize>>,
) -> Seq<Span> {
    let at = constructs[index].0;
    let marker = marker_of(constructs[index].1);
    let covered = by_start(overlapping(content, at) + nested_runs(constructs, index, at, constructs.len() as int));
    marker_walk(text, covered, 0, at.start as int, at, marker)
}

/// Adds the marker spans of the construct at `index`: its own bytes, less the
/// content inside it and less the constructs nested in it. What is left is
/// punctuation, and it is spanned a line at a time.
fn markers(
    text: &[u8],
    index: usize,
    constructs: &Vec<(Range<usize>, Mark)>,
    content: &Vec<Range<usize>>,
    spans: &mut Vec<Span>,
)
    requires
        index < constructs@.len(),
        constructs_in(constructs@, text@.len() as int),
        ranges_in(content@, text@.len() as int),
        all_clean(text@, old(spans)@),
    ensures
        final(spans)@ == old(spans)@ + markers_of(text@, index as int, constructs@, content@),
        all_clean(text@, final(spans)@),
        forall|i: int| 0 <= i < old(spans)@.len() ==> final(spans)@[i] == old(spans)@[i],
        old(spans)@.len() <= final(spans)@.len(),
{
    let at = copy_range(&constructs[index].0);
    proof {
        assert(constructs@[index as int].0.start <= constructs@[index as int].0.end);
    }
    let marker = marker_mark(constructs[index].1);
    let mut covered: Vec<Range<usize>> = Vec::new();
    let mut i: usize = 0;
    while i < content.len()
        invariant
            0 <= i <= content@.len(),
            ranges_in(content@, text@.len() as int),
            covered@ == overlapping(content@.take(i as int), at),
            forall|k: int| 0 <= k < covered@.len() ==> #[trigger] covered@[k].start < at.end,
            ranges_in(covered@, text@.len() as int),
        decreases content.len() - i,
    {
        proof {
            assert(content@.take(i + 1).drop_last() =~= content@.take(i as int));
            assert(content@.take(i + 1).last() == content@[i as int]);
        }
        if content[i].end > at.start && content[i].start < at.end {
            covered.push(copy_range(&content[i]));
        }
        i = i + 1;
    }
    proof {
        assert(content@.take(i as int) =~= content@);
    }
    let ghost first = covered@;
    let mut j: usize = 0;
    while j < constructs.len()
        invariant
            0 <= j <= constructs@.len(),
            index < constructs@.len(),
            at == constructs@[index as int].0,
            constructs_in(constructs@, text@.len() as int),
            covered@ == first + nested_runs(constructs@, index as int, at, j as int),
            forall|k: int| 0 <= k < covered@.len() ==> #[trigger] covered@[k].start < at.end,
            ranges_in(covered@, text@.len() as int),
        decreases constructs.len() - j,
    {
        let run = &constructs[j].0;
        let ghost before = covered@;
        if j != index && run.start >= at.start && run.start < at.end && run.end <= at.end {
            covered.push(copy_range(run));
            proof {
                assert(covered@ =~= first + nested_runs(constructs@, index as int, at, j + 1));
            }
        } else {
            proof {
                assert(covered@ =~= first + nested_runs(constructs@, index as int, at, j + 1));
            }
        }
        j = j + 1;
    }
    let ghost unsorted = covered@;
    let covered = sort_by_start(&covered);
    proof {
        assert forall|m: int| 0 <= m < covered@.len() implies #[trigger] covered@[m].start < at.end && covered@[m].start
            <= covered@[m].end && covered@[m].end <= text@.len() by {
            assert(covered@.contains(covered@[m]));
            let n = choose|n: int| 0 <= n < unsorted.len() && unsorted[n] == covered@[m];
        }
    }
    let mut cursor = at.start;
    let mut k: usize = 0;
    while k < covered.len()
        invariant
            0 <= k <= covered@.len(),
            at.start <= cursor <= at.end <= text@.len(),
            forall|m: int| 0 <= m < covered@.len() ==> #[trigger] covered@[m].start < at.end && covered@[m].start
                <= covered@[m].end && covered@[m].end <= text@.len(),
            all_clean(text@, spans@),
            spans@ + marker_walk(text@, covered@, k as int, cursor as int, at, marker) == old(spans)@ + marker_walk(
                text@,
                covered@,
                0,
                at.start as int,
                at,
                marker,
            ),
            forall|m: int| 0 <= m < old(spans)@.len() ==> spans@[m] == old(spans)@[m],
            old(spans)@.len() <= spans@.len(),
        decreases covered.len() - k,
    {
        let run = copy_range(&covered[k]);
        let ghost before = spans@;
        if run.start > cursor {
            marker_spans(text, cursor, run.start, marker, spans);
        }
        let reached = if run.end > cursor { run.end } else { cursor };
        let next = if reached < at.end { reached } else { at.end };
        proof {
            assert(spans@ + marker_walk(text@, covered@, k + 1, next as int, at, marker) =~= before + marker_walk(
                text@,
                covered@,
                k as int,
                cursor as int,
                at,
                marker,
            ));
        }
        cursor = next;
        k = k + 1;
    }
    marker_spans(text, cursor, at.end, marker, spans);
}

/// Whether a range of `ranges` holds `byte`.
pub open spec fn covered_by(ranges: Seq<Range<usize>>, byte: usize) -> bool {
    exists|i: int| 0 <= i < ranges.len() && #[trigger] ranges[i].start <= byte && byte < ranges[i].end
}

/// The marker spans of the backslashes that escape the content ranges from
/// the `i`th on: a backslash just before a range's first byte that no range
/// holds.
pub open spec fn escaped_from(text: Seq<u8>, content: Seq<Range<usize>>, i: int) -> Seq<Span>
    decreases content.len() - i,
{
    if i < 0 || i >= content.len() {
        seq![]
    } else {
        let start = content[i].start;
        let here = if start > 0 && start <= text.len() && text[start - 1] == 92 && !covered_by(content, (start - 1) as usize) {
            seq![Span { at: Range { start: (start - 1) as usize, end: start }, mark: Mark::Markup }]
        } else {
            seq![]
        };
        here + escaped_from(text, content, i + 1)
    }
}

/// Adds a marker span for every backslash that escapes the byte after it: the
/// parser starts the escaped text at the character being escaped and leaves
/// the backslash uncovered. A backslash that is itself content — `\\*` — is a
/// word of the writer's and not a marker.
fn escapes(text: &[u8], content: &Vec<Range<usize>>, spans: &mut Vec<Span>)
    requires
        ranges_in(content@, text@.len() as int),
        all_clean(text@, old(spans)@),
    ensures
        final(spans)@ == old(spans)@ + escaped_from(text@, content@, 0),
        all_clean(text@, final(spans)@),
        forall|i: int| 0 <= i < old(spans)@.len() ==> final(spans)@[i] == old(spans)@[i],
        old(spans)@.len() <= final(spans)@.len(),
{
    let mut i: usize = 0;
    while i < content.len()
        invariant
            0 <= i <= content@.len(),
            ranges_in(content@, text@.len() as int),
            all_clean(text@, spans@),
            spans@ + escaped_from(text@, content@, i as int) == old(spans)@ + escaped_from(text@, content@, 0),
            forall|m: int| 0 <= m < old(spans)@.len() ==> spans@[m] == old(spans)@[m],
            old(spans)@.len() <= spans@.len(),
        decreases content.len() - i,
    {
        let start = content[i].start;
        let ghost before = spans@;
        if start > 0 && start <= text.len() && text[start - 1] == 92 && !covers(content, start - 1) {
            let escape = Span::new((start - 1)..start, Mark::Markup);
            proof {
                lemma_clean_append(text@, spans@, seq![escape]);
            }
            spans.push(escape);
            proof {
                assert(spans@ + escaped_from(text@, content@, i + 1) =~= before + escaped_from(text@, content@, i as int));
            }
        } else {
            proof {
                assert(spans@ + escaped_from(text@, content@, i + 1) =~= before + escaped_from(text@, content@, i as int));
            }
        }
        i = i + 1;
    }
}

/// The bounds of a skip: it stops no earlier than it starts and no later
/// than its limit.
pub proof fn lemma_skip_bounds(text: Seq<u8>, from: int, to: int, class: spec_fn(u8) -> bool)
    requires
        from <= to,
    ensures
        from <= skip_while(text, from, to, class) <= to,
    decreases to - from,
{
    if from < to && class(text[from]) {
        lemma_skip_bounds(text, from + 1, to, class);
    }
}

/// The ranges of the code blocks and the front matter among `constructs`,
/// whose lines are verbatim.
pub open spec fn verbatim_of(constructs: Seq<(Range<usize>, Mark)>) -> Seq<Range<usize>>
    decreases constructs.len(),
{
    if constructs.len() == 0 {
        seq![]
    } else {
        let before = verbatim_of(constructs.drop_last());
        let (at, mark) = constructs.last();
        if mark == Mark::CodeBlock || mark == Mark::FrontMatter {
            before.push(at)
        } else {
            before
        }
    }
}

/// Where the line starting at `at` ends: just past its line feed, or at the
/// end of the text.
pub open spec fn line_after(text: Seq<u8>, at: int) -> int {
    let end = skip_while(text, at, text.len() as int, |b: u8| b != 10);
    if end < text.len() {
        end + 1
    } else {
        end
    }
}

/// The definition label spans of the lines from the one starting at `at`
/// on: each line a definition opens, unless a verbatim range holds its first
/// byte.
pub open spec fn defined_from(text: Seq<u8>, verbatim: Seq<Range<usize>>, at: int) -> Seq<Span>
    decreases text.len() - at,
{
    if at < 0 || at >= text.len() {
        seq![]
    } else {
        proof {
            lemma_skip_bounds(text, at, text.len() as int, |b: u8| b != 10);
        }
        let line_end = line_after(text, at);
        let here = match definition_label_of(text, at, line_end) {
            Some(label) => if !covered_by(verbatim, at as usize) {
                seq![Span { at: label, mark: Mark::DefinitionLabel }]
            } else {
                seq![]
            },
            None => seq![],
        };
        here + defined_from(text, verbatim, line_end)
    }
}

/// Adds a marker span for every link-reference and footnote definition label,
/// read lexically a line at a time; a line inside a code block or the front
/// matter is verbatim and is left alone.
fn definitions(
    text: &[u8],
    constructs: &Vec<(Range<usize>, Mark)>,
    spans: &mut Vec<Span>,
)
    requires
        all_clean(text@, old(spans)@),
    ensures
        final(spans)@ == old(spans)@ + defined_from(text@, verbatim_of(constructs@), 0),
        all_clean(text@, final(spans)@),
        forall|i: int| 0 <= i < old(spans)@.len() ==> final(spans)@[i] == old(spans)@[i],
        old(spans)@.len() <= final(spans)@.len(),
{
    let mut verbatim: Vec<Range<usize>> = Vec::new();
    let mut i: usize = 0;
    while i < constructs.len()
        invariant
            0 <= i <= constructs@.len(),
            verbatim@ == verbatim_of(constructs@.take(i as int)),
        decreases constructs.len() - i,
    {
        proof {
            assert(constructs@.take(i + 1).drop_last() =~= constructs@.take(i as int));
        }
        if constructs[i].1 == Mark::CodeBlock || constructs[i].1 == Mark::FrontMatter {
            verbatim.push(copy_range(&constructs[i].0));
        }
        i = i + 1;
    }
    proof {
        assert(constructs@.take(i as int) =~= constructs@);
    }
    let mut at: usize = 0;
    while at < text.len()
        invariant
            at <= text@.len(),
            verbatim@ == verbatim_of(constructs@),
            all_clean(text@, spans@),
            spans@ + defined_from(text@, verbatim@, at as int) == old(spans)@ + defined_from(text@, verbatim@, 0),
            forall|m: int| 0 <= m < old(spans)@.len() ==> spans@[m] == old(spans)@[m],
            old(spans)@.len() <= spans@.len(),
        decreases text.len() - at,
    {
        let mut end = at;
        while end < text.len() && text[end] != 10
            invariant
                at <= end <= text@.len(),
                skip_while(text@, at as int, text@.len() as int, |b: u8| b != 10) == skip_while(text@, end as int, text@.len() as int, |b: u8| b != 10),
            decreases text.len() - end,
        {
            end = end + 1;
        }
        let line_end = if end < text.len() { end + 1 } else { end };
        let ghost before = spans@;
        if let Some(label) = definition_label(text, at, line_end) {
            if !covers(&verbatim, at) {
                let span = Span::new(label, Mark::DefinitionLabel);
                proof {
                    lemma_clean_append(text@, spans@, seq![span]);
                }
                spans.push(span);
            }
        }
        proof {
            assert(spans@ + defined_from(text@, verbatim@, line_end as int) =~= before + defined_from(text@, verbatim@, at as int));
        }
        at = line_end;
    }
}


/// What one pass over the events found: every construct the Markup Annotator
/// draws, with its mark, and the ranges an enclosing construct must not claim —
/// the writer's words, and the punctuation that already carries a mark of its
/// own.
struct Reading {
    constructs: Vec<(Range<usize>, Mark)>,
    content: Vec<Range<usize>>,
}

proof fn lemma_constructs_push(c: Seq<(Range<usize>, Mark)>, at: Range<usize>, mark: Mark, len: int)
    requires
        constructs_in(c, len),
        at.start <= at.end <= len,
    ensures
        constructs_in(c.push((at, mark)), len),
{
    let d = c.push((at, mark));
    assert forall|k: int| 0 <= k < d.len() implies #[trigger] d[k].0.start <= d[k].0.end && d[k].0.end <= len by {
        if k < c.len() {
            assert(d[k] == c[k]);
        }
    }
}

/// The ranges of a list of constructs.
pub open spec fn construct_ranges(constructs: Seq<(Range<usize>, Mark)>) -> Seq<Range<usize>> {
    constructs.map_values(|construct: (Range<usize>, Mark)| construct.0)
}

/// What one event adds to the constructs and the content read so far: a list
/// item its marker, an opening its mark (a fenced block its fences and info
/// string too, a link or image its destination), a break, a task box, a code
/// span, or HTML itself, and the writer's words as content.
pub open spec fn read_step(
    text: Seq<u8>,
    event: Parsed,
    so_far: (Seq<(Range<usize>, Mark)>, Seq<Range<usize>>),
) -> (Seq<(Range<usize>, Mark)>, Seq<Range<usize>>) {
    let (constructs, content) = so_far;
    let at = event.at;
    match event.token {
        Token::Start(Element::Item) => match item_marker(text, at) {
            Some((marker, mark)) => (constructs.push((marker, mark)), content.push(marker)),
            None => so_far,
        },
        Token::Start(element) => match mark_of(element, text, at) {
            Some(mark) => {
                let fenced = if element == Element::FencedCode {
                    fences_of(text, at)
                } else {
                    seq![]
                };
                let with_tag = constructs.push((at, mark)) + fenced;
                let inside = content + construct_ranges(fenced);
                if mark == Mark::Link || mark == Mark::Image {
                    match destination_of(text, at) {
                        Some(url) => (with_tag.push((url, Mark::Url)), inside.push(url)),
                        None => (with_tag, inside),
                    }
                } else {
                    (with_tag, inside)
                }
            },
            None => so_far,
        },
        Token::Rule => (constructs.push((at, Mark::ThematicBreak)), content.push(at)),
        Token::TaskBox => (constructs.push((at, Mark::TaskBox)), content.push(at)),
        Token::Code => (constructs.push((at, Mark::Code)), content.push(code_inside(text, at))),
        Token::Html => (constructs.push((at, Mark::Html)), content.push(at)),
        Token::Text => (constructs, content.push(at)),
        _ => so_far,
    }
}

/// Reading the opening of a fenced code block whose range opens with a run
/// of tildes or of backticks adds, after the block itself, that run as its
/// opening fence, whichever of the two bytes it is made of.
pub proof fn lemma_reading_a_fenced_block_marks_its_fence(
    text: Seq<u8>,
    event: Parsed,
    so_far: (Seq<(Range<usize>, Mark)>, Seq<Range<usize>>),
    open_end: int,
)
    requires
        event.token == Token::Start(Element::FencedCode),
        event.at.start < event.at.end <= text.len(),
        text[event.at.start as int] == 126 || text[event.at.start as int] == 96,
        event.at.start < open_end <= event.at.end,
        forall|k: int| event.at.start <= k < open_end ==> #[trigger] text[k] == text[event.at.start as int],
        open_end == event.at.end || text[open_end] != text[event.at.start as int],
    ensures
        read_step(text, event, so_far).0[so_far.0.len() as int] == (event.at, Mark::CodeBlock),
        read_step(text, event, so_far).0[so_far.0.len() as int + 1] == (
            Range { start: event.at.start, end: open_end as usize },
            Mark::Fence,
        ),
{
    lemma_both_fences_are_marked(text, event.at, open_end, open_end);
}

/// The constructs and the content the first `k` events give.
pub open spec fn read_from(text: Seq<u8>, events: Seq<Parsed>, k: int) -> (Seq<(Range<usize>, Mark)>, Seq<Range<usize>>)
    decreases k,
{
    if k <= 0 || k > events.len() {
        (seq![], seq![])
    } else {
        read_step(text, events[k - 1], read_from(text, events, k - 1))
    }
}

/// `constructs` with `(at, mark)` after them, every range still within
/// the text's `len` bytes.
fn push_construct(constructs: &mut Vec<(Range<usize>, Mark)>, at: Range<usize>, mark: Mark, len: usize)
    requires
        constructs_in(old(constructs)@, len as int),
        at.start <= at.end <= len,
    ensures
        final(constructs)@ == old(constructs)@.push((at, mark)),
        constructs_in(final(constructs)@, len as int),
{
    proof {
        lemma_constructs_push(constructs@, at, mark, len as int);
    }
    constructs.push((at, mark));
}

/// `content` with `at` after it, every range still within the text's
/// `len` bytes.
fn push_range(content: &mut Vec<Range<usize>>, at: Range<usize>, len: usize)
    requires
        ranges_in(old(content)@, len as int),
        at.start <= at.end <= len,
    ensures
        final(content)@ == old(content)@.push(at),
        ranges_in(final(content)@, len as int),
{
    let ghost before = content@;
    content.push(at);
    proof {
        assert forall|k: int| 0 <= k < content@.len() implies #[trigger] content@[k].start <= content@[k].end
            && content@[k].end <= len by {
            if k < before.len() {
                assert(content@[k] == before[k]);
            }
        }
    }
}

/// The constructs of `text`, and the bytes inside them that are not markup.
#[verifier::rlimit(100)]
fn read(text: &[u8], events: &Vec<Parsed>) -> (reading: Reading)
    requires
        in_bounds(events@, text@.len() as int),
    ensures
        reading.constructs@ == read_from(text@, events@, events@.len() as int).0,
        reading.content@ == by_start(read_from(text@, events@, events@.len() as int).1),
        constructs_in(reading.constructs@, text@.len() as int),
        ranges_in(reading.content@, text@.len() as int),
        sorted_by_start(reading.content@),
{
    let len = text.len();
    let mut constructs: Vec<(Range<usize>, Mark)> = Vec::new();
    let mut content: Vec<Range<usize>> = Vec::new();
    let mut i: usize = 0;
    while i < events.len()
        invariant
            0 <= i <= events@.len(),
            len == text@.len(),
            in_bounds(events@, len as int),
            (constructs@, content@) == read_from(text@, events@, i as int),
            constructs_in(constructs@, len as int),
            ranges_in(content@, len as int),
        decreases events.len() - i,
    {
        let at = copy_range(&events[i].at);
        assert(at == events@[i as int].at);
        assert(events@[i as int].at.start <= events@[i as int].at.end && events@[i as int].at.end <= len);
        let ghost c0 = constructs@;
        let ghost t0 = content@;
        match events[i].token {
            Token::Start(Element::Item) => {
                if let Some((marker, mark)) = list_marker(text, &at) {
                    push_construct(&mut constructs, copy_range(&marker), mark, len);
                    push_range(&mut content, marker, len);
                }
            },
            Token::Start(element) => {
                if let Some(mark) = tag_mark(element, text, &at) {
                    push_construct(&mut constructs, copy_range(&at), mark, len);
                    proof {
                        lemma_constructs_push(c0, at, mark, len as int);
                    }
                    let ghost c1 = constructs@;
                    if matches!(element, Element::FencedCode) {
                        let found = fences(text, &at);
                        let mut f: usize = 0;
                        while f < found.len()
                            invariant
                                0 <= f <= found@.len(),
                                at.start <= at.end <= len == text@.len(),
                                forall|m: int| 0 <= m < found@.len() ==> within(#[trigger] found@[m].0, at),
                                constructs_in(constructs@, len as int),
                                ranges_in(content@, len as int),
                                constructs@ == c1 + found@.take(f as int),
                                content@ == t0 + construct_ranges(found@.take(f as int)),
                            decreases found.len() - f,
                        {
                            push_construct(&mut constructs, copy_range(&found[f].0), found[f].1, len);
                            push_range(&mut content, copy_range(&found[f].0), len);
                            proof {
                                assert(found@.take(f + 1) =~= found@.take(f as int).push(found@[f as int]));
                                assert(constructs@ =~= c1 + found@.take(f + 1));
                                assert(content@ =~= t0 + construct_ranges(found@.take(f + 1)));
                            }
                            f = f + 1;
                        }
                        proof {
                            assert(found@.take(f as int) =~= found@);
                        }
                    } else {
                        proof {
                            assert(constructs@ =~= c1 + seq![]);
                            assert(content@ =~= t0 + construct_ranges(seq![]));
                        }
                    }
                    if mark == Mark::Link || mark == Mark::Image {
                        if let Some(url) = destination(text, &at) {
                            push_construct(&mut constructs, copy_range(&url), Mark::Url, len);
                            push_range(&mut content, url, len);
                        }
                    }
                }
            },
            Token::Rule => {
                push_construct(&mut constructs, copy_range(&at), Mark::ThematicBreak, len);
                push_range(&mut content, at, len);
            },
            Token::TaskBox => {
                push_construct(&mut constructs, copy_range(&at), Mark::TaskBox, len);
                push_range(&mut content, at, len);
            },
            Token::Code => {
                push_construct(&mut constructs, copy_range(&at), Mark::Code, len);
                push_range(&mut content, code_text(text, &at), len);
            },
            Token::Html => {
                push_construct(&mut constructs, copy_range(&at), Mark::Html, len);
                push_range(&mut content, at, len);
            },
            Token::Text => {
                push_range(&mut content, at, len);
            },
            _ => {},
        }
        i = i + 1;
    }
    let sorted = sort_by_start(&content);
    proof {
        assert forall|k: int| 0 <= k < sorted@.len() implies #[trigger] sorted@[k].start
            <= sorted@[k].end && sorted@[k].end <= len by {
            assert(sorted@.contains(sorted@[k]));
            let m = choose|m: int| 0 <= m < content@.len() && content@[m] == sorted@[k];
        }
    }
    Reading { constructs, content: sorted }
}

/// Whether `one` comes no later than `other` in the order spans are handed
/// out: by start, and the wider first where two start together.
pub open spec fn in_order(one: Span, other: Span) -> bool {
    one.at.start < other.at.start || (one.at.start == other.at.start && one.at.end
        >= other.at.end)
}

/// Whether `spans` are in the order they are handed out in.
pub open spec fn ordered(spans: Seq<Span>) -> bool {
    forall|i: int, j: int| 0 <= i < j < spans.len() ==> in_order(spans[i], spans[j])
}

/// A copy of `span`.
fn copy_span(span: &Span) -> (copy: Span)
    ensures
        copy == *span,
{
    Span { at: span.at.start..span.at.end, mark: span.mark }
}

/// Whether no span of `spans` is followed by one equal to it.
pub open spec fn no_twins(spans: Seq<Span>) -> bool {
    forall|i: int| 0 <= i < spans.len() - 1 ==> spans[i] != #[trigger] spans[i + 1]
}

/// `spans` with every span that repeats the one before it taken out.
pub open spec fn deduped(spans: Seq<Span>) -> Seq<Span>
    decreases spans.len(),
{
    if spans.len() == 0 {
        seq![]
    } else {
        let kept = deduped(spans.drop_last());
        if kept.len() > 0 && kept.last() == spans.last() {
            kept
        } else {
            kept.push(spans.last())
        }
    }
}

/// `spans` with every span that repeats the one before it taken out.
fn dedup(spans: &Vec<Span>) -> (kept: Vec<Span>)
    requires
        ordered(spans@),
    ensures
        kept@ == deduped(spans@),
        ordered(kept@),
        no_twins(kept@),
        same_members(kept@, spans@),
{
    let mut out: Vec<Span> = Vec::new();
    let mut k: usize = 0;
    while k < spans.len()
        invariant
            0 <= k <= spans@.len(),
            ordered(spans@),
            ordered(out@),
            no_twins(out@),
            same_members(out@, spans@.take(k as int)),
            out@ == deduped(spans@.take(k as int)),
            k > 0 ==> out@.len() > 0 && out@.last() == spans@[k - 1],
            k == 0 ==> out@.len() == 0,
        decreases spans.len() - k,
    {
        let ghost before = out@;
        let ghost taken = spans@.take(k as int + 1);
        assert(taken == spans@.take(k as int).push(spans@[k as int]));
        assert(taken.drop_last() =~= spans@.take(k as int));
        let twin = out.len() > 0 && out[out.len() - 1].at.start == spans[k].at.start
            && out[out.len() - 1].at.end == spans[k].at.end && out[out.len() - 1].mark
            == spans[k].mark;
        if !twin {
            out.push(copy_span(&spans[k]));
            proof {
                assert forall|a: int, b: int| 0 <= a < b < out@.len() implies in_order(
                    out@[a],
                    out@[b],
                ) by {
                    if b == out@.len() - 1 && a < b {
                        let m = choose|m: int| 0 <= m < k && spans@.take(k as int)[m] == before[a];
                        assert(spans@[m] == before[a]);
                    }
                }
                assert forall|i: int| 0 <= i < out@.len() implies taken.contains(#[trigger] out@[i]) by {
                    if i < before.len() {
                        let m = choose|m: int| 0 <= m < k && spans@.take(k as int)[m] == before[i];
                        assert(taken[m] == before[i]);
                    } else {
                        assert(taken[k as int] == out@[i]);
                    }
                }
                assert forall|m: int| 0 <= m < taken.len() implies out@.contains(#[trigger] taken[m]) by {
                    if m == k {
                        assert(out@[before.len() as int] == taken[m]);
                    } else {
                        assert(spans@.take(k as int)[m] == taken[m]);
                        let i = choose|i: int| 0 <= i < before.len() && before[i] == taken[m];
                        assert(out@[i] == before[i]);
                    }
                }
            }
        } else {
            proof {
                assert(out@.last() == spans@[k as int]);
                assert forall|m: int| 0 <= m < taken.len() implies out@.contains(#[trigger] taken[m]) by {
                    if m == k {
                        assert(out@[out@.len() - 1] == taken[m]);
                    } else {
                        assert(spans@.take(k as int)[m] == taken[m]);
                    }
                }
                assert forall|i: int| 0 <= i < out@.len() implies taken.contains(#[trigger] out@[i]) by {
                    let m = choose|m: int| 0 <= m < k && spans@.take(k as int)[m] == out@[i];
                    assert(taken[m] == out@[i]);
                }
            }
        }
        k = k + 1;
    }
    proof {
        assert(spans@.take(k as int) == spans@);
    }
    out
}

/// The spans of the first `index` constructs: each construct's own span,
/// then its markers.
pub open spec fn construct_spans(
    text: Seq<u8>,
    constructs: Seq<(Range<usize>, Mark)>,
    content: Seq<Range<usize>>,
    index: int,
) -> Seq<Span>
    decreases index,
{
    if index <= 0 || index > constructs.len() {
        seq![]
    } else {
        let (at, mark) = constructs[index - 1];
        construct_spans(text, constructs, content, index - 1) + trimmed_span(text, at.start as int, at.end as int, mark)
            + markers_of(text, index - 1, constructs, content)
    }
}

/// Every Markup span an event stream gives, before they are put in order:
/// the constructs' spans and markers, the escapes, and the definition labels.
pub open spec fn gathered(text: Seq<u8>, events: Seq<Parsed>) -> Seq<Span> {
    let constructs = read_from(text, events, events.len() as int).0;
    let content = by_start(read_from(text, events, events.len() as int).1);
    construct_spans(text, constructs, content, constructs.len() as int) + escaped_from(text, content, 0)
        + defined_from(text, verbatim_of(constructs), 0)
}

/// The Markup spans of `text` under the event stream `events`: everything
/// [`gathered`] finds, in the order they are handed out, each once.
pub open spec fn markup_of(text: Seq<u8>, events: Seq<Parsed>) -> Seq<Span> {
    deduped(nested(gathered(text, events)))
}

/// The Markup spans a text's event stream gives, in the order the bytes
/// appear: every construct's span, its markers, the backslashes of escapes
/// and the labels of definitions, each once.
///
/// Every span is in the text, holds at least one byte, and neither opens nor
/// closes with a line ending; they run by start, the wider first, and no span
/// is handed out twice in a row.
pub fn markup_from(text: &[u8], events: &Vec<Parsed>) -> (spans: Vec<Span>)
    requires
        in_bounds(events@, text@.len() as int),
    ensures
        spans@ == markup_of(text@, events@),
        all_clean(text@, spans@),
        ordered(spans@),
        no_twins(spans@),
{
    let reading = read(text, events);
    let mut spans: Vec<Span> = Vec::new();
    let mut index: usize = 0;
    while index < reading.constructs.len()
        invariant
            0 <= index <= reading.constructs@.len(),
            constructs_in(reading.constructs@, text@.len() as int),
            ranges_in(reading.content@, text@.len() as int),
            all_clean(text@, spans@),
            spans@ == construct_spans(text@, reading.constructs@, reading.content@, index as int),
        decreases reading.constructs.len() - index,
    {
        let start = reading.constructs[index].0.start;
        let end = reading.constructs[index].0.end;
        push_clean(text, start, end, reading.constructs[index].1, &mut spans);
        markers(text, index, &reading.constructs, &reading.content, &mut spans);
        index = index + 1;
    }
    escapes(text, &reading.content, &mut spans);
    definitions(text, &reading.constructs, &mut spans);
    let sorted = nest(spans.as_slice());
    proof {
        lemma_nested(spans@);
    }
    let kept = dedup(&sorted);
    proof {
        assert forall|i: int| 0 <= i < kept@.len() implies clean(text@, #[trigger] kept@[i]) by {
            let j = choose|j: int| 0 <= j < sorted@.len() && sorted@[j] == kept@[i];
            assert(sorted@.contains(sorted@[j]));
            let m = choose|m: int| 0 <= m < spans@.len() && spans@[m] == sorted@[j];
        }
    }
    kept
}

/// The Markup spans of `text`, in the order the bytes appear: the parser's
/// event stream for `text` read by [`markup_from`].
pub fn markup(text: &str) -> (spans: Vec<Span>)
    ensures
        spans@ == markup_of(text.spec_bytes(), parse(text@)),
        all_clean(text.spec_bytes(), spans@),
        ordered(spans@),
        no_twins(spans@),
{
    let parsed = events(text);
    markup_from(text.as_bytes(), &parsed)
}

/// `sorted` with `span` placed after every span that comes no later than it:
/// by start, and at one start the longer first.
pub open spec fn insert_nested(sorted: Seq<Span>, span: Span) -> Seq<Span>
    decreases sorted.len(),
{
    if sorted.len() == 0 {
        seq![span]
    } else if in_order(sorted.last(), span) {
        sorted.push(span)
    } else {
        insert_nested(sorted.drop_last(), span).push(sorted.last())
    }
}

/// `spans` in a stable sort by start, and at one start the longer first,
/// so that a span comes after every span it sits inside.
pub open spec fn nested(spans: Seq<Span>) -> Seq<Span>
    decreases spans.len(),
{
    if spans.len() == 0 {
        seq![]
    } else {
        insert_nested(nested(spans.drop_last()), spans.last())
    }
}

/// `spans` sorted as [`nested`] sorts them.
fn nest(spans: &[Span]) -> (sorted: Vec<Span>)
    ensures
        sorted@ == nested(spans@),
{
    let mut sorted: Vec<Span> = Vec::new();
    let mut i: usize = 0;
    while i < spans.len()
        invariant
            0 <= i <= spans@.len(),
            sorted@ == nested(spans@.take(i as int)),
        decreases spans.len() - i,
    {
        let span = copy_span(&spans[i]);
        proof {
            assert(spans@.take(i + 1).drop_last() =~= spans@.take(i as int));
        }
        let ghost s = sorted@;
        let mut j: usize = sorted.len();
        proof {
            assert(s.take(j as int) =~= s);
            assert(s.skip(j as int) =~= seq![]);
            assert(insert_nested(s, span) =~= insert_nested(s.take(j as int), span) + s.skip(j as int));
        }
        while j > 0 && !(sorted[j - 1].at.start < span.at.start || (sorted[j - 1].at.start == span.at.start
            && sorted[j - 1].at.end >= span.at.end))
            invariant
                0 <= j <= s.len(),
                sorted@ == s,
                insert_nested(s, span) == insert_nested(s.take(j as int), span) + s.skip(j as int),
            decreases j,
        {
            proof {
                let t = s.take(j as int);
                assert(t.drop_last() =~= s.take(j - 1));
                assert(t.last() == s[j - 1]);
                assert(insert_nested(s.take(j - 1), span).push(s[j - 1]) + s.skip(j as int) =~= insert_nested(
                    s.take(j - 1),
                    span,
                ) + s.skip(j - 1));
            }
            j = j - 1;
        }
        proof {
            let t = s.take(j as int);
            if j > 0 {
                assert(t.last() == s[j - 1]);
            }
            assert(insert_nested(t, span) =~= t.push(span));
            assert(t.push(span) + s.skip(j as int) =~= s.insert(j as int, span));
        }
        sorted.insert(j, span);
        i = i + 1;
    }
    proof {
        assert(spans@.take(i as int) =~= spans@);
    }
    sorted
}

/// `runs` with the bytes `start..end` drawn in `look` added: nothing for no
/// bytes, the last run lengthened where it ends at `start` in the same look,
/// and a run of their own otherwise.
pub open spec fn pushed(runs: Seq<Run>, start: usize, end: usize, look: Look) -> Seq<Run> {
    if start >= end {
        runs
    } else if runs.len() > 0 && runs.last().at.end == start && runs.last().look == look {
        runs.update(runs.len() - 1, Run { at: Range { start: runs.last().at.start, end }, look })
    } else {
        runs.push(Run { at: Range { start, end }, look })
    }
}

/// Where the sweep of [`flatten`] stands: the runs drawn so far, the spans
/// still open with where each ends and the look it resolved to, innermost
/// last, and the byte the next run starts at.
pub type Sweep = (Seq<Run>, Seq<(usize, Look)>, usize);

/// The sweep with every open span that ends by `upto` closed, innermost
/// first, each drawing its run up to its end.
pub open spec fn closed(sweep: Sweep, upto: usize) -> Sweep
    decreases sweep.1.len(),
{
    let (runs, open, cursor) = sweep;
    if open.len() > 0 && open.last().0 <= upto {
        closed((pushed(runs, cursor, open.last().0, open.last().1), open.drop_last(), open.last().0), upto)
    } else {
        sweep
    }
}

/// The sweep after `span`: the spans it is past closed, the span around it
/// drawn up to its start, and the span opened over the look around it.
pub open spec fn stepped(sweep: Sweep, span: Span) -> Sweep {
    let (runs, open, cursor) = closed(sweep, span.at.start);
    let drawn = if open.len() > 0 {
        pushed(runs, cursor, span.at.start, open.last().1)
    } else {
        runs
    };
    let under = if open.len() > 0 {
        open.last().1
    } else {
        Look::prose_spec()
    };
    (drawn, open.push((span.at.end, resolved(span.mark, under))), span.at.start)
}

/// The sweep after each of `spans` in turn.
pub open spec fn swept(sweep: Sweep, spans: Seq<Span>) -> Sweep
    decreases spans.len(),
{
    if spans.len() == 0 {
        sweep
    } else {
        stepped(swept(sweep, spans.drop_last()), spans.last())
    }
}

/// The runs `spans` flatten to: swept in [`nested`] order, then every span
/// still open closed.
pub open spec fn flattened(spans: Seq<Span>) -> Seq<Run> {
    closed(swept((seq![], seq![], 0), nested(spans)), usize::MAX).0
}

/// Adds `start..end` as a run drawn in `look`, or lengthens the last one if
/// it draws alike.
fn push_run(runs: &mut Vec<Run>, start: usize, end: usize, look: Look)
    ensures
        final(runs)@ == pushed(old(runs)@, start, end, look),
{
    if start >= end {
        return;
    }
    let n = runs.len();
    if n > 0 && runs[n - 1].at.end == start && runs[n - 1].look == look {
        let first = runs[n - 1].at.start;
        runs.set(n - 1, Run { at: Range { start: first, end }, look });
        return;
    }
    runs.push(Run { at: Range { start, end }, look });
}

/// `spans` resolved into runs that do not overlap.
///
/// A span's mark is resolved over whatever the spans containing it resolved
/// to, outermost first, so that a marker inside a bold heading comes out grey
/// and at the prose's weight while the heading around it stays bold. Runs
/// that come out alike and touching are one run.
pub fn flatten(spans: &[Span]) -> (runs: Vec<Run>)
    ensures
        runs@ == flattened(spans@),
{
    let sorted = nest(spans);
    let mut runs: Vec<Run> = Vec::new();
    let mut open: Vec<(usize, Look)> = Vec::new();
    let mut cursor: usize = 0;
    let mut i: usize = 0;
    while i < sorted.len()
        invariant
            0 <= i <= sorted@.len(),
            sorted@ == nested(spans@),
            (runs@, open@, cursor) == swept((seq![], seq![], 0), sorted@.take(i as int)),
        decreases sorted.len() - i,
    {
        let ghost at = (runs@, open@, cursor);
        proof {
            assert(sorted@.take(i + 1).drop_last() =~= sorted@.take(i as int));
        }
        let span = &sorted[i];
        while open.len() > 0 && open[open.len() - 1].0 <= span.at.start
            invariant
                closed(at, span.at.start) == closed((runs@, open@, cursor), span.at.start),
            decreases open@.len(),
        {
            let (end, look) = open.pop().unwrap();
            push_run(&mut runs, cursor, end, look);
            cursor = end;
        }
        let n = open.len();
        if n > 0 {
            let look = open[n - 1].1;
            push_run(&mut runs, cursor, span.at.start, look);
        }
        cursor = span.at.start;
        let under = if n > 0 {
            open[n - 1].1
        } else {
            Look::prose()
        };
        open.push((span.at.end, resolve(span.mark, under)));
        i = i + 1;
    }
    proof {
        assert(sorted@.take(i as int) =~= sorted@);
    }
    let ghost done = (runs@, open@, cursor);
    while open.len() > 0
        invariant
            closed(done, usize::MAX) == closed((runs@, open@, cursor), usize::MAX),
        decreases open@.len(),
    {
        let (end, look) = open.pop().unwrap();
        push_run(&mut runs, cursor, end, look);
        cursor = end;
    }
    runs
}

/// Whether `runs` run in order without overlapping, none of them empty, and
/// no two that touch drawn alike: two such would have been one run.
pub open spec fn runs_in_order(runs: Seq<Run>) -> bool {
    &&& forall|k: int| 0 <= k < runs.len() ==> (#[trigger] runs[k]).at.start < runs[k].at.end
    &&& forall|i: int, j: int| 0 <= i < j < runs.len() ==> (#[trigger] runs[i]).at.end <= (#[trigger] runs[j]).at.start
    &&& forall|k: int|
        #![trigger runs[k], runs[k + 1]]
        0 <= k < runs.len() - 1 && runs[k].at.end == runs[k + 1].at.start ==> runs[k].look != runs[k + 1].look
}

/// Whether no span of `spans` straddles another: any two are apart, or one
/// holds the other, and none ends before it starts.
pub open spec fn laminar(spans: Seq<Span>) -> bool {
    &&& forall|k: int| 0 <= k < spans.len() ==> (#[trigger] spans[k]).at.start <= spans[k].at.end
    &&& forall|i: int, j: int|
        0 <= i < spans.len() && 0 <= j < spans.len() ==> apart_or_nested(#[trigger] spans[i], #[trigger] spans[j])
}

/// Whether two spans are apart, or one holds the other.
pub open spec fn apart_or_nested(one: Span, other: Span) -> bool {
    ||| one.at.end <= other.at.start
    ||| other.at.end <= one.at.start
    ||| (one.at.start <= other.at.start && other.at.end <= one.at.end)
    ||| (other.at.start <= one.at.start && one.at.end <= other.at.end)
}

#[verifier::rlimit(30)]
proof fn lemma_pushed_in_order(runs: Seq<Run>, start: usize, end: usize, look: Look)
    requires
        runs_in_order(runs),
        runs.len() > 0 ==> runs.last().at.end <= start,
    ensures
        runs_in_order(pushed(runs, start, end, look)),
        start < end ==> pushed(runs, start, end, look).last().at.end == end,
        start >= end ==> pushed(runs, start, end, look) == runs,
{
    let out = pushed(runs, start, end, look);
    if start < end {
        if runs.len() > 0 && runs.last().at.end == start && runs.last().look == look {
            let n = runs.len() - 1;
            assert(forall|k: int| 0 <= k < n ==> #[trigger] out[k] == runs[k]);
            assert(out[n].at.start == runs[n].at.start && out[n].look == runs[n].look);
            assert forall|i: int, j: int| 0 <= i < j < out.len() implies (#[trigger] out[i]).at.end <= (#[trigger] out[j]).at.start by {
                assert(runs[i].at.end <= runs[j].at.start);
            }
            assert forall|k: int| 0 <= k < out.len() - 1 && out[k].at.end == out[k + 1].at.start implies out[k].look
                != out[k + 1].look by {
                assert(runs[k].at.end == runs[k + 1].at.start);
            }
        } else {
            let n = runs.len();
            assert(forall|k: int| 0 <= k < n ==> #[trigger] out[k] == runs[k]);
            assert forall|i: int, j: int| 0 <= i < j < out.len() implies (#[trigger] out[i]).at.end <= (#[trigger] out[j]).at.start by {
                if j == n {
                    assert(runs[i].at.end <= runs[n - 1].at.end) by {
                        if i < n - 1 {
                            assert(runs[i].at.end <= runs[n - 1].at.start);
                        }
                    }
                }
            }
            assert forall|k: int| 0 <= k < out.len() - 1 && out[k].at.end == out[k + 1].at.start implies out[k].look
                != out[k + 1].look by {
                if k + 1 < n {
                    assert(runs[k].at.end == runs[k + 1].at.start);
                }
            }
        }
    }
}

/// What the sweep keeps true between spans: its runs in order and behind
/// the cursor, its open spans' ends at or past the cursor, outermost
/// furthest, each the end of a span already swept.
pub open spec fn sweep_holds(sweep: Sweep, swept_spans: Seq<Span>) -> bool {
    let (runs, open, cursor) = sweep;
    &&& runs_in_order(runs)
    &&& runs.len() > 0 ==> runs.last().at.end <= cursor
    &&& forall|i: int, j: int| 0 <= i < j < open.len() ==> (#[trigger] open[i]).0 >= (#[trigger] open[j]).0
    &&& forall|k: int| 0 <= k < open.len() ==> (#[trigger] open[k]).0 >= cursor
    &&& forall|k: int| 0 <= k < open.len() ==> ends_a_span(swept_spans, #[trigger] open[k].0)
}

/// Whether one of `spans` ends at `end`.
pub open spec fn ends_a_span(spans: Seq<Span>, end: usize) -> bool {
    exists|p: int| 0 <= p < spans.len() && #[trigger] spans[p].at.end == end
}

#[verifier::rlimit(30)]
proof fn lemma_closed_holds(sweep: Sweep, upto: usize, swept_spans: Seq<Span>)
    requires
        sweep_holds(sweep, swept_spans),
    ensures
        sweep_holds(closed(sweep, upto), swept_spans),
        closed(sweep, upto).2 >= sweep.2,
        closed(sweep, upto).2 <= upto || closed(sweep, upto).2 == sweep.2,
        closed(sweep, upto).1.len() > 0 ==> closed(sweep, upto).1.last().0 > upto,
        closed(sweep, upto).1.len() <= sweep.1.len(),
        forall|k: int| 0 <= k < closed(sweep, upto).1.len() ==> #[trigger] closed(sweep, upto).1[k] == sweep.1[k],
    decreases sweep.1.len(),
{
    let (runs, open, cursor) = sweep;
    if open.len() > 0 && open.last().0 <= upto {
        let n = open.len() - 1;
        let top = open[n];
        lemma_pushed_in_order(runs, cursor, top.0, top.1);
        let o = open.drop_last();
        let next = (pushed(runs, cursor, top.0, top.1), o, top.0);
        assert(forall|k: int| 0 <= k < o.len() ==> #[trigger] o[k] == open[k]);
        assert forall|k: int| 0 <= k < o.len() implies (#[trigger] o[k]).0 >= top.0 by {
            assert(open[k].0 >= open[n].0);
        }
        assert forall|i: int, j: int| 0 <= i < j < o.len() implies (#[trigger] o[i]).0 >= (#[trigger] o[j]).0 by {
            assert(open[i].0 >= open[j].0);
        }
        assert forall|k: int| 0 <= k < o.len() implies ends_a_span(swept_spans, #[trigger] o[k].0) by {
            assert(ends_a_span(swept_spans, open[k].0));
        }
        assert(sweep_holds(next, swept_spans));
        lemma_closed_holds(next, upto, swept_spans);
        let c = closed(next, upto);
        assert forall|k: int| 0 <= k < c.1.len() implies #[trigger] c.1[k] == open[k] by {
            assert(c.1[k] == o[k]);
        }
    }
}

proof fn lemma_insert_nested(sorted: Seq<Span>, span: Span)
    requires
        forall|i: int, j: int| 0 <= i < j < sorted.len() ==> in_order(#[trigger] sorted[i], #[trigger] sorted[j]),
    ensures
        insert_nested(sorted, span).len() == sorted.len() + 1,
        forall|x| #[trigger] insert_nested(sorted, span).contains(x) ==> x == span || sorted.contains(x),
        forall|i: int, j: int|
            0 <= i < j < insert_nested(sorted, span).len() ==> in_order(
                #[trigger] insert_nested(sorted, span)[i],
                #[trigger] insert_nested(sorted, span)[j],
            ),
    decreases sorted.len(),
{
    let r = insert_nested(sorted, span);
    if sorted.len() == 0 {
    } else if in_order(sorted.last(), span) {
        let n = sorted.len() - 1;
        assert forall|x| #[trigger] r.contains(x) implies x == span || sorted.contains(x) by {
            let j = choose|j: int| 0 <= j < r.len() && r[j] == x;
            if j < sorted.len() {
                assert(sorted[j] == x);
            }
        }
        assert forall|i: int, j: int| 0 <= i < j < r.len() implies in_order(#[trigger] r[i], #[trigger] r[j]) by {
            if j == sorted.len() {
                assert(r[i] == sorted[i]);
                if i < n {
                    assert(in_order(sorted[i], sorted[n]));
                }
            } else {
                assert(r[i] == sorted[i] && r[j] == sorted[j]);
            }
        }
    } else {
        let shorter = sorted.drop_last();
        let last = sorted.last();
        let n = sorted.len() - 1;
        assert forall|i: int, j: int| 0 <= i < j < shorter.len() implies in_order(#[trigger] shorter[i], #[trigger] shorter[j]) by {
            assert(shorter[i] == sorted[i] && shorter[j] == sorted[j]);
        }
        lemma_insert_nested(shorter, span);
        let inner = insert_nested(shorter, span);
        assert forall|x| #[trigger] r.contains(x) implies x == span || sorted.contains(x) by {
            let j = choose|j: int| 0 <= j < r.len() && r[j] == x;
            if j < inner.len() {
                assert(inner[j] == x);
                assert(inner.contains(x));
                if x != span {
                    let m = choose|m: int| 0 <= m < shorter.len() && shorter[m] == x;
                    assert(sorted[m] == x);
                }
            } else {
                assert(sorted[n] == x);
            }
        }
        assert forall|i: int, j: int| 0 <= i < j < r.len() implies in_order(#[trigger] r[i], #[trigger] r[j]) by {
            if j == inner.len() {
                assert(r[j] == last);
                assert(inner[i] == r[i]);
                assert(inner.contains(r[i]));
                if r[i] != span {
                    let m = choose|m: int| 0 <= m < shorter.len() && shorter[m] == r[i];
                    assert(sorted[m] == r[i]);
                    assert(in_order(sorted[m], sorted[n]));
                }
            } else {
                assert(r[i] == inner[i] && r[j] == inner[j]);
            }
        }
    }
}

proof fn lemma_nested(spans: Seq<Span>)
    ensures
        nested(spans).len() == spans.len(),
        forall|x| #[trigger] nested(spans).contains(x) ==> spans.contains(x),
        forall|i: int, j: int|
            0 <= i < j < nested(spans).len() ==> in_order(#[trigger] nested(spans)[i], #[trigger] nested(spans)[j]),
    decreases spans.len(),
{
    if spans.len() > 0 {
        let shorter = spans.drop_last();
        lemma_nested(shorter);
        lemma_insert_nested(nested(shorter), spans.last());
        assert forall|x| #[trigger] nested(spans).contains(x) implies spans.contains(x) by {
            if x == spans.last() {
                assert(spans[spans.len() - 1] == x);
            } else {
                assert(nested(shorter).contains(x));
                let m = choose|m: int| 0 <= m < shorter.len() && shorter[m] == x;
                assert(spans[m] == x);
            }
        }
    }
}

#[verifier::rlimit(40)]
proof fn lemma_swept_holds(spans: Seq<Span>, i: int)
    requires
        0 <= i <= spans.len(),
        laminar(spans),
        forall|a: int, b: int| 0 <= a < b < spans.len() ==> in_order(#[trigger] spans[a], #[trigger] spans[b]),
    ensures
        sweep_holds(swept((seq![], seq![], 0), spans.take(i)), spans.take(i)),
        swept((seq![], seq![], 0), spans.take(i)).2 == (if i == 0 {
            0
        } else {
            spans[i - 1].at.start
        }),
    decreases i,
{
    if i > 0 {
        lemma_swept_holds(spans, i - 1);
        let before = spans.take(i - 1);
        let now = spans.take(i);
        assert(now.drop_last() =~= before);
        assert(now.last() == spans[i - 1]);
        let sweep = swept((seq![], seq![], 0), before);
        let span = spans[i - 1];
        assert(sweep.2 <= span.at.start) by {
            if i > 1 {
                assert(in_order(spans[i - 2], spans[i - 1]));
            }
        }
        assert(span.at.start <= span.at.end);
        lemma_closed_holds(sweep, span.at.start, before);
        let c = closed(sweep, span.at.start);
        let (runs, open, cursor) = c;
        assert(cursor <= span.at.start);
        lemma_pushed_in_order(runs, cursor, span.at.start, if open.len() > 0 { open.last().1 } else { Look::prose_spec() });
        let drawn = if open.len() > 0 {
            pushed(runs, cursor, span.at.start, open.last().1)
        } else {
            runs
        };
        let under = if open.len() > 0 {
            open.last().1
        } else {
            Look::prose_spec()
        };
        let grown = open.push((span.at.end, resolved(span.mark, under)));
        let next = (drawn, grown, span.at.start);
        assert(stepped(sweep, span) == next);
        if open.len() > 0 {
            let top = open.last();
            let n = open.len() - 1;
            assert(open[n] == top);
            assert(ends_a_span(before, top.0));
            let p = choose|p: int| 0 <= p < before.len() && #[trigger] before[p].at.end == top.0;
            assert(before[p] == spans[p]);
            assert(in_order(spans[p], spans[i - 1]));
            assert(apart_or_nested(spans[p], spans[i - 1]));
            assert(span.at.end <= top.0);
            assert forall|k: int| 0 <= k < open.len() implies (#[trigger] open[k]).0 >= span.at.end by {
                if k < n {
                    assert(open[k].0 >= open[n].0);
                }
            }
        }
        assert forall|a: int, b: int| 0 <= a < b < grown.len() implies (#[trigger] grown[a]).0 >= (#[trigger] grown[b]).0 by {
            if b < open.len() {
                assert(grown[a] == open[a] && grown[b] == open[b]);
            } else {
                assert(grown[a] == open[a]);
            }
        }
        assert forall|k: int| 0 <= k < grown.len() implies (#[trigger] grown[k]).0 >= span.at.start by {
            if k < open.len() {
                assert(grown[k] == open[k]);
                assert(open[k].0 > span.at.start) by {
                    if k < open.len() - 1 {
                        assert(open[k].0 >= open[open.len() - 1].0);
                    }
                }
            }
        }
        assert forall|k: int| 0 <= k < grown.len() implies ends_a_span(now, #[trigger] grown[k].0) by {
            if k < open.len() {
                assert(grown[k] == open[k]);
                assert(ends_a_span(before, open[k].0));
                let p = choose|p: int| 0 <= p < before.len() && #[trigger] before[p].at.end == open[k].0;
                assert(now[p] == before[p]);
            } else {
                assert(now[i - 1] == span);
            }
        }
        assert(drawn.len() > 0 ==> drawn.last().at.end <= span.at.start);
        assert(sweep_holds(next, now));
    }
}

/// Whether some run of `runs` draws the byte `b`.
pub open spec fn drawn(runs: Seq<Run>, b: int) -> bool {
    exists|k: int| 0 <= k < runs.len() && (#[trigger] runs[k]).at.start <= b < runs[k].at.end
}

/// Whether some span of `spans` covers the byte `b`.
pub open spec fn spanned(spans: Seq<Span>, b: int) -> bool {
    exists|p: int| 0 <= p < spans.len() && (#[trigger] spans[p]).at.start <= b < spans[p].at.end
}

/// What the sweep has drawn is what the spans it has passed cover, up to
/// where it stands; every span it has passed ends by where it stands or
/// inside the outermost span still open; and each open span began by where
/// it stands.
pub open spec fn sweep_covers(sweep: Sweep, swept_spans: Seq<Span>) -> bool {
    let (runs, open, cursor) = sweep;
    &&& forall|b: int| #[trigger] drawn(runs, b) ==> spanned(swept_spans, b)
    &&& forall|b: int| #[trigger] spanned(swept_spans, b) && b < cursor ==> drawn(runs, b)
    &&& forall|p: int|
        0 <= p < swept_spans.len() ==> (#[trigger] swept_spans[p]).at.end <= cursor || (open.len() > 0
            && swept_spans[p].at.end <= open[0].0)
    &&& forall|k: int|
        0 <= k < open.len() ==> exists|p: int|
            0 <= p < swept_spans.len() && (#[trigger] swept_spans[p]).at.end == (#[trigger] open[k]).0
                && swept_spans[p].at.start <= cursor
}

proof fn lemma_pushed_drawn(runs: Seq<Run>, start: usize, end: usize, look: Look)
    requires
        runs_in_order(runs),
    ensures
        forall|b: int| #[trigger] drawn(pushed(runs, start, end, look), b) <==> (drawn(runs, b) || (start <= b < end)),
{
    let out = pushed(runs, start, end, look);
    assert forall|b: int| #[trigger] drawn(out, b) <==> (drawn(runs, b) || (start <= b < end)) by {
        if start < end {
            if runs.len() > 0 && runs.last().at.end == start && runs.last().look == look {
                let n = runs.len() - 1;
                if drawn(out, b) {
                    let k = choose|k: int| 0 <= k < out.len() && (#[trigger] out[k]).at.start <= b < out[k].at.end;
                    if k < n {
                        assert(out[k] == runs[k]);
                    } else if b >= start {
                    } else {
                        assert(runs[n].at.start <= b < runs[n].at.end);
                    }
                }
                if drawn(runs, b) {
                    let k = choose|k: int| 0 <= k < runs.len() && (#[trigger] runs[k]).at.start <= b < runs[k].at.end;
                    if k < n {
                        assert(out[k] == runs[k]);
                    } else {
                        assert(out[n].at.start <= b < out[n].at.end);
                    }
                }
                if start <= b < end {
                    assert(out[n].at.start <= b < out[n].at.end);
                }
            } else {
                let n = runs.len() as int;
                if drawn(out, b) {
                    let k = choose|k: int| 0 <= k < out.len() && (#[trigger] out[k]).at.start <= b < out[k].at.end;
                    if k < n {
                        assert(out[k] == runs[k]);
                    }
                }
                if drawn(runs, b) {
                    let k = choose|k: int| 0 <= k < runs.len() && (#[trigger] runs[k]).at.start <= b < runs[k].at.end;
                    assert(out[k] == runs[k]);
                }
                if start <= b < end {
                    assert(out[n].at.start <= b < out[n].at.end);
                }
            }
        }
    }
}

#[verifier::rlimit(40)]
proof fn lemma_closed_covers(sweep: Sweep, upto: usize, swept_spans: Seq<Span>)
    requires
        sweep_holds(sweep, swept_spans),
        sweep_covers(sweep, swept_spans),
    ensures
        sweep_covers(closed(sweep, upto), swept_spans),
    decreases sweep.1.len(),
{
    let (runs, open, cursor) = sweep;
    if open.len() > 0 && open.last().0 <= upto {
        let n = open.len() - 1;
        let top = open[n];
        assert(open.last() == top);
        let o = open.drop_last();
        let r = pushed(runs, cursor, top.0, top.1);
        let next = (r, o, top.0);
        lemma_pushed_drawn(runs, cursor, top.0, top.1);
        lemma_pushed_in_order(runs, cursor, top.0, top.1);
        let q = choose|p: int|
            0 <= p < swept_spans.len() && (#[trigger] swept_spans[p]).at.end == (#[trigger] open[n]).0
                && swept_spans[p].at.start <= cursor;
        assert(top.0 >= cursor);
        assert forall|b: int| #[trigger] drawn(r, b) implies spanned(swept_spans, b) by {
            if !drawn(runs, b) {
                assert(swept_spans[q].at.start <= b < swept_spans[q].at.end);
            }
        }
        assert forall|b: int| #[trigger] spanned(swept_spans, b) && b < top.0 implies drawn(r, b) by {
            if b < cursor {
                assert(drawn(runs, b));
            }
        }
        assert forall|p: int| 0 <= p < swept_spans.len() implies (#[trigger] swept_spans[p]).at.end <= top.0 || (o.len() > 0
            && swept_spans[p].at.end <= o[0].0) by {
            if n > 0 {
                assert(o[0] == open[0]);
            }
        }
        assert forall|k: int| 0 <= k < o.len() implies exists|p: int|
            0 <= p < swept_spans.len() && (#[trigger] swept_spans[p]).at.end == (#[trigger] o[k]).0
                && swept_spans[p].at.start <= top.0 by {
            assert(o[k] == open[k]);
            let p = choose|p: int|
                0 <= p < swept_spans.len() && (#[trigger] swept_spans[p]).at.end == (#[trigger] open[k]).0
                    && swept_spans[p].at.start <= cursor;
            assert(swept_spans[p].at.end == o[k].0);
        }
        assert(sweep_holds(next, swept_spans)) by {
            assert(forall|k: int| 0 <= k < o.len() ==> #[trigger] o[k] == open[k]);
            assert forall|i: int, j: int| 0 <= i < j < o.len() implies (#[trigger] o[i]).0 >= (#[trigger] o[j]).0 by {
                assert(open[i].0 >= open[j].0);
            }
            assert forall|k: int| 0 <= k < o.len() implies (#[trigger] o[k]).0 >= top.0 by {
                assert(open[k].0 >= open[n].0);
            }
            assert forall|k: int| 0 <= k < o.len() implies ends_a_span(swept_spans, #[trigger] o[k].0) by {
                assert(ends_a_span(swept_spans, open[k].0));
            }
        }
        lemma_closed_covers(next, upto, swept_spans);
    }
}

proof fn lemma_insert_nested_keeps(sorted: Seq<Span>, span: Span)
    ensures
        insert_nested(sorted, span).contains(span),
        forall|x| sorted.contains(x) ==> #[trigger] insert_nested(sorted, span).contains(x),
    decreases sorted.len(),
{
    let r = insert_nested(sorted, span);
    if sorted.len() == 0 {
        assert(r[0] == span);
    } else if in_order(sorted.last(), span) {
        assert(r[sorted.len() as int] == span);
        assert forall|x| sorted.contains(x) implies #[trigger] r.contains(x) by {
            let k = choose|k: int| 0 <= k < sorted.len() && sorted[k] == x;
            assert(r[k] == x);
        }
    } else {
        let shorter = sorted.drop_last();
        lemma_insert_nested_keeps(shorter, span);
        let inner = insert_nested(shorter, span);
        let m = choose|m: int| 0 <= m < inner.len() && inner[m] == span;
        assert(r[m] == span);
        assert forall|x| sorted.contains(x) implies #[trigger] r.contains(x) by {
            let k = choose|k: int| 0 <= k < sorted.len() && sorted[k] == x;
            if k == sorted.len() - 1 {
                assert(r[inner.len() as int] == x);
            } else {
                assert(shorter[k] == x);
                assert(shorter.contains(x));
                assert(inner.contains(x));
                let j = choose|j: int| 0 <= j < inner.len() && inner[j] == x;
                assert(r[j] == x);
            }
        }
    }
}

proof fn lemma_nested_keeps(spans: Seq<Span>)
    ensures
        forall|x| spans.contains(x) ==> #[trigger] nested(spans).contains(x),
    decreases spans.len(),
{
    if spans.len() > 0 {
        let shorter = spans.drop_last();
        lemma_nested_keeps(shorter);
        lemma_insert_nested_keeps(nested(shorter), spans.last());
        assert forall|x| spans.contains(x) implies #[trigger] nested(spans).contains(x) by {
            let k = choose|k: int| 0 <= k < spans.len() && spans[k] == x;
            if k < spans.len() - 1 {
                assert(shorter[k] == x);
                assert(shorter.contains(x));
            }
        }
    }
}

#[verifier::rlimit(60)]
proof fn lemma_swept_covers(spans: Seq<Span>, i: int)
    requires
        0 <= i <= spans.len(),
        laminar(spans),
        forall|a: int, b: int| 0 <= a < b < spans.len() ==> in_order(#[trigger] spans[a], #[trigger] spans[b]),
    ensures
        sweep_covers(swept((seq![], seq![], 0), spans.take(i)), spans.take(i)),
    decreases i,
{
    if i == 0 {
        let e: Seq<Span> = spans.take(0);
        assert(e.len() == 0);
        let r: Seq<Run> = seq![];
        assert forall|b: int| #[trigger] drawn(r, b) implies spanned(e, b) by {}
    } else {
        lemma_swept_covers(spans, i - 1);
        lemma_swept_holds(spans, i - 1);
        let before = spans.take(i - 1);
        let now = spans.take(i);
        assert(now.drop_last() =~= before);
        assert(now.last() == spans[i - 1]);
        let sweep = swept((seq![], seq![], 0), before);
        let span = spans[i - 1];
        assert(sweep.2 <= span.at.start) by {
            if i > 1 {
                assert(in_order(spans[i - 2], spans[i - 1]));
            }
        }
        assert(span.at.start <= span.at.end);
        lemma_closed_holds(sweep, span.at.start, before);
        lemma_closed_covers(sweep, span.at.start, before);
        let c = closed(sweep, span.at.start);
        let (runs, open, cursor) = c;
        assert(cursor <= span.at.start);
        let under = if open.len() > 0 { open.last().1 } else { Look::prose_spec() };
        lemma_pushed_drawn(runs, cursor, span.at.start, under);
        let drawn_runs = if open.len() > 0 { pushed(runs, cursor, span.at.start, open.last().1) } else { runs };
        let grown = open.push((span.at.end, resolved(span.mark, under)));
        let next = (drawn_runs, grown, span.at.start);
        assert(stepped(sweep, span) == next);
        assert(swept((seq![], seq![], 0), now) == next);
        assert forall|p: int| 0 <= p < before.len() implies #[trigger] now[p] == before[p] by {}
        // The span the innermost open entry stands for, where there is one.
        if open.len() > 0 {
            let n = open.len() - 1;
            assert(open.last() == open[n]);
        }
        assert forall|b: int| #[trigger] drawn(drawn_runs, b) implies spanned(now, b) by {
            if drawn(runs, b) {
                assert(spanned(before, b));
                let p = choose|p: int| 0 <= p < before.len() && (#[trigger] before[p]).at.start <= b < before[p].at.end;
                assert(now[p] == before[p]);
            } else {
                let n = open.len() - 1;
                let q = choose|p: int|
                    0 <= p < before.len() && (#[trigger] before[p]).at.end == (#[trigger] open[n]).0
                        && before[p].at.start <= cursor;
                assert(now[q] == before[q]);
                assert(now[q].at.start <= b < now[q].at.end);
            }
        }
        assert forall|b: int| #[trigger] spanned(now, b) && b < span.at.start implies drawn(drawn_runs, b) by {
            let p = choose|p: int| 0 <= p < now.len() && (#[trigger] now[p]).at.start <= b < now[p].at.end;
            if p < i - 1 {
                assert(now[p] == before[p]);
                assert(spanned(before, b));
                if b < cursor {
                    assert(drawn(runs, b));
                } else if open.len() == 0 {
                    assert(before[p].at.end <= cursor);
                }
            }
        }
        assert forall|p: int| 0 <= p < now.len() implies (#[trigger] now[p]).at.end <= span.at.start || (grown.len() > 0
            && now[p].at.end <= grown[0].0) by {
            if p < i - 1 {
                assert(now[p] == before[p]);
                if open.len() > 0 {
                    assert(grown[0] == open[0]);
                }
            } else if open.len() == 0 {
                assert(grown[0].0 == span.at.end);
            } else {
                assert(grown[0] == open[0]);
                let n = open.len() - 1;
                let pp = choose|q: int|
                    0 <= q < before.len() && (#[trigger] before[q]).at.end == (#[trigger] open[0]).0
                        && before[q].at.start <= cursor;
                assert(open[0].0 >= open[n].0);
                assert(before[pp] == spans[pp]);
                assert(in_order(spans[pp], spans[i - 1]));
                assert(apart_or_nested(spans[pp], spans[i - 1]));
            }
        }
        assert forall|k: int| 0 <= k < grown.len() implies exists|p: int|
            0 <= p < now.len() && (#[trigger] now[p]).at.end == (#[trigger] grown[k]).0
                && now[p].at.start <= span.at.start by {
            if k < open.len() {
                assert(grown[k] == open[k]);
                let p = choose|p: int|
                    0 <= p < before.len() && (#[trigger] before[p]).at.end == (#[trigger] open[k]).0
                        && before[p].at.start <= cursor;
                assert(now[p] == before[p]);
            } else {
                assert(now[i - 1] == span);
            }
        }
    }
}

/// Flattening draws exactly the bytes the spans cover, whenever no span
/// straddles another: a byte lies in some run if and only if it lies in
/// some span.
pub proof fn lemma_flattened_runs_draw_what_the_spans_cover(spans: Seq<Span>)
    requires
        laminar(spans),
    ensures
        forall|b: int| #[trigger] drawn(flattened(spans), b) <==> spanned(spans, b),
{
    lemma_nested(spans);
    lemma_nested_keeps(spans);
    let sorted = nested(spans);
    assert(laminar(sorted)) by {
        assert forall|k: int| 0 <= k < sorted.len() implies (#[trigger] sorted[k]).at.start <= sorted[k].at.end by {
            assert(sorted.contains(sorted[k]));
            let m = choose|m: int| 0 <= m < spans.len() && spans[m] == sorted[k];
            assert(spans[m].at.start <= spans[m].at.end);
        }
        assert forall|a: int, b: int| 0 <= a < sorted.len() && 0 <= b < sorted.len() implies apart_or_nested(#[trigger] sorted[a], #[trigger] sorted[b]) by {
            assert(sorted.contains(sorted[a]));
            assert(sorted.contains(sorted[b]));
            let m = choose|m: int| 0 <= m < spans.len() && spans[m] == sorted[a];
            let q = choose|q: int| 0 <= q < spans.len() && spans[q] == sorted[b];
            assert(apart_or_nested(spans[m], spans[q]));
        }
    }
    lemma_swept_holds(sorted, sorted.len() as int);
    lemma_swept_covers(sorted, sorted.len() as int);
    assert(sorted.take(sorted.len() as int) =~= sorted);
    let sw = swept((seq![], seq![], 0), sorted);
    lemma_closed_holds(sw, usize::MAX, sorted);
    lemma_closed_covers(sw, usize::MAX, sorted);
    let fin = closed(sw, usize::MAX);
    assert(fin.1.len() == 0);
    assert forall|b: int| #[trigger] drawn(flattened(spans), b) <==> spanned(spans, b) by {
        if drawn(fin.0, b) {
            assert(spanned(sorted, b));
            let p = choose|p: int| 0 <= p < sorted.len() && (#[trigger] sorted[p]).at.start <= b < sorted[p].at.end;
            assert(sorted.contains(sorted[p]));
            let m = choose|m: int| 0 <= m < spans.len() && spans[m] == sorted[p];
            assert(spans[m].at.start <= b < spans[m].at.end);
        }
        if spanned(spans, b) {
            let m = choose|m: int| 0 <= m < spans.len() && (#[trigger] spans[m]).at.start <= b < spans[m].at.end;
            assert(spans.contains(spans[m]));
            assert(sorted.contains(spans[m]));
            let p = choose|p: int| 0 <= p < sorted.len() && sorted[p] == spans[m];
            assert(sorted[p].at.start <= b < sorted[p].at.end);
            assert(spanned(sorted, b));
            assert(sorted[p].at.end <= fin.2);
        }
    }
}

/// The runs `spans` flatten to run in order and never overlap, and no two
/// that touch are drawn alike, whenever no span straddles another.
pub proof fn lemma_flattened_runs_in_order(spans: Seq<Span>)
    requires
        laminar(spans),
    ensures
        runs_in_order(flattened(spans)),
{
    lemma_nested(spans);
    let sorted = nested(spans);
    assert(laminar(sorted)) by {
        assert forall|k: int| 0 <= k < sorted.len() implies (#[trigger] sorted[k]).at.start <= sorted[k].at.end by {
            assert(sorted.contains(sorted[k]));
            let m = choose|m: int| 0 <= m < spans.len() && spans[m] == sorted[k];
            assert(spans[m].at.start <= spans[m].at.end);
        }
        assert forall|a: int, b: int| 0 <= a < sorted.len() && 0 <= b < sorted.len() implies apart_or_nested(#[trigger] sorted[a], #[trigger] sorted[b]) by {
            assert(sorted.contains(sorted[a]));
            assert(sorted.contains(sorted[b]));
            let m = choose|m: int| 0 <= m < spans.len() && spans[m] == sorted[a];
            let q = choose|q: int| 0 <= q < spans.len() && spans[q] == sorted[b];
            assert(apart_or_nested(spans[m], spans[q]));
        }
    }
    lemma_swept_holds(sorted, sorted.len() as int);
    assert(sorted.take(sorted.len() as int) =~= sorted);
    lemma_closed_holds(swept((seq![], seq![], 0), sorted), usize::MAX, sorted);
}

} // verus!
