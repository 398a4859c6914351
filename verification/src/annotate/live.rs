//! Live: the markers Markdown is written in, folded off the page everywhere
//! but where the writer is, and what stands in the cells some of them leave.
//!
//! Live reads a Document's text, its block index and its Markup spans, and
//! judges each marker of a block by whether the writer is in that block: a
//! block the caret or the selection is in keeps its markers on the page, and
//! every other block's are folded away, with furniture (a bullet's dot, a
//! list's number, a task's box, a rule, a fence's edge, a link's words)
//! standing where a marker stood. A list is judged item by item. A heading is
//! scaled by its level wherever the writer is.
//!
//! All offsets are UTF-8 bytes from the start of the Document.

use vstd::prelude::*;
use std::ops::Range;
use vstd::string::StringSliceAdditionalSpecFns;

use crate::annotate::{copy_range, Mark, Span};
use crate::bytes::{is_digit, skip_digits, skip_while, trim_back, trim_front, trim_white, white_before, white_len_before};
use crate::document::{as_blocks, block_at_of, spans_reaching, Block, Document, Kind};

verus! {

/// How a folded marker closes up.
#[derive(Clone, Copy, Debug, PartialEq, Eq, Structural)]
pub enum Fold {
    /// A marker at the head of its block, hung in the gutter.
    Hanging,
    /// A delimiter inside a line.
    Inline,
}

/// What stands in the cells of a marker Live folded away.
#[derive(Debug, PartialEq, Eq)]
pub enum Furniture {
    /// A bullet list item's dot.
    Bullet,
    /// An ordered list item's number, and the byte written after it.
    Number { count: u32, delimiter: char },
    /// A task list item's box, covering the bullet and the box together, and
    /// whether it is ticked.
    Checkbox { checked: bool },
    /// The rule a thematic break draws.
    Hairline,
    /// The edge of a fenced code block.
    Fence,
    /// A link's words, and the bytes of its destination as the source wrote
    /// it.
    Link { destination: Range<usize> },
}

impl Furniture {
    /// Whether the bytes this furniture stands on are folded away under it:
    /// every marker's furniture, and not a link's, whose bytes are the
    /// writer's words.
    pub open spec fn spec_folds(&self) -> bool {
        !(self is Link)
    }

    /// Whether the bytes this furniture stands on are folded away under it.
    pub fn folds(&self) -> (yes: bool)
        ensures
            yes == self.spec_folds(),
    {
        match self {
            Furniture::Link { .. } => false,
            _ => true,
        }
    }
}

/// What Live says a range of bytes is.
#[derive(Debug, PartialEq, Eq)]
pub enum LiveLook {
    /// Marker bytes that are not the caret's to edit: taken off the page.
    Folded(Fold),
    /// A heading, at its level 1 to 6.
    Scaled(u8),
    /// Cells a marker left, and what stands in them.
    Furniture(Furniture),
    /// A quotation's `>` in a block whose markers are folded: not folded, and
    /// drawn in the body's own ink.
    Quote,
}

/// One judgement of Live's about one byte range of a Document.
#[derive(Debug, PartialEq, Eq)]
pub struct LiveSpan {
    /// Absolute UTF-8 bytes from the start of the Document.
    pub at: Range<usize>,
    /// The block index of the block these bytes are in; every item of a list
    /// carries the list's own index.
    pub block: usize,
    /// What Live says those bytes are.
    pub look: LiveLook,
}

/// Whether every span of `markup` names bytes of a text `len` bytes long.
pub open spec fn in_text(markup: Seq<Span>, len: int) -> bool {
    forall|i: int| 0 <= i < markup.len() ==> (#[trigger] markup[i]).at.start <= markup[i].at.end <= len
}

/// Whether `other` is a heading that starts where `span` does and reaches
/// at least as far.
pub open spec fn heads(other: Span, span: Span) -> bool {
    other.mark is Heading && other.at.start == span.at.start && other.at.end >= span.at.end
}

/// How a Markup span folds: as a hang where it opens a heading, the heading's
/// `#`s, and inline otherwise.
pub open spec fn fold_of(span: Span, markup: Seq<Span>) -> Fold {
    if exists|j: int| 0 <= j < markup.len() && heads(#[trigger] markup[j], span) {
        Fold::Hanging
    } else {
        Fold::Inline
    }
}

/// The task box the bullet at `index` carries, looking from `j` on: the first
/// box that starts where the bullet ends, among the spans that start no later
/// than that; -1 where there is none.
pub open spec fn task_from(markup: Seq<Span>, index: int, j: int) -> int
    decreases markup.len() - j,
{
    if j < 0 || j >= markup.len() || markup[j].at.start > markup[index].at.end {
        -1
    } else if markup[j].mark == Mark::TaskBox && markup[j].at.start == markup[index].at.end {
        j
    } else {
        task_from(markup, index, j + 1)
    }
}

/// Whether the box at `at` is ticked: an `x` of either case among its bytes.
pub open spec fn ticked(text: Seq<u8>, at: Range<usize>) -> bool {
    exists|p: int| at.start <= p < at.end && (#[trigger] text[p] == 120 || text[p] == 88)
}

/// The number the decimal digits from `start` to `end` spell.
pub open spec fn digits_value(text: Seq<u8>, start: int, end: int) -> nat
    decreases end - start,
{
    if end <= start {
        0
    } else {
        digits_value(text, start, end - 1) * 10 + (text[end - 1] - 48) as nat
    }
}

/// The number an ordered marker counts with: the digits after any leading
/// whitespace, read as a `u32`, and 1 where there are none or they do not
/// fit.
pub open spec fn number_of(text: Seq<u8>, at: Range<usize>) -> u32 {
    let start = trim_front(text, at.start as int, at.end as int);
    let end = skip_while(text, start, at.end as int, |b: u8| is_digit(b));
    let value = digits_value(text, start, end);
    if end == start || value > u32::MAX {
        1
    } else {
        value as u32
    }
}

/// The byte an ordered marker closes its count with: `)` where it ends in
/// one once its trailing whitespace is gone, and `.` otherwise.
pub open spec fn delimiter_of(text: Seq<u8>, at: Range<usize>) -> char {
    let end = trim_back(text, at.start as int, at.end as int);
    if end > at.start && text[end - 1] == 41 {
        ')'
    } else {
        '.'
    }
}

/// Whether `other` is one of the brackets or the destination of the link
/// `span`.
pub open spec fn plumbs(other: Span, span: Span) -> bool {
    (other.mark == Mark::LinkMark || other.mark == Mark::Url) && other.at.start >= span.at.start
        && other.at.end <= span.at.end
}

/// The brackets and destination of the link `span` among `markup`, in order.
pub open spec fn plumbing_of(markup: Seq<Span>, span: Span) -> Seq<Span>
    decreases markup.len(),
{
    if markup.len() == 0 {
        seq![]
    } else if plumbs(markup.last(), span) {
        plumbing_of(markup.drop_last(), span).push(markup.last())
    } else {
        plumbing_of(markup.drop_last(), span)
    }
}

/// Where the first destination stands among `plumbing` from `k` on, or -1.
pub open spec fn first_url(plumbing: Seq<Span>, k: int) -> int
    decreases plumbing.len() - k,
{
    if k < 0 || k >= plumbing.len() {
        -1
    } else if plumbing[k].mark == Mark::Url {
        k
    } else {
        first_url(plumbing, k + 1)
    }
}

/// One stretch of a link's words, standing for `destination`.
pub open spec fn link_word(at: Range<usize>, block: usize, destination: Range<usize>) -> LiveSpan {
    LiveSpan { at, block, look: LiveLook::Furniture(Furniture::Link { destination }) }
}

/// The words of the link `span` from the cursor on: what lies between its
/// brackets and destination, from the `k`th of them.
pub open spec fn link_gaps(
    plumbing: Seq<Span>,
    span: Span,
    destination: Range<usize>,
    cursor: usize,
    k: int,
    block: usize,
) -> Seq<LiveSpan>
    decreases plumbing.len() - k,
{
    if k < 0 || k >= plumbing.len() {
        if cursor < span.at.end {
            seq![link_word(cursor..span.at.end, block, destination)]
        } else {
            seq![]
        }
    } else {
        let other = plumbing[k];
        let head = if other.at.start > cursor {
            seq![link_word(cursor..other.at.start, block, destination)]
        } else {
            seq![]
        };
        let next = if other.at.end > cursor {
            other.at.end
        } else {
            cursor
        };
        head + link_gaps(plumbing, span, destination, next, k + 1, block)
    }
}

/// The words of the link `span`, each carrying the destination it stands
/// for: nothing where the link has no destination.
pub open spec fn words_of(span: Span, markup: Seq<Span>, block: usize) -> Seq<LiveSpan> {
    let plumbing = plumbing_of(markup, span);
    let url = first_url(plumbing, 0);
    if url < 0 {
        seq![]
    } else {
        link_gaps(plumbing, span, plumbing[url].at, span.at.start, 0, block)
    }
}

/// A span of `look` over `at` in `block`.
pub open spec fn judged(at: Range<usize>, block: usize, look: LiveLook) -> LiveSpan {
    LiveSpan { at, block, look }
}

/// Live's spans over the part `part` of block `block`, from the `k`th Markup
/// span of the block on, `open` when the writer is in the part, and
/// `swallowed` the task box a bullet has already stood for (-1 for none).
pub open spec fn emit_from(
    text: Seq<u8>,
    block: usize,
    part: Range<usize>,
    markup: Seq<Span>,
    open: bool,
    k: int,
    swallowed: int,
) -> Seq<LiveSpan>
    decreases markup.len() - k,
{
    if k < 0 || k >= markup.len() {
        seq![]
    } else {
        let span = markup[k];
        let rest = emit_from(text, block, part, markup, open, k + 1, swallowed);
        if !(part.start <= span.at.start && span.at.start < part.end) {
            rest
        } else if let Mark::Heading(level) = span.mark {
            seq![judged(span.at, block, LiveLook::Scaled(level))] + rest
        } else if open {
            rest
        } else {
            match span.mark {
                Mark::Markup => seq![judged(span.at, block, LiveLook::Folded(fold_of(span, markup)))] + rest,
                Mark::LinkMark | Mark::Url | Mark::InfoString => seq![judged(span.at, block, LiveLook::Folded(Fold::Inline))] + rest,
                Mark::Fence => seq![judged(span.at, block, LiveLook::Furniture(Furniture::Fence))] + rest,
                Mark::ThematicBreak => seq![judged(span.at, block, LiveLook::Furniture(Furniture::Hairline))] + rest,
                Mark::OrderedMarker => seq![
                    judged(
                        span.at,
                        block,
                        LiveLook::Furniture(Furniture::Number { count: number_of(text, span.at), delimiter: delimiter_of(text, span.at) }),
                    ),
                ] + rest,
                Mark::BulletMarker => {
                    let task = task_from(markup, k, k + 1);
                    if 0 <= task < markup.len() {
                        seq![
                            judged(
                                span.at.start..markup[task].at.end,
                                block,
                                LiveLook::Furniture(Furniture::Checkbox { checked: ticked(text, markup[task].at) }),
                            ),
                        ] + emit_from(text, block, part, markup, open, k + 1, task)
                    } else {
                        seq![judged(span.at, block, LiveLook::Furniture(Furniture::Bullet))] + rest
                    }
                },
                Mark::TaskBox => if swallowed != k {
                    seq![judged(span.at, block, LiveLook::Furniture(Furniture::Checkbox { checked: ticked(text, span.at) }))] + rest
                } else {
                    rest
                },
                Mark::QuoteMarker => seq![judged(span.at, block, LiveLook::Quote)] + rest,
                Mark::Link => words_of(span, markup, block) + rest,
                _ => rest,
            }
        }
    }
}

/// Every byte a skip passes over is of the class it skips.
proof fn lemma_skipped(text: Seq<u8>, from: int, to: int, class: spec_fn(u8) -> bool)
    ensures
        forall|q: int| from <= q < skip_while(text, from, to, class) ==> class(#[trigger] text[q]),
    decreases to - from,
{
    if from < to && class(text[from]) {
        lemma_skipped(text, from + 1, to, class);
    }
}

/// How a Markup span folds.
fn fold(span: &Span, markup: &Vec<Span>) -> (fold: Fold)
    ensures
        fold == fold_of(*span, markup@),
{
    let mut j: usize = 0;
    while j < markup.len()
        invariant
            0 <= j <= markup@.len(),
            forall|i: int| 0 <= i < j ==> !heads(#[trigger] markup@[i], *span),
        decreases markup.len() - j,
    {
        let other = &markup[j];
        let is_heading = match other.mark {
            Mark::Heading(_) => true,
            _ => false,
        };
        if is_heading && other.at.start == span.at.start && other.at.end >= span.at.end {
            proof {
                assert(heads(markup@[j as int], *span));
            }
            return Fold::Hanging;
        }
        j = j + 1;
    }
    Fold::Inline
}

/// The task box the bullet at `index` carries, if it carries one.
fn task_box(markup: &Vec<Span>, index: usize) -> (task: Option<usize>)
    requires
        index < markup@.len(),
    ensures
        match task {
            Some(t) => t == task_from(markup@, index as int, index + 1) && t < markup@.len(),
            None => task_from(markup@, index as int, index + 1) < 0,
        },
{
    let n = markup.len();
    let end = markup[index].at.end;
    let mut j: usize = index + 1;
    while j < markup.len() && markup[j].at.start <= end
        invariant
            index < j <= markup@.len(),
            end == markup@[index as int].at.end,
            task_from(markup@, index as int, index + 1) == task_from(markup@, index as int, j as int),
        decreases markup.len() - j,
    {
        if markup[j].mark == Mark::TaskBox && markup[j].at.start == end {
            return Some(j);
        }
        j = j + 1;
    }
    None
}

/// Whether the box at `at` is ticked.
fn is_ticked(text: &[u8], at: &Range<usize>) -> (yes: bool)
    requires
        at.start <= at.end <= text@.len(),
    ensures
        yes == ticked(text@, *at),
{
    let mut p = at.start;
    while p < at.end
        invariant
            at.start <= p <= at.end <= text@.len(),
            forall|q: int| at.start <= q < p ==> !(#[trigger] text@[q] == 120 || text@[q] == 88),
        decreases at.end - p,
    {
        if text[p] == 120 || text[p] == 88 {
            return true;
        }
        p = p + 1;
    }
    false
}

/// The number an ordered marker counts with.
fn number(text: &[u8], at: &Range<usize>) -> (count: u32)
    requires
        at.start <= at.end <= text@.len(),
    ensures
        count == number_of(text@, *at),
{
    let start = trim_white(text, at.start, at.end).start;
    let end = skip_digits(text, start, at.end);
    proof {
        lemma_skipped(text@, start as int, at.end as int, |b: u8| is_digit(b));
    }
    let mut value: u64 = 0;
    let mut over = false;
    let mut p = start;
    while p < end
        invariant
            start <= p <= end <= at.end <= text@.len(),
            end == skip_while(text@, start as int, at.end as int, |b: u8| is_digit(b)),
            forall|q: int| start <= q < end ==> is_digit(#[trigger] text@[q]),
            over == (digits_value(text@, start as int, p as int) > u32::MAX),
            !over ==> value == digits_value(text@, start as int, p as int),
        decreases end - p,
    {
        proof {
            assert(is_digit(text@[p as int]));
        }
        if !over {
            value = value * 10 + (text[p] - 48) as u64;
            if value > 4294967295 {
                over = true;
            }
        } else {
            proof {
                assert(digits_value(text@, start as int, p + 1) >= digits_value(text@, start as int, p as int));
            }
        }
        p = p + 1;
    }
    if end == start || over {
        1
    } else {
        value as u32
    }
}

/// Where `start..end` ends once its trailing whitespace is gone.
fn trimmed_end(text: &[u8], start: usize, end: usize) -> (stop: usize)
    requires
        start <= end <= text@.len(),
    ensures
        stop == trim_back(text@, start as int, end as int),
        start <= stop <= end,
{
    let mut to = end;
    let mut width = white_len_before(text, start, to);
    while start < to && width > 0
        invariant
            start <= to <= end <= text@.len(),
            width == white_before(text@, start as int, to as int),
            width <= to - start,
            trim_back(text@, start as int, end as int) == trim_back(text@, start as int, to as int),
        decreases to - start,
    {
        to = to - width;
        width = white_len_before(text, start, to);
    }
    to
}

/// The byte an ordered marker closes its count with.
fn delimiter(text: &[u8], at: &Range<usize>) -> (closing: char)
    requires
        at.start <= at.end <= text@.len(),
    ensures
        closing == delimiter_of(text@, *at),
{
    let end = trimmed_end(text, at.start, at.end);
    if end > at.start && text[end - 1] == 41 {
        ')'
    } else {
        '.'
    }
}

/// The spans at `picked` among `markup`, in order.
pub open spec fn picked_spans(markup: Seq<Span>, picked: Seq<usize>) -> Seq<Span> {
    picked.map_values(|i: usize| markup[i as int])
}

/// Appends the words of the link `span`.
fn words(span: &Span, markup: &Vec<Span>, block: usize, out: &mut Vec<LiveSpan>)
    ensures
        final(out)@ == old(out)@ + words_of(*span, markup@, block),
{
    let mut picked: Vec<usize> = Vec::new();
    let mut j: usize = 0;
    while j < markup.len()
        invariant
            0 <= j <= markup@.len(),
            forall|i: int| 0 <= i < picked@.len() ==> (#[trigger] picked@[i]) < markup@.len(),
            picked_spans(markup@, picked@) == plumbing_of(markup@.take(j as int), *span),
        decreases markup.len() - j,
    {
        let other = &markup[j];
        proof {
            assert(markup@.take(j + 1).drop_last() =~= markup@.take(j as int));
            assert(markup@.take(j + 1).last() == markup@[j as int]);
        }
        if (other.mark == Mark::LinkMark || other.mark == Mark::Url) && other.at.start >= span.at.start && other.at.end <= span.at.end {
            let ghost before = picked@;
            picked.push(j);
            proof {
                assert(picked_spans(markup@, picked@) =~= picked_spans(markup@, before).push(markup@[j as int]));
            }
        }
        j = j + 1;
    }
    proof {
        assert(markup@.take(j as int) =~= markup@);
    }
    let ghost plumbing = picked_spans(markup@, picked@);
    let mut u: usize = 0;
    while u < picked.len() && markup[picked[u]].mark != Mark::Url
        invariant
            0 <= u <= picked@.len(),
            forall|i: int| 0 <= i < picked@.len() ==> (#[trigger] picked@[i]) < markup@.len(),
            plumbing == picked_spans(markup@, picked@),
            first_url(plumbing, 0) == first_url(plumbing, u as int),
        decreases picked.len() - u,
    {
        u = u + 1;
    }
    if u == picked.len() {
        return;
    }
    proof {
        assert(plumbing[u as int] == markup@[picked@[u as int] as int]);
    }
    let destination = copy_range(&markup[picked[u]].at);
    let mut cursor = span.at.start;
    let mut k: usize = 0;
    let ghost start = out@;
    while k < picked.len()
        invariant
            0 <= k <= picked@.len(),
            forall|i: int| 0 <= i < picked@.len() ==> (#[trigger] picked@[i]) < markup@.len(),
            plumbing == picked_spans(markup@, picked@),
            destination == plumbing[first_url(plumbing, 0)].at,
            out@ + link_gaps(plumbing, *span, destination, cursor, k as int, block) == start + link_gaps(
                plumbing,
                *span,
                destination,
                span.at.start,
                0,
                block,
            ),
        decreases picked.len() - k,
    {
        let other = &markup[picked[k]];
        proof {
            assert(plumbing[k as int] == *other);
        }
        let ghost before = out@;
        if other.at.start > cursor {
            out.push(LiveSpan {
                at: cursor..other.at.start,
                block,
                look: LiveLook::Furniture(Furniture::Link { destination: copy_range(&destination) }),
            });
        }
        proof {
            assert(out@ + link_gaps(plumbing, *span, destination, if other.at.end > cursor { other.at.end } else { cursor }, k + 1, block)
                =~= before + link_gaps(plumbing, *span, destination, cursor, k as int, block));
        }
        if other.at.end > cursor {
            cursor = other.at.end;
        }
        k = k + 1;
    }
    if cursor < span.at.end {
        out.push(LiveSpan { at: cursor..span.at.end, block, look: LiveLook::Furniture(Furniture::Link { destination }) });
    }
}

/// The task box already stood for, as the spec counts it.
pub open spec fn swallowed_at(swallowed: Option<usize>) -> int {
    match swallowed {
        Some(task) => task as int,
        None => -1,
    }
}

/// Appends Live's spans over the part `part` of block `block`, `open` when
/// the writer is in it.
fn emit(text: &[u8], block: usize, part: &Range<usize>, markup: &Vec<Span>, open: bool, out: &mut Vec<LiveSpan>)
    requires
        in_text(markup@, text@.len() as int),
    ensures
        final(out)@ == old(out)@ + emit_from(text@, block, *part, markup@, open, 0, -1),
{
    let mut swallowed: Option<usize> = None;
    let mut k: usize = 0;
    let ghost start = out@;
    while k < markup.len()
        invariant
            0 <= k <= markup@.len(),
            in_text(markup@, text@.len() as int),
            out@ + emit_from(text@, block, *part, markup@, open, k as int, swallowed_at(swallowed)) == start + emit_from(
                text@,
                block,
                *part,
                markup@,
                open,
                0,
                -1,
            ),
        decreases markup.len() - k,
    {
        let span = &markup[k];
        let ghost before = out@;
        let ghost rest = emit_from(text@, block, *part, markup@, open, k + 1, swallowed_at(swallowed));
        proof {
            assert(markup@[k as int] == *span);
            assert(span.at.start <= span.at.end <= text@.len());
        }
        if part.start <= span.at.start && span.at.start < part.end {
            let heading = match span.mark {
                Mark::Heading(level) => Some(level),
                _ => None,
            };
            if let Some(level) = heading {
                out.push(LiveSpan { at: copy_range(&span.at), block, look: LiveLook::Scaled(level) });
                proof {
                    assert(out@ + rest =~= before + (seq![judged(span.at, block, LiveLook::Scaled(level))] + rest));
                }
            } else if !open {
                match span.mark {
                    Mark::Markup => {
                        let look = LiveLook::Folded(fold(span, markup));
                        out.push(LiveSpan { at: copy_range(&span.at), block, look });
                        proof {
                            assert(out@ + rest =~= before + (seq![judged(span.at, block, look)] + rest));
                        }
                    },
                    Mark::LinkMark | Mark::Url | Mark::InfoString => {
                        out.push(LiveSpan { at: copy_range(&span.at), block, look: LiveLook::Folded(Fold::Inline) });
                        proof {
                            assert(out@ + rest =~= before + (seq![judged(span.at, block, LiveLook::Folded(Fold::Inline))] + rest));
                        }
                    },
                    Mark::Fence => {
                        out.push(LiveSpan { at: copy_range(&span.at), block, look: LiveLook::Furniture(Furniture::Fence) });
                        proof {
                            assert(out@ + rest =~= before + (seq![judged(span.at, block, LiveLook::Furniture(Furniture::Fence))] + rest));
                        }
                    },
                    Mark::ThematicBreak => {
                        out.push(LiveSpan { at: copy_range(&span.at), block, look: LiveLook::Furniture(Furniture::Hairline) });
                        proof {
                            assert(out@ + rest =~= before + (seq![judged(span.at, block, LiveLook::Furniture(Furniture::Hairline))] + rest));
                        }
                    },
                    Mark::OrderedMarker => {
                        let look = LiveLook::Furniture(Furniture::Number { count: number(text, &span.at), delimiter: delimiter(text, &span.at) });
                        out.push(LiveSpan { at: copy_range(&span.at), block, look });
                        proof {
                            assert(out@ + rest =~= before + (seq![judged(span.at, block, look)] + rest));
                        }
                    },
                    Mark::BulletMarker => {
                        match task_box(markup, k) {
                            Some(task) => {
                                proof {
                                    assert(markup@[task as int].at.start <= markup@[task as int].at.end <= text@.len());
                                }
                                let look = LiveLook::Furniture(Furniture::Checkbox { checked: is_ticked(text, &markup[task].at) });
                                out.push(LiveSpan { at: span.at.start..markup[task].at.end, block, look });
                                proof {
                                    let after = emit_from(text@, block, *part, markup@, open, k + 1, task as int);
                                    assert(out@ + after =~= before + (seq![judged(span.at.start..markup@[task as int].at.end, block, look)] + after));
                                }
                                swallowed = Some(task);
                            },
                            None => {
                                out.push(LiveSpan { at: copy_range(&span.at), block, look: LiveLook::Furniture(Furniture::Bullet) });
                                proof {
                                    assert(out@ + rest =~= before + (seq![judged(span.at, block, LiveLook::Furniture(Furniture::Bullet))] + rest));
                                }
                            },
                        }
                    },
                    Mark::TaskBox => {
                        let taken = match swallowed {
                            Some(task) => task == k,
                            None => false,
                        };
                        if !taken {
                            let look = LiveLook::Furniture(Furniture::Checkbox { checked: is_ticked(text, &span.at) });
                            out.push(LiveSpan { at: copy_range(&span.at), block, look });
                            proof {
                                assert(out@ + rest =~= before + (seq![judged(span.at, block, look)] + rest));
                            }
                        }
                    },
                    Mark::QuoteMarker => {
                        out.push(LiveSpan { at: copy_range(&span.at), block, look: LiveLook::Quote });
                        proof {
                            assert(out@ + rest =~= before + (seq![judged(span.at, block, LiveLook::Quote)] + rest));
                        }
                    },
                    Mark::Link => {
                        words(span, markup, block, out);
                        proof {
                            assert(out@ + rest =~= before + (words_of(*span, markup@, block) + rest));
                        }
                    },
                    _ => {},
                }
            }
        }
        k = k + 1;
    }
}

/// The parts of a list from the `k`th Markup span on, the current part
/// starting at `start`: a new part at each item's marker.
pub open spec fn parts_from(block: Block, markup: Seq<Span>, start: usize, k: int) -> Seq<Range<usize>>
    decreases markup.len() - k,
{
    if k < 0 || k >= markup.len() {
        seq![start..block.at.end]
    } else {
        let span = markup[k];
        if (span.mark == Mark::BulletMarker || span.mark == Mark::OrderedMarker) && span.at.start > start {
            seq![start..span.at.start] + parts_from(block, markup, span.at.start, k + 1)
        } else {
            parts_from(block, markup, start, k + 1)
        }
    }
}

/// The blocks Live sees in one block of the index: the block itself, but
/// for a list, which is split at each of its items' markers.
pub open spec fn parts_of(block: Block, markup: Seq<Span>) -> Seq<Range<usize>> {
    if block.kind != Kind::List {
        seq![block.at]
    } else {
        parts_from(block, markup, block.at.start, 0)
    }
}

/// Whether the writer at `caret` is in `part`: an empty caret is the caret,
/// in the part where the part holds its byte, or where both are at the end
/// of a text `len` bytes long; anything else is a selection, in every part
/// it reaches.
pub open spec fn touches_of(part: Range<usize>, caret: Range<usize>, len: int) -> bool {
    if caret.start == caret.end {
        (part.start <= caret.start < part.end) || (caret.start >= len && part.end >= len)
    } else {
        caret.start < part.end && part.start < caret.end
    }
}

/// Live's spans over the parts of a block from the `m`th on.
pub open spec fn over_parts(
    text: Seq<u8>,
    block: usize,
    parts: Seq<Range<usize>>,
    markup: Seq<Span>,
    caret: Range<usize>,
    m: int,
) -> Seq<LiveSpan>
    decreases parts.len() - m,
{
    if m < 0 || m >= parts.len() {
        seq![]
    } else {
        emit_from(text, block, parts[m], markup, touches_of(parts[m], caret, text.len() as int), 0, -1)
            + over_parts(text, block, parts, markup, caret, m + 1)
    }
}

/// Live's spans over one block of the index, whose Markup spans are
/// `markup`, with the writer at `caret`.
pub open spec fn block_spans_of(text: Seq<u8>, block: usize, at: Block, markup: Seq<Span>, caret: Range<usize>) -> Seq<LiveSpan> {
    over_parts(text, block, parts_of(at, markup), markup, caret, 0)
}

/// The parts Live sees in `block`.
fn parts(block: &Block, markup: &Vec<Span>) -> (found: Vec<Range<usize>>)
    ensures
        found@ == parts_of(*block, markup@),
{
    let mut found: Vec<Range<usize>> = Vec::new();
    if block.kind != Kind::List {
        found.push(copy_range(&block.at));
        proof {
            assert(found@ =~= seq![block.at]);
        }
        return found;
    }
    let mut start = block.at.start;
    let mut k: usize = 0;
    while k < markup.len()
        invariant
            0 <= k <= markup@.len(),
            block.kind == Kind::List,
            found@ + parts_from(*block, markup@, start, k as int) == parts_from(*block, markup@, block.at.start, 0),
        decreases markup.len() - k,
    {
        let span = &markup[k];
        let ghost before = found@;
        if (span.mark == Mark::BulletMarker || span.mark == Mark::OrderedMarker) && span.at.start > start {
            found.push(start..span.at.start);
            proof {
                assert(found@ + parts_from(*block, markup@, span.at.start, k + 1) =~= before + parts_from(*block, markup@, start, k as int));
            }
            start = span.at.start;
        }
        k = k + 1;
    }
    found.push(start..block.at.end);
    proof {
        assert(found@ =~= parts_from(*block, markup@, block.at.start, 0));
    }
    found
}

/// Whether the writer at `caret` is in `part`.
fn touches(part: &Range<usize>, caret: &Range<usize>, len: usize) -> (yes: bool)
    ensures
        yes == touches_of(*part, *caret, len as int),
{
    if caret.start == caret.end {
        (part.start <= caret.start && caret.start < part.end) || (caret.start >= len && part.end >= len)
    } else {
        caret.start < part.end && part.start < caret.end
    }
}

/// Appends Live's spans over one block of the index.
fn block_spans(text: &[u8], block: usize, at: &Block, markup: &Vec<Span>, caret: &Range<usize>, out: &mut Vec<LiveSpan>)
    requires
        in_text(markup@, text@.len() as int),
    ensures
        final(out)@ == old(out)@ + block_spans_of(text@, block, *at, markup@, *caret),
{
    let found = parts(at, markup);
    let ghost start = out@;
    let mut m: usize = 0;
    while m < found.len()
        invariant
            0 <= m <= found@.len(),
            found@ == parts_of(*at, markup@),
            in_text(markup@, text@.len() as int),
            out@ + over_parts(text@, block, found@, markup@, *caret, m as int) == start + over_parts(
                text@,
                block,
                found@,
                markup@,
                *caret,
                0,
            ),
        decreases found.len() - m,
    {
        let ghost before = out@;
        let open = touches(&found[m], caret, text.len());
        emit(text, block, &found[m], markup, open, out);
        proof {
            assert(out@ + over_parts(text@, block, found@, markup@, *caret, m + 1) =~= before + over_parts(
                text@,
                block,
                found@,
                markup@,
                *caret,
                m as int,
            ));
        }
        m = m + 1;
    }
}

/// Where the Markup spans of the block ending at `end` stop, from `c` on:
/// past every span that starts before the block ends.
pub open spec fn window_end(markup: Seq<Span>, c: int, end: usize) -> int
    decreases markup.len() - c,
{
    if 0 <= c < markup.len() && markup[c].at.start < end {
        window_end(markup, c + 1, end)
    } else {
        c
    }
}

/// Live's spans over the blocks from the `b`th on, the Markup spans from the
/// `c`th on filed under the block each starts in.
pub open spec fn all_blocks(text: Seq<u8>, blocks: Seq<Block>, markup: Seq<Span>, caret: Range<usize>, b: int, c: int) -> Seq<LiveSpan>
    decreases blocks.len() - b,
{
    if b < 0 || b >= blocks.len() || c < 0 {
        seq![]
    } else {
        let end = window_end(markup, c, blocks[b].at.end);
        block_spans_of(text, b as usize, blocks[b], markup.subrange(c, end), caret) + all_blocks(text, blocks, markup, caret, b + 1, end)
    }
}

/// Whether `one` is read before `other`: by start, and at one start the
/// wider first, so that a scaled heading arrives before what it holds.
pub open spec fn read_before(one: LiveSpan, other: LiveSpan) -> bool {
    one.at.start < other.at.start || (one.at.start == other.at.start && one.at.end > other.at.end)
}

/// `sorted` with `span` placed after every span it is not read before.
pub open spec fn insert_live(sorted: Seq<LiveSpan>, span: LiveSpan) -> Seq<LiveSpan>
    decreases sorted.len(),
{
    if sorted.len() == 0 {
        seq![span]
    } else if !read_before(span, sorted.last()) {
        sorted.push(span)
    } else {
        insert_live(sorted.drop_last(), span).push(sorted.last())
    }
}

/// `spans` in the order a reader walks them, stably: spans that tie keep the
/// order they were made in.
pub open spec fn sorted_live(spans: Seq<LiveSpan>) -> Seq<LiveSpan>
    decreases spans.len(),
{
    if spans.len() == 0 {
        seq![]
    } else {
        insert_live(sorted_live(spans.drop_last()), spans.last())
    }
}

/// `spans` in the order a reader walks them.
fn sort_live(spans: Vec<LiveSpan>) -> (sorted: Vec<LiveSpan>)
    ensures
        sorted@ == sorted_live(spans@),
{
    let ghost given = spans@;
    let mut rest = spans;
    let mut sorted: Vec<LiveSpan> = Vec::new();
    let mut i: usize = 0;
    let n = rest.len();
    while i < n
        invariant
            0 <= i <= n,
            n == given.len(),
            rest@ == given.skip(i as int),
            sorted@ == sorted_live(given.take(i as int)),
        decreases n - i,
    {
        let span = rest.remove(0);
        proof {
            assert(span == given[i as int]);
            assert(given.skip(i as int).remove(0) =~= given.skip(i + 1));
            assert(given.take(i + 1).drop_last() =~= given.take(i as int));
        }
        let ghost s = sorted@;
        let mut j: usize = sorted.len();
        proof {
            assert(s.take(j as int) =~= s);
            assert(s.skip(j as int) =~= seq![]);
            assert(insert_live(s, span) =~= insert_live(s.take(j as int), span) + s.skip(j as int));
        }
        while j > 0 && (span.at.start < sorted[j - 1].at.start || (span.at.start == sorted[j - 1].at.start && span.at.end > sorted[j - 1].at.end))
            invariant
                0 <= j <= s.len(),
                sorted@ == s,
                insert_live(s, span) == insert_live(s.take(j as int), span) + s.skip(j as int),
            decreases j,
        {
            proof {
                let t = s.take(j as int);
                assert(t.drop_last() =~= s.take(j - 1));
                assert(t.last() == s[j - 1]);
                assert(insert_live(t, span) == insert_live(s.take(j - 1), span).push(s[j - 1]));
                assert(insert_live(s.take(j - 1), span).push(s[j - 1]) + s.skip(j as int) =~= insert_live(s.take(j - 1), span) + s.skip(j - 1));
            }
            j = j - 1;
        }
        proof {
            let t = s.take(j as int);
            if j > 0 {
                assert(t.last() == s[j - 1]);
            }
            assert(insert_live(t, span) =~= t.push(span));
            assert(t.push(span) + s.skip(j as int) =~= s.insert(j as int, span));
        }
        sorted.insert(j, span);
        i = i + 1;
    }
    proof {
        assert(given.take(n as int) =~= given);
    }
    sorted
}

/// Live's spans over the whole of a Document, whose text is `text`, whose
/// block index is `blocks` and whose Markup spans are `markup`, with the
/// writer at `at`: the selection as the buffer holds it, an empty range being
/// the caret. Each Markup span is filed under the block it starts in, and
/// the spans come out in the order a reader walks them.
pub fn spans_over(text: &str, blocks: &[Block], markup: &[Span], at: &Range<usize>) -> (found: Vec<LiveSpan>)
    requires
        in_text(markup@, text.spec_bytes().len() as int),
    ensures
        found@ == sorted_live(all_blocks(text.spec_bytes(), blocks@, markup@, *at, 0, 0)),
{
    let bytes = text.as_bytes();
    let mut out: Vec<LiveSpan> = Vec::new();
    let mut cursor: usize = 0;
    let mut b: usize = 0;
    while b < blocks.len()
        invariant
            0 <= b <= blocks@.len(),
            0 <= cursor <= markup@.len(),
            bytes@ == text.spec_bytes(),
            in_text(markup@, bytes@.len() as int),
            out@ + all_blocks(bytes@, blocks@, markup@, *at, b as int, cursor as int) == all_blocks(bytes@, blocks@, markup@, *at, 0, 0),
        decreases blocks.len() - b,
    {
        let first = cursor;
        let end = blocks[b].at.end;
        proof {
            assert(window_end(markup@, first as int, end) == window_end(markup@, cursor as int, end));
        }
        while cursor < markup.len() && markup[cursor].at.start < end
            invariant
                first <= cursor <= markup@.len(),
                end == blocks@[b as int].at.end,
                window_end(markup@, first as int, end) == window_end(markup@, cursor as int, end),
            decreases markup.len() - cursor,
        {
            cursor = cursor + 1;
        }
        let mut window: Vec<Span> = Vec::new();
        let mut k: usize = first;
        while k < cursor
            invariant
                first <= k <= cursor <= markup@.len(),
                window@ == markup@.subrange(first as int, k as int),
            decreases cursor - k,
        {
            let span = Span::new(copy_range(&markup[k].at), markup[k].mark);
            proof {
                assert(span == markup@[k as int]);
            }
            window.push(span);
            proof {
                assert(window@ =~= markup@.subrange(first as int, k + 1));
            }
            k = k + 1;
        }
        proof {
            assert forall|i: int| 0 <= i < window@.len() implies (#[trigger] window@[i]).at.start <= window@[i].at.end <= bytes@.len() by {
                assert(window@[i] == markup@[first + i]);
            }
        }
        let ghost before = out@;
        block_spans(bytes, b, &blocks[b], &window, at, &mut out);
        proof {
            assert(out@ + all_blocks(bytes@, blocks@, markup@, *at, b + 1, cursor as int) =~= before + all_blocks(
                bytes@,
                blocks@,
                markup@,
                *at,
                b as int,
                first as int,
            ));
        }
        b = b + 1;
    }
    proof {
        assert(out@ =~= all_blocks(bytes@, blocks@, markup@, *at, 0, 0));
    }
    sort_live(out)
}

// Laws.

proof fn lemma_link_gaps_block(plumbing: Seq<Span>, span: Span, destination: Range<usize>, cursor: usize, k: int, block: usize)
    ensures
        forall|i: int|
            0 <= i < link_gaps(plumbing, span, destination, cursor, k, block).len() ==> (#[trigger] link_gaps(
                plumbing,
                span,
                destination,
                cursor,
                k,
                block,
            )[i]).block == block,
    decreases plumbing.len() - k,
{
    if 0 <= k < plumbing.len() {
        let other = plumbing[k];
        let next = if other.at.end > cursor {
            other.at.end
        } else {
            cursor
        };
        lemma_link_gaps_block(plumbing, span, destination, next, k + 1, block);
        let all = link_gaps(plumbing, span, destination, cursor, k, block);
        let tail = link_gaps(plumbing, span, destination, next, k + 1, block);
        assert forall|i: int| 0 <= i < all.len() implies (#[trigger] all[i]).block == block by {
            if other.at.start > cursor && i > 0 {
                assert(all[i] == tail[i - 1]);
            } else if other.at.start <= cursor {
                assert(all[i] == tail[i]);
            }
        }
    }
}

/// Every span Live makes of a part carries the index of the block the part
/// is in, and in the part the writer is in nothing is folded or furnished:
/// only a heading is scaled.
pub proof fn lemma_emitted(
    text: Seq<u8>,
    block: usize,
    part: Range<usize>,
    markup: Seq<Span>,
    open: bool,
    k: int,
    swallowed: int,
)
    ensures
        forall|i: int|
            0 <= i < emit_from(text, block, part, markup, open, k, swallowed).len() ==> (#[trigger] emit_from(
                text,
                block,
                part,
                markup,
                open,
                k,
                swallowed,
            )[i]).block == block,
        open ==> forall|i: int|
            0 <= i < emit_from(text, block, part, markup, open, k, swallowed).len() ==> (#[trigger] emit_from(
                text,
                block,
                part,
                markup,
                open,
                k,
                swallowed,
            )[i]).look is Scaled,
    decreases markup.len() - k,
{
    if 0 <= k < markup.len() {
        let span = markup[k];
        let all = emit_from(text, block, part, markup, open, k, swallowed);
        let rest = emit_from(text, block, part, markup, open, k + 1, swallowed);
        lemma_emitted(text, block, part, markup, open, k + 1, swallowed);
        if span.mark == Mark::BulletMarker {
            let task = task_from(markup, k, k + 1);
            lemma_emitted(text, block, part, markup, open, k + 1, task);
        }
        if span.mark == Mark::Link {
            let plumbing = plumbing_of(markup, span);
            let url = first_url(plumbing, 0);
            if url >= 0 {
                lemma_link_gaps_block(plumbing, span, plumbing[url].at, span.at.start, 0, block);
            }
        }
        assert forall|i: int| 0 <= i < all.len() implies (#[trigger] all[i]).block == block && (open ==> all[i].look is Scaled) by {
            if span.mark == Mark::BulletMarker && part.start <= span.at.start && span.at.start < part.end && !open {
                let task = task_from(markup, k, k + 1);
                if 0 <= task < markup.len() && i > 0 {
                    assert(all[i] == emit_from(text, block, part, markup, open, k + 1, task)[i - 1]);
                }
            }
            if span.mark == Mark::Link && part.start <= span.at.start && span.at.start < part.end && !open {
                let words = words_of(span, markup, block);
                if i >= words.len() {
                    assert(all[i] == rest[i - words.len()]);
                }
            }
        }
    }
}

/// Whether `spans` run in the order a reader walks them: no span is read
/// before one that stands ahead of it.
pub open spec fn in_reading_order(spans: Seq<LiveSpan>) -> bool {
    forall|i: int, j: int| 0 <= i < j < spans.len() ==> !read_before(#[trigger] spans[j], #[trigger] spans[i])
}

proof fn lemma_insert_live_members(sorted: Seq<LiveSpan>, span: LiveSpan)
    ensures
        insert_live(sorted, span).len() == sorted.len() + 1,
        forall|x| #[trigger] insert_live(sorted, span).contains(x) ==> x == span || sorted.contains(x),
    decreases sorted.len(),
{
    let r = insert_live(sorted, span);
    if sorted.len() > 0 && read_before(span, sorted.last()) {
        let shorter = sorted.drop_last();
        lemma_insert_live_members(shorter, span);
        assert forall|x| #[trigger] r.contains(x) implies x == span || sorted.contains(x) by {
            let j = choose|j: int| 0 <= j < r.len() && r[j] == x;
            if j < r.len() - 1 {
                assert(insert_live(shorter, span)[j] == x);
                assert(insert_live(shorter, span).contains(x));
                if x != span {
                    let m = choose|m: int| 0 <= m < shorter.len() && shorter[m] == x;
                    assert(sorted[m] == x);
                }
            } else {
                assert(sorted[sorted.len() - 1] == x);
            }
        }
    } else {
        assert forall|x| #[trigger] r.contains(x) implies x == span || sorted.contains(x) by {
            let j = choose|j: int| 0 <= j < r.len() && r[j] == x;
            if j < sorted.len() {
                assert(sorted[j] == x);
            }
        }
    }
}

proof fn lemma_insert_live_in_order(sorted: Seq<LiveSpan>, span: LiveSpan)
    requires
        in_reading_order(sorted),
    ensures
        in_reading_order(insert_live(sorted, span)),
    decreases sorted.len(),
{
    let r = insert_live(sorted, span);
    if sorted.len() == 0 {
    } else if !read_before(span, sorted.last()) {
        assert forall|i: int, j: int| 0 <= i < j < r.len() implies !read_before(#[trigger] r[j], #[trigger] r[i]) by {
            if j == sorted.len() {
                assert(r[i] == sorted[i]);
                if i < sorted.len() - 1 {
                    assert(!read_before(sorted[sorted.len() - 1], sorted[i]));
                }
            } else {
                assert(r[i] == sorted[i] && r[j] == sorted[j]);
            }
        }
    } else {
        let shorter = sorted.drop_last();
        let last = sorted.last();
        assert(in_reading_order(shorter)) by {
            assert forall|i: int, j: int| 0 <= i < j < shorter.len() implies !read_before(#[trigger] shorter[j], #[trigger] shorter[i]) by {
                assert(shorter[i] == sorted[i] && shorter[j] == sorted[j]);
            }
        }
        lemma_insert_live_in_order(shorter, span);
        lemma_insert_live_members(shorter, span);
        let inner = insert_live(shorter, span);
        assert forall|i: int, j: int| 0 <= i < j < r.len() implies !read_before(#[trigger] r[j], #[trigger] r[i]) by {
            if j == inner.len() {
                assert(r[j] == last);
                assert(inner.contains(r[i])) by {
                    assert(inner[i] == r[i]);
                }
                if r[i] != span {
                    let m = choose|m: int| 0 <= m < shorter.len() && shorter[m] == r[i];
                    assert(sorted[m] == r[i]);
                    assert(sorted[sorted.len() - 1] == last);
                }
            } else {
                assert(r[i] == inner[i] && r[j] == inner[j]);
            }
        }
    }
}

/// Live's spans run in the order a reader walks them: by start, and at one
/// start the wider first, so that a scaled heading arrives before what it
/// holds.
pub proof fn lemma_spans_in_reading_order(spans: Seq<LiveSpan>)
    ensures
        in_reading_order(sorted_live(spans)),
    decreases spans.len(),
{
    if spans.len() > 0 {
        lemma_spans_in_reading_order(spans.drop_last());
        lemma_insert_live_in_order(sorted_live(spans.drop_last()), spans.last());
    }
}

/// Live's spans over the whole of `doc`, with the writer at `at`: the
/// selection as the buffer holds it, an empty range being the caret.
pub fn spans(doc: &Document, at: &Range<usize>) -> (found: Vec<LiveSpan>)
    ensures
        found@ == sorted_live(
            all_blocks(
                doc.spec_bytes(),
                as_blocks(doc.spec_blocks()),
                doc.spec_spans(),
                *at,
                0,
                0,
            ),
        ),
{
    let blocks = doc.blocks();
    let markup = doc.spans();
    let text = doc.text();
    spans_over(text, &blocks, &markup, at)
}

/// Every span `spans_reaching` reads is one of the spans it reads from.
proof fn lemma_reaching_holds(blocks: Seq<(int, int, Kind)>, spans: Seq<Span>, first: int, end: int, b: int, c: int)
    requires
        0 <= c <= spans.len(),
    ensures
        forall|i: int|
            0 <= i < spans_reaching(blocks, spans, first, end, b, c).len() ==> spans.contains(
                #[trigger] spans_reaching(blocks, spans, first, end, b, c)[i],
            ),
    decreases blocks.len() - b,
{
    if !(b < 0 || b >= blocks.len() || c < 0 || (b >= first && blocks[b].0 >= end)) {
        let filed = window_end(spans, c, blocks[b].1 as usize);
        lemma_window_end(spans, c, blocks[b].1 as usize);
        lemma_reaching_holds(blocks, spans, first, end, b + 1, filed);
        let whole = spans_reaching(blocks, spans, first, end, b, c);
        let rest = spans_reaching(blocks, spans, first, end, b + 1, filed);
        let stop = window_end(spans, c, (if end < blocks[b].1 { end } else { blocks[b].1 }) as usize);
        lemma_window_end(spans, c, (if end < blocks[b].1 { end } else { blocks[b].1 }) as usize);
        let here = if b >= first {
            spans.subrange(c, stop)
        } else {
            seq![]
        };
        assert(whole == here + rest);
        assert forall|i: int| 0 <= i < whole.len() implies spans.contains(#[trigger] whole[i]) by {
            if i < here.len() {
                assert(b >= first);
                assert(c <= stop <= spans.len());
                assert(here[i] == spans[c + i]);
                assert(whole[i] == here[i]);
            } else {
                assert(whole[i] == rest[i - here.len()]);
            }
        }
    }
}

/// Where a window of spans starting at `c` ends lies between `c` and the
/// end of the spans, once `c` is in range.
proof fn lemma_window_end(markup: Seq<Span>, c: int, end: usize)
    ensures
        0 <= c <= markup.len() ==> c <= window_end(markup, c, end) <= markup.len(),
        c > markup.len() ==> window_end(markup, c, end) == c,
    decreases markup.len() - c,
{
    if 0 <= c < markup.len() && markup[c].at.start < end {
        lemma_window_end(markup, c + 1, end);
    }
}

/// Live's spans over the block `index` of `doc` and those after it, for a
/// range that ends at `over_end`: a block's spans are those
/// [`Document::spans_in`] reads for its bytes, and the walk stops at the
/// block that reaches `over_end` or the end of the text.
pub open spec fn live_from(
    text: Seq<u8>,
    blocks: Seq<(int, int, Kind)>,
    spans: Seq<Span>,
    caret: Range<usize>,
    over_end: int,
    index: int,
) -> Seq<LiveSpan>
    decreases blocks.len() - index,
{
    if index < 0 || index >= blocks.len() {
        seq![]
    } else {
        let block = as_blocks(blocks)[index];
        let first = match block_at_of(blocks, text.len() as int, blocks[index].0) {
            Some(i) => i,
            None => 0,
        };
        let markup = spans_reaching(blocks, spans, first, blocks[index].1, 0, 0);
        block_spans_of(text, index as usize, block, markup, caret) + if blocks[index].1 >= over_end
            || blocks[index].1 >= text.len() {
            seq![]
        } else {
            live_from(text, blocks, spans, caret, over_end, index + 1)
        }
    }
}

/// Live's spans over the blocks `over` touches, with the writer at `at`.
///
/// The unit is the block, not the byte range, because a fold is a judgement
/// about a whole block and the app retags by block anyway.
pub fn spans_in(doc: &Document, at: &Range<usize>, over: &Range<usize>) -> (found: Vec<LiveSpan>)
    ensures
        found@ == (match block_at_of(doc.spec_blocks(), doc.spec_bytes().len() as int, over.start as int) {
            Some(first) => sorted_live(
                live_from(
                    doc.spec_bytes(),
                    doc.spec_blocks(),
                    doc.spec_spans(),
                    *at,
                    over.end as int,
                    first,
                ),
            ),
            None => Seq::<LiveSpan>::empty(),
        }),
{
    let text = doc.text();
    let bytes = text.as_bytes();
    let len = bytes.len();
    let first = match doc.block_at(over.start) {
        Some(first) => first,
        None => {
            let none: Vec<LiveSpan> = Vec::new();
            return none;
        },
    };
    let count = doc.block_count();
    let whole = doc.spans();
    let ghost blocks = doc.spec_blocks();
    let ghost all = doc.spec_spans();
    let ghost want = live_from(bytes@, blocks, all, *at, over.end as int, first as int);
    let mut out: Vec<LiveSpan> = Vec::new();
    let mut index = first;
    let mut going = true;
    while going
        invariant
            first <= index,
            going ==> index < count,
            count == blocks.len(),
            blocks == doc.spec_blocks(),
            bytes@ == doc.spec_bytes(),
            len == bytes@.len(),
            all == doc.spec_spans(),
            in_text(all, len as int),
            want == live_from(bytes@, blocks, all, *at, over.end as int, first as int),
            want == out@ + (if going {
                live_from(bytes@, blocks, all, *at, over.end as int, index as int)
            } else {
                seq![]
            }),
        decreases count - index + (if going { 1int } else { 0int }),
    {
        let block = doc.block(index);
        let end = block.at.end;
        let markup = doc.spans_in(&block.at);
        proof {
            assert(as_blocks(blocks)[index as int] == block);
            lemma_reaching_holds(
                blocks,
                all,
                match block_at_of(blocks, len as int, block.at.start as int) {
                    Some(i) => i,
                    None => 0,
                },
                end as int,
                0,
                0,
            );
            assert(in_text(markup@, len as int)) by {
                assert forall|i: int| 0 <= i < markup@.len() implies (#[trigger] markup@[i]).at.start <= markup@[i].at.end
                    <= len by {
                    assert(all.contains(markup@[i]));
                    let j = choose|j: int| 0 <= j < all.len() && all[j] == markup@[i];
                    assert(all[j].at.start <= all[j].at.end <= len);
                }
            }
        }
        let ghost before = out@;
        block_spans(bytes, index, &block, &markup, at, &mut out);
        if end >= over.end || end >= len || index + 1 >= count {
            going = false;
            proof {
                if !(end >= over.end || end >= len) {
                    assert(live_from(bytes@, blocks, all, *at, over.end as int, index + 1) == Seq::<LiveSpan>::empty());
                }
                assert(out@ =~= before + live_from(bytes@, blocks, all, *at, over.end as int, index as int));
            }
        } else {
            proof {
                assert(out@ + live_from(bytes@, blocks, all, *at, over.end as int, index + 1) =~= before + live_from(
                    bytes@,
                    blocks,
                    all,
                    *at,
                    over.end as int,
                    index as int,
                ));
            }
            index = index + 1;
        }
    }
    proof {
        assert(out@ =~= want);
    }
    sort_live(out)
}

/// The first of `parts` from the `k`th on that the writer at `caret` is in.
pub open spec fn first_touched(parts: Seq<Range<usize>>, caret: Range<usize>, len: int, k: int) -> Option<Range<usize>>
    decreases parts.len() - k,
{
    if 0 <= k < parts.len() {
        if touches_of(parts[k], caret, len) {
            Some(parts[k])
        } else {
            first_touched(parts, caret, len, k + 1)
        }
    } else {
        None
    }
}

/// The part of its block `offset` is in: the list item it is in, in a
/// list, and the whole block elsewhere; the answer is the range the fold
/// would leave open, and none where no block holds `offset`.
pub fn part_at(doc: &Document, offset: usize) -> (part: Option<Range<usize>>)
    ensures
        part == (match block_at_of(doc.spec_blocks(), doc.spec_bytes().len() as int, offset as int) {
            Some(found) => {
                let block = as_blocks(doc.spec_blocks())[found];
                let first = match block_at_of(doc.spec_blocks(), doc.spec_bytes().len() as int, doc.spec_blocks()[found].0) {
                    Some(i) => i,
                    None => 0,
                };
                let markup = spans_reaching(
                    doc.spec_blocks(),
                    doc.spec_spans(),
                    first,
                    doc.spec_blocks()[found].1,
                    0,
                    0,
                );
                first_touched(parts_of(block, markup), offset..offset, doc.spec_bytes().len() as int, 0)
            },
            None => None,
        }),
{
    let found = match doc.block_at(offset) {
        Some(found) => found,
        None => return None,
    };
    let block = doc.block(found);
    proof {
        assert(as_blocks(doc.spec_blocks())[found as int] == block);
        let opt = block_at_of(doc.spec_blocks(), doc.spec_bytes().len() as int, offset as int);
        assert(opt is Some && 0 <= opt->0 < doc.spec_blocks().len() <= usize::MAX);
        assert(opt == Some(found as int));
    }
    let caret = offset..offset;
    let len = doc.text().as_bytes().len();
    let markup = doc.spans_in(&block.at);
    let all = parts(&block, &markup);
    let ghost want = first_touched(all@, caret, len as int, 0);
    let mut k: usize = 0;
    while k < all.len()
        invariant
            0 <= k <= all@.len(),
            all@ == parts_of(block, markup@),
            block == as_blocks(doc.spec_blocks())[found as int],
            len == doc.spec_bytes().len(),
            caret == (offset..offset),
            block_at_of(doc.spec_blocks(), doc.spec_bytes().len() as int, offset as int) == Some(found as int),
            block.at.start as int == doc.spec_blocks()[found as int].0,
            block.at.end as int == doc.spec_blocks()[found as int].1,
            markup@ == spans_reaching(
                doc.spec_blocks(),
                doc.spec_spans(),
                match block_at_of(doc.spec_blocks(), doc.spec_bytes().len() as int, block.at.start as int) {
                    Some(i) => i,
                    None => 0,
                },
                block.at.end as int,
                0,
                0,
            ),
            want == first_touched(all@, caret, len as int, 0),
            want == first_touched(all@, caret, len as int, k as int),
        decreases all.len() - k,
    {
        if touches(&all[k], &caret, len) {
            return Some(copy_range(&all[k]));
        }
        k = k + 1;
    }
    None
}

} // verus!
