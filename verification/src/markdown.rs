//! The Markdown parser, behind one shared set of options.
//!
//! Every part of the engine that reads Markdown reads it through [`events`], so
//! a Document is never interpreted two ways. The parser is pulldown-cmark; what
//! comes back is its event stream, each event reduced to what the engine reads
//! of it and the byte range of the source it was parsed from. Everything that
//! is done with that stream afterwards is verified.
//!
//! The option set is the GitHub-flavoured constructs a writer expects — tables,
//! footnotes, strikethrough, task lists — and front matter, with smart
//! punctuation left **off**, so that the parser never rewrites the writer's
//! `--` or `"` on the way past.

use std::ops::Range;

use pulldown_cmark::{CodeBlockKind, Event, LinkType, Options, Parser, Tag};
use vstd::prelude::*;

use vstd::string::StringSliceAdditionalSpecFns;

use crate::text::{byte_len, chars_in, chars_of, text_in};

verus! {

/// What a `Start` event opens, as far as the engine tells openings apart.
#[derive(Clone, Copy, Debug, PartialEq, Eq, Structural)]
pub enum Element {
    /// A paragraph.
    Paragraph,
    /// A heading at its level, 1 to 6.
    Heading(u8),
    /// A block quote.
    BlockQuote,
    /// A code block fenced with backticks or tildes.
    FencedCode,
    /// A code block indented by four spaces.
    IndentedCode,
    /// A block of raw HTML.
    HtmlBlock,
    /// A bulleted or numbered list.
    List,
    /// One item of a list.
    Item,
    /// A footnote definition.
    Footnote,
    /// A pipe table.
    Table,
    /// `*emphasis*`.
    Emphasis,
    /// `**strong**`.
    Strong,
    /// `~~struck~~`.
    Strikethrough,
    /// A link, of the kind the parser says it is.
    Link(LinkKind),
    /// An image.
    Image,
    /// The front-matter block.
    Metadata,
    /// Anything else the parser opens.
    Other,
}

/// How a link was written, one for one with the parser's kinds.
#[derive(Clone, Copy, Debug, PartialEq, Eq, Structural)]
pub enum LinkKind {
    /// `[text](destination)`.
    Inline,
    /// `[text][label]`, the label defined.
    Reference,
    /// `[text][label]`, the label not defined.
    ReferenceUnknown,
    /// `[label][]`, the label defined.
    Collapsed,
    /// `[label][]`, the label not defined.
    CollapsedUnknown,
    /// `[label]`, the label defined.
    Shortcut,
    /// `[label]`, the label not defined.
    ShortcutUnknown,
    /// `<https://…>`: the text is the destination.
    Autolink,
    /// `<someone@example.com>`: the text is the address.
    Email,
    /// `[[page]]`, with or without a `|` giving it other text.
    WikiLink { has_pothole: bool },
}

/// The switches the parser runs under: which of its optional constructs it
/// reads.
#[derive(Clone, Copy, Debug, PartialEq, Eq, Structural)]
pub struct ParseOptions {
    /// Pipe tables.
    pub tables: bool,
    /// Footnotes.
    pub footnotes: bool,
    /// `~~strikethrough~~`.
    pub strikethrough: bool,
    /// Task lists' boxes.
    pub task_lists: bool,
    /// A front-matter block opening the file.
    pub front_matter: bool,
    /// Curly quotes and dashes made of the writer's `"` and `--`.
    pub smart_punctuation: bool,
}

/// The engine's one option set: the GitHub-flavoured constructs a writer
/// expects (tables, footnotes, strikethrough, task lists) and front matter,
/// with smart punctuation **off**, so the parser never rewrites the writer's
/// own bytes on the way past.
pub open spec fn engine_options() -> ParseOptions {
    ParseOptions {
        tables: true,
        footnotes: true,
        strikethrough: true,
        task_lists: true,
        front_matter: true,
        smart_punctuation: false,
    }
}

/// The options every reader of Markdown in the engine parses under.
pub fn options() -> (options: ParseOptions)
    ensures
        options == engine_options(),
{
    ParseOptions {
        tables: true,
        footnotes: true,
        strikethrough: true,
        task_lists: true,
        front_matter: true,
        smart_punctuation: false,
    }
}

/// One event of the parser, reduced to its kind.
#[derive(Clone, Copy, Debug, PartialEq, Eq, Structural)]
pub enum Token {
    /// A tag opens.
    Start(Element),
    /// The innermost open tag closes.
    End,
    /// The writer's words.
    Text,
    /// A code span, backticks and all.
    Code,
    /// Inline or block HTML.
    Html,
    /// A thematic break.
    Rule,
    /// A task list's box.
    TaskBox,
    /// Anything else: breaks, footnote references, math.
    Other,
}

/// One event and the source bytes it was parsed from.
#[derive(Debug)]
pub struct Parsed {
    /// What the event is.
    pub token: Token,
    /// The words of a [`Token::Text`] event, as the parser hands them over;
    /// none for every other event.
    pub words: Option<String>,
    /// Absolute UTF-8 bytes of the source.
    pub at: Range<usize>,
}

/// The event stream the parser makes of a text under `options`.
pub uninterp spec fn parse_with(text: Seq<char>, options: ParseOptions) -> Seq<Parsed>;

/// The event stream the parser makes of a text, under the engine's options.
pub open spec fn parse(text: Seq<char>) -> Seq<Parsed> {
    parse_with(text, engine_options())
}

/// Whether every event of `events` names bytes of a source `len` bytes long.
pub open spec fn in_bounds(events: Seq<Parsed>, len: int) -> bool {
    forall|i: int|
        0 <= i < events.len() ==> #[trigger] events[i].at.start <= events[i].at.end
            && events[i].at.end <= len
}

#[verifier::external_type_specification]
#[verifier::external_body]
pub struct ExEvent<'a>(Event<'a>);

#[verifier::external_type_specification]
#[verifier::external_body]
pub struct ExTag<'a>(Tag<'a>);

#[verifier::external_type_specification]
#[verifier::external_body]
pub struct ExLinkType(LinkType);

#[verifier::external_type_specification]
#[verifier::external_body]
pub struct ExOptions(Options);

/// pulldown-cmark's `Options` for `options`, switch for switch.
#[verifier::external_body]
fn switches(options: ParseOptions) -> Options {
    let mut switches = Options::empty();
    switches.set(Options::ENABLE_TABLES, options.tables);
    switches.set(Options::ENABLE_FOOTNOTES, options.footnotes);
    switches.set(Options::ENABLE_STRIKETHROUGH, options.strikethrough);
    switches.set(Options::ENABLE_TASKLISTS, options.task_lists);
    switches.set(Options::ENABLE_YAML_STYLE_METADATA_BLOCKS, options.front_matter);
    switches.set(Options::ENABLE_SMART_PUNCTUATION, options.smart_punctuation);
    switches
}

/// Calls pulldown-cmark's `Parser::new_ext` with `options` and reads it
/// through `into_offset_iter`, each event reduced to a [`Token`] and, for a
/// text event, its words.
///
/// Trusted: the result is the parser's stream for `text` under `options` and
/// nothing else (named [`parse_with`]), and each range is a range of the
/// source, as the crate's documentation of `into_offset_iter` says. What the
/// stream holds for a given text is left to the name.
#[verifier::external_body]
fn parsed(text: &str, options: ParseOptions) -> (events: Vec<Parsed>)
    ensures
        events@ == parse_with(text@, options),
        in_bounds(events@, text.spec_bytes().len() as int),
{
    Parser::new_ext(text, switches(options))
        .into_offset_iter()
        .map(|(event, at)| Parsed { token: token(&event), words: words(&event), at })
        .collect()
}

/// The events of `text` under the engine's [`options`], each with the byte
/// range of the source it was parsed from.
pub fn events(text: &str) -> (events: Vec<Parsed>)
    ensures
        events@ == parse(text@),
        in_bounds(events@, text.spec_bytes().len() as int),
{
    parsed(text, options())
}

/// The words of one pulldown-cmark `Event::Text`, as an owned string.
#[verifier::external_body]
fn words(event: &Event) -> Option<String> {
    match event {
        Event::Text(words) => Some(words.to_string()),
        _ => None,
    }
}

/// The [`Token`] of one pulldown-cmark `Event`, variant for variant.
#[verifier::external_body]
fn token(event: &Event) -> Token {
    match event {
        Event::Start(tag) => Token::Start(element(tag)),
        Event::End(_) => Token::End,
        Event::Text(_) => Token::Text,
        Event::Code(_) => Token::Code,
        Event::Html(_) => Token::Html,
        Event::InlineHtml(_) => Token::Html,
        Event::Rule => Token::Rule,
        Event::TaskListMarker(_) => Token::TaskBox,
        _ => Token::Other,
    }
}

/// The [`Element`] of one pulldown-cmark `Tag` that opens a block,
/// variant for variant; an inline one is [`inline_element`]'s.
#[verifier::external_body]
fn element(tag: &Tag) -> Element {
    match tag {
        Tag::Paragraph => Element::Paragraph,
        Tag::Heading { level, .. } => Element::Heading(*level as u8),
        Tag::BlockQuote(_) => Element::BlockQuote,
        Tag::CodeBlock(CodeBlockKind::Fenced(_)) => Element::FencedCode,
        Tag::CodeBlock(CodeBlockKind::Indented) => Element::IndentedCode,
        Tag::HtmlBlock => Element::HtmlBlock,
        Tag::List(_) => Element::List,
        Tag::Item => Element::Item,
        Tag::FootnoteDefinition(_) => Element::Footnote,
        Tag::Table(_) => Element::Table,
        Tag::MetadataBlock(_) => Element::Metadata,
        _ => inline_element(tag),
    }
}

/// The [`Element`] of one inline pulldown-cmark `Tag`, variant for variant.
#[verifier::external_body]
fn inline_element(tag: &Tag) -> Element {
    match tag {
        Tag::Emphasis => Element::Emphasis,
        Tag::Strong => Element::Strong,
        Tag::Strikethrough => Element::Strikethrough,
        Tag::Link { link_type, .. } => Element::Link(link_kind(*link_type)),
        Tag::Image { .. } => Element::Image,
        _ => Element::Other,
    }
}

/// Which events of `events` the HTML body keeps: all but the front-matter
/// block, its opening, its text and its closing, with whether the walk is
/// inside that block after the first `k` events.
pub open spec fn front_matter_mask(events: Seq<Parsed>, k: int) -> (Seq<bool>, bool)
    decreases k,
{
    if k <= 0 || k > events.len() {
        (seq![], false)
    } else {
        let (mask, inside) = front_matter_mask(events, k - 1);
        let token = events[k - 1].token;
        if token == Token::Start(Element::Metadata) {
            (mask.push(false), true)
        } else if inside && token == Token::End {
            (mask.push(false), false)
        } else if inside {
            (mask.push(false), true)
        } else {
            (mask.push(true), false)
        }
    }
}

/// Which events of `events` the HTML body keeps, one flag per event.
pub open spec fn kept_of(events: Seq<Parsed>) -> Seq<bool> {
    front_matter_mask(events, events.len() as int).0
}

/// Which events of `events` the HTML body keeps: every one but the
/// front-matter block's, which is metadata rather than prose.
pub fn without_front_matter(events: &Vec<Parsed>) -> (kept: Vec<bool>)
    ensures
        kept@ == kept_of(events@),
{
    let mut kept: Vec<bool> = Vec::new();
    let mut inside = false;
    let mut k: usize = 0;
    while k < events.len()
        invariant
            0 <= k <= events@.len(),
            (kept@, inside) == front_matter_mask(events@, k as int),
        decreases events.len() - k,
    {
        let token = events[k].token;
        if token == Token::Start(Element::Metadata) {
            kept.push(false);
            inside = true;
        } else if inside && token == Token::End {
            kept.push(false);
            inside = false;
        } else if inside {
            kept.push(false);
        } else {
            kept.push(true);
        }
        k = k + 1;
    }
    kept
}

/// Whether the event at `index` is kept, by the flags `kept`; an event past
/// the flags is not.
pub fn kept_at(kept: &Vec<bool>, index: usize) -> (yes: bool)
    ensures
        yes == (index < kept@.len() && kept@[index as int]),
{
    index < kept.len() && kept[index]
}

/// The HTML pulldown-cmark writes for the events of `text` under `options`
/// whose flag in `kept` is set.
pub uninterp spec fn html_of(text: Seq<char>, options: ParseOptions, kept: Seq<bool>) -> Seq<char>;

/// Calls pulldown-cmark's `html::push_html` on the events `Parser::new_ext`
/// makes of `text` under `options`, passing on the events whose flag in
/// `kept` is set ([`kept_at`]).
///
/// Trusted: the result is the crate's HTML for `text`, `options` and `kept`
/// and nothing else (named [`html_of`]). What that HTML is for a given text
/// is left to the name.
#[verifier::external_body]
pub(crate) fn push_html_kept(text: &str, options: ParseOptions, kept: &Vec<bool>) -> (html: String)
    ensures
        html@ == html_of(text@, options, kept@),
{
    let mut html = String::new();
    let events = Parser::new_ext(text, switches(options))
        .enumerate()
        .filter(|(index, _)| kept_at(kept, *index))
        .map(|(_, event)| event);
    pulldown_cmark::html::push_html(&mut html, events);
    html
}

/// The [`LinkKind`] of one pulldown-cmark `LinkType`, variant for variant.
#[verifier::external_body]
fn link_kind(link_type: LinkType) -> LinkKind {
    match link_type {
        LinkType::Inline => LinkKind::Inline,
        LinkType::Reference => LinkKind::Reference,
        LinkType::ReferenceUnknown => LinkKind::ReferenceUnknown,
        LinkType::Collapsed => LinkKind::Collapsed,
        LinkType::CollapsedUnknown => LinkKind::CollapsedUnknown,
        LinkType::Shortcut => LinkKind::Shortcut,
        LinkType::ShortcutUnknown => LinkKind::ShortcutUnknown,
        LinkType::Autolink => LinkKind::Autolink,
        LinkType::Email => LinkKind::Email,
        LinkType::WikiLink { has_pothole } => LinkKind::WikiLink { has_pothole },
    }
}

/// The destination `text` defines for the link label `label`, parsed under
/// `options`, as the parser's map of reference definitions holds it, labels
/// compared as CommonMark folds them; none where `text` defines no such label.
pub uninterp spec fn reference_with(text: Seq<char>, options: ParseOptions, label: Seq<char>) -> Option<Seq<char>>;

/// The destination `text` defines for `label` under the engine's options.
pub open spec fn reference_of(text: Seq<char>, label: Seq<char>) -> Option<Seq<char>> {
    reference_with(text, engine_options(), label)
}

/// Calls pulldown-cmark's `Parser::new_ext` with `options`, then
/// `reference_definitions().get(label)`, and keeps the definition's
/// destination.
///
/// Trusted: the result is the parser's for `text`, `options` and `label` and
/// nothing else (named [`reference_with`]). What the map holds for a given
/// text is left to the name.
#[verifier::external_body]
fn defined(text: &str, options: ParseOptions, label: &str) -> (destination: Option<String>)
    ensures
        match destination {
            Some(found) => reference_with(text@, options, label@) == Some(found@),
            None => reference_with(text@, options, label@) is None,
        },
{
    let parser = Parser::new_ext(text, switches(options));
    parser.reference_definitions().get(label).map(|found| found.dest.to_string())
}

/// The destination `label` is defined as, if `text` defines it: the one
/// whole-document question about a link, since a definition can stand
/// anywhere in the file. The lookup folds case, as CommonMark asks.
pub fn reference(text: &str, label: &str) -> (destination: Option<String>)
    ensures
        match destination {
            Some(found) => reference_of(text@, label@) == Some(found@),
            None => reference_of(text@, label@) is None,
        },
{
    defined(text, options(), label)
}

/// One stretch of the writer's words, and the bytes it was read from. The
/// text is the source's rather than the event's own, which differ wherever
/// the parser resolved an entity or dropped an escape.
#[derive(Debug, PartialEq, Eq)]
pub struct Prose {
    /// Absolute UTF-8 bytes from the start of the source.
    pub at: Range<usize>,
    /// The source's characters in those bytes.
    pub text: String,
}

/// Whether the text inside an opening is something other than the writer's
/// prose: code, front matter, or an autolink, whose text is its address.
pub open spec fn hides_prose(element: Element) -> bool {
    element == Element::FencedCode || element == Element::IndentedCode || element == Element::Metadata
        || element == Element::Link(LinkKind::Autolink) || element == Element::Link(LinkKind::Email)
}

/// How many of the open tags hide prose.
pub open spec fn hiding(open: Seq<bool>) -> nat
    decreases open.len(),
{
    if open.len() == 0 {
        0
    } else {
        hiding(open.drop_last()) + if open.last() {
            1nat
        } else {
            0nat
        }
    }
}

proof fn lemma_hiding_bound(open: Seq<bool>)
    ensures
        hiding(open) <= open.len(),
    decreases open.len(),
{
    if open.len() > 0 {
        lemma_hiding_bound(open.drop_last());
    }
}

/// After the first `k` events: one flag per open tag, whether it hides
/// prose, and the ranges of the words read so far, each a text event no open
/// tag hides.
pub open spec fn prose_from(events: Seq<Parsed>, k: int) -> (Seq<bool>, Seq<Range<usize>>)
    decreases k,
{
    if k <= 0 || k > events.len() {
        (seq![], seq![])
    } else {
        let (open, runs) = prose_from(events, k - 1);
        let event = events[k - 1];
        match event.token {
            Token::Start(element) => (open.push(hides_prose(element)), runs),
            Token::End => (if open.len() > 0 {
                open.drop_last()
            } else {
                open
            }, runs),
            Token::Text => if hiding(open) == 0 {
                (open, runs.push(event.at))
            } else {
                (open, runs)
            },
            _ => (open, runs),
        }
    }
}

/// Whether an opening hides prose.
fn hides(element: Element) -> (yes: bool)
    ensures
        yes == hides_prose(element),
{
    match element {
        Element::FencedCode | Element::IndentedCode | Element::Metadata => true,
        Element::Link(LinkKind::Autolink) | Element::Link(LinkKind::Email) => true,
        _ => false,
    }
}

/// The prose stream of `text`: the writer's words with the Markup gone, in
/// the fragments the parser reports them in. Code spans and code blocks,
/// front matter and an autolink's address are not prose.
pub fn prose(text: &str) -> (runs: Vec<Prose>)
    ensures
        runs@.len() == prose_from(parse(text@), parse(text@).len() as int).1.len(),
        forall|i: int|
            0 <= i < runs@.len() ==> {
                let at = prose_from(parse(text@), parse(text@).len() as int).1[i];
                &&& (#[trigger] runs@[i]).at == at
                &&& runs@[i].text@ == chars_in(text@, at.start as int, at.end as int)
            },
{
    let parsed = events(text);
    let chars = chars_of(text);
    let total = byte_len(text);
    let mut runs: Vec<Prose> = Vec::new();
    let mut open: Vec<bool> = Vec::new();
    let mut hidden: usize = 0;
    let ghost found: Seq<Range<usize>> = seq![];
    let mut k: usize = 0;
    while k < parsed.len()
        invariant
            0 <= k <= parsed@.len(),
            parsed@ == parse(text@),
            chars@ == text@,
            total == crate::text::utf8_size(chars@),
            (open@, found) == prose_from(parsed@, k as int),
            hidden == hiding(open@),
            runs@.len() == found.len(),
            forall|i: int|
                0 <= i < runs@.len() ==> (#[trigger] runs@[i]).at == found[i] && runs@[i].text@ == chars_in(
                    text@,
                    found[i].start as int,
                    found[i].end as int,
                ),
        decreases parsed.len() - k,
    {
        let ghost open_before = open@;
        match parsed[k].token {
            Token::Start(element) => {
                let hiding_here = hides(element);
                proof {
                    lemma_hiding_bound(open@);
                }
                assert(open.len() == open@.len());
                open.push(hiding_here);
                assert(open.len() == open@.len());
                if hiding_here {
                    hidden = hidden + 1;
                }
                proof {
                    assert(open@.drop_last() =~= open_before);
                }
            },
            Token::End => {
                if open.len() > 0 {
                    let popped = open.pop().unwrap();
                    proof {
                        assert(open_before.drop_last() =~= open@);
                        assert(open_before.last() == popped);
                    }
                    if popped {
                        hidden = hidden - 1;
                    }
                }
            },
            Token::Text => {
                if hidden == 0 {
                    let at = parsed[k].at.start..parsed[k].at.end;
                    let words = text_in(&chars, total, at.start, at.end);
                    runs.push(Prose { at, text: words });
                    proof {
                        found = found.push(parsed@[k as int].at);
                    }
                }
            },
            _ => {},
        }
        k = k + 1;
    }
    runs
}

} // verus!
