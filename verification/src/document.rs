//! What a Document's path calls it: the file's name, and the same name
//! without its extension, which is what a title shows.
//!
//! Paths are read as text with `/` between components, as `std::path` reads
//! them on Unix: trailing slashes and `.` components name nothing, and a last
//! component of `..` names no file.

pub mod edit;
pub mod plan;

use vstd::prelude::*;
use std::ops::Range;
use crate::annotate::{copy_range, markup, markup_of, Span};
use crate::annotate::live::window_end;
use vstd::string::StringSliceAdditionalSpecFns;
use crate::bytes::{is_blank, skip_blanks, skip_while};
use crate::markdown::{events, in_bounds, parse, Element, Parsed, Token};
use crate::text::{chars_of, push_char};
use vstd::utf8::{encode_utf8, is_char_boundary};

verus! {

/// The name a Document has before it has a file.
pub const UNTITLED: &'static str = "Untitled";

/// Where the last component of `p` starts: just after its last `/`, or at
/// the start when it has none.
pub open spec fn segment_start(p: Seq<char>) -> int
    decreases p.len(),
{
    if p.len() == 0 {
        0
    } else if p.last() == '/' {
        p.len() as int
    } else {
        segment_start(p.drop_last())
    }
}

pub proof fn lemma_segment_start(p: Seq<char>)
    ensures
        0 <= segment_start(p) <= p.len(),
        p.len() > 0 && p.last() != '/' ==> segment_start(p) < p.len(),
        segment_start(p) > 0 ==> p[segment_start(p) - 1] == '/',
        forall|k: int| segment_start(p) <= k < p.len() ==> p[k] != '/',
    decreases p.len(),
{
    if p.len() > 0 && p.last() != '/' {
        lemma_segment_start(p.drop_last());
        assert forall|k: int| segment_start(p) <= k < p.len() implies p[k] != '/' by {
            if k < p.len() - 1 {
                assert(p.drop_last()[k] == p[k]);
            }
        }
    }
}

/// The file name `p` ends in: its last component, trailing slashes and `.`
/// components passed over; none where that component is `..` or there is
/// none at all.
pub open spec fn file_name_of(p: Seq<char>) -> Option<Seq<char>>
    decreases p.len(),
{
    if p.len() == 0 {
        None
    } else if p.last() == '/' {
        file_name_of(p.drop_last())
    } else {
        let s = segment_start(p);
        let seg = p.subrange(s, p.len() as int);
        if seg == seq!['.'] {
            proof {
                lemma_segment_start(p);
            }
            file_name_of(p.take(s))
        } else if seg == seq!['.', '.'] {
            None
        } else {
            Some(seg)
        }
    }
}

/// Where the last `.` of `name` is, or -1 where it has none.
pub open spec fn last_dot(name: Seq<char>) -> int
    decreases name.len(),
{
    if name.len() == 0 {
        -1
    } else if name.last() == '.' {
        name.len() - 1
    } else {
        last_dot(name.drop_last())
    }
}

/// A file name without its extension: what stands before its last `.`,
/// unless that `.` opens the name, as in `.profile`, which is all stem.
pub open spec fn stem_of(name: Seq<char>) -> Seq<char> {
    if last_dot(name) > 0 {
        name.take(last_dot(name))
    } else {
        name
    }
}

/// The name a title shows for the file at `path`: its file name without the
/// extension, or the whole path where it names no file.
pub open spec fn shown_of(path: Seq<char>) -> Seq<char> {
    match file_name_of(path) {
        Some(name) => stem_of(name),
        None => path,
    }
}

/// Where the file name of `p` stands in it.
pub(crate) fn file_name_at(p: &Vec<char>) -> (at: Option<(usize, usize)>)
    ensures
        match file_name_of(p@) {
            Some(name) => at matches Some((s, e)) && s <= e <= p@.len() && p@.subrange(s as int, e as int)
                == name,
            None => at is None,
        },
{
    let n = p.len();
    let mut end: usize = n;
    proof {
        assert(p@.take(n as int) =~= p@);
    }
    loop
        invariant
            0 <= end <= n,
            n == p@.len(),
            file_name_of(p@) == file_name_of(p@.take(end as int)),
        decreases end,
    {
        let ghost top = end;
        while end > 0 && p[end - 1] == '/'
            invariant
                0 <= end <= top <= n,
                n == p@.len(),
                file_name_of(p@) == file_name_of(p@.take(end as int)),
            decreases end,
        {
            proof {
                assert(p@.take(end as int).drop_last() =~= p@.take(end - 1));
            }
            end = end - 1;
        }
        if end == 0 {
            return None;
        }
        let ghost q = p@.take(end as int);
        let mut start: usize = end;
        proof {
            assert(q.take(start as int) =~= q);
        }
        while start > 0 && p[start - 1] != '/'
            invariant
                0 <= start <= end <= n,
                n == p@.len(),
                q == p@.take(end as int),
                segment_start(q) == segment_start(q.take(start as int)),
                forall|k: int| start <= k < end ==> p@[k] != '/',
                end > 0,
                p@[end - 1] != '/',
            decreases start,
        {
            proof {
                assert(q.take(start as int).drop_last() =~= q.take(start - 1));
            }
            start = start - 1;
        }
        proof {
            if start > 0 {
                assert(q.take(start as int).last() == '/');
            }
            assert(segment_start(q) == start);
            assert(q.last() == p@[end - 1]);
        }
        let len = end - start;
        if len == 1 && p[start] == '.' {
            proof {
                assert(q.subrange(start as int, end as int) =~= seq!['.']);
                assert(q.take(start as int) =~= p@.take(start as int));
            }
            end = start;
        } else if len == 2 && p[start] == '.' && p[start + 1] == '.' {
            proof {
                assert(q.subrange(start as int, end as int) =~= seq!['.', '.']);
            }
            return None;
        } else {
            proof {
                let seg = q.subrange(start as int, end as int);
                if len == 1 {
                    assert(seg[0] == p@[start as int]);
                }
                if len == 2 {
                    assert(seg[0] == p@[start as int] && seg[1] == p@[start + 1]);
                }
                assert(seg =~= p@.subrange(start as int, end as int));
            }
            return Some((start, end));
        }
    }
}

/// The characters of `p` from `s` to `e` as a `String`.
pub(crate) fn text_between(p: &Vec<char>, s: usize, e: usize) -> (text: String)
    requires
        s <= e <= p@.len(),
    ensures
        text@ == p@.subrange(s as int, e as int),
{
    let mut text = String::new();
    let mut i: usize = s;
    while i < e
        invariant
            s <= i <= e <= p@.len(),
            text@ == p@.subrange(s as int, i as int),
        decreases e - i,
    {
        push_char(&mut text, p[i]);
        proof {
            assert(p@.subrange(s as int, i + 1) =~= p@.subrange(s as int, i as int).push(p@[i as int]));
        }
        i = i + 1;
    }
    text
}

/// What the file at `path` is called, extension and all, or nothing where
/// the path names no file.
pub fn full_name(path: &str) -> (name: String)
    ensures
        name@ == match file_name_of(path@) {
            Some(name) => name,
            None => Seq::<char>::empty(),
        },
{
    let p = chars_of(path);
    match file_name_at(&p) {
        Some((s, e)) => text_between(&p, s, e),
        None => {
            let none = String::new();
            proof {
                assert(none@ =~= Seq::<char>::empty());
            }
            none
        },
    }
}

/// The name a title shows for the file at `path`: the file name without its
/// extension, or the whole path where the path names no file.
pub fn shown_name(path: &str) -> (name: String)
    ensures
        name@ == shown_of(path@),
{
    let p = chars_of(path);
    match file_name_at(&p) {
        Some((s, e)) => {
            let ghost name = p@.subrange(s as int, e as int);
            let mut d: usize = e;
            proof {
                assert(name.take(d - s) =~= name);
            }
            while d > s && p[d - 1] != '.'
                invariant
                    s <= d <= e <= p@.len(),
                    name == p@.subrange(s as int, e as int),
                    last_dot(name) == last_dot(name.take(d - s)),
                decreases d,
            {
                proof {
                    assert(name.take(d - s).drop_last() =~= name.take(d - s - 1));
                }
                d = d - 1;
            }
            proof {
                if d > s {
                    assert(name.take(d - s).last() == p@[d - 1]);
                    assert(last_dot(name) == d - s - 1);
                } else {
                    assert(last_dot(name) == -1);
                }
            }
            if d > s && d - s > 1 {
                proof {
                    assert(name.take(d - s - 1) =~= p@.subrange(s as int, d - 1));
                }
                text_between(&p, s, d - 1)
            } else {
                text_between(&p, s, e)
            }
        },
        None => {
            let mut whole = String::new();
            let mut i: usize = 0;
            while i < p.len()
                invariant
                    0 <= i <= p@.len(),
                    whole@ == p@.take(i as int),
                decreases p.len() - i,
            {
                push_char(&mut whole, p[i]);
                proof {
                    assert(p@.take(i + 1) =~= p@.take(i as int).push(p@[i as int]));
                }
                i = i + 1;
            }
            proof {
                assert(p@.take(i as int) =~= p@);
            }
            whole
        },
    }
}

/// Whether `path` starts at the root.
pub open spec fn rooted(path: Seq<char>) -> bool {
    path.len() > 0 && path[0] == '/'
}

/// Whether `path` opens with the current directory: a relative path whose
/// first component is `.`.
pub open spec fn here_first(path: Seq<char>) -> bool {
    !rooted(path) && path.len() > 0 && path[0] == '.' && (path.len() == 1 || path[1] == '/')
}

/// Where the component that starts at `from` ends: at the next `/`, or at
/// the end of `path`.
pub open spec fn part_end(path: Seq<char>, from: int) -> int
    decreases path.len() - from,
{
    if from < 0 || from >= path.len() || path[from] == '/' {
        from
    } else {
        part_end(path, from + 1)
    }
}

pub proof fn lemma_part_end(path: Seq<char>, from: int)
    requires
        0 <= from <= path.len(),
    ensures
        from <= part_end(path, from) <= path.len(),
        from < path.len() && path[from] != '/' ==> from < part_end(path, from),
    decreases path.len() - from,
{
    if from < path.len() && path[from] != '/' {
        lemma_part_end(path, from + 1);
    }
}

/// The named components of `path` from `from` on, in order: the text
/// between its separators, empty ones and `.` ones passed over.
pub open spec fn parts_from(path: Seq<char>, from: int) -> Seq<Seq<char>>
    decreases path.len() - from,
{
    if from < 0 || from >= path.len() {
        seq![]
    } else if path[from] == '/' {
        parts_from(path, from + 1)
    } else {
        let end = part_end(path, from);
        proof {
            lemma_part_end(path, from);
        }
        let part = path.subrange(from, end);
        if part == seq!['.'] {
            parts_from(path, end)
        } else {
            seq![part] + parts_from(path, end)
        }
    }
}

/// Whether two paths name the same place as `Path`'s equality has it: the
/// same root, the same leading `.`, and the same components, whatever
/// separators and `.` components stand between them.
pub open spec fn same_path(one: Seq<char>, two: Seq<char>) -> bool {
    &&& rooted(one) == rooted(two)
    &&& here_first(one) == here_first(two)
    &&& parts_from(one, 0) == parts_from(two, 0)
}

/// The views of a list of components.
pub open spec fn part_views(parts: Seq<Vec<char>>) -> Seq<Seq<char>> {
    parts.map_values(|part: Vec<char>| part@)
}

/// The named components of `path`, in order.
pub(crate) fn parts(path: &Vec<char>) -> (found: Vec<Vec<char>>)
    ensures
        part_views(found@) == parts_from(path@, 0),
{
    let n = path.len();
    let mut found: Vec<Vec<char>> = Vec::new();
    let mut from: usize = 0;
    proof {
        assert(part_views(found@) + parts_from(path@, 0) =~= parts_from(path@, 0));
    }
    while from < n
        invariant
            0 <= from <= n,
            n == path@.len(),
            part_views(found@) + parts_from(path@, from as int) == parts_from(path@, 0),
        decreases n - from,
    {
        if path[from] == '/' {
            from = from + 1;
        } else {
            let mut end: usize = from;
            while end < n && path[end] != '/'
                invariant
                    from <= end <= n,
                    n == path@.len(),
                    part_end(path@, from as int) == part_end(path@, end as int),
                decreases n - end,
            {
                end = end + 1;
            }
            proof {
                assert(part_end(path@, end as int) == end);
            }
            let mut part: Vec<char> = Vec::new();
            let mut k: usize = from;
            while k < end
                invariant
                    from <= k <= end <= n,
                    n == path@.len(),
                    part@ == path@.subrange(from as int, k as int),
                decreases end - k,
            {
                part.push(path[k]);
                proof {
                    assert(path@.subrange(from as int, k + 1) =~= path@.subrange(from as int, k as int).push(path@[k as int]));
                }
                k = k + 1;
            }
            let ghost before = part_views(found@);
            if !(end - from == 1 && path[from] == '.') {
                proof {
                    if end - from == 1 {
                        assert(part@[0] == path@[from as int]);
                        assert(part@ != seq!['.']);
                    } else {
                        assert(part@.len() != seq!['.'].len());
                    }
                    assert(part_views(found@.push(part)) =~= before.push(part@));
                    assert(before.push(part@) + parts_from(path@, end as int) =~= before + (seq![part@] + parts_from(path@, end as int)));
                }
                found.push(part);
            } else {
                proof {
                    assert(part@ =~= seq!['.']);
                }
            }
            from = end;
        }
    }
    proof {
        assert(part_views(found@) + seq![] =~= part_views(found@));
    }
    found
}

/// Whether two lists of components are the same.
fn same_parts(one: &Vec<Vec<char>>, two: &Vec<Vec<char>>) -> (yes: bool)
    ensures
        yes == (part_views(one@) == part_views(two@)),
{
    if one.len() != two.len() {
        proof {
            assert(part_views(one@).len() != part_views(two@).len());
        }
        return false;
    }
    let mut k: usize = 0;
    while k < one.len()
        invariant
            0 <= k <= one@.len(),
            one@.len() == two@.len(),
            forall|j: int| 0 <= j < k ==> one@[j]@ == two@[j]@,
        decreases one.len() - k,
    {
        let a = &one[k];
        let b = &two[k];
        if a.len() != b.len() {
            proof {
                assert(part_views(one@)[k as int] != part_views(two@)[k as int]);
            }
            return false;
        }
        let mut i: usize = 0;
        while i < a.len()
            invariant
                0 <= i <= a@.len(),
                a@.len() == b@.len(),
                0 <= k < one@.len(),
                one@.len() == two@.len(),
                a@ == one@[k as int]@,
                b@ == two@[k as int]@,
                forall|j: int| 0 <= j < i ==> a@[j] == b@[j],
            decreases a.len() - i,
        {
            if a[i] != b[i] {
                proof {
                    assert(part_views(one@)[k as int] == a@);
                    assert(part_views(two@)[k as int] == b@);
                    assert(a@[i as int] != b@[i as int]);
                    assert(part_views(one@)[k as int] != part_views(two@)[k as int]);
                }
                return false;
            }
            i = i + 1;
        }
        proof {
            assert(a@ =~= b@);
        }
        k = k + 1;
    }
    proof {
        assert(part_views(one@) =~= part_views(two@));
    }
    true
}

/// Whether the paths `one` and `two` name the same place.
pub fn paths_equal(one: &str, two: &str) -> (yes: bool)
    ensures
        yes == same_path(one@, two@),
{
    let a = chars_of(one);
    let b = chars_of(two);
    let a_root = a.len() > 0 && a[0] == '/';
    let b_root = b.len() > 0 && b[0] == '/';
    let a_here = !a_root && a.len() > 0 && a[0] == '.' && (a.len() == 1 || a[1] == '/');
    let b_here = !b_root && b.len() > 0 && b[0] == '.' && (b.len() == 1 || b[1] == '/');
    if a_root != b_root || a_here != b_here {
        return false;
    }
    let pa = parts(&a);
    let pb = parts(&b);
    same_parts(&pa, &pb)
}

// The block index.

/// Where a byte of a Document is, as a line and an offset into it.
#[derive(Clone, Copy, Debug, PartialEq, Eq, Structural)]
pub struct Place {
    /// The line the byte is on, counted from 0.
    pub line: usize,
    /// How many bytes into that line it is, counted from the line's first byte.
    pub index: usize,
}

impl Default for Place {
    /// The first byte of the first line.
    fn default() -> (place: Place)
        ensures
            place == (Place { line: 0, index: 0 }),
    {
        Place { line: 0, index: 0 }
    }
}

/// What a top-level block of a Document is.
#[derive(Clone, Copy, Debug, PartialEq, Eq, Structural)]
pub enum Kind {
    /// Bytes no block covers: the blank lines between two blocks, the indent
    /// an indented code block leaves outside itself, and the definitions the
    /// parser resolves rather than draws.
    Gap,
    /// Prose.
    Paragraph,
    /// A heading; `setext` when it is written with `===` or `---` underneath
    /// rather than with `#` in front.
    Heading { setext: bool },
    /// A `>` blockquote and everything nested inside it.
    Quote,
    /// A bulleted or numbered list and every item of it.
    List,
    /// A code block; `fenced` when it is delimited by backticks or tildes
    /// rather than by four spaces of indent.
    Code { fenced: bool },
    /// A block of raw HTML.
    Html,
    /// A thematic break.
    Rule,
    /// The metadata block at the head of a file.
    FrontMatter,
    /// A pipe table.
    Table,
    /// A footnote definition.
    Footnote,
    /// A block with no rule of its own.
    Other,
}

impl Kind {
    /// Whether a block of this kind holds a container open past its own
    /// bytes: a fence, a metadata block and an HTML block run until something
    /// closes them.
    pub open spec fn spec_opens(self) -> bool {
        self == Kind::Code { fenced: true } || self == Kind::FrontMatter || self == Kind::Html
    }

    /// Whether a block of this kind begins where it begins whatever is
    /// written on the line above it: an ATX heading, a thematic break, an
    /// opening fence and a metadata block each interrupt what was being
    /// written.
    pub open spec fn spec_begins_a_block(self) -> bool {
        self == Kind::Heading { setext: false } || self == Kind::Rule || self == Kind::Code { fenced: true }
            || self == Kind::FrontMatter
    }

    /// Whether a block of this kind holds a container open past its own bytes.
    pub fn opens(self) -> (yes: bool)
        ensures
            yes == self.spec_opens(),
    {
        match self {
            Kind::Code { fenced: true } | Kind::FrontMatter | Kind::Html => true,
            _ => false,
        }
    }

    /// Whether a block of this kind begins where it begins whatever is
    /// written on the line above it.
    pub fn begins_a_block(self) -> (yes: bool)
        ensures
            yes == self.spec_begins_a_block(),
    {
        match self {
            Kind::Heading { setext: false } | Kind::Rule | Kind::Code { fenced: true } | Kind::FrontMatter => true,
            _ => false,
        }
    }
}

/// One top-level block: the bytes it covers and what it is.
#[derive(Debug, PartialEq, Eq)]
pub struct Block {
    /// Absolute UTF-8 bytes from the start of the Document.
    pub at: Range<usize>,
    /// What those bytes are.
    pub kind: Kind,
}

/// How much of a Document one edit was re-parsed over.
#[derive(Debug, PartialEq, Eq)]
pub struct Scope {
    /// The blocks the re-parse produced, by their index after the edit.
    pub blocks: Range<usize>,
    /// The bytes it re-parsed, as they are after the edit.
    pub bytes: Range<usize>,
}

/// Where an edit cut into the text.
#[derive(Debug, PartialEq, Eq)]
pub struct Splice {
    /// The bytes it took out, as they lay before the edit; empty for an
    /// insertion, and then the offset the text went in at.
    pub at: Range<usize>,
    /// How many bytes it put in their place; zero for a deletion.
    pub inserted: usize,
}

/// What one edit changed.
#[derive(Debug, PartialEq, Eq)]
pub struct Edit {
    /// The lines whose runs are not what they were, and so the lines the app
    /// retags.
    pub lines: Range<usize>,
    /// What had to be re-parsed to find them.
    pub scope: Scope,
    /// Where the edit cut, for whatever held offsets from before it.
    pub splice: Splice,
}

/// Whether the heading at `at` in `text` is written with an underline: its
/// first byte past any spaces and tabs is not a `#`.
pub open spec fn setext_at(text: Seq<u8>, at: Range<usize>) -> bool {
    let first = skip_while(text, at.start as int, at.end as int, |b: u8| is_blank(b));
    !(first < at.end && text[first] == 35)
}

/// What kind of block the element `element` opens over the bytes `at` of
/// `text`.
pub open spec fn kind_of(element: Element, text: Seq<u8>, at: Range<usize>) -> Kind {
    match element {
        Element::Paragraph => Kind::Paragraph,
        Element::Heading(_) => Kind::Heading { setext: setext_at(text, at) },
        Element::BlockQuote => Kind::Quote,
        Element::FencedCode => Kind::Code { fenced: true },
        Element::IndentedCode => Kind::Code { fenced: false },
        Element::List => Kind::List,
        Element::HtmlBlock => Kind::Html,
        Element::Metadata => Kind::FrontMatter,
        Element::Table => Kind::Table,
        Element::Footnote => Kind::Footnote,
        _ => Kind::Other,
    }
}

/// How deeply the parser is nested after the first `k` events: one deeper
/// for each opening, one shallower for each closing but never below the top.
pub open spec fn depth_after(events: Seq<Parsed>, k: int) -> int
    decreases k,
{
    if k <= 0 {
        0
    } else {
        let before = depth_after(events, k - 1);
        match events[k - 1].token {
            Token::Start(_) => before + 1,
            Token::End => if before > 0 {
                before - 1
            } else {
                0
            },
            _ => before,
        }
    }
}

/// The top-level blocks the first `k` events open, in order: each element
/// opened at the top, and each thematic break at the top, with the bytes the
/// parser gives it.
pub open spec fn top_level(events: Seq<Parsed>, text: Seq<u8>, k: int) -> Seq<(Range<usize>, Kind)>
    decreases k,
{
    if k <= 0 {
        seq![]
    } else {
        let before = top_level(events, text, k - 1);
        let event = events[k - 1];
        if depth_after(events, k - 1) == 0 {
            match event.token {
                Token::Start(element) => before.push((event.at, kind_of(element, text, event.at))),
                Token::Rule => before.push((event.at, Kind::Rule)),
                _ => before,
            }
        } else {
            before
        }
    }
}

/// The blocks `found` make of a text that runs from the cursor `at` to `end`
/// once each is moved on by `base`, the stretches between them and after the
/// last filled with gaps.
pub open spec fn tiled(found: Seq<(Range<usize>, Kind)>, base: int, at: int, end: int) -> Seq<(int, int, Kind)>
    decreases found.len(),
{
    if found.len() == 0 {
        if at < end {
            seq![(at, end, Kind::Gap)]
        } else {
            seq![]
        }
    } else {
        let (range, kind) = found[0];
        let start = base + range.start;
        let stop = base + range.end;
        let head = if start > at {
            seq![(at, start, Kind::Gap)]
        } else {
            seq![]
        };
        head + seq![(start, stop, kind)] + tiled(found.drop_first(), base, stop, end)
    }
}

/// The blocks of a block index, each as its bytes and its kind.
pub open spec fn block_views(blocks: Seq<Block>) -> Seq<(int, int, Kind)> {
    blocks.map_values(|block: Block| (block.at.start as int, block.at.end as int, block.kind))
}

/// The top-level blocks of `text` moved on by `base`, tiling it: what no
/// block covers is a gap, so that a search over the index never falls
/// between two entries.
pub open spec fn index_of(text: Seq<char>, bytes: Seq<u8>, base: int) -> Seq<(int, int, Kind)> {
    let events = parse(text);
    tiled(top_level(events, bytes, events.len() as int), base, base, base + bytes.len())
}

/// The kind of block `element` opens over `at`.
fn kind_at(element: Element, text: &[u8], at: &Range<usize>) -> (kind: Kind)
    requires
        at.start <= at.end <= text@.len(),
    ensures
        kind == kind_of(element, text@, *at),
{
    match element {
        Element::Paragraph => Kind::Paragraph,
        Element::Heading(_) => {
            let first = skip_blanks(text, at.start, at.end);
            Kind::Heading { setext: !(first < at.end && text[first] == 35) }
        },
        Element::BlockQuote => Kind::Quote,
        Element::FencedCode => Kind::Code { fenced: true },
        Element::IndentedCode => Kind::Code { fenced: false },
        Element::List => Kind::List,
        Element::HtmlBlock => Kind::Html,
        Element::Metadata => Kind::FrontMatter,
        Element::Table => Kind::Table,
        Element::Footnote => Kind::Footnote,
        _ => Kind::Other,
    }
}

/// The top-level blocks of `text`, tiling it, moved on by `base`.
pub fn index(text: &str, base: usize) -> (blocks: Vec<Block>)
    requires
        base + text.spec_bytes().len() <= usize::MAX,
    ensures
        block_views(blocks@) == index_of(text@, text.spec_bytes(), base as int),
        forall|i: int|
            0 <= i < blocks@.len() ==> base <= (#[trigger] blocks@[i]).at.start <= blocks@[i].at.end <= base
                + text.spec_bytes().len(),
{
    let bytes = text.as_bytes();
    let parsed = events(text);
    let len = bytes.len();
    let ghost all = parsed@;
    let mut found: Vec<(Range<usize>, Kind)> = Vec::new();
    let mut depth: usize = 0;
    let mut i: usize = 0;
    while i < parsed.len()
        invariant
            0 <= i <= parsed@.len(),
            all == parsed@,
            len == bytes@.len(),
            in_bounds(all, len as int),
            depth == depth_after(all, i as int),
            depth <= i,
            found@ == top_level(all, bytes@, i as int),
            forall|j: int| 0 <= j < found@.len() ==> (#[trigger] found@[j]).0.start <= found@[j].0.end <= len,
        decreases parsed.len() - i,
    {
        let at = copy_range(&parsed[i].at);
        proof {
            assert(in_bounds(all, len as int));
            assert(all[i as int].at.start <= all[i as int].at.end);
            assert(all[i as int].at.end <= len);
        }
        match parsed[i].token {
            Token::Start(element) => {
                if depth == 0 {
                    let kind = kind_at(element, bytes, &at);
                    found.push((at, kind));
                }
                depth = depth + 1;
            },
            Token::End => {
                if depth > 0 {
                    depth = depth - 1;
                }
            },
            Token::Rule => {
                if depth == 0 {
                    found.push((at, Kind::Rule));
                }
            },
            _ => {},
        }
        i = i + 1;
    }
    let mut blocks: Vec<Block> = Vec::new();
    let mut at: usize = base;
    let mut k: usize = 0;
    let ghost end = base + len;
    proof {
        assert(found@.skip(0) =~= found@);
    }
    while k < found.len()
        invariant
            0 <= k <= found@.len(),
            base <= at <= end <= usize::MAX,
            end == base + len,
            forall|j: int| 0 <= j < found@.len() ==> (#[trigger] found@[j]).0.start <= found@[j].0.end <= len,
            block_views(blocks@) + tiled(found@.skip(k as int), base as int, at as int, end) == tiled(found@, base as int, base as int, end),
            forall|i: int| 0 <= i < blocks@.len() ==> base <= (#[trigger] blocks@[i]).at.start <= blocks@[i].at.end <= end,
        decreases found.len() - k,
    {
        let (range, kind) = (copy_range(&found[k].0), found[k].1);
        let start = base + range.start;
        let stop = base + range.end;
        let ghost before = blocks@;
        proof {
            let rest = found@.skip(k as int);
            assert(rest[0] == found@[k as int]);
            assert(rest.drop_first() =~= found@.skip(k + 1));
        }
        if start > at {
            blocks.push(Block { at: at..start, kind: Kind::Gap });
        }
        blocks.push(Block { at: start..stop, kind });
        proof {
            let head = if start > at { seq![(at as int, start as int, Kind::Gap)] } else { seq![] };
            assert(block_views(blocks@) =~= block_views(before) + head + seq![(start as int, stop as int, kind)]);
        }
        at = stop;
        k = k + 1;
    }
    if at < base + len {
        let ghost before = blocks@;
        blocks.push(Block { at: at..base + len, kind: Kind::Gap });
        proof {
            assert(block_views(blocks@) =~= block_views(before).push((at as int, (base + len) as int, Kind::Gap)));
        }
    }
    proof {
        assert(found@.skip(k as int) =~= seq![]);
    }
    blocks
}

/// Whether `blocks` tile the bytes from `from` to `to`: the first starts at
/// `from`, each ends where the next starts, the last ends at `to`, and none
/// runs backwards; nothing at all only where there are no bytes.
pub open spec fn tiles(blocks: Seq<(int, int, Kind)>, from: int, to: int) -> bool {
    &&& blocks.len() == 0 ==> from == to
    &&& blocks.len() > 0 ==> blocks[0].0 == from && blocks.last().1 == to
    &&& forall|i: int| 0 <= i < blocks.len() ==> (#[trigger] blocks[i]).0 <= blocks[i].1
    &&& forall|i: int, j: int| 0 <= i && j == i + 1 && j < blocks.len() ==> (#[trigger] blocks[i]).1 == (#[trigger] blocks[j]).0
}

/// Whether the blocks `found` come in order between `from` and `to`: none
/// runs backwards, each starts no earlier than the one before it ends, the
/// first no earlier than `from` and the last ends no later than `to`.
pub open spec fn in_order(found: Seq<(Range<usize>, Kind)>, from: int, to: int) -> bool {
    &&& forall|i: int| 0 <= i < found.len() ==> (#[trigger] found[i]).0.start <= found[i].0.end <= to
    &&& forall|i: int, j: int| 0 <= i && j == i + 1 && j < found.len() ==> (#[trigger] found[i]).0.end <= (#[trigger] found[j]).0.start
    &&& found.len() > 0 ==> from <= found[0].0.start
}

proof fn lemma_tiled(found: Seq<(Range<usize>, Kind)>, base: int, at: int, end: int)
    requires
        at <= end,
        in_order(found, at - base, end - base),
    ensures
        tiles(tiled(found, base, at, end), at, end),
    decreases found.len(),
{
    let t = tiled(found, base, at, end);
    if found.len() > 0 {
        let (range, kind) = found[0];
        let start = base + range.start;
        let stop = base + range.end;
        let rest = found.drop_first();
        assert(in_order(rest, stop - base, end - base)) by {
            assert forall|i: int| 0 <= i < rest.len() implies (#[trigger] rest[i]).0.start <= rest[i].0.end <= end - base by {
                assert(rest[i] == found[i + 1]);
            }
            assert forall|i: int, j: int| 0 <= i && j == i + 1 && j < rest.len() implies (#[trigger] rest[i]).0.end
                <= (#[trigger] rest[j]).0.start by {
                assert(rest[i] == found[i + 1] && rest[j] == found[j + 1]);
            }
            if rest.len() > 0 {
                assert(rest[0] == found[1]);
            }
        }
        lemma_tiled(rest, base, stop, end);
        let head = if start > at {
            seq![(at, start, Kind::Gap)]
        } else {
            seq![]
        };
        let tail = tiled(rest, base, stop, end);
        assert(t == head + seq![(start, stop, kind)] + tail);
        let front = head + seq![(start, stop, kind)];
        assert forall|i: int| 0 <= i < t.len() implies (#[trigger] t[i]).0 <= t[i].1 by {
            if i >= front.len() {
                assert(t[i] == tail[i - front.len()]);
            }
        }
        assert forall|i: int, j: int| 0 <= i && j == i + 1 && j < t.len() implies (#[trigger] t[i]).1 == (#[trigger] t[j]).0 by {
            if j < front.len() {
            } else if i < front.len() {
                assert(t[j] == tail[0]);
            } else {
                assert(t[i] == tail[i - front.len()]);
                assert(t[j] == tail[j - front.len()]);
            }
        }
        if tail.len() > 0 {
            assert(t.last() == tail.last());
        } else {
            assert(t.last() == (start, stop, kind));
        }
    }
}

/// The block index tiles the text: where the parser's top-level blocks come
/// in order, the first block of the index starts at `base`, each ends where
/// the next begins, and the last ends where the text does, so that a search
/// over it finds every byte in exactly one block.
pub proof fn lemma_index_tiles(text: Seq<char>, bytes: Seq<u8>, base: int)
    requires
        in_order(top_level(parse(text), bytes, parse(text).len() as int), 0, bytes.len() as int),
    ensures
        tiles(index_of(text, bytes, base), base, base + bytes.len()),
{
    lemma_tiled(top_level(parse(text), bytes, parse(text).len() as int), base, base, base + bytes.len());
}

/// How many blocks, counted from `from`, start at or before `offset` before
/// the first one that starts after it: where the search over the starts of an
/// index puts `offset`.
pub open spec fn starts_through(blocks: Seq<(int, int, Kind)>, offset: int, from: int) -> int
    decreases blocks.len() - from,
{
    if 0 <= from < blocks.len() && blocks[from].0 <= offset {
        starts_through(blocks, offset, from + 1)
    } else {
        from
    }
}

/// The block `offset` is in, by its index in `blocks`, for a text `len`
/// bytes long: the last block that starts at or before it, when the offset
/// is before that block's end or is the end of the text.
pub open spec fn block_at_of(blocks: Seq<(int, int, Kind)>, len: int, offset: int) -> Option<int> {
    let found = starts_through(blocks, offset, 0);
    if found <= 0 {
        None
    } else if offset < blocks[found - 1].1 || offset == len {
        Some(found - 1)
    } else {
        None
    }
}

/// The block `offset` is in, by its index in `blocks`, the block index of a
/// text `len` bytes long. The end of the text belongs to the last block: a
/// writer typing at the end of a draft is typing into its last block, not
/// past it.
pub fn block_at(blocks: &[Block], len: usize, offset: usize) -> (found: Option<usize>)
    ensures
        found == (match block_at_of(block_views(blocks@), len as int, offset as int) {
            Some(i) => Some(i as usize),
            None => None,
        }),
        found matches Some(i) ==> i < blocks@.len(),
        block_at_of(block_views(blocks@), len as int, offset as int) matches Some(i) ==> 0 <= i < blocks@.len(),
{
    let ghost views = block_views(blocks@);
    let mut k: usize = 0;
    while k < blocks.len() && blocks[k].at.start <= offset
        invariant
            0 <= k <= blocks@.len(),
            views == block_views(blocks@),
            starts_through(views, offset as int, 0) == starts_through(views, offset as int, k as int),
        decreases blocks.len() - k,
    {
        k = k + 1;
    }
    proof {
        assert(starts_through(views, offset as int, k as int) == k);
    }
    if k == 0 {
        None
    } else if offset < blocks[k - 1].at.end || offset == len {
        Some(k - 1)
    } else {
        None
    }
}

// The Document.

/// The byte each line of a text starts at, over its first `n` bytes: 0, and
/// one past each `\n`. Lines are split on `\n` alone, so the `\r` of a CRLF
/// file belongs to the line it ends.
pub open spec fn line_starts_upto(bytes: Seq<u8>, n: int) -> Seq<int>
    decreases n,
{
    if n <= 0 {
        seq![0]
    } else {
        let before = line_starts_upto(bytes, n - 1);
        if bytes[n - 1] == 10 {
            before.push(n)
        } else {
            before
        }
    }
}

/// The byte each line of `bytes` starts at.
pub open spec fn line_starts_of(bytes: Seq<u8>) -> Seq<int> {
    line_starts_upto(bytes, bytes.len() as int)
}

/// How far, from `from`, the entries of `starts` stay at or before `offset`.
pub open spec fn leading_through(starts: Seq<int>, offset: int, from: int) -> int
    decreases starts.len() - from,
{
    if 0 <= from < starts.len() && starts[from] <= offset {
        leading_through(starts, offset, from + 1)
    } else {
        from
    }
}

/// The line `offset` is on; an offset past the end is on the last line.
pub open spec fn line_of(bytes: Seq<u8>, offset: int) -> int {
    let at = if offset < bytes.len() {
        offset
    } else {
        bytes.len() as int
    };
    leading_through(line_starts_of(bytes), at, 0) - 1
}

/// The byte `line` starts at, or the end of the text for a line past the
/// last.
pub open spec fn line_start_of(bytes: Seq<u8>, line: int) -> int {
    let starts = line_starts_of(bytes);
    if 0 <= line < starts.len() {
        starts[line]
    } else {
        bytes.len() as int
    }
}

/// The bytes of `line`, its newline included: the empty range at the end of
/// the text for a line past the last.
pub open spec fn line_bytes_of(bytes: Seq<u8>, line: int) -> (int, int) {
    let start = line_start_of(bytes, line);
    let next = line_start_of(bytes, line + 1);
    (start, if next > start { next } else { start })
}

/// The first character boundary at or after `offset`, or the end.
pub open spec fn boundary_from(bytes: Seq<u8>, offset: int) -> int
    decreases bytes.len() - offset,
{
    if offset >= bytes.len() || is_char_boundary(bytes, offset) {
        offset
    } else {
        boundary_from(bytes, offset + 1)
    }
}

/// Where `offset` is, as its line and the byte index within that line: an
/// offset past the end lands at the end, and one inside a character lands
/// after that character.
pub open spec fn place_of(bytes: Seq<u8>, offset: int) -> (int, int) {
    let at = boundary_from(bytes, if offset < bytes.len() { offset } else { bytes.len() as int });
    let line = line_of(bytes, at);
    (line, at - line_start_of(bytes, line))
}

/// What a window titles a Document at `path`: its file name, or
/// [`UNTITLED`] where it has none.
pub open spec fn title_of(path: Option<Seq<char>>) -> Seq<char> {
    match path {
        Some(p) => match file_name_of(p) {
            Some(name) => name,
            None => UNTITLED@,
        },
        None => UNTITLED@,
    }
}

/// The first line start is the start of the text, and the line starts rise.
proof fn lemma_line_starts(bytes: Seq<u8>, n: int)
    requires
        0 <= n <= bytes.len(),
    ensures
        1 <= line_starts_upto(bytes, n).len() <= n + 1,
        line_starts_upto(bytes, n)[0] == 0,
        forall|i: int| 0 <= i < line_starts_upto(bytes, n).len() ==> 0 <= #[trigger] line_starts_upto(bytes, n)[i] <= n,
    decreases n,
{
    if n > 0 {
        lemma_line_starts(bytes, n - 1);
    }
}

/// The byte each line of `text` starts at.
fn line_starts(text: &[u8]) -> (starts: Vec<usize>)
    ensures
        starts@.map_values(|s: usize| s as int) == line_starts_of(text@),
{
    let mut starts: Vec<usize> = Vec::new();
    starts.push(0);
    let mut i: usize = 0;
    proof {
        assert(starts@.map_values(|s: usize| s as int) =~= seq![0int]);
    }
    while i < text.len()
        invariant
            0 <= i <= text@.len(),
            starts@.map_values(|s: usize| s as int) == line_starts_upto(text@, i as int),
        decreases text.len() - i,
    {
        let ghost before = starts@;
        if text[i] == 10 {
            starts.push(i + 1);
            proof {
                assert(starts@.map_values(|s: usize| s as int) =~= before.map_values(|s: usize| s as int).push(i + 1));
            }
        }
        i = i + 1;
    }
    starts
}

/// A block index as the blocks it holds.
pub open spec fn as_blocks(views: Seq<(int, int, Kind)>) -> Seq<Block> {
    views.map_values(|view: (int, int, Kind)| Block { at: Range { start: view.0 as usize, end: view.1 as usize }, kind: view.2 })
}

/// The spans the blocks from the `b`th on file, the spans from the `c`th on:
/// each block takes the spans that start before it ends. From the block
/// `first` on, while a block starts before `end`, the spans it files that
/// start before `end` are read.
pub open spec fn spans_reaching(blocks: Seq<(int, int, Kind)>, spans: Seq<Span>, first: int, end: int, b: int, c: int) -> Seq<Span>
    decreases blocks.len() - b,
{
    if b < 0 || b >= blocks.len() || c < 0 || (b >= first && blocks[b].0 >= end) {
        seq![]
    } else {
        let filed = window_end(spans, c, blocks[b].1 as usize);
        let here = if b >= first {
            spans.subrange(c, window_end(spans, c, (if end < blocks[b].1 { end } else { blocks[b].1 }) as usize))
        } else {
            seq![]
        };
        here + spans_reaching(blocks, spans, first, end, b + 1, filed)
    }
}

/// One Markdown file, plus everything the engine keeps in step with its
/// text: the line-start table, the block index and the Markup spans.
#[derive(Debug)]
pub struct Document {
    path: Option<String>,
    text: String,
    generation: u64,
    lines: Vec<usize>,
    blocks: Vec<Block>,
    spans: Vec<Span>,
}

impl Document {
    /// The text, as its characters.
    pub closed spec fn spec_text(&self) -> Seq<char> {
        self.text@
    }

    /// The file the Document is, as text.
    pub closed spec fn spec_path(&self) -> Option<Seq<char>> {
        match self.path {
            Some(p) => Some(p@),
            None => None,
        }
    }

    /// The text revision asynchronous Annotators stamp their results with.
    pub closed spec fn spec_generation(&self) -> u64 {
        self.generation
    }

    /// The text's UTF-8 bytes, which every offset counts.
    pub open spec fn spec_bytes(&self) -> Seq<u8> {
        encode_utf8(self.spec_text())
    }

    /// The block index, as each block's bytes and kind.
    pub closed spec fn spec_blocks(&self) -> Seq<(int, int, Kind)> {
        block_views(self.blocks@)
    }

    /// The Markup spans, in absolute bytes.
    pub closed spec fn spec_spans(&self) -> Seq<Span> {
        self.spans@
    }

    /// The line table is the text's own, and the block index and the spans
    /// name bytes the text has.
    #[verifier::type_invariant]
    closed spec fn in_step(&self) -> bool {
        &&& self.lines@.map_values(|s: usize| s as int) == line_starts_of(encode_utf8(self.text@))
        &&& forall|i: int|
            0 <= i < self.blocks@.len() ==> 0 <= (#[trigger] self.blocks@[i]).at.start <= self.blocks@[i].at.end
                <= encode_utf8(self.text@).len()
        &&& forall|i: int|
            0 <= i < self.spans@.len() ==> (#[trigger] self.spans@[i]).at.start <= self.spans@[i].at.end
                <= encode_utf8(self.text@).len()
    }

    /// Whether the block index and the spans are what a whole parse of the
    /// text gives.
    pub open spec fn parsed_whole(&self) -> bool {
        &&& self.spec_blocks() == index_of(self.spec_text(), self.spec_bytes(), 0)
        &&& self.spec_spans() == markup_of(self.spec_bytes(), parse(self.spec_text()))
    }

    /// A Document of `text`, parsed whole, as the file at `path`.
    pub fn holding(text: String, path: Option<String>) -> (doc: Document)
        ensures
            doc.spec_text() == text@,
            doc.spec_path() == (match path {
                Some(p) => Some(p@),
                None => None::<Seq<char>>,
            }),
            doc.spec_generation() == 0,
            doc.parsed_whole(),
    {
        let t = text.as_str();
        let bytes = t.as_bytes();
        let len = bytes.len();
        assert(len == t.spec_bytes().len());
        let lines = line_starts(bytes);
        let blocks = index(t, 0);
        let spans = markup(t);
        proof {
            assert forall|i: int| 0 <= i < spans@.len() implies (#[trigger] spans@[i]).at.start <= spans@[i].at.end
                <= len by {
                assert(crate::annotate::clean(t.spec_bytes(), spans@[i]));
            }
        }
        Document { path, text, generation: 0, lines, blocks, spans }
    }

    /// A Document with no file behind it and nothing written in it.
    pub fn untitled() -> (doc: Document)
        ensures
            doc.spec_text() == Seq::<char>::empty(),
            doc.spec_path() == None::<Seq<char>>,
            doc.spec_generation() == 0,
            doc.parsed_whole(),
    {
        let doc = Document::holding(String::new(), None);
        proof {
            assert(doc.spec_text() =~= Seq::<char>::empty());
        }
        doc
    }

    /// Gives the Document the file it is.
    pub fn set_path(&mut self, path: String)
        ensures
            final(self).spec_path() == Some(path@),
            final(self).spec_text() == old(self).spec_text(),
            final(self).spec_generation() == old(self).spec_generation(),
            final(self).spec_blocks() == old(self).spec_blocks(),
            final(self).spec_spans() == old(self).spec_spans(),
    {
        proof {
            use_type_invariant(&*self);
        }
        self.path = Some(path);
    }

    /// Replaces the text with `text`, parsed whole, keeping the file: what a
    /// Document does when its file changed underneath it. The generation
    /// moves on.
    pub fn reload(&mut self, text: String)
        requires
            old(self).spec_generation() < u64::MAX,
        ensures
            final(self).spec_text() == text@,
            final(self).spec_path() == old(self).spec_path(),
            final(self).spec_generation() == old(self).spec_generation() + 1,
            final(self).parsed_whole(),
    {
        proof {
            use_type_invariant(&*self);
        }
        let generation = self.generation + 1;
        let path = match &self.path {
            Some(p) => Some(p.clone()),
            None => None,
        };
        let mut doc = Document::holding(text, path);
        proof {
            use_type_invariant(&doc);
        }
        doc.generation = generation;
        *self = doc;
    }

    /// The text revision asynchronous Annotators stamp their results with.
    pub fn generation(&self) -> (generation: u64)
        ensures
            generation == self.spec_generation(),
    {
        self.generation
    }

    /// The file this Document is, or `None` while it is untitled.
    pub fn path(&self) -> (path: Option<&str>)
        ensures
            match path {
                Some(p) => self.spec_path() == Some(p@),
                None => self.spec_path() is None,
            },
    {
        match &self.path {
            Some(p) => Some(p.as_str()),
            None => None,
        }
    }

    /// The Document's text.
    pub fn text(&self) -> (text: &str)
        ensures
            text@ == self.spec_text(),
    {
        self.text.as_str()
    }

    /// The top-level blocks, in order, tiling the whole text.
    pub fn blocks(&self) -> (blocks: Vec<Block>)
        ensures
            block_views(blocks@) == self.spec_blocks(),
            blocks@ == as_blocks(self.spec_blocks()),
            forall|i: int|
                0 <= i < blocks@.len() ==> (#[trigger] blocks@[i]).at.start <= blocks@[i].at.end <= self.spec_bytes().len(),
    {
        proof {
            use_type_invariant(self);
        }
        let mut blocks: Vec<Block> = Vec::new();
        let mut k: usize = 0;
        while k < self.blocks.len()
            invariant
                0 <= k <= self.blocks@.len(),
                blocks@ == self.blocks@.take(k as int),
            decreases self.blocks.len() - k,
        {
            blocks.push(Block { at: copy_range(&self.blocks[k].at), kind: self.blocks[k].kind });
            proof {
                assert(self.blocks@.take(k + 1) =~= self.blocks@.take(k as int).push(self.blocks@[k as int]));
            }
            k = k + 1;
        }
        proof {
            assert(self.blocks@.take(k as int) =~= self.blocks@);
            assert(blocks@ =~= as_blocks(self.spec_blocks()));
        }
        blocks
    }

    /// The block at `index` in the block index, as the bytes it covers and
    /// what it is.
    pub fn block(&self, index: usize) -> (block: Block)
        requires
            index < self.spec_blocks().len(),
        ensures
            (block.at.start as int, block.at.end as int, block.kind) == self.spec_blocks()[index as int],
            block.at.start <= block.at.end <= self.spec_bytes().len(),
    {
        proof {
            use_type_invariant(self);
            assert(self.blocks@[index as int].at.start as int == block_views(self.blocks@)[index as int].0);
        }
        Block { at: copy_range(&self.blocks[index].at), kind: self.blocks[index].kind }
    }

    /// How many blocks the index holds.
    pub fn block_count(&self) -> (count: usize)
        ensures
            count == self.spec_blocks().len(),
    {
        proof {
            use_type_invariant(self);
        }
        self.blocks.len()
    }

    /// The block `offset` is in, by its index in [`Document::blocks`]. The
    /// end of the text belongs to the last block.
    pub fn block_at(&self, offset: usize) -> (found: Option<usize>)
        ensures
            found == (match block_at_of(self.spec_blocks(), self.spec_bytes().len() as int, offset as int) {
                Some(i) => Some(i as usize),
                None => None,
            }),
            found matches Some(i) ==> i < self.spec_blocks().len(),
            block_at_of(self.spec_blocks(), self.spec_bytes().len() as int, offset as int) matches Some(i) ==> 0 <= i
                < self.spec_blocks().len() <= usize::MAX,
    {
        proof {
            use_type_invariant(self);
        }
        let count = self.blocks.len();
        assert(count == self.spec_blocks().len());
        let len = self.text.as_str().as_bytes().len();
        block_at(&self.blocks, len, offset)
    }

    /// The Markup spans of the whole Document, in absolute bytes.
    pub fn spans(&self) -> (spans: Vec<Span>)
        ensures
            spans@ == self.spec_spans(),
            forall|i: int| 0 <= i < spans@.len() ==> (#[trigger] spans@[i]).at.start <= spans@[i].at.end <= self.spec_bytes().len(),
    {
        proof {
            use_type_invariant(self);
        }
        let mut spans: Vec<Span> = Vec::new();
        let mut k: usize = 0;
        while k < self.spans.len()
            invariant
                0 <= k <= self.spans@.len(),
                spans@ == self.spans@.take(k as int),
            decreases self.spans.len() - k,
        {
            spans.push(Span { at: copy_range(&self.spans[k].at), mark: self.spans[k].mark });
            proof {
                assert(self.spans@.take(k + 1) =~= self.spans@.take(k as int).push(self.spans@[k as int]));
            }
            k = k + 1;
        }
        proof {
            assert(self.spans@.take(k as int) =~= self.spans@);
        }
        spans
    }

    /// The spans that could cover any of the bytes `at`, and no others
    /// before them: from the block holding `at.start` on, while a block
    /// starts before `at.end`, each block's own spans that start before
    /// `at.end`. A span never straddles a block, so nothing starting before
    /// the block holding `at.start` can reach `at`; a span in the list may
    /// still end before `at` begins.
    pub fn spans_in(&self, at: &Range<usize>) -> (found: Vec<Span>)
        ensures
            found@ == spans_reaching(
                self.spec_blocks(),
                self.spec_spans(),
                match block_at_of(self.spec_blocks(), self.spec_bytes().len() as int, at.start as int) {
                    Some(i) => i,
                    None => 0,
                },
                at.end as int,
                0,
                0,
            ),
    {
        proof {
            use_type_invariant(self);
        }
        let first = match self.block_at(at.start) {
            Some(i) => i,
            None => 0,
        };
        let ghost views = self.spec_blocks();
        let ghost want = spans_reaching(views, self.spans@, first as int, at.end as int, 0, 0);
        let mut found: Vec<Span> = Vec::new();
        let mut c: usize = 0;
        let mut b: usize = 0;
        while b < self.blocks.len()
            invariant
                0 <= b <= self.blocks@.len(),
                0 <= c <= self.spans@.len(),
                views == block_views(self.blocks@),
                views == self.spec_blocks(),
                self.spans@ == self.spec_spans(),
                first as int == (match block_at_of(self.spec_blocks(), self.spec_bytes().len() as int, at.start as int) {
                    Some(i) => i,
                    None => 0,
                }),
                want == spans_reaching(views, self.spans@, first as int, at.end as int, 0, 0),
                found@ + spans_reaching(views, self.spans@, first as int, at.end as int, b as int, c as int) == want,
            decreases self.blocks.len() - b,
        {
            assert(views[b as int] == (self.blocks@[b as int].at.start as int, self.blocks@[b as int].at.end as int, self.blocks@[b as int].kind));
            if b >= first && self.blocks[b].at.start >= at.end {
                proof {
                    assert(found@ =~= found@ + Seq::<Span>::empty());
                }
                return found;
            }
            let block_end = self.blocks[b].at.end;
            let start = c;
            while c < self.spans.len() && self.spans[c].at.start < block_end
                invariant
                    start <= c <= self.spans@.len(),
                    window_end(self.spans@, start as int, block_end) == window_end(self.spans@, c as int, block_end),
                decreases self.spans.len() - c,
            {
                c = c + 1;
            }
            let ghost before = found@;
            if b >= first {
                let bound = if at.end < block_end {
                    at.end
                } else {
                    block_end
                };
                let mut k = start;
                while k < self.spans.len() && self.spans[k].at.start < bound
                    invariant
                        start <= k <= self.spans@.len(),
                        found@ == before + self.spans@.subrange(start as int, k as int),
                        window_end(self.spans@, start as int, bound) == window_end(self.spans@, k as int, bound),
                    decreases self.spans.len() - k,
                {
                    found.push(Span { at: copy_range(&self.spans[k].at), mark: self.spans[k].mark });
                    proof {
                        assert(self.spans@.subrange(start as int, k + 1) =~= self.spans@.subrange(start as int, k as int).push(
                            self.spans@[k as int],
                        ));
                    }
                    k = k + 1;
                }
            } else {
                proof {
                    assert(found@ =~= before + Seq::<Span>::empty());
                }
            }
            b = b + 1;
        }
        proof {
            assert(found@ =~= found@ + Seq::<Span>::empty());
        }
        found
    }

    /// The line `offset` is on.
    pub fn line_of(&self, offset: usize) -> (line: usize)
        ensures
            line == line_of(self.spec_bytes(), offset as int),
            line < line_starts_of(self.spec_bytes()).len(),
            line_start_of(self.spec_bytes(), line as int) <= (if offset < self.spec_bytes().len() {
                offset as int
            } else {
                self.spec_bytes().len() as int
            }),
    {
        proof {
            use_type_invariant(self);
            lemma_line_starts(self.spec_bytes(), self.spec_bytes().len() as int);
        }
        let len = self.text.as_str().as_bytes().len();
        let at = if offset < len {
            offset
        } else {
            len
        };
        let ghost starts = line_starts_of(self.spec_bytes());
        assert(starts.len() == self.lines@.len());
        let mut k: usize = 0;
        while k < self.lines.len() && self.lines[k] <= at
            invariant
                0 <= k <= self.lines@.len(),
                starts == self.lines@.map_values(|s: usize| s as int),
                leading_through(starts, at as int, 0) == leading_through(starts, at as int, k as int),
                k > 0 ==> self.lines@[k - 1] <= at,
            decreases self.lines.len() - k,
        {
            assert(starts[k as int] == self.lines@[k as int]);
            k = k + 1;
        }
        proof {
            assert(starts[0] == 0);
            assert(self.lines@[0] == 0);
        }
        k - 1
    }

    /// The byte `line` starts at, or the end of the text for a line past
    /// the last.
    pub fn line_start(&self, line: usize) -> (start: usize)
        ensures
            start == line_start_of(self.spec_bytes(), line as int),
            start <= self.spec_bytes().len(),
    {
        proof {
            use_type_invariant(self);
            lemma_line_starts(self.spec_bytes(), self.spec_bytes().len() as int);
        }
        let ghost starts = self.lines@.map_values(|s: usize| s as int);
        assert(starts.len() == self.lines@.len());
        if line < self.lines.len() {
            assert(starts[line as int] == self.lines@[line as int]);
            self.lines[line]
        } else {
            self.text.as_str().as_bytes().len()
        }
    }

    /// The bytes of `line`, its newline included. A line past the end of the
    /// Document is the empty range at the end.
    pub fn line_bytes(&self, line: usize) -> (at: Range<usize>)
        ensures
            (at.start as int, at.end as int) == line_bytes_of(self.spec_bytes(), line as int),
            at.start <= at.end <= self.spec_bytes().len(),
    {
        let start = self.line_start(line);
        let len = self.text.as_str().as_bytes().len();
        let next = if line < usize::MAX {
            self.line_start(line + 1)
        } else {
            len
        };
        proof {
            use_type_invariant(self);
            lemma_line_starts(self.spec_bytes(), self.spec_bytes().len() as int);
        }
        start..if next > start {
            next
        } else {
            start
        }
    }

    /// Where `offset` is, as the line and the byte index within it. An offset
    /// past the end of the text lands at the end, and an offset inside a
    /// character lands after that character.
    pub fn place(&self, offset: usize) -> (place: Place)
        ensures
            (place.line as int, place.index as int) == place_of(self.spec_bytes(), offset as int),
    {
        let text = self.text.as_str();
        let len = text.as_bytes().len();
        let mut at = if offset < len {
            offset
        } else {
            len
        };
        let ghost bytes = self.spec_bytes();
        while at < len && !text.is_char_boundary(at)
            invariant
                at <= len,
                len == bytes.len(),
                bytes == text.spec_bytes(),
                boundary_from(bytes, if offset < len { offset as int } else { len as int }) == boundary_from(bytes, at as int),
            decreases len - at,
        {
            at = at + 1;
        }
        let line = self.line_of(at);
        let start = self.line_start(line);
        Place { line, index: at - start }
    }

    /// The name to show for this Document: its file name, or [`UNTITLED`].
    pub fn title(&self) -> (title: String)
        ensures
            title@ == title_of(self.spec_path()),
    {
        match &self.path {
            Some(p) => {
                let chars = chars_of(p.as_str());
                match file_name_at(&chars) {
                    Some((s, e)) => text_between(&chars, s, e),
                    None => UNTITLED.to_owned(),
                }
            },
            None => UNTITLED.to_owned(),
        }
    }

    /// The name the top bar shows: the file name without its extension, or
    /// [`UNTITLED`] until the first save.
    pub fn name(&self) -> (name: String)
        ensures
            name@ == (match self.spec_path() {
                Some(p) => shown_of(p),
                None => UNTITLED@,
            }),
    {
        match &self.path {
            Some(p) => shown_name(p.as_str()),
            None => UNTITLED.to_owned(),
        }
    }
}

} // verus!
