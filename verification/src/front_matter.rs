//! The front matter a Document may open with, as far as Export reads it.
//!
//! A file whose first line is `---` opens with a metadata block, which the
//! parser already finds. Export reads three keys out of it and no others:
//! `title`, `author` and `date`. A block is read line by line, `key: value`,
//! with a quoted value read as the same text a bare one is; everything else
//! in the block is the writer's own and is carried nowhere.

use vstd::prelude::*;
use crate::disk::{lines, lines_of, views};
use crate::markdown::{events, parse, Element, Parsed, Token};
use crate::text::{skip_white, string_of, trim_chars, trimmed};

verus! {

/// What a Document's front matter says about the Document. Each key is
/// `None` when the block does not name it, names it with nothing after the
/// colon, or there is no block at all.
#[derive(Clone, Debug, PartialEq, Eq)]
pub struct FrontMatter {
    /// What the Document is called, for the title page and the PDF's Title.
    pub title: Option<String>,
    /// Who wrote it, for the title page and the PDF's Author.
    pub author: Option<String>,
    /// The date it carries, for the title page.
    pub date: Option<String>,
}

/// The three keys as the contracts read them.
pub type Keys = (Option<Seq<char>>, Option<Seq<char>>, Option<Seq<char>>);

/// The view of an optional string.
pub open spec fn opt_view(value: Option<String>) -> Option<Seq<char>> {
    match value {
        Some(s) => Some(s@),
        None => None,
    }
}

/// What `found` says, key by key.
pub open spec fn keys_of(found: FrontMatter) -> Keys {
    (opt_view(found.title), opt_view(found.author), opt_view(found.date))
}

impl FrontMatter {
    /// The front matter of a Document with none.
    pub fn none() -> (found: FrontMatter)
        ensures
            keys_of(found) == (None::<Seq<char>>, None::<Seq<char>>, None::<Seq<char>>),
    {
        FrontMatter { title: None, author: None, date: None }
    }

    /// Whether the block named nothing Export reads.
    pub fn is_empty(&self) -> (empty: bool)
        ensures
            empty == (self.title is None && self.author is None && self.date is None),
    {
        self.title.is_none() && self.author.is_none() && self.date.is_none()
    }
}

impl Default for FrontMatter {
    fn default() -> (found: Self)
        ensures
            keys_of(found) == (None::<Seq<char>>, None::<Seq<char>>, None::<Seq<char>>),
    {
        FrontMatter::none()
    }
}

/// `value` with one pair of matching quotes, double or single, taken off
/// it; a value quoted at one end only is left whole.
pub open spec fn unquoted(value: Seq<char>) -> Seq<char> {
    if value.len() >= 2 && value[0] == '"' && value.last() == '"' {
        value.subrange(1, value.len() - 1)
    } else if value.len() >= 2 && value[0] == '\'' && value.last() == '\'' {
        value.subrange(1, value.len() - 1)
    } else {
        value
    }
}

/// Where the first `:` of `line` is, at or after `from`.
pub open spec fn colon_from(line: Seq<char>, from: int) -> Option<int>
    decreases line.len() - from,
{
    if from < 0 || from >= line.len() {
        None
    } else if line[from] == ':' {
        Some(from)
    } else {
        colon_from(line, from + 1)
    }
}

/// `found` with one `key: value` line read into it: the value, trimmed and
/// unquoted, goes to the key the trimmed text before the first colon names,
/// when that is one of the three, the value is not empty, and the key is
/// still unset, so that the first of two lines with one key wins.
pub open spec fn took(found: Keys, line: Seq<char>) -> Keys {
    match colon_from(line, 0) {
        None => found,
        Some(colon) => {
            let key = trimmed(line.take(colon));
            let value = unquoted(trimmed(line.skip(colon + 1)));
            if value.len() == 0 {
                found
            } else if key == "title"@ && found.0 is None {
                (Some(value), found.1, found.2)
            } else if key == "author"@ && found.1 is None {
                (found.0, Some(value), found.2)
            } else if key == "date"@ && found.2 is None {
                (found.0, found.1, Some(value))
            } else {
                found
            }
        },
    }
}

/// `found` with every one of `lines` read into it, in order.
pub open spec fn took_all(found: Keys, lines: Seq<Seq<char>>) -> Keys
    decreases lines.len(),
{
    if lines.len() == 0 {
        found
    } else {
        took(took_all(found, lines.drop_last()), lines.last())
    }
}

/// What the events from `at` on add to `found`: the text of the first
/// metadata block, line by line, up to the block's end.
pub open spec fn read_from(events: Seq<Parsed>, at: int, inside: bool, found: Keys) -> Keys
    decreases events.len() - at,
{
    if at < 0 || at >= events.len() {
        found
    } else {
        match events[at].token {
            Token::Start(Element::Metadata) => read_from(events, at + 1, true, found),
            Token::End => if inside {
                found
            } else {
                read_from(events, at + 1, inside, found)
            },
            Token::Text => match events[at].words {
                Some(words) if inside => read_from(
                    events,
                    at + 1,
                    inside,
                    took_all(found, lines_of(words@)),
                ),
                _ => read_from(events, at + 1, inside, found),
            },
            _ => read_from(events, at + 1, inside, found),
        }
    }
}

/// Nothing named.
pub open spec fn nothing() -> Keys {
    (None, None, None)
}

/// `value` with one pair of matching quotes taken off it.
fn unquote(value: Vec<char>) -> (inside: Vec<char>)
    ensures
        inside@ == unquoted(value@),
{
    let n = value.len();
    if n >= 2 && ((value[0] == '"' && value[n - 1] == '"') || (value[0] == '\'' && value[n - 1] == '\'')) {
        let mut inside: Vec<char> = Vec::new();
        let mut k: usize = 1;
        while k < n - 1
            invariant
                1 <= k <= n - 1,
                n == value@.len(),
                inside@ == value@.subrange(1, k as int),
            decreases n - 1 - k,
        {
            inside.push(value[k]);
            proof {
                assert(value@.subrange(1, k + 1) =~= value@.subrange(1, k as int).push(value@[k as int]));
            }
            k = k + 1;
        }
        inside
    } else {
        value
    }
}

/// The characters of `line` from `from` to `to`.
fn between(line: &Vec<char>, from: usize, to: usize) -> (part: Vec<char>)
    requires
        from <= to <= line@.len(),
    ensures
        part@ == line@.subrange(from as int, to as int),
{
    let mut part: Vec<char> = Vec::new();
    let mut k: usize = from;
    while k < to
        invariant
            from <= k <= to <= line@.len(),
            part@ == line@.subrange(from as int, k as int),
        decreases to - k,
    {
        part.push(line[k]);
        proof {
            assert(line@.subrange(from as int, k + 1) =~= line@.subrange(from as int, k as int).push(line@[k as int]));
        }
        k = k + 1;
    }
    part
}

/// Whether `chars` are the characters of `word`.
fn is_word(chars: &Vec<char>, word: &str) -> (yes: bool)
    ensures
        yes == (chars@ == word@),
{
    crate::text::is_text(chars, word)
}

/// Reads one `key: value` line into the key it names.
pub fn take(found: &mut FrontMatter, line: &Vec<char>)
    ensures
        keys_of(*final(found)) == took(keys_of(*old(found)), line@),
{
    let n = line.len();
    let mut colon: usize = 0;
    while colon < n && line[colon] != ':'
        invariant
            0 <= colon <= n,
            n == line@.len(),
            colon_from(line@, 0) == colon_from(line@, colon as int),
        decreases n - colon,
    {
        colon = colon + 1;
    }
    if colon == n {
        return;
    }
    let key = trim_chars(&between(line, 0, colon));
    let value = unquote(trim_chars(&between(line, colon + 1, n)));
    proof {
        assert(line@.subrange(0, colon as int) =~= line@.take(colon as int));
        assert(line@.subrange(colon + 1, n as int) =~= line@.skip(colon + 1));
        assert(colon_from(line@, colon as int) == Some(colon as int));
        assert(key@ == trimmed(line@.take(colon as int)));
        assert(value@ == unquoted(trimmed(line@.skip(colon + 1))));
    }
    if value.len() == 0 {
        return;
    }
    proof {
        reveal_strlit("title");
        reveal_strlit("author");
        reveal_strlit("date");
        assert("title"@.len() == 5);
        assert("author"@.len() == 6);
        assert("date"@.len() == 4);
        assert("title"@ != "author"@);
        assert("title"@ != "date"@);
        assert("author"@ != "date"@);
    }
    if is_word(&key, "title") {
        if found.title.is_none() {
            found.title = Some(string_of(&value));
        }
    } else if is_word(&key, "author") {
        if found.author.is_none() {
            found.author = Some(string_of(&value));
        }
    } else if is_word(&key, "date") {
        if found.date.is_none() {
            found.date = Some(string_of(&value));
        }
    }
}

/// The front matter the events of a text give: the first metadata block's
/// lines read in order, or nothing where the text has no block.
pub fn read_events(parsed: &Vec<Parsed>) -> (found: FrontMatter)
    ensures
        keys_of(found) == read_from(parsed@, 0, false, nothing()),
{
    let mut found = FrontMatter::none();
    let mut inside = false;
    let mut at: usize = 0;
    while at < parsed.len()
        invariant
            0 <= at <= parsed@.len(),
            read_from(parsed@, 0, false, nothing()) == read_from(parsed@, at as int, inside, keys_of(found)),
        decreases parsed.len() - at,
    {
        match parsed[at].token {
            Token::Start(Element::Metadata) => {
                inside = true;
            },
            Token::End => {
                if inside {
                    return found;
                }
            },
            Token::Text => {
                if inside {
                    match &parsed[at].words {
                        Some(words) => {
                            let block = lines(words.as_str());
                            let ghost start = keys_of(found);
                            let mut k: usize = 0;
                            while k < block.len()
                                invariant
                                    0 <= k <= block@.len(),
                                    keys_of(found) == took_all(start, views(block@).take(k as int)),
                                decreases block.len() - k,
                            {
                                proof {
                                    assert(views(block@).take(k + 1).drop_last() =~= views(block@).take(k as int));
                                }
                                take(&mut found, &block[k]);
                                k = k + 1;
                            }
                            proof {
                                assert(views(block@).take(k as int) =~= views(block@));
                            }
                        },
                        None => {},
                    }
                }
            },
            _ => {},
        }
        at = at + 1;
    }
    found
}

/// The front matter of `text`, or the empty one when it has none. Only the
/// first block is read, because only the first is front matter: a `---`
/// further down a file is a thematic break, and the parser says so.
pub fn read(text: &str) -> (found: FrontMatter)
    ensures
        keys_of(found) == read_from(parse(text@), 0, false, nothing()),
{
    let parsed = events(text);
    read_events(&parsed)
}

} // verus!
