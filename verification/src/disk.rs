//! A Document on disk: the states its file can be in, the name the first
//! save derives, and the line diff of a conflict.
//!
//! The reading and writing of files, and the watch that notices a change, are
//! the app's; everything here is plain data for it to read.

use vstd::prelude::*;
use crate::document::{
    block_at_of, file_name_at, file_name_of, last_dot, paths_equal, same_path, text_between, Document, UNTITLED,
};
use vstd::utf8::{encode_utf8, is_char_boundary};
use vstd::string::StringSliceAdditionalSpecFns;
use crate::text::{
    lowercase, same, to_lower, ascii_lower, chars_of, is_white, push_char, skip_white, string_of, to_ascii_lower, trim_chars,
    trim_end, trim_start, trimmed, white,
};

verus! {

/// Where a Document stands with the file behind it.
#[derive(Clone, Copy, Debug, PartialEq, Eq, Structural)]
pub enum OnDisk {
    /// No file yet. The first save derives a name from the first line and
    /// makes one; until then the Document lives only in the window.
    Untitled,
    /// A file holding what Quill last wrote or read. Autosave writes it.
    Named,
    /// The file changed under unsaved edits. Autosave pauses, and the writer
    /// chooses: reload the disk's text, or keep the Editor's over it.
    ChangedOnDisk,
    /// The file is gone. Autosave pauses, and a save recreates it.
    DeletedOnDisk,
}

/// What a save did, for a caller that must know why nothing was written.
#[derive(Clone, Copy, Debug, PartialEq, Eq, Structural)]
pub enum Saved {
    /// The file holds the Document's text, and its version is recorded.
    Written,
    /// Nothing was written: the Document is untitled, so the caller chooses
    /// the folder.
    NeedsAFolder,
    /// Nothing was written: the file changed under the Document, and only a
    /// reload or a keep resolves that.
    Refused,
}

/// Where the caret was when a reload replaced the text under it.
#[derive(Clone, Copy, Debug, PartialEq, Eq, Structural)]
pub struct Kept {
    /// The block the caret was in before the reload, or `None` where the
    /// Document had no block there.
    pub block: Option<usize>,
    /// The caret's byte offset, clamped to the reloaded text and to a
    /// character boundary.
    pub caret: usize,
}

/// What a watch event on the Document's file turned out to be.
#[derive(Clone, Copy, Debug, PartialEq, Eq, Structural)]
pub enum Noticed {
    /// The file is the version Quill last wrote or read.
    Unchanged,
    /// The Document was clean, so the disk's text is in it now.
    Reloaded(Kept),
    /// The file changed under unsaved edits.
    Changed,
    /// The file is gone.
    Deleted,
}

/// How much of the first line a derived name keeps, in characters.
pub const TITLE_CHARS: usize = 80;

/// Where the line that starts at `from` ends: at the first `\n` from there
/// on, or at the end of `t`.
pub open spec fn line_end(t: Seq<char>, from: int) -> int
    decreases t.len() - from,
{
    if from < 0 || from >= t.len() {
        t.len() as int
    } else if t[from] == '\n' {
        from
    } else {
        line_end(t, from + 1)
    }
}

pub proof fn lemma_line_end(t: Seq<char>, from: int)
    requires
        0 <= from <= t.len(),
    ensures
        from <= line_end(t, from) <= t.len(),
        line_end(t, from) < t.len() ==> t[line_end(t, from)] == '\n',
        forall|k: int| from <= k < line_end(t, from) ==> t[k] != '\n',
    decreases t.len() - from,
{
    if from < t.len() && t[from] != '\n' {
        lemma_line_end(t, from + 1);
    }
}

/// The line of `t` from `from` to `end`: a `\r` before the `\n` that ends it
/// is not part of it.
pub open spec fn line_at(t: Seq<char>, from: int, end: int) -> Seq<char> {
    let raw = t.subrange(from, end);
    if end < t.len() && raw.len() > 0 && raw.last() == '\r' {
        raw.drop_last()
    } else {
        raw
    }
}

/// The lines of `t` from `from` on, as `str::lines` reads them: split at
/// each `\n`, with no empty line after a last `\n`.
pub open spec fn lines_from(t: Seq<char>, from: int) -> Seq<Seq<char>>
    decreases t.len() - from,
{
    if from < 0 || from >= t.len() {
        seq![]
    } else {
        let end = line_end(t, from);
        proof {
            lemma_line_end(t, from);
        }
        if end >= t.len() {
            seq![line_at(t, from, end)]
        } else {
            seq![line_at(t, from, end)] + lines_from(t, end + 1)
        }
    }
}

/// The lines of `t`, as `str::lines` reads them.
pub open spec fn lines_of(t: Seq<char>) -> Seq<Seq<char>> {
    lines_from(t, 0)
}

/// The views of `lines`.
pub open spec fn views(lines: Seq<Vec<char>>) -> Seq<Seq<char>> {
    lines.map_values(|line: Vec<char>| line@)
}

/// The lines of `text`, each as its characters.
pub fn lines(text: &str) -> (found: Vec<Vec<char>>)
    ensures
        views(found@) == lines_of(text@),
{
    let t = chars_of(text);
    let n = t.len();
    let mut found: Vec<Vec<char>> = Vec::new();
    let mut from: usize = 0;
    proof {
        assert(views(found@) + lines_from(t@, 0) =~= lines_of(t@));
    }
    while from < n
        invariant
            0 <= from <= n,
            n == t@.len(),
            t@ == text@,
            views(found@) + lines_from(t@, from as int) == lines_of(t@),
        decreases n - from,
    {
        let mut end: usize = from;
        while end < n && t[end] != '\n'
            invariant
                from <= end <= n,
                n == t@.len(),
                line_end(t@, from as int) == line_end(t@, end as int),
            decreases n - end,
        {
            end = end + 1;
        }
        let mut last: usize = end;
        if end < n && end > from && t[end - 1] == '\r' {
            last = end - 1;
        }
        let mut line: Vec<char> = Vec::new();
        let mut k: usize = from;
        while k < last
            invariant
                from <= k <= last <= end <= n,
                n == t@.len(),
                line@ == t@.subrange(from as int, k as int),
            decreases last - k,
        {
            line.push(t[k]);
            proof {
                assert(t@.subrange(from as int, k + 1) =~= t@.subrange(from as int, k as int).push(t@[k as int]));
            }
            k = k + 1;
        }
        proof {
            lemma_line_end(t@, from as int);
            assert(line@ =~= line_at(t@, from as int, end as int));
            let before = views(found@);
            assert(views(found@.push(line)) =~= before.push(line@));
            if end < n {
                assert(before.push(line@) + lines_from(t@, end + 1) =~= before + (seq![line@] + lines_from(t@, end + 1)));
            } else {
                assert(before.push(line@) + lines_from(t@, n as int) =~= before + seq![line@]);
            }
        }
        found.push(line);
        if end < n {
            from = end + 1;
        } else {
            from = n;
        }
    }
    proof {
        assert(views(found@) + seq![] =~= views(found@));
    }
    found
}

/// Whether `line` holds nothing but white space.
pub open spec fn blank(line: Seq<char>) -> bool {
    forall|k: int| 0 <= k < line.len() ==> is_white(line[k])
}

fn is_blank(line: &Vec<char>) -> (yes: bool)
    ensures
        yes == blank(line@),
{
    let mut k: usize = 0;
    while k < line.len()
        invariant
            0 <= k <= line@.len(),
            forall|j: int| 0 <= j < k ==> is_white(line@[j]),
        decreases line.len() - k,
    {
        if !white(line[k]) {
            return false;
        }
        k = k + 1;
    }
    true
}

/// The first of `lines` that is not blank.
pub open spec fn first_filled(lines: Seq<Seq<char>>) -> Option<Seq<char>>
    decreases lines.len(),
{
    if lines.len() == 0 {
        None
    } else if !blank(lines[0]) {
        Some(lines[0])
    } else {
        first_filled(lines.drop_first())
    }
}

/// How many `#` open `s`.
pub open spec fn hashes(s: Seq<char>) -> nat
    decreases s.len(),
{
    if s.len() > 0 && s[0] == '#' {
        1 + hashes(s.drop_first())
    } else {
        0
    }
}

/// `line` without a leading ATX heading marker: one to six hashes and the
/// white space after them. The leading white space goes either way.
pub open spec fn unheaded(line: Seq<char>) -> Seq<char> {
    let rest = trim_start(line);
    let n = hashes(rest);
    if 1 <= n <= 6 && n < rest.len() && is_white(rest[n as int]) {
        trim_start(rest.skip(n as int))
    } else {
        rest
    }
}

/// Whether `c` marks a list item or a quote.
pub open spec fn is_marker(c: char) -> bool {
    c == '-' || c == '*' || c == '+' || c == '>'
}

/// `line` without a leading list or quote marker and the white space after
/// it.
pub open spec fn strip_marker(line: Seq<char>) -> Seq<char> {
    if line.len() >= 2 && is_marker(line[0]) && is_white(line[1]) {
        trim_start(line.skip(1))
    } else {
        line
    }
}

/// Whether `c` is inline Markup a title leaves out.
pub open spec fn is_markup(c: char) -> bool {
    c == '*' || c == '_' || c == '`' || c == '~' || c == '[' || c == ']'
}

/// `s` without the characters `keep` refuses.
pub open spec fn kept(s: Seq<char>, keep: spec_fn(char) -> bool) -> Seq<char>
    decreases s.len(),
{
    if s.len() == 0 {
        seq![]
    } else if keep(s.last()) {
        kept(s.drop_last(), keep).push(s.last())
    } else {
        kept(s.drop_last(), keep)
    }
}

/// `s` with each run of white space made one space.
pub open spec fn squeezed(s: Seq<char>) -> Seq<char>
    decreases s.len(),
{
    if s.len() == 0 {
        seq![]
    } else {
        let rest = squeezed(s.drop_last());
        if is_white(s.last()) {
            if rest.len() > 0 && rest.last() == ' ' {
                rest
            } else {
                rest.push(' ')
            }
        } else {
            rest.push(s.last())
        }
    }
}

/// The first non-blank line of `text` as a title: hashes, list or quote
/// marker and inline Markup gone, white space collapsed to single spaces,
/// cut to [`TITLE_CHARS`] characters; empty where every line is blank.
pub open spec fn derived_title(text: Seq<char>) -> Seq<char> {
    match first_filled(lines_of(text)) {
        None => seq![],
        Some(line) => {
            let bare = kept(strip_marker(unheaded(line)), |c: char| !is_markup(c));
            let collapsed = trimmed(squeezed(bare));
            if collapsed.len() > TITLE_CHARS {
                collapsed.take(TITLE_CHARS as int)
            } else {
                collapsed
            }
        },
    }
}

/// Whether `c` is a control character: `char::is_control`, Unicode's `Cc`.
pub open spec fn is_control(c: char) -> bool {
    c <= '\u{1f}' || ('\u{7f}' <= c && c <= '\u{9f}')
}

/// Whether a file name may hold `c`.
pub open spec fn nameable(c: char) -> bool {
    !(c == '\\' || c == '/' || c == ':' || c == '*' || c == '?' || c == '"' || c == '<' || c == '>'
        || c == '|') && !is_control(c)
}

/// `s` without the characters no file name may hold.
pub open spec fn nameable_only(s: Seq<char>) -> Seq<char> {
    kept(s, |c: char| nameable(c))
}

/// `s` without the dots and the white space it opens with, in any mix.
pub open spec fn undotted(s: Seq<char>) -> Seq<char>
    decreases s.len(),
{
    if s.len() > 0 && (s[0] == '.' || is_white(s[0])) {
        undotted(s.drop_first())
    } else {
        s
    }
}

/// `title` as a file name: the characters no file name may hold dropped,
/// white space trimmed and leading dots dropped (so the name never opens
/// with a dot, whatever white space stood before it), and [`UNTITLED`] where
/// nothing survives.
pub open spec fn safe_name(title: Seq<char>) -> Seq<char> {
    let name = trimmed(undotted(nameable_only(title)));
    if name.len() == 0 {
        UNTITLED@
    } else {
        name
    }
}

/// The extensions the Library lists.
pub open spec fn extensions() -> Seq<Seq<char>> {
    seq![seq!['m', 'd'], seq!['m', 'a', 'r', 'k', 'd', 'o', 'w', 'n'], seq!['t', 'x', 't'], seq!['t', 'e', 'x', 't']]
}

/// The extension of the file `path` names: what follows the last `.` of its
/// file name, where that `.` does not open the name.
pub open spec fn extension_of(path: Seq<char>) -> Option<Seq<char>> {
    match file_name_of(path) {
        Some(name) => if last_dot(name) > 0 {
            Some(name.skip(last_dot(name) + 1))
        } else {
            None
        },
        None => None,
    }
}

/// Whether the two texts are the same but for the case of ASCII letters.
pub open spec fn same_folded(a: Seq<char>, b: Seq<char>) -> bool {
    a.len() == b.len() && forall|k: int| 0 <= k < a.len() ==> ascii_lower(a[k]) == ascii_lower(b[k])
}

/// Whether `path` is a file the Library lists, whatever the case of its
/// extension.
pub open spec fn listed(path: Seq<char>) -> bool {
    &&& extension_of(path) is Some
    &&& exists|k: int| 0 <= k < 4 && #[trigger] same_folded(extension_of(path).unwrap(), extensions()[k])
}

/// `typed` as a file name: [`safe_name`], then `.md` unless the name
/// already ends in an extension the Library lists.
pub open spec fn named_of(typed: Seq<char>) -> Seq<char> {
    let name = safe_name(typed);
    if listed(name) {
        name
    } else {
        name + seq!['.', 'm', 'd']
    }
}

/// `s` from `from` on.
fn tail_of(s: &Vec<char>, from: usize) -> (rest: Vec<char>)
    requires
        from <= s@.len(),
    ensures
        rest@ == s@.skip(from as int),
{
    let mut rest: Vec<char> = Vec::new();
    let mut i: usize = from;
    while i < s.len()
        invariant
            from <= i <= s@.len(),
            rest@ == s@.subrange(from as int, i as int),
        decreases s.len() - i,
    {
        rest.push(s[i]);
        proof {
            assert(s@.subrange(from as int, i + 1) =~= s@.subrange(from as int, i as int).push(s@[i as int]));
        }
        i = i + 1;
    }
    proof {
        assert(s@.subrange(from as int, i as int) =~= s@.skip(from as int));
    }
    rest
}

proof fn lemma_hashes(s: Seq<char>, k: int)
    requires
        0 <= k <= s.len(),
        forall|j: int| 0 <= j < k ==> s[j] == '#',
    ensures
        hashes(s) == k + hashes(s.skip(k)),
    decreases k,
{
    if k > 0 {
        assert(s.drop_first().skip(k - 1) =~= s.skip(k));
        lemma_hashes(s.drop_first(), k - 1);
    } else {
        assert(s.skip(0) =~= s);
    }
}

/// `line` without a leading ATX heading marker.
fn unheaded_chars(line: &Vec<char>) -> (rest: Vec<char>)
    ensures
        rest@ == unheaded(line@),
{
    proof {
        assert(line@.skip(0) =~= line@);
    }
    let start = skip_white(line, 0);
    let mut end: usize = start;
    while end < line.len() && line[end] == '#'
        invariant
            start <= end <= line@.len(),
            forall|j: int| start <= j < end ==> line@[j] == '#',
        decreases line.len() - end,
    {
        end = end + 1;
    }
    let n = end - start;
    proof {
        let rest = line@.skip(start as int);
        assert forall|j: int| 0 <= j < n implies rest[j] == '#' by {
            assert(rest[j] == line@[j + start]);
        }
        lemma_hashes(rest, n as int);
        assert(rest.skip(n as int) =~= line@.skip(end as int));
        if end < line@.len() {
            assert(line@.skip(end as int)[0] == line@[end as int]);
        }
        assert(hashes(rest) == n);
        if n < rest.len() {
            assert(rest[n as int] == line@[end as int]);
        }
    }
    if 1 <= n && n <= 6 && end < line.len() && white(line[end]) {
        let after = skip_white(line, end);
        proof {
            assert(line@.skip(start as int).skip(n as int) =~= line@.skip(end as int));
        }
        tail_of(line, after)
    } else {
        tail_of(line, start)
    }
}

/// `line` without a leading list or quote marker.
fn strip_marker_chars(line: Vec<char>) -> (rest: Vec<char>)
    ensures
        rest@ == strip_marker(line@),
{
    if line.len() >= 2 && (line[0] == '-' || line[0] == '*' || line[0] == '+' || line[0] == '>')
        && white(line[1]) {
        let after = skip_white(&line, 1);
        tail_of(&line, after)
    } else {
        line
    }
}

/// `s` without inline Markup.
fn unmarked(s: &Vec<char>) -> (bare: Vec<char>)
    ensures
        bare@ == kept(s@, |c: char| !is_markup(c)),
{
    let mut bare: Vec<char> = Vec::new();
    let mut i: usize = 0;
    while i < s.len()
        invariant
            0 <= i <= s@.len(),
            bare@ == kept(s@.take(i as int), |c: char| !is_markup(c)),
        decreases s.len() - i,
    {
        proof {
            assert(s@.take(i + 1).drop_last() =~= s@.take(i as int));
        }
        let c = s[i];
        if !(c == '*' || c == '_' || c == '`' || c == '~' || c == '[' || c == ']') {
            bare.push(c);
        }
        i = i + 1;
    }
    proof {
        assert(s@.take(i as int) =~= s@);
    }
    bare
}

/// `s` with each run of white space made one space.
fn squeeze(s: &Vec<char>) -> (out: Vec<char>)
    ensures
        out@ == squeezed(s@),
{
    let mut out: Vec<char> = Vec::new();
    let mut i: usize = 0;
    while i < s.len()
        invariant
            0 <= i <= s@.len(),
            out@ == squeezed(s@.take(i as int)),
        decreases s.len() - i,
    {
        proof {
            assert(s@.take(i + 1).drop_last() =~= s@.take(i as int));
        }
        if white(s[i]) {
            let n = out.len();
            if !(n > 0 && out[n - 1] == ' ') {
                out.push(' ');
            }
        } else {
            out.push(s[i]);
        }
        i = i + 1;
    }
    proof {
        assert(s@.take(i as int) =~= s@);
    }
    out
}

/// The first non-blank line of `text` as a title.
pub fn derive_title(text: &str) -> (title: Vec<char>)
    ensures
        title@ == derived_title(text@),
{
    let all = lines(text);
    let mut i: usize = 0;
    proof {
        assert(views(all@).skip(0) =~= views(all@));
    }
    while i < all.len()
        invariant
            0 <= i <= all@.len(),
            views(all@) == lines_of(text@),
            first_filled(views(all@)) == first_filled(views(all@).skip(i as int)),
            forall|j: int| 0 <= j < i ==> blank(#[trigger] views(all@)[j]),
        decreases all.len() - i,
    {
        proof {
            assert(views(all@).skip(i as int).drop_first() =~= views(all@).skip(i + 1));
            assert(views(all@).skip(i as int)[0] == all@[i as int]@);
        }
        if !is_blank(&all[i]) {
            let line = unheaded_chars(&all[i]);
            let line = strip_marker_chars(line);
            let bare = unmarked(&line);
            let squeezed = squeeze(&bare);
            let collapsed = trim_chars(&squeezed);
            if collapsed.len() > TITLE_CHARS {
                let mut cut: Vec<char> = Vec::new();
                let mut k: usize = 0;
                while k < TITLE_CHARS
                    invariant
                        0 <= k <= TITLE_CHARS < collapsed@.len(),
                        cut@ == collapsed@.take(k as int),
                    decreases TITLE_CHARS - k,
                {
                    cut.push(collapsed[k]);
                    proof {
                        assert(collapsed@.take(k + 1) =~= collapsed@.take(k as int).push(collapsed@[k as int]));
                    }
                    k = k + 1;
                }
                return cut;
            }
            return collapsed;
        }
        i = i + 1;
    }
    proof {
        assert(views(all@).skip(i as int) =~= seq![]);
    }
    Vec::new()
}

/// `title` as a file name: the characters no file name may hold dropped,
/// white space trimmed, leading dots dropped, and [`UNTITLED`] where nothing
/// survives.
pub fn safe(title: &Vec<char>) -> (name: Vec<char>)
    ensures
        name@ == safe_name(title@),
{
    let mut kept_chars: Vec<char> = Vec::new();
    let mut i: usize = 0;
    while i < title.len()
        invariant
            0 <= i <= title@.len(),
            kept_chars@ == kept(title@.take(i as int), |c: char| nameable(c)),
        decreases title.len() - i,
    {
        proof {
            assert(title@.take(i + 1).drop_last() =~= title@.take(i as int));
        }
        let c = title[i];
        if !(c == '\\' || c == '/' || c == ':' || c == '*' || c == '?' || c == '"' || c == '<'
            || c == '>' || c == '|') && !(c <= '\u{1f}' || ('\u{7f}' <= c && c <= '\u{9f}')) {
            kept_chars.push(c);
        }
        i = i + 1;
    }
    proof {
        assert(title@.take(i as int) =~= title@);
    }
    let mut start: usize = 0;
    proof {
        assert(kept_chars@.skip(0) =~= kept_chars@);
    }
    while start < kept_chars.len() && (kept_chars[start] == '.' || white(kept_chars[start]))
        invariant
            0 <= start <= kept_chars@.len(),
            undotted(kept_chars@) == undotted(kept_chars@.skip(start as int)),
        decreases kept_chars.len() - start,
    {
        proof {
            assert(kept_chars@.skip(start as int).drop_first() =~= kept_chars@.skip(start + 1));
        }
        start = start + 1;
    }
    proof {
        if start < kept_chars@.len() {
            assert(kept_chars@.skip(start as int)[0] == kept_chars@[start as int]);
        }
    }
    let rest = tail_of(&kept_chars, start);
    let name = trim_chars(&rest);
    if name.len() == 0 {
        let untitled = chars_of(UNTITLED);
        untitled
    } else {
        name
    }
}

/// Whether `a` is `b` but for the case of ASCII letters.
fn folded_eq(a: &Vec<char>, b: &Vec<char>) -> (yes: bool)
    ensures
        yes == same_folded(a@, b@),
{
    if a.len() != b.len() {
        return false;
    }
    let mut k: usize = 0;
    while k < a.len()
        invariant
            0 <= k <= a@.len(),
            a@.len() == b@.len(),
            forall|j: int| 0 <= j < k ==> ascii_lower(a@[j]) == ascii_lower(b@[j]),
        decreases a.len() - k,
    {
        if to_ascii_lower(a[k]) != to_ascii_lower(b[k]) {
            return false;
        }
        k = k + 1;
    }
    true
}

/// Whether `path` is a file the Library lists, whatever the case of its
/// extension.
pub fn is_listed(path: &Vec<char>) -> (yes: bool)
    ensures
        yes == listed(path@),
{
    match file_name_at(path) {
        None => false,
        Some((s, e)) => {
            let ghost name = path@.subrange(s as int, e as int);
            let mut d: usize = e;
            proof {
                assert(name.take(d - s) =~= name);
            }
            while d > s && path[d - 1] != '.'
                invariant
                    s <= d <= e <= path@.len(),
                    name == path@.subrange(s as int, e as int),
                    last_dot(name) == last_dot(name.take(d - s)),
                decreases d,
            {
                proof {
                    assert(name.take(d - s).drop_last() =~= name.take(d - s - 1));
                }
                d = d - 1;
            }
            proof {
                if d > s {
                    assert(name.take(d - s).last() == path@[d - 1]);
                    assert(last_dot(name) == d - s - 1);
                } else {
                    assert(last_dot(name) == -1);
                }
            }
            if !(d > s && d - s > 1) {
                return false;
            }
            let mut extension: Vec<char> = Vec::new();
            let mut k: usize = d;
            while k < e
                invariant
                    d <= k <= e <= path@.len(),
                    extension@ == path@.subrange(d as int, k as int),
                decreases e - k,
            {
                extension.push(path[k]);
                proof {
                    assert(path@.subrange(d as int, k + 1) =~= path@.subrange(d as int, k as int).push(path@[k as int]));
                }
                k = k + 1;
            }
            proof {
                assert(extension@ =~= name.skip(last_dot(name) + 1));
                assert(file_name_of(path@) == Some(name));
                assert(extension_of(path@) == Some(extension@));
            }
            let listed_ones: Vec<Vec<char>> = vec![vec!['m', 'd'], vec!['m', 'a', 'r', 'k', 'd', 'o', 'w', 'n'], vec!['t', 'x', 't'], vec!['t', 'e', 'x', 't']];
            proof {
                assert(listed_ones@[0]@ =~= extensions()[0]);
                assert(listed_ones@[1]@ =~= extensions()[1]);
                assert(listed_ones@[2]@ =~= extensions()[2]);
                assert(listed_ones@[3]@ =~= extensions()[3]);
            }
            let mut j: usize = 0;
            while j < 4
                invariant
                    0 <= j <= 4,
                    listed_ones@.len() == 4,
                    forall|m: int| 0 <= m < 4 ==> (#[trigger] listed_ones@[m])@ == extensions()[m],
                    forall|m: int| 0 <= m < j ==> !same_folded(extension@, #[trigger] extensions()[m]),
                    extension_of(path@) == Some(extension@),
                decreases 4 - j,
            {
                if folded_eq(&extension, &listed_ones[j]) {
                    proof {
                        let w = j as int;
                        assert(same_folded(extension@, extensions()[w]));
                        assert(extension_of(path@) is Some);
                        assert(extension_of(path@).unwrap() == extension@);
                        assert(same_folded(extension_of(path@).unwrap(), extensions()[w]));
                        assert(listed(path@));
                    }
                    return true;
                }
                j = j + 1;
            }
            false
        },
    }
}

/// `typed` as a file name: the characters no file name may hold dropped,
/// white space trimmed, leading dots dropped, and [`UNTITLED`] where nothing
/// survives; a name
/// that already ends in an extension the Library lists keeps it, and
/// everything else is given `.md`.
pub fn named(typed: &str) -> (name: String)
    ensures
        name@ == named_of(typed@),
{
    let chars = chars_of(typed);
    let mut name = safe(&chars);
    if !is_listed(&name) {
        name.push('.');
        name.push('m');
        name.push('d');
        proof {
            assert(name@ =~= safe_name(typed@) + seq!['.', 'm', 'd']);
        }
    }
    string_of(&name)
}

/// The file name an untitled Document's first save gives it: the first
/// non-empty line without its heading hashes, list or quote marker and
/// inline Markup, white space collapsed, cut to [`TITLE_CHARS`]; then
/// [`named`] makes a file name of what is left.
pub fn first_save_name(text: &str) -> (name: String)
    ensures
        name@ == named_of(derived_title(text@)),
{
    let title = derive_title(text);
    let mut name = safe(&title);
    if !is_listed(&name) {
        name.push('.');
        name.push('m');
        name.push('d');
        proof {
            assert(name@ =~= safe_name(derived_title(text@)) + seq!['.', 'm', 'd']);
        }
    }
    string_of(&name)
}

/// One line of a [`diff`], as the app renders it.
#[derive(Clone, Debug, PartialEq, Eq)]
pub enum Line {
    /// A line both texts have.
    Same(String),
    /// A line the first text has and the second does not.
    Removed(String),
    /// A line the second text has and the first does not.
    Added(String),
}

/// A [`Line`] as the contracts read it.
pub enum Change {
    /// A line both texts have.
    Same(Seq<char>),
    /// A line only the first text has.
    Removed(Seq<char>),
    /// A line only the second text has.
    Added(Seq<char>),
}

/// What `line` says, as the contracts read it.
pub open spec fn change_of(line: Line) -> Change {
    match line {
        Line::Same(text) => Change::Same(text@),
        Line::Removed(text) => Change::Removed(text@),
        Line::Added(text) => Change::Added(text@),
    }
}

/// The length of a longest common subsequence of `old` from `i` on and
/// `new` from `j` on.
pub open spec fn lcs(old: Seq<Seq<char>>, new: Seq<Seq<char>>, i: int, j: int) -> nat
    decreases old.len() - i + new.len() - j,
{
    if i < 0 || j < 0 || i >= old.len() || j >= new.len() {
        0
    } else if old[i] == new[j] {
        1 + lcs(old, new, i + 1, j + 1)
    } else {
        let down = lcs(old, new, i + 1, j);
        let right = lcs(old, new, i, j + 1);
        if down >= right {
            down
        } else {
            right
        }
    }
}

/// `lines`, each as one kind of change.
pub open spec fn all_removed(lines: Seq<Seq<char>>) -> Seq<Change> {
    lines.map_values(|l: Seq<char>| Change::Removed(l))
}

/// `lines`, each as one kind of change.
pub open spec fn all_added(lines: Seq<Seq<char>>) -> Seq<Change> {
    lines.map_values(|l: Seq<char>| Change::Added(l))
}

/// `lines`, each as one kind of change.
pub open spec fn all_same(lines: Seq<Seq<char>>) -> Seq<Change> {
    lines.map_values(|l: Seq<char>| Change::Same(l))
}

/// The changes from `old` to `new`, walked from `i` and `j` along a longest
/// common subsequence: a shared line is the same, and at a difference the
/// old line goes first unless keeping it would lose a longer common run;
/// when one text runs out, the rest of the other follows.
pub open spec fn walk(old: Seq<Seq<char>>, new: Seq<Seq<char>>, i: int, j: int) -> Seq<Change>
    decreases old.len() - i + new.len() - j,
{
    if 0 <= i < old.len() && 0 <= j < new.len() {
        if old[i] == new[j] {
            seq![Change::Same(old[i])] + walk(old, new, i + 1, j + 1)
        } else if lcs(old, new, i + 1, j) >= lcs(old, new, i, j + 1) {
            seq![Change::Removed(old[i])] + walk(old, new, i + 1, j)
        } else {
            seq![Change::Added(new[j])] + walk(old, new, i, j + 1)
        }
    } else {
        all_removed(old.skip(i)) + all_added(new.skip(j))
    }
}

/// How many leading lines `old` and `new` share, counting from `k`.
pub open spec fn head_from(old: Seq<Seq<char>>, new: Seq<Seq<char>>, k: int) -> int
    decreases old.len() - k,
{
    if 0 <= k < old.len() && k < new.len() && old[k] == new[k] {
        head_from(old, new, k + 1)
    } else {
        k
    }
}

/// How many trailing lines `old` and `new` share below their first `h`,
/// counting from `k`.
pub open spec fn tail_from(old: Seq<Seq<char>>, new: Seq<Seq<char>>, h: int, k: int) -> int
    decreases old.len() - k,
{
    if 0 <= h && 0 <= k && k < old.len() - h && k < new.len() - h && old[old.len() - 1 - k] == new[new.len() - 1 - k] {
        tail_from(old, new, h, k + 1)
    } else {
        k
    }
}

/// The lines of `after` against `before`, in order: the shared head and
/// tail the same, and between them the [`walk`] of what is left.
pub open spec fn diff_of(before: Seq<char>, after: Seq<char>) -> Seq<Change> {
    let old = lines_of(before);
    let new = lines_of(after);
    let h = head_from(old, new, 0);
    let t = tail_from(old, new, h, 0);
    all_same(old.take(h)) + walk(old.subrange(h, old.len() - t), new.subrange(h, new.len() - t), 0, 0)
        + all_same(old.skip(old.len() - t))
}

/// Whether `a` and `b` hold the same characters.
fn same_chars(a: &Vec<char>, b: &Vec<char>) -> (yes: bool)
    ensures
        yes == (a@ == b@),
{
    if a.len() != b.len() {
        return false;
    }
    let mut k: usize = 0;
    while k < a.len()
        invariant
            0 <= k <= a@.len(),
            a@.len() == b@.len(),
            forall|j: int| 0 <= j < k ==> a@[j] == b@[j],
        decreases a.len() - k,
    {
        if a[k] != b[k] {
            return false;
        }
        k = k + 1;
    }
    proof {
        assert(a@ =~= b@);
    }
    true
}

proof fn lemma_lcs_bound(old: Seq<Seq<char>>, new: Seq<Seq<char>>, i: int, j: int)
    requires
        0 <= i <= old.len(),
        0 <= j <= new.len(),
    ensures
        lcs(old, new, i, j) <= old.len() - i,
    decreases old.len() - i + new.len() - j,
{
    if i < old.len() && j < new.len() {
        lemma_lcs_bound(old, new, i + 1, j + 1);
        lemma_lcs_bound(old, new, i + 1, j);
        lemma_lcs_bound(old, new, i, j + 1);
    }
}

/// The views of `lines`, as the contracts read them.
pub open spec fn changes(lines: Seq<Line>) -> Seq<Change> {
    lines.map_values(|l: Line| change_of(l))
}

/// The table of [`lcs`] over `old[h..h + on]` and `new[h..h + nn]`: its row
/// `k` holds, for each `j`, the length from line `on - k` and `j` on.
fn lcs_table(old: &Vec<Vec<char>>, new: &Vec<Vec<char>>, h: usize, on: usize, nn: usize) -> (table: Vec<Vec<usize>>)
    requires
        h + on <= old@.len(),
        h + nn <= new@.len(),
    ensures
        table@.len() == on + 1,
        forall|k: int| 0 <= k <= on ==> (#[trigger] table@[k])@.len() == nn + 1,
        forall|k: int, j: int|
            0 <= k <= on && 0 <= j <= nn ==> #[trigger] table@[k]@[j] == lcs(
                views(old@).subrange(h as int, h + on),
                views(new@).subrange(h as int, h + nn),
                on - k,
                j,
            ),
{
    let ghost mo = views(old@).subrange(h as int, h + on);
    let ghost mn = views(new@).subrange(h as int, h + nn);
    let olen = old.len();
    let nlen = new.len();
    let mut table: Vec<Vec<usize>> = Vec::new();
    let mut zeros: Vec<usize> = Vec::new();
    while zeros.len() <= nn
        invariant
            zeros@.len() <= nn + 1,
            forall|j: int| 0 <= j < zeros@.len() ==> zeros@[j] == 0,
        decreases nn + 1 - zeros.len(),
    {
        zeros.push(0);
    }
    proof {
        assert forall|j: int| 0 <= j <= nn implies zeros@[j] == lcs(mo, mn, on as int, j) by {}
    }
    table.push(zeros);
    let mut i: usize = on;
    while i > 0
        invariant
            0 <= i <= on,
            h + on <= old@.len(),
            h + nn <= new@.len(),
            olen == old@.len(),
            nlen == new@.len(),
            mo == views(old@).subrange(h as int, h + on),
            mn == views(new@).subrange(h as int, h + nn),
            table@.len() == on - i + 1,
            forall|k: int| 0 <= k < table@.len() ==> (#[trigger] table@[k])@.len() == nn + 1,
            forall|k: int, j: int|
                0 <= k < table@.len() && 0 <= j <= nn ==> #[trigger] table@[k]@[j] == lcs(mo, mn, on - k, j),
        decreases i,
    {
        let row_at = i - 1;
        let below = table.len() - 1;
        let mut row: Vec<usize> = Vec::new();
        while row.len() <= nn
            invariant
                row@.len() <= nn + 1,
                forall|jj: int| 0 <= jj < row@.len() ==> row@[jj] == 0,
            decreases nn + 1 - row.len(),
        {
            row.push(0);
        }
        proof {
            assert(lcs(mo, mn, row_at as int, nn as int) == 0);
        }
        let mut j: usize = nn;
        while j > 0
            invariant
                0 <= j <= nn,
                row_at < on,
                h + on <= old@.len(),
                h + nn <= new@.len(),
                olen == old@.len(),
                nlen == new@.len(),
                mo == views(old@).subrange(h as int, h + on),
                mn == views(new@).subrange(h as int, h + nn),
                below == table@.len() - 1,
                on - below == row_at + 1,
                row@.len() == nn + 1,
                table@[below as int]@.len() == nn + 1,
                forall|jj: int| 0 <= jj <= nn ==> (#[trigger] table@[below as int]@[jj]) == lcs(mo, mn, row_at + 1, jj),
                forall|jj: int| j <= jj <= nn ==> (#[trigger] row@[jj]) == lcs(mo, mn, row_at as int, jj),
            decreases j,
        {
            let col = j - 1;
            proof {
                lemma_lcs_bound(mo, mn, row_at + 1, col + 1);
                lemma_lcs_bound(mo, mn, row_at as int, col as int);
                assert(mo[row_at as int] == old@[h + row_at]@);
                assert(mn[col as int] == new@[h + col]@);
            }
            let value = if same_chars(&old[h + row_at], &new[h + col]) {
                table[below][col + 1] + 1
            } else {
                let down = table[below][col];
                let right = row[col + 1];
                if down >= right {
                    down
                } else {
                    right
                }
            };
            row.set(col, value);
            j = col;
        }
        table.push(row);
        i = row_at;
    }
    table
}

/// The lines of `after` against `before`, in order, for the app to render.
///
/// A conflict is nearly always a few lines in a long file, so the common head
/// and tail are matched off first and the longest common subsequence is found
/// over what is left: two texts that differ in one line cost their length in
/// comparisons rather than its square.
pub fn diff(before: &str, after: &str) -> (lines: Vec<Line>)
    ensures
        changes(lines@) == diff_of(before@, after@),
{
    let old = lines(before);
    let new = lines(after);
    let ghost o = views(old@);
    let ghost w = views(new@);
    let n = old.len();
    let m = new.len();
    let mut h: usize = 0;
    while h < n && h < m && same_chars(&old[h], &new[h])
        invariant
            0 <= h <= n,
            h <= m,
            n == o.len(),
            m == w.len(),
            o == views(old@),
            w == views(new@),
            head_from(o, w, 0) == head_from(o, w, h as int),
            forall|k: int| 0 <= k < h ==> o[k] == w[k],
        decreases n - h,
    {
        h = h + 1;
    }
    let mut t: usize = 0;
    while t < n - h && t < m - h && same_chars(&old[n - 1 - t], &new[m - 1 - t])
        invariant
            0 <= t <= n - h,
            t <= m - h,
            h <= n,
            h <= m,
            n == o.len(),
            m == w.len(),
            o == views(old@),
            w == views(new@),
            tail_from(o, w, h as int, 0) == tail_from(o, w, h as int, t as int),
        decreases n - t,
    {
        t = t + 1;
    }
    proof {
        assert(head_from(o, w, 0) == h);
        assert(tail_from(o, w, h as int, 0) == t);
    }
    let on = n - t - h;
    let nn = m - t - h;
    let ghost mo = o.subrange(h as int, h + on);
    let ghost mn = w.subrange(h as int, h + nn);
    let table = lcs_table(&old, &new, h, on, nn);
    let mut out: Vec<Line> = Vec::new();
    let mut k: usize = 0;
    while k < h
        invariant
            0 <= k <= h <= n,
            n == o.len(),
            o == views(old@),
            changes(out@) == all_same(o.take(k as int)),
        decreases h - k,
    {
        let ghost before_out = out@;
        out.push(Line::Same(string_of(&old[k])));
        proof {
            assert(changes(out@) =~= changes(before_out).push(Change::Same(o[k as int])));
            assert(all_same(o.take(k + 1)) =~= all_same(o.take(k as int)).push(Change::Same(o[k as int])));
        }
        k = k + 1;
    }
    let ghost head_part = changes(out@);
    let mut one: usize = 0;
    let mut two: usize = 0;
    let ghost mut done: Seq<Change> = seq![];
    proof {
        assert(done + walk(mo, mn, 0, 0) =~= walk(mo, mn, 0, 0));
        assert(changes(out@) =~= head_part + done);
    }
    while one < on && two < nn
        invariant
            0 <= one <= on,
            0 <= two <= nn,
            h + on <= n,
            h + nn <= m,
            n == o.len(),
            m == w.len(),
            o == views(old@),
            w == views(new@),
            mo == o.subrange(h as int, h + on),
            mn == w.subrange(h as int, h + nn),
            table@.len() == on + 1,
            forall|r: int| 0 <= r <= on ==> (#[trigger] table@[r])@.len() == nn + 1,
            forall|r: int, j: int|
                0 <= r <= on && 0 <= j <= nn ==> #[trigger] table@[r]@[j] == lcs(mo, mn, on - r, j),
            changes(out@) == head_part + done,
            done + walk(mo, mn, one as int, two as int) == walk(mo, mn, 0, 0),
        decreases on - one + nn - two,
    {
        let ghost before_out = out@;
        proof {
            assert(mo[one as int] == old@[h + one]@);
            assert(mn[two as int] == new@[h + two]@);
        }
        if same_chars(&old[h + one], &new[h + two]) {
            out.push(Line::Same(string_of(&old[h + one])));
            proof {
                let c = Change::Same(mo[one as int]);
                assert(changes(out@) =~= changes(before_out).push(c));
                assert(done.push(c) + walk(mo, mn, one + 1, two + 1) =~= done + (seq![c] + walk(mo, mn, one + 1, two + 1)));
                done = done.push(c);
                assert(changes(out@) =~= head_part + done);
            }
            one = one + 1;
            two = two + 1;
        } else if table[on - one - 1][two] >= table[on - one][two + 1] {
            out.push(Line::Removed(string_of(&old[h + one])));
            proof {
                let c = Change::Removed(mo[one as int]);
                assert(changes(out@) =~= changes(before_out).push(c));
                assert(done.push(c) + walk(mo, mn, one + 1, two as int) =~= done + (seq![c] + walk(mo, mn, one + 1, two as int)));
                done = done.push(c);
                assert(changes(out@) =~= head_part + done);
            }
            one = one + 1;
        } else {
            out.push(Line::Added(string_of(&new[h + two])));
            proof {
                let c = Change::Added(mn[two as int]);
                assert(changes(out@) =~= changes(before_out).push(c));
                assert(done.push(c) + walk(mo, mn, one as int, two + 1) =~= done + (seq![c] + walk(mo, mn, one as int, two + 1)));
                done = done.push(c);
                assert(changes(out@) =~= head_part + done);
            }
            two = two + 1;
        }
    }
    let ghost walked = done;
    let mut r: usize = one;
    while r < on
        invariant
            one <= r <= on,
            h + on <= n,
            n == o.len(),
            o == views(old@),
            mo == o.subrange(h as int, h + on),
            changes(out@) == head_part + walked + all_removed(mo.subrange(one as int, r as int)),
        decreases on - r,
    {
        let ghost before_out = out@;
        out.push(Line::Removed(string_of(&old[h + r])));
        proof {
            assert(mo[r as int] == old@[h + r]@);
            assert(changes(out@) =~= changes(before_out).push(Change::Removed(mo[r as int])));
            assert(all_removed(mo.subrange(one as int, r + 1)) =~= all_removed(mo.subrange(one as int, r as int)).push(
                Change::Removed(mo[r as int]),
            ));
        }
        r = r + 1;
    }
    let ghost removed_part = changes(out@);
    let mut a: usize = two;
    while a < nn
        invariant
            two <= a <= nn,
            h + nn <= m,
            m == w.len(),
            w == views(new@),
            mn == w.subrange(h as int, h + nn),
            changes(out@) == removed_part + all_added(mn.subrange(two as int, a as int)),
        decreases nn - a,
    {
        let ghost before_out = out@;
        out.push(Line::Added(string_of(&new[h + a])));
        proof {
            assert(mn[a as int] == new@[h + a]@);
            assert(changes(out@) =~= changes(before_out).push(Change::Added(mn[a as int])));
            assert(all_added(mn.subrange(two as int, a + 1)) =~= all_added(mn.subrange(two as int, a as int)).push(
                Change::Added(mn[a as int]),
            ));
        }
        a = a + 1;
    }
    proof {
        assert(mo.subrange(one as int, on as int) =~= mo.skip(one as int));
        assert(mn.subrange(two as int, nn as int) =~= mn.skip(two as int));
        assert(walk(mo, mn, one as int, two as int) == all_removed(mo.skip(one as int)) + all_added(mn.skip(two as int)));
        assert(changes(out@) =~= head_part + (walked + walk(mo, mn, one as int, two as int)));
        assert(changes(out@) =~= head_part + walk(mo, mn, 0, 0));
    }
    let ghost middle_part = changes(out@);
    let mut e: usize = n - t;
    while e < n
        invariant
            t <= n,
            n - t <= e <= n,
            n == o.len(),
            o == views(old@),
            changes(out@) == middle_part + all_same(o.subrange(n - t, e as int)),
        decreases n - e,
    {
        let ghost before_out = out@;
        out.push(Line::Same(string_of(&old[e])));
        proof {
            assert(changes(out@) =~= changes(before_out).push(Change::Same(o[e as int])));
            assert(all_same(o.subrange(n - t, e + 1)) =~= all_same(o.subrange(n - t, e as int)).push(
                Change::Same(o[e as int]),
            ));
        }
        e = e + 1;
    }
    proof {
        assert(o.subrange(n - t, n as int) =~= o.skip(n - t));
        assert(o.take(h as int) =~= o.take(h as int));
    }
    out
}

/// The lines of the first text a list of changes holds: its same and its
/// removed lines, in order.
pub open spec fn olds(changes: Seq<Change>) -> Seq<Seq<char>>
    decreases changes.len(),
{
    if changes.len() == 0 {
        seq![]
    } else {
        let rest = olds(changes.drop_last());
        match changes.last() {
            Change::Same(line) => rest.push(line),
            Change::Removed(line) => rest.push(line),
            Change::Added(_) => rest,
        }
    }
}

/// The lines of the second text a list of changes holds: its same and its
/// added lines, in order.
pub open spec fn news(changes: Seq<Change>) -> Seq<Seq<char>>
    decreases changes.len(),
{
    if changes.len() == 0 {
        seq![]
    } else {
        let rest = news(changes.drop_last());
        match changes.last() {
            Change::Same(line) => rest.push(line),
            Change::Added(line) => rest.push(line),
            Change::Removed(_) => rest,
        }
    }
}

proof fn lemma_sides_add(a: Seq<Change>, b: Seq<Change>)
    ensures
        olds(a + b) == olds(a) + olds(b),
        news(a + b) == news(a) + news(b),
    decreases b.len(),
{
    if b.len() == 0 {
        assert(a + b =~= a);
        assert(olds(a) + olds(b) =~= olds(a));
        assert(news(a) + news(b) =~= news(a));
    } else {
        lemma_sides_add(a, b.drop_last());
        assert((a + b).drop_last() =~= a + b.drop_last());
        assert((a + b).last() == b.last());
        assert(olds(a) + olds(b.drop_last()).push(b.last()->Same_0) =~= (olds(a) + olds(b.drop_last())).push(
            b.last()->Same_0,
        ));
        assert(olds(a) + olds(b.drop_last()).push(b.last()->Removed_0) =~= (olds(a) + olds(
            b.drop_last(),
        )).push(b.last()->Removed_0));
        assert(news(a) + news(b.drop_last()).push(b.last()->Same_0) =~= (news(a) + news(b.drop_last())).push(
            b.last()->Same_0,
        ));
        assert(news(a) + news(b.drop_last()).push(b.last()->Added_0) =~= (news(a) + news(
            b.drop_last(),
        )).push(b.last()->Added_0));
    }
}

proof fn lemma_sides_uniform(lines: Seq<Seq<char>>)
    ensures
        olds(all_same(lines)) == lines,
        news(all_same(lines)) == lines,
        olds(all_removed(lines)) == lines,
        news(all_removed(lines)) == Seq::<Seq<char>>::empty(),
        olds(all_added(lines)) == Seq::<Seq<char>>::empty(),
        news(all_added(lines)) == lines,
    decreases lines.len(),
{
    if lines.len() > 0 {
        let shorter = lines.drop_last();
        lemma_sides_uniform(shorter);
        assert(all_same(lines).drop_last() =~= all_same(shorter));
        assert(all_removed(lines).drop_last() =~= all_removed(shorter));
        assert(all_added(lines).drop_last() =~= all_added(shorter));
        assert(shorter.push(lines.last()) =~= lines);
    } else {
        assert(all_same(lines) =~= seq![]);
        assert(all_removed(lines) =~= seq![]);
        assert(all_added(lines) =~= seq![]);
        assert(lines =~= seq![]);
    }
}

proof fn lemma_sides_one(c: Change)
    ensures
        olds(seq![c]) == match c {
            Change::Same(l) => seq![l],
            Change::Removed(l) => seq![l],
            Change::Added(_) => Seq::<Seq<char>>::empty(),
        },
        news(seq![c]) == match c {
            Change::Same(l) => seq![l],
            Change::Added(l) => seq![l],
            Change::Removed(_) => Seq::<Seq<char>>::empty(),
        },
{
    let one = seq![c];
    assert(one.drop_last() =~= seq![]);
    assert(one.last() == c);
    assert(olds(one.drop_last()) =~= Seq::<Seq<char>>::empty());
    assert(news(one.drop_last()) =~= Seq::<Seq<char>>::empty());
    match c {
        Change::Same(l) => {
            assert(Seq::<Seq<char>>::empty().push(l) =~= seq![l]);
        },
        Change::Removed(l) => {
            assert(Seq::<Seq<char>>::empty().push(l) =~= seq![l]);
        },
        Change::Added(l) => {
            assert(Seq::<Seq<char>>::empty().push(l) =~= seq![l]);
        },
    }
}

proof fn lemma_walk_sides(old: Seq<Seq<char>>, new: Seq<Seq<char>>, i: int, j: int)
    requires
        0 <= i <= old.len(),
        0 <= j <= new.len(),
    ensures
        olds(walk(old, new, i, j)) == old.skip(i),
        news(walk(old, new, i, j)) == new.skip(j),
    decreases old.len() - i + new.len() - j,
{
    if i < old.len() && j < new.len() {
        if old[i] == new[j] {
            let c = Change::Same(old[i]);
            lemma_walk_sides(old, new, i + 1, j + 1);
            lemma_sides_add(seq![c], walk(old, new, i + 1, j + 1));
            lemma_sides_one(c);
            assert(olds(seq![c]) =~= seq![old[i]]) by {
                assert(seq![c].drop_last() =~= seq![]);
            }
            assert(news(seq![c]) =~= seq![new[j]]) by {
                assert(seq![c].drop_last() =~= seq![]);
            }
            assert(seq![old[i]] + old.skip(i + 1) =~= old.skip(i));
            assert(seq![new[j]] + new.skip(j + 1) =~= new.skip(j));
        } else if lcs(old, new, i + 1, j) >= lcs(old, new, i, j + 1) {
            let c = Change::Removed(old[i]);
            lemma_walk_sides(old, new, i + 1, j);
            lemma_sides_add(seq![c], walk(old, new, i + 1, j));
            lemma_sides_one(c);
            assert(olds(seq![c]) =~= seq![old[i]]) by {
                assert(seq![c].drop_last() =~= seq![]);
            }
            assert(seq![old[i]] + old.skip(i + 1) =~= old.skip(i));
            assert(Seq::<Seq<char>>::empty() + new.skip(j) =~= new.skip(j));
        } else {
            let c = Change::Added(new[j]);
            lemma_walk_sides(old, new, i, j + 1);
            lemma_sides_add(seq![c], walk(old, new, i, j + 1));
            lemma_sides_one(c);
            assert(news(seq![c]) =~= seq![new[j]]) by {
                assert(seq![c].drop_last() =~= seq![]);
            }
            assert(seq![new[j]] + new.skip(j + 1) =~= new.skip(j));
            assert(Seq::<Seq<char>>::empty() + old.skip(i) =~= old.skip(i));
        }
    } else {
        lemma_sides_add(all_removed(old.skip(i)), all_added(new.skip(j)));
        lemma_sides_uniform(old.skip(i));
        lemma_sides_uniform(new.skip(j));
        assert(old.skip(i) + Seq::<Seq<char>>::empty() =~= old.skip(i));
        assert(Seq::<Seq<char>>::empty() + new.skip(j) =~= new.skip(j));
    }
}

proof fn lemma_head(old: Seq<Seq<char>>, new: Seq<Seq<char>>, k: int)
    requires
        0 <= k <= old.len(),
        k <= new.len(),
        forall|j: int| 0 <= j < k ==> old[j] == new[j],
    ensures
        k <= head_from(old, new, k) <= old.len(),
        head_from(old, new, k) <= new.len(),
        forall|j: int| 0 <= j < head_from(old, new, k) ==> old[j] == new[j],
    decreases old.len() - k,
{
    if k < old.len() && k < new.len() && old[k] == new[k] {
        lemma_head(old, new, k + 1);
    }
}

/// Whether `old` and `new` agree on their line `j` from the end.
pub open spec fn back_same(old: Seq<Seq<char>>, new: Seq<Seq<char>>, j: int) -> bool {
    old[old.len() - 1 - j] == new[new.len() - 1 - j]
}

proof fn lemma_tail(old: Seq<Seq<char>>, new: Seq<Seq<char>>, h: int, k: int)
    requires
        0 <= h <= old.len(),
        h <= new.len(),
        0 <= k <= old.len() - h,
        k <= new.len() - h,
        forall|j: int| 0 <= j < k ==> #[trigger] back_same(old, new, j),
    ensures
        k <= tail_from(old, new, h, k) <= old.len() - h,
        tail_from(old, new, h, k) <= new.len() - h,
        forall|j: int| 0 <= j < tail_from(old, new, h, k) ==> #[trigger] back_same(old, new, j),
    decreases old.len() - k,
{
    if k < old.len() - h && k < new.len() - h && old[old.len() - 1 - k] == new[new.len() - 1 - k] {
        lemma_tail(old, new, h, k + 1);
    }
}

/// A diff lists every line of both texts, each in its order: its same and
/// removed lines are the first text's lines, and its same and added lines
/// are the second's.
pub proof fn lemma_diff_keeps_both_texts(before: Seq<char>, after: Seq<char>)
    ensures
        olds(diff_of(before, after)) == lines_of(before),
        news(diff_of(before, after)) == lines_of(after),
{
    let old = lines_of(before);
    let new = lines_of(after);
    lemma_head(old, new, 0);
    let h = head_from(old, new, 0);
    lemma_tail(old, new, h, 0);
    let t = tail_from(old, new, h, 0);
    let mo = old.subrange(h, old.len() - t);
    let mn = new.subrange(h, new.len() - t);
    let front = all_same(old.take(h));
    let middle = walk(mo, mn, 0, 0);
    let back = all_same(old.skip(old.len() - t));
    lemma_sides_add(front, middle);
    lemma_sides_add(front + middle, back);
    lemma_sides_uniform(old.take(h));
    lemma_sides_uniform(old.skip(old.len() - t));
    lemma_walk_sides(mo, mn, 0, 0);
    assert(mo.skip(0) =~= mo);
    assert(mn.skip(0) =~= mn);
    assert(old.take(h) + mo + old.skip(old.len() - t) =~= old);
    assert(old.take(h) =~= new.take(h));
    assert(old.skip(old.len() - t) =~= new.skip(new.len() - t)) by {
        assert forall|j: int| 0 <= j < t implies #[trigger] old.skip(old.len() - t)[j] == new.skip(new.len() - t)[j] by {
            let back_at = t - 1 - j;
            assert(back_same(old, new, back_at));
        }
    }
    assert(new.take(h) + mn + new.skip(new.len() - t) =~= new);
}

proof fn lemma_kept_nameable(s: Seq<char>)
    ensures
        forall|k: int| 0 <= k < nameable_only(s).len() ==> nameable(#[trigger] nameable_only(s)[k]),
    decreases s.len(),
{
    if s.len() > 0 {
        lemma_kept_nameable(s.drop_last());
        assert forall|k: int| 0 <= k < nameable_only(s).len() implies nameable(#[trigger] nameable_only(s)[k]) by {
            if k < nameable_only(s.drop_last()).len() {
                assert(nameable_only(s)[k] == nameable_only(s.drop_last())[k]);
            }
        }
    }
}

proof fn lemma_undotted_within(s: Seq<char>)
    ensures
        forall|k: int| 0 <= k < undotted(s).len() ==> exists|j: int| 0 <= j < s.len() && #[trigger] undotted(s)[k] == s[j],
    decreases s.len(),
{
    if s.len() > 0 && (s[0] == '.' || is_white(s[0])) {
        lemma_undotted_within(s.drop_first());
        assert forall|k: int| 0 <= k < undotted(s).len() implies exists|j: int| 0 <= j < s.len() && #[trigger] undotted(s)[k] == s[j] by {
            let j = choose|j: int| 0 <= j < s.drop_first().len() && undotted(s.drop_first())[k] == s.drop_first()[j];
            assert(s[j + 1] == s.drop_first()[j]);
        }
    } else {
        assert forall|k: int| 0 <= k < undotted(s).len() implies exists|j: int| 0 <= j < s.len() && #[trigger] undotted(s)[k] == s[j] by {
            assert(undotted(s)[k] == s[k]);
        }
    }
}

proof fn lemma_trimmed_within(s: Seq<char>)
    ensures
        forall|k: int| 0 <= k < trimmed(s).len() ==> exists|j: int| 0 <= j < s.len() && #[trigger] trimmed(s)[k] == s[j],
{
    lemma_trim_start_within(s);
    lemma_trim_end_within(trim_start(s));
    assert forall|k: int| 0 <= k < trimmed(s).len() implies exists|j: int| 0 <= j < s.len() && #[trigger] trimmed(s)[k] == s[j] by {
        let t = trim_start(s);
        let m = choose|m: int| 0 <= m < t.len() && trim_end(t)[k] == t[m];
        let j = choose|j: int| 0 <= j < s.len() && t[m] == s[j];
        assert(trimmed(s)[k] == s[j]);
    }
}

proof fn lemma_trim_start_within(s: Seq<char>)
    ensures
        forall|k: int| 0 <= k < trim_start(s).len() ==> exists|j: int| 0 <= j < s.len() && #[trigger] trim_start(s)[k] == s[j],
    decreases s.len(),
{
    if s.len() > 0 && is_white(s[0]) {
        lemma_trim_start_within(s.drop_first());
        assert forall|k: int| 0 <= k < trim_start(s).len() implies exists|j: int| 0 <= j < s.len() && #[trigger] trim_start(s)[k] == s[j] by {
            let j = choose|j: int| 0 <= j < s.drop_first().len() && trim_start(s.drop_first())[k] == s.drop_first()[j];
            assert(s[j + 1] == s.drop_first()[j]);
        }
    } else {
        assert forall|k: int| 0 <= k < trim_start(s).len() implies exists|j: int| 0 <= j < s.len() && #[trigger] trim_start(s)[k] == s[j] by {
            assert(trim_start(s)[k] == s[k]);
        }
    }
}

proof fn lemma_trim_end_within(s: Seq<char>)
    ensures
        forall|k: int| 0 <= k < trim_end(s).len() ==> exists|j: int| 0 <= j < s.len() && #[trigger] trim_end(s)[k] == s[j],
    decreases s.len(),
{
    if s.len() > 0 && is_white(s.last()) {
        lemma_trim_end_within(s.drop_last());
        assert forall|k: int| 0 <= k < trim_end(s).len() implies exists|j: int| 0 <= j < s.len() && #[trigger] trim_end(s)[k] == s[j] by {
            let j = choose|j: int| 0 <= j < s.drop_last().len() && trim_end(s.drop_last())[k] == s.drop_last()[j];
            assert(s[j] == s.drop_last()[j]);
        }
    } else {
        assert forall|k: int| 0 <= k < trim_end(s).len() implies exists|j: int| 0 <= j < s.len() && #[trigger] trim_end(s)[k] == s[j] by {
            assert(trim_end(s)[k] == s[k]);
        }
    }
}

/// A name never holds a character a file name may not: whatever was typed,
/// every character of the name it makes may stand in a file name.
pub proof fn lemma_a_name_holds_only_what_a_file_name_may(typed: Seq<char>)
    ensures
        forall|k: int| 0 <= k < named_of(typed).len() ==> nameable(#[trigger] named_of(typed)[k]),
{
    let k0 = nameable_only(typed);
    lemma_kept_nameable(typed);
    lemma_undotted_within(k0);
    lemma_trimmed_within(undotted(k0));
    let name = trimmed(undotted(k0));
    assert forall|k: int| 0 <= k < safe_name(typed).len() implies nameable(#[trigger] safe_name(typed)[k]) by {
        if name.len() == 0 {
            reveal_strlit("Untitled");
        } else {
            let m = choose|m: int| 0 <= m < undotted(k0).len() && name[k] == undotted(k0)[m];
            let j = choose|j: int| 0 <= j < k0.len() && undotted(k0)[m] == k0[j];
            assert(nameable(k0[j]));
        }
    }
    assert forall|k: int| 0 <= k < named_of(typed).len() implies nameable(#[trigger] named_of(typed)[k]) by {
        if k < safe_name(typed).len() {
            assert(named_of(typed)[k] == safe_name(typed)[k]);
        }
    }
}

proof fn lemma_kept_from(s: Seq<char>, keep: spec_fn(char) -> bool)
    ensures
        forall|k: int|
            0 <= k < kept(s, keep).len() ==> keep(#[trigger] kept(s, keep)[k]) && exists|j: int|
                0 <= j < s.len() && kept(s, keep)[k] == s[j],
    decreases s.len(),
{
    if s.len() > 0 {
        let rest = s.drop_last();
        lemma_kept_from(rest, keep);
        assert forall|k: int| 0 <= k < kept(s, keep).len() implies keep(#[trigger] kept(s, keep)[k]) && exists|j: int|
            0 <= j < s.len() && kept(s, keep)[k] == s[j] by {
            if k < kept(rest, keep).len() {
                assert(kept(s, keep)[k] == kept(rest, keep)[k]);
                let j = choose|j: int| 0 <= j < rest.len() && kept(rest, keep)[k] == rest[j];
                assert(rest[j] == s[j]);
            } else {
                assert(kept(s, keep)[k] == s[s.len() - 1]);
            }
        }
    }
}

proof fn lemma_squeezed_from(s: Seq<char>)
    ensures
        forall|k: int|
            0 <= k < squeezed(s).len() ==> #[trigger] squeezed(s)[k] == ' ' || exists|j: int|
                0 <= j < s.len() && squeezed(s)[k] == s[j],
    decreases s.len(),
{
    if s.len() > 0 {
        let rest = s.drop_last();
        lemma_squeezed_from(rest);
        assert forall|k: int| 0 <= k < squeezed(s).len() implies #[trigger] squeezed(s)[k] == ' ' || exists|j: int|
            0 <= j < s.len() && squeezed(s)[k] == s[j] by {
            if k < squeezed(rest).len() {
                assert(squeezed(s)[k] == squeezed(rest)[k]);
                if squeezed(rest)[k] != ' ' {
                    let j = choose|j: int| 0 <= j < rest.len() && squeezed(rest)[k] == rest[j];
                    assert(rest[j] == s[j]);
                }
            } else if !is_white(s.last()) {
                assert(squeezed(s)[k] == s[s.len() - 1]);
            }
        }
    }
}

/// A title derived from a text holds no inline Markup: none of `*`, `_`,
/// `` ` ``, `~`, `[` or `]` survives into it.
pub proof fn lemma_a_derived_title_has_no_markup(text: Seq<char>)
    ensures
        forall|i: int|
            0 <= i < derived_title(text).len() ==> !(#[trigger] derived_title(text)[i] == '*' || derived_title(text)[i]
                == '_' || derived_title(text)[i] == '`' || derived_title(text)[i] == '~' || derived_title(text)[i]
                == '[' || derived_title(text)[i] == ']'),
{
    match first_filled(lines_of(text)) {
        None => {},
        Some(line) => {
            let keep = |c: char| !is_markup(c);
            let plain = strip_marker(unheaded(line));
            let bare = kept(plain, keep);
            let spaced = squeezed(bare);
            let collapsed = trimmed(spaced);
            lemma_kept_from(plain, keep);
            lemma_squeezed_from(bare);
            lemma_trimmed_within(spaced);
            assert forall|i: int| 0 <= i < collapsed.len() implies !is_markup(#[trigger] collapsed[i]) by {
                let j = choose|j: int| 0 <= j < spaced.len() && collapsed[i] == spaced[j];
                if spaced[j] != ' ' {
                    let m = choose|m: int| 0 <= m < bare.len() && spaced[j] == bare[m];
                    assert(keep(bare[m]));
                }
            }
            assert forall|i: int| 0 <= i < derived_title(text).len() implies !is_markup(
                #[trigger] derived_title(text)[i],
            ) by {
                assert(derived_title(text)[i] == collapsed[i]);
            }
        },
    }
}

/// The file name a first save gives an untitled text holds no inline Markup
/// either: none of `*`, `_`, `` ` ``, `~`, `[` or `]` stands in it.
pub proof fn lemma_a_first_save_name_has_no_markup(text: Seq<char>)
    ensures
        forall|i: int|
            0 <= i < named_of(derived_title(text)).len() ==> !(#[trigger] named_of(derived_title(text))[i] == '*'
                || named_of(derived_title(text))[i] == '_' || named_of(derived_title(text))[i] == '`'
                || named_of(derived_title(text))[i] == '~' || named_of(derived_title(text))[i] == '['
                || named_of(derived_title(text))[i] == ']'),
{
    let title = derived_title(text);
    lemma_a_derived_title_has_no_markup(text);
    let k0 = nameable_only(title);
    lemma_kept_from(title, |c: char| nameable(c));
    lemma_undotted_within(k0);
    lemma_trimmed_within(undotted(k0));
    let name = trimmed(undotted(k0));
    reveal_strlit("Untitled");
    assert forall|i: int| 0 <= i < named_of(title).len() implies !is_markup(#[trigger] named_of(title)[i]) by {
        if i < safe_name(title).len() {
            assert(named_of(title)[i] == safe_name(title)[i]);
            if name.len() > 0 {
                let m = choose|m: int| 0 <= m < undotted(k0).len() && name[i] == undotted(k0)[m];
                let j = choose|j: int| 0 <= j < k0.len() && undotted(k0)[m] == k0[j];
                let t = choose|t: int| 0 <= t < title.len() && k0[j] == title[t];
                assert(!is_markup(title[t]));
            }
        }
    }
}


/// How many of `changes` keep a line both texts have.
pub open spec fn same_count(changes: Seq<Change>) -> nat
    decreases changes.len(),
{
    if changes.len() == 0 {
        0
    } else {
        (if changes[0] is Same { 1nat } else { 0nat }) + same_count(changes.drop_first())
    }
}

/// Whether `pairs` pick a common subsequence of `old` from `i` on and `new`
/// from `j` on: each pair a line of `old` and an equal line of `new`, both
/// strictly rising from pair to pair.
pub open spec fn common_from(old: Seq<Seq<char>>, new: Seq<Seq<char>>, pairs: Seq<(int, int)>, i: int, j: int) -> bool {
    &&& forall|k: int|
        0 <= k < pairs.len() ==> i <= (#[trigger] pairs[k]).0 < old.len() && j <= pairs[k].1 < new.len()
            && old[pairs[k].0] == new[pairs[k].1]
    &&& forall|a: int, b: int|
        0 <= a < b < pairs.len() ==> (#[trigger] pairs[a]).0 < (#[trigger] pairs[b]).0 && pairs[a].1 < pairs[b].1
}

proof fn lemma_same_count_add(a: Seq<Change>, b: Seq<Change>)
    ensures
        same_count(a + b) == same_count(a) + same_count(b),
    decreases a.len(),
{
    if a.len() == 0 {
        assert(a + b =~= b);
    } else {
        assert((a + b).drop_first() =~= a.drop_first() + b);
        assert((a + b)[0] == a[0]);
        lemma_same_count_add(a.drop_first(), b);
    }
}

proof fn lemma_same_count_none(a: Seq<Change>)
    requires
        forall|k: int| 0 <= k < a.len() ==> !(#[trigger] a[k] is Same),
    ensures
        same_count(a) == 0,
    decreases a.len(),
{
    if a.len() > 0 {
        assert(!(a[0] is Same));
        assert forall|k: int| 0 <= k < a.drop_first().len() implies !(#[trigger] a.drop_first()[k] is Same) by {
            assert(a.drop_first()[k] == a[k + 1]);
        }
        lemma_same_count_none(a.drop_first());
    }
}

/// The walk from `i` and `j` keeps as many lines as [`lcs`] counts.
proof fn lemma_walk_keeps_lcs(old: Seq<Seq<char>>, new: Seq<Seq<char>>, i: int, j: int)
    requires
        0 <= i <= old.len(),
        0 <= j <= new.len(),
    ensures
        same_count(walk(old, new, i, j)) == lcs(old, new, i, j),
    decreases old.len() - i + new.len() - j,
{
    if i < old.len() && j < new.len() {
        if old[i] == new[j] {
            lemma_walk_keeps_lcs(old, new, i + 1, j + 1);
            lemma_same_count_add(seq![Change::Same(old[i])], walk(old, new, i + 1, j + 1));
            assert(same_count(seq![Change::Same(old[i])]) == 1) by {
                let one = seq![Change::Same(old[i])];
                assert(one.drop_first() =~= Seq::<Change>::empty());
                assert(same_count(Seq::<Change>::empty()) == 0);
                assert(one[0] == Change::Same(old[i]));
            }
        } else if lcs(old, new, i + 1, j) >= lcs(old, new, i, j + 1) {
            lemma_walk_keeps_lcs(old, new, i + 1, j);
            lemma_same_count_add(seq![Change::Removed(old[i])], walk(old, new, i + 1, j));
            assert(same_count(seq![Change::Removed(old[i])]) == 0) by {
                let one = seq![Change::Removed(old[i])];
                assert(one.drop_first() =~= Seq::<Change>::empty());
                assert(same_count(Seq::<Change>::empty()) == 0);
                assert(one[0] == Change::Removed(old[i]));
            }
        } else {
            lemma_walk_keeps_lcs(old, new, i, j + 1);
            lemma_same_count_add(seq![Change::Added(new[j])], walk(old, new, i, j + 1));
            assert(same_count(seq![Change::Added(new[j])]) == 0) by {
                let one = seq![Change::Added(new[j])];
                assert(one.drop_first() =~= Seq::<Change>::empty());
                assert(same_count(Seq::<Change>::empty()) == 0);
                assert(one[0] == Change::Added(new[j]));
            }
        }
    } else {
        let rest = all_removed(old.skip(i)) + all_added(new.skip(j));
        assert forall|k: int| 0 <= k < rest.len() implies !(#[trigger] rest[k] is Same) by {
            if k < all_removed(old.skip(i)).len() {
                assert(rest[k] == all_removed(old.skip(i))[k]);
            } else {
                assert(rest[k] == all_added(new.skip(j))[k - all_removed(old.skip(i)).len()]);
            }
        }
        lemma_same_count_none(rest);
    }
}

/// No common subsequence from `i` and `j` is longer than [`lcs`] counts.
proof fn lemma_lcs_bounds(old: Seq<Seq<char>>, new: Seq<Seq<char>>, pairs: Seq<(int, int)>, i: int, j: int)
    requires
        0 <= i,
        0 <= j,
        common_from(old, new, pairs, i, j),
    ensures
        pairs.len() <= lcs(old, new, i, j),
    decreases old.len() - i + new.len() - j,
{
    if pairs.len() > 0 {
        let (a, b) = pairs[0];
        assert(i <= a < old.len() && j <= b < new.len());
        let rest = pairs.drop_first();
        if old[i] == new[j] {
            assert(common_from(old, new, rest, i + 1, j + 1)) by {
                assert forall|k: int| 0 <= k < rest.len() implies i + 1 <= (#[trigger] rest[k]).0 < old.len() && j + 1
                    <= rest[k].1 < new.len() && old[rest[k].0] == new[rest[k].1] by {
                    assert(rest[k] == pairs[k + 1]);
                    assert(pairs[0].0 < pairs[k + 1].0);
                }
                assert forall|x: int, y: int| 0 <= x < y < rest.len() implies (#[trigger] rest[x]).0 < (#[trigger] rest[y]).0
                    && rest[x].1 < rest[y].1 by {
                    assert(rest[x] == pairs[x + 1]);
                    assert(rest[y] == pairs[y + 1]);
                }
            }
            lemma_lcs_bounds(old, new, rest, i + 1, j + 1);
        } else if a > i {
            assert(common_from(old, new, pairs, i + 1, j)) by {
                assert forall|k: int| 0 <= k < pairs.len() implies i + 1 <= (#[trigger] pairs[k]).0 by {
                    if k > 0 {
                        assert(pairs[0].0 < pairs[k].0);
                    }
                }
            }
            lemma_lcs_bounds(old, new, pairs, i + 1, j);
        } else {
            assert(b > j);
            assert(common_from(old, new, pairs, i, j + 1)) by {
                assert forall|k: int| 0 <= k < pairs.len() implies j + 1 <= (#[trigger] pairs[k]).1 by {
                    if k > 0 {
                        assert(pairs[0].1 < pairs[k].1);
                    }
                }
            }
            lemma_lcs_bounds(old, new, pairs, i, j + 1);
        }
    }
}

/// Between the shared head and tail the diff keeps a longest common
/// subsequence: no choice of lines the two middles have in common, in order,
/// is longer than the lines the diff keeps there.
pub proof fn lemma_the_middle_keeps_a_longest_common_subsequence(
    old: Seq<Seq<char>>,
    new: Seq<Seq<char>>,
    pairs: Seq<(int, int)>,
)
    requires
        common_from(old, new, pairs, 0, 0),
    ensures
        same_count(walk(old, new, 0, 0)) == lcs(old, new, 0, 0),
        pairs.len() <= same_count(walk(old, new, 0, 0)),
{
    lemma_walk_keeps_lcs(old, new, 0, 0);
    lemma_lcs_bounds(old, new, pairs, 0, 0);
}

/// A common run from `i` and `j` is no longer than what is left of either.
proof fn lemma_lcs_at_most_left(old: Seq<Seq<char>>, new: Seq<Seq<char>>, i: int, j: int)
    requires
        0 <= i <= old.len(),
        0 <= j <= new.len(),
    ensures
        lcs(old, new, i, j) <= old.len() - i,
        lcs(old, new, i, j) <= new.len() - j,
    decreases old.len() - i + new.len() - j,
{
    if i < old.len() && j < new.len() {
        lemma_lcs_at_most_left(old, new, i + 1, j + 1);
        lemma_lcs_at_most_left(old, new, i + 1, j);
        lemma_lcs_at_most_left(old, new, i, j + 1);
    }
}

/// Over a shared head, [`lcs`] counts each shared line and then what
/// follows.
proof fn lemma_lcs_over_head(old: Seq<Seq<char>>, new: Seq<Seq<char>>, k: int, h: int)
    requires
        0 <= k <= h <= old.len(),
        h <= new.len(),
        forall|j: int| 0 <= j < h ==> old[j] == new[j],
    ensures
        lcs(old, new, k, k) == (h - k) + lcs(old, new, h, h),
    decreases h - k,
{
    if k < h {
        lemma_lcs_over_head(old, new, k + 1, h);
    }
}

/// Over a shared tail of `t` lines, [`lcs`] counts no more than the middle's
/// and the tail's lines together.
proof fn lemma_lcs_over_tail(
    old: Seq<Seq<char>>,
    new: Seq<Seq<char>>,
    h: int,
    t: int,
    i: int,
    j: int,
)
    requires
        0 <= h,
        0 <= t,
        h + t <= old.len(),
        h + t <= new.len(),
        forall|k: int| 0 <= k < t ==> #[trigger] back_same(old, new, k),
        h <= i <= old.len() - t,
        h <= j <= new.len() - t,
    ensures
        lcs(old, new, i, j) <= lcs(old.subrange(h, old.len() - t), new.subrange(h, new.len() - t), i - h, j - h) + t,
    decreases old.len() - i + new.len() - j,
{
    let mo = old.subrange(h, old.len() - t);
    let mn = new.subrange(h, new.len() - t);
    if i == old.len() - t {
        lemma_lcs_at_most_left(old, new, i, j);
    } else if j == new.len() - t {
        lemma_lcs_at_most_left(old, new, i, j);
    } else {
        assert(mo[i - h] == old[i]);
        assert(mn[j - h] == new[j]);
        lemma_lcs_over_tail(old, new, h, t, i + 1, j + 1);
        lemma_lcs_over_tail(old, new, h, t, i + 1, j);
        lemma_lcs_over_tail(old, new, h, t, i, j + 1);
    }
}

proof fn lemma_same_count_all_same(lines: Seq<Seq<char>>)
    ensures
        same_count(all_same(lines)) == lines.len(),
    decreases lines.len(),
{
    if lines.len() > 0 {
        assert(all_same(lines).drop_first() =~= all_same(lines.drop_first()));
        lemma_same_count_all_same(lines.drop_first());
    }
}

/// The diff keeps a longest common subsequence of the two texts' lines: no
/// choice of lines both texts have, in order, is longer than the lines the
/// diff marks the same.
pub proof fn lemma_diff_keeps_a_longest_common_subsequence(before: Seq<char>, after: Seq<char>, pairs: Seq<(int, int)>)
    requires
        common_from(lines_of(before), lines_of(after), pairs, 0, 0),
    ensures
        pairs.len() <= same_count(diff_of(before, after)),
{
    let old = lines_of(before);
    let new = lines_of(after);
    lemma_head(old, new, 0);
    let h = head_from(old, new, 0);
    lemma_tail(old, new, h, 0);
    let t = tail_from(old, new, h, 0);
    let mo = old.subrange(h, old.len() - t);
    let mn = new.subrange(h, new.len() - t);
    lemma_lcs_bounds(old, new, pairs, 0, 0);
    lemma_lcs_over_head(old, new, 0, h);
    lemma_lcs_over_tail(old, new, h, t, h, h);
    lemma_walk_keeps_lcs(mo, mn, 0, 0);
    lemma_same_count_all_same(old.take(h));
    lemma_same_count_all_same(old.skip(old.len() - t));
    let front = all_same(old.take(h));
    let middle = walk(mo, mn, 0, 0);
    let back = all_same(old.skip(old.len() - t));
    lemma_same_count_add(front, middle);
    lemma_same_count_add(front + middle, back);
}

/// How many suffixed names a collision tries before it gives up.
pub const SUFFIXES: usize = 999;

/// `name` split into its stem and its extension with the dot, where the
/// extension is one the Library lists; everything else is all stem.
pub open spec fn split_extension_of(name: Seq<char>) -> (Seq<char>, Seq<char>) {
    if listed(name) && last_dot(name) >= 0 {
        (name.take(last_dot(name)), name.skip(last_dot(name)))
    } else {
        (name, seq![])
    }
}

/// The decimal digits of `n`.
pub open spec fn decimal_text(n: nat) -> Seq<char>
    decreases n,
{
    if n < 10 {
        seq![(('0' as u32) + n) as char]
    } else {
        decimal_text(n / 10).push((('0' as u32) + n % 10) as char)
    }
}

/// The `nth` name a collision tries: the stem, a space, the number, and the
/// extension.
pub open spec fn suffixed(name: Seq<char>, nth: nat) -> Seq<char> {
    let (stem, extension) = split_extension_of(name);
    stem + seq![' '] + decimal_text(nth) + extension
}

/// Whether `candidate` is taken among `taken`, compared without case.
pub open spec fn is_taken(taken: Seq<Seq<char>>, candidate: Seq<char>) -> bool {
    exists|k: int| 0 <= k < taken.len() && #[trigger] lowercase(taken[k]) == lowercase(candidate)
}

/// The first name from the `nth` on that nothing in `taken` has, up to
/// [`SUFFIXES`]; none where all are taken.
pub open spec fn free_from(taken: Seq<Seq<char>>, name: Seq<char>, nth: nat) -> Option<Seq<char>>
    decreases SUFFIXES + 1 - nth,
{
    if nth > SUFFIXES {
        None
    } else if !is_taken(taken, suffixed(name, nth)) {
        Some(suffixed(name, nth))
    } else {
        free_from(taken, name, nth + 1)
    }
}

/// The name a file called `name` is saved under beside the files called
/// `taken`: `name` itself where nothing has it, compared without case; else
/// the first of `The Lamp 2.md`, `The Lamp 3.md` and on to [`SUFFIXES`] that
/// nothing has; else `name` after all, and the write reports the clash.
pub open spec fn unique_name_of(taken: Seq<Seq<char>>, name: Seq<char>) -> Seq<char> {
    if !is_taken(taken, name) {
        name
    } else {
        match free_from(taken, name, 2) {
            Some(found) => found,
            None => name,
        }
    }
}

/// The digit `d` is written as.
fn digit_of(d: usize) -> (c: char)
    requires
        d < 10,
    ensures
        c == (('0' as u32) + d) as char,
{
    match d {
        0 => '0',
        1 => '1',
        2 => '2',
        3 => '3',
        4 => '4',
        5 => '5',
        6 => '6',
        7 => '7',
        8 => '8',
        _ => '9',
    }
}

/// The decimal digits of `n`.
fn decimal(n: usize) -> (digits: Vec<char>)
    ensures
        digits@ == decimal_text(n as nat),
    decreases n,
{
    let digit = digit_of(n % 10);
    if n < 10 {
        let mut one: Vec<char> = Vec::new();
        one.push(digit);
        proof {
            assert(one@ =~= seq![digit]);
        }
        one
    } else {
        let mut digits = decimal(n / 10);
        digits.push(digit);
        digits
    }
}

/// Whether `candidate`, lower-cased, is one of `lowered`.
fn taken_in(lowered: &Vec<String>, candidate: &str) -> (yes: bool)
    ensures
        yes == exists|k: int| 0 <= k < lowered@.len() && #[trigger] lowered@[k]@ == lowercase(candidate@),
{
    let low = to_lower(candidate);
    let mut k: usize = 0;
    while k < lowered.len()
        invariant
            0 <= k <= lowered@.len(),
            low@ == lowercase(candidate@),
            forall|j: int| 0 <= j < k ==> (#[trigger] lowered@[j])@ != lowercase(candidate@),
        decreases lowered.len() - k,
    {
        if same(lowered[k].as_str(), low.as_str()) {
            return true;
        }
        k = k + 1;
    }
    false
}

/// The name a file called `name` is saved under beside the files called
/// `taken`, compared without case: `name` where nothing has it, else a
/// numbered suffix, `The Lamp 2.md`, then `The Lamp 3.md`, and on to
/// [`SUFFIXES`]; else `name` after all.
pub fn unique_name(taken: &[String], name: &str) -> (chosen: String)
    ensures
        chosen@ == unique_name_of(taken@.map_values(|t: String| t@), name@),
{
    let ghost all = taken@.map_values(|t: String| t@);
    let mut lowered: Vec<String> = Vec::new();
    let mut i: usize = 0;
    while i < taken.len()
        invariant
            0 <= i <= taken@.len(),
            all == taken@.map_values(|t: String| t@),
            lowered@.len() == i,
            forall|j: int| 0 <= j < i ==> (#[trigger] lowered@[j])@ == lowercase(all[j]),
        decreases taken.len() - i,
    {
        lowered.push(to_lower(taken[i].as_str()));
        i = i + 1;
    }
    proof {
        assert forall|c: Seq<char>| (exists|k: int| 0 <= k < lowered@.len() && #[trigger] lowered@[k]@ == lowercase(c))
            == is_taken(all, c) by {
            if is_taken(all, c) {
                let k = choose|k: int| 0 <= k < all.len() && #[trigger] lowercase(all[k]) == lowercase(c);
                assert(lowered@[k]@ == lowercase(c));
            }
        }
    }
    if !taken_in(&lowered, name) {
        return String::from_str(name);
    }
    let chars = chars_of(name);
    let mut stem_end: usize = chars.len();
    let mut with_extension = false;
    if is_listed(&chars) {
        let mut d: usize = chars.len();
        proof {
            assert(chars@.take(d as int) =~= chars@);
        }
        while d > 0 && chars[d - 1] != '.'
            invariant
                0 <= d <= chars@.len(),
                last_dot(chars@) == last_dot(chars@.take(d as int)),
            decreases d,
        {
            proof {
                assert(chars@.take(d as int).drop_last() =~= chars@.take(d - 1));
            }
            d = d - 1;
        }
        proof {
            assert(chars@.take(chars@.len() as int) =~= chars@);
            if d > 0 {
                assert(chars@.take(d as int).last() == chars@[d - 1]);
            }
        }
        if d > 0 {
            stem_end = d - 1;
            with_extension = true;
        }
    }
    proof {
        assert(chars@.take(chars@.len() as int) =~= chars@);
    }
    let ghost parts = split_extension_of(name@);
    proof {
        if with_extension {
            assert(parts.0 == chars@.take(stem_end as int));
            assert(parts.1 == chars@.skip(stem_end as int));
        } else {
            assert(parts.0 =~= chars@.take(stem_end as int));
            assert(parts.1 =~= chars@.skip(stem_end as int));
        }
    }
    let mut nth: usize = 2;
    while nth <= SUFFIXES
        invariant
            2 <= nth <= SUFFIXES + 1,
            chars@ == name@,
            stem_end <= chars@.len(),
            parts == split_extension_of(name@),
            parts.0 == chars@.take(stem_end as int),
            parts.1 == chars@.skip(stem_end as int),
            all == taken@.map_values(|t: String| t@),
            is_taken(all, name@),
            forall|c: Seq<char>| (exists|k: int| 0 <= k < lowered@.len() && #[trigger] lowered@[k]@ == lowercase(c))
                == is_taken(all, c),
            free_from(all, name@, 2) == free_from(all, name@, nth as nat),
        decreases SUFFIXES + 1 - nth,
    {
        let mut candidate: Vec<char> = Vec::new();
        let mut k: usize = 0;
        while k < stem_end
            invariant
                0 <= k <= stem_end <= chars@.len(),
                candidate@ == chars@.take(k as int),
            decreases stem_end - k,
        {
            candidate.push(chars[k]);
            proof {
                assert(chars@.take(k + 1) =~= chars@.take(k as int).push(chars@[k as int]));
            }
            k = k + 1;
        }
        candidate.push(' ');
        let digits = decimal(nth);
        let mut m: usize = 0;
        let ghost head = candidate@;
        while m < digits.len()
            invariant
                0 <= m <= digits@.len(),
                candidate@ == head + digits@.take(m as int),
            decreases digits.len() - m,
        {
            candidate.push(digits[m]);
            proof {
                assert(digits@.take(m + 1) =~= digits@.take(m as int).push(digits@[m as int]));
            }
            m = m + 1;
        }
        let ghost numbered = candidate@;
        let mut e: usize = stem_end;
        while e < chars.len()
            invariant
                stem_end <= e <= chars@.len(),
                candidate@ == numbered + chars@.subrange(stem_end as int, e as int),
            decreases chars.len() - e,
        {
            candidate.push(chars[e]);
            proof {
                assert(chars@.subrange(stem_end as int, e + 1) =~= chars@.subrange(stem_end as int, e as int).push(chars@[e as int]));
            }
            e = e + 1;
        }
        proof {
            assert(digits@.take(m as int) =~= digits@);
            assert(chars@.subrange(stem_end as int, e as int) =~= chars@.skip(stem_end as int));
            assert(candidate@ =~= suffixed(name@, nth as nat));
        }
        let text = string_of(&candidate);
        if !taken_in(&lowered, text.as_str()) {
            return text;
        }
        nth = nth + 1;
    }
    String::from_str(name)
}

// A Document and the file it is.

/// What the disk says a file is, as a watch compares it: its length and
/// when it was last written, in nanoseconds from the Unix epoch.
#[derive(Clone, Copy, Debug, PartialEq, Eq, Structural)]
pub struct Version {
    /// The file's length in bytes.
    pub len: u64,
    /// When the file was last written.
    pub modified: i128,
}

/// What a save asks of the disk.
#[derive(Clone, Copy, Debug, PartialEq, Eq, Structural)]
pub enum Step {
    /// Nothing: the save is answered without touching the file.
    Done(Saved),
    /// Write the Document's text over its file, then say what the file is
    /// with [`Filed::written`].
    Write,
}

/// What a watch event on the Document's file asks for.
#[derive(Clone, Copy, Debug, PartialEq, Eq, Structural)]
pub enum Heard {
    /// Nothing more: this is the answer.
    Answer(Noticed),
    /// The Document is clean and its file changed: read the file and hand
    /// its text to [`Filed::reloaded`], or say with [`Filed::unreadable`]
    /// that it could not be read.
    Reload,
}

/// `caret` moved back until it stands between two characters of `bytes`, or
/// at the start.
pub open spec fn back_to_boundary(bytes: Seq<u8>, caret: int) -> int
    decreases caret,
{
    if caret <= 0 || is_char_boundary(bytes, caret) {
        caret
    } else {
        back_to_boundary(bytes, caret - 1)
    }
}

/// `caret` inside `bytes`: clamped to their length and back to a character
/// boundary, so a reload that shortened the text still lands somewhere.
pub open spec fn within_of(bytes: Seq<u8>, caret: int) -> int {
    back_to_boundary(bytes, if caret < bytes.len() { caret } else { bytes.len() as int })
}

/// `caret` inside `text`: clamped to its length and back to a character
/// boundary.
pub fn within(text: &str, caret: usize) -> (at: usize)
    ensures
        at == within_of(text.spec_bytes(), caret as int),
        at <= text.spec_bytes().len(),
{
    let len = text.as_bytes().len();
    let mut at = if caret < len {
        caret
    } else {
        len
    };
    while at > 0 && !text.is_char_boundary(at)
        invariant
            at <= len,
            len == text.spec_bytes().len(),
            within_of(text.spec_bytes(), caret as int) == back_to_boundary(text.spec_bytes(), at as int),
        decreases at,
    {
        at = at - 1;
    }
    at
}

/// Whether two paths end in the same file name, or both in none.
fn same_file_name(one: &str, two: &str) -> (yes: bool)
    ensures
        yes == (file_name_of(one@) == file_name_of(two@)),
{
    let a = chars_of(one);
    let b = chars_of(two);
    match (file_name_at(&a), file_name_at(&b)) {
        (None, None) => true,
        (Some((s, e)), Some((t, f))) => {
            let x = text_between(&a, s, e);
            let y = text_between(&b, t, f);
            same(x.as_str(), y.as_str())
        },
        _ => false,
    }
}

/// The path a batch entry arrived at is the Document's file moved: it is not
/// the path the file left, the Library lists it, it is there, and it has the
/// file's name or the version the Document last wrote or read.
pub open spec fn took_the_file(left: Seq<char>, was: Option<Version>, arrived: (Seq<char>, Option<Version>)) -> bool {
    &&& !same_path(arrived.0, left)
    &&& listed(arrived.0)
    &&& arrived.1 is Some
    &&& (file_name_of(arrived.0) == file_name_of(left) || arrived.1 == was)
}

/// The first entry of `batch` from the `from`th on that took the file, or
/// the count of `batch`.
pub open spec fn first_took(left: Seq<char>, was: Option<Version>, batch: Seq<(Seq<char>, Option<Version>)>, from: int) -> int
    decreases batch.len() - from,
{
    if 0 <= from < batch.len() && !took_the_file(left, was, batch[from]) {
        first_took(left, was, batch, from + 1)
    } else {
        from
    }
}

/// A batch of paths as text, each with the version the disk gives it.
pub open spec fn batch_views(batch: Seq<(String, Option<Version>)>) -> Seq<(Seq<char>, Option<Version>)> {
    batch.map_values(|entry: (String, Option<Version>)| (entry.0@, entry.1))
}

/// Where a Document moved to under `path` stands: gone where the disk has
/// nothing there, still in conflict where it was, and named otherwise.
pub open spec fn state_after_move(now: Option<Version>, state: OnDisk) -> OnDisk {
    match now {
        None => OnDisk::DeletedOnDisk,
        Some(_) => if state == OnDisk::ChangedOnDisk {
            OnDisk::ChangedOnDisk
        } else {
            OnDisk::Named
        },
    }
}

/// A Document and the file it is: everything about the path in one place.
///
/// The disk itself is the app's: a save here says whether to write and the
/// app writes; a watch event here is answered from the version the app read
/// off the file.
#[derive(Debug)]
pub struct Filed {
    document: Document,
    state: OnDisk,
    /// The version of the file Quill last wrote or read, which is what a
    /// watch event is compared against; `None` while there is no file.
    saved: Option<Version>,
}

impl Filed {
    /// The Document.
    pub closed spec fn spec_document(&self) -> Document {
        self.document
    }

    /// Where the Document stands with its file.
    pub closed spec fn spec_state(&self) -> OnDisk {
        self.state
    }

    /// The version of the file Quill last wrote or read.
    pub closed spec fn spec_saved(&self) -> Option<Version> {
        self.saved
    }

    /// A Document with no file behind it and nothing written in it.
    pub fn untitled() -> (filed: Filed)
        ensures
            filed.spec_state() == OnDisk::Untitled,
            filed.spec_saved() is None,
            filed.spec_document().spec_text() == Seq::<char>::empty(),
            filed.spec_document().spec_path() is None,
    {
        Filed { document: Document::untitled(), state: OnDisk::Untitled, saved: None }
    }

    /// Takes over a Document already opened elsewhere, `now` being the
    /// version the disk gives its file. A Document with no path is untitled;
    /// one with a path is named against the file as it is now, or deleted
    /// where the file is not there.
    pub fn around(document: Document, now: Option<Version>) -> (filed: Filed)
        ensures
            filed.spec_document() == document,
            filed.spec_saved() == (if document.spec_path() is Some { now } else { None }),
            filed.spec_state() == (match (document.spec_path(), now) {
                (None, _) => OnDisk::Untitled,
                (Some(_), None) => OnDisk::DeletedOnDisk,
                (Some(_), Some(_)) => OnDisk::Named,
            }),
    {
        let (saved, state) = match document.path() {
            None => (None, OnDisk::Untitled),
            Some(_) => match now {
                None => (None, OnDisk::DeletedOnDisk),
                Some(version) => (Some(version), OnDisk::Named),
            },
        };
        Filed { document, state, saved }
    }

    /// A Document read from its file, named against `now`, the version the
    /// disk gave the file when it was read.
    pub fn opened(document: Document, now: Option<Version>) -> (filed: Filed)
        ensures
            filed.spec_document() == document,
            filed.spec_saved() == now,
            filed.spec_state() == OnDisk::Named,
    {
        Filed { document, state: OnDisk::Named, saved: now }
    }

    /// The Document itself, to edit.
    pub fn document_mut(&mut self) -> (document: &mut Document)
        ensures
            *document == old(self).spec_document(),
            final(self).spec_document() == *final(document),
            final(self).spec_state() == old(self).spec_state(),
            final(self).spec_saved() == old(self).spec_saved(),
    {
        &mut self.document
    }

    /// The Document itself.
    pub fn document(&self) -> (document: &Document)
        ensures
            *document == self.spec_document(),
    {
        &self.document
    }

    /// Where the Document stands with its file.
    pub fn state(&self) -> (state: OnDisk)
        ensures
            state == self.spec_state(),
    {
        self.state
    }

    /// The file this Document is, or `None` while it is untitled.
    pub fn path(&self) -> (path: Option<&str>)
        ensures
            match path {
                Some(p) => self.spec_document().spec_path() == Some(p@),
                None => self.spec_document().spec_path() is None,
            },
    {
        self.document.path()
    }

    /// Whether autosave may write this Document. It pauses in both conflict
    /// states, where writing is exactly what the writer has not chosen yet.
    pub fn autosaves(&self) -> (yes: bool)
        ensures
            yes == (self.spec_state() == OnDisk::Untitled || self.spec_state() == OnDisk::Named),
    {
        match self.state {
            OnDisk::Untitled | OnDisk::Named => true,
            _ => false,
        }
    }

    /// A save of the Document over its file, `now` being the version the disk
    /// gives the file at its path. An untitled Document needs a folder first;
    /// one whose file changed underneath it is refused; a named one whose
    /// file moved since Quill last wrote or read it is refused too, and is in
    /// conflict from then on; otherwise the app writes, and a deleted file is
    /// recreated.
    pub fn save(&mut self, now: Option<Version>) -> (step: Step)
        ensures
            final(self).spec_document() == old(self).spec_document(),
            final(self).spec_saved() == old(self).spec_saved(),
            step == (match old(self).spec_state() {
                OnDisk::Untitled => Step::Done(Saved::NeedsAFolder),
                OnDisk::ChangedOnDisk => Step::Done(Saved::Refused),
                _ => if old(self).spec_document().spec_path() is None {
                    Step::Done(Saved::NeedsAFolder)
                } else if old(self).spec_state() == OnDisk::Named && now != old(self).spec_saved() {
                    Step::Done(Saved::Refused)
                } else {
                    Step::Write
                },
            }),
            final(self).spec_state() == (if old(self).spec_state() == OnDisk::Named
                && old(self).spec_document().spec_path() is Some && now != old(self).spec_saved() {
                OnDisk::ChangedOnDisk
            } else {
                old(self).spec_state()
            }),
    {
        match self.state {
            OnDisk::Untitled => Step::Done(Saved::NeedsAFolder),
            OnDisk::ChangedOnDisk => Step::Done(Saved::Refused),
            _ => {
                if self.document.path().is_none() {
                    return Step::Done(Saved::NeedsAFolder);
                }
                let named = match self.state {
                    OnDisk::Named => true,
                    _ => false,
                };
                if named && now != self.saved {
                    self.state = OnDisk::ChangedOnDisk;
                    return Step::Done(Saved::Refused);
                }
                Step::Write
            },
        }
    }

    /// Writes the Editor's text over the file, whatever happened to it: the
    /// Keep half of a conflict, and what recreates a deleted file.
    pub fn keep(&self) -> (step: Step)
        ensures
            step == (if self.spec_state() == OnDisk::Untitled || self.spec_document().spec_path() is None {
                Step::Done(Saved::NeedsAFolder)
            } else {
                Step::Write
            }),
    {
        match self.state {
            OnDisk::Untitled => Step::Done(Saved::NeedsAFolder),
            _ => if self.document.path().is_none() {
                Step::Done(Saved::NeedsAFolder)
            } else {
                Step::Write
            },
        }
    }

    /// The write a save or a keep asked for is done, and the file is now at
    /// `version`: the Document is named against it.
    pub fn written(&mut self, version: Version)
        ensures
            final(self).spec_document() == old(self).spec_document(),
            final(self).spec_saved() == Some(version),
            final(self).spec_state() == OnDisk::Named,
    {
        self.saved = Some(version);
        self.state = OnDisk::Named;
    }

    /// An untitled Document's first save went to `path` and left the file
    /// at `version`: the name is fixed from then on.
    pub fn saved_in(&mut self, path: String, version: Version)
        ensures
            final(self).spec_document().spec_text() == old(self).spec_document().spec_text(),
            final(self).spec_document().spec_path() == Some(path@),
            final(self).spec_saved() == Some(version),
            final(self).spec_state() == OnDisk::Named,
    {
        self.document.set_path(path);
        self.saved = Some(version);
        self.state = OnDisk::Named;
    }

    /// The file's text, `text`, replaces the Document's: the Reload half of
    /// a conflict, and what a clean Document does by itself. `now` is the
    /// version the disk gives the file, and `caret` where the caret was; the
    /// answer says where to put it back.
    pub fn reloaded(&mut self, text: String, now: Option<Version>, caret: usize) -> (kept: Kept)
        requires
            old(self).spec_document().spec_generation() < u64::MAX,
        ensures
            final(self).spec_document().spec_text() == text@,
            final(self).spec_document().spec_path() == old(self).spec_document().spec_path(),
            final(self).spec_saved() == now,
            final(self).spec_state() == OnDisk::Named,
            kept.block == (match block_at_of(
                old(self).spec_document().spec_blocks(),
                old(self).spec_document().spec_bytes().len() as int,
                caret as int,
            ) {
                Some(i) => Some(i as usize),
                None => None,
            }),
            kept.caret == within_of(encode_utf8(text@), caret as int),
    {
        let block = self.document.block_at(caret);
        self.document.reload(text);
        self.saved = now;
        self.state = OnDisk::Named;
        let at = within(self.document.text(), caret);
        Kept { block, caret: at }
    }

    /// The file of a clean Document could not be read again: the text in the
    /// window is the only copy Quill has, so the Document is in conflict.
    pub fn unreadable(&mut self)
        ensures
            final(self).spec_document() == old(self).spec_document(),
            final(self).spec_saved() == old(self).spec_saved(),
            final(self).spec_state() == OnDisk::ChangedOnDisk,
    {
        self.state = OnDisk::ChangedOnDisk;
    }

    /// Answers a watch event on the Document's file, `now` being the version
    /// the disk gives the file. `dirty` is whether the Editor holds edits the
    /// file does not: a clean Document reloads, and a dirty one is in
    /// conflict. A file that is gone is deleted however clean the Document
    /// is.
    pub fn noticed(&mut self, dirty: bool, now: Option<Version>) -> (heard: Heard)
        ensures
            final(self).spec_document() == old(self).spec_document(),
            heard == (if old(self).spec_document().spec_path() is None {
                Heard::Answer(Noticed::Unchanged)
            } else if now is None {
                Heard::Answer(Noticed::Deleted)
            } else if old(self).spec_state() == OnDisk::Named && now == old(self).spec_saved() {
                Heard::Answer(Noticed::Unchanged)
            } else if dirty {
                Heard::Answer(Noticed::Changed)
            } else {
                Heard::Reload
            }),
            final(self).spec_saved() == (if old(self).spec_document().spec_path() is Some && now is None {
                None
            } else {
                old(self).spec_saved()
            }),
            final(self).spec_state() == (if old(self).spec_document().spec_path() is None {
                old(self).spec_state()
            } else if now is None {
                OnDisk::DeletedOnDisk
            } else if old(self).spec_state() == OnDisk::Named && now == old(self).spec_saved() {
                old(self).spec_state()
            } else if dirty {
                OnDisk::ChangedOnDisk
            } else {
                old(self).spec_state()
            }),
    {
        if self.document.path().is_none() {
            return Heard::Answer(Noticed::Unchanged);
        }
        if now.is_none() {
            self.saved = None;
            self.state = OnDisk::DeletedOnDisk;
            return Heard::Answer(Noticed::Deleted);
        }
        let named = match self.state {
            OnDisk::Named => true,
            _ => false,
        };
        if named && now == self.saved {
            return Heard::Answer(Noticed::Unchanged);
        }
        if dirty {
            self.state = OnDisk::ChangedOnDisk;
            return Heard::Answer(Noticed::Changed);
        }
        Heard::Reload
    }

    /// Follows the file to `path`, where something outside Quill moved it,
    /// `now` being the version the disk gives it there: a file that is not
    /// there is a delete under another name.
    pub fn moved_to(&mut self, path: String, now: Option<Version>)
        ensures
            final(self).spec_document().spec_text() == old(self).spec_document().spec_text(),
            final(self).spec_document().spec_path() == Some(path@),
            final(self).spec_saved() == now,
            final(self).spec_state() == state_after_move(now, old(self).spec_state()),
    {
        self.document.set_path(path);
        self.saved = now;
        self.state = match now {
            None => OnDisk::DeletedOnDisk,
            Some(_) => match self.state {
                OnDisk::ChangedOnDisk => OnDisk::ChangedOnDisk,
                _ => OnDisk::Named,
            },
        };
    }

    /// Follows a rename made outside Quill, given every path one drain of the
    /// watch answered for, each with the version the disk gives it, and
    /// `now`, the version the disk gives the Document's own file; answers
    /// whether the Document followed. The file has to be gone, and one other
    /// path of the batch has to be a listed file that is there and is this
    /// one: the same file name, or the version this Document last wrote or
    /// read.
    pub fn followed(&mut self, now: Option<Version>, batch: &[(String, Option<Version>)]) -> (moved: bool)
        ensures
            ({
                let left = old(self).spec_document().spec_path();
                let found = if left is Some { first_took(left.unwrap(), old(self).spec_saved(), batch_views(batch@), 0) } else { 0 };
                &&& moved == (left is Some && now is None && found < batch@.len())
                &&& moved ==> final(self).spec_document().spec_path() == Some(batch@[found].0@)
                    && final(self).spec_document().spec_text() == old(self).spec_document().spec_text()
                    && final(self).spec_saved() == batch@[found].1
                    && final(self).spec_state() == state_after_move(batch@[found].1, old(self).spec_state())
                &&& !moved ==> final(self).spec_document() == old(self).spec_document()
                    && final(self).spec_saved() == old(self).spec_saved()
                    && final(self).spec_state() == old(self).spec_state()
            }),
    {
        let left = match self.document.path() {
            None => return false,
            Some(p) => p.to_owned(),
        };
        if now.is_some() {
            return false;
        }
        let was = self.saved;
        let ghost views = batch_views(batch@);
        let mut k: usize = 0;
        while k < batch.len()
            invariant
                0 <= k <= batch@.len(),
                views == batch_views(batch@),
                self.spec_document() == old(self).spec_document(),
                self.spec_saved() == old(self).spec_saved(),
                self.spec_state() == old(self).spec_state(),
                now is None,
                self.spec_document().spec_path() == Some(left@),
                was == self.spec_saved(),
                first_took(left@, was, views, 0) == first_took(left@, was, views, k as int),
            decreases batch.len() - k,
        {
            let arrived = &batch[k].0;
            let version = batch[k].1;
            assert(views[k as int] == (arrived@, version));
            let path = chars_of(arrived.as_str());
            if !paths_equal(arrived.as_str(), left.as_str()) && is_listed(&path) && version.is_some() && (same_file_name(
                arrived.as_str(),
                left.as_str(),
            ) || version == was) {
                let took = arrived.clone();
                proof {
                    assert(took_the_file(left@, was, views[k as int]));
                    assert(first_took(left@, was, views, k as int) == k);
                }
                self.moved_to(took, version);
                return true;
            }
            k = k + 1;
        }
        false
    }
}

} // verus!
