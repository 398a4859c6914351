//! The Selection Mark's glyph files: which file each mark is drawn from, and
//! the subset of SVG those files are written in.
//!
//! The bar is drawn by the stylesheet and has no file; the feather and the
//! pen each have a full glyph and a short one. Only a subset of SVG is read:
//! a `viewBox`, and `d` attributes of absolute `M`, `L`, `C` and `Z` with
//! every number spaced apart. A file redrawn outside the subset is refused
//! by name rather than drawn wrong. The grammar is read here, to the words
//! each number is written as; what the numbers are worth is the drawing's.

use vstd::prelude::*;
use crate::data::{join, joined};
use crate::text::{ascii_lower, chars_of, is_ascii_letter, is_white, push_char, push_text, string_of, white};

verus! {

/// The mark drawn at the selection's edge.
#[derive(Clone, Copy, Debug, PartialEq, Eq, Structural)]
pub enum Mark {
    /// A plain bar, which the stylesheet draws.
    Bar,
    /// A feather.
    Feather,
    /// A pen.
    Pen,
}

/// The glyph file `mark` is drawn from, the short one where `short` says so;
/// none for the bar.
pub open spec fn glyph_file(mark: Mark, short: bool) -> Option<&'static str> {
    match (mark, short) {
        (Mark::Bar, _) => None,
        (Mark::Feather, false) => Some("feather.svg"),
        (Mark::Feather, true) => Some("feather-short.svg"),
        (Mark::Pen, false) => Some("pen.svg"),
        (Mark::Pen, true) => Some("pen-short.svg"),
    }
}

/// The name of the glyph file `mark` is drawn from, the short glyph where
/// `short` says so; none for the bar, which the stylesheet draws.
pub fn file_name(mark: Mark, short: bool) -> (name: Option<&'static str>)
    ensures
        name == glyph_file(mark, short),
{
    match (mark, short) {
        (Mark::Bar, _) => None,
        (Mark::Feather, false) => Some("feather.svg"),
        (Mark::Feather, true) => Some("feather-short.svg"),
        (Mark::Pen, false) => Some("pen.svg"),
        (Mark::Pen, true) => Some("pen-short.svg"),
    }
}

/// The glyph file `mark` is drawn from, in the marks directory `marks`;
/// none for the bar.
pub fn file(mark: Mark, short: bool, marks: &str) -> (path: Option<String>)
    ensures
        match glyph_file(mark, short) {
            Some(name) => path matches Some(p) && p@ == joined(marks@, name@),
            None => path is None,
        },
{
    match file_name(mark, short) {
        Some(name) => Some(join(marks, name)),
        None => None,
    }
}

// The subset of SVG.

/// Whether the characters of `key` stand in `s` from `at` on.
pub open spec fn stands_at(s: Seq<char>, key: Seq<char>, at: int) -> bool {
    0 <= at && at + key.len() <= s.len() && s.subrange(at, at + key.len()) == key
}

/// Where `key` first stands in `s` at or after `from`, or -1.
pub open spec fn find_from(s: Seq<char>, key: Seq<char>, from: int) -> int
    decreases s.len() + 1 - from,
{
    if from < 0 || from + key.len() > s.len() {
        -1
    } else if stands_at(s, key, from) {
        from
    } else {
        find_from(s, key, from + 1)
    }
}

/// Where `key` is found, it stands there, at or after where the search
/// began.
pub proof fn lemma_find_from(s: Seq<char>, key: Seq<char>, from: int)
    ensures
        find_from(s, key, from) == -1 || (from <= find_from(s, key, from) && stands_at(
            s,
            key,
            find_from(s, key, from),
        )),
    decreases s.len() + 1 - from,
{
    if !(from < 0 || from + key.len() > s.len()) && !stands_at(s, key, from) {
        lemma_find_from(s, key, from + 1);
    }
}

/// What an attribute called `name` opens with: its name, `=` and a quote.
pub open spec fn attribute_key(name: Seq<char>) -> Seq<char> {
    name + seq!['=', '"']
}

/// Every value of the attribute opened by `key` in `s` from `from` on, in
/// order: an attribute stands after white space, so `d` is not found inside
/// `id="…"`, and a value runs to the next quote.
pub open spec fn attributes_from(s: Seq<char>, key: Seq<char>, from: int) -> Seq<Seq<char>>
    decreases s.len() + 1 - from,
{
    let at = find_from(s, key, from);
    if at < from || key.len() == 0 {
        seq![]
    } else {
        let value = at + key.len();
        let end = find_from(s, seq!['"'], value);
        proof {
            lemma_find_from(s, key, from);
            lemma_find_from(s, seq!['"'], value);
        }
        if end < value {
            seq![]
        } else {
            let rest = attributes_from(s, key, end + 1);
            if at > 0 && is_white(s[at - 1]) {
                seq![s.subrange(value, end)] + rest
            } else {
                rest
            }
        }
    }
}

/// Whether `c` parts two words: white space, or a comma where commas part
/// words too.
pub open spec fn parts_words(c: char, commas: bool) -> bool {
    is_white(c) || (commas && c == ',')
}

/// Where the word starting at `from` ends.
pub open spec fn word_end(s: Seq<char>, from: int, commas: bool) -> int
    decreases s.len() - from,
{
    if 0 <= from < s.len() && !parts_words(s[from], commas) {
        word_end(s, from + 1, commas)
    } else {
        from
    }
}

/// The words of `s` from `from` on: the runs of characters between the
/// ones that part words, none of them empty.
pub open spec fn words_from(s: Seq<char>, from: int, commas: bool) -> Seq<Seq<char>>
    decreases s.len() - from,
{
    if from < 0 || from >= s.len() {
        seq![]
    } else if parts_words(s[from], commas) {
        words_from(s, from + 1, commas)
    } else {
        let end = word_end(s, from, commas);
        proof {
            lemma_word_end(s, from, commas);
        }
        seq![s.subrange(from, end)] + words_from(s, end, commas)
    }
}

/// Where a word ends lies past where it starts, and within the text.
pub proof fn lemma_word_end(s: Seq<char>, from: int, commas: bool)
    requires
        0 <= from <= s.len(),
    ensures
        from <= word_end(s, from, commas) <= s.len(),
        from < s.len() && !parts_words(s[from], commas) ==> word_end(s, from, commas) > from,
    decreases s.len() - from,
{
    if from < s.len() && !parts_words(s[from], commas) {
        lemma_word_end(s, from + 1, commas);
    }
}

/// Where the run of ASCII digits of `w` starting at `from` ends.
pub open spec fn digits_end(w: Seq<char>, from: int) -> int
    decreases w.len() - from,
{
    if 0 <= from < w.len() && '0' <= w[from] && w[from] <= '9' {
        digits_end(w, from + 1)
    } else {
        from
    }
}

/// Whether the lowered `w` is a decimal: digits with a point somewhere among
/// or after them, at least one digit, then perhaps an exponent.
pub open spec fn is_decimal(w: Seq<char>) -> bool {
    let whole = digits_end(w, 0);
    let (some, rest) = if whole < w.len() && w[whole] == '.' {
        let fraction = digits_end(w, whole + 1);
        (whole > 0 || fraction > whole + 1, fraction)
    } else {
        (whole > 0, whole)
    };
    let exponent_ok = if rest >= w.len() {
        true
    } else if w[rest] == 'e' {
        let signed = if rest + 1 < w.len() && (w[rest + 1] == '+' || w[rest + 1] == '-') {
            rest + 2
        } else {
            rest + 1
        };
        let end = digits_end(w, signed);
        end > signed && end == w.len()
    } else {
        false
    };
    some && exponent_ok
}

/// Whether `w` is a number as `f64` reads one: an optional sign, then
/// `inf`, `infinity`, `nan` or a decimal, letters in either case.
pub open spec fn is_number_word(w: Seq<char>) -> bool {
    let body = if w.len() > 0 && (w[0] == '+' || w[0] == '-') {
        w.skip(1)
    } else {
        w
    };
    let lowered = body.map_values(|c: char| ascii_lower(c));
    ||| lowered == seq!['i', 'n', 'f']
    ||| lowered == seq!['i', 'n', 'f', 'i', 'n', 'i', 't', 'y']
    ||| lowered == seq!['n', 'a', 'n']
    ||| is_decimal(lowered)
}

/// The first of `words` from `from` on that is not a number, or their count.
pub open spec fn first_not_number(words: Seq<Seq<char>>, from: int) -> int
    decreases words.len() - from,
{
    if 0 <= from < words.len() && is_number_word(words[from]) {
        first_not_number(words, from + 1)
    } else {
        from
    }
}

/// What refuses a word that is not a number.
pub open spec fn not_a_number(word: Seq<char>) -> Seq<char> {
    "\""@ + word + "\" is not a number"@
}

/// The numbers of an attribute, spaced or comma-separated, as the words they
/// are written as; the first word that is not one refuses them.
pub open spec fn numbers_of(text: Seq<char>) -> Result<Seq<Seq<char>>, Seq<char>> {
    let words = words_from(text, 0, true);
    let bad = first_not_number(words, 0);
    if bad < words.len() {
        Err(not_a_number(words[bad]))
    } else {
        Ok(words)
    }
}

/// A path's text with each command letter made a word of its own and each
/// comma a space.
pub open spec fn spaced(d: Seq<char>) -> Seq<char>
    decreases d.len(),
{
    if d.len() == 0 {
        seq![]
    } else {
        let c = d.last();
        spaced(d.drop_last()) + if c == ',' {
            seq![' ']
        } else if is_ascii_letter(c) {
            seq![' ', c, ' ']
        } else {
            seq![c]
        }
    }
}

/// One step of a path.
#[derive(Clone, Copy, Debug, PartialEq, Eq, Structural)]
pub enum Step {
    /// `M`: a move, two numbers.
    Move,
    /// `L`: a line, two numbers.
    Line,
    /// `C`: a cubic curve, six numbers.
    Curve,
    /// `Z`: the path closed, no numbers.
    Close,
}

/// One step of a path with its numbers as they are written.
#[derive(Debug, PartialEq, Eq)]
pub struct Segment {
    /// What the step is.
    pub step: Step,
    /// Its numbers, as words of the file.
    pub numbers: Vec<String>,
}

/// A segment as its step and the words of its numbers.
pub open spec fn segment_view(segment: Segment) -> (Step, Seq<Seq<char>>) {
    (segment.step, segment.numbers@.map_values(|n: String| n@))
}

/// What refuses a command outside the subset.
pub open spec fn outside_the_subset(letter: char) -> Seq<char> {
    "path command "@ + seq![letter] + " is outside the subset: absolute M, L, C and Z"@
}

/// What refuses numbers before any command.
pub open spec fn no_command_before(word: Seq<char>) -> Seq<char> {
    "\""@ + word + "\" has no path command before it"@
}

/// What refuses a command short of its numbers.
pub open spec fn wants_numbers(letter: char, arity: int) -> Seq<char> {
    seq![letter] + " wants "@ + seq![if arity == 2 { '2' } else { '6' }] + " numbers"@
}

/// The segments the words of a path from `at` on add to `out`, the command
/// `command` in force: a command letter sets the command, or closes the
/// path; numbers after a command are its arguments, two for `M` and `L`,
/// six for `C`, and a move's further pairs are lines, as SVG reads them.
pub open spec fn path_from(
    words: Seq<Seq<char>>,
    at: int,
    command: Option<char>,
    out: Seq<(Step, Seq<Seq<char>>)>,
) -> Result<Seq<(Step, Seq<Seq<char>>)>, Seq<char>>
    decreases words.len() - at,
{
    if at < 0 || at >= words.len() {
        Ok(out)
    } else {
        let word = words[at];
        if word.len() > 0 && is_ascii_letter(word[0]) {
            let letter = word[0];
            if letter == 'M' || letter == 'L' || letter == 'C' {
                path_from(words, at + 1, Some(letter), out)
            } else if letter == 'Z' {
                path_from(words, at + 1, None, out.push((Step::Close, seq![])))
            } else {
                Err(outside_the_subset(letter))
            }
        } else {
            match command {
                None => Err(no_command_before(word)),
                Some(letter) => {
                    let arity: int = if letter == 'M' || letter == 'L' {
                        2
                    } else {
                        6
                    };
                    if at + arity > words.len() {
                        Err(wants_numbers(letter, arity))
                    } else {
                        let values = words.subrange(at, at + arity);
                        let bad = first_not_number(values, 0);
                        if bad < arity {
                            Err(not_a_number(values[bad]))
                        } else {
                            let step = if letter == 'M' {
                                Step::Move
                            } else if letter == 'L' {
                                Step::Line
                            } else {
                                Step::Curve
                            };
                            let next = if letter == 'M' {
                                Some('L')
                            } else {
                                command
                            };
                            path_from(words, at + arity, next, out.push((step, values)))
                        }
                    }
                },
            }
        }
    }
}

/// The segments of one `d` attribute.
pub open spec fn path_of(d: Seq<char>) -> Result<Seq<(Step, Seq<Seq<char>>)>, Seq<char>> {
    path_from(words_from(spaced(d), 0, false), 0, None, seq![])
}

/// Where `key` first stands in `s` at or after `from`.
fn find(s: &Vec<char>, key: &Vec<char>, from: usize) -> (at: Option<usize>)
    ensures
        match at {
            Some(i) => i as int == find_from(s@, key@, from as int) && i >= from && i + key@.len() <= s@.len(),
            None => find_from(s@, key@, from as int) == -1,
        },
{
    let mut i = from;
    while i <= s.len() && key.len() <= s.len() - i
        invariant
            from <= i,
            find_from(s@, key@, from as int) == find_from(s@, key@, i as int),
        decreases s.len() + 1 - i,
    {
        let mut k: usize = 0;
        let end = i + key.len();
        while k < key.len() && s[end - key.len() + k] == key[k]
            invariant
                0 <= k <= key@.len(),
                end == i + key@.len(),
                end <= s@.len(),
                forall|j: int| 0 <= j < k ==> s@[i + j] == key@[j],
            decreases key.len() - k,
        {
            k = k + 1;
        }
        if k == key.len() {
            proof {
                assert(s@.subrange(i as int, i + key@.len()) =~= key@);
            }
            return Some(i);
        }
        proof {
            assert(s@.subrange(i as int, i + key@.len())[k as int] != key@[k as int]);
        }
        i = i + 1;
    }
    None
}

/// The characters of `s` from `start` to `end` as a `String`.
fn text_of(s: &Vec<char>, start: usize, end: usize) -> (text: String)
    requires
        start <= end <= s@.len(),
    ensures
        text@ == s@.subrange(start as int, end as int),
{
    let mut text = String::new();
    let mut i = start;
    while i < end
        invariant
            start <= i <= end <= s@.len(),
            text@ == s@.subrange(start as int, i as int),
        decreases end - i,
    {
        push_char(&mut text, s[i]);
        proof {
            assert(s@.subrange(start as int, i + 1) =~= s@.subrange(start as int, i as int).push(s@[i as int]));
        }
        i = i + 1;
    }
    text
}

/// Every value of the attribute `name` in `svg`, in order. An attribute is
/// `name="` after white space, so `d` is not found inside `id="…"`.
pub fn attributes(svg: &str, name: &str) -> (values: Vec<String>)
    ensures
        values@.map_values(|v: String| v@) == attributes_from(svg@, attribute_key(name@), 0),
{
    let s = chars_of(svg);
    let mut key = chars_of(name);
    key.push('=');
    key.push('"');
    proof {
        assert(key@ =~= attribute_key(name@));
    }
    let quote = vec!['"'];
    proof {
        assert(quote@ =~= seq!['"']);
    }
    let ghost k = attribute_key(name@);
    let mut values: Vec<String> = Vec::new();
    let mut from: usize = 0;
    while from <= s.len()
        invariant
            s@ == svg@,
            key@ == k,
            k == attribute_key(name@),
            quote@ == seq!['"'],
            values@.map_values(|v: String| v@) + attributes_from(s@, k, from as int) == attributes_from(s@, k, 0),
        decreases s.len() + 1 - from,
    {
        let ghost before = values@;
        let at = match find(&s, &key, from) {
            Some(at) => at,
            None => {
                proof {
                    assert(attributes_from(s@, k, from as int) =~= seq![]);
                    assert(values@.map_values(|v: String| v@) =~= values@.map_values(|v: String| v@) + seq![]);
                }
                return values;
            },
        };
        let value = at + key.len();
        proof {
            assert(k.len() >= 2);
        }
        let end = match find(&s, &quote, value) {
            Some(end) => end,
            None => {
                proof {
                    assert(attributes_from(s@, k, from as int) =~= seq![]);
                    assert(values@.map_values(|v: String| v@) =~= values@.map_values(|v: String| v@) + seq![]);
                }
                return values;
            },
        };
        if at > 0 && white(s[at - 1]) {
            let found = text_of(&s, value, end);
            values.push(found);
            proof {
                assert(values@.map_values(|v: String| v@) =~= before.map_values(|v: String| v@).push(
                    s@.subrange(value as int, end as int),
                ));
            }
        }
        if end >= s.len() {
            proof {
                assert(attributes_from(s@, k, end + 1) =~= seq![]);
            }
            return values;
        }
        from = end + 1;
    }
    values
}

/// The words of `s`, parted at white space, and at commas where `commas`
/// says so.
fn words(s: &Vec<char>, commas: bool) -> (found: Vec<Vec<char>>)
    ensures
        found@.map_values(|w: Vec<char>| w@) == words_from(s@, 0, commas),
{
    let mut found: Vec<Vec<char>> = Vec::new();
    let mut i: usize = 0;
    while i < s.len()
        invariant
            0 <= i <= s@.len(),
            found@.map_values(|w: Vec<char>| w@) + words_from(s@, i as int, commas) == words_from(s@, 0, commas),
        decreases s.len() - i,
    {
        if white(s[i]) || (commas && s[i] == ',') {
            i = i + 1;
        } else {
            let ghost before = found@;
            let mut end = i;
            let mut word: Vec<char> = Vec::new();
            while end < s.len() && !(white(s[end]) || (commas && s[end] == ','))
                invariant
                    i <= end <= s@.len(),
                    word@ == s@.subrange(i as int, end as int),
                    word_end(s@, i as int, commas) == word_end(s@, end as int, commas),
                decreases s.len() - end,
            {
                word.push(s[end]);
                proof {
                    assert(s@.subrange(i as int, end + 1) =~= s@.subrange(i as int, end as int).push(s@[end as int]));
                }
                end = end + 1;
            }
            found.push(word);
            proof {
                assert(found@.map_values(|w: Vec<char>| w@) =~= before.map_values(|w: Vec<char>| w@).push(
                    s@.subrange(i as int, end as int),
                ));
            }
            i = end;
        }
    }
    proof {
        assert(words_from(s@, i as int, commas) =~= seq![]);
    }
    found
}

/// Where the run of ASCII digits of `w` starting at `from` ends.
fn skip_digits_of(w: &Vec<char>, from: usize) -> (end: usize)
    requires
        from <= w@.len(),
    ensures
        end == digits_end(w@, from as int),
        from <= end <= w@.len(),
{
    let mut end = from;
    while end < w.len() && '0' <= w[end] && w[end] <= '9'
        invariant
            from <= end <= w@.len(),
            digits_end(w@, from as int) == digits_end(w@, end as int),
        decreases w.len() - end,
    {
        end = end + 1;
    }
    end
}

/// Whether `w` is a number as `f64` reads one.
fn is_number(w: &Vec<char>) -> (yes: bool)
    ensures
        yes == is_number_word(w@),
{
    let skip: usize = if w.len() > 0 && (w[0] == '+' || w[0] == '-') {
        1
    } else {
        0
    };
    let mut lowered: Vec<char> = Vec::new();
    let mut i = skip;
    let ghost body = if w@.len() > 0 && (w@[0] == '+' || w@[0] == '-') {
        w@.skip(1)
    } else {
        w@
    };
    while i < w.len()
        invariant
            skip <= i <= w@.len(),
            skip <= 1,
            body == w@.skip(skip as int),
            lowered@ == body.take(i - skip).map_values(|c: char| ascii_lower(c)),
        decreases w.len() - i,
    {
        let c = w[i];
        let low = if 'A' <= c && c <= 'Z' {
            crate::text::to_ascii_lower(c)
        } else {
            c
        };
        lowered.push(low);
        proof {
            assert(body.take(i + 1 - skip) =~= body.take(i - skip).push(c));
            assert(lowered@ =~= body.take(i + 1 - skip).map_values(|c: char| ascii_lower(c)));
        }
        i = i + 1;
    }
    let ghost l = body.map_values(|c: char| ascii_lower(c));
    proof {
        assert(body.take(i - skip) =~= body);
        assert(lowered@ == l);
    }
    let inf = vec!['i', 'n', 'f'];
    let infinity = vec!['i', 'n', 'f', 'i', 'n', 'i', 't', 'y'];
    let nan = vec!['n', 'a', 'n'];
    proof {
        assert(inf@ =~= seq!['i', 'n', 'f']);
        assert(infinity@ =~= seq!['i', 'n', 'f', 'i', 'n', 'i', 't', 'y']);
        assert(nan@ =~= seq!['n', 'a', 'n']);
    }
    if same_chars(&lowered, &inf) || same_chars(&lowered, &infinity) || same_chars(&lowered, &nan) {
        return true;
    }
    let n = lowered.len();
    let whole = skip_digits_of(&lowered, 0);
    let mut some = whole > 0;
    let mut rest = whole;
    if whole < n && lowered[whole] == '.' {
        let fraction = skip_digits_of(&lowered, whole + 1);
        some = whole > 0 || fraction > whole + 1;
        rest = fraction;
    }
    let exponent_ok = if rest >= n {
        true
    } else if lowered[rest] == 'e' {
        let signed = if rest + 1 < n && (lowered[rest + 1] == '+' || lowered[rest + 1] == '-') {
            rest + 2
        } else {
            rest + 1
        };
        let end = skip_digits_of(&lowered, signed);
        end > signed && end == n
    } else {
        false
    };
    some && exponent_ok
}

/// Whether two runs of characters are the same.
fn same_chars(one: &Vec<char>, two: &Vec<char>) -> (yes: bool)
    ensures
        yes == (one@ == two@),
{
    if one.len() != two.len() {
        return false;
    }
    let mut i: usize = 0;
    while i < one.len()
        invariant
            0 <= i <= one@.len(),
            one@.len() == two@.len(),
            forall|j: int| 0 <= j < i ==> one@[j] == two@[j],
        decreases one.len() - i,
    {
        if one[i] != two[i] {
            return false;
        }
        i = i + 1;
    }
    proof {
        assert(one@ =~= two@);
    }
    true
}

/// The first of `words` from `from` to `to` that is not a number, or `to`.
fn first_bad(words: &Vec<Vec<char>>, from: usize, to: usize) -> (bad: usize)
    requires
        from <= to <= words@.len(),
    ensures
        from <= bad <= to,
        bad as int - from == first_not_number(
            words@.subrange(from as int, to as int).map_values(|w: Vec<char>| w@),
            0,
        ),
{
    let ghost values = words@.subrange(from as int, to as int).map_values(|w: Vec<char>| w@);
    let mut k = from;
    while k < to && is_number(&words[k])
        invariant
            from <= k <= to <= words@.len(),
            values == words@.subrange(from as int, to as int).map_values(|w: Vec<char>| w@),
            first_not_number(values, 0) == first_not_number(values, k - from),
        decreases to - k,
    {
        assert(values[k - from] == words@[k as int]@);
        k = k + 1;
    }
    if k < to {
        assert(values[k - from] == words@[k as int]@);
    }
    k
}

/// `"` and `word` and `" is not a number`.
fn not_a_number_text(word: &Vec<char>) -> (text: String)
    ensures
        text@ == not_a_number(word@),
{
    let mut text = String::new();
    push_text(&mut text, "\"");
    let w = string_of(word);
    push_text(&mut text, w.as_str());
    push_text(&mut text, "\" is not a number");
    text
}

/// The numbers of an attribute, spaced or comma-separated, as the words they
/// are written as.
pub fn numbers(text: &str) -> (found: Result<Vec<String>, String>)
    ensures
        match numbers_of(text@) {
            Ok(words) => found matches Ok(v) && v@.map_values(|n: String| n@) == words,
            Err(message) => found matches Err(m) && m@ == message,
        },
{
    let s = chars_of(text);
    let all = words(&s, true);
    let ghost views = all@.map_values(|w: Vec<char>| w@);
    let bad = first_bad(&all, 0, all.len());
    proof {
        assert(all@.subrange(0, all@.len() as int) =~= all@);
    }
    if bad < all.len() {
        assert(views[bad as int] == all@[bad as int]@);
        return Err(not_a_number_text(&all[bad]));
    }
    let mut found: Vec<String> = Vec::new();
    let mut i: usize = 0;
    while i < all.len()
        invariant
            0 <= i <= all@.len(),
            views == all@.map_values(|w: Vec<char>| w@),
            found@.map_values(|n: String| n@) == views.take(i as int),
        decreases all.len() - i,
    {
        let ghost before = found@;
        found.push(string_of(&all[i]));
        proof {
            assert(found@.map_values(|n: String| n@) =~= before.map_values(|n: String| n@).push(views[i as int]));
            assert(views.take(i + 1) =~= views.take(i as int).push(views[i as int]));
        }
        i = i + 1;
    }
    proof {
        assert(views.take(i as int) =~= views);
    }
    Ok(found)
}

/// A path's text with each command letter made a word of its own and each
/// comma a space.
fn space_out(d: &Vec<char>) -> (s: Vec<char>)
    ensures
        s@ == spaced(d@),
{
    let mut s: Vec<char> = Vec::new();
    let mut i: usize = 0;
    while i < d.len()
        invariant
            0 <= i <= d@.len(),
            s@ == spaced(d@.take(i as int)),
        decreases d.len() - i,
    {
        let c = d[i];
        proof {
            assert(d@.take(i + 1).drop_last() =~= d@.take(i as int));
        }
        let ghost before = s@;
        if c == ',' {
            s.push(' ');
        } else if ('a' <= c && c <= 'z') || ('A' <= c && c <= 'Z') {
            s.push(' ');
            s.push(c);
            s.push(' ');
        } else {
            s.push(c);
        }
        proof {
            assert(s@ =~= spaced(d@.take(i + 1)));
        }
        i = i + 1;
    }
    proof {
        assert(d@.take(i as int) =~= d@);
    }
    s
}

/// Appends the segments of one `d` attribute to `segments`, or says what in
/// it is outside the subset.
pub fn path(d: &str, segments: &mut Vec<Segment>) -> (done: Result<(), String>)
    ensures
        match path_from(
            words_from(spaced(d@), 0, false),
            0,
            None,
            old(segments)@.map_values(|s: Segment| segment_view(s)),
        ) {
            Ok(all) => done is Ok && final(segments)@.map_values(|s: Segment| segment_view(s)) == all,
            Err(message) => done matches Err(m) && m@ == message,
        },
{
    let chars = chars_of(d);
    let spaced_out = space_out(&chars);
    let all = words(&spaced_out, false);
    let ghost views = all@.map_values(|w: Vec<char>| w@);
    let ghost want = path_from(views, 0, None, segments@.map_values(|s: Segment| segment_view(s)));
    let mut command: Option<char> = None;
    let mut at: usize = 0;
    while at < all.len()
        invariant
            0 <= at <= all@.len(),
            views == all@.map_values(|w: Vec<char>| w@),
            views == words_from(spaced(d@), 0, false),
            want == path_from(views, 0, None, old(segments)@.map_values(|s: Segment| segment_view(s))),
            want == path_from(views, at as int, command, segments@.map_values(|s: Segment| segment_view(s))),
        decreases all.len() - at,
    {
        let ghost held = segments@;
        assert(views[at as int] == all@[at as int]@);
        let word = &all[at];
        if word.len() > 0 && (('a' <= word[0] && word[0] <= 'z') || ('A' <= word[0] && word[0] <= 'Z')) {
            let letter = word[0];
            if letter == 'M' || letter == 'L' || letter == 'C' {
                command = Some(letter);
            } else if letter == 'Z' {
                let close = Segment { step: Step::Close, numbers: Vec::new() };
                proof {
                    assert(close.numbers@.map_values(|n: String| n@) =~= Seq::<Seq<char>>::empty());
                    assert(segment_view(close) == (Step::Close, Seq::<Seq<char>>::empty()));
                }
                segments.push(close);
                command = None;
                proof {
                    assert(segments@.map_values(|s: Segment| segment_view(s)) =~= held.map_values(
                        |s: Segment| segment_view(s),
                    ).push((Step::Close, seq![])));
                }
            } else {
                let mut message = String::new();
                push_text(&mut message, "path command ");
                push_char(&mut message, letter);
                push_text(&mut message, " is outside the subset: absolute M, L, C and Z");
                proof {
                    assert(message@ =~= outside_the_subset(letter));
                    assert(want == Err::<Seq<(Step, Seq<Seq<char>>)>, Seq<char>>(outside_the_subset(letter)));
                }
                return Err(message);
            }
            at = at + 1;
        } else {
            let letter = match command {
                None => {
                    let mut message = String::new();
                    push_text(&mut message, "\"");
                    let w = string_of(word);
                    push_text(&mut message, w.as_str());
                    push_text(&mut message, "\" has no path command before it");
                    proof {
                        assert(message@ =~= no_command_before(word@));
                        assert(want == Err::<Seq<(Step, Seq<Seq<char>>)>, Seq<char>>(no_command_before(word@)));
                    }
                    return Err(message);
                },
                Some(letter) => letter,
            };
            let arity: usize = if letter == 'M' || letter == 'L' {
                2
            } else {
                6
            };
            if arity > all.len() - at {
                let mut message = String::new();
                push_char(&mut message, letter);
                push_text(&mut message, " wants ");
                push_char(&mut message, if arity == 2 {
                    '2'
                } else {
                    '6'
                });
                push_text(&mut message, " numbers");
                proof {
                    assert(message@ =~= wants_numbers(letter, arity as int));
                }
                return Err(message);
            }
            let bad = first_bad(&all, at, at + arity);
            proof {
                assert(all@.subrange(at as int, at + arity).map_values(|w: Vec<char>| w@) =~= views.subrange(
                    at as int,
                    at + arity,
                ));
            }
            if bad < at + arity {
                assert(views.subrange(at as int, at + arity)[bad - at] == all@[bad as int]@);
                return Err(not_a_number_text(&all[bad]));
            }
            let mut values: Vec<String> = Vec::new();
            let mut k = at;
            let stop = at + arity;
            while k < stop
                invariant
                    at <= k <= stop <= all@.len(),
                    stop == at + arity,
                    views == all@.map_values(|w: Vec<char>| w@),
                    values@.map_values(|n: String| n@) == views.subrange(at as int, k as int),
                decreases stop - k,
            {
                let ghost before = values@;
                values.push(string_of(&all[k]));
                proof {
                    assert(values@.map_values(|n: String| n@) =~= before.map_values(|n: String| n@).push(views[k as int]));
                    assert(views.subrange(at as int, k + 1) =~= views.subrange(at as int, k as int).push(views[k as int]));
                }
                k = k + 1;
            }
            let step = if letter == 'M' {
                Step::Move
            } else if letter == 'L' {
                Step::Line
            } else {
                Step::Curve
            };
            if letter == 'M' {
                command = Some('L');
            }
            let ghost pair = (step, views.subrange(at as int, at + arity));
            segments.push(Segment { step, numbers: values });
            proof {
                assert(segments@.map_values(|s: Segment| segment_view(s)) =~= held.map_values(|s: Segment| segment_view(s)).push(
                    pair,
                ));
            }
            at = at + arity;
        }
    }
    Ok(())
}

/// A glyph file's `viewBox`: its text, and its four numbers as they are
/// written.
#[derive(Debug, PartialEq, Eq)]
pub struct ViewBox {
    /// The attribute's value, as written.
    pub text: String,
    /// Its four numbers: the box's left, top, width and height.
    pub numbers: Vec<String>,
}

/// What refuses a `viewBox` that is not four numbers.
pub open spec fn not_a_box(view: Seq<char>) -> Seq<char> {
    "viewBox \""@ + view + "\" is not four numbers of a box"@
}

/// The `viewBox` a glyph file opens with, as its first such attribute reads,
/// or what refuses it: there is none, a word of it is not a number, or it is
/// not four numbers.
pub open spec fn view_box_of(svg: Seq<char>) -> Result<(Seq<char>, Seq<Seq<char>>), Seq<char>> {
    let found = attributes_from(svg, attribute_key("viewBox"@), 0);
    if found.len() == 0 {
        Err("no viewBox"@)
    } else {
        match numbers_of(found[0]) {
            Err(message) => Err(message),
            Ok(words) => if words.len() == 4 {
                Ok((found[0], words))
            } else {
                Err(not_a_box(found[0]))
            },
        }
    }
}

/// The `viewBox` of a glyph file, or what refuses it. What its width and
/// height are worth, and so whether they make a box, is the drawing's to
/// read.
pub fn view_box(svg: &str) -> (found: Result<ViewBox, String>)
    ensures
        match view_box_of(svg@) {
            Ok((text, words)) => found matches Ok(b) && b.text@ == text && b.numbers@.map_values(|n: String| n@) == words,
            Err(message) => found matches Err(m) && m@ == message,
        },
{
    let all = attributes(svg, "viewBox");
    if all.len() == 0 {
        return Err("no viewBox".to_owned());
    }
    let view = &all[0];
    assert(all@.map_values(|v: String| v@)[0] == all@[0]@);
    match numbers(view.as_str()) {
        Err(message) => Err(message),
        Ok(words) => {
            if words.len() == 4 {
                Ok(ViewBox { text: view.clone(), numbers: words })
            } else {
                let mut message = String::new();
                push_text(&mut message, "viewBox \"");
                push_text(&mut message, view.as_str());
                push_text(&mut message, "\" is not four numbers of a box");
                Err(message)
            }
        },
    }
}

/// The segments of every `d` attribute of `svg`, in order, from the first
/// `n` of `values`, or what refuses them.
pub open spec fn paths_from(values: Seq<Seq<char>>, n: int) -> Result<Seq<(Step, Seq<Seq<char>>)>, Seq<char>>
    decreases n,
{
    if n <= 0 {
        Ok(seq![])
    } else {
        match paths_from(values, n - 1) {
            Err(message) => Err(message),
            Ok(held) => path_from(words_from(spaced(values[n - 1]), 0, false), 0, None, held),
        }
    }
}

/// The segments of every path of a glyph file, or what refuses them: a
/// command or a number outside the subset, or no path at all.
pub open spec fn paths_of(svg: Seq<char>) -> Result<Seq<(Step, Seq<Seq<char>>)>, Seq<char>> {
    let values = attributes_from(svg, attribute_key("d"@), 0);
    match paths_from(values, values.len() as int) {
        Err(message) => Err(message),
        Ok(all) => if all.len() == 0 {
            Err("no path"@)
        } else {
            Ok(all)
        },
    }
}

/// Every path of a glyph file, one after the other, or what refuses them.
pub fn paths(svg: &str) -> (found: Result<Vec<Segment>, String>)
    ensures
        match paths_of(svg@) {
            Ok(all) => found matches Ok(v) && v@.map_values(|s: Segment| segment_view(s)) == all,
            Err(message) => found matches Err(m) && m@ == message,
        },
{
    let values = attributes(svg, "d");
    let ghost views = values@.map_values(|v: String| v@);
    let mut segments: Vec<Segment> = Vec::new();
    let mut i: usize = 0;
    proof {
        assert(segments@.map_values(|s: Segment| segment_view(s)) =~= seq![]);
    }
    while i < values.len()
        invariant
            0 <= i <= values@.len(),
            views == values@.map_values(|v: String| v@),
            views == attributes_from(svg@, attribute_key("d"@), 0),
            paths_from(views, i as int) == Ok::<Seq<(Step, Seq<Seq<char>>)>, Seq<char>>(
                segments@.map_values(|s: Segment| segment_view(s)),
            ),
        decreases values.len() - i,
    {
        assert(views[i as int] == values@[i as int]@);
        let ghost before = segments@.map_values(|s: Segment| segment_view(s));
        match path(values[i].as_str(), &mut segments) {
            Err(message) => {
                proof {
                    assert(paths_from(views, i + 1) == Err::<Seq<(Step, Seq<Seq<char>>)>, Seq<char>>(message@));
                    lemma_paths_stay_refused(views, i + 1, values@.len() as int);
                    assert(views == attributes_from(svg@, attribute_key("d"@), 0));
                    assert(paths_from(views, views.len() as int) == Err::<Seq<(Step, Seq<Seq<char>>)>, Seq<char>>(message@));
                }
                return Err(message);
            },
            Ok(()) => {},
        }
        i = i + 1;
    }
    if segments.len() == 0 {
        return Err("no path".to_owned());
    }
    Ok(segments)
}

/// Once a path is refused, every later one leaves it refused.
proof fn lemma_paths_stay_refused(values: Seq<Seq<char>>, n: int, m: int)
    requires
        n <= m,
        paths_from(values, n) is Err,
    ensures
        paths_from(values, m) == paths_from(values, n),
    decreases m - n,
{
    if n < m {
        lemma_paths_stay_refused(values, n, m - 1);
    }
}

} // verus!
