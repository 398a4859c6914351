//! Characters and strings: the handful of `str` and `String` operations the
//! engine needs that the verifier's standard library does not already specify,
//! each a thin call of the standard library with the contract its documentation
//! gives.

use vstd::prelude::*;
use vstd::string::StringSliceAdditionalSpecFns;
use vstd::utf8::encode_utf8;

verus! {

broadcast use vstd::string::group_string_axioms;

/// Whether two strings hold the same characters.
pub fn same(one: &str, other: &str) -> (yes: bool)
    ensures
        yes == (one@ == other@),
{
    let a = chars_of(one);
    let b = chars_of(other);
    if a.len() != b.len() {
        return false;
    }
    let mut k: usize = 0;
    while k < a.len()
        invariant
            0 <= k <= a@.len(),
            a@.len() == b@.len(),
            a@ == one@,
            b@ == other@,
            forall|j: int| 0 <= j < k ==> a@[j] == b@[j],
        decreases a.len() - k,
    {
        if a[k] != b[k] {
            assert(one@[k as int] != other@[k as int]);
            return false;
        }
        k = k + 1;
    }
    proof {
        assert(a@ =~= b@);
    }
    true
}

/// Calls `String::push`: `c` added at the end of `s`.
#[verifier::external_body]
pub fn push_char(s: &mut String, c: char)
    ensures
        final(s)@ == old(s)@.push(c),
{
    s.push(c)
}

/// The characters of `s`, in order.
pub fn chars_of(s: &str) -> (chars: Vec<char>)
    ensures
        chars@ == s@,
{
    let mut chars: Vec<char> = Vec::new();
    for c in it: s.chars()
        invariant
            chars@ == it.seq().take(it.index()),
    {
        chars.push(c);
    }
    chars
}


/// Whether `chars` are the characters of `text`.
pub fn is_text(chars: &Vec<char>, text: &str) -> (yes: bool)
    ensures
        yes == (chars@ == text@),
{
    let n = text.unicode_len();
    if chars.len() != n {
        return false;
    }
    let mut i: usize = 0;
    while i < n
        invariant
            0 <= i <= n,
            n == text@.len() == chars@.len(),
            forall|k: int| 0 <= k < i ==> chars@[k] == text@[k],
        decreases n - i,
    {
        if chars[i] != text.get_char(i) {
            return false;
        }
        i = i + 1;
    }
    proof {
        assert(chars@ == text@);
    }
    true
}

/// A `String` holding `chars`.
pub fn string_of(chars: &Vec<char>) -> (s: String)
    ensures
        s@ == chars@,
{
    let mut s = String::new();
    let mut i: usize = 0;
    while i < chars.len()
        invariant
            0 <= i <= chars@.len(),
            s@ == chars@.take(i as int),
        decreases chars.len() - i,
    {
        push_char(&mut s, chars[i]);
        proof {
            assert(chars@.take(i as int + 1) == chars@.take(i as int).push(chars@[i as int]));
        }
        i = i + 1;
    }
    proof {
        assert(chars@.take(i as int) == chars@);
    }
    s
}

/// `s` with `text` added at the end.
pub fn push_text(s: &mut String, text: &str)
    ensures
        final(s)@ == old(s)@ + text@,
{
    s.append(text);
}

/// An ASCII letter.
pub open spec fn is_ascii_letter(c: char) -> bool {
    ('a' <= c && c <= 'z') || ('A' <= c && c <= 'Z')
}

/// An ASCII digit.
pub open spec fn is_ascii_digit(c: char) -> bool {
    '0' <= c && c <= '9'
}

/// `c` with an ASCII capital made small, and anything else as it is.
pub open spec fn ascii_lower(c: char) -> char {
    if 'A' <= c && c <= 'Z' {
        ((c as u32) + 32) as char
    } else {
        c
    }
}

/// `c` with an ASCII capital made small, `'A'` to `'Z'` made `'a'` to
/// `'z'`, and every other character as it is.
pub fn to_ascii_lower(c: char) -> (lower: char)
    ensures
        lower == ascii_lower(c),
{
    if 'A' <= c && c <= 'Z' {
        let b = c as u8;
        assert(b as u32 == c as u32);
        (b + 32) as char
    } else {
        c
    }
}

/// How many bytes UTF-8 spends on `c`: one below U+0080, two below U+0800,
/// three below U+10000, four above.
pub open spec fn utf8_len(c: char) -> nat {
    if (c as u32) < 0x80 {
        1
    } else if (c as u32) < 0x800 {
        2
    } else if (c as u32) < 0x10000 {
        3
    } else {
        4
    }
}

/// How many bytes UTF-8 spends on `s`.
pub open spec fn utf8_size(s: Seq<char>) -> nat
    decreases s.len(),
{
    if s.len() == 0 {
        0
    } else {
        utf8_size(s.drop_last()) + utf8_len(s.last())
    }
}

/// A prefix of `s` takes no more bytes than `s`.
pub proof fn lemma_utf8_size_prefix(s: Seq<char>, i: int)
    requires
        0 <= i <= s.len(),
    ensures
        utf8_size(s.take(i)) <= utf8_size(s),
    decreases s.len() - i,
{
    if i < s.len() {
        lemma_utf8_size_prefix(s, i + 1);
        assert(s.take(i + 1).drop_last() =~= s.take(i));
    } else {
        assert(s.take(i) =~= s);
    }
}

/// The bytes of `s` are the first character's and then the rest's.
proof fn lemma_utf8_size_front(s: Seq<char>)
    requires
        s.len() > 0,
    ensures
        utf8_size(s) == utf8_len(s[0]) + utf8_size(s.drop_first()),
    decreases s.len(),
{
    if s.len() > 1 {
        lemma_utf8_size_front(s.drop_last());
        assert(s.drop_last().drop_first() =~= s.drop_first().drop_last());
        assert(s.drop_first().last() == s.last());
        assert(s.drop_last()[0] == s[0]);
    } else {
        assert(s.drop_last() =~= Seq::<char>::empty());
        assert(s.drop_first() =~= Seq::<char>::empty());
    }
}

/// UTF-8 spends [`utf8_size`] bytes on a text.
pub proof fn lemma_encoded_size(s: Seq<char>)
    ensures
        encode_utf8(s).len() == utf8_size(s),
    decreases s.len(),
{
    if s.len() > 0 {
        lemma_encoded_size(s.drop_first());
        lemma_utf8_size_front(s);
        vstd::utf8::char_is_scalar(s[0]);
    }
}

/// How many bytes `s` is: a `str` is UTF-8, and its length is its bytes.
pub fn byte_len(s: &str) -> (n: usize)
    ensures
        n == utf8_size(s@),
{
    proof {
        lemma_encoded_size(s@);
    }
    s.as_bytes().len()
}

/// How many bytes UTF-8 spends on `c`.
pub fn width(c: char) -> (w: usize)
    ensures
        w == utf8_len(c),
{
    let code = c as u32;
    if code < 0x80 {
        1
    } else if code < 0x800 {
        2
    } else if code < 0x10000 {
        3
    } else {
        4
    }
}

/// What `char::to_lowercase` yields for `c`: its full lower case by
/// Unicode's tables, one character or more, and `c` itself where Unicode
/// gives it no other.
pub uninterp spec fn lower_all(c: char) -> Seq<char>;

/// The first character `char::to_lowercase` yields for `c`.
pub open spec fn lowered(c: char) -> char {
    if lower_all(c).len() > 0 {
        lower_all(c)[0]
    } else {
        c
    }
}

/// Calls `char::to_lowercase` and keeps its first character, or `c` where it
/// yields none. An ASCII character lower-cases as ASCII does: a capital to
/// its small letter, anything else to itself.
#[verifier::external_body]
pub fn lower(c: char) -> (l: char)
    ensures
        l == lowered(c),
        (c as u32) < 0x80 ==> l == ascii_lower(c),
{
    c.to_lowercase().next().unwrap_or(c)
}

/// Calls `char::to_lowercase` and keeps every character it yields, of which
/// its documentation promises one or more; an ASCII character yields its
/// ASCII lower case alone.
#[verifier::external_body]
pub fn lower_chars(c: char) -> (l: Vec<char>)
    ensures
        l@ == lower_all(c),
        l@.len() >= 1,
        (c as u32) < 0x80 ==> l@ == seq![ascii_lower(c)],
{
    c.to_lowercase().collect()
}

/// What `str::to_lowercase` makes of `s`: each character's full lower case
/// by Unicode's tables, with the final-sigma rule.
pub uninterp spec fn lowercase(s: Seq<char>) -> Seq<char>;

/// Calls `str::to_lowercase`. The empty text stays empty, and a text of
/// ASCII characters alone lower-cases character for character as ASCII
/// does.
#[verifier::external_body]
pub fn to_lower(s: &str) -> (l: String)
    ensures
        l@ == lowercase(s@),
        s@.len() == 0 ==> l@.len() == 0,
        (forall|k: int| 0 <= k < s@.len() ==> (#[trigger] s@[k] as u32) < 0x80) ==> l@ == s@.map_values(
            |c: char| ascii_lower(c),
        ),
{
    s.to_lowercase()
}

/// Whether `c` has Unicode's `White_Space` property, the set `str::trim`
/// strips.
pub open spec fn is_white(c: char) -> bool {
    ||| '\t' <= c && c <= '\r'
    ||| c == ' '
    ||| c == '\u{85}'
    ||| c == '\u{a0}'
    ||| c == '\u{1680}'
    ||| '\u{2000}' <= c && c <= '\u{200a}'
    ||| c == '\u{2028}'
    ||| c == '\u{2029}'
    ||| c == '\u{202f}'
    ||| c == '\u{205f}'
    ||| c == '\u{3000}'
}

/// `s` without the white space it opens with.
pub open spec fn trim_start(s: Seq<char>) -> Seq<char>
    decreases s.len(),
{
    if s.len() > 0 && is_white(s[0]) {
        trim_start(s.drop_first())
    } else {
        s
    }
}

/// `s` without the white space it ends with.
pub open spec fn trim_end(s: Seq<char>) -> Seq<char>
    decreases s.len(),
{
    if s.len() > 0 && is_white(s.last()) {
        trim_end(s.drop_last())
    } else {
        s
    }
}

/// `s` without white space at either end, as `str::trim` leaves it.
pub open spec fn trimmed(s: Seq<char>) -> Seq<char> {
    trim_end(trim_start(s))
}

/// Whether `c` has Unicode's `White_Space` property.
pub fn white(c: char) -> (yes: bool)
    ensures
        yes == is_white(c),
{
    ('\t' <= c && c <= '\r') || c == ' ' || c == '\u{85}' || c == '\u{a0}' || c == '\u{1680}'
        || ('\u{2000}' <= c && c <= '\u{200a}') || c == '\u{2028}' || c == '\u{2029}'
        || c == '\u{202f}' || c == '\u{205f}' || c == '\u{3000}'
}

pub proof fn lemma_trim_start_skip(s: Seq<char>, i: int)
    requires
        0 <= i <= s.len(),
        forall|k: int| 0 <= k < i ==> is_white(#[trigger] s[k]),
    ensures
        trim_start(s) == trim_start(s.skip(i)),
    decreases i,
{
    if i > 0 {
        assert(s.drop_first().skip(i - 1) =~= s.skip(i));
        lemma_trim_start_skip(s.drop_first(), i - 1);
    } else {
        assert(s.skip(0) =~= s);
    }
}

pub proof fn lemma_trim_end_take(s: Seq<char>, j: int)
    requires
        0 <= j <= s.len(),
        forall|k: int| j <= k < s.len() ==> is_white(#[trigger] s[k]),
    ensures
        trim_end(s) == trim_end(s.take(j)),
    decreases s.len() - j,
{
    if j < s.len() {
        assert(s.drop_last().take(j) =~= s.take(j));
        lemma_trim_end_take(s.drop_last(), j);
    } else {
        assert(s.take(j) =~= s);
    }
}

/// The characters of `s` without white space at either end.
pub fn trim(s: &str) -> (kept: String)
    ensures
        kept@ == trimmed(s@),
{
    let chars = chars_of(s);
    let n = chars.len();
    let mut start: usize = 0;
    while start < n && white(chars[start])
        invariant
            0 <= start <= n,
            n == chars@.len(),
            forall|k: int| 0 <= k < start ==> is_white(#[trigger] chars@[k]),
        decreases n - start,
    {
        start = start + 1;
    }
    let mut end: usize = n;
    while end > start && white(chars[end - 1])
        invariant
            start <= end <= n,
            n == chars@.len(),
            forall|k: int| end <= k < n ==> is_white(#[trigger] chars@[k]),
        decreases end,
    {
        end = end - 1;
    }
    let mut kept = String::new();
    let mut i: usize = start;
    while i < end
        invariant
            start <= i <= end <= n,
            n == chars@.len(),
            kept@ == chars@.subrange(start as int, i as int),
        decreases end - i,
    {
        push_char(&mut kept, chars[i]);
        proof {
            assert(chars@.subrange(start as int, i + 1) =~= chars@.subrange(start as int, i as int).push(chars@[i as int]));
        }
        i = i + 1;
    }
    proof {
        let t = chars@;
        lemma_trim_start_skip(t, start as int);
        let rest = t.skip(start as int);
        assert(start == n || !is_white(rest[0]));
        assert(trim_start(rest) == rest);
        let j = end - start;
        assert forall|k: int| j <= k < rest.len() implies is_white(#[trigger] rest[k]) by {
            assert(rest[k] == t[k + start]);
        }
        lemma_trim_end_take(rest, j);
        let mid = rest.take(j);
        assert(mid =~= t.subrange(start as int, end as int));
        if j > 0 {
            assert(mid.last() == t[end - 1]);
        }
        assert(trim_end(mid) == mid);
    }
    kept
}

/// Where the words of `chars` begin from `from` on: past the white space
/// that opens `chars.skip(from)`.
pub fn skip_white(chars: &Vec<char>, from: usize) -> (at: usize)
    requires
        from <= chars@.len(),
    ensures
        from <= at <= chars@.len(),
        chars@.skip(at as int) == trim_start(chars@.skip(from as int)),
{
    let mut at: usize = from;
    while at < chars.len() && white(chars[at])
        invariant
            from <= at <= chars@.len(),
            forall|k: int| from <= k < at ==> is_white(#[trigger] chars@[k]),
        decreases chars.len() - at,
    {
        at = at + 1;
    }
    proof {
        let rest = chars@.skip(from as int);
        assert forall|k: int| 0 <= k < at - from implies is_white(#[trigger] rest[k]) by {
            assert(rest[k] == chars@[k + from]);
        }
        lemma_trim_start_skip(rest, at - from);
        assert(rest.skip(at - from) =~= chars@.skip(at as int));
        if at < chars@.len() {
            assert(chars@.skip(at as int)[0] == chars@[at as int]);
        }
    }
    at
}

/// `chars` without white space at either end.
pub fn trim_chars(chars: &Vec<char>) -> (kept: Vec<char>)
    ensures
        kept@ == trimmed(chars@),
{
    let n = chars.len();
    let start = skip_white(chars, 0);
    let mut end: usize = n;
    while end > start && white(chars[end - 1])
        invariant
            start <= end <= n,
            n == chars@.len(),
            forall|k: int| end <= k < n ==> is_white(#[trigger] chars@[k]),
        decreases end,
    {
        end = end - 1;
    }
    let mut kept: Vec<char> = Vec::new();
    let mut i: usize = start;
    while i < end
        invariant
            start <= i <= end <= n,
            n == chars@.len(),
            kept@ == chars@.subrange(start as int, i as int),
        decreases end - i,
    {
        kept.push(chars[i]);
        proof {
            assert(chars@.subrange(start as int, i + 1) =~= chars@.subrange(start as int, i as int).push(chars@[i as int]));
        }
        i = i + 1;
    }
    proof {
        let t = chars@;
        assert(t.skip(0) =~= t);
        let rest = t.skip(start as int);
        let j = end - start;
        assert forall|k: int| j <= k < rest.len() implies is_white(#[trigger] rest[k]) by {
            assert(rest[k] == t[k + start]);
        }
        lemma_trim_end_take(rest, j);
        let mid = rest.take(j);
        assert(mid =~= t.subrange(start as int, end as int));
        if j > 0 {
            assert(mid.last() == t[end - 1]);
        }
        assert(trim_end(mid) == mid);
    }
    kept
}

/// The characters of `s` that lie wholly within the bytes `start..end` of
/// its UTF-8 encoding, in order: the text those bytes hold where both ends
/// fall between characters.
pub open spec fn chars_in(s: Seq<char>, start: int, end: int) -> Seq<char>
    decreases s.len(),
{
    if s.len() == 0 {
        seq![]
    } else {
        let before = chars_in(s.drop_last(), start, end);
        if start <= utf8_size(s.drop_last()) && utf8_size(s) <= end {
            before.push(s.last())
        } else {
            before
        }
    }
}

/// The characters of `chars` that lie wholly within the bytes `start..end`
/// of their UTF-8 encoding, `total` bytes long.
pub fn text_in(chars: &Vec<char>, total: usize, start: usize, end: usize) -> (text: String)
    requires
        total == utf8_size(chars@),
    ensures
        text@ == chars_in(chars@, start as int, end as int),
{
    let mut text = String::new();
    let mut at: usize = 0;
    let mut i: usize = 0;
    while i < chars.len()
        invariant
            0 <= i <= chars@.len(),
            total == utf8_size(chars@),
            at == utf8_size(chars@.take(i as int)),
            text@ == chars_in(chars@.take(i as int), start as int, end as int),
        decreases chars.len() - i,
    {
        proof {
            lemma_utf8_size_prefix(chars@, i + 1);
            assert(chars@.take(i + 1).drop_last() =~= chars@.take(i as int));
        }
        let next = at + width(chars[i]);
        if start <= at && next <= end {
            push_char(&mut text, chars[i]);
        }
        at = next;
        i = i + 1;
    }
    proof {
        assert(chars@.take(i as int) =~= chars@);
    }
    text
}

/// The characters wholly within a stretch of bytes take no more bytes than
/// the stretch, and no more than the text they are taken from.
pub proof fn lemma_chars_in_size(s: Seq<char>, start: int, end: int)
    ensures
        utf8_size(chars_in(s, start, end)) == 0 || utf8_size(chars_in(s, start, end)) + start <= (if utf8_size(s)
            < end {
            utf8_size(s) as int
        } else {
            end
        }),
    decreases s.len(),
{
    if s.len() > 0 {
        let q = s.drop_last();
        lemma_chars_in_size(q, start, end);
        if start <= utf8_size(q) && utf8_size(s) <= end {
            let c = chars_in(q, start, end);
            assert(c.push(s.last()).drop_last() =~= c);
        }
    }
}

} // verus!
