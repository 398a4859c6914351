//! A Document as HTML: the body the parser writes for it, without its front
//! matter, and the parts of the page that are the engine's own, the title's
//! escaping, the font stack's generic family and the stylesheet's heading
//! numbers ([`numbering`]).

use vstd::prelude::*;
use crate::document::Document;
use crate::markdown::{engine_options, events, html_of, kept_of, options, parse, push_html_kept, without_front_matter};
use crate::text::{chars_of, push_char, push_text};

verus! {

/// The body of `document` alone, no head, no stylesheet, no wrapper: the
/// parser's HTML for its text under the engine's options, with the
/// front-matter block dropped whole, so it begins at the first block's own
/// tag. What Copy as HTML puts on the clipboard.
pub fn fragment(document: &Document) -> (html: String)
    ensures
        html@ == html_of(document.spec_text(), engine_options(), kept_of(parse(document.spec_text()))),
{
    let text = document.text();
    let kept = without_front_matter(&events(text));
    push_html_kept(text, options(), &kept)
}

/// What `c` is written as in HTML text: the four characters HTML reads as
/// markup as their entities, and every other character as itself.
pub open spec fn entity(c: char) -> Seq<char> {
    if c == '&' {
        seq!['&', 'a', 'm', 'p', ';']
    } else if c == '<' {
        seq!['&', 'l', 't', ';']
    } else if c == '>' {
        seq!['&', 'g', 't', ';']
    } else if c == '"' {
        seq!['&', 'q', 'u', 'o', 't', ';']
    } else {
        seq![c]
    }
}

/// `text` with each character written as [`entity`] writes it.
pub open spec fn escaped(text: Seq<char>) -> Seq<char>
    decreases text.len(),
{
    if text.len() == 0 {
        seq![]
    } else {
        escaped(text.drop_last()) + entity(text.last())
    }
}

/// `text` with the four characters HTML reads as markup written as entities.
pub fn escape(text: &str) -> (out: String)
    ensures
        out@ == escaped(text@),
{
    let chars = chars_of(text);
    let mut out = String::new();
    let mut i: usize = 0;
    while i < chars.len()
        invariant
            0 <= i <= chars@.len(),
            chars@ == text@,
            out@ == escaped(chars@.take(i as int)),
        decreases chars.len() - i,
    {
        proof {
            assert(chars@.take(i + 1).drop_last() =~= chars@.take(i as int));
        }
        let c = chars[i];
        if c == '&' {
            push_text(&mut out, "&amp;");
            proof {
                reveal_strlit("&amp;");
            }
        } else if c == '<' {
            push_text(&mut out, "&lt;");
            proof {
                reveal_strlit("&lt;");
            }
        } else if c == '>' {
            push_text(&mut out, "&gt;");
            proof {
                reveal_strlit("&gt;");
            }
        } else if c == '"' {
            push_text(&mut out, "&quot;");
            proof {
                reveal_strlit("&quot;");
            }
        } else {
            push_char(&mut out, c);
        }
        proof {
            assert(out@ =~= escaped(chars@.take(i + 1)));
        }
        i = i + 1;
    }
    proof {
        assert(chars@.take(i as int) =~= chars@);
    }
    out
}

/// Whether `text` starts with `prefix`.
pub open spec fn starts_with(text: Seq<char>, prefix: Seq<char>) -> bool {
    prefix.len() <= text.len() && text.take(prefix.len() as int) == prefix
}

/// Whether `text` holds `part` somewhere.
pub open spec fn holds(text: Seq<char>, part: Seq<char>) -> bool {
    exists|at: int| 0 <= at && at + part.len() <= text.len() && #[trigger] text.subrange(at, at + part.len()) == part
}

/// The generic family a prose face falls back to: the Quill Faces are cut
/// on one cell, so `monospace`; a family named a serif is a serif; anything
/// else is set in a sans, which is what a reader's browser sets prose in.
pub open spec fn generic_of(family: Seq<char>) -> &'static str {
    if starts_with(family, "Quill "@) {
        "monospace"
    } else if holds(family, "Serif"@) {
        "serif"
    } else {
        "sans-serif"
    }
}

/// Whether `part` stands in `text` from `at` on.
fn found_at(text: &Vec<char>, part: &Vec<char>, at: usize) -> (yes: bool)
    requires
        at + part@.len() <= text@.len(),
    ensures
        yes == (text@.subrange(at as int, at + part@.len()) == part@),
{
    let n = text.len();
    let mut k: usize = 0;
    while k < part.len()
        invariant
            0 <= k <= part@.len(),
            n == text@.len(),
            at + part@.len() <= text@.len(),
            forall|j: int| 0 <= j < k ==> text@[at + j] == part@[j],
        decreases part.len() - k,
    {
        if text[at + k] != part[k] {
            proof {
                assert(text@.subrange(at as int, at + part@.len())[k as int] != part@[k as int]);
            }
            return false;
        }
        k = k + 1;
    }
    proof {
        assert(text@.subrange(at as int, at + part@.len()) =~= part@);
    }
    true
}

/// The generic family a prose face named `family` falls back to.
pub fn prose_generic(family: &str) -> (generic: &'static str)
    ensures
        generic == generic_of(family@),
{
    let text = chars_of(family);
    let quill = chars_of("Quill ");
    let serif = chars_of("Serif");
    if quill.len() <= text.len() && found_at(&text, &quill, 0) {
        proof {
            assert(text@.subrange(0, quill@.len() as int) =~= text@.take(quill@.len() as int));
        }
        return "monospace";
    }
    proof {
        if quill@.len() <= text@.len() {
            assert(text@.subrange(0, quill@.len() as int) =~= text@.take(quill@.len() as int));
        }
    }
    proof {
        reveal_strlit("Serif");
    }
    if serif.len() <= text.len() {
        let limit = text.len() - serif.len();
        let mut at: usize = 0;
        while at < limit + 1
            invariant
                serif@ == "Serif"@,
                serif@.len() == 5,
                limit < usize::MAX,
                quill@ == "Quill "@,
                text@ == family@,
                limit + serif@.len() == text@.len(),
                !starts_with(text@, quill@),
                forall|k: int| 0 <= k < at ==> #[trigger] text@.subrange(k, k + serif@.len()) != serif@,
                at <= limit + 1,
            decreases limit + 1 - at,
        {
            if found_at(&text, &serif, at) {
                proof {
                    assert(holds(text@, serif@));
                }
                return "serif";
            }
            at = at + 1;
        }
    }
    proof {
        assert(!starts_with(text@, "Quill "@));
        assert(!holds(text@, "Serif"@));
    }
    "sans-serif"
}

/// The digit that writes `level`, 0 to 9.
pub open spec fn digit(level: u8) -> char {
    (48 + level) as char
}

/// The digit that writes `level`.
fn digit_of(level: u8) -> (c: char)
    requires
        level <= 9,
    ensures
        c == digit(level),
{
    (48 + level) as char
}

/// ` hN` for each level from `from` to 6.
pub open spec fn later_heads(from: u8) -> Seq<char>
    decreases 7 - from,
{
    if from > 6 {
        seq![]
    } else {
        " h"@.push(digit(from)) + later_heads((from + 1) as u8)
    }
}

/// ` "." counter(hN)` for each level from `from` to `level`.
pub open spec fn later_counters(from: u8, level: u8) -> Seq<char>
    decreases 7 - from,
{
    if from > level || from > 6 {
        seq![]
    } else {
        " \".\" counter(h"@.push(digit(from)) + ")"@ + later_counters((from + 1) as u8, level)
    }
}

/// The rules for the headings of `level`: the counter it steps, the counters
/// below it it resets, and the number written before it, from H2 down.
pub open spec fn level_rules(level: u8) -> Seq<char> {
    let reset = if level < 6 {
        "\n  counter-reset: h"@.push(digit((level + 1) as u8)) + later_heads((level + 2) as u8) + ";"@
    } else {
        seq![]
    };
    "h"@.push(digit(level)) + " {\n  counter-increment: h"@.push(digit(level)) + ";"@ + reset + "\n}\n\nh"@.push(
        digit(level),
    ) + "::before {\n  content: counter(h2)"@ + later_counters(3, level) + " \" \";\n}\n\n"@
}

/// The rules for each level from `from` to 6.
pub open spec fn rules_from(from: u8) -> Seq<char>
    decreases 7 - from,
{
    if from > 6 {
        seq![]
    } else {
        level_rules(from) + rules_from((from + 1) as u8)
    }
}

/// The counter rules Number Headings comes to: an H1 is the Document's own
/// name and stands bare, the numbering starts under it at H2, each level
/// resets the ones below it, and a number is followed by a space.
pub open spec fn numbering_css() -> Seq<char> {
    "body {\n  counter-reset: h2 h3 h4 h5 h6;\n}\n\n"@ + rules_from(2)
}

/// The counter rules Number Headings comes to, as CSS.
pub fn numbering() -> (css: String)
    ensures
        css@ == numbering_css(),
{
    let mut css = String::new();
    push_text(&mut css, "body {\n  counter-reset: h2 h3 h4 h5 h6;\n}\n\n");
    let ghost start = css@;
    let mut level: u8 = 2;
    while level <= 6
        invariant
            2 <= level <= 7,
            css@ + rules_from(level) == numbering_css(),
        decreases 7 - level,
    {
        let ghost before = css@;
        push_text(&mut css, "h");
        push_char(&mut css, digit_of(level));
        push_text(&mut css, " {\n  counter-increment: h");
        push_char(&mut css, digit_of(level));
        push_text(&mut css, ";");
        let ghost reset_at = css@;
        if level < 6 {
            push_text(&mut css, "\n  counter-reset: h");
            push_char(&mut css, digit_of(level + 1));
            let ghost heads_at = css@;
            let mut below: u8 = level + 2;
            while below <= 6
                invariant
                    level + 2 <= below <= 7,
                    level < 6,
                    css@ + later_heads(below) == heads_at + later_heads((level + 2) as u8),
                decreases 7 - below,
            {
                let ghost was = css@;
                push_text(&mut css, " h");
                push_char(&mut css, digit_of(below));
                proof {
                    assert(css@ + later_heads((below + 1) as u8) =~= was + later_heads(below));
                }
                below = below + 1;
            }
            proof {
                assert(later_heads(below) =~= seq![]);
                assert(css@ =~= heads_at + later_heads((level + 2) as u8));
            }
            push_text(&mut css, ";");
        }
        push_text(&mut css, "\n}\n\nh");
        push_char(&mut css, digit_of(level));
        push_text(&mut css, "::before {\n  content: counter(h2)");
        let ghost counters_at = css@;
        let mut above: u8 = 3;
        while above <= level
            invariant
                3 <= above <= level + 1,
                level <= 6,
                css@ + later_counters(above, level) == counters_at + later_counters(3, level),
            decreases level + 1 - above,
        {
            let ghost was = css@;
            push_text(&mut css, " \".\" counter(h");
            push_char(&mut css, digit_of(above));
            push_text(&mut css, ")");
            proof {
                assert(css@ + later_counters((above + 1) as u8, level) =~= was + later_counters(above, level));
            }
            above = above + 1;
        }
        proof {
            assert(later_counters(above, level) =~= seq![]);
        }
        push_text(&mut css, " \" \";\n}\n\n");
        proof {
            assert(css@ =~= before + level_rules(level));
            assert(before + level_rules(level) + rules_from((level + 1) as u8) =~= before + rules_from(level));
        }
        level = level + 1;
    }
    proof {
        assert(rules_from(level) =~= seq![]);
        assert(css@ =~= numbering_css());
    }
    css
}

} // verus!
