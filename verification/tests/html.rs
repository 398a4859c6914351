//! The page's own text: the escaped title and the font stack's generic.

use quill_engine::document::Document;
use quill_engine::html::{escape, fragment, numbering, prose_generic};

#[test]
fn a_name_with_markup_in_it_is_escaped_into_the_title() {
    assert_eq!(escape("a <b> & \"c\""), "a &lt;b&gt; &amp; &quot;c&quot;");
}

#[test]
fn a_name_without_markup_is_its_own_title() {
    assert_eq!(escape("The Lighthouse's keeper"), "The Lighthouse's keeper");
    assert_eq!(escape(""), "");
    assert_eq!(escape("é&é"), "é&amp;é");
}

#[test]
fn each_family_falls_back_to_its_generic() {
    assert_eq!(prose_generic("Quill Mono"), "monospace");
    assert_eq!(prose_generic("Source Serif 4"), "serif");
    assert_eq!(prose_generic("Inter"), "sans-serif");
    assert_eq!(prose_generic("Quill"), "sans-serif");
    assert_eq!(prose_generic("Serif"), "serif");
}

fn holding(text: &str) -> Document {
    Document::holding(text.to_string(), None)
}

#[test]
fn the_front_matter_does_not_reach_the_fragment() {
    let document = holding("---\ntitle: Kept out\nauthor: Her\n---\n\n# Heading\n\nProse.\n");
    let html = fragment(&document);
    assert!(!html.contains("Kept out"), "{html}");
    assert!(!html.contains("author"), "{html}");
    assert_eq!(html, "<h1>Heading</h1>\n<p>Prose.</p>\n", "the fragment begins at the first block's tag");
}

#[test]
fn the_fragment_is_the_body_alone() {
    let html = fragment(&holding("# The Lighthouse\n\nThe **bottle** and *more*.\n\n- the good knife\n"));
    assert!(html.starts_with("<h1>The Lighthouse</h1>"), "{html}");
    assert!(html.contains("<strong>bottle</strong>"), "{html}");
    assert!(html.contains("<li>the good knife</li>"), "{html}");
    for furniture in ["<style", "<html", "<head", "<body", "<!DOCTYPE", "**", "# "] {
        assert!(!html.contains(furniture), "{furniture} in {html}");
    }
}

#[test]
fn number_headings_counts_from_h2_and_each_level_resets_the_ones_below() {
    let mut expected = String::from("body {\n  counter-reset: h2 h3 h4 h5 h6;\n}\n\n");
    for level in 2..=6_u8 {
        let deeper: Vec<String> = ((level + 1)..=6).map(|below| format!("h{below}")).collect();
        let reset = if deeper.is_empty() {
            String::new()
        } else {
            format!("\n  counter-reset: {};", deeper.join(" "))
        };
        let number: Vec<String> = (2..=level).map(|above| format!("counter(h{above})")).collect();
        expected.push_str(&format!(
            "h{level} {{\n  counter-increment: h{level};{reset}\n}}\n\nh{level}::before {{\n  content: {} \" \";\n}}\n\n",
            number.join(" \".\" "),
        ));
    }
    let css = numbering();
    assert_eq!(css, expected);
    assert!(css.contains("h3::before {\n  content: counter(h2) \".\" counter(h3) \" \";\n}"));
    assert!(!css.contains("h1"), "an H1 stands bare");
}
