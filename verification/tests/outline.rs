use quill_engine::document::{block_at, index, Document};
use quill_engine::outline::{of_blocks, section};

/// `text` as a Document.
fn held(text: &str) -> Document {
    let mut document = Document::untitled();
    document.reload(text.to_string());
    document
}

/// The Outline of `text` as `(level, words, byte the words start at)`.
fn outlined(text: &str) -> Vec<(u8, String, usize)> {
    of_blocks(&held(text))
        .into_iter()
        .map(|heading| (heading.level, heading.text, heading.source.start))
        .collect()
}

/// A setext pair is levels 1 and 2 with the underline outside the words.
#[test]
fn a_setext_heading_is_its_words_without_the_underline() {
    assert_eq!(
        outlined("Title\n=====\n\nSub\n---\n\nText.\n"),
        vec![(1, "Title".to_string(), 0), (2, "Sub".to_string(), 13)]
    );
}

/// The `#`s and the space after them go, so do closing `#`s, and inline
/// markup inside the words stays as the page shows it.
#[test]
fn markers_are_stripped_and_inline_markup_is_kept() {
    assert_eq!(
        outlined("##   *Two* words ##\n\n### C#\n"),
        vec![(2, "*Two* words".to_string(), 5), (3, "C#".to_string(), 25)]
    );
}

/// A `#` line inside a fence and a heading inside a quote are not
/// headings of the Document, and an empty Document has no Outline.
#[test]
fn what_is_not_a_heading_block_is_not_in_the_outline() {
    assert_eq!(
        outlined("```\n# not one\n```\n\n> # nor this\n\n# This\n"),
        vec![(1, "This".to_string(), 35)]
    );
    assert_eq!(outlined(""), vec![]);
    assert_eq!(outlined("A paragraph.\n"), vec![]);
}

/// The caret's section: none above the first heading, the heading whose
/// own line the caret is on, the last heading inside the last section.
#[test]
fn the_carets_section_is_the_last_heading_at_or_above_it() {
    let document = held("Before.\n\n# One\n\nA line.\n\n## Two\n\nLast words.\n");
    let headings = of_blocks(&document);
    assert_eq!(section(&document, &headings, 3), None);
    assert_eq!(section(&document, &headings, 9), Some(0));
    assert_eq!(section(&document, &headings, 18), Some(0));
    assert_eq!(section(&document, &headings, 26), Some(1));
    assert_eq!(
        section(&document, &headings, document.text().len()),
        Some(1)
    );
}

#[test]
fn a_heading_names_its_block_and_its_words_are_its_bytes() {
    let text = "Intro.\n\n## Second level\n\nBody.\n";
    let headings = of_blocks(&held(text));
    assert_eq!(headings.len(), 1);
    let heading = &headings[0];
    assert_eq!(heading.level, 2);
    assert_eq!(heading.source, 11..23);
    assert_eq!(&text[heading.source.clone()], heading.text);
    let blocks = index(text, 0);
    assert_eq!(blocks[heading.block].at.start, 8);
}

#[test]
fn a_run_of_more_than_six_hashes_is_not_a_heading_and_six_is_level_six() {
    assert_eq!(outlined("###### Six\n"), vec![(6, "Six".to_string(), 7)]);
    assert_eq!(outlined("####### Seven\n"), vec![]);
}

#[test]
fn a_line_of_nothing_but_hashes_says_nothing() {
    assert_eq!(outlined("# ###\n"), vec![(1, String::new(), 2)]);
}

#[test]
fn a_closing_run_counts_only_after_a_space() {
    assert_eq!(outlined("# Sharp#\n"), vec![(1, "Sharp#".to_string(), 2)]);
    assert_eq!(outlined("# Sharp #\t\n"), vec![(1, "Sharp".to_string(), 2)]);
}

#[test]
fn a_setext_heading_over_two_lines_runs_from_the_first_to_the_last() {
    let text = "One\nTwo\n---\n";
    let headings = of_blocks(&held(text));
    assert_eq!(headings.len(), 1);
    assert_eq!(headings[0].level, 2);
    assert_eq!(headings[0].source, 0..7);
    assert_eq!(headings[0].text, "One\nTwo");
}

#[test]
fn the_end_of_the_text_is_in_the_last_block_and_past_it_is_nowhere() {
    let text = "# One\n\nText.\n";
    let blocks = index(text, 0);
    let last = blocks.len() - 1;
    assert_eq!(block_at(&blocks, text.len(), text.len()), Some(last));
    assert_eq!(block_at(&blocks, text.len(), 0), Some(0));
    assert_eq!(block_at(&blocks, text.len(), text.len() + 5), None);
    assert_eq!(block_at(&[], 0, 0), None);
}
