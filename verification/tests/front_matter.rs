//! What a Document's front matter says.

use quill_engine::front_matter::{read, FrontMatter};

/// A block naming all three, and a line the reader passes over.
const FIXTURE: &str = "---\n\
                       title: The Lighthouse\n\
                       author: A. Writer\n\
                       date: 2026-09-04\n\
                       keywords: sea, storm\n\
                       ---\n\
                       \n\
                       The lamp turned all night.\n";

#[test]
fn the_three_keys_are_read_from_the_block_and_nothing_else_is() {
    assert_eq!(
        read(FIXTURE),
        FrontMatter {
            title: Some("The Lighthouse".to_owned()),
            author: Some("A. Writer".to_owned()),
            date: Some("2026-09-04".to_owned()),
        }
    );
}

#[test]
fn a_document_with_no_block_names_nothing() {
    let found = read("# The Lighthouse\n\nThe lamp turned all night.\n");
    assert_eq!(found, FrontMatter::default());
    assert!(found.is_empty());
}

/// A `---` that is not the first thing in the file is a thematic break,
/// and a break is not front matter however it is written.
#[test]
fn a_rule_further_down_the_file_is_not_front_matter() {
    assert_eq!(
        read("The lamp turned all night.\n\n---\n\ntitle: Not a title\n"),
        FrontMatter::default()
    );
}

#[test]
fn a_quoted_value_and_a_bare_one_read_the_same() {
    let bare = read("---\ntitle: The Lighthouse\n---\n");
    let quoted = read("---\ntitle: \"The Lighthouse\"\n---\n");
    let single = read("---\ntitle: 'The Lighthouse'\n---\n");
    assert_eq!(bare.title.as_deref(), Some("The Lighthouse"));
    assert_eq!(quoted, bare);
    assert_eq!(single, bare);
}

/// A colon inside a quoted value belongs to the value: the split is at the
/// first colon, and what follows it is one string however many colons it
/// holds.
#[test]
fn a_value_keeps_the_colons_inside_it() {
    assert_eq!(
        read("---\ntitle: \"The Lighthouse: a life\"\n---\n")
            .title
            .as_deref(),
        Some("The Lighthouse: a life")
    );
}

/// A quote at one end only is a character of the value, not a wrapper.
#[test]
fn a_value_quoted_at_one_end_is_left_whole() {
    assert_eq!(
        read("---\nauthor: \"A. Writer\n---\n").author.as_deref(),
        Some("\"A. Writer")
    );
}

#[test]
fn a_key_with_nothing_after_the_colon_names_nothing() {
    let found = read("---\ntitle:\nauthor:   \ndate: 2026-09-04\n---\n");
    assert_eq!(found.title, None);
    assert_eq!(found.author, None);
    assert_eq!(found.date.as_deref(), Some("2026-09-04"));
    assert!(!found.is_empty());
}

/// A line with no colon, and a key Export does not read, are both passed
/// over rather than being read as the key before them.
#[test]
fn a_line_that_is_no_pair_is_passed_over() {
    assert_eq!(
        read("---\nnot a pair\nsubtitle: a life\n---\n"),
        FrontMatter::default()
    );
}

#[test]
fn the_first_of_two_lines_with_one_key_is_the_one_read() {
    assert_eq!(
        read("---\ntitle: First\ntitle: Second\n---\n")
            .title
            .as_deref(),
        Some("First")
    );
}
