use quill_engine::markdown::{events, options, prose, reference, Token};

/// The prose stream of `source` as the words alone, in order.
fn words(source: &str) -> Vec<String> {
    prose(source).into_iter().map(|run| run.text).collect()
}

#[test]
fn front_matter_is_not_prose() {
    let source = "---\ntitle: The Lighthouse\n---\n\nThe lamp was lit.\n";
    assert_eq!(words(source), ["The lamp was lit."]);
}

#[test]
fn an_autolinks_url_is_not_prose_even_though_it_is_the_links_text() {
    let source = "Written up at <https://example.org/keepers-book> in full.\n";
    assert_eq!(words(source), ["Written up at ", " in full."]);
}

#[test]
fn a_reference_label_resolves_to_the_definitions_destination_whatever_its_case() {
    let source = "See [the book][Ref] for it.\n\n[ref]: https://example.org/book\n";
    assert_eq!(reference(source, "Ref").as_deref(), Some("https://example.org/book"));
    assert_eq!(reference(source, "missing"), None);
}

#[test]
fn code_of_either_kind_is_not_prose_and_emphasis_splits_the_words() {
    let source = "# The Lighthouse\n\nIt was *small*, and `lit`.\n\n```\n21:40\n```\n\n    indented\n";
    assert_eq!(words(source), ["The Lighthouse", "It was ", "small", ", and ", "."]);
}

#[test]
fn every_prose_range_names_the_source_bytes_it_was_read_from() {
    let source = "Tom &amp; Jerry — *the café* and [a link](https://example.org) — end.\n";
    for run in prose(source) {
        assert_eq!(&source[run.at.clone()], run.text);
    }
}

#[test]
fn the_option_set_is_the_gfm_constructs_and_front_matter_never_smart_punctuation() {
    let options = options();
    for (name, on) in [
        ("tables", options.tables),
        ("footnotes", options.footnotes),
        ("strikethrough", options.strikethrough),
        ("task lists", options.task_lists),
        ("front matter", options.front_matter),
    ] {
        assert!(on, "{name} is not enabled");
    }
    assert!(
        !options.smart_punctuation,
        "smart punctuation would rewrite the writer's own bytes"
    );
}

#[test]
fn smart_punctuation_being_off_leaves_the_writers_quotes_and_dashes_alone() {
    let source = "She said \"no\" -- twice.\n";
    let text: String = events(source)
        .into_iter()
        .filter(|event| event.token == Token::Text)
        .map(|event| event.words.unwrap())
        .collect();
    assert!(
        text.contains("\"no\"") && text.contains("--"),
        "the parser rewrote the source's punctuation: {text}"
    );
}

#[test]
fn an_email_autolinks_address_is_not_prose_either() {
    assert_eq!(words("Write to <someone@example.com> today.\n"), ["Write to ", " today."]);
}
