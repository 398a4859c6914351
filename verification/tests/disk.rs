//! The name a first save derives, a typed name, and the line diff.

use quill_engine::disk::{diff, first_save_name, named, unique_name, Line};

#[test]
fn a_first_line_names_the_file_and_an_empty_document_is_untitled() {
    assert_eq!(
        first_save_name("# The Lamp\n\nIt had been lit.\n"),
        "The Lamp.md"
    );
    assert_eq!(first_save_name(""), "Untitled.md");
    assert_eq!(first_save_name("\n\n   \n"), "Untitled.md");
    assert_eq!(first_save_name("- *A list* item\n"), "A list item.md");
    assert_eq!(first_save_name("> quoted\n"), "quoted.md");
}

#[test]
fn a_name_never_holds_a_character_a_file_name_may_not() {
    assert_eq!(first_save_name("a/b:c*d?e\"f<g>h|i\n"), "abcdefghi.md");
    assert_eq!(first_save_name("...hidden\n"), "hidden.md");
    assert_eq!(first_save_name("///\n"), "Untitled.md");
}

#[test]
fn a_first_line_that_is_already_a_file_name_keeps_its_extension() {
    assert_eq!(first_save_name("notes.txt\n"), "notes.txt");
    assert_eq!(first_save_name("chapter.markdown\n"), "chapter.markdown");
    assert_eq!(first_save_name("version 1.2\n"), "version 1.2.md");
}

#[test]
fn a_derived_name_is_cut_to_eighty_characters_and_its_spaces_collapsed() {
    let long = "x".repeat(100);
    assert_eq!(first_save_name(&format!("{long}\n")), format!("{}.md", "x".repeat(80)));
    assert_eq!(first_save_name("  ##   Two   words  \n"), "Two words.md");
    assert_eq!(first_save_name("####### Seven\n"), "####### Seven.md");
    assert_eq!(first_save_name("#Tight\n"), "#Tight.md");
    assert_eq!(first_save_name("\r\nFirst\r\nSecond\r\n"), "First.md");
}

#[test]
fn a_typed_name_keeps_a_listed_extension_in_any_case() {
    assert_eq!(named("Draft.MD"), "Draft.MD");
    assert_eq!(named("Draft.Text"), "Draft.Text");
    assert_eq!(named("Draft.pdf"), "Draft.pdf.md");
    assert_eq!(named(".md"), "md.md");
    assert_eq!(named("  "), "Untitled.md");
    assert_eq!(named("tab\there"), "tabhere.md");
}

#[test]
fn the_line_diff_lists_the_added_and_the_removed_lines() {
    assert_eq!(
        diff(
            "# One\n\nThe lamp.\nThe end.\n",
            "# One\n\nThe lamp had been lit.\nThe end.\n"
        ),
        vec![
            Line::Same("# One".to_string()),
            Line::Same(String::new()),
            Line::Removed("The lamp.".to_string()),
            Line::Added("The lamp had been lit.".to_string()),
            Line::Same("The end.".to_string()),
        ]
    );
    assert_eq!(diff("one\n", "one\n"), vec![Line::Same("one".to_string())]);
    assert_eq!(diff("", "one\n"), vec![Line::Added("one".to_string())]);
    assert_eq!(diff("one\n", ""), vec![Line::Removed("one".to_string())]);
}

#[test]
fn the_line_diff_walks_only_what_lies_between_the_common_head_and_tail() {
    let before: String = (0..20_000).map(|nth| format!("line {nth}\n")).collect();
    let after = before.replace("line 10000\n", "line ten thousand\n");
    let lines = diff(&before, &after);

    assert_eq!(lines.len(), 20_001);
    assert_eq!(lines[10_000], Line::Removed("line 10000".to_string()));
    assert_eq!(lines[10_001], Line::Added("line ten thousand".to_string()));
}

#[test]
fn a_diff_holds_every_line_of_both_texts_in_order() {
    let before = "a\nb\nc\nd\ne\n";
    let after = "a\nc\nx\nd\ny\n";
    let lines = diff(before, after);
    let olds: Vec<&str> = lines
        .iter()
        .filter_map(|line| match line {
            Line::Same(text) | Line::Removed(text) => Some(text.as_str()),
            Line::Added(_) => None,
        })
        .collect();
    let news: Vec<&str> = lines
        .iter()
        .filter_map(|line| match line {
            Line::Same(text) | Line::Added(text) => Some(text.as_str()),
            Line::Removed(_) => None,
        })
        .collect();
    assert_eq!(olds, before.lines().collect::<Vec<_>>());
    assert_eq!(news, after.lines().collect::<Vec<_>>());
    assert_eq!(
        lines,
        vec![
            Line::Same("a".to_string()),
            Line::Removed("b".to_string()),
            Line::Same("c".to_string()),
            Line::Added("x".to_string()),
            Line::Same("d".to_string()),
            Line::Removed("e".to_string()),
            Line::Added("y".to_string()),
        ]
    );
}

#[test]
fn a_name_taken_in_the_folder_gets_the_oracles_suffix() {
    let mut taken: Vec<String> = Vec::new();
    assert_eq!(unique_name(&taken, "The Lamp.md"), "The Lamp.md");
    taken.push("The Lamp.md".to_string());
    assert_eq!(unique_name(&taken, "The Lamp.md"), "The Lamp 2.md");
    taken.push("the lamp 2.md".to_string());
    assert_eq!(unique_name(&taken, "The Lamp.md"), "The Lamp 3.md");
    assert_eq!(unique_name(&taken, "the LAMP.md"), "the LAMP 3.md");
}

#[test]
fn a_name_without_a_listed_extension_is_suffixed_whole() {
    let taken = vec!["notes.pdf".to_string(), "draft".to_string()];
    assert_eq!(unique_name(&taken, "notes.pdf"), "notes.pdf 2");
    assert_eq!(unique_name(&taken, "draft"), "draft 2");
    let full: Vec<String> = std::iter::once("x.md".to_string())
        .chain((2..=999).map(|n| format!("x {n}.md")))
        .collect();
    assert_eq!(unique_name(&full, "x.md"), "x.md");
}

#[test]
fn white_space_before_a_dot_does_not_keep_the_dot() {
    assert_eq!(named(" .x"), "x.md");
    assert_eq!(named(" . .notes.txt "), "notes.txt");
    assert_eq!(named("\t..."), "Untitled.md");
}

#[test]
fn the_diff_keeps_as_many_lines_as_the_two_texts_share_in_order() {
    // "b", "c" and "e" are the longest run both have, in order.
    let lines = diff("a\nb\nx\nc\ne\n", "b\nc\ny\ne\nz\n");
    let kept: Vec<&str> = lines
        .iter()
        .filter_map(|line| match line {
            Line::Same(text) => Some(text.as_str()),
            _ => None,
        })
        .collect();
    assert_eq!(kept, ["b", "c", "e"]);
}
