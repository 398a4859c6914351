//! A Document and its file: what a save asks of the disk, and how a watch
//! event on the file is answered, with the disk's answers handed in.

use quill_engine::disk::{within, Filed, Heard, Kept, Noticed, OnDisk, Saved, Step, Version};
use quill_engine::document::Document;

fn version(len: u64, modified: i128) -> Version {
    Version { len, modified }
}

/// A Document as read from `path`, holding `text`, at version `at`.
fn opened(path: &str, text: &str, at: Version) -> Filed {
    let document = Document::holding(text.to_string(), Some(path.to_string()));
    Filed::opened(document, Some(at))
}

#[test]
fn an_untitled_document_asks_for_a_folder_before_it_can_be_saved_whatever_the_disk_says() {
    let mut filed = Filed::untitled();
    assert_eq!(filed.state(), OnDisk::Untitled);
    assert!(filed.autosaves());
    assert_eq!(filed.save(None), Step::Done(Saved::NeedsAFolder));
    assert_eq!(filed.keep(), Step::Done(Saved::NeedsAFolder));
    assert_eq!(filed.path(), None);
    assert_eq!(filed.noticed(false, None), Heard::Answer(Noticed::Unchanged));
}

#[test]
fn a_clean_document_whose_file_changed_reloads_and_keeps_the_carets_block() {
    let mut filed = opened("notes/one.md", "# One\n\nThe lamp.\n", version(17, 1));
    let caret = filed.document().text().find("lamp").expect("finds the word");
    let block = filed.document().block_at(caret);
    assert_eq!(filed.noticed(false, Some(version(17, 1))), Heard::Answer(Noticed::Unchanged));
    assert_eq!(filed.noticed(false, Some(version(29, 2))), Heard::Reload);
    let kept = filed.reloaded("# One\n\nThe lamp had been lit.\n".to_string(), Some(version(29, 2)), caret);
    assert_eq!(kept, Kept { block, caret });
    assert_eq!(filed.state(), OnDisk::Named);
    assert_eq!(filed.document().text(), "# One\n\nThe lamp had been lit.\n");
    assert_eq!(filed.noticed(false, Some(version(29, 2))), Heard::Answer(Noticed::Unchanged));
}

#[test]
fn a_write_under_unsaved_edits_is_a_conflict_until_reload_or_keep() {
    let mut filed = opened("one.md", "one\n", version(4, 1));
    filed.document_mut().reload("ours\n".to_string());
    assert_eq!(filed.noticed(true, Some(version(7, 2))), Heard::Answer(Noticed::Changed));
    assert_eq!(filed.state(), OnDisk::ChangedOnDisk);
    assert!(!filed.autosaves());
    assert_eq!(filed.save(Some(version(7, 2))), Step::Done(Saved::Refused));
    assert_eq!(filed.keep(), Step::Write);
    filed.written(version(5, 3));
    assert_eq!(filed.state(), OnDisk::Named);
    assert!(filed.autosaves());
    assert_eq!(filed.noticed(false, Some(version(5, 3))), Heard::Answer(Noticed::Unchanged));
}

#[test]
fn a_save_on_to_a_file_that_moved_since_is_refused_and_is_a_conflict() {
    let mut filed = opened("one.md", "one\n", version(4, 1));
    assert_eq!(filed.save(Some(version(4, 1))), Step::Write);
    assert_eq!(filed.state(), OnDisk::Named);
    assert_eq!(filed.save(Some(version(18, 2))), Step::Done(Saved::Refused));
    assert_eq!(filed.state(), OnDisk::ChangedOnDisk);
    assert_eq!(filed.noticed(true, Some(version(18, 2))), Heard::Answer(Noticed::Changed));
}

#[test]
fn a_deleted_file_is_recreated_by_the_next_save() {
    let mut filed = opened("one.md", "one\n", version(4, 1));
    assert_eq!(filed.noticed(false, None), Heard::Answer(Noticed::Deleted));
    assert_eq!(filed.state(), OnDisk::DeletedOnDisk);
    assert!(!filed.autosaves());
    assert_eq!(filed.save(None), Step::Write);
    filed.written(version(4, 5));
    assert_eq!(filed.state(), OnDisk::Named);
}

#[test]
fn an_unreadable_file_of_a_clean_document_is_a_conflict() {
    let mut filed = opened("one.md", "one\n", version(4, 1));
    assert_eq!(filed.noticed(false, Some(version(9, 2))), Heard::Reload);
    filed.unreadable();
    assert_eq!(filed.state(), OnDisk::ChangedOnDisk);
}

#[test]
fn a_first_save_fixes_the_name() {
    let mut filed = Filed::untitled();
    filed.document_mut().reload("The Lighthouse\n".to_string());
    filed.saved_in("notes/The Lighthouse.md".to_string(), version(15, 1));
    assert_eq!(filed.state(), OnDisk::Named);
    assert_eq!(filed.path(), Some("notes/The Lighthouse.md"));
    assert_eq!(filed.document().name(), "The Lighthouse");
}

#[test]
fn a_rename_in_one_drain_is_followed_rather_than_read_as_a_delete() {
    let mut filed = opened("notes/one.md", "one\n", version(4, 1));
    assert!(
        !filed.followed(Some(version(4, 1)), &[("notes/two.md".to_string(), Some(version(4, 1)))]),
        "the file is still where it was"
    );
    let batch = [
        ("notes/one.md".to_string(), None),
        ("notes/two.md".to_string(), Some(version(4, 1))),
    ];
    assert!(filed.followed(None, &batch), "it followed");
    assert_eq!(filed.path(), Some("notes/two.md"));
    assert_eq!(filed.state(), OnDisk::Named);

    let elsewhere = [
        ("notes/two.md".to_string(), None),
        ("notes/elsewhere.md".to_string(), Some(version(30, 9))),
        ("notes/picture.png".to_string(), Some(version(4, 1))),
    ];
    assert!(!filed.followed(None, &elsewhere), "nothing in the drain is this file");
    assert_eq!(filed.path(), Some("notes/two.md"));

    let moved_folder = [("archive/two.md".to_string(), Some(version(99, 9)))];
    assert!(filed.followed(None, &moved_folder), "the same name in another folder");
    assert_eq!(filed.path(), Some("archive/two.md"));
}

#[test]
fn a_move_to_nothing_is_a_delete_and_a_conflict_stays_one() {
    let mut filed = opened("one.md", "one\n", version(4, 1));
    filed.moved_to("two.md".to_string(), None);
    assert_eq!(filed.state(), OnDisk::DeletedOnDisk);
    let mut conflict = opened("one.md", "one\n", version(4, 1));
    assert_eq!(conflict.noticed(true, Some(version(8, 2))), Heard::Answer(Noticed::Changed));
    conflict.moved_to("two.md".to_string(), Some(version(8, 2)));
    assert_eq!(conflict.state(), OnDisk::ChangedOnDisk);
}

#[test]
fn a_document_taken_over_is_named_deleted_or_untitled_as_its_path_stands() {
    let named = Filed::around(Document::holding("x\n".to_string(), Some("a.md".to_string())), Some(version(2, 1)));
    assert_eq!(named.state(), OnDisk::Named);
    let gone = Filed::around(Document::holding("x\n".to_string(), Some("a.md".to_string())), None);
    assert_eq!(gone.state(), OnDisk::DeletedOnDisk);
    let untitled = Filed::around(Document::untitled(), Some(version(2, 1)));
    assert_eq!(untitled.state(), OnDisk::Untitled);
}

#[test]
fn a_caret_is_put_back_inside_the_text_and_between_two_characters() {
    assert_eq!(within("abc", 10), 3);
    assert_eq!(within("a\u{2014}b", 2), 1);
    assert_eq!(within("a\u{2014}b", 4), 4);
    assert_eq!(within("", 3), 0);
}
