//! Where the data directory is, and the directories under it.

use quill_engine::data::{fonts, icons, join, marks, resolve, style};

#[test]
fn the_environment_wins() {
    let dir = resolve(
        Some("/tmp/quill-data".to_string()),
        Some("/usr/share/quill"),
        "/home/writer/quill",
    );
    assert_eq!(dir, "/tmp/quill-data");
}

#[test]
fn the_compiled_in_path_is_honoured_when_the_build_wrote_one() {
    let dir = resolve(None, Some("/usr/share/quill"), "/home/writer/quill");
    assert_eq!(dir, "/usr/share/quill");
}

#[test]
fn a_plain_build_resolves_to_the_checkout() {
    let dir = resolve(None, None, "/home/writer/quill");
    assert_eq!(dir, "/home/writer/quill");
}

#[test]
fn an_empty_variable_is_no_variable() {
    let dir = resolve(Some(String::new()), None, "/home/writer/quill");
    assert_eq!(dir, "/home/writer/quill");
}

#[test]
fn the_directories_are_the_data_directory_plus_their_names() {
    let dir = "/usr/share/quill";
    assert_eq!(fonts(dir), "/usr/share/quill/fonts");
    assert_eq!(style(dir), "/usr/share/quill/data/style");
    assert_eq!(marks(dir), "/usr/share/quill/data/marks");
    assert_eq!(icons(dir), "/usr/share/quill/data/icons");
    assert_eq!(join("/usr/share/quill/", "fonts"), "/usr/share/quill/fonts");
    assert_eq!(join("", "fonts"), "fonts");
}
