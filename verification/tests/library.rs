use quill_engine::library::{File, Found, Library, Listing, Pin, Row, Sort, TreeView};

/// A folder read as holding `folders` and the files `files`, none of them
/// with a write time.
fn folder(folders: Vec<(&str, Listing)>, files: Vec<&str>) -> Listing {
    Listing {
        modified: None,
        folders: folders.into_iter().map(|(name, listing)| (name.to_string(), listing)).collect(),
        files: files.into_iter().map(|name| (name.to_string(), None)).collect(),
    }
}

/// A folder read as holding only files, each written `seconds` after the
/// epoch.
fn dated(files: Vec<(&str, i128)>) -> Listing {
    Listing {
        modified: None,
        folders: Vec::new(),
        files: files
            .into_iter()
            .map(|(name, seconds)| (name.to_string(), Some(seconds * 1_000_000_000)))
            .collect(),
    }
}

/// A Library of the one Location at `root`, read as `listing`.
fn walked(root: &str, listing: Listing) -> Library {
    Library::open(vec![(root.to_string(), Some(listing))], &[])
}

/// The names of every shown row of every section, in the order drawn.
fn names(library: &Library, view: &TreeView) -> Vec<String> {
    library
        .shown(view)
        .into_iter()
        .flat_map(|section| section.rows)
        .map(|row| row.name().to_string())
        .collect()
}

fn by_name() -> TreeView {
    TreeView { show_hidden: false, sort: Sort::Name }
}

#[test]
fn a_walked_location_lists_folders_first_and_only_the_four_extensions() {
    let listing = folder(
        vec![("Notes", folder(vec![], vec!["deep.md"]))],
        vec!["alpha.md", "beta.txt", "delta.markdown", "gamma.text", "ignored.rs", "README"],
    );
    let library = walked("/walked", listing);
    assert_eq!(
        names(&library, &by_name()),
        ["Notes", "deep.md", "alpha.md", "beta.txt", "delta.markdown", "gamma.text"]
    );
}

#[test]
fn an_extension_is_listed_whatever_its_case() {
    let library = walked("/cased", folder(vec![], vec!["SHOUTED.MD", "quiet.Markdown"]));
    assert_eq!(names(&library, &by_name()), ["quiet.Markdown", "SHOUTED.MD"]);
}

#[test]
fn a_dot_folder_is_absent_until_show_hidden_is_on() {
    let listing = folder(vec![(".git", folder(vec![], vec!["HEAD.md"]))], vec!["one.md"]);
    let library = walked("/hidden", listing);
    assert_eq!(names(&library, &TreeView::default()), ["one.md"]);
    assert_eq!(
        names(&library, &TreeView { show_hidden: true, sort: Sort::Name }),
        [".git", "HEAD.md", "one.md"]
    );
}

#[test]
fn flipping_show_hidden_re_queries_the_tree_rather_than_walking_it_again() {
    let library = walked("/requery", folder(vec![(".git", folder(vec![], vec!["HEAD.md"]))], vec![]));
    assert!(names(&library, &TreeView::default()).is_empty());
    assert_eq!(
        names(&library, &TreeView { show_hidden: true, sort: Sort::Name }),
        [".git", "HEAD.md"]
    );
}

#[test]
fn date_sort_puts_the_newest_file_first() {
    let library = walked("/dated", dated(vec![("oldest.md", 100), ("newest.md", 300), ("middle.md", 200)]));
    assert_eq!(names(&library, &TreeView::default()), ["newest.md", "middle.md", "oldest.md"]);
}

#[test]
fn name_sort_is_case_insensitive() {
    let library = walked("/named", dated(vec![("Beta.md", 300), ("alpha.md", 200), ("Gamma.md", 100)]));
    assert_eq!(names(&library, &by_name()), ["alpha.md", "Beta.md", "Gamma.md"]);
}

#[test]
fn files_written_in_the_same_second_fall_back_on_their_names() {
    let library = walked("/same", dated(vec![("b.md", 100), ("A.md", 100), ("c.md", 200)]));
    assert_eq!(names(&library, &TreeView::default()), ["c.md", "A.md", "b.md"]);
}

#[test]
fn names_that_fold_alike_fall_back_on_the_newer() {
    let library = walked("/alike", dated(vec![("note.md", 100), ("NOTE.md", 200)]));
    assert_eq!(names(&library, &by_name()), ["NOTE.md", "note.md"]);
}

#[test]
fn an_unknown_write_time_sorts_last_by_date() {
    let listing = Listing {
        modified: None,
        folders: Vec::new(),
        files: vec![("never.md".to_string(), None), ("once.md".to_string(), Some(5))],
    };
    let library = walked("/unknown", listing);
    assert_eq!(names(&library, &TreeView::default()), ["once.md", "never.md"]);
}

#[test]
fn a_folder_the_tree_already_holds_is_not_walked_again() {
    let mut library = walked("/unwalked", folder(vec![("chapters", folder(vec![], vec!["one.md"]))], vec![]));
    let root = library.probe("/unwalked").expect("the root is under its Location");
    assert_eq!(root.at, "/unwalked");
    assert!(!root.walk);
    assert!(!library.patch("/unwalked", Found::Folder(None)), "the Location's own root");
    let chapters = library.probe("/unwalked/chapters").expect("a folder held");
    assert_eq!(chapters.at, "/unwalked/chapters");
    assert!(!chapters.walk);
    assert!(!library.patch("/unwalked/chapters", Found::Folder(None)), "a folder held");
    assert_eq!(names(&library, &by_name()), ["chapters", "one.md"]);
    let two = library.probe("/unwalked/chapters/two.md").expect("a file under the Location");
    assert_eq!(two.at, "/unwalked/chapters/two.md");
    assert!(library.patch("/unwalked/chapters/two.md", Found::File(Some(7))));
    assert_eq!(names(&library, &by_name()), ["chapters", "one.md", "two.md"]);
}

#[test]
fn a_file_written_renamed_and_deleted_moves_the_tree() {
    let mut library = walked("/watched", folder(vec![], vec![]));
    let view = TreeView::default();
    assert!(names(&library, &view).is_empty(), "an empty Location");
    assert!(library.patch("/watched/one.md", Found::File(Some(1))), "the file is in the tree");
    assert_eq!(names(&library, &view), ["one.md"]);
    assert!(library.patch("/watched/one.md", Found::Gone));
    assert!(library.patch("/watched/two.md", Found::File(Some(2))), "the tree follows the rename");
    assert_eq!(names(&library, &view), ["two.md"]);
    assert!(library.patch("/watched/two.md", Found::Gone), "the tree follows the delete");
    assert!(names(&library, &view).is_empty());
}

#[test]
fn a_file_rewritten_moves_only_when_its_time_moves() {
    let mut library = walked("/times", dated(vec![("one.md", 1)]));
    assert!(!library.patch("/times/one.md", Found::File(Some(1_000_000_000))));
    assert!(library.patch("/times/one.md", Found::File(Some(2_000_000_000))));
    let row = library.at("/times/one.md").expect("the file is held");
    match row {
        Row::File { file, .. } => assert_eq!(file.modified(), Some(2_000_000_000)),
        Row::Folder { .. } => panic!("a file row"),
    }
}

#[test]
fn a_file_renamed_to_a_name_the_library_does_not_list_leaves_no_row() {
    let mut library = walked("/renamed", folder(vec![], vec!["notes.md"]));
    assert!(library.patch("/renamed/notes.md", Found::Gone));
    assert!(!library.patch("/renamed/notes.rs", Found::File(Some(3))));
    assert!(names(&library, &TreeView::default()).is_empty());
}

#[test]
fn a_folder_created_arrives_with_what_is_in_it() {
    let mut library = walked("/subtree", folder(vec![], vec![]));
    let probe = library.probe("/subtree/chapters").expect("under the Location");
    assert!(probe.walk);
    assert_eq!(probe.at, "/subtree/chapters");
    assert!(library.patch("/subtree/chapters", Found::Folder(Some(folder(vec![], vec!["one.md"])))));
    assert_eq!(names(&library, &by_name()), ["chapters", "one.md"]);
}

#[test]
fn a_location_root_that_is_gone_holds_nothing() {
    let mut library = walked("/gone", folder(vec![], vec!["one.md"]));
    assert!(library.patch("/gone", Found::Gone));
    assert!(names(&library, &TreeView::default()).is_empty());
    assert!(!library.patch("/gone", Found::Gone));
}

#[test]
fn a_path_under_no_location_is_not_probed_and_moves_nothing() {
    let mut library = walked("/here", folder(vec![], vec!["one.md"]));
    assert!(library.probe("/elsewhere/one.md").is_none());
    assert!(!library.patch("/elsewhere/one.md", Found::Gone));
    assert_eq!(names(&library, &TreeView::default()), ["one.md"]);
}

#[test]
fn a_probe_stops_at_the_deepest_folder_the_tree_holds() {
    let library = walked("/deep", folder(vec![], vec![]));
    let probe = library.probe("/deep/new/inner/file.md").expect("under the Location");
    assert_eq!(probe.at, "/deep/new");
    assert!(probe.walk);
}

#[test]
fn a_pinned_folder_answers_the_subtree_the_location_holds() {
    let listing = folder(vec![("chapters", folder(vec![], vec!["one.md", "two.md"]))], vec!["top.md"]);
    let library = Library::open(vec![("/pinned".to_string(), Some(listing))], &["/pinned/chapters".to_string()]);
    let view = by_name();
    let rows = library.pinned_rows(&view);
    assert_eq!(rows.first().map(|row| row.path()), Some("/pinned/chapters"));
    assert_eq!(rows[0].depth(), 0);
    let pinned: Vec<&str> = rows.iter().skip(1).map(|row| row.path()).collect();
    let subtree: Vec<&str> = library.rows("/pinned/chapters", &view).iter().map(|row| row.path()).collect();
    assert_eq!(pinned, subtree);
    assert_eq!(subtree, ["/pinned/chapters/one.md", "/pinned/chapters/two.md"]);
    assert_eq!(rows[1].depth(), 1);
}

#[test]
fn pinning_a_path_outside_every_location_is_refused() {
    let listing = folder(vec![], vec!["one.md"]);
    let mut library = Library::open(vec![("/outside/inside".to_string(), Some(listing))], &[]);
    assert_eq!(library.pin("/outside/two.md"), Pin::Outside);
    assert!(library.pinned().is_empty());
    assert_eq!(library.pin("/outside/inside/one.md"), Pin::Held);
    assert_eq!(library.pinned(), ["/outside/inside/one.md".to_string()]);
}

#[test]
fn pinning_twice_pins_once_and_unpinning_takes_it_away() {
    let mut library = walked("/twice", folder(vec![], vec!["one.md"]));
    assert_eq!(library.pin("/twice/one.md"), Pin::Held);
    assert_eq!(library.pin("/twice//one.md"), Pin::Held);
    assert_eq!(library.pinned().len(), 1);
    assert!(library.unpin("/twice/./one.md"));
    assert!(library.pinned().is_empty());
    assert!(!library.unpin("/twice/one.md"));
}

#[test]
fn two_locations_answer_as_two_sections_in_the_order_added() {
    let mut library = Library::open(
        vec![
            ("/sections/first".to_string(), Some(folder(vec![], vec!["one.md"]))),
            ("/sections/second".to_string(), Some(folder(vec![], vec!["two.md"]))),
        ],
        &[],
    );
    let view = TreeView::default();
    let roots: Vec<&str> = library.shown(&view).into_iter().map(|section| section.root).collect();
    assert_eq!(roots, ["/sections/first", "/sections/second"]);
    assert!(library.remove_location("/sections/first"), "the first is a Location");
    let sections = library.shown(&view);
    assert_eq!(sections.len(), 1);
    assert_eq!(sections[0].root, "/sections/second");
    assert_eq!(names(&library, &view), ["two.md"]);
    assert!(!library.remove_location("/sections/first"));
}

#[test]
fn a_location_is_added_once_and_only_where_a_folder_was_found() {
    let mut library = Library::new();
    assert!(!library.add_location("/nowhere", None));
    assert!(library.add_location("/once", Some(folder(vec![], vec![]))));
    assert!(!library.add_location("/once/", Some(folder(vec![], vec![]))));
    assert_eq!(library.locations().len(), 1);
    assert_eq!(library.locations()[0].root(), "/once");
}

#[test]
fn every_shown_file_is_answered_in_the_order_it_is_drawn() {
    let listing = folder(vec![("chapters", folder(vec![], vec!["deep.md"]))], vec![".hidden.md", "top.md"]);
    let library = walked("/files", listing);
    let shown: Vec<&str> = library.files(&by_name()).into_iter().map(File::name).collect();
    assert_eq!(shown, ["deep.md", "top.md"]);
    let everything = TreeView { show_hidden: true, sort: Sort::Name };
    let all: Vec<&str> = library.files(&everything).into_iter().map(File::name).collect();
    assert_eq!(all, ["deep.md", ".hidden.md", "top.md"]);
}

#[test]
fn a_row_is_found_at_its_path_and_nowhere_else() {
    let listing = folder(vec![(".drafts", folder(vec![], vec!["draft.md"]))], vec!["one.md", "skipped.rs"]);
    let library = walked("/rows", listing);
    match library.at("/rows") {
        Some(Row::Folder { folder, depth }) => {
            assert_eq!(folder.name(), "rows");
            assert_eq!(depth, 0);
            assert!(!folder.hidden());
        }
        _ => panic!("the root is a folder row"),
    }
    match library.at("/rows/.drafts/draft.md") {
        Some(Row::File { file, .. }) => {
            assert_eq!(file.path(), "/rows/.drafts/draft.md");
            assert!(file.hidden());
        }
        _ => panic!("a hidden file is held"),
    }
    assert!(library.at("/rows/skipped.rs").is_none());
    assert!(library.at("/rows/one.md/more").is_none());
    assert!(library.at("/other").is_none());
}
