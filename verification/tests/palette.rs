//! The Palette's match, its ranked lists, the recents and the settings rows.

use quill_engine::commands::{commands, Command, Kind};
use quill_engine::outline::Heading;
use quill_engine::palette::{
    list, outline, recents, score, score_group, section_lists, sections, settings, settings_rows, Control, Found,
    OutlineList, Outlined, Pane, Rank, Tier, DOCUMENTS_CAP, MORE,
};

#[test]
fn the_match_is_the_oracles_substring_first_then_letters_in_order() {
    assert_eq!(
        score("Sentence", "sen"),
        Some((Rank(Tier::Prefix, 0), vec![(0, 3)]))
    );
    assert_eq!(
        score("Focus: Sentence", "sen"),
        Some((Rank(Tier::Inside, 7), vec![(7, 10)]))
    );
    assert_eq!(
        score("Typewriter", "tw"),
        Some((Rank(Tier::Letters, 0), vec![(0, 1), (4, 5)]))
    );
    assert_eq!(score("Typewriter", "xq"), None);
    // A later substring outranks an earlier scatter.
    assert!(score("Focus: Sentence", "sen").unwrap().0 < score("Typewriter", "tw").unwrap().0);
}

#[test]
fn a_hit_and_a_rank_are_counted_in_bytes() {
    // "é" takes two bytes, so the match after it starts at byte 2.
    assert_eq!(
        score("éte", "te"),
        Some((Rank(Tier::Inside, 2), vec![(2, 4)]))
    );
    assert_eq!(score("Über", "ber"), Some((Rank(Tier::Inside, 2), vec![(2, 5)])));
    // A capital is matched by its small letter.
    assert_eq!(score("ÉTÉ", "été"), Some((Rank(Tier::Prefix, 0), vec![(0, 5)])));
    // A blank query matches at the top with nothing to mark.
    assert_eq!(score("Anything", ""), Some((Rank(Tier::Prefix, 0), vec![])));
}

fn command(id: &str) -> Command {
    commands().into_iter().find(|command| command.id == id).unwrap()
}

/// The ids of the rows `query` reached through their group.
fn group_rows(query: &str) -> Vec<&'static str> {
    let (_, rows) = &list(query)[0];
    rows.iter()
        .filter(|row| row.hits.is_empty())
        .map(|row| row.command.id)
        .collect()
}

#[test]
fn dark_lists_dark_mode_first() {
    let list = list("dark");
    assert_eq!(list.len(), 1);
    let (head, rows) = &list[0];
    assert_eq!(*head, None);
    assert_eq!(rows[0].command.id, "theme.toggle");
    assert_eq!(rows[0].hits, vec![(0, 4)]);
    assert_eq!(rows[1].command.id, "theme.dark");
}

#[test]
fn a_blank_query_is_the_map_and_a_miss_is_nothing() {
    let at_rest = list("  ");
    assert_eq!(at_rest.len(), 5);
    assert_eq!(at_rest[0].0, Some("Write"));
    assert_eq!(at_rest[0].1[0].command.id, "focus.toggle");
    assert!(at_rest[0].1[0].hits.is_empty());
    let (_, none) = &list("zzzq")[0];
    assert!(none.is_empty());
}

#[test]
fn every_command_is_in_exactly_one_section_and_the_oracles_four_come_first() {
    let sections = sections();
    let heads: Vec<&str> = sections.iter().map(|(head, _)| *head).collect();
    assert_eq!(heads, ["Write", "Text", "View", "Document", MORE]);
    let mut listed: Vec<&str> = sections
        .iter()
        .flat_map(|(_, rows)| rows.iter().map(|command| command.id))
        .collect();
    let mut all: Vec<&str> = commands().iter().map(|command| command.id).collect();
    assert_eq!(listed.len(), all.len(), "a Command listed twice or not at all");
    listed.sort_unstable();
    all.sort_unstable();
    assert_eq!(listed, all);
    // The four sections' membership, id for id, in the table's order.
    for ((head, ids), (got, rows)) in section_lists().iter().zip(&sections) {
        assert_eq!(head, got);
        let got_ids: Vec<&str> = rows.iter().map(|command| command.id).collect();
        assert_eq!(&got_ids, ids);
    }
}

#[test]
fn more_is_the_rest_of_the_table_in_the_tables_order() {
    let sections = sections();
    let (_, more) = sections.last().unwrap();
    let ids: Vec<&str> = more.iter().map(|command| command.id).collect();
    assert!(ids.contains(&"window.fullscreen"));
    assert!(ids.contains(&"settings.open"));
    assert!(ids.contains(&"shortcuts.open"));
    assert!(ids.contains(&"syntax.toggle"));
    assert!(ids.contains(&"style.toggle"));
    assert!(ids.contains(&"style.fillers"));
    assert!(ids.contains(&"style.redundancies"));
    assert!(ids.contains(&"style.cliches"));
    assert!(ids.contains(&"spell.toggle"));
    assert!(ids.contains(&"chrome.view"));
    assert!(ids.contains(&"focus.swap"));
    let table: Vec<usize> = ids
        .iter()
        .map(|id| commands().iter().position(|command| command.id == *id).unwrap())
        .collect();
    assert!(table.windows(2).all(|pair| pair[0] < pair[1]));
}

#[test]
fn a_group_reaches_the_faces() {
    assert_eq!(
        group_rows("face"),
        ["font.duo", "font.quattro", "font.mono"]
    );
    let (_, rows) = &list("font")[0];
    assert!(rows.iter().all(|row| !row.command.id.starts_with("font.")));
}

#[test]
fn a_command_with_no_group_is_matched_by_no_group_name() {
    assert_eq!(score_group(&command("app.quit"), "theme"), None);
    assert_eq!(score_group(&command("palette.open"), "face"), None);
    assert_eq!(score_group(&command("theme.toggle"), "theme"), None);
    for query in ["theme", "preview", "focus", "face"] {
        for id in group_rows(query) {
            assert!(
                matches!(command(id).kind, Kind::Radio { .. }),
                "{id} was listed for `{query}` with no title match"
            );
        }
    }
}

/// The Documents a state would hand `file.recent`, newest first.
fn opened() -> Vec<String> {
    ["/home/w/sea-storm.md", "/home/w/notes.txt", "/home/w/set.md"]
        .iter()
        .map(|path| path.to_string())
        .collect()
}

/// The names of the rows `query` leaves, in the order they are listed.
fn listed(opened: &[String], query: &str) -> Vec<String> {
    recents(opened, query)
        .into_iter()
        .map(|row| row.name)
        .collect()
}

#[test]
fn the_recents_are_newest_first_under_the_name_without_the_extension() {
    let opened = opened();
    assert_eq!(listed(&opened, ""), ["sea-storm", "notes", "set"]);
    assert_eq!(listed(&opened, "  "), ["sea-storm", "notes", "set"]);
    let rows = recents(&opened, "");
    assert_eq!(rows[0].path, "/home/w/sea-storm.md");
    assert!(rows[0].hits.is_empty());
}

#[test]
fn typing_narrows_the_recents_by_name_and_marks_what_matched() {
    let opened = opened();
    assert_eq!(listed(&opened, "set"), ["set", "sea-storm"]);
    let rows = recents(&opened, "sto");
    assert_eq!(rows.len(), 1);
    assert_eq!(rows[0].name, "sea-storm");
    assert_eq!(rows[0].hits, vec![(4, 7)]);
    assert!(listed(&opened, "zzzq").is_empty());
}

#[test]
fn recents_matched_alike_stay_newest_first() {
    let opened: Vec<String> = ["/w/new/draft.md", "/w/old/draft.md"]
        .iter()
        .map(|path| path.to_string())
        .collect();
    let rows = recents(&opened, "draft");
    assert_eq!(
        rows.iter().map(|row| row.path).collect::<Vec<_>>(),
        ["/w/new/draft.md", "/w/old/draft.md"]
    );
}

#[test]
fn a_query_is_trimmed_and_lower_cased_before_it_matches() {
    let opened = opened();
    assert_eq!(listed(&opened, "  STO\t"), ["sea-storm"]);
}

#[test]
fn no_setting_the_view_menu_holds_is_a_settings_row() {
    for setting in settings_rows() {
        let key = setting.key.unwrap_or("");
        for gone in ["syntax_highlight", "style_check", "preview", "spell_check"] {
            assert!(
                key != gone && !key.starts_with(&format!("{gone}.")),
                "{} writes {key}",
                setting.label
            );
        }
    }
}

#[test]
fn every_settings_row_is_named_once_under_a_pane_and_names_a_real_command() {
    let rows = settings_rows();
    let mut labels: Vec<&str> = rows.iter().map(|setting| setting.label).collect();
    let count = labels.len();
    labels.sort_unstable();
    labels.dedup();
    assert_eq!(labels.len(), count);
    let panes: Vec<Pane> = rows.iter().map(|setting| setting.pane).collect();
    let mut order: Vec<Pane> = panes.clone();
    order.dedup();
    assert_eq!(order, Pane::all(), "the table runs pane by pane");
    for setting in &rows {
        if let Some(id) = setting.command {
            assert!(commands().iter().any(|command| command.id == id), "{id} is not a Command");
        }
    }
}

fn labels(found: &[Found]) -> Vec<&'static str> {
    found.iter().map(|found| found.setting.label).collect()
}

fn in_palette(found: &[Found]) -> Vec<&'static str> {
    found
        .iter()
        .filter(|found| found.in_palette())
        .map(|found| found.setting.label)
        .collect()
}

#[test]
fn a_blank_query_finds_no_settings_and_leaves_the_commands_as_they_were() {
    assert!(settings("").is_empty());
    assert!(settings("   ").is_empty());
    assert_eq!(list(""), list("  "));
}

#[test]
fn a_query_finds_a_settings_row_by_its_label_with_its_control() {
    let paper = settings("paper");
    assert_eq!(labels(&paper)[0], "Paper");
    assert_eq!(paper[0].setting.control, Control::Dropdown);
    assert_eq!(paper[0].hits, [(0, 5)]);
    let margin = settings("margin");
    assert_eq!(labels(&margin)[0], "Margin (mm)");
    assert_eq!(margin[0].setting.control, Control::Spin);
    let locations = settings("locations");
    assert_eq!(labels(&locations)[0], "Locations");
    assert_eq!(locations[0].setting.control, Control::Jump);
    assert_eq!(locations[0].setting.pane, Pane::Library);
}

#[test]
fn a_query_finds_a_panes_rows_by_its_name_below_every_label_match() {
    let export: Vec<&str> = settings_rows()
        .iter()
        .filter(|setting| setting.pane == Pane::Export)
        .map(|setting| setting.label)
        .collect();
    assert_eq!(labels(&settings("export")), export);
    assert!(settings("export").iter().all(|found| found.hits.is_empty()));
    let template = settings("template");
    assert_eq!(template.len(), 8);
    assert!(
        template
            .iter()
            .all(|found| found.setting.pane == Pane::Template)
    );
}

#[test]
fn the_palette_keeps_only_the_rows_no_command_sets() {
    assert_eq!(labels(&settings("hide"))[0], "Hide Bars");
    assert_eq!(
        labels(&settings("manuscript")),
        ["Manuscript Mono", "Manuscript Duo", "Manuscript Quattro"]
    );
    assert!(in_palette(&settings("manuscript")).is_empty());
    assert_eq!(in_palette(&settings("hide")), ["Show hidden folders"]);
}

#[test]
fn a_pane_is_found_by_its_name_in_any_ascii_case() {
    assert_eq!(Pane::from_name("export"), Some(Pane::Export));
    assert_eq!(Pane::from_name("LIBRARY"), Some(Pane::Library));
    assert_eq!(Pane::from_name("General"), Some(Pane::General));
    assert_eq!(Pane::from_name("Gen"), None);
    for pane in Pane::all() {
        assert_eq!(Pane::from_name(pane.name()), Some(pane));
    }
}


/// The Outline of the shared passage, with a third heading so a query can
/// rank two matches.
fn headings() -> Vec<Heading> {
    [
        (1, "The Lighthouse", 0),
        (2, "What the sea keeps", 4),
        (2, "Sea glass", 8),
    ]
    .iter()
    .map(|&(level, text, block)| Heading {
        level,
        text: text.to_string(),
        block,
        source: block..block + text.len(),
    })
    .collect()
}

/// Twelve Documents of the Library, the open one among them.
fn library() -> Vec<String> {
    (1..=12).map(|n| format!("/w/sea-{n}.md")).collect()
}

/// What each row of `list` reads.
fn read(list: &OutlineList<'_>) -> Vec<String> {
    list.rows
        .iter()
        .map(|row| match row {
            Outlined::Heading { text, .. } => (*text).to_string(),
            Outlined::Head(head) => format!("[{head}]"),
            Outlined::Document(recent) => recent.name.to_string(),
            Outlined::NoHeadings => "(no headings)".to_string(),
        })
        .collect()
}

#[test]
fn at_rest_the_outline_lists_the_headings_with_the_carets_section_selected() {
    let headings = headings();
    let library = library();
    let list = outline(&headings, Some(1), &library, None, "");
    assert_eq!(
        read(&list),
        ["The Lighthouse", "What the sea keeps", "Sea glass"]
    );
    assert_eq!(list.selected, 1);
    assert!(matches!(
        list.rows[1],
        Outlined::Heading {
            start: 4,
            level: 2,
            ..
        }
    ));
    assert_eq!(outline(&headings, None, &library, None, "  ").selected, 0);
}

#[test]
fn typing_ranks_the_headings_then_caps_the_documents_at_ten() {
    let headings = headings();
    let library = library();
    let list = outline(&headings, Some(2), &library, Some("/w/sea-3.md"), "sea");
    let rows = read(&list);
    assert_eq!(
        &rows[..3],
        ["Sea glass", "What the sea keeps", "[Documents]"]
    );
    assert_eq!(rows.len(), 3 + DOCUMENTS_CAP);
    assert!(!rows.contains(&"sea-3".to_string()));
    assert_eq!(rows[3], "sea-1");
    assert_eq!(list.selected, 0);
    let Outlined::Heading { hits, start, .. } = &list.rows[0] else {
        panic!("a heading leads");
    };
    assert_eq!((*start, hits.as_slice()), (8, &[(0, 3)][..]));
    assert_eq!(
        read(&outline(&headings, None, &library, None, "zzq"))[0],
        "[Documents]"
    );
    assert_eq!(
        read(&outline(&headings, None, &[], None, "light")),
        ["The Lighthouse"]
    );
}

#[test]
fn no_headings_is_one_dim_line_with_the_documents_beneath_it() {
    let library = library();
    assert_eq!(
        read(&outline(&[], None, &library, None, "")),
        ["(no headings)"]
    );
    let typed = outline(&[], None, &library[..2], None, "sea");
    assert_eq!(
        read(&typed),
        ["(no headings)", "[Documents]", "sea-1", "sea-2"]
    );
    assert_eq!(typed.selected, 0);
}

#[test]
fn the_open_document_is_left_out_however_its_path_is_written() {
    let library = library();
    let typed = outline(&[], None, &library[..3], Some("/w//./sea-2.md"), "sea");
    assert_eq!(
        read(&typed),
        ["(no headings)", "[Documents]", "sea-1", "sea-3"]
    );
}
