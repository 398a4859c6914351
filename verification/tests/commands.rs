//! The command registry: chords, accelerators, names and groups.

use quill_engine::commands::{accel, by_chord, by_id, commands, radio_groups, Command, Scope};

#[test]
fn a_chord_becomes_the_accelerator_gtk_installs() {
    assert_eq!(accel("Ctrl+Shift+L").as_deref(), Some("<Control><Shift>l"));
    assert_eq!(accel("Ctrl+=").as_deref(), Some("<Control>equal"));
    assert_eq!(accel("Ctrl++").as_deref(), Some("<Control>plus"));
    assert_eq!(accel("Ctrl+-").as_deref(), Some("<Control>minus"));
    assert_eq!(accel("Ctrl+0").as_deref(), Some("<Control>0"));
    assert_eq!(
        accel("Ctrl+Page Down").as_deref(),
        Some("<Control>Page_Down")
    );
    assert_eq!(accel("Alt+Shift+N").as_deref(), Some("<Alt><Shift>n"));
    assert_eq!(accel("F10").as_deref(), Some("F10"));
    assert_eq!(accel("Ctrl+?").as_deref(), Some("<Control>question"));
    assert_eq!(accel("Super+Q"), None);
    assert_eq!(accel("Ctrl+F13"), None);
}

#[test]
fn a_chord_finds_its_command_by_default_or_alias() {
    assert_eq!(by_chord("Ctrl+E").map(|c| c.id), Some("library.toggle"));
    assert_eq!(by_chord("F9").map(|c| c.id), Some("library.toggle"));
    assert_eq!(by_chord("Ctrl+Shift+P").map(|c| c.id), Some("palette.open"));
    assert_eq!(by_chord("Ctrl+P"), None);
    assert_eq!(by_id("app.quit").map(|c| c.name()), Some("quit"));
    assert_eq!(
        by_id("app.quit").map(|c| c.action()).as_deref(),
        Some("app.quit")
    );
    assert_eq!(by_id("window.new").map(|c| c.name()), Some("window.new"));
    assert_eq!(
        by_id("window.new").map(|c| c.action()).as_deref(),
        Some("app.window.new")
    );
    assert_eq!(
        by_id("focus.toggle").map(|c| c.action()).as_deref(),
        Some("win.focus.toggle")
    );
    assert_eq!(
        by_id("library.toggle").map(|c| (c.default(), c.aliases())),
        Some((Some("Ctrl+E"), ["F9"].as_slice()))
    );
    assert_eq!(
        by_id("file.duplicate").map(|c| (c.default(), c.aliases())),
        Some((None, [].as_slice()))
    );
}

#[test]
fn the_hidden_commands_are_the_tables_palette_only_ids_with_chords_or_menus_elsewhere() {
    let hidden: Vec<&str> = commands()
        .iter()
        .filter(|c| c.hidden())
        .map(|c| c.id)
        .collect();
    assert!(hidden.contains(&"focus.swap"));
    assert!(hidden.contains(&"chrome.view"));
    assert!(hidden.contains(&"chrome.doc"));
    assert!(!hidden.contains(&"palette.open"));
    assert_eq!(by_id("chrome.stats").unwrap().placements.len(), 2);
    assert_eq!(
        radio_groups(),
        ["focus_scope", "preview_layout", "face", "stats", "theme"]
    );
}

#[test]
fn every_id_is_found_by_itself_and_its_chords_by_theirs() {
    for command in commands() {
        assert_eq!(by_id(command.id), Some(command));
        for chord in command.chords {
            assert_eq!(by_chord(chord).map(|c| c.id), Some(command.id));
        }
    }
    assert_eq!(by_id("no.such.command"), None);
}

#[test]
fn an_action_and_its_target_name_a_radio_members_value() {
    let member: Command = commands()
        .into_iter()
        .find(|c| c.id == "theme.dark")
        .unwrap();
    let (action, target) = member.action_and_target();
    assert!(action.starts_with(member.scope.prefix()));
    assert!(target.is_some());
    assert_eq!(Scope::App.prefix(), "app");
    assert_eq!(Scope::Win.prefix(), "win");
}

#[test]
fn every_accelerator_of_a_command_is_one_of_its_chords_converted() {
    for command in commands() {
        let accels = command.accels();
        let converted: Vec<String> = command
            .chords
            .iter()
            .filter_map(|chord| accel(chord))
            .collect();
        assert_eq!(accels, converted);
    }
}
