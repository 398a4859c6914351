//! The Command registry: `docs/shortcuts.md` as data, one [`Command`] per id.
//!
//! Chords are written here as the table writes them (`Ctrl+Shift+L`);
//! [`accel`] turns one into the syntax GTK installs, and [`by_chord`] answers
//! which Command a chord reaches. [`reserved`] and [`off_limits`] are the
//! table's two chord lists that bind nothing, held so the settings validator
//! can refuse them.
//!
//! The registry is [`registry`] as a specification and [`commands`] as the
//! table a caller walks; the second is proved to be the first, row for row.

use vstd::prelude::*;

use crate::text::{chars_of, is_ascii_digit, is_ascii_letter, ascii_lower, is_text, push_char, push_text, same, string_of, to_ascii_lower};

verus! {

broadcast use vstd::seq_lib::group_seq_properties;

/// Which action map a Command's action lives on.
#[derive(Clone, Copy, Debug, PartialEq, Eq, Structural)]
pub enum Scope {
    /// On the window, as `win.<id>`.
    Win,
    /// On the application, as `app.<id>`.
    App,
}

/// The prefix GTK action names carry for `scope`.
pub open spec fn prefix_of(scope: Scope) -> Seq<char> {
    match scope {
        Scope::Win => seq!['w', 'i', 'n'],
        Scope::App => seq!['a', 'p', 'p'],
    }
}

impl Scope {
    /// The prefix GTK action names carry for this scope.
    pub fn prefix(self) -> (prefix: &'static str)
        ensures
            prefix@ == prefix_of(self),
    {
        match self {
            Scope::Win => {
                proof {
                    reveal_strlit("win");
                }
                "win"
            },
            Scope::App => {
                proof {
                    reveal_strlit("app");
                }
                "app"
            },
        }
    }
}

/// One of the three menus a Command's row can be in.
#[derive(Clone, Copy, Debug, PartialEq, Eq, Structural)]
pub enum Menu {
    /// The title button's menu.
    Document,
    /// The View button's menu, `F10`.
    View,
    /// The stats bar's menu.
    Stats,
}

impl Menu {
    /// The menu's name, as `docs/shortcuts.md` heads its table.
    pub fn title(self) -> (title: &'static str)
        ensures
            title@ == match self {
                Menu::Document => "Document"@,
                Menu::View => "View"@,
                Menu::Stats => "Stats"@,
            },
    {
        match self {
            Menu::Document => "Document",
            Menu::View => "View",
            Menu::Stats => "Stats",
        }
    }
}

/// The three menus in the table's order, which is the order the `Ctrl+?`
/// window puts their sections in.
pub fn menus() -> (menus: [Menu; 3])
    ensures
        menus@ == seq![Menu::Document, Menu::View, Menu::Stats],
{
    [Menu::Document, Menu::View, Menu::Stats]
}

/// How a Command's action holds state, which is how its menu row is drawn.
#[derive(Clone, Copy, Debug, PartialEq, Eq)]
pub enum Kind {
    /// Fires and holds nothing.
    Plain,
    /// A boolean state; the row carries a check.
    Check,
    /// One value of a group: the group is a stateful string action named
    /// `group`, and activating this Command sets it to `value`.
    Radio {
        /// The group action's name, a settings key where one exists.
        group: &'static str,
        /// The value this member sets.
        value: &'static str,
    },
}

/// A row a Command has in a menu.
#[derive(Clone, Copy, Debug, PartialEq, Eq)]
pub struct Placement {
    /// The menu the row is in.
    pub menu: Menu,
    /// The View menu's section the row is in; the other menus have none.
    pub section: Option<&'static str>,
    /// The row's label.
    pub label: &'static str,
}

/// One row of `docs/shortcuts.md`, or one id of a row that carries several.
#[derive(Clone, Copy, Debug, PartialEq, Eq)]
pub struct Command {
    /// The stable name: the TOML key, the Palette's identity, the action name
    /// after its scope's prefix.
    pub id: &'static str,
    /// What the Palette calls it, and the menu row's label unless the
    /// placement says otherwise.
    pub title: &'static str,
    /// Where the action lives.
    pub scope: Scope,
    /// How the action holds state.
    pub kind: Kind,
    /// The chord the menu labels first, then the aliases that fire it and
    /// are never labelled, all in the table's syntax.
    pub chords: &'static [&'static str],
    /// Its menu rows; empty for a Palette-only Command.
    pub placements: &'static [Placement],
    /// Whether the feature behind it is built.
    pub built: bool,
}

/// The action name `id` has on the map of `scope`: the id, except that an id
/// that already opens with the scope's prefix and a dot — `app.quit` — is
/// what follows them.
pub open spec fn name_of(id: Seq<char>, scope: Scope) -> Seq<char> {
    let prefix = prefix_of(scope).push('.');
    if id.len() >= prefix.len() && id.take(prefix.len() as int) == prefix {
        id.skip(prefix.len() as int)
    } else {
        id
    }
}

impl Command {
    /// The action's name on its map: the id, except that `app.quit` is
    /// `quit` on the application, whose prefix its id already carries.
    pub fn name(&self) -> (name: &'static str)
        ensures
            name@ == name_of(self.id@, self.scope),
    {
        let prefix = self.scope.prefix();
        let id: &'static str = self.id;
        let n = id.unicode_len();
        if n < 4 {
            return id;
        }
        let mut i: usize = 0;
        while i < 3
            invariant
                0 <= i <= 3,
                n == id@.len() >= 4,
                id == self.id,
                prefix@ == prefix_of(self.scope),
                forall|k: int| 0 <= k < i ==> id@[k] == prefix@[k],
            decreases 3 - i,
        {
            if id.get_char(i) != prefix.get_char(i) {
                proof {
                    assert(prefix_of(self.scope).push('.').len() == 4);
                    assert(prefix_of(self.scope).push('.')[i as int] == prefix@[i as int]);
                    assert(id@.take(4)[i as int] != prefix_of(self.scope).push('.')[i as int]);
                    assert(id@.take(4) != prefix_of(self.scope).push('.'));
                }
                return id;
            }
            i = i + 1;
        }
        if id.get_char(3) != '.' {
            proof {
                assert(id@.take(4)[3] != prefix_of(self.scope).push('.')[3]);
                assert(id@.take(4) != prefix_of(self.scope).push('.'));
            }
            return id;
        }
        proof {
            assert(id@.take(4) =~= prefix_of(self.scope).push('.'));
        }
        id.substring_char(4, n)
    }

    /// The action name with its scope in front, as an accelerator or a menu
    /// row names it: `win.focus.toggle`, `app.quit`, `app.window.new`.
    pub fn action(&self) -> (action: String)
        ensures
            action@ == prefix_of(self.scope) + seq!['.'] + name_of(self.id@, self.scope),
    {
        let mut action = String::from_str(self.scope.prefix());
        push_char(&mut action, '.');
        push_text(&mut action, self.name());
        action
    }

    /// What a row or a Palette entry activates: a radio member fires its
    /// group's action with its value as the target, and any other Command its
    /// own action with none.
    pub fn action_and_target(&self) -> (activates: (String, Option<&'static str>))
        ensures
            match self.kind {
                Kind::Radio { group, value } => activates.0@ == prefix_of(self.scope) + seq!['.']
                    + group@ && activates.1 == Some(value),
                _ => activates.0@ == prefix_of(self.scope) + seq!['.'] + name_of(
                    self.id@,
                    self.scope,
                ) && activates.1 == None::<&'static str>,
            },
    {
        match self.kind {
            Kind::Radio { group, value } => {
                let mut action = String::from_str(self.scope.prefix());
                push_char(&mut action, '.');
                push_text(&mut action, group);
                (action, Some(value))
            },
            _ => (self.action(), None),
        }
    }

    /// The chord the menu labels, in the table's syntax.
    pub fn default(&self) -> (chord: Option<&'static str>)
        ensures
            chord == if self.chords@.len() > 0 {
                Some(self.chords@[0])
            } else {
                None
            },
    {
        if self.chords.len() > 0 {
            Some(self.chords[0])
        } else {
            None
        }
    }

    /// The chords that fire it and are never labelled.
    pub fn aliases(&self) -> (aliases: &'static [&'static str])
        ensures
            aliases@ == if self.chords@.len() > 0 {
                self.chords@.skip(1)
            } else {
                Seq::<&'static str>::empty()
            },
    {
        let chords: &'static [&'static str] = self.chords;
        if chords.len() > 0 {
            let rest = slice_from(chords, 1);
            rest
        } else {
            chords
        }
    }

    /// The default followed by the aliases, in the table's syntax.
    pub fn chords(&self) -> (chords: Vec<&'static str>)
        ensures
            chords@ == self.chords@,
    {
        let mut chords: Vec<&'static str> = Vec::new();
        let mut i: usize = 0;
        while i < self.chords.len()
            invariant
                0 <= i <= self.chords@.len(),
                chords@ == self.chords@.take(i as int),
            decreases self.chords.len() - i,
        {
            chords.push(self.chords[i]);
            proof {
                assert(self.chords@.take(i as int + 1) == self.chords@.take(i as int).push(self.chords@[i as int]));
            }
            i = i + 1;
        }
        proof {
            assert(self.chords@.take(i as int) == self.chords@);
        }
        chords
    }

    /// The same chords in GTK's accelerator syntax, the default first; a chord
    /// the converter does not know is left out rather than installed wrong.
    pub fn accels(&self) -> (accels: Vec<String>)
        ensures
            accels@.map_values(|text: String| text@) == accels_of(texts(self.chords@)),
    {
        let mut accels: Vec<String> = Vec::new();
        let mut i: usize = 0;
        while i < self.chords.len()
            invariant
                0 <= i <= self.chords@.len(),
                accels@.map_values(|text: String| text@) == accels_of(texts(self.chords@.take(i as int))),
            decreases self.chords.len() - i,
        {
            proof {
                assert(texts(self.chords@.take(i as int + 1)).drop_last() == texts(self.chords@.take(i as int)));
                assert(texts(self.chords@.take(i as int + 1)).last() == self.chords@[i as int]@);
            }
            if let Some(converted) = accel(self.chords[i]) {
                accels.push(converted);
                proof {
                    assert(accels@.map_values(|text: String| text@) == accels@.drop_last().map_values(|text: String| text@).push(accels@.last()@));
                }
            }
            i = i + 1;
        }
        proof {
            assert(self.chords@.take(i as int) == self.chords@);
        }
        accels
    }

    /// Whether the Command has no menu row: the table's "Palette only" ids.
    pub fn hidden(&self) -> (hidden: bool)
        ensures
            hidden == (self.placements@.len() == 0),
    {
        self.placements.len() == 0
    }
}

/// The elements of `items` from `from` on.
fn slice_from(items: &'static [&'static str], from: usize) -> (rest: &'static [&'static str])
    requires
        from <= items@.len(),
    ensures
        rest@ == items@.skip(from as int),
{
    let rest = vstd::slice::slice_subrange(items, from, items.len());
    assert(items@.subrange(from as int, items@.len() as int) =~= items@.skip(from as int));
    rest
}

/// The View menu's sections in the table's order, separators between them.
pub fn view_sections() -> (sections: [&'static str; 6])
    ensures
        sections@ == seq!["Focus", "Panes", "Writing tools", "Typeface", "Appearance", "Window"],
{
    ["Focus", "Panes", "Writing tools", "Typeface", "Appearance", "Window"]
}

/// The Commands of the menus and the keyboard, in the table's order: the
/// Document menu, the View menu section by section, the Stats menu, then the
/// keyboard's Palette-only rows.
pub open spec fn menu_rows() -> Seq<Command> {
    seq![
        Command {
            id: "file.new",
            title: "New Document",
            scope: Scope::Win,
            kind: Kind::Plain,
            chords: &["Ctrl+N"],
            placements: &[Placement { menu: Menu::Document, section: None, label: "New Document" }],
            built: true,
        },
        Command {
            id: "window.new",
            title: "New Window",
            scope: Scope::App,
            kind: Kind::Plain,
            chords: &["Ctrl+Shift+N"],
            placements: &[Placement { menu: Menu::Document, section: None, label: "New Window" }],
            built: true,
        },
        Command {
            id: "file.open",
            title: "Open File…",
            scope: Scope::Win,
            kind: Kind::Plain,
            chords: &["Ctrl+O"],
            placements: &[Placement { menu: Menu::Document, section: None, label: "Open File…" }],
            built: true,
        },
        Command {
            id: "file.save",
            title: "Save",
            scope: Scope::Win,
            kind: Kind::Plain,
            chords: &["Ctrl+S"],
            placements: &[Placement { menu: Menu::Document, section: None, label: "Save" }],
            built: true,
        },
        Command {
            id: "file.saveAs",
            title: "Save As…",
            scope: Scope::Win,
            kind: Kind::Plain,
            chords: &["Ctrl+Shift+S"],
            placements: &[Placement { menu: Menu::Document, section: None, label: "Save As…" }],
            built: true,
        },
        Command {
            id: "file.rename",
            title: "Rename Document…",
            scope: Scope::Win,
            kind: Kind::Plain,
            chords: &["F2"],
            placements: &[Placement { menu: Menu::Document, section: None, label: "Rename Document…" }],
            built: true,
        },
        Command {
            id: "file.duplicate",
            title: "Duplicate Document",
            scope: Scope::Win,
            kind: Kind::Plain,
            chords: &[],
            placements: &[Placement { menu: Menu::Document, section: None, label: "Duplicate Document" }],
            built: true,
        },
        Command {
            id: "export.open",
            title: "Export…",
            scope: Scope::Win,
            kind: Kind::Plain,
            chords: &["Ctrl+Shift+E"],
            placements: &[Placement { menu: Menu::Document, section: None, label: "Export…" }],
            built: false,
        },
        Command {
            id: "window.close",
            title: "Close Window",
            scope: Scope::Win,
            kind: Kind::Plain,
            chords: &["Ctrl+W"],
            placements: &[Placement { menu: Menu::Document, section: None, label: "Close Window" }],
            built: true,
        },
        Command {
            id: "app.quit",
            title: "Quit",
            scope: Scope::App,
            kind: Kind::Plain,
            chords: &["Ctrl+Q"],
            placements: &[Placement { menu: Menu::Document, section: None, label: "Quit" }],
            built: true,
        },
        Command {
            id: "focus.toggle",
            title: "Enable Focus Mode / Disable Focus Mode",
            scope: Scope::Win,
            kind: Kind::Check,
            chords: &["Ctrl+D"],
            placements: &[Placement { menu: Menu::View, section: Some("Focus"), label: "Enable Focus Mode / Disable Focus Mode" }],
            built: true,
        },
        Command {
            id: "focus.sentence",
            title: "Sentence",
            scope: Scope::Win,
            kind: Kind::Radio { group: "focus_scope", value: "sentence" },
            chords: &[],
            placements: &[Placement { menu: Menu::View, section: Some("Focus"), label: "Sentence" }],
            built: true,
        },
        Command {
            id: "focus.paragraph",
            title: "Paragraph",
            scope: Scope::Win,
            kind: Kind::Radio { group: "focus_scope", value: "paragraph" },
            chords: &[],
            placements: &[Placement { menu: Menu::View, section: Some("Focus"), label: "Paragraph" }],
            built: true,
        },
        Command {
            id: "focus.swap",
            title: "Switch Focus Scope",
            scope: Scope::Win,
            kind: Kind::Plain,
            chords: &["Ctrl+Shift+D"],
            placements: &[],
            built: true,
        },
        Command {
            id: "typewriter.toggle",
            title: "Typewriter",
            scope: Scope::Win,
            kind: Kind::Check,
            chords: &["Ctrl+T"],
            placements: &[Placement { menu: Menu::View, section: Some("Focus"), label: "Typewriter" }],
            built: true,
        },
        Command {
            id: "library.toggle",
            title: "Show Library / Hide Library",
            scope: Scope::Win,
            kind: Kind::Check,
            chords: &["Ctrl+E", "F9"],
            placements: &[Placement { menu: Menu::View, section: Some("Panes"), label: "Show Library / Hide Library" }],
            built: true,
        },
        Command {
            id: "preview.toggle",
            title: "Show Preview / Hide Preview",
            scope: Scope::Win,
            kind: Kind::Check,
            chords: &["Ctrl+R"],
            placements: &[Placement { menu: Menu::View, section: Some("Panes"), label: "Show Preview / Hide Preview" }],
            built: false,
        },
        Command {
            id: "preview.layout",
            title: "Preview Split / Preview Full",
            scope: Scope::Win,
            kind: Kind::Radio { group: "preview_layout", value: "split" },
            chords: &[],
            placements: &[Placement { menu: Menu::View, section: Some("Panes"), label: "Preview Split / Preview Full" }],
            built: false,
        },
        Command {
            id: "syntax.toggle",
            title: "Syntax Highlight",
            scope: Scope::Win,
            kind: Kind::Check,
            chords: &[],
            placements: &[Placement { menu: Menu::View, section: Some("Writing tools"), label: "Syntax Highlight" }],
            built: false,
        },
        Command {
            id: "syntax.nouns",
            title: "Nouns",
            scope: Scope::Win,
            kind: Kind::Check,
            chords: &[],
            placements: &[Placement { menu: Menu::View, section: Some("Writing tools"), label: "Nouns" }],
            built: false,
        },
        Command {
            id: "syntax.verbs",
            title: "Verbs",
            scope: Scope::Win,
            kind: Kind::Check,
            chords: &[],
            placements: &[Placement { menu: Menu::View, section: Some("Writing tools"), label: "Verbs" }],
            built: false,
        },
        Command {
            id: "syntax.adjectives",
            title: "Adjectives",
            scope: Scope::Win,
            kind: Kind::Check,
            chords: &[],
            placements: &[Placement { menu: Menu::View, section: Some("Writing tools"), label: "Adjectives" }],
            built: false,
        },
        Command {
            id: "syntax.adverbs",
            title: "Adverbs",
            scope: Scope::Win,
            kind: Kind::Check,
            chords: &[],
            placements: &[Placement { menu: Menu::View, section: Some("Writing tools"), label: "Adverbs" }],
            built: false,
        },
        Command {
            id: "syntax.conjunctions",
            title: "Conjunctions",
            scope: Scope::Win,
            kind: Kind::Check,
            chords: &[],
            placements: &[Placement { menu: Menu::View, section: Some("Writing tools"), label: "Conjunctions" }],
            built: false,
        },
        Command {
            id: "style.toggle",
            title: "Style Check",
            scope: Scope::Win,
            kind: Kind::Check,
            chords: &[],
            placements: &[Placement { menu: Menu::View, section: Some("Writing tools"), label: "Style Check" }],
            built: false,
        },
        Command {
            id: "spell.toggle",
            title: "Spell Check",
            scope: Scope::Win,
            kind: Kind::Check,
            chords: &[],
            placements: &[Placement { menu: Menu::View, section: Some("Writing tools"), label: "Spell Check" }],
            built: false,
        },
        Command {
            id: "font.duo",
            title: "Duo",
            scope: Scope::Win,
            kind: Kind::Radio { group: "face", value: "duo" },
            chords: &[],
            placements: &[Placement { menu: Menu::View, section: Some("Typeface"), label: "Duo" }],
            built: true,
        },
        Command {
            id: "font.quattro",
            title: "Quattro",
            scope: Scope::Win,
            kind: Kind::Radio { group: "face", value: "quattro" },
            chords: &[],
            placements: &[Placement { menu: Menu::View, section: Some("Typeface"), label: "Quattro" }],
            built: true,
        },
        Command {
            id: "font.mono",
            title: "Mono",
            scope: Scope::Win,
            kind: Kind::Radio { group: "face", value: "mono" },
            chords: &[],
            placements: &[Placement { menu: Menu::View, section: Some("Typeface"), label: "Mono" }],
            built: true,
        },
        Command {
            id: "theme.toggle",
            title: "Dark Mode",
            scope: Scope::Win,
            kind: Kind::Check,
            chords: &["Ctrl+Shift+L", "Alt+Shift+N"],
            placements: &[Placement { menu: Menu::View, section: Some("Appearance"), label: "Dark Mode" }],
            built: true,
        },
        Command {
            id: "font.bigger",
            title: "Bigger Text",
            scope: Scope::Win,
            kind: Kind::Plain,
            chords: &["Ctrl+=", "Ctrl++"],
            placements: &[Placement { menu: Menu::View, section: Some("Appearance"), label: "Bigger Text" }],
            built: true,
        },
        Command {
            id: "font.smaller",
            title: "Smaller Text",
            scope: Scope::Win,
            kind: Kind::Plain,
            chords: &["Ctrl+-"],
            placements: &[Placement { menu: Menu::View, section: Some("Appearance"), label: "Smaller Text" }],
            built: true,
        },
        Command {
            id: "font.reset",
            title: "Default Text Size",
            scope: Scope::Win,
            kind: Kind::Plain,
            chords: &["Ctrl+0"],
            placements: &[Placement { menu: Menu::View, section: Some("Appearance"), label: "Default Text Size" }],
            built: true,
        },
        Command {
            id: "chrome.stats",
            title: "Statistics",
            scope: Scope::Win,
            kind: Kind::Check,
            chords: &[],
            placements: &[Placement { menu: Menu::View, section: Some("Window"), label: "Statistics" }, Placement { menu: Menu::Stats, section: None, label: "Hide Statistics" }],
            built: true,
        },
        Command {
            id: "chrome.toggle",
            title: "Hide Bars / Show Bars",
            scope: Scope::Win,
            kind: Kind::Check,
            chords: &["Ctrl+Shift+H"],
            placements: &[Placement { menu: Menu::View, section: Some("Window"), label: "Hide Bars / Show Bars" }],
            built: true,
        },
        Command {
            id: "window.fullscreen",
            title: "Full Screen",
            scope: Scope::Win,
            kind: Kind::Check,
            chords: &["F11"],
            placements: &[Placement { menu: Menu::View, section: Some("Window"), label: "Full Screen" }],
            built: true,
        },
        Command {
            id: "settings.open",
            title: "Settings…",
            scope: Scope::Win,
            kind: Kind::Plain,
            chords: &["Ctrl+,"],
            placements: &[Placement { menu: Menu::View, section: Some("Window"), label: "Settings…" }],
            built: true,
        },
        Command {
            id: "shortcuts.open",
            title: "Keyboard Shortcuts",
            scope: Scope::Win,
            kind: Kind::Plain,
            chords: &["Ctrl+?"],
            placements: &[Placement { menu: Menu::View, section: Some("Window"), label: "Keyboard Shortcuts" }],
            built: true,
        },
        Command {
            id: "palette.open",
            title: "All Commands…",
            scope: Scope::Win,
            kind: Kind::Plain,
            chords: &["Ctrl+K", "Ctrl+Shift+P"],
            placements: &[Placement { menu: Menu::View, section: Some("Window"), label: "All Commands…" }],
            built: true,
        },
        Command {
            id: "stats.words",
            title: "Words",
            scope: Scope::Win,
            kind: Kind::Radio { group: "stats", value: "words" },
            chords: &[],
            placements: &[Placement { menu: Menu::Stats, section: None, label: "Words" }],
            built: false,
        },
        Command {
            id: "stats.characters",
            title: "Characters",
            scope: Scope::Win,
            kind: Kind::Radio { group: "stats", value: "characters" },
            chords: &[],
            placements: &[Placement { menu: Menu::Stats, section: None, label: "Characters" }],
            built: false,
        },
        Command {
            id: "stats.charactersNoSpaces",
            title: "Characters Without Spaces",
            scope: Scope::Win,
            kind: Kind::Radio { group: "stats", value: "charactersNoSpaces" },
            chords: &[],
            placements: &[Placement { menu: Menu::Stats, section: None, label: "Characters Without Spaces" }],
            built: false,
        },
        Command {
            id: "stats.sentences",
            title: "Sentences",
            scope: Scope::Win,
            kind: Kind::Radio { group: "stats", value: "sentences" },
            chords: &[],
            placements: &[Placement { menu: Menu::Stats, section: None, label: "Sentences" }],
            built: false,
        },
        Command {
            id: "stats.paragraphs",
            title: "Paragraphs",
            scope: Scope::Win,
            kind: Kind::Radio { group: "stats", value: "paragraphs" },
            chords: &[],
            placements: &[Placement { menu: Menu::Stats, section: None, label: "Paragraphs" }],
            built: false,
        },
        Command {
            id: "stats.readingTime",
            title: "Reading Time",
            scope: Scope::Win,
            kind: Kind::Radio { group: "stats", value: "readingTime" },
            chords: &[],
            placements: &[Placement { menu: Menu::Stats, section: None, label: "Reading Time" }],
            built: false,
        },
        Command {
            id: "library.search",
            title: "Find a Document…",
            scope: Scope::Win,
            kind: Kind::Plain,
            chords: &["Ctrl+Shift+O"],
            placements: &[],
            built: true,
        },
        Command {
            id: "file.next",
            title: "Next Document",
            scope: Scope::Win,
            kind: Kind::Plain,
            chords: &["Ctrl+Page Down"],
            placements: &[],
            built: true,
        },
        Command {
            id: "file.prev",
            title: "Previous Document",
            scope: Scope::Win,
            kind: Kind::Plain,
            chords: &["Ctrl+Page Up"],
            placements: &[],
            built: true,
        },
        Command {
            id: "file.follow",
            title: "Open Linked Document",
            scope: Scope::Win,
            kind: Kind::Plain,
            chords: &["Ctrl+Enter"],
            placements: &[],
            built: false,
        },
        Command {
            id: "file.recent",
            title: "Open Recent…",
            scope: Scope::Win,
            kind: Kind::Plain,
            chords: &[],
            placements: &[],
            built: true,
        },
        Command {
            id: "file.openFolder",
            title: "Add Location…",
            scope: Scope::Win,
            kind: Kind::Plain,
            chords: &[],
            placements: &[],
            built: true,
        },
        Command {
            id: "file.delete",
            title: "Move to Trash",
            scope: Scope::Win,
            kind: Kind::Plain,
            chords: &[],
            placements: &[],
            built: true,
        },
        Command {
            id: "theme.light",
            title: "Light Theme",
            scope: Scope::Win,
            kind: Kind::Radio { group: "theme", value: "light" },
            chords: &[],
            placements: &[],
            built: true,
        },
        Command {
            id: "theme.dark",
            title: "Dark Theme",
            scope: Scope::Win,
            kind: Kind::Radio { group: "theme", value: "dark" },
            chords: &[],
            placements: &[],
            built: true,
        },
        Command {
            id: "theme.auto",
            title: "Follow System",
            scope: Scope::Win,
            kind: Kind::Radio { group: "theme", value: "auto" },
            chords: &[],
            placements: &[],
            built: true,
        },
        Command {
            id: "chrome.doc",
            title: "Document Menu",
            scope: Scope::Win,
            kind: Kind::Plain,
            chords: &[],
            placements: &[],
            built: true,
        },
        Command {
            id: "chrome.view",
            title: "View Menu",
            scope: Scope::Win,
            kind: Kind::Plain,
            chords: &["F10"],
            placements: &[],
            built: true,
        }
    ]
}

/// The Commands the Palette and the Settings window reach and no menu or
/// chord does: the PDF export and the Outline the Palette's Document section
/// lists, the Style check's three word lists, and the Templates and their
/// three switches.
pub open spec fn palette_rows() -> Seq<Command> {
    seq![
        Command {
            id: "export.pdf",
            title: "Export as PDF…",
            scope: Scope::Win,
            kind: Kind::Plain,
            chords: &[],
            placements: &[],
            built: true,
        },
        Command {
            id: "outline.open",
            title: "Outline",
            scope: Scope::Win,
            kind: Kind::Plain,
            chords: &[],
            placements: &[],
            built: true,
        },
        Command {
            id: "style.fillers",
            title: "Fillers",
            scope: Scope::Win,
            kind: Kind::Check,
            chords: &[],
            placements: &[],
            built: true,
        },
        Command {
            id: "style.redundancies",
            title: "Redundancies",
            scope: Scope::Win,
            kind: Kind::Check,
            chords: &[],
            placements: &[],
            built: true,
        },
        Command {
            id: "style.cliches",
            title: "Clichés",
            scope: Scope::Win,
            kind: Kind::Check,
            chords: &[],
            placements: &[],
            built: true,
        },
        Command {
            id: "template.modern",
            title: "Modern",
            scope: Scope::Win,
            kind: Kind::Plain,
            chords: &[],
            placements: &[],
            built: true,
        },
        Command {
            id: "template.classic",
            title: "Classic",
            scope: Scope::Win,
            kind: Kind::Plain,
            chords: &[],
            placements: &[],
            built: true,
        },
        Command {
            id: "template.manuscriptMono",
            title: "Manuscript Mono",
            scope: Scope::Win,
            kind: Kind::Plain,
            chords: &[],
            placements: &[],
            built: true,
        },
        Command {
            id: "template.manuscriptDuo",
            title: "Manuscript Duo",
            scope: Scope::Win,
            kind: Kind::Plain,
            chords: &[],
            placements: &[],
            built: true,
        },
        Command {
            id: "template.manuscriptQuattro",
            title: "Manuscript Quattro",
            scope: Scope::Win,
            kind: Kind::Plain,
            chords: &[],
            placements: &[],
            built: true,
        },
        Command {
            id: "template.centerHeadings",
            title: "Center Headings",
            scope: Scope::Win,
            kind: Kind::Check,
            chords: &[],
            placements: &[],
            built: true,
        },
        Command {
            id: "template.numberHeadings",
            title: "Number Headings",
            scope: Scope::Win,
            kind: Kind::Check,
            chords: &[],
            placements: &[],
            built: true,
        },
        Command {
            id: "template.indentParagraphs",
            title: "Indent Paragraphs",
            scope: Scope::Win,
            kind: Kind::Check,
            chords: &[],
            placements: &[],
            built: true,
        }
    ]
}

/// Every Command, in the table's order: the menus' and the keyboard's, then
/// the Palette's own.
pub open spec fn registry() -> Seq<Command> {
    menu_rows() + palette_rows()
}

/// The Commands of the menus and the keyboard, in the table's order.
#[verifier::rlimit(100)]
fn menu_commands() -> (table: Vec<Command>)
    ensures
        table@ == menu_rows(),
{
    let mut table: Vec<Command> = Vec::new();
    table.push(Command {
        id: "file.new",
        title: "New Document",
        scope: Scope::Win,
        kind: Kind::Plain,
        chords: &["Ctrl+N"],
        placements: &[Placement { menu: Menu::Document, section: None, label: "New Document" }],
        built: true,
    });
    table.push(Command {
        id: "window.new",
        title: "New Window",
        scope: Scope::App,
        kind: Kind::Plain,
        chords: &["Ctrl+Shift+N"],
        placements: &[Placement { menu: Menu::Document, section: None, label: "New Window" }],
        built: true,
    });
    table.push(Command {
        id: "file.open",
        title: "Open File…",
        scope: Scope::Win,
        kind: Kind::Plain,
        chords: &["Ctrl+O"],
        placements: &[Placement { menu: Menu::Document, section: None, label: "Open File…" }],
        built: true,
    });
    table.push(Command {
        id: "file.save",
        title: "Save",
        scope: Scope::Win,
        kind: Kind::Plain,
        chords: &["Ctrl+S"],
        placements: &[Placement { menu: Menu::Document, section: None, label: "Save" }],
        built: true,
    });
    table.push(Command {
        id: "file.saveAs",
        title: "Save As…",
        scope: Scope::Win,
        kind: Kind::Plain,
        chords: &["Ctrl+Shift+S"],
        placements: &[Placement { menu: Menu::Document, section: None, label: "Save As…" }],
        built: true,
    });
    table.push(Command {
        id: "file.rename",
        title: "Rename Document…",
        scope: Scope::Win,
        kind: Kind::Plain,
        chords: &["F2"],
        placements: &[Placement { menu: Menu::Document, section: None, label: "Rename Document…" }],
        built: true,
    });
    table.push(Command {
        id: "file.duplicate",
        title: "Duplicate Document",
        scope: Scope::Win,
        kind: Kind::Plain,
        chords: &[],
        placements: &[Placement { menu: Menu::Document, section: None, label: "Duplicate Document" }],
        built: true,
    });
    table.push(Command {
        id: "export.open",
        title: "Export…",
        scope: Scope::Win,
        kind: Kind::Plain,
        chords: &["Ctrl+Shift+E"],
        placements: &[Placement { menu: Menu::Document, section: None, label: "Export…" }],
        built: false,
    });
    table.push(Command {
        id: "window.close",
        title: "Close Window",
        scope: Scope::Win,
        kind: Kind::Plain,
        chords: &["Ctrl+W"],
        placements: &[Placement { menu: Menu::Document, section: None, label: "Close Window" }],
        built: true,
    });
    table.push(Command {
        id: "app.quit",
        title: "Quit",
        scope: Scope::App,
        kind: Kind::Plain,
        chords: &["Ctrl+Q"],
        placements: &[Placement { menu: Menu::Document, section: None, label: "Quit" }],
        built: true,
    });
    table.push(Command {
        id: "focus.toggle",
        title: "Enable Focus Mode / Disable Focus Mode",
        scope: Scope::Win,
        kind: Kind::Check,
        chords: &["Ctrl+D"],
        placements: &[Placement { menu: Menu::View, section: Some("Focus"), label: "Enable Focus Mode / Disable Focus Mode" }],
        built: true,
    });
    table.push(Command {
        id: "focus.sentence",
        title: "Sentence",
        scope: Scope::Win,
        kind: Kind::Radio { group: "focus_scope", value: "sentence" },
        chords: &[],
        placements: &[Placement { menu: Menu::View, section: Some("Focus"), label: "Sentence" }],
        built: true,
    });
    table.push(Command {
        id: "focus.paragraph",
        title: "Paragraph",
        scope: Scope::Win,
        kind: Kind::Radio { group: "focus_scope", value: "paragraph" },
        chords: &[],
        placements: &[Placement { menu: Menu::View, section: Some("Focus"), label: "Paragraph" }],
        built: true,
    });
    table.push(Command {
        id: "focus.swap",
        title: "Switch Focus Scope",
        scope: Scope::Win,
        kind: Kind::Plain,
        chords: &["Ctrl+Shift+D"],
        placements: &[],
        built: true,
    });
    table.push(Command {
        id: "typewriter.toggle",
        title: "Typewriter",
        scope: Scope::Win,
        kind: Kind::Check,
        chords: &["Ctrl+T"],
        placements: &[Placement { menu: Menu::View, section: Some("Focus"), label: "Typewriter" }],
        built: true,
    });
    table.push(Command {
        id: "library.toggle",
        title: "Show Library / Hide Library",
        scope: Scope::Win,
        kind: Kind::Check,
        chords: &["Ctrl+E", "F9"],
        placements: &[Placement { menu: Menu::View, section: Some("Panes"), label: "Show Library / Hide Library" }],
        built: true,
    });
    table.push(Command {
        id: "preview.toggle",
        title: "Show Preview / Hide Preview",
        scope: Scope::Win,
        kind: Kind::Check,
        chords: &["Ctrl+R"],
        placements: &[Placement { menu: Menu::View, section: Some("Panes"), label: "Show Preview / Hide Preview" }],
        built: false,
    });
    table.push(Command {
        id: "preview.layout",
        title: "Preview Split / Preview Full",
        scope: Scope::Win,
        kind: Kind::Radio { group: "preview_layout", value: "split" },
        chords: &[],
        placements: &[Placement { menu: Menu::View, section: Some("Panes"), label: "Preview Split / Preview Full" }],
        built: false,
    });
    table.push(Command {
        id: "syntax.toggle",
        title: "Syntax Highlight",
        scope: Scope::Win,
        kind: Kind::Check,
        chords: &[],
        placements: &[Placement { menu: Menu::View, section: Some("Writing tools"), label: "Syntax Highlight" }],
        built: false,
    });
    table.push(Command {
        id: "syntax.nouns",
        title: "Nouns",
        scope: Scope::Win,
        kind: Kind::Check,
        chords: &[],
        placements: &[Placement { menu: Menu::View, section: Some("Writing tools"), label: "Nouns" }],
        built: false,
    });
    table.push(Command {
        id: "syntax.verbs",
        title: "Verbs",
        scope: Scope::Win,
        kind: Kind::Check,
        chords: &[],
        placements: &[Placement { menu: Menu::View, section: Some("Writing tools"), label: "Verbs" }],
        built: false,
    });
    table.push(Command {
        id: "syntax.adjectives",
        title: "Adjectives",
        scope: Scope::Win,
        kind: Kind::Check,
        chords: &[],
        placements: &[Placement { menu: Menu::View, section: Some("Writing tools"), label: "Adjectives" }],
        built: false,
    });
    table.push(Command {
        id: "syntax.adverbs",
        title: "Adverbs",
        scope: Scope::Win,
        kind: Kind::Check,
        chords: &[],
        placements: &[Placement { menu: Menu::View, section: Some("Writing tools"), label: "Adverbs" }],
        built: false,
    });
    table.push(Command {
        id: "syntax.conjunctions",
        title: "Conjunctions",
        scope: Scope::Win,
        kind: Kind::Check,
        chords: &[],
        placements: &[Placement { menu: Menu::View, section: Some("Writing tools"), label: "Conjunctions" }],
        built: false,
    });
    table.push(Command {
        id: "style.toggle",
        title: "Style Check",
        scope: Scope::Win,
        kind: Kind::Check,
        chords: &[],
        placements: &[Placement { menu: Menu::View, section: Some("Writing tools"), label: "Style Check" }],
        built: false,
    });
    table.push(Command {
        id: "spell.toggle",
        title: "Spell Check",
        scope: Scope::Win,
        kind: Kind::Check,
        chords: &[],
        placements: &[Placement { menu: Menu::View, section: Some("Writing tools"), label: "Spell Check" }],
        built: false,
    });
    table.push(Command {
        id: "font.duo",
        title: "Duo",
        scope: Scope::Win,
        kind: Kind::Radio { group: "face", value: "duo" },
        chords: &[],
        placements: &[Placement { menu: Menu::View, section: Some("Typeface"), label: "Duo" }],
        built: true,
    });
    table.push(Command {
        id: "font.quattro",
        title: "Quattro",
        scope: Scope::Win,
        kind: Kind::Radio { group: "face", value: "quattro" },
        chords: &[],
        placements: &[Placement { menu: Menu::View, section: Some("Typeface"), label: "Quattro" }],
        built: true,
    });
    table.push(Command {
        id: "font.mono",
        title: "Mono",
        scope: Scope::Win,
        kind: Kind::Radio { group: "face", value: "mono" },
        chords: &[],
        placements: &[Placement { menu: Menu::View, section: Some("Typeface"), label: "Mono" }],
        built: true,
    });
    table.push(Command {
        id: "theme.toggle",
        title: "Dark Mode",
        scope: Scope::Win,
        kind: Kind::Check,
        chords: &["Ctrl+Shift+L", "Alt+Shift+N"],
        placements: &[Placement { menu: Menu::View, section: Some("Appearance"), label: "Dark Mode" }],
        built: true,
    });
    table.push(Command {
        id: "font.bigger",
        title: "Bigger Text",
        scope: Scope::Win,
        kind: Kind::Plain,
        chords: &["Ctrl+=", "Ctrl++"],
        placements: &[Placement { menu: Menu::View, section: Some("Appearance"), label: "Bigger Text" }],
        built: true,
    });
    table.push(Command {
        id: "font.smaller",
        title: "Smaller Text",
        scope: Scope::Win,
        kind: Kind::Plain,
        chords: &["Ctrl+-"],
        placements: &[Placement { menu: Menu::View, section: Some("Appearance"), label: "Smaller Text" }],
        built: true,
    });
    table.push(Command {
        id: "font.reset",
        title: "Default Text Size",
        scope: Scope::Win,
        kind: Kind::Plain,
        chords: &["Ctrl+0"],
        placements: &[Placement { menu: Menu::View, section: Some("Appearance"), label: "Default Text Size" }],
        built: true,
    });
    table.push(Command {
        id: "chrome.stats",
        title: "Statistics",
        scope: Scope::Win,
        kind: Kind::Check,
        chords: &[],
        placements: &[Placement { menu: Menu::View, section: Some("Window"), label: "Statistics" }, Placement { menu: Menu::Stats, section: None, label: "Hide Statistics" }],
        built: true,
    });
    table.push(Command {
        id: "chrome.toggle",
        title: "Hide Bars / Show Bars",
        scope: Scope::Win,
        kind: Kind::Check,
        chords: &["Ctrl+Shift+H"],
        placements: &[Placement { menu: Menu::View, section: Some("Window"), label: "Hide Bars / Show Bars" }],
        built: true,
    });
    table.push(Command {
        id: "window.fullscreen",
        title: "Full Screen",
        scope: Scope::Win,
        kind: Kind::Check,
        chords: &["F11"],
        placements: &[Placement { menu: Menu::View, section: Some("Window"), label: "Full Screen" }],
        built: true,
    });
    table.push(Command {
        id: "settings.open",
        title: "Settings…",
        scope: Scope::Win,
        kind: Kind::Plain,
        chords: &["Ctrl+,"],
        placements: &[Placement { menu: Menu::View, section: Some("Window"), label: "Settings…" }],
        built: true,
    });
    table.push(Command {
        id: "shortcuts.open",
        title: "Keyboard Shortcuts",
        scope: Scope::Win,
        kind: Kind::Plain,
        chords: &["Ctrl+?"],
        placements: &[Placement { menu: Menu::View, section: Some("Window"), label: "Keyboard Shortcuts" }],
        built: true,
    });
    table.push(Command {
        id: "palette.open",
        title: "All Commands…",
        scope: Scope::Win,
        kind: Kind::Plain,
        chords: &["Ctrl+K", "Ctrl+Shift+P"],
        placements: &[Placement { menu: Menu::View, section: Some("Window"), label: "All Commands…" }],
        built: true,
    });
    table.push(Command {
        id: "stats.words",
        title: "Words",
        scope: Scope::Win,
        kind: Kind::Radio { group: "stats", value: "words" },
        chords: &[],
        placements: &[Placement { menu: Menu::Stats, section: None, label: "Words" }],
        built: false,
    });
    table.push(Command {
        id: "stats.characters",
        title: "Characters",
        scope: Scope::Win,
        kind: Kind::Radio { group: "stats", value: "characters" },
        chords: &[],
        placements: &[Placement { menu: Menu::Stats, section: None, label: "Characters" }],
        built: false,
    });
    table.push(Command {
        id: "stats.charactersNoSpaces",
        title: "Characters Without Spaces",
        scope: Scope::Win,
        kind: Kind::Radio { group: "stats", value: "charactersNoSpaces" },
        chords: &[],
        placements: &[Placement { menu: Menu::Stats, section: None, label: "Characters Without Spaces" }],
        built: false,
    });
    table.push(Command {
        id: "stats.sentences",
        title: "Sentences",
        scope: Scope::Win,
        kind: Kind::Radio { group: "stats", value: "sentences" },
        chords: &[],
        placements: &[Placement { menu: Menu::Stats, section: None, label: "Sentences" }],
        built: false,
    });
    table.push(Command {
        id: "stats.paragraphs",
        title: "Paragraphs",
        scope: Scope::Win,
        kind: Kind::Radio { group: "stats", value: "paragraphs" },
        chords: &[],
        placements: &[Placement { menu: Menu::Stats, section: None, label: "Paragraphs" }],
        built: false,
    });
    table.push(Command {
        id: "stats.readingTime",
        title: "Reading Time",
        scope: Scope::Win,
        kind: Kind::Radio { group: "stats", value: "readingTime" },
        chords: &[],
        placements: &[Placement { menu: Menu::Stats, section: None, label: "Reading Time" }],
        built: false,
    });
    table.push(Command {
        id: "library.search",
        title: "Find a Document…",
        scope: Scope::Win,
        kind: Kind::Plain,
        chords: &["Ctrl+Shift+O"],
        placements: &[],
        built: true,
    });
    table.push(Command {
        id: "file.next",
        title: "Next Document",
        scope: Scope::Win,
        kind: Kind::Plain,
        chords: &["Ctrl+Page Down"],
        placements: &[],
        built: true,
    });
    table.push(Command {
        id: "file.prev",
        title: "Previous Document",
        scope: Scope::Win,
        kind: Kind::Plain,
        chords: &["Ctrl+Page Up"],
        placements: &[],
        built: true,
    });
    table.push(Command {
        id: "file.follow",
        title: "Open Linked Document",
        scope: Scope::Win,
        kind: Kind::Plain,
        chords: &["Ctrl+Enter"],
        placements: &[],
        built: false,
    });
    table.push(Command {
        id: "file.recent",
        title: "Open Recent…",
        scope: Scope::Win,
        kind: Kind::Plain,
        chords: &[],
        placements: &[],
        built: true,
    });
    table.push(Command {
        id: "file.openFolder",
        title: "Add Location…",
        scope: Scope::Win,
        kind: Kind::Plain,
        chords: &[],
        placements: &[],
        built: true,
    });
    table.push(Command {
        id: "file.delete",
        title: "Move to Trash",
        scope: Scope::Win,
        kind: Kind::Plain,
        chords: &[],
        placements: &[],
        built: true,
    });
    table.push(Command {
        id: "theme.light",
        title: "Light Theme",
        scope: Scope::Win,
        kind: Kind::Radio { group: "theme", value: "light" },
        chords: &[],
        placements: &[],
        built: true,
    });
    table.push(Command {
        id: "theme.dark",
        title: "Dark Theme",
        scope: Scope::Win,
        kind: Kind::Radio { group: "theme", value: "dark" },
        chords: &[],
        placements: &[],
        built: true,
    });
    table.push(Command {
        id: "theme.auto",
        title: "Follow System",
        scope: Scope::Win,
        kind: Kind::Radio { group: "theme", value: "auto" },
        chords: &[],
        placements: &[],
        built: true,
    });
    table.push(Command {
        id: "chrome.doc",
        title: "Document Menu",
        scope: Scope::Win,
        kind: Kind::Plain,
        chords: &[],
        placements: &[],
        built: true,
    });
    table.push(Command {
        id: "chrome.view",
        title: "View Menu",
        scope: Scope::Win,
        kind: Kind::Plain,
        chords: &["F10"],
        placements: &[],
        built: true,
    });
    table
}

/// The Palette's own Commands, in the table's order.
fn palette_commands() -> (table: Vec<Command>)
    ensures
        table@ == palette_rows(),
{
    let mut table: Vec<Command> = Vec::new();
    table.push(
        Command {
            id: "export.pdf",
            title: "Export as PDF…",
            scope: Scope::Win,
            kind: Kind::Plain,
            chords: &[],
            placements: &[],
            built: true,
        },
    );
    table.push(
        Command {
            id: "outline.open",
            title: "Outline",
            scope: Scope::Win,
            kind: Kind::Plain,
            chords: &[],
            placements: &[],
            built: true,
        },
    );
    table.push(
        Command {
            id: "style.fillers",
            title: "Fillers",
            scope: Scope::Win,
            kind: Kind::Check,
            chords: &[],
            placements: &[],
            built: true,
        },
    );
    table.push(
        Command {
            id: "style.redundancies",
            title: "Redundancies",
            scope: Scope::Win,
            kind: Kind::Check,
            chords: &[],
            placements: &[],
            built: true,
        },
    );
    table.push(
        Command {
            id: "style.cliches",
            title: "Clichés",
            scope: Scope::Win,
            kind: Kind::Check,
            chords: &[],
            placements: &[],
            built: true,
        },
    );
    table.push(
        Command {
            id: "template.modern",
            title: "Modern",
            scope: Scope::Win,
            kind: Kind::Plain,
            chords: &[],
            placements: &[],
            built: true,
        },
    );
    table.push(
        Command {
            id: "template.classic",
            title: "Classic",
            scope: Scope::Win,
            kind: Kind::Plain,
            chords: &[],
            placements: &[],
            built: true,
        },
    );
    table.push(
        Command {
            id: "template.manuscriptMono",
            title: "Manuscript Mono",
            scope: Scope::Win,
            kind: Kind::Plain,
            chords: &[],
            placements: &[],
            built: true,
        },
    );
    table.push(
        Command {
            id: "template.manuscriptDuo",
            title: "Manuscript Duo",
            scope: Scope::Win,
            kind: Kind::Plain,
            chords: &[],
            placements: &[],
            built: true,
        },
    );
    table.push(
        Command {
            id: "template.manuscriptQuattro",
            title: "Manuscript Quattro",
            scope: Scope::Win,
            kind: Kind::Plain,
            chords: &[],
            placements: &[],
            built: true,
        },
    );
    table.push(
        Command {
            id: "template.centerHeadings",
            title: "Center Headings",
            scope: Scope::Win,
            kind: Kind::Check,
            chords: &[],
            placements: &[],
            built: true,
        },
    );
    table.push(
        Command {
            id: "template.numberHeadings",
            title: "Number Headings",
            scope: Scope::Win,
            kind: Kind::Check,
            chords: &[],
            placements: &[],
            built: true,
        },
    );
    table.push(
        Command {
            id: "template.indentParagraphs",
            title: "Indent Paragraphs",
            scope: Scope::Win,
            kind: Kind::Check,
            chords: &[],
            placements: &[],
            built: true,
        },
    );
    table
}

/// Every Command, in the table's order, as [`registry`] lists them.
pub fn commands() -> (table: Vec<Command>)
    ensures
        table@ == registry(),
{
    let mut table = menu_commands();
    let mut rest = palette_commands();
    table.append(&mut rest);
    table
}


/// Chords with no Command yet, held so nothing else takes them.
pub fn reserved() -> (chords: Vec<&'static str>)
    ensures
        chords@ == seq!["Ctrl+P", "Ctrl+1", "Ctrl+2", "Ctrl+3", "Ctrl+4", "Ctrl+5", "Ctrl+6",
            "Ctrl+B", "Ctrl+I", "Ctrl+F", "Ctrl+H", "Ctrl+G", "Ctrl+Shift+G", "Ctrl+Shift+C",
            "Ctrl+Shift+R"],
{
    vec!["Ctrl+P", "Ctrl+1", "Ctrl+2", "Ctrl+3", "Ctrl+4", "Ctrl+5", "Ctrl+6", "Ctrl+B", "Ctrl+I",
        "Ctrl+F", "Ctrl+H", "Ctrl+G", "Ctrl+Shift+G", "Ctrl+Shift+C", "Ctrl+Shift+R"]
}

/// Chords `GtkTextView` takes before a window shortcut sees them, so a
/// Command bound to one is dead.
pub fn off_limits() -> (chords: Vec<&'static str>)
    ensures
        chords@ == seq!["Ctrl+A", "Ctrl+X", "Ctrl+C", "Ctrl+V", "Ctrl+Shift+V", "Ctrl+Z",
            "Ctrl+Shift+Z", "Ctrl+←", "Ctrl+→", "Ctrl+Shift+←", "Ctrl+Shift+→", "Ctrl+Backspace",
            "Ctrl+Delete", "Ctrl+Shift+U", "Ctrl+.", "Ctrl+;", "Shift+F10", "Menu"],
{
    vec!["Ctrl+A", "Ctrl+X", "Ctrl+C", "Ctrl+V", "Ctrl+Shift+V", "Ctrl+Z", "Ctrl+Shift+Z",
        "Ctrl+←", "Ctrl+→", "Ctrl+Shift+←", "Ctrl+Shift+→", "Ctrl+Backspace", "Ctrl+Delete",
        "Ctrl+Shift+U", "Ctrl+.", "Ctrl+;", "Shift+F10", "Menu"]
}

/// Whether `command` is bound to `chord`, as its default or as an alias.
pub open spec fn binds(command: Command, chord: Seq<char>) -> bool {
    exists|k: int| 0 <= k < command.chords@.len() && #[trigger] command.chords@[k]@ == chord
}

/// The Command with this id.
pub fn by_id(id: &str) -> (found: Option<Command>)
    ensures
        match found {
            Some(command) => exists|i: int|
                0 <= i < registry().len() && registry()[i] == command && command.id@ == id@
                    && forall|j: int| 0 <= j < i ==> (#[trigger] registry()[j]).id@ != id@,
            None => forall|i: int| 0 <= i < registry().len() ==> (#[trigger] registry()[i]).id@
                != id@,
        },
{
    let table = commands();
    let mut i: usize = 0;
    while i < table.len()
        invariant
            0 <= i <= table@.len(),
            table@ == registry(),
            forall|j: int| 0 <= j < i ==> (#[trigger] registry()[j]).id@ != id@,
        decreases table.len() - i,
    {
        if same(table[i].id, id) {
            return Some(table[i]);
        }
        i = i + 1;
    }
    None
}

/// Whether one of `chords` is `chord`.
fn bound(chords: &'static [&'static str], chord: &str) -> (yes: bool)
    ensures
        yes == exists|k: int| 0 <= k < chords@.len() && #[trigger] chords@[k]@ == chord@,
{
    let mut k: usize = 0;
    while k < chords.len()
        invariant
            0 <= k <= chords@.len(),
            forall|m: int| 0 <= m < k ==> (#[trigger] chords@[m])@ != chord@,
        decreases chords.len() - k,
    {
        if same(chords[k], chord) {
            return true;
        }
        k = k + 1;
    }
    false
}

/// The Command a chord in the table's syntax fires, default or alias: the
/// first in the table that binds it.
pub fn by_chord(chord: &str) -> (found: Option<Command>)
    ensures
        match found {
            Some(command) => exists|i: int|
                0 <= i < registry().len() && registry()[i] == command && binds(command, chord@)
                    && forall|j: int| 0 <= j < i ==> !binds(#[trigger] registry()[j], chord@),
            None => forall|i: int| 0 <= i < registry().len() ==> !binds(#[trigger] registry()[i], chord@),
        },
{
    let table = commands();
    let mut i: usize = 0;
    while i < table.len()
        invariant
            0 <= i <= table@.len(),
            table@ == registry(),
            forall|j: int| 0 <= j < i ==> !binds(#[trigger] registry()[j], chord@),
        decreases table.len() - i,
    {
        if bound(table[i].chords, chord) {
            return Some(table[i]);
        }
        i = i + 1;
    }
    None
}

/// The radio groups of `table`, one per radio Command, in order.
pub open spec fn groups_of(table: Seq<Command>) -> Seq<Seq<char>>
    decreases table.len(),
{
    if table.len() == 0 {
        seq![]
    } else {
        let rest = groups_of(table.drop_last());
        match table.last().kind {
            Kind::Radio { group, .. } => rest.push(group@),
            _ => rest,
        }
    }
}

/// The texts of `items`.
pub open spec fn texts(items: Seq<&'static str>) -> Seq<Seq<char>> {
    items.map_values(|item: &'static str| item@)
}

/// The radio groups the registry names, each once, in the table's order.
pub fn radio_groups() -> (groups: Vec<&'static str>)
    ensures
        texts(groups@) == groups_of(registry()).remove_duplicates(seq![]),
{
    let table = commands();
    let mut all: Vec<&'static str> = Vec::new();
    let mut i: usize = 0;
    while i < table.len()
        invariant
            0 <= i <= table@.len(),
            table@ == registry(),
            texts(all@) == groups_of(registry().take(i as int)),
        decreases table.len() - i,
    {
        proof {
            assert(registry().take(i as int + 1).drop_last() == registry().take(i as int));
        }
        match table[i].kind {
            Kind::Radio { group, .. } => {
                all.push(group);
                proof {
                    assert(texts(all@) == texts(all@.drop_last()).push(group@));
                    assert(all@.drop_last() == old_all(all@));
                }
            },
            _ => {},
        }
        i = i + 1;
    }
    proof {
        assert(registry().take(i as int) == registry());
    }
    distinct(all)
}

/// `items` with their last one taken off.
spec fn old_all(items: Seq<&'static str>) -> Seq<&'static str> {
    items.drop_last()
}

/// `items` with each value kept where it first appears.
pub fn distinct(items: Vec<&'static str>) -> (kept: Vec<&'static str>)
    ensures
        texts(kept@) == texts(items@).remove_duplicates(seq![]),
{
    let mut seen: Vec<&'static str> = Vec::new();
    let mut k: usize = 0;
    while k < items.len()
        invariant
            0 <= k <= items@.len(),
            texts(seen@) == texts(items@.take(k as int)).remove_duplicates(seq![]),
        decreases items.len() - k,
    {
        let item = items[k];
        let ghost before = texts(items@.take(k as int));
        proof {
            assert(texts(items@.take(k as int + 1)) == before + seq![item@]);
            before.lemma_remove_duplicates_properties(seq![]);
            before.lemma_remove_duplicates_append(item@, seq![]);
            assert(before + seq![] == before);
        }
        let mut present = false;
        let mut m: usize = 0;
        while m < seen.len()
            invariant
                0 <= m <= seen@.len(),
                present == exists|j: int| 0 <= j < m && (#[trigger] seen@[j])@ == item@,
            decreases seen.len() - m,
        {
            if same(seen[m], item) {
                present = true;
            }
            m = m + 1;
        }
        proof {
            if present {
                let j = choose|j: int| 0 <= j < m && (#[trigger] seen@[j])@ == item@;
                assert(texts(seen@)[j] == item@);
                assert(texts(seen@).contains(item@));
                assert(before.contains(item@));
            } else {
                assert forall|j: int| 0 <= j < texts(seen@).len() implies texts(seen@)[j] != item@ by {
                    assert(texts(seen@)[j] == seen@[j]@);
                }
                assert(!texts(seen@).contains(item@));
                assert(!before.contains(item@));
            }
        }
        if !present {
            seen.push(item);
            proof {
                assert(texts(seen@) == texts(seen@.drop_last()).push(item@));
                assert(seq![item@] == Seq::<Seq<char>>::empty().push(item@));
            }
        }
        k = k + 1;
    }
    proof {
        assert(items@.take(k as int) == items@);
    }
    seen
}

/// `chord` cut at every `+`, as `str::split('+')` cuts it.
pub open spec fn split_plus(chord: Seq<char>) -> Seq<Seq<char>>
    decreases chord.len(),
{
    if chord.len() == 0 {
        seq![seq![]]
    } else {
        let parts = split_plus(chord.drop_last());
        if chord.last() == '+' {
            parts.push(seq![])
        } else {
            parts.update(parts.len() - 1, parts.last().push(chord.last()))
        }
    }
}

/// The parts of a chord: `Ctrl++` splits into `Ctrl` and two empty tails,
/// which are one `+` key.
pub open spec fn chord_parts(chord: Seq<char>) -> Seq<Seq<char>> {
    let parts = split_plus(chord);
    if parts.len() >= 2 && parts[parts.len() - 1].len() == 0 && parts[parts.len() - 2].len() == 0 {
        parts.take(parts.len() - 2).push(seq!['+'])
    } else {
        parts
    }
}

/// GTK's name for a modifier as the table writes it.
pub open spec fn modifier_of(modifier: Seq<char>) -> Option<Seq<char>> {
    if modifier == "Ctrl"@ {
        Some("<Control>"@)
    } else if modifier == "Shift"@ {
        Some("<Shift>"@)
    } else if modifier == "Alt"@ {
        Some("<Alt>"@)
    } else {
        None
    }
}

/// The modifiers of a chord in GTK's syntax, run together, or `None` where
/// one of them has no name.
pub open spec fn modifiers_of(modifiers: Seq<Seq<char>>) -> Option<Seq<char>>
    decreases modifiers.len(),
{
    if modifiers.len() == 0 {
        Some(seq![])
    } else {
        match (modifiers_of(modifiers.drop_last()), modifier_of(modifiers.last())) {
            (Some(head), Some(last)) => Some(head + last),
            _ => None,
        }
    }
}

/// The value of a run of decimal digits.
pub open spec fn decimal(digits: Seq<char>) -> int
    decreases digits.len(),
{
    if digits.len() == 0 {
        0
    } else {
        decimal(digits.drop_last()) * 10 + (digits.last() as int - '0' as int)
    }
}

/// Whether every character of `text` is an ASCII digit.
pub open spec fn all_digits(text: Seq<char>) -> bool {
    forall|k: int| 0 <= k < text.len() ==> is_ascii_digit(#[trigger] text[k])
}

/// What `str::parse::<u8>` makes of `text`: an optional `+`, then at least one
/// digit, worth no more than 255.
pub open spec fn parsed_u8(text: Seq<char>) -> Option<int> {
    let digits = if text.len() > 0 && text[0] == '+' { text.skip(1) } else { text };
    if digits.len() > 0 && all_digits(digits) && decimal(digits) <= 255 {
        Some(decimal(digits))
    } else {
        None
    }
}

/// GDK's name for a key as the table writes it: a named key, a letter made
/// small, a digit, or `F1` to `F12`.
pub open spec fn key_of(key: Seq<char>) -> Option<Seq<char>> {
    if key == "="@ {
        Some("equal"@)
    } else
    if key == "+"@ {
        Some("plus"@)
    } else
    if key == "-"@ {
        Some("minus"@)
    } else
    if key == ","@ {
        Some("comma"@)
    } else
    if key == "?"@ {
        Some("question"@)
    } else
    if key == "."@ {
        Some("period"@)
    } else
    if key == ";"@ {
        Some("semicolon"@)
    } else
    if key == "Page Down"@ {
        Some("Page_Down"@)
    } else
    if key == "Page Up"@ {
        Some("Page_Up"@)
    } else
    if key == "Enter"@ {
        Some("Return"@)
    } else
    if key == "Backspace"@ {
        Some("BackSpace"@)
    } else
    if key == "Delete"@ {
        Some("Delete"@)
    } else
    if key == "Menu"@ {
        Some("Menu"@)
    } else
    if key == "←"@ {
        Some("Left"@)
    } else
    if key == "→"@ {
        Some("Right"@)
    } else {
        if key.len() == 1 && is_ascii_letter(key[0]) {
            Some(seq![ascii_lower(key[0])])
        } else if key.len() == 1 && is_ascii_digit(key[0]) {
            Some(key)
        } else if key.len() >= 1 && key[0] == 'F' && (parsed_u8(key.skip(1)) matches Some(n) && 1 <= n <= 12) {
            Some(key)
        } else {
            None
        }
    }
}

/// The chords of `chords` that convert, converted, in order.
pub open spec fn accels_of(chords: Seq<Seq<char>>) -> Seq<Seq<char>>
    decreases chords.len(),
{
    if chords.len() == 0 {
        seq![]
    } else {
        let rest = accels_of(chords.drop_last());
        match accel_of(chords.last()) {
            Some(converted) => rest.push(converted),
            None => rest,
        }
    }
}

/// A chord in the table's syntax as GTK's accelerator syntax, or `None` for a
/// key or a modifier this converter has no name for.
pub open spec fn accel_of(chord: Seq<char>) -> Option<Seq<char>> {
    let parts = chord_parts(chord);
    if parts.len() == 0 {
        None
    } else {
        match (modifiers_of(parts.drop_last()), key_of(parts.last())) {
            (Some(modifiers), Some(key)) => Some(modifiers + key),
            _ => None,
        }
    }
}

/// The parts of `chords` as their texts.
pub open spec fn part_texts(parts: Seq<Vec<char>>) -> Seq<Seq<char>> {
    parts.map_values(|part: Vec<char>| part@)
}

/// A chord in the table's syntax as GTK's accelerator syntax:
/// `Ctrl+Shift+L` is `<Control><Shift>l`, `Ctrl+Page Down` is
/// `<Control>Page_Down`; `None` for a key this converter has no name for.
pub fn accel(chord: &str) -> (converted: Option<String>)
    ensures
        match converted {
            Some(text) => accel_of(chord@) == Some(text@),
            None => accel_of(chord@) is None,
        },
{
    let chars = chars_of(chord);
    let mut parts: Vec<Vec<char>> = Vec::new();
    let mut current: Vec<char> = Vec::new();
    let mut i: usize = 0;
    while i < chars.len()
        invariant
            0 <= i <= chars@.len(),
            chars@ == chord@,
            part_texts(parts@).push(current@) == split_plus(chars@.take(i as int)),
        decreases chars.len() - i,
    {
        let ghost before = chars@.take(i as int);
        proof {
            assert(chars@.take(i as int + 1).drop_last() == before);
        }
        if chars[i] == '+' {
            parts.push(current);
            current = Vec::new();
            proof {
                assert(part_texts(parts@) == part_texts(parts@.drop_last()).push(parts@.last()@));
            }
        } else {
            current.push(chars[i]);
        }
        i = i + 1;
    }
    proof {
        assert(chars@.take(i as int) == chord@);
    }
    parts.push(current);
    proof {
        assert(part_texts(parts@) == split_plus(chord@));
    }
    let n = parts.len();
    if n >= 2 && parts[n - 1].len() == 0 && parts[n - 2].len() == 0 {
        let ghost whole = parts@;
        parts.truncate(n - 2);
        let plus = vec!['+'];
        proof {
            assert(plus@ == seq!['+']);
        }
        parts.push(plus);
        proof {
            assert(part_texts(parts@) =~= part_texts(whole).take(n - 2).push(seq!['+']));
        }
    }
    proof {
        assert(part_texts(parts@) == chord_parts(chord@));
    }
    let last = parts.len() - 1;
    let mut out = String::new();
    let mut m: usize = 0;
    while m < last
        invariant
            0 <= m <= last,
            last == parts@.len() - 1,
            part_texts(parts@) == chord_parts(chord@),
            modifiers_of(part_texts(parts@).take(m as int)) == Some(out@),
        decreases last - m,
    {
        proof {
            assert(part_texts(parts@).take(m as int + 1).drop_last() == part_texts(parts@).take(m as int));
        }
        let modifier = &parts[m];
        if is_text(modifier, "Ctrl") {
            push_text(&mut out, "<Control>");
        } else if is_text(modifier, "Shift") {
            push_text(&mut out, "<Shift>");
        } else if is_text(modifier, "Alt") {
            push_text(&mut out, "<Alt>");
        } else {
            proof {
                let texts_now = part_texts(parts@);
                assert(texts_now.take(m as int + 1).last() == parts@[m as int]@);
                assert(texts_now.drop_last().take(m as int + 1) == texts_now.take(m as int + 1));
                lemma_modifiers_fail(texts_now.take(m as int + 1), texts_now.drop_last());
            }
            return None;
        }
        m = m + 1;
    }
    proof {
        assert(part_texts(parts@).take(m as int) == part_texts(parts@).drop_last());
    }
    match key_name(&parts[last]) {
        Some(key) => {
            push_text(&mut out, key.as_str());
            Some(out)
        },
        None => None,
    }
}

proof fn lemma_no_named_key(key: Seq<char>)
    requires
        key.len() >= 2,
        key[0] == 'F',
    ensures
        key_of(key) == (if key.len() >= 1 && key[0] == 'F' && (parsed_u8(key.skip(1)) matches Some(n) && 1 <= n
            <= 12) {
            Some(key)
        } else {
            None
        }),
{
    reveal_strlit("=");
    reveal_strlit("+");
    reveal_strlit("-");
    reveal_strlit(",");
    reveal_strlit("?");
    reveal_strlit(".");
    reveal_strlit(";");
    reveal_strlit("Page Down");
    reveal_strlit("Page Up");
    reveal_strlit("Enter");
    reveal_strlit("Backspace");
    reveal_strlit("Delete");
    reveal_strlit("Menu");
    reveal_strlit("←");
    reveal_strlit("→");
    assert(key != "Page Down"@ && key != "Page Up"@ && key != "Enter"@ && key != "Backspace"@);
    assert(key != "Delete"@ && key != "Menu"@);
}

proof fn lemma_split_plain(key: Seq<char>)
    requires
        forall|k: int| 0 <= k < key.len() ==> #[trigger] key[k] != '+',
    ensures
        split_plus(key) == seq![key],
    decreases key.len(),
{
    if key.len() > 0 {
        lemma_split_plain(key.drop_last());
        assert(key.drop_last().push(key.last()) =~= key);
        assert(split_plus(key) =~= seq![key]);
    }
}

/// A chord without a `+` is a key alone, and converts as that key does.
proof fn lemma_bare_key(key: Seq<char>)
    requires
        forall|k: int| 0 <= k < key.len() ==> #[trigger] key[k] != '+',
    ensures
        accel_of(key) == key_of(key),
{
    lemma_split_plain(key);
    assert(chord_parts(key) =~= seq![key]);
    assert(chord_parts(key).drop_last() =~= Seq::<Seq<char>>::empty());
    match key_of(key) {
        Some(name) => {
            assert(Seq::<char>::empty() + name =~= name);
        },
        None => {},
    }
}

proof fn lemma_one_digit(d: char)
    requires
        '0' <= d <= '9',
    ensures
        parsed_u8(seq![d]) == Some(d as int - '0' as int),
{
    let a = seq![d];
    assert(a.drop_last() =~= Seq::<char>::empty());
    assert(decimal(a.drop_last()) == 0);
    assert(decimal(a) == d as int - '0' as int);
    assert(all_digits(a));
}

proof fn lemma_two_digits(d: char)
    requires
        '0' <= d <= '9',
    ensures
        parsed_u8(seq!['1', d]) == Some(10 + (d as int - '0' as int)),
{
    let b = seq!['1', d];
    assert(b.drop_last() =~= seq!['1']);
    assert(b.drop_last().drop_last() =~= Seq::<char>::empty());
    assert(decimal(b.drop_last().drop_last()) == 0);
    assert(decimal(b.drop_last()) == 1);
    assert(decimal(b) == 10 + (d as int - '0' as int));
    assert(all_digits(b));
}

/// Each function key, F1 to F12, converts to itself, as the fullscreen
/// command's F11 does, while F13 to F19 have no accelerator.
pub proof fn lemma_function_keys_convert_to_themselves(d: char)
    ensures
        '1' <= d <= '9' ==> accel_of(seq!['F', d]) == Some(seq!['F', d]),
        '0' <= d <= '2' ==> accel_of(seq!['F', '1', d]) == Some(seq!['F', '1', d]),
        '3' <= d <= '9' ==> accel_of(seq!['F', '1', d]) is None,
{
    if '0' <= d <= '9' {
        let one = seq!['F', d];
        let two = seq!['F', '1', d];
        assert(forall|k: int| 0 <= k < one.len() ==> #[trigger] one[k] != '+');
        assert(forall|k: int| 0 <= k < two.len() ==> #[trigger] two[k] != '+');
        lemma_bare_key(one);
        lemma_bare_key(two);
        lemma_no_named_key(one);
        lemma_no_named_key(two);
        assert(one.skip(1) =~= seq![d]);
        assert(two.skip(1) =~= seq!['1', d]);
        lemma_one_digit(d);
        lemma_two_digits(d);
    }
}


/// A chord whose first modifiers already have no name has none at all.
proof fn lemma_modifiers_fail(head: Seq<Seq<char>>, all: Seq<Seq<char>>)
    requires
        head.len() <= all.len(),
        head == all.take(head.len() as int),
        modifiers_of(head) is None,
    ensures
        modifiers_of(all) is None,
    decreases all.len(),
{
    if all.len() > head.len() {
        assert(all.drop_last().take(head.len() as int) == head);
        lemma_modifiers_fail(head, all.drop_last());
    } else {
        assert(head == all);
    }
}

/// GDK's name for a key as the table writes it.
fn key_name(key: &Vec<char>) -> (name: Option<String>)
    ensures
        match name {
            Some(text) => key_of(key@) == Some(text@),
            None => key_of(key@) is None,
        },
{
    if is_text(key, "=") {
        return Some(String::from_str("equal"));
    }
    if is_text(key, "+") {
        return Some(String::from_str("plus"));
    }
    if is_text(key, "-") {
        return Some(String::from_str("minus"));
    }
    if is_text(key, ",") {
        return Some(String::from_str("comma"));
    }
    if is_text(key, "?") {
        return Some(String::from_str("question"));
    }
    if is_text(key, ".") {
        return Some(String::from_str("period"));
    }
    if is_text(key, ";") {
        return Some(String::from_str("semicolon"));
    }
    if is_text(key, "Page Down") {
        return Some(String::from_str("Page_Down"));
    }
    if is_text(key, "Page Up") {
        return Some(String::from_str("Page_Up"));
    }
    if is_text(key, "Enter") {
        return Some(String::from_str("Return"));
    }
    if is_text(key, "Backspace") {
        return Some(String::from_str("BackSpace"));
    }
    if is_text(key, "Delete") {
        return Some(String::from_str("Delete"));
    }
    if is_text(key, "Menu") {
        return Some(String::from_str("Menu"));
    }
    if is_text(key, "←") {
        return Some(String::from_str("Left"));
    }
    if is_text(key, "→") {
        return Some(String::from_str("Right"));
    }
    if key.len() == 1 && (('a' <= key[0] && key[0] <= 'z') || ('A' <= key[0] && key[0] <= 'Z')) {
        let mut lower = String::new();
        push_char(&mut lower, to_ascii_lower(key[0]));
        return Some(lower);
    }
    if key.len() == 1 && '0' <= key[0] && key[0] <= '9' {
        return Some(string_of(key));
    }
    if key.len() >= 1 && key[0] == 'F' {
        if let Some(n) = parse_u8(key, 1) {
            if 1 <= n && n <= 12 {
                return Some(string_of(key));
            }
        }
    }
    None
}

/// What `str::parse::<u8>` makes of `text` from the character `from` on.
fn parse_u8(text: &Vec<char>, from: usize) -> (value: Option<u32>)
    requires
        from <= text@.len(),
    ensures
        match value {
            Some(n) => parsed_u8(text@.skip(from as int)) == Some(n as int),
            None => parsed_u8(text@.skip(from as int)) is None,
        },
{
    let ghost rest = text@.skip(from as int);
    let start = if from < text.len() && text[from] == '+' { from + 1 } else { from };
    let ghost digits = text@.skip(start as int);
    proof {
        assert(digits == if rest.len() > 0 && rest[0] == '+' { rest.skip(1) } else { rest });
    }
    if start >= text.len() {
        return None;
    }
    let mut value: u32 = 0;
    let mut i: usize = start;
    while i < text.len()
        invariant
            start <= i <= text@.len(),
            digits == text@.skip(start as int),
            rest == text@.skip(from as int),
            digits == if rest.len() > 0 && rest[0] == '+' { rest.skip(1) } else { rest },
            forall|k: int| start <= k < i ==> is_ascii_digit(#[trigger] text@[k]),
            value as int == decimal(text@.subrange(start as int, i as int)),
            value <= 255,
        decreases text.len() - i,
    {
        let c = text[i];
        if !('0' <= c && c <= '9') {
            proof {
                assert(digits[i - start] == text@[i as int]);
                assert(!is_ascii_digit(digits[i - start]));
                assert(!all_digits(digits));
                assert(parsed_u8(rest) is None);
            }
            return None;
        }
        let next = value * 10 + ((c as u32) - ('0' as u32));
        proof {
            assert(text@.subrange(start as int, i as int + 1).drop_last() == text@.subrange(start as int, i as int));
        }
        if next > 255 {
            proof {
                assert(text@.subrange(start as int, i as int + 1) == digits.take(i - start + 1));
                assert(decimal(digits.take(i - start + 1)) == next);
                if all_digits(digits) {
                    lemma_decimal_grows(digits, (i - start + 1) as int);
                }
                assert(parsed_u8(rest) is None);
            }
            return None;
        }
        value = next;
        i = i + 1;
    }
    proof {
        assert(text@.subrange(start as int, i as int) == digits);
        assert forall|k: int| 0 <= k < digits.len() implies is_ascii_digit(#[trigger] digits[k]) by {
            assert(digits[k] == text@[start + k]);
        }
    }
    Some(value)
}

/// A run of digits is worth at least what any run of its first digits is.
proof fn lemma_decimal_grows(digits: Seq<char>, upto: int)
    requires
        0 <= upto <= digits.len(),
        forall|k: int| 0 <= k < digits.len() ==> is_ascii_digit(#[trigger] digits[k]),
    ensures
        decimal(digits) >= decimal(digits.take(upto)),
    decreases digits.len(),
{
    if digits.len() > upto {
        assert(digits.drop_last().take(upto) == digits.take(upto));
        lemma_decimal_grows(digits.drop_last(), upto);
        lemma_decimal_nonnegative(digits.drop_last());
    } else {
        assert(digits.take(upto) == digits);
    }
}

/// A run of digits is worth nothing below zero.
proof fn lemma_decimal_nonnegative(digits: Seq<char>)
    requires
        forall|k: int| 0 <= k < digits.len() ==> is_ascii_digit(#[trigger] digits[k]),
    ensures
        decimal(digits) >= 0,
    decreases digits.len(),
{
    if digits.len() > 0 {
        lemma_decimal_nonnegative(digits.drop_last());
    }
}

} // verus!
