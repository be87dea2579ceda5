//! The menu of the terminal front end: what is selected, what is shown, and
//! what a key does.

use std::path::PathBuf;
use vstd::prelude::*;
use vstd::string::*;
use crate::frontend::cli::Provider;

verus! {

/// The entries of the menu, from top to bottom.
#[derive(Clone, Copy, Debug, PartialEq, Eq, Structural)]
pub enum MenuOption {
    Providers,
    Config,
    Input,
    Output,
    Language,
}

/// The number of entries of the menu.
pub const MENU_LEN: usize = 5;

impl MenuOption {
    /// The place of the entry in the menu, counted from zero.
    pub open spec fn position(self) -> int {
        match self {
            MenuOption::Providers => 0,
            MenuOption::Config => 1,
            MenuOption::Input => 2,
            MenuOption::Output => 3,
            MenuOption::Language => 4,
        }
    }

    /// The entry at a place of the menu.
    pub open spec fn at(place: int) -> MenuOption {
        if place == 0 {
            MenuOption::Providers
        } else if place == 1 {
            MenuOption::Config
        } else if place == 2 {
            MenuOption::Input
        } else if place == 3 {
            MenuOption::Output
        } else {
            MenuOption::Language
        }
    }

    /// The entry below, and below the last one the first.
    pub open spec fn below(self) -> MenuOption {
        MenuOption::at((self.position() + 1) % (MENU_LEN as int))
    }

    /// The entry above, and above the first one the last.
    pub open spec fn above(self) -> MenuOption {
        MenuOption::at((self.position() + MENU_LEN - 1) % (MENU_LEN as int))
    }

    /// The entry below, and below the last one the first.
    pub fn next(&self) -> (below: Self)
        ensures
            below == self.below(),
    {
        match self {
            MenuOption::Providers => MenuOption::Config,
            MenuOption::Config => MenuOption::Input,
            MenuOption::Input => MenuOption::Output,
            MenuOption::Output => MenuOption::Language,
            MenuOption::Language => MenuOption::Providers,
        }
    }

    /// The entry above, and above the first one the last.
    pub fn previous(&self) -> (above: Self)
        ensures
            above == self.above(),
    {
        match self {
            MenuOption::Providers => MenuOption::Language,
            MenuOption::Config => MenuOption::Providers,
            MenuOption::Input => MenuOption::Config,
            MenuOption::Output => MenuOption::Input,
            MenuOption::Language => MenuOption::Output,
        }
    }

    /// The place of the entry in the menu, counted from zero.
    pub fn index(&self) -> (place: usize)
        ensures
            place == self.position(),
            place < MENU_LEN,
    {
        match self {
            MenuOption::Providers => 0,
            MenuOption::Config => 1,
            MenuOption::Input => 2,
            MenuOption::Output => 3,
            MenuOption::Language => 4,
        }
    }
}

/// The menu is a ring: going down and then up, or up and then down, leads
/// back to the same entry.
pub proof fn lemma_menu_is_a_ring(option: MenuOption)
    ensures
        option.below().above() == option,
        option.above().below() == option,
        MenuOption::at(option.position()) == option,
{
}

/// A translation service that was set up, under a name.
#[derive(Debug)]
pub struct ProviderEntry {
    pub name: String,
    pub provider: Provider,
}

/// What a provider's line in the list begins with.
pub open spec fn provider_heading(provider: Provider) -> Seq<char> {
    match provider {
        Provider::GoogleTranslate { .. } => "LLM Endpoint Credentials - "@,
        Provider::Llm { .. } => "Google Credentials - "@,
    }
}

impl ProviderEntry {
    /// The line that stands for the provider in the list: a heading that
    /// goes by its kind, and its name.
    pub fn label(&self) -> (line: String)
        ensures
            line@ == provider_heading(self.provider) + self.name@,
    {
        let mut line = match &self.provider {
            Provider::GoogleTranslate { .. } => "LLM Endpoint Credentials - ".to_owned(),
            Provider::Llm { .. } => "Google Credentials - ".to_owned(),
        };
        line.append(self.name.as_str());
        line
    }
}

/// What is selected in the list of providers.
#[derive(Debug)]
pub enum ProviderOption {
    /// The line that adds a provider.
    Add,
    /// A provider that was set up.
    Entry(ProviderEntry),
}

/// The state of the front end.
#[derive(Debug)]
pub struct AppState {
    pub selected_option: MenuOption,
    pub selected_provider: ProviderOption,
    pub confirmed_provider_idx: Option<usize>,
    pub providers: Vec<ProviderEntry>,
    pub config_path: Option<PathBuf>,
    pub input_file: String,
    pub output_file: String,
    pub language_code: String,
}

impl AppState {
    /// The state at the start: the first entry of the menu is selected,
    /// no provider is set up, and nothing is filled in.
    pub fn new() -> (state: Self)
        ensures
            state.selected_option == MenuOption::Providers,
            state.selected_provider is Add,
            state.confirmed_provider_idx is None,
            state.providers@.len() == 0,
            state.config_path is None,
            state.input_file@.len() == 0,
            state.output_file@.len() == 0,
            state.language_code@.len() == 0,
    {
        AppState {
            selected_option: MenuOption::Providers,
            selected_provider: ProviderOption::Add,
            confirmed_provider_idx: None,
            providers: Vec::new(),
            config_path: None,
            input_file: String::new(),
            output_file: String::new(),
            language_code: String::new(),
        }
    }
}

/// One of the lists that the screen shows, one below the other.
#[derive(Debug)]
pub struct Panel {
    /// What stands in the frame of the list.
    pub title: String,
    /// The lines of the list.
    pub items: Vec<String>,
    /// Whether the list is the one that the menu has selected.
    pub is_selected: bool,
    /// The line that is marked, where the list marks one.
    pub marked: Option<usize>,
    /// The part of the screen's height that the list takes, in percent.
    pub share: u16,
}

/// A `Panel` as a mathematical value.
pub struct PanelView {
    pub title: Seq<char>,
    pub items: Seq<Seq<char>>,
    pub is_selected: bool,
    pub marked: Option<usize>,
    pub share: u16,
}

impl View for Panel {
    type V = PanelView;

    open spec fn view(&self) -> PanelView {
        PanelView {
            title: self.title@,
            items: self.items.deep_view(),
            is_selected: self.is_selected,
            marked: self.marked,
            share: self.share,
        }
    }
}

/// The part of the screen's height that each list takes, in percent.
pub const PANEL_SHARE: u16 = 20;

/// A list with its title and lines that marks no line.
pub open spec fn plain_panel(
    title: Seq<char>,
    items: Seq<Seq<char>>,
    is_selected: bool,
) -> PanelView {
    PanelView { title, items, is_selected, marked: None, share: PANEL_SHARE }
}

/// A list with its title and lines, set off where it is the selected one.
pub fn styled_list(title: &str, items: Vec<String>, is_selected: bool) -> (panel: Panel)
    ensures
        panel@ == plain_panel(title@, items.deep_view(), is_selected),
{
    Panel { title: title.to_owned(), items, is_selected, marked: None, share: PANEL_SHARE }
}

/// The lines of the list of providers: the line that adds one, and a line
/// for each provider.
pub open spec fn provider_lines(providers: Seq<ProviderEntry>) -> Seq<Seq<char>> {
    seq!["Add provider"@] + providers.map_values(
        |entry: ProviderEntry| provider_heading(entry.provider) + entry.name@,
    )
}

/// The list that only says that nothing is filled in.
pub open spec fn empty_panel(title: Seq<char>, is_selected: bool) -> PanelView {
    plain_panel(title, seq!["None"@], is_selected)
}

/// What the screen shows in a state: the list of providers, which marks the
/// line at the place of the selected menu entry, and four lists that say
/// that nothing is filled in. The list at the place of the selected menu
/// entry is the selected one.
pub open spec fn screen(state: AppState) -> Seq<PanelView> {
    let place = state.selected_option.position();
    seq![
        PanelView {
            marked: Some(place as usize),
            ..plain_panel("Providers"@, provider_lines(state.providers@), place == 0)
        },
        empty_panel("Config Path"@, place == 1),
        empty_panel("Input Path"@, place == 2),
        empty_panel("Output Path"@, place == 3),
        empty_panel("Language Code"@, place == 4),
    ]
}

/// The panels as mathematical values.
pub open spec fn panel_views(panels: Seq<Panel>) -> Seq<PanelView> {
    panels.map_values(|panel: Panel| panel@)
}

/// A list that only says that nothing is filled in.
fn empty_list(title: &str, is_selected: bool) -> (panel: Panel)
    ensures
        panel@ == empty_panel(title@, is_selected),
{
    let items = vec!["None".to_owned()];
    assert(items.deep_view() =~= seq!["None"@]);
    styled_list(title, items, is_selected)
}

/// Says what the screen is to show in a state.
pub fn render_app_state(state: &AppState) -> (panels: Vec<Panel>)
    ensures
        panel_views(panels@) == screen(*state),
{
    let mut provider_items = vec!["Add provider".to_owned()];
    let mut i: usize = 0;
    while i < state.providers.len()
        invariant
            i <= state.providers.len(),
            provider_items.len() == i + 1,
            provider_items[0]@ == "Add provider"@,
            forall|j: int|
                0 <= j < i ==> (#[trigger] provider_items[j + 1])@ == provider_heading(
                    state.providers[j].provider,
                ) + state.providers[j].name@,
        decreases state.providers.len() - i,
    {
        provider_items.push(state.providers[i].label());
        i += 1;
    }
    assert(provider_items.deep_view() =~= provider_lines(state.providers@)) by {
        assert forall|j: int| 0 <= j < provider_items.len() implies provider_items.deep_view()[j]
            == provider_lines(state.providers@)[j] by {
            if j > 0 {
                assert(provider_items[j - 1 + 1]@ == provider_heading(
                    state.providers[j - 1].provider,
                ) + state.providers[j - 1].name@);
            }
        }
    }
    let place = state.selected_option.index();
    let mut provider_list = styled_list("Providers", provider_items, place == 0);
    provider_list.marked = Some(place);
    let panels = vec![
        provider_list,
        empty_list("Config Path", place == 1),
        empty_list("Input Path", place == 2),
        empty_list("Output Path", place == 3),
        empty_list("Language Code", place == 4),
    ];
    assert(panel_views(panels@) =~= screen(*state));
    panels
}

/// A key of the keyboard, as far as the menu tells keys apart.
#[derive(Clone, Copy, Debug, PartialEq, Eq, Structural)]
pub enum Key {
    Up,
    Down,
    Enter,
    /// A character, and whether the control key was held down with it.
    Char { character: char, control: bool },
    /// Any other key.
    Other,
}

/// What is to happen after a key.
#[derive(Clone, Copy, Debug, PartialEq, Eq, Structural)]
pub enum Command {
    /// Go on with the next key.
    Continue,
    /// Leave the raw mode of the terminal and end the program.
    Exit,
}

/// Whether a key ends the program: `q` does, and `c` with the control key.
pub open spec fn ends_program(key: Key) -> bool {
    match key {
        Key::Char { character, control } => character == 'q' || (character == 'c' && control),
        _ => false,
    }
}

/// The menu entry that is selected after a key: the one above after `Up`,
/// the one below after `Down`, else the same.
pub open spec fn selected_after(selected: MenuOption, key: Key) -> MenuOption {
    match key {
        Key::Up => selected.above(),
        Key::Down => selected.below(),
        _ => selected,
    }
}

/// Takes a key: the arrows move the selection, `q` and `c` with the control
/// key end the program, and any other key does nothing. The state but for
/// the selected entry stays as it is.
///
/// The key that enters a value is not taken here.
pub fn handle_event(key: Key, state: &mut AppState) -> (command: Command)
    requires
        !(key is Enter),
    ensures
        final(state).selected_option == selected_after(old(state).selected_option, key),
        command == if ends_program(key) {
            Command::Exit
        } else {
            Command::Continue
        },
        final(state).selected_provider == old(state).selected_provider,
        final(state).confirmed_provider_idx == old(state).confirmed_provider_idx,
        final(state).providers == old(state).providers,
        final(state).config_path == old(state).config_path,
        final(state).input_file == old(state).input_file,
        final(state).output_file == old(state).output_file,
        final(state).language_code == old(state).language_code,
{
    match key {
        Key::Up => {
            state.selected_option = state.selected_option.previous();
            Command::Continue
        },
        Key::Down => {
            state.selected_option = state.selected_option.next();
            Command::Continue
        },
        Key::Char { character, control } => {
            if character == 'q' || (character == 'c' && control) {
                Command::Exit
            } else {
                Command::Continue
            }
        },
        _ => Command::Continue,
    }
}

} // verus!
