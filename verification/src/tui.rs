//! The plain screen of the terminal front end: five lists that are filled
//! in with single keys, each followed by a line of input.

use std::path::PathBuf;
use vstd::prelude::*;
use vstd::string::*;
use crate::frontend::cli::{ApiVersion, Provider};
use crate::frontend::tui::{panel_views, Key, Panel, PanelView};
use crate::text::{trim, trimmed};

verus! {

/// The screens of the front end.
#[derive(Clone, Copy, Debug, PartialEq, Eq, Structural)]
pub enum Screens {
    ChooseProvider,
    GoogleInfo,
    LlmInfo,
}

/// The state of the front end.
#[derive(Debug)]
pub struct AppState {
    pub current_screen: Screens,
    pub provider: Provider,
    pub config_path: Option<PathBuf>,
    pub input_file: String,
    pub output_file: String,
    pub language_code: String,
}

/// What can be filled in with a line of input.
#[derive(Clone, Copy, Debug, PartialEq, Eq, Structural)]
pub enum Field {
    ConfigPath,
    InputFile,
    OutputFile,
    LanguageCode,
}

/// The text that a path was made from.
pub uninterp spec fn path_text(path: PathBuf) -> Seq<char>;

/// Calls `PathBuf::from` on a text, which makes the path that the text
/// spells. The contract gives the text of a path the name `path_text` and
/// says that the path made holds the text it was made from.
#[verifier::external_body]
fn path_from(text: &str) -> (path: PathBuf)
    ensures
        path_text(path) == text@,
{
    PathBuf::from(text)
}

impl AppState {
    /// The state at the start: the provider is chosen first, it is the
    /// Google interface without credentials, and nothing is filled in.
    pub fn new() -> (state: Self)
        ensures
            state.current_screen == Screens::ChooseProvider,
            state.provider matches Provider::GoogleTranslate { version, credentials }
                && version is V2 && credentials@.len() == 0,
            state.config_path is None,
            state.input_file@.len() == 0,
            state.output_file@.len() == 0,
            state.language_code@.len() == 0,
    {
        AppState {
            current_screen: Screens::ChooseProvider,
            provider: Provider::GoogleTranslate {
                version: ApiVersion::V2,
                credentials: String::new(),
            },
            config_path: None,
            input_file: String::new(),
            output_file: String::new(),
            language_code: String::new(),
        }
    }
}

/// A list with the given lines that is not set off and marks no line.
pub open spec fn list(title: Seq<char>, items: Seq<Seq<char>>, share: u16) -> PanelView {
    PanelView { title, items, is_selected: false, marked: None, share }
}

/// What the screen shows: the providers to choose from, and four lists that
/// say that nothing is filled in, with their parts of the screen's height.
pub open spec fn screen() -> Seq<PanelView> {
    seq![
        list("Providers"@, seq!["Google Translate"@, "LLM"@], 20),
        list("Config Path"@, seq!["None"@], 40),
        list("Input File"@, seq!["None"@], 20),
        list("Output File"@, seq!["None"@], 10),
        list("Language Code"@, seq!["None"@], 10),
    ]
}

/// A list with the given lines.
fn make_list(title: &str, items: Vec<String>, share: u16) -> (panel: Panel)
    ensures
        panel@ == list(title@, items.deep_view(), share),
{
    Panel { title: title.to_owned(), items, is_selected: false, marked: None, share }
}

/// A list that says that nothing is filled in.
fn empty_list(title: &str, share: u16) -> (panel: Panel)
    ensures
        panel@ == list(title@, seq!["None"@], share),
{
    let items = vec!["None".to_owned()];
    assert(items.deep_view() =~= seq!["None"@]);
    make_list(title, items, share)
}

/// Says what the screen is to show. It is the same in every state.
pub fn render_app_state(state: &AppState) -> (panels: Vec<Panel>)
    ensures
        panel_views(panels@) == screen(),
{
    let providers = vec!["Google Translate".to_owned(), "LLM".to_owned()];
    assert(providers.deep_view() =~= seq!["Google Translate"@, "LLM"@]);
    let panels = vec![
        make_list("Providers", providers, 20),
        empty_list("Config Path", 40),
        empty_list("Input File", 20),
        empty_list("Output File", 10),
        empty_list("Language Code", 10),
    ];
    assert(panel_views(panels@) =~= screen());
    panels
}

/// The field that a key asks a line of input for, if it asks for one.
pub open spec fn field_of(key: Key) -> Option<Field> {
    match key {
        Key::Char { character, .. } => if character == 'c' {
            Some(Field::ConfigPath)
        } else if character == 'i' {
            Some(Field::InputFile)
        } else if character == 'o' {
            Some(Field::OutputFile)
        } else if character == 'a' {
            Some(Field::LanguageCode)
        } else {
            None
        },
        _ => None,
    }
}

/// Takes a key. The key `l` chooses the language model, without an address
/// and without a key, as the provider. The keys `c`, `i`, `o` and `a` ask
/// for a line of input, which `enter_line` then puts into their field; the
/// answer names the field. Any other key does nothing.
///
/// The key that goes up is not taken here.
pub fn handle_event(key: Key, state: &mut AppState) -> (wanted: Option<Field>)
    requires
        !(key is Up),
    ensures
        wanted == field_of(key),
        final(state).current_screen == old(state).current_screen,
        final(state).config_path == old(state).config_path,
        final(state).input_file == old(state).input_file,
        final(state).output_file == old(state).output_file,
        final(state).language_code == old(state).language_code,
        match key {
            Key::Char { character, .. } if character == 'l' => final(state).provider matches Provider::Llm {
                endpoint,
                api_key,
            } && endpoint@.len() == 0 && api_key@.len() == 0,
            _ => final(state).provider == old(state).provider,
        },
{
    match key {
        Key::Char { character, control: _ } => {
            if character == 'l' {
                state.provider = Provider::Llm { endpoint: String::new(), api_key: String::new() };
                None
            } else if character == 'c' {
                Some(Field::ConfigPath)
            } else if character == 'i' {
                Some(Field::InputFile)
            } else if character == 'o' {
                Some(Field::OutputFile)
            } else if character == 'a' {
                Some(Field::LanguageCode)
            } else {
                None
            }
        },
        _ => None,
    }
}

/// Puts a line of input, without the white space around it, into a field.
pub fn enter_line(state: &mut AppState, field: Field, line: &str)
    ensures
        final(state).current_screen == old(state).current_screen,
        final(state).provider == old(state).provider,
        match field {
            Field::ConfigPath => final(state).config_path matches Some(path) && path_text(path)
                == trimmed(line@),
            _ => final(state).config_path == old(state).config_path,
        },
        final(state).input_file@ == if field == Field::InputFile {
            trimmed(line@)
        } else {
            old(state).input_file@
        },
        final(state).output_file@ == if field == Field::OutputFile {
            trimmed(line@)
        } else {
            old(state).output_file@
        },
        final(state).language_code@ == if field == Field::LanguageCode {
            trimmed(line@)
        } else {
            old(state).language_code@
        },
{
    let text = trim(line);
    match field {
        Field::ConfigPath => {
            state.config_path = Some(path_from(text.as_str()));
        },
        Field::InputFile => {
            state.input_file = text;
        },
        Field::OutputFile => {
            state.output_file = text;
        },
        Field::LanguageCode => {
            state.language_code = text;
        },
    }
}

} // verus!
