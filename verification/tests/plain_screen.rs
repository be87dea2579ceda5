use std::path::PathBuf;
use ziggurat::frontend::cli::{ApiVersion, Provider};
use ziggurat::frontend::tui::Key;
use ziggurat::tui::{enter_line, handle_event, render_app_state, AppState, Field, Screens};

fn key(character: char) -> Key {
    Key::Char { character, control: false }
}

#[test]
fn plain_state_at_the_start() {
    let state = AppState::new();
    assert_eq!(state.current_screen, Screens::ChooseProvider);
    assert!(matches!(
        &state.provider,
        Provider::GoogleTranslate { version: ApiVersion::V2, credentials } if credentials.is_empty()
    ));
    assert!(state.config_path.is_none());
    assert_eq!(state.input_file, "");
    assert_eq!(state.output_file, "");
    assert_eq!(state.language_code, "");
}

#[test]
fn plain_screen_shows_five_lists() {
    let panels = render_app_state(&AppState::new());
    let found: Vec<(&str, Vec<&str>, u16)> = panels
        .iter()
        .map(|panel| {
            (
                panel.title.as_str(),
                panel.items.iter().map(|item| item.as_str()).collect(),
                panel.share,
            )
        })
        .collect();
    assert_eq!(
        found,
        vec![
            ("Providers", vec!["Google Translate", "LLM"], 20),
            ("Config Path", vec!["None"], 40),
            ("Input File", vec!["None"], 20),
            ("Output File", vec!["None"], 10),
            ("Language Code", vec!["None"], 10),
        ]
    );
    assert!(panels.iter().all(|panel| !panel.is_selected && panel.marked.is_none()));
}

#[test]
fn keys_ask_for_their_fields() {
    let mut state = AppState::new();
    assert_eq!(handle_event(key('c'), &mut state), Some(Field::ConfigPath));
    assert_eq!(handle_event(key('i'), &mut state), Some(Field::InputFile));
    assert_eq!(handle_event(key('o'), &mut state), Some(Field::OutputFile));
    assert_eq!(handle_event(key('a'), &mut state), Some(Field::LanguageCode));
    assert_eq!(handle_event(key('q'), &mut state), None);
    assert_eq!(handle_event(Key::Down, &mut state), None);
    assert!(matches!(state.provider, Provider::GoogleTranslate { .. }));
    assert_eq!(handle_event(key('l'), &mut state), None);
    assert!(matches!(
        &state.provider,
        Provider::Llm { endpoint, api_key } if endpoint.is_empty() && api_key.is_empty()
    ));
}

#[test]
fn lines_fill_the_fields() {
    let mut state = AppState::new();
    enter_line(&mut state, Field::ConfigPath, " conf/app.json \n");
    enter_line(&mut state, Field::InputFile, "in.pdf\n");
    enter_line(&mut state, Field::OutputFile, "\tout.pdf");
    enter_line(&mut state, Field::LanguageCode, "de\r\n");
    assert_eq!(state.config_path, Some(PathBuf::from("conf/app.json")));
    assert_eq!(state.input_file, "in.pdf");
    assert_eq!(state.output_file, "out.pdf");
    assert_eq!(state.language_code, "de");
}
