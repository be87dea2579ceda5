use ziggurat::filetypes::{get_file_type, FileType};
use ziggurat::frontend::cli::{ApiVersion, Args, Provider};
use ziggurat::frontend::tui::{
    handle_event, render_app_state, styled_list, AppState, Command, Key, MenuOption,
    ProviderEntry, ProviderOption,
};
use ziggurat::providers::google::{translate_document_url, translate_url, translation_requests};
use ziggurat::providers::llm::{
    completion_request, completion_url, last_choice, local_prompt,
};

#[test]
fn menu_is_a_ring() {
    let all = [
        MenuOption::Providers,
        MenuOption::Config,
        MenuOption::Input,
        MenuOption::Output,
        MenuOption::Language,
    ];
    for (i, option) in all.iter().enumerate() {
        assert_eq!(option.index(), i);
        assert_eq!(option.next(), all[(i + 1) % 5]);
        assert_eq!(option.previous(), all[(i + 4) % 5]);
        assert_eq!(option.next().previous(), *option);
    }
}

#[test]
fn state_at_the_start() {
    let state = AppState::new();
    assert_eq!(state.selected_option, MenuOption::Providers);
    assert!(matches!(state.selected_provider, ProviderOption::Add));
    assert_eq!(state.confirmed_provider_idx, None);
    assert!(state.providers.is_empty());
    assert!(state.config_path.is_none());
    assert_eq!(state.input_file, "");
    assert_eq!(state.output_file, "");
    assert_eq!(state.language_code, "");
}

fn google(name: &str) -> ProviderEntry {
    ProviderEntry {
        name: name.to_string(),
        provider: Provider::GoogleTranslate {
            version: ApiVersion::V3 { project_id: "p".to_string() },
            credentials: "c".to_string(),
        },
    }
}

fn llm(name: &str) -> ProviderEntry {
    ProviderEntry {
        name: name.to_string(),
        provider: Provider::Llm { endpoint: "e".to_string(), api_key: "k".to_string() },
    }
}

#[test]
fn provider_lines() {
    assert_eq!(google("mine").label(), "LLM Endpoint Credentials - mine");
    assert_eq!(llm("yours").label(), "Google Credentials - yours");
}

#[test]
fn screen_shows_five_lists() {
    let mut state = AppState::new();
    state.providers.push(google("one"));
    state.providers.push(llm("two"));
    state.selected_option = MenuOption::Input;
    let panels = render_app_state(&state);
    let titles: Vec<&str> = panels.iter().map(|panel| panel.title.as_str()).collect();
    assert_eq!(
        titles,
        vec!["Providers", "Config Path", "Input Path", "Output Path", "Language Code"]
    );
    assert_eq!(
        panels[0].items,
        vec!["Add provider", "LLM Endpoint Credentials - one", "Google Credentials - two"]
    );
    assert_eq!(panels[0].marked, Some(2));
    for panel in &panels[1..] {
        assert_eq!(panel.items, vec!["None"]);
        assert_eq!(panel.marked, None);
    }
    let selected: Vec<bool> = panels.iter().map(|panel| panel.is_selected).collect();
    assert_eq!(selected, vec![false, false, true, false, false]);
    assert!(panels.iter().all(|panel| panel.share == 20));
}

#[test]
fn styled_list_keeps_what_it_is_given() {
    let panel = styled_list("Title", vec!["a".to_string()], true);
    assert_eq!(panel.title, "Title");
    assert_eq!(panel.items, vec!["a"]);
    assert!(panel.is_selected);
    assert_eq!(panel.marked, None);
}

#[test]
fn keys_move_the_selection_or_end_the_program() {
    let mut state = AppState::new();
    assert_eq!(handle_event(Key::Down, &mut state), Command::Continue);
    assert_eq!(state.selected_option, MenuOption::Config);
    assert_eq!(handle_event(Key::Up, &mut state), Command::Continue);
    assert_eq!(handle_event(Key::Up, &mut state), Command::Continue);
    assert_eq!(state.selected_option, MenuOption::Language);
    assert_eq!(handle_event(Key::Other, &mut state), Command::Continue);
    assert_eq!(
        handle_event(Key::Char { character: 'c', control: false }, &mut state),
        Command::Continue
    );
    assert_eq!(
        handle_event(Key::Char { character: 'c', control: true }, &mut state),
        Command::Exit
    );
    assert_eq!(
        handle_event(Key::Char { character: 'q', control: false }, &mut state),
        Command::Exit
    );
    assert_eq!(state.selected_option, MenuOption::Language);
}

#[test]
fn arguments_hold_what_was_given() {
    let args = Args {
        api_key: None,
        config: Some(std::path::PathBuf::from("config.json")),
        input: "in.pdf".to_string(),
        output: "out.pdf".to_string(),
        to: "de".to_string(),
        verbose: true,
    };
    assert_eq!(args.input, "in.pdf");
    assert!(args.verbose);
}

#[test]
fn file_types_by_their_first_bytes() {
    assert_eq!(get_file_type(b"%PDF-1.5"), Some(FileType::PDF));
    assert_eq!(get_file_type(b"PK\x03\x04"), Some(FileType::EPUB));
    assert_eq!(get_file_type(b"<htm"), Some(FileType::Unsupported));
    assert_eq!(get_file_type(b"%PDG"), Some(FileType::Unsupported));
    assert_eq!(get_file_type(b"PK"), None);
    assert_eq!(get_file_type(b""), None);
}

#[test]
fn requests_leave_blank_snippets_out() {
    let snippets = vec!["one".to_string(), "  \n".to_string(), "".to_string(), "two".to_string()];
    let requests = translation_requests(&snippets, "de");
    let found: Vec<(&str, &str)> =
        requests.iter().map(|request| (request.q.as_str(), request.target.as_str())).collect();
    assert_eq!(found, vec![("one", "de"), ("two", "de")]);
}

#[test]
fn addresses_and_prompts() {
    assert_eq!(
        translate_url("KEY"),
        "https://translation.googleapis.com/language/translate/v2?key=KEY"
    );
    assert_eq!(
        translate_document_url("proj"),
        "https://translation.googleapis.com/v3/projects/proj/locations/global:translateDocument"
    );
    assert_eq!(completion_url("http://host", "m"), "http://host/v1/m/completions");
    let request = completion_request("Hello", "French");
    assert_eq!(request.model, "llama-3.2-3B");
    assert_eq!(request.prompt, "Please translate the following into French:\nHello");
    assert_eq!(request.max_tokens, 100);
    assert_eq!(
        local_prompt("Hello", "French"),
        "Please translate the following text into French:\n Hello"
    );
    assert_eq!(last_choice(&vec!["a".to_string(), "b".to_string()]), Some("b".to_string()));
    assert_eq!(last_choice(&Vec::new()), None);
}

#[test]
fn documents_travel_in_base64() {
    let request = ziggurat::providers::google::document_request(&b"%PDF-1.5 hello".to_vec(), "fr")
        .unwrap();
    assert_eq!(request.content, "JVBERi0xLjUgaGVsbG8=");
    assert_eq!(request.mime_type, "application/pdf");
    assert_eq!(request.target_language_code, "fr");
    assert_eq!(
        ziggurat::providers::google::translated_document(Some("JVBERi0xLjUgaGVsbG8=")),
        Ok(b"%PDF-1.5 hello".to_vec())
    );
    assert_eq!(
        ziggurat::providers::google::translated_document(Some("not base64!")),
        Err(ziggurat::providers::google::ResponseError::Encoding)
    );
    assert_eq!(
        ziggurat::providers::google::translated_document(None),
        Err(ziggurat::providers::google::ResponseError::NoContent)
    );
}

#[test]
fn configuration_is_the_default_or_a_line() {
    let mut config = ziggurat::frontend::config::Config::with_default();
    assert_eq!(config.app_config, "default_ziggurat_config\n");
    config.take_line("  verbose = true \n");
    assert_eq!(config.app_config, "verbose = true");
    let read = ziggurat::frontend::config::Config::from_contents("a\nb".to_string());
    assert_eq!(read.app_config, "a\nb");
}

#[test]
fn translations_go_back_to_the_places_of_their_snippets() {
    let snippets = vec![" ".to_string(), "one".to_string(), "".to_string(), "two".to_string(), "\n".to_string()];
    let requests = translation_requests(&snippets, "de");
    assert_eq!(requests.len(), 2);
    let answer = vec!["eins".to_string(), "zwei".to_string()];
    assert_eq!(
        ziggurat::providers::google::merge_translations(&snippets, &answer),
        Some(vec![" ".to_string(), "eins".to_string(), "".to_string(), "zwei".to_string(), "\n".to_string()])
    );
    assert_eq!(
        ziggurat::providers::google::merge_translations(&snippets, &vec!["eins".to_string()]),
        None
    );
    assert_eq!(
        ziggurat::providers::google::merge_translations(&Vec::new(), &Vec::new()),
        Some(Vec::new())
    );
}
