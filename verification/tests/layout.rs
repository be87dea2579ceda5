use ziggurat::filetypes::content::{ImageDescriptor, Instruction};
use ziggurat::filetypes::layout::{
    add_image, calculate_image_scale, format_paragraph, string_width, ImageScale, PagesState,
};
use ziggurat::options::PdfOptions;

fn shown(state: &PagesState) -> Vec<Vec<String>> {
    state
        .pages
        .iter()
        .map(|page| {
            page.instructions
                .iter()
                .filter_map(|instruction| match instruction {
                    Instruction::ShowText { text } => Some(text.clone()),
                    _ => None,
                })
                .collect()
        })
        .collect()
}

fn image(width: u32, height: u32) -> ImageDescriptor {
    ImageDescriptor {
        id: (7, 0),
        content: vec![1, 2, 3],
        width,
        height,
        color_space: None,
        bits_per_component: None,
        filters: None,
    }
}

#[test]
fn width_is_seven_points_a_character() {
    assert_eq!(string_width(""), 0);
    assert_eq!(string_width("hello"), 35);
}

#[test]
fn paragraph_that_fits_is_one_line() {
    let options = PdfOptions::default();
    let mut state = PagesState::new(&options);
    format_paragraph(&options, &mut state, "  the quick\tbrown fox ");
    assert_eq!(shown(&state), vec![vec!["the quick brown fox".to_string()]]);
    assert_eq!(state.y_pos, 730);
}

#[test]
fn wide_word_keeps_its_own_line() {
    let options = PdfOptions::default();
    let mut state = PagesState::new(&options);
    let wide = "w".repeat(80);
    format_paragraph(&options, &mut state, &format!("a {} b", wide));
    assert_eq!(shown(&state), vec![vec!["a".to_string(), wide, "b".to_string()]]);
}

fn paragraph_of(words: usize) -> String {
    // Two of these words do not fit on one line, so each word is a line.
    vec!["x".repeat(71); words].join(" ")
}

#[test]
fn fifty_lines_stay_on_the_page() {
    let options = PdfOptions::default();
    let mut state = PagesState::new(&options);
    format_paragraph(&options, &mut state, &paragraph_of(50));
    let lines = shown(&state);
    // The fiftieth line is shown at 64, above the lower limit. The space behind the
    // paragraph then brings the cursor below it, which begins a page without a line.
    assert_eq!(lines.len(), 2);
    assert_eq!(lines[0], vec!["x".repeat(71); 50]);
    assert!(lines[1].is_empty());
    assert_eq!(state.y_pos, 750);
}

#[test]
fn line_fifty_one_opens_a_page() {
    let options = PdfOptions::default();
    let mut state = PagesState::new(&options);
    format_paragraph(&options, &mut state, &paragraph_of(51));
    let lines = shown(&state);
    // Behind line fifty the cursor has come down to the lower limit: the page takes no
    // further line, and line fifty-one is the first of the next page.
    assert_eq!(lines.len(), 2);
    assert_eq!(lines[0], vec!["x".repeat(71); 50]);
    assert_eq!(lines[1], vec!["x".repeat(71)]);
    assert_eq!(state.y_pos, 730);
}

#[test]
fn no_line_is_shown_at_the_lower_limit() {
    let options = PdfOptions { min_y_pos: 722, ..PdfOptions::default() };
    let mut state = PagesState::new(&options);
    format_paragraph(&options, &mut state, &paragraph_of(5));
    // Lines are shown at 750 and 736 only: at 722 the cursor is at the limit.
    assert_eq!(shown(&state), vec![vec!["x".repeat(71); 2], vec!["x".repeat(71); 2], vec!["x".repeat(71)]]);
}

#[test]
fn space_behind_a_paragraph_can_open_a_page() {
    let options = PdfOptions { max_y_pos: 60, ..PdfOptions::default() };
    let mut state = PagesState::new(&options);
    format_paragraph(&options, &mut state, "one");
    assert_eq!(state.pages.len(), 2);
    assert_eq!(state.y_pos, 60);
    let first = format!("{:?}", state.pages[0].instructions);
    assert!(first.ends_with(
        "ShowText { text: \"one\" }, MoveText { dx: 0, dy: 0 }, MoveText { dx: 0, dy: -20 }, \
         EndText, BeginText, MoveText { dx: 50, dy: 60 }]"
    ));
    assert_eq!(state.pages[1].instructions.len(), 3);
}

#[test]
fn large_images_are_scaled_down() {
    let options = PdfOptions::default();
    let wide = calculate_image_scale(&image(1000, 100), 500, 700);
    assert_eq!(wide, ImageScale { numerator: 500, denominator: 1000 });
    let tall = calculate_image_scale(&image(100, 1400), 500, 700);
    assert_eq!(tall, ImageScale { numerator: 700, denominator: 1400 });
    let both = calculate_image_scale(&image(2000, 1400), 500, 700);
    assert_eq!(both, ImageScale { numerator: 500, denominator: 2000 });
    let flat = calculate_image_scale(&image(0, 1400), 500, 700);
    assert_eq!(flat, ImageScale { numerator: 700, denominator: 1400 });
    let mut state = PagesState::new(&options);
    add_image(&options, &mut state, &image(2000, 1400));
    assert_eq!(state.y_pos, 750 - 350 - 10);
    assert_eq!(ziggurat::filetypes::layout::scale_length(1001, wide), 500);
}

#[test]
fn small_image_is_not_enlarged() {
    let options = PdfOptions::default();
    let picture = image(100, 100);
    let scale = calculate_image_scale(&picture, options.max_image_width, options.max_image_height);
    assert_eq!(scale, ImageScale { numerator: 1, denominator: 1 });
    let mut state = PagesState::new(&options);
    add_image(&options, &mut state, &picture);
    assert_eq!(state.pages.len(), 1);
    assert_eq!(state.y_pos, 750 - 100 - 10);
}
