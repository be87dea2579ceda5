use ziggurat::filetypes::container::{
    find_value, metadata_to_keep, plan_chapters, Chapter, ChapterSource,
};
use ziggurat::filetypes::epub::{
    collect_text_nodes, edit_html, html_snippets, is_markup, MarkupError,
};
use ziggurat::filetypes::markup::IntegrityError;

fn strings(texts: &[&str]) -> Vec<String> {
    texts.iter().map(|text| text.to_string()).collect()
}

fn pairs(entries: &[(&str, &str)]) -> Vec<(String, String)> {
    entries.iter().map(|(a, b)| (a.to_string(), b.to_string())).collect()
}

#[test]
fn snippets_are_the_texts_between_the_tags() {
    let html = "<html><body><h1>Title</h1><p>First <b>bold</b> text.</p></body></html>";
    assert_eq!(
        html_snippets(html),
        Ok(strings(&["Title", "First ", "bold", " text."]))
    );
}

#[test]
fn a_placeholder_is_part_of_a_snippet() {
    let html = "<p>one</p>\n<span epub:type=\"pagebreak\"/>\n<p>two</p>";
    assert_eq!(
        html_snippets(html),
        Ok(strings(&["one", "\nSPECIAL_TAG_0\n", "two"]))
    );
}

#[test]
fn text_nodes_carry_the_numbers_of_their_nodes() {
    let html = "<p>a<i>b</i></p>c";
    let dom = tl::parse(html, tl::ParserOptions::default()).unwrap();
    let nodes = collect_text_nodes(&dom);
    let found: Vec<(u32, String)> =
        nodes.iter().map(|node| (node.id, node.text.clone())).collect();
    let mut expected = Vec::new();
    for (index, node) in dom.nodes().iter().enumerate() {
        if let Some(bytes) = node.as_raw() {
            expected.push((index as u32, bytes.as_utf8_str().to_string()));
        }
    }
    assert_eq!(found.len(), 3);
    assert_eq!(found, expected);
}

#[test]
fn the_texts_take_the_places_of_the_snippets() {
    let html = "<html><body><h1>Title</h1><p>First <b>bold</b> text.</p></body></html>";
    let translated = strings(&["Titel", "Erster ", "fetter", " Text."]);
    assert_eq!(
        edit_html(html, &translated),
        Ok("<html><body><h1>Titel</h1><p>Erster <b>fetter</b> Text.</p></body></html>"
            .to_string())
    );
}

#[test]
fn the_same_texts_leave_the_markup_as_it_is() {
    let html = "<div><p>one</p>\n<span epub:type=\"pagebreak\" id=\"p1\"></span>\n<p>two</p></div>";
    let snippets = html_snippets(html).unwrap();
    assert_eq!(edit_html(html, &snippets), Ok(html.to_string()));
}

#[test]
fn another_number_of_texts_is_a_fault() {
    let html = "<p>one</p><p>two</p>";
    assert_eq!(
        edit_html(html, &strings(&["eins"])),
        Err(MarkupError::SnippetCount { expected: 2, found: 1 })
    );
}

#[test]
fn a_lost_placeholder_is_a_fault() {
    let html = "<p>one</p>\n<span epub:type=\"pagebreak\"/>\n<p>two</p>";
    let translated = strings(&["eins", "\n", "zwei"]);
    assert_eq!(
        edit_html(html, &translated),
        Err(MarkupError::Integrity(IntegrityError::Missing { placeholder: 0 }))
    );
    let doubled = strings(&["SPECIAL_TAG_0", "SPECIAL_TAG_0", "zwei"]);
    assert_eq!(
        edit_html(html, &doubled),
        Err(MarkupError::Integrity(IntegrityError::Repeated { placeholder: 0 }))
    );
}

#[test]
fn markup_is_told_by_its_type() {
    assert!(is_markup("application/xhtml+xml"));
    assert!(!is_markup("text/css"));
    assert!(!is_markup(""));
}

fn summary(chapter: &Chapter) -> (String, String, Option<String>) {
    let content = match &chapter.source {
        ChapterSource::Edited { content } => Some(content.clone()),
        ChapterSource::Unchanged => None,
    };
    (chapter.id.clone(), chapter.path.clone(), content)
}

#[test]
fn chapters_follow_the_spine() {
    let spine = strings(&["c2", "gone", "c1", "css"]);
    let resources = pairs(&[("c1", "text/c1.xhtml"), ("css", "style.css"), ("c2", "text/c2.xhtml")]);
    let edited = pairs(&[("c1", "<p>eins</p>"), ("c2", "<p>zwei</p>")]);
    let chapters = plan_chapters(&spine, &resources, &edited);
    let found: Vec<_> = chapters.iter().map(summary).collect();
    assert_eq!(
        found,
        vec![
            ("c2".to_string(), "text/c2.xhtml".to_string(), Some("<p>zwei</p>".to_string())),
            ("c1".to_string(), "text/c1.xhtml".to_string(), Some("<p>eins</p>".to_string())),
            ("css".to_string(), "style.css".to_string(), None),
        ]
    );
    assert!(plan_chapters(&Vec::new(), &resources, &edited).is_empty());
}

#[test]
fn the_first_pair_with_the_key_is_found() {
    let entries = pairs(&[("a", "1"), ("b", "2"), ("a", "3")]);
    assert_eq!(find_value(&entries, &"a".to_string()), Some(0));
    assert_eq!(find_value(&entries, &"b".to_string()), Some(1));
    assert_eq!(find_value(&entries, &"c".to_string()), None);
}

#[test]
fn four_fields_of_metadata_are_kept() {
    let metadata = pairs(&[
        ("subject", "s1"),
        ("creator", "someone"),
        ("title", "t1"),
        ("subject", "s2"),
        ("description", "d"),
        ("title", "t2"),
    ]);
    assert_eq!(
        metadata_to_keep(&metadata),
        pairs(&[("title", "t1"), ("title", "t2"), ("description", "d"), ("subject", "s1"), ("subject", "s2")])
    );
}

#[test]
fn blank_snippets_are_kept() {
    let html = "<p> </p><p>\n</p><b>x</b>";
    assert_eq!(html_snippets(html), Ok(strings(&[" ", "\n", "x"])));
    assert_eq!(html_snippets(""), Ok(Vec::new()));
    assert_eq!(edit_html("", &Vec::new()), Ok(String::new()));
}

#[test]
fn a_digit_behind_a_tag_comes_through() {
    let html = "<p>one</p><br class=\"pagebreak\"/>5 apples<a id=\"pagebreak\"></a><b>two</b>";
    let snippets = html_snippets(html).unwrap();
    assert_eq!(snippets, strings(&["one", "SPECIAL_TAG_0_5 applesSPECIAL_TAG_1", "two"]));
    assert_eq!(edit_html(html, &snippets), Ok(html.to_string()));
    let translated = strings(&["eins", "SPECIAL_TAG_1 vor SPECIAL_TAG_0_5 Aepfeln", "zwei"]);
    assert_eq!(
        edit_html(html, &translated),
        Ok("<p>eins</p><a id=\"pagebreak\"></a> vor <br class=\"pagebreak\"/>5 Aepfeln<b>zwei</b>"
            .to_string())
    );
}
