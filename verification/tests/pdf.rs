use ziggurat::filetypes::assemble::{
    add_catalog, add_encoded_pages, add_font, add_images_to_resources, add_pages_object,
    add_resources, create_image_stream, set_named,
};
use ziggurat::filetypes::content::{ImageDescriptor, Instruction, PageContent};
use ziggurat::filetypes::encode::{encode_page, image_resource_name, operation, Operand};
use ziggurat::filetypes::graph::{
    AssemblyError, DocumentGraph, Entry, NamedReference, Object, Value,
};
use ziggurat::filetypes::layout::{format_content, layout_content, split_paragraphs, PagesState};
use ziggurat::filetypes::pdf::{edit_pdf, encode_pages, EditError, PageUnit};
use ziggurat::options::PdfOptions;

fn image(id: u32, width: u32, height: u32) -> ImageDescriptor {
    ImageDescriptor {
        id: (id, 0),
        content: vec![9, 8, 7],
        width,
        height,
        color_space: None,
        bits_per_component: None,
        filters: None,
    }
}

fn names(entries: &Vec<Entry>) -> Vec<String> {
    entries.iter().map(|entry| entry.key.clone()).collect()
}

fn value<'a>(entries: &'a Vec<Entry>, key: &str) -> &'a Value {
    &entries.iter().find(|entry| entry.key == key).unwrap().value
}

fn dictionary(object: &Object) -> &Vec<Entry> {
    match object {
        Object::Dictionary(entries) => entries,
        Object::Stream { dictionary, .. } => dictionary,
    }
}

fn name_of(value: &Value) -> &str {
    match value {
        Value::Name(name) => name.as_str(),
        _ => panic!("not a name"),
    }
}

#[test]
fn instructions_have_their_operators() {
    let made = operation(&Instruction::ShowText { text: "hi".to_string() });
    assert_eq!(made.operator, "Tj");
    assert!(matches!(&made.operands[..], [Operand::Text(text)] if text == "hi"));
    let made = operation(&Instruction::Transform { width: 3, height: 4, x: 50, y: 60 });
    assert_eq!(made.operator, "cm");
    let numbers: Vec<i64> = made
        .operands
        .iter()
        .map(|operand| match operand {
            Operand::Integer(number) => *number,
            _ => panic!("not a number"),
        })
        .collect();
    assert_eq!(numbers, vec![3, 0, 0, 4, 50, 60]);
    let made = operation(&Instruction::DrawImage { id: 17 });
    assert_eq!(made.operator, "Do");
    assert!(matches!(&made.operands[..], [Operand::Name(name)] if name == "Im17"));
    assert_eq!(image_resource_name(0), "Im0");
}

#[test]
fn a_page_is_written_as_a_content_stream() {
    let page = PageContent {
        instructions: vec![
            Instruction::BeginText,
            Instruction::SelectFont { size: 12 },
            Instruction::MoveText { dx: 50, dy: 750 },
            Instruction::ShowText { text: "Hello (world)".to_string() },
            Instruction::MoveText { dx: 0, dy: -14 },
            Instruction::EndText,
            Instruction::SaveState,
            Instruction::Transform { width: 100, height: 80, x: 50, y: 600 },
            Instruction::DrawImage { id: 7 },
            Instruction::RestoreState,
        ],
    };
    let bytes = encode_page(&page).unwrap();
    assert_eq!(
        String::from_utf8(bytes).unwrap(),
        "BT\n/F1 12 Tf\n50 750 Td\n(Hello (world)) Tj\n0 -14 Td\nET\nq\n100 0 0 80 50 600 cm\n/Im7 Do\nQ"
    );
}

#[test]
fn paragraphs_are_cut_at_blank_lines() {
    let options = PdfOptions::default();
    let mut by_text = PagesState::new(&options);
    format_content(&options, &mut by_text, "one two\n \t\nthree\n\n\nfour\nfive", &Vec::new());
    let mut by_paragraphs = PagesState::new(&options);
    let paragraphs =
        vec!["one two".to_string(), "three".to_string(), "four\nfive".to_string()];
    layout_content(&options, &mut by_paragraphs, &paragraphs, &Vec::new());
    assert_eq!(format!("{:?}", by_text), format!("{:?}", by_paragraphs));
    let shown: Vec<String> = by_text.pages[0]
        .instructions
        .iter()
        .filter_map(|instruction| match instruction {
            Instruction::ShowText { text } => Some(text.clone()),
            _ => None,
        })
        .collect();
    assert_eq!(shown, vec!["one two", "three", "four five"]);
    assert_eq!(by_text.y_pos, 750 - 3 * 20);
}

#[test]
fn a_unit_is_laid_out_with_its_images() {
    let options = PdfOptions::default();
    let mut state = PagesState::new(&options);
    layout_content(&options, &mut state, &vec!["hello".to_string()], &vec![image(3, 1000, 700)]);
    let expected = vec![
        Instruction::BeginText,
        Instruction::SelectFont { size: 12 },
        Instruction::MoveText { dx: 50, dy: 750 },
        Instruction::ShowText { text: "hello".to_string() },
        Instruction::MoveText { dx: 0, dy: 0 },
        Instruction::MoveText { dx: 0, dy: -20 },
        Instruction::EndText,
        Instruction::SaveState,
        Instruction::Transform { width: 500, height: 350, x: 50, y: 380 },
        Instruction::DrawImage { id: 3 },
        Instruction::RestoreState,
        Instruction::EndText,
    ];
    assert_eq!(state.pages.len(), 1);
    assert_eq!(format!("{:?}", state.pages[0].instructions), format!("{:?}", expected));
    assert_eq!(state.y_pos, 730 - 350 - 10);
}

#[test]
fn an_image_that_does_not_fit_gets_a_page() {
    let options = PdfOptions::default();
    let mut state = PagesState::new(&options);
    state.y_pos = 200;
    ziggurat::filetypes::layout::add_image(&options, &mut state, &image(4, 100, 151));
    assert_eq!(state.pages.len(), 2);
    let expected = vec![
        Instruction::BeginText,
        Instruction::SelectFont { size: 12 },
        Instruction::MoveText { dx: 50, dy: 750 },
        Instruction::BeginText,
        Instruction::MoveText { dx: 50, dy: 750 },
        Instruction::EndText,
        Instruction::SaveState,
        Instruction::Transform { width: 100, height: 151, x: 50, y: 599 },
        Instruction::DrawImage { id: 4 },
        Instruction::RestoreState,
    ];
    assert_eq!(format!("{:?}", state.pages[1].instructions), format!("{:?}", expected));
    assert_eq!(state.y_pos, 750 - 151 - 10);
    let mut fits = PagesState::new(&options);
    fits.y_pos = 200;
    ziggurat::filetypes::layout::add_image(&options, &mut fits, &image(4, 100, 150));
    assert_eq!(fits.pages.len(), 1);
    assert_eq!(fits.y_pos, 40);
}

#[test]
fn image_description_takes_the_source_at_its_word() {
    let plain = create_image_stream(&image(1, 64, 32));
    match &plain {
        Object::Stream { dictionary, content } => {
            assert_eq!(
                names(dictionary),
                vec!["Type", "Subtype", "Width", "Height", "ColorSpace", "BitsPerComponent"]
            );
            assert_eq!(name_of(value(dictionary, "Type")), "XObject");
            assert_eq!(name_of(value(dictionary, "Subtype")), "Image");
            assert!(matches!(value(dictionary, "Width"), Value::Integer(64)));
            assert!(matches!(value(dictionary, "Height"), Value::Integer(32)));
            assert_eq!(name_of(value(dictionary, "ColorSpace")), "DeviceRGB");
            assert!(matches!(value(dictionary, "BitsPerComponent"), Value::Integer(8)));
            assert_eq!(content, &vec![9, 8, 7]);
        }
        _ => panic!("not a stream"),
    }
    let mut described = image(1, 64, 32);
    described.color_space = Some("DeviceGray".to_string());
    described.bits_per_component = Some(1);
    described.filters = Some(vec!["FlateDecode".to_string()]);
    let one = create_image_stream(&described);
    assert_eq!(name_of(value(dictionary(&one), "ColorSpace")), "DeviceGray");
    assert!(matches!(value(dictionary(&one), "BitsPerComponent"), Value::Integer(1)));
    assert_eq!(name_of(value(dictionary(&one), "Filter")), "FlateDecode");
    described.filters = Some(vec!["ASCII85Decode".to_string(), "DCTDecode".to_string()]);
    let two = create_image_stream(&described);
    match value(dictionary(&two), "Filter") {
        Value::Names(filters) => assert_eq!(filters, &vec!["ASCII85Decode", "DCTDecode"]),
        _ => panic!("not an array of names"),
    }
    described.filters = Some(Vec::new());
    let none = create_image_stream(&described);
    assert_eq!(names(dictionary(&none)).len(), 6);
}

#[test]
fn names_are_set_in_place_or_behind() {
    let mut table: Vec<NamedReference> = Vec::new();
    set_named(&mut table, "Im1".to_string(), (3, 0));
    set_named(&mut table, "Im2".to_string(), (4, 0));
    set_named(&mut table, "Im1".to_string(), (5, 0));
    let found: Vec<(&str, (u32, u16))> =
        table.iter().map(|entry| (entry.name.as_str(), entry.id)).collect();
    assert_eq!(found, vec![("Im1", (5, 0)), ("Im2", (4, 0))]);
}

#[test]
fn object_numbers_are_given_out_in_order() {
    let mut doc = DocumentGraph::with_version("1.5");
    assert_eq!(doc.version, "1.5");
    assert_eq!(doc.new_object_id(), Ok((1, 0)));
    assert_eq!(add_font(&mut doc), Ok((2, 0)));
    assert_eq!(doc.objects.len(), 1);
    assert_eq!(doc.objects[0].id, (2, 0));
    doc.set_object((1, 0), Object::Dictionary(Vec::new()));
    doc.set_object((2, 0), Object::Dictionary(Vec::new()));
    let ids: Vec<(u32, u16)> = doc.objects.iter().map(|slot| slot.id).collect();
    assert_eq!(ids, vec![(2, 0), (1, 0)]);
    assert!(dictionary(&doc.objects[0].object).is_empty());
    doc.max_id = u32::MAX;
    assert_eq!(doc.new_object_id(), Err(AssemblyError::ObjectIdOverflow));
    assert_eq!(add_font(&mut doc), Err(AssemblyError::ObjectIdOverflow));
    assert_eq!(add_catalog(&mut doc, (1, 0)), Err(AssemblyError::ObjectIdOverflow));
    assert_eq!(add_resources(&mut doc, (2, 0), Vec::new()), Err(AssemblyError::ObjectIdOverflow));
    assert_eq!(doc.objects.len(), 2);
    doc.max_id = u32::MAX - 1;
    let mut table = Vec::new();
    assert_eq!(
        add_images_to_resources(&mut doc, &mut table, &vec![image(1, 1, 1), image(2, 1, 1)]),
        Err(AssemblyError::ObjectIdOverflow)
    );
    let mut page_ids = Vec::new();
    assert_eq!(
        add_encoded_pages(&mut doc, vec![vec![1]], (1, 0), &mut page_ids),
        Err(AssemblyError::ObjectIdOverflow)
    );
    assert_eq!(doc.objects.len(), 2);
    assert!(table.is_empty() && page_ids.is_empty());
}

#[test]
fn page_tree_lists_its_pages() {
    let mut doc = DocumentGraph::with_version("1.5");
    let pages_id = doc.new_object_id().unwrap();
    let mut page_ids = Vec::new();
    add_encoded_pages(&mut doc, vec![b"BT".to_vec(), b"ET".to_vec()], pages_id, &mut page_ids)
        .unwrap();
    assert_eq!(page_ids, vec![(3, 0), (5, 0)]);
    add_pages_object(&mut doc, pages_id, &page_ids, (9, 0));
    let tree = dictionary(&doc.objects.last().unwrap().object);
    assert_eq!(names(tree), vec!["Type", "Kids", "Count", "Resources", "MediaBox"]);
    assert!(matches!(value(tree, "Kids"), Value::References(kids) if kids == &page_ids));
    assert!(matches!(value(tree, "Count"), Value::Integer(2)));
    assert!(matches!(value(tree, "Resources"), Value::Reference((9, 0))));
    assert!(matches!(value(tree, "MediaBox"), Value::Integers(b) if b == &vec![0, 0, 595, 842]));
}

#[test]
fn a_document_is_built_from_its_units() {
    let options = PdfOptions::default();
    let units = vec![
        PageUnit { id: (10, 0), text: "source one".to_string(), images: vec![image(21, 100, 100)] },
        PageUnit { id: (11, 0), text: "source two".to_string(), images: vec![image(21, 100, 100)] },
    ];
    let texts = vec!["eins".to_string(), "zwei".to_string()];
    let doc = edit_pdf(&units, &texts, &options).unwrap();
    assert_eq!(doc.version, "1.5");
    let ids: Vec<u32> = doc.objects.iter().map(|slot| slot.id.0).collect();
    assert_eq!(ids, vec![2, 3, 4, 5, 6, 7, 1, 8]);
    assert_eq!(doc.max_id, 8);
    assert_eq!(doc.root, Some((8, 0)));
    let font = dictionary(&doc.objects[0].object);
    assert_eq!(name_of(value(font, "Type")), "Font");
    assert_eq!(name_of(value(font, "Subtype")), "Type1");
    assert_eq!(name_of(value(font, "BaseFont")), "Courier");
    match &doc.objects[3].object {
        Object::Stream { dictionary, content } => {
            assert!(dictionary.is_empty());
            assert_eq!(
                String::from_utf8(content.clone()).unwrap(),
                "BT\n/F1 12 Tf\n50 750 Td\n(eins) Tj\n0 0 Td\n0 -20 Td\nET\nq\n100 0 0 100 50 630 cm\n/Im21 Do\nQ\nET\n(zwei) Tj\n0 0 Td\n0 -20 Td\nET\nq\n100 0 0 100 50 500 cm\n/Im21 Do\nQ\nET"
            );
        }
        _ => panic!("not a stream"),
    }
    let page = dictionary(&doc.objects[4].object);
    assert_eq!(name_of(value(page, "Type")), "Page");
    assert!(matches!(value(page, "Parent"), Value::Reference((1, 0))));
    assert!(matches!(value(page, "Contents"), Value::Reference((5, 0))));
    let resources = dictionary(&doc.objects[5].object);
    match value(resources, "Font") {
        Value::Table(table) => {
            assert_eq!(table.len(), 1);
            assert_eq!((table[0].name.as_str(), table[0].id), ("F1", (2, 0)));
        }
        _ => panic!("not a table"),
    }
    match value(resources, "XObject") {
        Value::Table(table) => {
            assert_eq!(table.len(), 1);
            assert_eq!((table[0].name.as_str(), table[0].id), ("Im21", (4, 0)));
        }
        _ => panic!("not a table"),
    }
    let tree = dictionary(&doc.objects[6].object);
    assert_eq!(name_of(value(tree, "Type")), "Pages");
    assert!(matches!(value(tree, "Kids"), Value::References(kids) if kids == &vec![(6, 0)]));
    assert!(matches!(value(tree, "Resources"), Value::Reference((7, 0))));
    let catalog = dictionary(&doc.objects[7].object);
    assert_eq!(name_of(value(catalog, "Type")), "Catalog");
    assert!(matches!(value(catalog, "Pages"), Value::Reference((1, 0))));
}

#[test]
fn each_unit_needs_its_text() {
    let units = vec![PageUnit { id: (10, 0), text: String::new(), images: Vec::new() }];
    assert!(matches!(
        edit_pdf(&units, &Vec::new(), &PdfOptions::default()),
        Err(EditError::SnippetCount { units: 1, texts: 0 })
    ));
}

#[test]
fn no_units_make_one_empty_page() {
    let doc = edit_pdf(&Vec::new(), &Vec::new(), &PdfOptions::default()).unwrap();
    assert_eq!(doc.objects.len(), 6);
    assert_eq!(doc.root, Some((6, 0)));
    let state = PagesState::new(&PdfOptions::default());
    assert_eq!(
        encode_pages(&state).unwrap(),
        vec![b"BT\n/F1 12 Tf\n50 750 Td".to_vec()]
    );
}

fn references(value: &Value) -> Vec<(u32, u16)> {
    match value {
        Value::Reference(id) => vec![*id],
        Value::References(ids) => ids.clone(),
        Value::Table(table) => table.iter().map(|entry| entry.id).collect(),
        _ => Vec::new(),
    }
}

#[test]
fn every_reference_of_a_built_document_leads_somewhere() {
    let options = PdfOptions::default();
    let units = vec![
        PageUnit { id: (10, 0), text: "a\n\nb".to_string(), images: vec![image(5, 900, 900)] },
        PageUnit { id: (11, 0), text: "c".to_string(), images: vec![image(6, 10, 700), image(5, 1, 1)] },
    ];
    let texts = vec!["w ".repeat(4000), "x".to_string()];
    let doc = edit_pdf(&units, &texts, &options).unwrap();
    let held: Vec<(u32, u16)> = doc.objects.iter().map(|slot| slot.id).collect();
    let mut sorted = held.clone();
    sorted.sort();
    sorted.dedup();
    assert_eq!(sorted.len(), held.len());
    assert_eq!(sorted, (1..=doc.max_id).map(|number| (number, 0)).collect::<Vec<_>>());
    let mut seen = 0;
    for slot in &doc.objects {
        for entry in dictionary(&slot.object) {
            for id in references(&entry.value) {
                assert!(held.contains(&id));
                seen += 1;
            }
        }
    }
    assert!(seen > 0);
    assert!(held.contains(&doc.root.unwrap()));
    let pages = doc
        .objects
        .iter()
        .filter(|slot| {
            matches!(&slot.object, Object::Dictionary(entries)
                if entries.iter().any(|entry| entry.key == "Type" && matches!(&entry.value, Value::Name(name) if name == "Page")))
        })
        .count();
    assert!(pages > 1);
    assert_eq!(doc.objects.len(), 4 + 3 + 2 * pages);
}

#[test]
fn paragraphs_end_where_a_line_break_follows_a_line_break_over_white_space() {
    assert_eq!(split_paragraphs(""), vec![""]);
    assert_eq!(split_paragraphs("one\ntwo"), vec!["one\ntwo"]);
    assert_eq!(split_paragraphs("one\n\ntwo"), vec!["one", "two"]);
    assert_eq!(split_paragraphs("one\n \t\n\n  two\n"), vec!["one", "  two\n"]);
    assert_eq!(split_paragraphs("\n\none\n\n"), vec!["", "one", ""]);
    let pattern = regex::Regex::new(r"\n\s*\n").unwrap();
    for text in [
        "",
        "\n",
        "\n\n",
        "\n\n\n",
        "a\n",
        "a\n\nb",
        "a\n \n\n b",
        "a\n\t\n\n\nb\n c\n\n",
        "a\r\n\r\nb",
        "a\n\u{a0}\u{3000}\nb\n\u{200b}\nc",
        " \n x \n \n\n y \n\nz \n",
        "a\n\n\n\nb\n\n \n",
    ] {
        let expected: Vec<&str> = pattern.split(text).collect();
        assert_eq!(split_paragraphs(text), expected);
    }
}
