use lopdf::content::{Content, Operation};
use lopdf::{Dictionary, Document, Object, Stream};
use ziggurat::filetypes::content::ImageDescriptor;
use ziggurat::filetypes::source::{extract_units, take_images, ExtractionError, SourceImage};

fn dictionary(entries: Vec<(&str, Object)>) -> Dictionary {
    let mut made = Dictionary::new();
    for (key, value) in entries {
        made.set(key, value);
    }
    made
}

fn name(text: &str) -> Object {
    Object::Name(text.as_bytes().to_vec())
}

fn text_stream(lines: &[&str]) -> Stream {
    let mut operations = vec![
        Operation::new("BT", vec![]),
        Operation::new("Tf", vec![name("F1"), Object::Integer(12)]),
        Operation::new("Td", vec![Object::Integer(50), Object::Integer(700)]),
    ];
    for line in lines {
        operations.push(Operation::new("Tj", vec![Object::string_literal(*line)]));
    }
    operations.push(Operation::new("ET", vec![]));
    Stream::new(Dictionary::new(), Content { operations }.encode().unwrap())
}

/// A document of two pages: the first with an image, the second without.
fn document(image_width: i64) -> (Document, Vec<(u32, u16)>, (u32, u16)) {
    let mut doc = Document::with_version("1.5");
    let pages_id = doc.new_object_id();
    let font_id = doc.add_object(dictionary(vec![
        ("Type", name("Font")),
        ("Subtype", name("Type1")),
        ("BaseFont", name("Courier")),
    ]));
    let image_id = doc.add_object(Stream::new(
        dictionary(vec![
            ("Type", name("XObject")),
            ("Subtype", name("Image")),
            ("Width", Object::Integer(image_width)),
            ("Height", Object::Integer(2)),
            ("ColorSpace", name("DeviceGray")),
            ("BitsPerComponent", Object::Integer(8)),
            ("Filter", name("ASCIIHexDecode")),
        ]),
        vec![1, 2, 3, 4, 5, 6, 7, 8],
    ));
    let fonts = dictionary(vec![("F1", Object::Reference(font_id))]);
    let with_image = doc.add_object(dictionary(vec![
        ("Font", Object::Dictionary(fonts.clone())),
        ("XObject", Object::Dictionary(dictionary(vec![("Im1", Object::Reference(image_id))]))),
    ]));
    let without_image = doc.add_object(dictionary(vec![("Font", Object::Dictionary(fonts))]));
    let first_content = doc.add_object(text_stream(&["Hello World!"]));
    let first = doc.add_object(dictionary(vec![
        ("Type", name("Page")),
        ("Parent", Object::Reference(pages_id)),
        ("Contents", Object::Reference(first_content)),
        ("Resources", Object::Reference(with_image)),
    ]));
    let second_content = doc.add_object(text_stream(&["second", "page"]));
    let second = doc.add_object(dictionary(vec![
        ("Type", name("Page")),
        ("Parent", Object::Reference(pages_id)),
        ("Contents", Object::Reference(second_content)),
        ("Resources", Object::Reference(without_image)),
    ]));
    doc.objects.insert(
        pages_id,
        Object::Dictionary(dictionary(vec![
            ("Type", name("Pages")),
            ("Kids", Object::Array(vec![Object::Reference(first), Object::Reference(second)])),
            ("Count", Object::Integer(2)),
            (
                "MediaBox",
                Object::Array(vec![
                    Object::Integer(0),
                    Object::Integer(0),
                    Object::Integer(595),
                    Object::Integer(842),
                ]),
            ),
        ])),
    );
    let catalog_id = doc.add_object(dictionary(vec![
        ("Type", name("Catalog")),
        ("Pages", Object::Reference(pages_id)),
    ]));
    doc.trailer.set("Root", catalog_id);
    (doc, vec![first, second], image_id)
}

#[test]
fn pages_are_read_in_their_order() {
    let (doc, pages, image_id) = document(4);
    let units = extract_units(&doc).unwrap();
    assert_eq!(units.len(), 2);
    assert_eq!(units[0].id, pages[0]);
    assert_eq!(units[1].id, pages[1]);
    assert_eq!(units[0].text, doc.extract_text(&[1]).unwrap());
    assert_eq!(units[1].text, doc.extract_text(&[2]).unwrap());
    assert_eq!(units[0].text, "Hello World!\n");
    assert_eq!(units[1].text, "secondpage\n");
    assert_eq!(units[0].images.len(), 1);
    let image: &ImageDescriptor = &units[0].images[0];
    assert_eq!(image.id, image_id);
    assert_eq!((image.width, image.height), (4, 2));
    assert_eq!(image.color_space, Some("DeviceGray".to_string()));
    assert_eq!(image.bits_per_component, Some(8));
    assert_eq!(image.filters, Some(vec!["ASCIIHexDecode".to_string()]));
    assert_eq!(image.content, vec![1, 2, 3, 4, 5, 6, 7, 8]);
    assert!(units[1].images.is_empty());
}

#[test]
fn a_document_without_pages_has_no_units() {
    let doc = Document::with_version("1.5");
    assert_eq!(extract_units(&doc).unwrap().len(), 0);
}

#[test]
fn an_image_without_a_size_is_left_out() {
    let (doc, pages, _) = document(-4);
    let units = extract_units(&doc).unwrap();
    assert_eq!(units.len(), 2);
    assert_eq!(units[0].id, pages[0]);
    assert_eq!(units[0].text, "Hello World!\n");
    assert!(units[0].images.is_empty());
}

fn source_image(width: i64, height: i64) -> SourceImage {
    SourceImage {
        id: (5, 0),
        width,
        height,
        color_space: None,
        bits_per_component: None,
        filters: None,
        content: vec![1],
    }
}

#[test]
fn sizes_are_whole_numbers_of_thirty_two_bits() {
    assert!(ImageDescriptor::from_source(source_image(0, 0)).is_some());
    let largest = ImageDescriptor::from_source(source_image(4294967295, 1)).unwrap();
    assert_eq!((largest.width, largest.height), (u32::MAX, 1));
    assert!(ImageDescriptor::from_source(source_image(4294967296, 1)).is_none());
    assert!(ImageDescriptor::from_source(source_image(1, -1)).is_none());
    let taken = take_images(vec![source_image(1, 2), source_image(-3, 4), source_image(3, 4)]);
    let sizes: Vec<(u32, u32)> = taken.iter().map(|image| (image.width, image.height)).collect();
    assert_eq!(sizes, vec![(1, 2), (3, 4)]);
    assert!(take_images(Vec::new()).is_empty());
}

#[test]
fn text_that_cannot_be_read_is_a_fault() {
    let (mut doc, pages, _) = document(4);
    let broken = Stream::new(
        Dictionary::new(),
        Content { operations: vec![Operation::new("BT", vec![]), Operation::new("Tf", vec![])] }
            .encode()
            .unwrap(),
    );
    let broken_id = doc.add_object(broken);
    let page = doc.objects.get_mut(&pages[1]).unwrap().as_dict_mut().unwrap();
    page.set("Contents", Object::Reference(broken_id));
    assert!(doc.extract_text(&[2]).is_err());
    assert!(matches!(extract_units(&doc), Err(ExtractionError::Text { page: 2 })));
}
