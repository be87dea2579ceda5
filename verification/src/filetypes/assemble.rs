//! Putting the document together: the font, the images, the pages with
//! their content streams, the resources they share, the page tree and the
//! root.

use vstd::prelude::*;
use vstd::string::*;
use crate::filetypes::content::{image_views, ImageDescriptor, ImageView, ObjectId};
use crate::filetypes::encode::{image_name, image_resource_name, font_name};
use crate::filetypes::graph::{
    entries_view, table_view, AssemblyError, DocumentGraph, Entry, GraphView, NamedReference,
    Object, ObjectView, Value, ValueView,
};

verus! {

/// The width of a page in points.
pub const PAGE_WIDTH: i64 = 595;

/// The height of a page in points.
pub const PAGE_HEIGHT: i64 = 842;

/// The bits of a colour component where the source does not say.
pub const DEFAULT_BITS: i64 = 8;

/// The font that the text is set in.
pub open spec fn font_object() -> ObjectView {
    ObjectView::Dictionary(
        seq![
            ("Type"@, ValueView::Name("Font"@)),
            ("Subtype"@, ValueView::Name("Type1"@)),
            ("BaseFont"@, ValueView::Name("Courier"@)),
        ],
    )
}

/// The dictionary that describes an image: what it is, its size, its colour
/// space and bits, for which the source's word is taken or else `DeviceRGB`
/// and eight, and its filters: one as a name, several as an array, none not
/// at all.
pub open spec fn image_dictionary(image: ImageView) -> Seq<(Seq<char>, ValueView)> {
    let described = seq![
        ("Type"@, ValueView::Name("XObject"@)),
        ("Subtype"@, ValueView::Name("Image"@)),
        ("Width"@, ValueView::Integer(image.width as i64)),
        ("Height"@, ValueView::Integer(image.height as i64)),
        (
            "ColorSpace"@,
            ValueView::Name(
                match image.color_space {
                    Some(name) => name,
                    None => "DeviceRGB"@,
                },
            ),
        ),
        (
            "BitsPerComponent"@,
            ValueView::Integer(
                match image.bits_per_component {
                    Some(bits) => bits as i64,
                    None => DEFAULT_BITS,
                },
            ),
        ),
    ];
    match image.filters {
        Some(filters) => if filters.len() == 0 {
            described
        } else if filters.len() == 1 {
            described.push(("Filter"@, ValueView::Name(filters[0])))
        } else {
            described.push(("Filter"@, ValueView::Names(filters)))
        },
        None => described,
    }
}

/// The object that holds an image: its description and its data as they
/// are.
pub open spec fn image_object(image: ImageView) -> ObjectView {
    ObjectView::Stream { dictionary: image_dictionary(image), content: image.content }
}

/// The object that holds the instructions of a page.
pub open spec fn content_object(encoded: Seq<u8>) -> ObjectView {
    ObjectView::Stream { dictionary: seq![], content: encoded }
}

/// A page: it belongs to the page tree `parent` and is drawn by `contents`.
pub open spec fn page_object(parent: ObjectId, contents: ObjectId) -> ObjectView {
    ObjectView::Dictionary(
        seq![
            ("Type"@, ValueView::Name("Page"@)),
            ("Parent"@, ValueView::Reference(parent)),
            ("Contents"@, ValueView::Reference(contents)),
        ],
    )
}

/// What the pages share: the font under its name and the images under
/// theirs.
pub open spec fn resources_object(
    font: ObjectId,
    images: Seq<(Seq<char>, ObjectId)>,
) -> ObjectView {
    ObjectView::Dictionary(
        seq![
            ("Font"@, ValueView::Table(seq![(font_name(), font)])),
            ("XObject"@, ValueView::Table(images)),
        ],
    )
}

/// The page tree: the pages in their order, their number, what they share
/// and their size.
pub open spec fn pages_object(kids: Seq<ObjectId>, resources: ObjectId) -> ObjectView {
    ObjectView::Dictionary(
        seq![
            ("Type"@, ValueView::Name("Pages"@)),
            ("Kids"@, ValueView::References(kids)),
            ("Count"@, ValueView::Integer(kids.len() as i64)),
            ("Resources"@, ValueView::Reference(resources)),
            ("MediaBox"@, ValueView::Integers(seq![0i64, 0i64, PAGE_WIDTH, PAGE_HEIGHT])),
        ],
    )
}

/// The root of the document, which names the page tree.
pub open spec fn catalog_object(pages: ObjectId) -> ObjectView {
    ObjectView::Dictionary(
        seq![("Type"@, ValueView::Name("Catalog"@)), ("Pages"@, ValueView::Reference(pages))],
    )
}

/// The place of the first entry under `name`, or the number of entries
/// where there is none.
pub open spec fn index_of(table: Seq<(Seq<char>, ObjectId)>, name: Seq<char>) -> int
    decreases table.len(),
{
    if table.len() == 0 {
        0
    } else if table[0].0 == name {
        0
    } else {
        1 + index_of(table.skip(1), name)
    }
}

/// The table with `id` under `name`: in the place of the first entry under
/// that name, or else behind all others.
pub open spec fn table_set(table: Seq<(Seq<char>, ObjectId)>, name: Seq<char>, id: ObjectId) -> Seq<
    (Seq<char>, ObjectId),
> {
    let i = index_of(table, name);
    if 0 <= i < table.len() {
        table.update(i, (name, id))
    } else {
        table.push((name, id))
    }
}

/// The first `i` entries stand under other names, and entry `i`, if there is
/// one, under `name`: then `i` is the place that `index_of` gives.
proof fn lemma_index_of(table: Seq<(Seq<char>, ObjectId)>, name: Seq<char>, i: int)
    requires
        0 <= i <= table.len(),
        forall|j: int| 0 <= j < i ==> (#[trigger] table[j]).0 != name,
        i < table.len() ==> table[i].0 == name,
    ensures
        index_of(table, name) == i,
    decreases i,
{
    if i > 0 {
        let rest = table.skip(1);
        assert(table[0].0 != name);
        assert forall|j: int| 0 <= j < i - 1 implies (#[trigger] rest[j]).0 != name by {
            assert(rest[j] == table[j + 1]);
        }
        if i < table.len() {
            assert(rest[i - 1] == table[i]);
        }
        lemma_index_of(rest, name, i - 1);
    }
}

/// The document and the table of image names after the images came in, one
/// after the other: each as an object of its own, and under its name the
/// identifier of the object that came last for it.
pub open spec fn with_images(
    graph: GraphView,
    table: Seq<(Seq<char>, ObjectId)>,
    images: Seq<ImageView>,
) -> (GraphView, Seq<(Seq<char>, ObjectId)>)
    decreases images.len(),
{
    if images.len() == 0 {
        (graph, table)
    } else {
        let (before, names) = with_images(graph, table, images.drop_last());
        (
            before.add(image_object(images.last())),
            table_set(names, image_name(images.last().id.0), before.next_id()),
        )
    }
}

/// The document and the identifiers of its pages after the pages came in,
/// one after the other: for each the object that holds its instructions and
/// then the page itself.
pub open spec fn with_pages(
    graph: GraphView,
    kids: Seq<ObjectId>,
    parent: ObjectId,
    encoded: Seq<Seq<u8>>,
) -> (GraphView, Seq<ObjectId>)
    decreases encoded.len(),
{
    if encoded.len() == 0 {
        (graph, kids)
    } else {
        let (before, pages) = with_pages(graph, kids, parent, encoded.drop_last());
        let with_content = before.add(content_object(encoded.last()));
        (
            with_content.add(page_object(parent, before.next_id())),
            pages.push(with_content.next_id()),
        )
    }
}

/// An entry of a dictionary.
fn entry(key: &str, value: Value) -> (made: Entry)
    ensures
        made@ == (key@, value@),
{
    Entry { key: key.to_owned(), value }
}

/// A name as a value.
fn name_value(name: &str) -> (made: Value)
    ensures
        made@ == ValueView::Name(name@),
{
    Value::Name(name.to_owned())
}

/// Takes the font in.
pub fn add_font(doc: &mut DocumentGraph) -> (id: Result<ObjectId, AssemblyError>)
    requires
        old(doc)@.wf(),
    ensures
        final(doc)@.wf(),
        match id {
            Ok(id) => {
                &&& old(doc).max_id < u32::MAX
                &&& id == old(doc)@.next_id()
                &&& final(doc)@ == old(doc)@.add(font_object())
            },
            Err(fault) => {
                &&& old(doc).max_id == u32::MAX
                &&& fault == AssemblyError::ObjectIdOverflow
                &&& final(doc)@ == old(doc)@
            },
        },
{
    let entries = vec![
        entry("Type", name_value("Font")),
        entry("Subtype", name_value("Type1")),
        entry("BaseFont", name_value("Courier")),
    ];
    let font = Object::Dictionary(entries);
    assert(font@ =~= font_object()) by {
        assert(entries_view(entries@) =~= font_object()->Dictionary_0);
    }
    doc.add_object(font)
}

/// A copy of the names.
fn copy_names(names: &Vec<String>) -> (copy: Vec<String>)
    ensures
        copy.deep_view() == names.deep_view(),
{
    let mut copy: Vec<String> = Vec::new();
    let mut i: usize = 0;
    while i < names.len()
        invariant
            i <= names.len(),
            copy.len() == i,
            forall|j: int| 0 <= j < i ==> (#[trigger] copy[j])@ == names[j]@,
        decreases names.len() - i,
    {
        copy.push(names[i].clone());
        i += 1;
    }
    assert(copy.deep_view() =~= names.deep_view());
    copy
}

/// A copy of the bytes.
fn copy_bytes(bytes: &Vec<u8>) -> (copy: Vec<u8>)
    ensures
        copy@ == bytes@,
{
    let mut copy: Vec<u8> = Vec::new();
    let mut i: usize = 0;
    while i < bytes.len()
        invariant
            i <= bytes.len(),
            copy@ == bytes@.take(i as int),
        decreases bytes.len() - i,
    {
        copy.push(bytes[i]);
        assert(bytes@.take(i + 1) =~= bytes@.take(i as int).push(bytes[i as int]));
        i += 1;
    }
    assert(bytes@.take(bytes.len() as int) =~= bytes@);
    copy
}

/// The object that holds an image: its description and a copy of its data.
pub fn create_image_stream(image: &ImageDescriptor) -> (stream: Object)
    ensures
        stream@ == image_object(image@),
{
    let color_space = match &image.color_space {
        Some(name) => Value::Name(name.clone()),
        None => name_value("DeviceRGB"),
    };
    let bits = match image.bits_per_component {
        Some(bits) => bits,
        None => DEFAULT_BITS,
    };
    let mut dictionary = vec![
        entry("Type", name_value("XObject")),
        entry("Subtype", name_value("Image")),
        entry("Width", Value::Integer(image.width as i64)),
        entry("Height", Value::Integer(image.height as i64)),
        entry("ColorSpace", color_space),
        entry("BitsPerComponent", Value::Integer(bits)),
    ];
    let ghost described = entries_view(dictionary@);
    match &image.filters {
        Some(filters) => {
            if filters.len() == 1 {
                dictionary.push(entry("Filter", Value::Name(filters[0].clone())));
                assert(entries_view(dictionary@) =~= described.push(
                    ("Filter"@, ValueView::Name(filters[0]@)),
                ));
            } else if filters.len() > 1 {
                dictionary.push(entry("Filter", Value::Names(copy_names(filters))));
                assert(entries_view(dictionary@) =~= described.push(
                    ("Filter"@, ValueView::Names(filters.deep_view())),
                ));
            }
        },
        None => {},
    }
    assert(entries_view(dictionary@) =~= image_dictionary(image@));
    Object::Stream { dictionary, content: copy_bytes(&image.content) }
}

/// Puts `id` under `name`: in the place of the first entry under that name,
/// or else behind all others.
pub fn set_named(table: &mut Vec<NamedReference>, name: String, id: ObjectId)
    ensures
        table_view(final(table)@) == table_set(table_view(old(table)@), name@, id),
{
    let ghost before = table_view(table@);
    let mut i: usize = 0;
    while i < table.len()
        invariant
            i <= table.len(),
            table_view(table@) == before,
            before == table_view(old(table)@),
            forall|j: int| 0 <= j < i ==> (#[trigger] before[j]).0 != name@,
        decreases table.len() - i,
    {
        if table[i].name == name {
            proof {
                assert(before[i as int].0 == name@);
                lemma_index_of(before, name@, i as int);
            }
            table.set(i, NamedReference { name, id });
            assert(table_view(table@) =~= table_set(before, name@, id));
            return ;
        }
        i += 1;
    }
    proof {
        lemma_index_of(before, name@, before.len() as int);
    }
    table.push(NamedReference { name, id });
    assert(table_view(table@) =~= table_set(before, name@, id));
}

/// Takes the images in, each as an object of its own, and puts each under
/// its name into the table of the pages' images. Nothing is changed where
/// the object numbers do not suffice.
pub fn add_images_to_resources(
    doc: &mut DocumentGraph,
    resources: &mut Vec<NamedReference>,
    images: &Vec<ImageDescriptor>,
) -> (done: Result<(), AssemblyError>)
    requires
        old(doc)@.wf(),
    ensures
        final(doc)@.wf(),
        match done {
            Ok(_) => {
                &&& old(doc).max_id + images.len() <= u32::MAX
                &&& final(doc).max_id == old(doc).max_id + images.len()
                &&& (final(doc)@, table_view(final(resources)@)) == with_images(
                    old(doc)@,
                    table_view(old(resources)@),
                    image_views(images@),
                )
            },
            Err(fault) => {
                &&& old(doc).max_id + images.len() > u32::MAX
                &&& fault == AssemblyError::ObjectIdOverflow
                &&& final(doc)@ == old(doc)@
                &&& table_view(final(resources)@) == table_view(old(resources)@)
            },
        },
{
    if images.len() > (u32::MAX - doc.max_id) as usize {
        return Err(AssemblyError::ObjectIdOverflow);
    }
    let ghost start = doc@;
    let ghost names = table_view(resources@);
    let ghost views = image_views(images@);
    let mut i: usize = 0;
    while i < images.len()
        invariant
            i <= images.len(),
            views == image_views(images@),
            doc@.wf(),
            start.max_id + images.len() <= u32::MAX,
            doc.max_id == start.max_id + i,
            (doc@, table_view(resources@)) == with_images(start, names, views.take(i as int)),
        decreases images.len() - i,
    {
        proof {
            assert(views.take(i + 1).drop_last() =~= views.take(i as int));
            assert(views.take(i + 1).last() == images[i as int]@);
        }
        let stream = create_image_stream(&images[i]);
        match doc.add_object(stream) {
            Ok(id) => {
                set_named(resources, image_resource_name(images[i].id.0), id);
            },
            Err(_) => {},
        }
        i += 1;
    }
    assert(views.take(i as int) =~= views);
    Ok(())
}

/// Takes the pages in, whose instructions are given as the bytes of their
/// content streams: for each the object that holds those bytes and then the
/// page itself, which belongs to the page tree `pages_id`. The identifiers
/// of the pages are added to `page_ids`. Nothing is changed where the object
/// numbers do not suffice.
pub fn add_encoded_pages(
    doc: &mut DocumentGraph,
    encoded: Vec<Vec<u8>>,
    pages_id: ObjectId,
    page_ids: &mut Vec<ObjectId>,
) -> (done: Result<(), AssemblyError>)
    requires
        old(doc)@.wf(),
    ensures
        final(doc)@.wf(),
        match done {
            Ok(_) => {
                &&& old(doc).max_id + 2 * encoded.len() <= u32::MAX
                &&& final(doc).max_id == old(doc).max_id + 2 * encoded.len()
                &&& final(page_ids).len() == old(page_ids).len() + encoded.len()
                &&& (final(doc)@, final(page_ids)@) == with_pages(
                    old(doc)@,
                    old(page_ids)@,
                    pages_id,
                    encoded.deep_view(),
                )
            },
            Err(fault) => {
                &&& old(doc).max_id + 2 * encoded.len() > u32::MAX
                &&& fault == AssemblyError::ObjectIdOverflow
                &&& final(doc)@ == old(doc)@
                &&& final(page_ids)@ == old(page_ids)@
            },
        },
{
    let room = (u32::MAX - doc.max_id) as usize;
    if encoded.len() > room / 2 {
        return Err(AssemblyError::ObjectIdOverflow);
    }
    let ghost start = doc@;
    let ghost kids = page_ids@;
    let ghost streams = encoded.deep_view();
    let mut p: usize = 0;
    while p < encoded.len()
        invariant
            p <= encoded.len(),
            streams == encoded.deep_view(),
            doc@.wf(),
            start.max_id + 2 * encoded.len() <= u32::MAX,
            doc.max_id == start.max_id + 2 * p,
            page_ids.len() == kids.len() + p,
            (doc@, page_ids@) == with_pages(start, kids, pages_id, streams.take(p as int)),
        decreases encoded.len() - p,
    {
        proof {
            assert(streams.take(p + 1).drop_last() =~= streams.take(p as int));
            assert(streams.take(p + 1).last() == encoded[p as int]@);
        }
        let content = Object::Stream { dictionary: Vec::new(), content: copy_bytes(&encoded[p]) };
        assert(content@ =~= content_object(encoded[p as int]@)) by {
            assert(entries_view(Seq::<Entry>::empty()) =~= Seq::empty());
        }
        match doc.add_object(content) {
            Ok(content_id) => {
                let entries = vec![
                    entry("Type", name_value("Page")),
                    entry("Parent", Value::Reference(pages_id)),
                    entry("Contents", Value::Reference(content_id)),
                ];
                let page = Object::Dictionary(entries);
                assert(page@ =~= page_object(pages_id, content_id)) by {
                    assert(entries_view(entries@) =~= page_object(
                        pages_id,
                        content_id,
                    )->Dictionary_0);
                }
                match doc.add_object(page) {
                    Ok(page_id) => {
                        page_ids.push(page_id);
                    },
                    Err(_) => {},
                }
            },
            Err(_) => {},
        }
        p += 1;
    }
    assert(streams.take(p as int) =~= streams);
    Ok(())
}

/// Takes in what the pages share: the font and the images, under their
/// names.
pub fn add_resources(
    doc: &mut DocumentGraph,
    font_id: ObjectId,
    image_resources: Vec<NamedReference>,
) -> (id: Result<ObjectId, AssemblyError>)
    requires
        old(doc)@.wf(),
    ensures
        final(doc)@.wf(),
        match id {
            Ok(id) => {
                &&& old(doc).max_id < u32::MAX
                &&& id == old(doc)@.next_id()
                &&& final(doc)@ == old(doc)@.add(
                    resources_object(font_id, table_view(image_resources@)),
                )
            },
            Err(fault) => {
                &&& old(doc).max_id == u32::MAX
                &&& fault == AssemblyError::ObjectIdOverflow
                &&& final(doc)@ == old(doc)@
            },
        },
{
    let fonts = vec![NamedReference { name: "F1".to_owned(), id: font_id }];
    assert(table_view(fonts@) =~= seq![(font_name(), font_id)]);
    let entries = vec![
        entry("Font", Value::Table(fonts)),
        entry("XObject", Value::Table(image_resources)),
    ];
    let resources = Object::Dictionary(entries);
    assert(resources@ =~= resources_object(font_id, table_view(image_resources@))) by {
        assert(entries_view(entries@) =~= resources_object(
            font_id,
            table_view(image_resources@),
        )->Dictionary_0);
    }
    doc.add_object(resources)
}

/// Puts the page tree under the identifier that was kept for it.
pub fn add_pages_object(
    doc: &mut DocumentGraph,
    pages_id: ObjectId,
    page_ids: &Vec<ObjectId>,
    resources_id: ObjectId,
)
    requires
        old(doc)@.wf(),
        pages_id.0 <= old(doc).max_id,
        page_ids.len() <= i64::MAX,
    ensures
        final(doc)@.wf(),
        final(doc)@ == old(doc)@.set(pages_id, pages_object(page_ids@, resources_id)),
{
    let mut kids: Vec<ObjectId> = Vec::new();
    let mut i: usize = 0;
    while i < page_ids.len()
        invariant
            i <= page_ids.len(),
            kids@ == page_ids@.take(i as int),
        decreases page_ids.len() - i,
    {
        kids.push(page_ids[i]);
        assert(page_ids@.take(i + 1) =~= page_ids@.take(i as int).push(page_ids[i as int]));
        i += 1;
    }
    assert(page_ids@.take(page_ids.len() as int) =~= page_ids@);
    let media_box = vec![0i64, 0i64, PAGE_WIDTH, PAGE_HEIGHT];
    assert(media_box@ =~= seq![0i64, 0i64, PAGE_WIDTH, PAGE_HEIGHT]);
    let entries = vec![
        entry("Type", name_value("Pages")),
        entry("Kids", Value::References(kids)),
        entry("Count", Value::Integer(page_ids.len() as i64)),
        entry("Resources", Value::Reference(resources_id)),
        entry("MediaBox", Value::Integers(media_box)),
    ];
    let pages = Object::Dictionary(entries);
    assert(pages@ =~= pages_object(page_ids@, resources_id)) by {
        assert(entries_view(entries@) =~= pages_object(page_ids@, resources_id)->Dictionary_0);
    }
    doc.set_object(pages_id, pages);
}

/// Takes the root in, which names the page tree, and marks it as the root.
pub fn add_catalog(doc: &mut DocumentGraph, pages_id: ObjectId) -> (done: Result<
    (),
    AssemblyError,
>)
    requires
        old(doc)@.wf(),
    ensures
        final(doc)@.wf(),
        match done {
            Ok(_) => {
                &&& old(doc).max_id < u32::MAX
                &&& final(doc)@ == old(doc)@.add(catalog_object(pages_id)).with_root(
                    old(doc)@.next_id(),
                )
            },
            Err(fault) => {
                &&& old(doc).max_id == u32::MAX
                &&& fault == AssemblyError::ObjectIdOverflow
                &&& final(doc)@ == old(doc)@
            },
        },
{
    let entries = vec![
        entry("Type", name_value("Catalog")),
        entry("Pages", Value::Reference(pages_id)),
    ];
    let catalog = Object::Dictionary(entries);
    assert(catalog@ =~= catalog_object(pages_id)) by {
        assert(entries_view(entries@) =~= catalog_object(pages_id)->Dictionary_0);
    }
    match doc.add_object(catalog) {
        Ok(id) => {
            doc.set_root(id);
            Ok(())
        },
        Err(fault) => Err(fault),
    }
}

} // verus!
