//! Page-based documents: what is read from the source, and the document
//! that is built from the translated text and the images.

use vstd::prelude::*;
use crate::options::PdfOptions;
use crate::filetypes::assemble::{
    add_catalog, add_encoded_pages, add_font, add_images_to_resources, add_pages_object,
    add_resources, catalog_object, font_object, pages_object, resources_object, with_images,
    with_pages,
};
use crate::filetypes::content::{image_views, ImageDescriptor, ImageView, InstructionView, ObjectId};
use crate::filetypes::encode::{encode_page, encoded_page};
use crate::filetypes::graph::{table_view, AssemblyError, DocumentGraph, GraphView, NamedReference};
use crate::filetypes::layout::{format_content, fresh_page, paragraph_split, LayoutView, PagesState};

verus! {

/// The version of the format that the built document keeps to.
pub open spec fn built_version() -> Seq<char> {
    "1.5"@
}

/// One page of the source: its text and its images.
#[derive(Debug)]
pub struct PageUnit {
    /// The identifier of the page in the source.
    pub id: ObjectId,
    /// The text of the page.
    pub text: String,
    /// The images of the page, in the order in which the source holds them.
    pub images: Vec<ImageDescriptor>,
}

/// A `PageUnit` as a mathematical value.
pub struct UnitView {
    pub id: ObjectId,
    pub text: Seq<char>,
    pub images: Seq<ImageView>,
}

impl View for PageUnit {
    type V = UnitView;

    open spec fn view(&self) -> UnitView {
        UnitView { id: self.id, text: self.text@, images: image_views(self.images@) }
    }
}

/// The units as mathematical values.
pub open spec fn unit_views(units: Seq<PageUnit>) -> Seq<UnitView> {
    units.map_values(|unit: PageUnit| unit@)
}

/// The units with other text: unit `i` with text `i`.
pub open spec fn with_texts(units: Seq<UnitView>, texts: Seq<Seq<char>>) -> Seq<UnitView> {
    Seq::new(units.len(), |i: int| UnitView { text: texts[i], ..units[i] })
}

/// The pages on which the units are laid out, one unit after the other.
pub open spec fn laid_out(o: PdfOptions, units: Seq<UnitView>) -> LayoutView
    decreases units.len(),
{
    if units.len() == 0 {
        LayoutView { pages: seq![fresh_page()], y_pos: o.max_y_pos as int }
    } else {
        laid_out(o, units.drop_last()).content(
            o,
            paragraph_split(units.last().text),
            units.last().images,
        )
    }
}

/// The document and the table of image names after the images of the units
/// came in, unit after unit.
pub open spec fn with_unit_images(
    graph: GraphView,
    table: Seq<(Seq<char>, ObjectId)>,
    units: Seq<UnitView>,
) -> (GraphView, Seq<(Seq<char>, ObjectId)>)
    decreases units.len(),
{
    if units.len() == 0 {
        (graph, table)
    } else {
        let (before, names) = with_unit_images(graph, table, units.drop_last());
        with_images(before, names, units.last().images)
    }
}

/// The number of images of all units.
pub open spec fn image_count(units: Seq<UnitView>) -> nat
    decreases units.len(),
{
    if units.len() == 0 {
        0
    } else {
        image_count(units.drop_last()) + units.last().images.len()
    }
}

/// The number of objects of the document that is built from the units: one
/// for each image, two for each page, and four more for the font, the
/// resources, the page tree and the root.
pub open spec fn objects_needed(o: PdfOptions, units: Seq<UnitView>) -> nat {
    4 + image_count(units) + 2 * laid_out(o, units).pages.len()
}

/// The first page from `from` on whose instructions cannot be written, if
/// there is one.
pub open spec fn unencodable_from(pages: Seq<Seq<InstructionView>>, from: int) -> Option<int>
    decreases pages.len() - from,
{
    if from < 0 || from >= pages.len() {
        None
    } else if encoded_page(pages[from]) is None {
        Some(from)
    } else {
        unencodable_from(pages, from + 1)
    }
}

/// The first page whose instructions cannot be written, if there is one.
pub open spec fn first_unencodable(pages: Seq<Seq<InstructionView>>) -> Option<int> {
    unencodable_from(pages, 0)
}

/// The content streams of the pages.
pub open spec fn encoded_pages(pages: Seq<Seq<InstructionView>>) -> Seq<Seq<u8>> {
    pages.map_values(|page: Seq<InstructionView>| encoded_page(page)->Some_0)
}

/// The document that is built from the units: the identifier of the page
/// tree is kept first, then come the font, the images, for each page its
/// content stream and the page, the shared resources, the page tree under
/// the identifier that was kept, and the root.
pub open spec fn assembled(o: PdfOptions, units: Seq<UnitView>) -> GraphView {
    let kept = GraphView::empty(built_version()).reserve();
    let pages_id = GraphView::empty(built_version()).next_id();
    let font_id = kept.next_id();
    let (pictured, names) = with_unit_images(kept.add(font_object()), Seq::empty(), units);
    let (paged, kids) = with_pages(
        pictured,
        Seq::empty(),
        pages_id,
        encoded_pages(laid_out(o, units).pages),
    );
    let resources_id = paged.next_id();
    let shared = paged.add(resources_object(font_id, names));
    let rooted = shared.set(pages_id, pages_object(kids, resources_id));
    rooted.add(catalog_object(pages_id)).with_root(rooted.next_id())
}

/// Why a document could not be built.
#[derive(Clone, Copy, Debug, PartialEq, Eq, Structural)]
pub enum EditError {
    /// There is not one text for each unit.
    SnippetCount { units: usize, texts: usize },
    /// The document could not be put together.
    Assembly(AssemblyError),
}

/// What `edit_pdf` answers for the units and texts.
pub open spec fn edit_outcome(o: PdfOptions, units: Seq<UnitView>, texts: Seq<Seq<char>>) -> Result<
    GraphView,
    EditError,
> {
    let translated = with_texts(units, texts);
    let pages = laid_out(o, translated).pages;
    if units.len() != texts.len() {
        Err(EditError::SnippetCount { units: units.len() as usize, texts: texts.len() as usize })
    } else if objects_needed(o, translated) > u32::MAX {
        Err(EditError::Assembly(AssemblyError::ObjectIdOverflow))
    } else if first_unencodable(pages) is Some {
        Err(
            EditError::Assembly(
                AssemblyError::Encoding { page: first_unencodable(pages)->Some_0 as usize },
            ),
        )
    } else {
        Ok(assembled(o, translated))
    }
}

/// Writes the instructions of each page as the bytes of a content stream.
/// Where a page cannot be written, the index of the first such page is the
/// answer.
pub fn encode_pages(state: &PagesState) -> (encoded: Result<Vec<Vec<u8>>, usize>)
    ensures
        match encoded {
            Ok(streams) => first_unencodable(state@.pages) is None && streams.deep_view()
                == encoded_pages(state@.pages) && streams.len() == state@.pages.len(),
            Err(page) => first_unencodable(state@.pages) == Some(page as int),
        },
{
    let ghost pages = state@.pages;
    let mut streams: Vec<Vec<u8>> = Vec::new();
    let mut p: usize = 0;
    while p < state.pages.len()
        invariant
            p <= state.pages.len(),
            pages == state@.pages,
            streams.len() == p,
            first_unencodable(pages) == unencodable_from(pages, p as int),
            forall|q: int| 0 <= q < p ==> encoded_page(#[trigger] pages[q]) == Some(streams[q]@),
        decreases state.pages.len() - p,
    {
        assert(pages[p as int] == state.pages[p as int]@);
        match encode_page(&state.pages[p]) {
            Some(bytes) => {
                streams.push(bytes);
            },
            None => {
                return Err(p);
            },
        }
        p += 1;
    }
    proof {
        assert forall|q: int| 0 <= q < streams.len() implies #[trigger] streams.deep_view()[q]
            == encoded_pages(pages)[q] by {
            assert(streams.deep_view()[q] =~= streams[q]@);
            assert(encoded_page(pages[q]) == Some(streams[q]@));
        }
        assert(streams.deep_view() =~= encoded_pages(pages));
    }
    Ok(streams)
}

/// Takes the pages in that were laid out: for each the object that holds
/// its instructions as a content stream and then the page itself, which
/// belongs to the page tree `pages_id`. The identifiers of the pages are
/// added to `page_ids`. Nothing is changed where a page cannot be written
/// or the object numbers do not suffice; of the two, the page that cannot
/// be written is reported.
pub fn add_pages_to_document(
    doc: &mut DocumentGraph,
    pages_state: &PagesState,
    pages_id: ObjectId,
    page_ids: &mut Vec<ObjectId>,
) -> (done: Result<(), AssemblyError>)
    requires
        old(doc)@.wf(),
    ensures
        final(doc)@.wf(),
        match done {
            Ok(_) => {
                &&& first_unencodable(pages_state@.pages) is None
                &&& old(doc).max_id + 2 * pages_state@.pages.len() <= u32::MAX
                &&& final(doc).max_id == old(doc).max_id + 2 * pages_state@.pages.len()
                &&& final(page_ids).len() == old(page_ids).len() + pages_state@.pages.len()
                &&& (final(doc)@, final(page_ids)@) == with_pages(
                    old(doc)@,
                    old(page_ids)@,
                    pages_id,
                    encoded_pages(pages_state@.pages),
                )
            },
            Err(fault) => {
                &&& final(doc)@ == old(doc)@
                &&& final(page_ids)@ == old(page_ids)@
                &&& match first_unencodable(pages_state@.pages) {
                    Some(page) => fault == AssemblyError::Encoding { page: page as usize },
                    None => fault == AssemblyError::ObjectIdOverflow && old(doc).max_id + 2
                        * pages_state@.pages.len() > u32::MAX,
                }
            },
        },
{
    match encode_pages(pages_state) {
        Ok(encoded) => add_encoded_pages(doc, encoded, pages_id, page_ids),
        Err(page) => Err(AssemblyError::Encoding { page }),
    }
}

/// Builds the document that shows the texts, text `i` in the place of the
/// text of unit `i`, together with the images of the units.
///
/// The texts are laid out on pages, unit after unit. Then the document is
/// put together: the font, the images, the pages with their content
/// streams, the shared resources, the page tree and the root.
pub fn edit_pdf(units: &Vec<PageUnit>, texts: &Vec<String>, pdf_options: &PdfOptions) -> (built:
    Result<DocumentGraph, EditError>)
    ensures
        match built {
            Ok(graph) => edit_outcome(*pdf_options, unit_views(units@), texts.deep_view()) == Ok::<
                GraphView,
                EditError,
            >(graph@) && graph@.wf(),
            Err(fault) => edit_outcome(*pdf_options, unit_views(units@), texts.deep_view()) == Err::<
                GraphView,
                EditError,
            >(fault),
        },
{
    if units.len() != texts.len() {
        return Err(EditError::SnippetCount { units: units.len(), texts: texts.len() });
    }
    let ghost translated = with_texts(unit_views(units@), texts.deep_view());
    let mut state = PagesState::new(pdf_options);
    let mut images: usize = 0;
    let mut crowded = false;
    let mut u: usize = 0;
    while u < units.len()
        invariant
            u <= units.len(),
            units.len() == texts.len(),
            translated == with_texts(unit_views(units@), texts.deep_view()),
            state@.wf(),
            state@ == laid_out(*pdf_options, translated.take(u as int)),
            !crowded ==> images == image_count(translated.take(u as int)),
            crowded ==> image_count(translated.take(u as int)) > u32::MAX,
            images <= u32::MAX,
        decreases units.len() - u,
    {
        proof {
            assert(translated.take(u + 1).drop_last() =~= translated.take(u as int));
            assert(translated.take(u + 1).last() == translated[u as int]);
            assert(translated[u as int].text == texts[u as int]@);
            assert(translated[u as int].images == image_views(units[u as int].images@));
        }
        format_content(pdf_options, &mut state, texts[u].as_str(), &units[u].images);
        if !crowded {
            if units[u].images.len() > u32::MAX as usize - images {
                crowded = true;
            } else {
                images = images + units[u].images.len();
            }
        }
        u += 1;
    }
    assert(translated.take(u as int) =~= translated);
    let count = state.pages.len();
    if crowded || images > u32::MAX as usize - 4 || count > (u32::MAX as usize - 4 - images) / 2 {
        return Err(EditError::Assembly(AssemblyError::ObjectIdOverflow));
    }
    let mut doc = DocumentGraph::with_version("1.5");
    let pages_id = match doc.new_object_id() {
        Ok(id) => id,
        Err(fault) => {
            return Err(EditError::Assembly(fault));
        },
    };
    let font_id = match add_font(&mut doc) {
        Ok(id) => id,
        Err(fault) => {
            return Err(EditError::Assembly(fault));
        },
    };
    let mut image_resources: Vec<NamedReference> = Vec::new();
    let ghost kept = doc@;
    assert(table_view(image_resources@) =~= Seq::empty());
    let mut v: usize = 0;
    while v < units.len()
        invariant
            v <= units.len(),
            units.len() == texts.len(),
            translated == with_texts(unit_views(units@), texts.deep_view()),
            doc@.wf(),
            doc.max_id == 2 + image_count(translated.take(v as int)),
            images == image_count(translated),
            images <= u32::MAX - 4,
            (doc@, table_view(image_resources@)) == with_unit_images(
                kept,
                Seq::empty(),
                translated.take(v as int),
            ),
        decreases units.len() - v,
    {
        proof {
            assert(translated.take(v + 1).drop_last() =~= translated.take(v as int));
            assert(translated.take(v + 1).last() == translated[v as int]);
            assert(translated[v as int].images == image_views(units[v as int].images@));
            lemma_image_count_grows(translated, v + 1);
        }
        match add_images_to_resources(&mut doc, &mut image_resources, &units[v].images) {
            Ok(_) => {},
            Err(fault) => {
                return Err(EditError::Assembly(fault));
            },
        }
        v += 1;
    }
    assert(translated.take(v as int) =~= translated);
    let mut page_ids: Vec<ObjectId> = Vec::new();
    match add_pages_to_document(&mut doc, &state, pages_id, &mut page_ids) {
        Ok(_) => {},
        Err(fault) => {
            return Err(EditError::Assembly(fault));
        },
    }
    let resources_id = match add_resources(&mut doc, font_id, image_resources) {
        Ok(id) => id,
        Err(fault) => {
            return Err(EditError::Assembly(fault));
        },
    };
    add_pages_object(&mut doc, pages_id, &page_ids, resources_id);
    match add_catalog(&mut doc, pages_id) {
        Ok(_) => {},
        Err(fault) => {
            return Err(EditError::Assembly(fault));
        },
    }
    Ok(doc)
}

/// Text `i` is laid out for unit `i`: the units with the texts are the
/// units in their order, each with its own images and the text of its
/// place, and unit `i` is laid out behind the units before it, with the
/// paragraphs of text `i` and then its images.
pub proof fn lemma_texts_are_laid_out_in_order(
    o: PdfOptions,
    units: Seq<UnitView>,
    texts: Seq<Seq<char>>,
    i: int,
)
    requires
        units.len() == texts.len(),
        0 <= i < units.len(),
    ensures
        with_texts(units, texts).len() == units.len(),
        with_texts(units, texts)[i].id == units[i].id,
        with_texts(units, texts)[i].images == units[i].images,
        with_texts(units, texts)[i].text == texts[i],
        laid_out(o, with_texts(units, texts).take(i + 1)) == laid_out(
            o,
            with_texts(units, texts).take(i),
        ).content(o, paragraph_split(texts[i]), units[i].images),
        with_texts(units, texts).take(i) == with_texts(units.take(i), texts.take(i)),
{
    let translated = with_texts(units, texts);
    assert(translated.take(i + 1).drop_last() =~= translated.take(i));
    assert(translated.take(i + 1).last() == translated[i]);
    assert(translated.take(i) =~= with_texts(units.take(i), texts.take(i)));
}

/// The images of the first units are not more than those of all.
proof fn lemma_image_count_grows(units: Seq<UnitView>, k: int)
    requires
        0 <= k <= units.len(),
    ensures
        image_count(units.take(k)) <= image_count(units),
    decreases units.len() - k,
{
    if k == units.len() {
        assert(units.take(k) =~= units);
    } else {
        lemma_image_count_grows(units, k + 1);
        assert(units.take(k + 1).drop_last() =~= units.take(k));
    }
}

} // verus!
