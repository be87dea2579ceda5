//! Reading the pages of a source document: the text and the images of each
//! page, in the order of the pages.

use vstd::prelude::*;
use crate::filetypes::content::{image_views, ImageDescriptor, ImageView, ObjectId};
use crate::filetypes::pdf::{PageUnit, UnitView, unit_views};

verus! {

/// A document as the crate `lopdf` holds it.
#[verifier::external_type_specification]
#[verifier::external_body]
pub struct ExDocument(lopdf::Document);

/// An image as the source document describes it.
#[derive(Debug)]
pub struct SourceImage {
    pub id: ObjectId,
    pub width: i64,
    pub height: i64,
    pub color_space: Option<String>,
    pub bits_per_component: Option<i64>,
    pub filters: Option<Vec<String>>,
    pub content: Vec<u8>,
}

/// A `SourceImage` as a mathematical value.
pub struct SourceImageView {
    pub id: ObjectId,
    pub width: i64,
    pub height: i64,
    pub color_space: Option<Seq<char>>,
    pub bits_per_component: Option<i64>,
    pub filters: Option<Seq<Seq<char>>>,
    pub content: Seq<u8>,
}

impl View for SourceImage {
    type V = SourceImageView;

    open spec fn view(&self) -> SourceImageView {
        SourceImageView {
            id: self.id,
            width: self.width,
            height: self.height,
            color_space: match self.color_space {
                Some(name) => Some(name@),
                None => None,
            },
            bits_per_component: self.bits_per_component,
            filters: match self.filters {
                Some(names) => Some(names.deep_view()),
                None => None,
            },
            content: self.content@,
        }
    }
}

/// The source images as mathematical values.
pub open spec fn source_image_views(images: Seq<SourceImage>) -> Seq<SourceImageView> {
    images.map_values(|image: SourceImage| image@)
}

/// The pages of a document, each with its number and its identifier, in the
/// order of their numbers.
pub uninterp spec fn source_pages(doc: lopdf::Document) -> Seq<(u32, ObjectId)>;

/// The text of the page with the given number, or `None` where it cannot be
/// read.
pub uninterp spec fn source_text(doc: lopdf::Document, page_number: u32) -> Option<Seq<char>>;

/// The images of the page with the given identifier, or `None` where they
/// cannot be read.
pub uninterp spec fn source_images(doc: lopdf::Document, page_id: ObjectId) -> Option<
    Seq<SourceImageView>,
>;

/// Calls `lopdf::Document::get_pages`, which gives the page numbers, from
/// one on, with the identifiers of the pages. The contract gives the pairs,
/// in the order of the numbers, the name `source_pages` and claims nothing
/// else of them.
#[verifier::external_body]
fn document_pages(doc: &lopdf::Document) -> (pages: Vec<(u32, ObjectId)>)
    ensures
        pages@ == source_pages(*doc),
{
    doc.get_pages().into_iter().collect()
}

/// Calls `lopdf::Document::extract_text` for one page. The contract gives
/// the outcome the name `source_text` and claims nothing else of it.
#[verifier::external_body]
fn extract_page_text(doc: &lopdf::Document, page_number: u32) -> (text: Result<
    String,
    lopdf::Error,
>)
    ensures
        match text {
            Ok(text) => source_text(*doc, page_number) == Some(text@),
            Err(_) => source_text(*doc, page_number) is None,
        },
{
    doc.extract_text(&[page_number])
}

/// Calls `lopdf::Document::get_page_images` and copies what it tells of each
/// image. The contract gives the outcome the name `source_images` and
/// claims nothing else of it.
#[verifier::external_body]
fn page_images(doc: &lopdf::Document, page_id: ObjectId) -> (images: Result<
    Vec<SourceImage>,
    lopdf::Error,
>)
    ensures
        match images {
            Ok(images) => source_images(*doc, page_id) == Some(source_image_views(images@)),
            Err(_) => source_images(*doc, page_id) is None,
        },
{
    let images = doc.get_page_images(page_id)?;
    Ok(images.into_iter().map(|image| SourceImage {
        id: image.id,
        width: image.width,
        height: image.height,
        color_space: image.color_space,
        bits_per_component: image.bits_per_component,
        filters: image.filters,
        content: image.content.to_vec(),
    }).collect())
}

/// Why the source could not be read.
#[derive(Clone, Copy, Debug, PartialEq, Eq, Structural)]
pub enum ExtractionError {
    /// The text of the page with this number cannot be read.
    Text { page: u32 },
}

/// The image, where its width and its height are sizes: not below zero and
/// not beyond what thirty-two bits hold.
pub open spec fn image_of(image: SourceImageView) -> Option<ImageView> {
    if 0 <= image.width <= u32::MAX && 0 <= image.height <= u32::MAX {
        Some(
            ImageView {
                id: (image.id.0 as nat, image.id.1 as nat),
                content: image.content,
                width: image.width as nat,
                height: image.height as nat,
                color_space: image.color_space,
                bits_per_component: match image.bits_per_component {
                    Some(bits) => Some(bits as int),
                    None => None,
                },
                filters: image.filters,
            },
        )
    } else {
        None
    }
}

/// The images whose width and height are sizes, in their order. The
/// others are left out.
pub open spec fn images_of(images: Seq<SourceImageView>) -> Seq<ImageView>
    decreases images.len(),
{
    if images.len() == 0 {
        Seq::empty()
    } else {
        match image_of(images.last()) {
            Some(image) => images_of(images.drop_last()).push(image),
            None => images_of(images.drop_last()),
        }
    }
}

/// What is read of one page: its text and its images. Images that cannot be
/// read are left out, and so are images whose size is none; text that
/// cannot be read is a fault.
pub open spec fn unit_of(doc: lopdf::Document, page: (u32, ObjectId)) -> Result<
    UnitView,
    ExtractionError,
> {
    match source_text(doc, page.0) {
        None => Err(ExtractionError::Text { page: page.0 }),
        Some(text) => Ok(
            UnitView {
                id: page.1,
                text,
                images: match source_images(doc, page.1) {
                    None => Seq::empty(),
                    Some(found) => images_of(found),
                },
            },
        ),
    }
}

/// What is read of the pages, one after the other, or the first fault.
pub open spec fn units_of(doc: lopdf::Document, pages: Seq<(u32, ObjectId)>) -> Result<
    Seq<UnitView>,
    ExtractionError,
>
    decreases pages.len(),
{
    if pages.len() == 0 {
        Ok(Seq::empty())
    } else {
        match units_of(doc, pages.drop_last()) {
            Err(fault) => Err(fault),
            Ok(units) => match unit_of(doc, pages.last()) {
                Ok(unit) => Ok(units.push(unit)),
                Err(fault) => Err(fault),
            },
        }
    }
}

impl ImageDescriptor {
    /// Takes an image over from the source, where its width and its height
    /// are sizes.
    pub fn from_source(image: SourceImage) -> (taken: Option<ImageDescriptor>)
        ensures
            match taken {
                Some(descriptor) => image_of(image@) == Some(descriptor@),
                None => image_of(image@) is None,
            },
    {
        if image.width < 0 || image.width > u32::MAX as i64 || image.height < 0 || image.height
            > u32::MAX as i64 {
            return None;
        }
        Some(
            ImageDescriptor {
                id: image.id,
                content: image.content,
                width: image.width as u32,
                height: image.height as u32,
                color_space: image.color_space,
                bits_per_component: image.bits_per_component,
                filters: image.filters,
            },
        )
    }
}

/// Takes the images over from the source whose width and height are
/// sizes, and leaves the others out.
pub fn take_images(found: Vec<SourceImage>) -> (taken: Vec<ImageDescriptor>)
    ensures
        image_views(taken@) == images_of(source_image_views(found@)),
{
    let ghost all = source_image_views(found@);
    let mut images: Vec<ImageDescriptor> = Vec::new();
    assert(all.take(0) =~= Seq::empty());
    assert(image_views(images@) =~= Seq::empty());
    for image in it: found
        invariant
            all == source_image_views(it.seq()),
            image_views(images@) == images_of(all.take(it.index() as int)),
    {
        let ghost done = it.index() as int;
        let ghost views = image_views(images@);
        proof {
            assert(image@ == all[done]);
            assert(all.take(done + 1).drop_last() =~= all.take(done));
            assert(all.take(done + 1).last() == all[done]);
        }
        match ImageDescriptor::from_source(image) {
            Some(descriptor) => {
                images.push(descriptor);
                assert(image_views(images@) =~= views.push(descriptor@));
            },
            None => {},
        }
    }
    assert(all.take(all.len() as int) =~= all);
    images
}

/// Reads the pages of a document in the order of their numbers: of each its
/// text and its images. Images that cannot be read are left out, and so are
/// images whose size is none. Text that cannot be read is a fault; the
/// first fault is the answer.
pub fn extract_units(doc: &lopdf::Document) -> (read: Result<Vec<PageUnit>, ExtractionError>)
    ensures
        match read {
            Ok(units) => units_of(*doc, source_pages(*doc)) == Ok::<
                Seq<UnitView>,
                ExtractionError,
            >(unit_views(units@)),
            Err(fault) => units_of(*doc, source_pages(*doc)) == Err::<
                Seq<UnitView>,
                ExtractionError,
            >(fault),
        },
{
    let pages = document_pages(doc);
    let ghost all = pages@;
    let mut units: Vec<PageUnit> = Vec::new();
    let mut p: usize = 0;
    proof {
        assert(all.take(0) =~= Seq::empty());
        assert(unit_views(units@) =~= Seq::empty());
    }
    while p < pages.len()
        invariant
            p <= pages.len(),
            all == pages@,
            all == source_pages(*doc),
            units_of(*doc, all.take(p as int)) == Ok::<Seq<UnitView>, ExtractionError>(
                unit_views(units@),
            ),
        decreases pages.len() - p,
    {
        let (number, id) = pages[p];
        proof {
            assert(all.take(p + 1).drop_last() =~= all.take(p as int));
            assert(all.take(p + 1).last() == (number, id));
        }
        let text = match extract_page_text(doc, number) {
            Ok(text) => text,
            Err(_) => {
                proof {
                    lemma_units_of_prefix(*doc, all, p + 1);
                }
                return Err(ExtractionError::Text { page: number });
            },
        };
        let images = match page_images(doc, id) {
            Ok(found) => take_images(found),
            Err(_) => {
                let none: Vec<ImageDescriptor> = Vec::new();
                assert(image_views(none@) =~= Seq::empty());
                none
            },
        };
        let ghost before = unit_views(units@);
        let unit = PageUnit { id, text, images };
        units.push(unit);
        assert(unit_views(units@) =~= before.push(unit@));
        p += 1;
    }
    assert(all.take(p as int) =~= all);
    Ok(units)
}

/// A fault among the first pages is the fault of all pages.
proof fn lemma_units_of_prefix(doc: lopdf::Document, pages: Seq<(u32, ObjectId)>, k: int)
    requires
        0 <= k <= pages.len(),
        units_of(doc, pages.take(k)) is Err,
    ensures
        units_of(doc, pages) == units_of(doc, pages.take(k)),
    decreases pages.len() - k,
{
    if k == pages.len() {
        assert(pages.take(k) =~= pages);
    } else {
        assert(pages.take(k + 1).drop_last() =~= pages.take(k));
        lemma_units_of_prefix(doc, pages, k + 1);
    }
}

} // verus!
