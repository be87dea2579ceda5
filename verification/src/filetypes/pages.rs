//! What holds of every page that is laid out: it begins as a page begins,
//! and pages only come, none goes.

use vstd::prelude::*;
use crate::options::PdfOptions;
use crate::text::words;
use crate::filetypes::content::{ImageView, InstructionView};
use crate::filetypes::layout::{
    fresh_page, image_page, paragraph_split, scale_of, scaled, LayoutView, IMAGE_GAP, LEFT_MARGIN,
};
use crate::filetypes::pdf::{laid_out, UnitView};

verus! {

/// Each page begins with the instructions that begin a page.
pub open spec fn begins_fresh(state: LayoutView) -> bool {
    forall|p: int|
        0 <= p < state.pages.len() ==> (#[trigger] state.pages[p]).len() >= fresh_page().len()
            && state.pages[p].take(fresh_page().len() as int) == fresh_page()
}

/// The later state has the pages of the earlier one, each with what it had
/// at its front, and maybe more.
pub open spec fn grown_from(after: LayoutView, before: LayoutView) -> bool {
    &&& before.pages.len() <= after.pages.len()
    &&& forall|p: int|
        0 <= p < before.pages.len() ==> (#[trigger] before.pages[p]).len() <= after.pages[p].len()
            && after.pages[p].take(before.pages[p].len() as int) == before.pages[p]
}

/// Instructions added to the last page leave the fronts of all pages as
/// they are.
pub proof fn lemma_append_grows(state: LayoutView, instructions: Seq<InstructionView>)
    requires
        state.pages.len() > 0,
        begins_fresh(state),
    ensures
        begins_fresh(state.append(instructions)),
        grown_from(state.append(instructions), state),
{
    let after = state.append(instructions);
    let last = state.pages.len() - 1;
    assert forall|p: int| 0 <= p < after.pages.len() implies (#[trigger] after.pages[p]).len()
        >= fresh_page().len() && after.pages[p].take(fresh_page().len() as int)
        == fresh_page() by {
        assert(state.pages[p].len() >= fresh_page().len());
        if p == last {
            assert(after.pages[p].take(fresh_page().len() as int) =~= state.pages[p].take(
                fresh_page().len() as int,
            ));
        }
    }
    assert forall|p: int| 0 <= p < state.pages.len() implies (#[trigger] state.pages[p]).len()
        <= after.pages[p].len() && after.pages[p].take(state.pages[p].len() as int)
        == state.pages[p] by {
        assert(after.pages[p].take(state.pages[p].len() as int) =~= state.pages[p]);
    }
}

/// A page that is begun as a page begins leaves the pages before it as
/// they are.
pub proof fn lemma_open_grows(state: LayoutView, page: Seq<InstructionView>, y_pos: int)
    requires
        begins_fresh(state),
        page.len() >= fresh_page().len(),
        page.take(fresh_page().len() as int) == fresh_page(),
    ensures
        begins_fresh(state.open_page(page, y_pos)),
        grown_from(state.open_page(page, y_pos), state),
{
    let after = state.open_page(page, y_pos);
    assert forall|p: int| 0 <= p < state.pages.len() implies (#[trigger] state.pages[p]).len()
        <= after.pages[p].len() && after.pages[p].take(state.pages[p].len() as int)
        == state.pages[p] by {
        assert(after.pages[p].take(state.pages[p].len() as int) =~= state.pages[p]);
    }
}

/// Growing is passed on.
pub proof fn lemma_grown_twice(first: LayoutView, second: LayoutView, third: LayoutView)
    requires
        grown_from(second, first),
        grown_from(third, second),
    ensures
        grown_from(third, first),
{
    assert forall|p: int| 0 <= p < first.pages.len() implies (#[trigger] first.pages[p]).len()
        <= third.pages[p].len() && third.pages[p].take(first.pages[p].len() as int)
        == first.pages[p] by {
        assert(second.pages[p].len() <= third.pages[p].len());
        assert(third.pages[p].take(second.pages[p].len() as int) == second.pages[p]);
        assert(third.pages[p].take(first.pages[p].len() as int) =~= second.pages[p].take(
            first.pages[p].len() as int,
        ));
    }
}

/// The page that is begun for an image begins as a page begins.
proof fn lemma_image_page(o: PdfOptions)
    ensures
        image_page(o).len() >= fresh_page().len(),
        image_page(o).take(fresh_page().len() as int) == fresh_page(),
        fresh_page().take(fresh_page().len() as int) == fresh_page(),
{
    assert(image_page(o).take(fresh_page().len() as int) =~= fresh_page());
    assert(fresh_page().take(fresh_page().len() as int) =~= fresh_page());
}

/// A line that is shown, a page that is begun where the cursor has sunk,
/// and the space behind a paragraph only add to the pages.
proof fn lemma_steps_grow(state: LayoutView, o: PdfOptions, line: Seq<char>, line_height: int)
    requires
        state.pages.len() > 0,
        begins_fresh(state),
    ensures
        begins_fresh(state.add_line(line, line_height)),
        grown_from(state.add_line(line, line_height), state),
        state.add_line(line, line_height).pages.len() > 0,
        begins_fresh(state.check_new_page(o)),
        grown_from(state.check_new_page(o), state),
        state.check_new_page(o).pages.len() > 0,
        begins_fresh(state.paragraph_spacing(o)),
        grown_from(state.paragraph_spacing(o), state),
        state.paragraph_spacing(o).pages.len() > 0,
        begins_fresh(state.end_text()),
        grown_from(state.end_text(), state),
        state.end_text().pages.len() > 0,
{
    lemma_image_page(o);
    lemma_append_grows(
        state,
        seq![
            InstructionView::ShowText { text: line },
            InstructionView::MoveText { dx: 0, dy: -line_height },
        ],
    );
    lemma_open_grows(state, fresh_page(), o.max_y_pos as int);
    lemma_append_grows(state, seq![InstructionView::EndText]);
    let down = seq![InstructionView::MoveText { dx: 0, dy: -(o.paragraph_spacing as int) }];
    lemma_append_grows(state, down);
    let moved = LayoutView { y_pos: state.y_pos - o.paragraph_spacing, ..state.append(down) };
    assert(begins_fresh(moved) && grown_from(moved, state));
    if moved.y_pos <= o.min_y_pos {
        let closing = seq![
            InstructionView::EndText,
            InstructionView::BeginText,
            InstructionView::MoveText { dx: LEFT_MARGIN as int, dy: o.max_y_pos as int },
        ];
        lemma_append_grows(moved, closing);
        lemma_open_grows(moved.append(closing), fresh_page(), o.max_y_pos as int);
        lemma_grown_twice(state, moved, moved.append(closing));
        lemma_grown_twice(state, moved.append(closing), state.paragraph_spacing(o));
    }
}

/// Words that are placed only add to the pages.
proof fn lemma_words_grow(state: LayoutView, o: PdfOptions, line: Seq<char>, placed: Seq<Seq<char>>)
    requires
        state.pages.len() > 0,
        begins_fresh(state),
    ensures
        begins_fresh(state.place_words(o, line, placed).0),
        grown_from(state.place_words(o, line, placed).0, state),
        state.place_words(o, line, placed).0.pages.len() > 0,
    decreases placed.len(),
{
    if placed.len() == 0 {
        lemma_grown_from_itself(state);
    } else {
        lemma_words_grow(state, o, line, placed.drop_last());
        let (before, pending) = state.place_words(o, line, placed.drop_last());
        lemma_steps_grow(before, o, pending, o.line_height as int);
        let shown = before.add_line(pending, o.line_height as int);
        lemma_steps_grow(shown, o, pending, o.line_height as int);
        lemma_grown_twice(state, before, before.check_new_page(o));
        lemma_grown_twice(state, before, shown);
        lemma_grown_twice(state, shown, shown.check_new_page(o));
    }
}

/// A paragraph only adds to the pages.
pub proof fn lemma_paragraph_grows(state: LayoutView, o: PdfOptions, placed: Seq<Seq<char>>)
    requires
        state.pages.len() > 0,
        begins_fresh(state),
    ensures
        begins_fresh(state.paragraph(o, placed)),
        grown_from(state.paragraph(o, placed), state),
        state.paragraph(o, placed).pages.len() > 0,
{
    lemma_words_grow(state, o, Seq::empty(), placed);
    let (after, pending) = state.place_words(o, Seq::empty(), placed);
    lemma_steps_grow(after, o, pending, 0);
    if pending.len() > 0 {
        let flushed = after.add_line(pending, 0);
        lemma_steps_grow(flushed, o, pending, 0);
        lemma_grown_twice(state, after, flushed);
        lemma_grown_twice(state, flushed, flushed.paragraph_spacing(o));
    } else {
        lemma_grown_twice(state, after, after.paragraph_spacing(o));
    }
}

/// A state grows from itself.
proof fn lemma_grown_from_itself(state: LayoutView)
    ensures
        grown_from(state, state),
{
    assert forall|p: int| 0 <= p < state.pages.len() implies state.pages[p].take(
        (#[trigger] state.pages[p]).len() as int,
    ) == state.pages[p] by {
        assert(state.pages[p].take(state.pages[p].len() as int) =~= state.pages[p]);
    }
}

/// An image only adds to the pages.
pub proof fn lemma_image_grows(state: LayoutView, o: PdfOptions, image: ImageView)
    requires
        state.pages.len() > 0,
        begins_fresh(state),
    ensures
        begins_fresh(state.add_image(o, image)),
        grown_from(state.add_image(o, image), state),
        state.add_image(o, image).pages.len() > 0,
{
    lemma_image_page(o);
    let scale = scale_of(
        image.width as int,
        image.height as int,
        o.max_image_width as int,
        o.max_image_height as int,
    );
    let width = scaled(image.width as int, scale);
    let height = scaled(image.height as int, scale);
    let paged = if state.y_pos - height < o.min_y_pos {
        state.open_page(image_page(o), o.max_y_pos as int)
    } else {
        state
    };
    if state.y_pos - height < o.min_y_pos {
        lemma_open_grows(state, image_page(o), o.max_y_pos as int);
    } else {
        lemma_grown_from_itself(state);
    }
    let drawn = seq![
        InstructionView::SaveState,
        InstructionView::Transform { width, height, x: LEFT_MARGIN as int, y: paged.y_pos - height },
        InstructionView::DrawImage { id: image.id.0 },
        InstructionView::RestoreState,
    ];
    lemma_append_grows(paged, drawn);
    let after = LayoutView { y_pos: paged.y_pos - (height + IMAGE_GAP), ..paged.append(drawn) };
    assert(after == state.add_image(o, image));
    lemma_grown_twice(state, paged, paged.append(drawn));
}

/// One unit of the source only adds to the pages.
pub proof fn lemma_content_grows(
    state: LayoutView,
    o: PdfOptions,
    paragraphs: Seq<Seq<char>>,
    images: Seq<ImageView>,
)
    requires
        state.pages.len() > 0,
        begins_fresh(state),
    ensures
        begins_fresh(state.content(o, paragraphs, images)),
        grown_from(state.content(o, paragraphs, images), state),
        state.content(o, paragraphs, images).pages.len() > 0,
{
    lemma_paragraphs_grow(state, o, paragraphs);
    let written = state.paragraphs(o, paragraphs);
    lemma_steps_grow(written, o, Seq::empty(), 0);
    let ended = written.end_text();
    lemma_images_grow(ended, o, images);
    let pictured = ended.add_images(o, images);
    lemma_steps_grow(pictured, o, Seq::empty(), 0);
    lemma_grown_twice(state, written, ended);
    lemma_grown_twice(state, ended, pictured);
    lemma_grown_twice(state, pictured, pictured.end_text());
}

/// Paragraphs only add to the pages.
proof fn lemma_paragraphs_grow(state: LayoutView, o: PdfOptions, paragraphs: Seq<Seq<char>>)
    requires
        state.pages.len() > 0,
        begins_fresh(state),
    ensures
        begins_fresh(state.paragraphs(o, paragraphs)),
        grown_from(state.paragraphs(o, paragraphs), state),
        state.paragraphs(o, paragraphs).pages.len() > 0,
    decreases paragraphs.len(),
{
    if paragraphs.len() == 0 {
        lemma_grown_from_itself(state);
    } else {
        lemma_paragraphs_grow(state, o, paragraphs.drop_last());
        let before = state.paragraphs(o, paragraphs.drop_last());
        lemma_paragraph_grows(before, o, words(paragraphs.last()));
        lemma_grown_twice(state, before, before.paragraph(o, words(paragraphs.last())));
    }
}

/// Images only add to the pages.
proof fn lemma_images_grow(state: LayoutView, o: PdfOptions, images: Seq<ImageView>)
    requires
        state.pages.len() > 0,
        begins_fresh(state),
    ensures
        begins_fresh(state.add_images(o, images)),
        grown_from(state.add_images(o, images), state),
        state.add_images(o, images).pages.len() > 0,
    decreases images.len(),
{
    if images.len() == 0 {
        lemma_grown_from_itself(state);
    } else {
        lemma_images_grow(state, o, images.drop_last());
        let before = state.add_images(o, images.drop_last());
        lemma_image_grows(before, o, images.last());
        lemma_grown_twice(state, before, before.add_image(o, images.last()));
    }
}

/// However many units are laid out, there is a page, and each page begins
/// as a page begins.
pub proof fn lemma_laid_out_pages(o: PdfOptions, units: Seq<UnitView>)
    ensures
        laid_out(o, units).pages.len() > 0,
        begins_fresh(laid_out(o, units)),
    decreases units.len(),
{
    if units.len() == 0 {
        lemma_image_page(o);
    } else {
        lemma_laid_out_pages(o, units.drop_last());
        lemma_content_grows(
            laid_out(o, units.drop_last()),
            o,
            paragraph_split(units.last().text),
            units.last().images,
        );
    }
}

} // verus!
