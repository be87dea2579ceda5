//! What holds of every document that is put together: each object that is
//! referred to is there.

use vstd::prelude::*;
use crate::options::PdfOptions;
use crate::filetypes::assemble::{
    catalog_object, content_object, font_object, image_object, index_of, page_object,
    pages_object, resources_object, table_set, with_images, with_pages,
};
use crate::filetypes::content::{ImageView, ObjectId};
use crate::filetypes::encode::image_name;
use crate::filetypes::graph::{DocumentGraph, GraphView, ObjectView, ValueView};
use crate::filetypes::pdf::{
    assembled, built_version, encoded_pages, laid_out, with_unit_images, UnitView,
};

verus! {

/// The objects that a value refers to.
pub open spec fn value_refs(value: ValueView) -> Seq<ObjectId> {
    match value {
        ValueView::Reference(id) => seq![id],
        ValueView::References(ids) => ids,
        ValueView::Table(table) => table.map_values(|entry: (Seq<char>, ObjectId)| entry.1),
        _ => Seq::empty(),
    }
}

/// The dictionary of an object.
pub open spec fn dictionary_of(object: ObjectView) -> Seq<(Seq<char>, ValueView)> {
    match object {
        ObjectView::Dictionary(entries) => entries,
        ObjectView::Stream { dictionary, .. } => dictionary,
    }
}

/// The object refers to the object with this identifier.
pub open spec fn refers_to(object: ObjectView, id: ObjectId) -> bool {
    exists|e: int, r: int|
        0 <= e < dictionary_of(object).len() && 0 <= r < value_refs(
            #[trigger] dictionary_of(object)[e].1,
        ).len() && #[trigger] value_refs(dictionary_of(object)[e].1)[r] == id
}

/// The document holds an object under this identifier.
pub open spec fn holds(graph: GraphView, id: ObjectId) -> bool {
    exists|i: int| 0 <= i < graph.objects.len() && (#[trigger] graph.objects[i]).0 == id
}

/// Each object that an object of the document refers to is held by the
/// document, or else is the one that is still to come.
pub open spec fn closed_but(graph: GraphView, pending: ObjectId) -> bool {
    forall|i: int, id: ObjectId|
        0 <= i < graph.objects.len() && refers_to((#[trigger] graph.objects[i]).1, id) ==> id
            == pending || #[trigger] holds(graph, id)
}

/// Each object that an object of the document refers to is held by the
/// document.
pub open spec fn closed(graph: GraphView) -> bool {
    forall|i: int, id: ObjectId|
        0 <= i < graph.objects.len() && refers_to((#[trigger] graph.objects[i]).1, id)
            ==> #[trigger] holds(graph, id)
}

/// Each identifier of the table is held by the document.
pub open spec fn table_held(graph: GraphView, table: Seq<(Seq<char>, ObjectId)>) -> bool {
    forall|t: int| 0 <= t < table.len() ==> holds(graph, (#[trigger] table[t]).1)
}

/// Each of the identifiers is held by the document.
pub open spec fn all_held(graph: GraphView, ids: Seq<ObjectId>) -> bool {
    forall|k: int| 0 <= k < ids.len() ==> holds(graph, #[trigger] ids[k])
}

/// The document holds at least what the other holds.
pub open spec fn holds_more(after: GraphView, before: GraphView) -> bool {
    forall|id: ObjectId| holds(before, id) ==> holds(after, id)
}

/// An object that comes in is held from then on, and so is every object
/// that was held before.
pub proof fn lemma_add_holds(graph: GraphView, object: ObjectView)
    ensures
        holds(graph.add(object), graph.next_id()),
        holds_more(graph.add(object), graph),
{
    let after = graph.add(object);
    assert(after.objects[graph.objects.len() as int].0 == graph.next_id());
    assert forall|id: ObjectId| holds(graph, id) implies holds(after, id) by {
        let i = choose|i: int| 0 <= i < graph.objects.len() && graph.objects[i].0 == id;
        assert(after.objects[i].0 == id);
    }
}

/// An object that refers only to objects that are held, or to the one that
/// is still to come, or to itself, may come in.
pub proof fn lemma_add_closed(graph: GraphView, object: ObjectView, pending: ObjectId)
    requires
        closed_but(graph, pending),
        forall|id: ObjectId|
            refers_to(object, id) ==> id == pending || id == graph.next_id() || holds(graph, id),
    ensures
        closed_but(graph.add(object), pending),
{
    let after = graph.add(object);
    lemma_add_holds(graph, object);
    assert forall|i: int, id: ObjectId|
        0 <= i < after.objects.len() && refers_to((#[trigger] after.objects[i]).1, id) implies id
        == pending || #[trigger] holds(after, id) by {
        if i < graph.objects.len() {
            assert(after.objects[i] == graph.objects[i]);
            assert(id == pending || holds(graph, id));
        }
    }
}

/// When the object that was still to come is put in, and refers only to
/// objects that are held, nothing is left open.
pub proof fn lemma_set_closes(graph: GraphView, pending: ObjectId, object: ObjectView)
    requires
        closed_but(graph, pending),
        forall|id: ObjectId| refers_to(object, id) ==> id == pending || holds(graph, id),
    ensures
        closed(graph.set(pending, object)),
        holds(graph.set(pending, object), pending),
        holds_more(graph.set(pending, object), graph),
{
    let after = graph.set(pending, object);
    DocumentGraph::lemma_position(graph, pending, 0);
    match graph.position(pending) {
        Some(p) => {
            assert(after.objects[p].0 == pending);
            assert forall|id: ObjectId| holds(graph, id) implies holds(after, id) by {
                let i = choose|i: int| 0 <= i < graph.objects.len() && graph.objects[i].0 == id;
                assert(after.objects[i].0 == id);
            }
            assert forall|i: int, id: ObjectId|
                0 <= i < after.objects.len() && refers_to(
                    (#[trigger] after.objects[i]).1,
                    id,
                ) implies #[trigger] holds(after, id) by {
                if i != p {
                    assert(after.objects[i] == graph.objects[i]);
                    assert(id == pending || holds(graph, id));
                }
            }
        },
        None => {
            assert(after.objects[graph.objects.len() as int].0 == pending);
            assert forall|id: ObjectId| holds(graph, id) implies holds(after, id) by {
                let i = choose|i: int| 0 <= i < graph.objects.len() && graph.objects[i].0 == id;
                assert(after.objects[i].0 == id);
            }
            assert forall|i: int, id: ObjectId|
                0 <= i < after.objects.len() && refers_to(
                    (#[trigger] after.objects[i]).1,
                    id,
                ) implies #[trigger] holds(after, id) by {
                if i < graph.objects.len() {
                    assert(after.objects[i] == graph.objects[i]);
                    assert(id == pending || holds(graph, id));
                }
            }
        },
    }
}

/// What the objects of a document refer to: the font, an image and a content
/// stream to nothing, a page to its page tree and its content stream, the
/// resources to the font and the images, the page tree to its pages and the
/// resources, and the root to the page tree.
pub proof fn lemma_references(
    image: ImageView,
    encoded: Seq<u8>,
    parent: ObjectId,
    contents: ObjectId,
    font: ObjectId,
    names: Seq<(Seq<char>, ObjectId)>,
    kids: Seq<ObjectId>,
    resources: ObjectId,
)
    ensures
        forall|id: ObjectId| !refers_to(font_object(), id),
        forall|id: ObjectId| !refers_to(image_object(image), id),
        forall|id: ObjectId| !refers_to(content_object(encoded), id),
        forall|id: ObjectId|
            refers_to(page_object(parent, contents), id) ==> id == parent || id == contents,
        forall|id: ObjectId|
            refers_to(resources_object(font, names), id) ==> id == font || exists|t: int|
                0 <= t < names.len() && (#[trigger] names[t]).1 == id,
        forall|id: ObjectId|
            refers_to(pages_object(kids, resources), id) ==> id == resources || exists|k: int|
                0 <= k < kids.len() && #[trigger] kids[k] == id,
        forall|id: ObjectId| refers_to(catalog_object(parent), id) ==> id == parent,
{
    assert forall|id: ObjectId| refers_to(resources_object(font, names), id) implies id == font
        || exists|t: int| 0 <= t < names.len() && (#[trigger] names[t]).1 == id by {
        let entries = dictionary_of(resources_object(font, names));
        let (e, r) = choose|e: int, r: int|
            0 <= e < entries.len() && 0 <= r < value_refs(#[trigger] entries[e].1).len()
                && #[trigger] value_refs(entries[e].1)[r] == id;
        if e == 1 {
            assert(names[r].1 == id);
        }
    }
    assert forall|id: ObjectId| refers_to(pages_object(kids, resources), id) implies id
        == resources || exists|k: int| 0 <= k < kids.len() && #[trigger] kids[k] == id by {
        let entries = dictionary_of(pages_object(kids, resources));
        let (e, r) = choose|e: int, r: int|
            0 <= e < entries.len() && 0 <= r < value_refs(#[trigger] entries[e].1).len()
                && #[trigger] value_refs(entries[e].1)[r] == id;
        if e == 1 {
            assert(kids[r] == id);
        }
    }
}

/// A table that takes a name in holds what it held, or what came in.
proof fn lemma_table_set(table: Seq<(Seq<char>, ObjectId)>, name: Seq<char>, id: ObjectId, t: int)
    requires
        0 <= t < table_set(table, name, id).len(),
    ensures
        table_set(table, name, id)[t].1 == id || exists|u: int|
            0 <= u < table.len() && (#[trigger] table[u]).1 == table_set(table, name, id)[t].1,
{
    let i = index_of(table, name);
    if 0 <= i < table.len() {
        if t != i {
            assert(table[t].1 == table_set(table, name, id)[t].1);
        }
    } else {
        if t < table.len() {
            assert(table[t].1 == table_set(table, name, id)[t].1);
        }
    }
}

/// Images that come in leave nothing open, and their names stand for
/// objects that are held.
pub proof fn lemma_images_closed(
    graph: GraphView,
    table: Seq<(Seq<char>, ObjectId)>,
    images: Seq<ImageView>,
    pending: ObjectId,
)
    requires
        closed_but(graph, pending),
        table_held(graph, table),
    ensures
        closed_but(with_images(graph, table, images).0, pending),
        table_held(with_images(graph, table, images).0, with_images(graph, table, images).1),
        holds_more(with_images(graph, table, images).0, graph),
    decreases images.len(),
{
    if images.len() > 0 {
        lemma_images_closed(graph, table, images.drop_last(), pending);
        let (before, names) = with_images(graph, table, images.drop_last());
        let image = images.last();
        lemma_references(
            image,
            Seq::empty(),
            pending,
            pending,
            pending,
            names,
            Seq::empty(),
            pending,
        );
        lemma_add_closed(before, image_object(image), pending);
        lemma_add_holds(before, image_object(image));
        let after = before.add(image_object(image));
        let grown = table_set(names, image_name(image.id.0), before.next_id());
        assert forall|t: int| 0 <= t < grown.len() implies holds(after, (#[trigger] grown[t]).1) by {
            lemma_table_set(names, image_name(image.id.0), before.next_id(), t);
            if grown[t].1 != before.next_id() {
                let u = choose|u: int| 0 <= u < names.len() && names[u].1 == grown[t].1;
                assert(holds(before, names[u].1));
            }
        }
    }
}

/// The images of the units that come in leave nothing open, and their names
/// stand for objects that are held.
pub proof fn lemma_unit_images_closed(
    graph: GraphView,
    table: Seq<(Seq<char>, ObjectId)>,
    units: Seq<UnitView>,
    pending: ObjectId,
)
    requires
        closed_but(graph, pending),
        table_held(graph, table),
    ensures
        closed_but(with_unit_images(graph, table, units).0, pending),
        table_held(
            with_unit_images(graph, table, units).0,
            with_unit_images(graph, table, units).1,
        ),
        holds_more(with_unit_images(graph, table, units).0, graph),
    decreases units.len(),
{
    if units.len() > 0 {
        lemma_unit_images_closed(graph, table, units.drop_last(), pending);
        let (before, names) = with_unit_images(graph, table, units.drop_last());
        lemma_images_closed(before, names, units.last().images, pending);
    }
}

/// Pages that come in leave nothing open but their page tree, and the
/// identifiers of the pages are held.
pub proof fn lemma_pages_closed(
    graph: GraphView,
    kids: Seq<ObjectId>,
    parent: ObjectId,
    encoded: Seq<Seq<u8>>,
)
    requires
        closed_but(graph, parent),
        all_held(graph, kids),
    ensures
        closed_but(with_pages(graph, kids, parent, encoded).0, parent),
        all_held(
            with_pages(graph, kids, parent, encoded).0,
            with_pages(graph, kids, parent, encoded).1,
        ),
        holds_more(with_pages(graph, kids, parent, encoded).0, graph),
    decreases encoded.len(),
{
    if encoded.len() > 0 {
        lemma_pages_closed(graph, kids, parent, encoded.drop_last());
        let (before, pages) = with_pages(graph, kids, parent, encoded.drop_last());
        let content = content_object(encoded.last());
        let with_content = before.add(content);
        let page = page_object(parent, before.next_id());
        lemma_references(
            arbitrary(),
            encoded.last(),
            parent,
            before.next_id(),
            parent,
            Seq::empty(),
            Seq::empty(),
            parent,
        );
        lemma_add_closed(before, content, parent);
        lemma_add_holds(before, content);
        lemma_add_closed(with_content, page, parent);
        lemma_add_holds(with_content, page);
        let after = with_content.add(page);
        let grown = pages.push(with_content.next_id());
        assert forall|k: int| 0 <= k < grown.len() implies holds(after, #[trigger] grown[k]) by {
            if k < pages.len() {
                assert(holds(before, pages[k]));
            }
        }
    }
}

/// In the document that is built from the units, each object that an object
/// refers to is there, and so is the root.
pub proof fn lemma_assembled_is_closed(o: PdfOptions, units: Seq<UnitView>)
    ensures
        closed(assembled(o, units)),
        assembled(o, units).root is Some,
        holds(assembled(o, units), assembled(o, units).root->Some_0),
{
    let kept = GraphView::empty(built_version()).reserve();
    let pages_id = GraphView::empty(built_version()).next_id();
    let font_id = kept.next_id();
    let fonted = kept.add(font_object());
    let (pictured, names) = with_unit_images(fonted, Seq::empty(), units);
    let encoded = encoded_pages(laid_out(o, units).pages);
    let (paged, kids) = with_pages(pictured, Seq::empty(), pages_id, encoded);
    let resources_id = paged.next_id();
    let shared = paged.add(resources_object(font_id, names));
    let rooted = shared.set(pages_id, pages_object(kids, resources_id));
    let whole = rooted.add(catalog_object(pages_id));
    lemma_references(
        arbitrary(),
        Seq::empty(),
        pages_id,
        pages_id,
        font_id,
        names,
        kids,
        resources_id,
    );
    lemma_add_closed(kept, font_object(), pages_id);
    lemma_add_holds(kept, font_object());
    lemma_unit_images_closed(fonted, Seq::empty(), units, pages_id);
    lemma_pages_closed(pictured, Seq::empty(), pages_id, encoded);
    assert forall|id: ObjectId|
        refers_to(resources_object(font_id, names), id) implies id == pages_id || id
        == paged.next_id() || holds(paged, id) by {
        if id != font_id {
            let t = choose|t: int| 0 <= t < names.len() && names[t].1 == id;
            assert(holds(pictured, names[t].1));
        }
    }
    lemma_add_closed(paged, resources_object(font_id, names), pages_id);
    lemma_add_holds(paged, resources_object(font_id, names));
    assert forall|id: ObjectId|
        refers_to(pages_object(kids, resources_id), id) implies id == pages_id || holds(
        shared,
        id,
    ) by {
        if id != resources_id {
            let k = choose|k: int| 0 <= k < kids.len() && kids[k] == id;
            assert(holds(paged, kids[k]));
        }
    }
    lemma_set_closes(shared, pages_id, pages_object(kids, resources_id));
    assert(closed_but(rooted, pages_id));
    lemma_add_closed(rooted, catalog_object(pages_id), pages_id);
    lemma_add_holds(rooted, catalog_object(pages_id));
    assert(closed(whole)) by {
        assert forall|i: int, id: ObjectId|
            0 <= i < whole.objects.len() && refers_to(
                (#[trigger] whole.objects[i]).1,
                id,
            ) implies #[trigger] holds(whole, id) by {
            assert(id == pages_id || holds(whole, id));
        }
    }
    let done = assembled(o, units);
    assert(done.objects == whole.objects);
    assert forall|i: int, id: ObjectId|
        0 <= i < done.objects.len() && refers_to((#[trigger] done.objects[i]).1, id)
        implies #[trigger] holds(done, id) by {
        assert(holds(whole, id));
        let j = choose|j: int| 0 <= j < whole.objects.len() && whole.objects[j].0 == id;
        assert(done.objects[j].0 == id);
    }
    assert(holds(whole, rooted.next_id()));
    let j = choose|j: int| 0 <= j < whole.objects.len() && whole.objects[j].0 == rooted.next_id();
    assert(done.objects[j].0 == rooted.next_id());
}

} // verus!
