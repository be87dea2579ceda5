//! What goes into the container of a markup document that is written: its
//! chapters in the order of the spine, and the metadata that is kept.

use vstd::prelude::*;
use vstd::string::*;
use crate::filetypes::markup::pair_views;

verus! {

/// What stands behind the first pair with this key, if there is one.
pub open spec fn value_of(pairs: Seq<(Seq<char>, Seq<char>)>, key: Seq<char>) -> Option<Seq<char>>
    decreases pairs.len(),
{
    if pairs.len() == 0 {
        None
    } else if pairs[0].0 == key {
        Some(pairs[0].1)
    } else {
        value_of(pairs.skip(1), key)
    }
}

/// Where a chapter has its content from.
#[derive(Debug)]
pub enum ChapterSource {
    /// The content was worked on and is this.
    Edited { content: String },
    /// The content is read from the source as it is.
    Unchanged,
}

/// A `ChapterSource` as a mathematical value.
pub enum ChapterSourceView {
    Edited { content: Seq<char> },
    Unchanged,
}

/// A chapter of the document that is written.
#[derive(Debug)]
pub struct Chapter {
    /// The identifier of the chapter, which is also its title.
    pub id: String,
    /// The path of the chapter in the container.
    pub path: String,
    /// Where the content is from.
    pub source: ChapterSource,
}

/// A `Chapter` as a mathematical value.
pub struct ChapterView {
    pub id: Seq<char>,
    pub path: Seq<char>,
    pub source: ChapterSourceView,
}

impl View for Chapter {
    type V = ChapterView;

    open spec fn view(&self) -> ChapterView {
        ChapterView {
            id: self.id@,
            path: self.path@,
            source: match self.source {
                ChapterSource::Edited { content } => ChapterSourceView::Edited {
                    content: content@,
                },
                ChapterSource::Unchanged => ChapterSourceView::Unchanged,
            },
        }
    }
}

/// The chapters as mathematical values.
pub open spec fn chapter_views(chapters: Seq<Chapter>) -> Seq<ChapterView> {
    chapters.map_values(|chapter: Chapter| chapter@)
}

/// The chapters of the document that is written: one for each item of the
/// spine that the resources have a path for, in the order of the spine. An
/// item without a path is left out. A chapter has the content that was
/// worked on for its item where there is such content.
pub open spec fn chapters_of(
    spine: Seq<Seq<char>>,
    resources: Seq<(Seq<char>, Seq<char>)>,
    edited: Seq<(Seq<char>, Seq<char>)>,
) -> Seq<ChapterView>
    decreases spine.len(),
{
    if spine.len() == 0 {
        Seq::empty()
    } else {
        let before = chapters_of(spine.drop_last(), resources, edited);
        let id = spine.last();
        match value_of(resources, id) {
            None => before,
            Some(path) => before.push(
                ChapterView {
                    id,
                    path,
                    source: match value_of(edited, id) {
                        Some(content) => ChapterSourceView::Edited { content },
                        None => ChapterSourceView::Unchanged,
                    },
                },
            ),
        }
    }
}

/// Looks for the first pair with this key.
pub fn find_value(pairs: &Vec<(String, String)>, key: &String) -> (found: Option<usize>)
    ensures
        match found {
            Some(i) => i < pairs.len() && value_of(pair_views(pairs@), key@) == Some(
                pairs[i as int].1@,
            ),
            None => value_of(pair_views(pairs@), key@) is None,
        },
{
    let ghost all = pair_views(pairs@);
    let mut i: usize = 0;
    assert(all.skip(0) =~= all);
    while i < pairs.len()
        invariant
            i <= pairs.len(),
            all == pair_views(pairs@),
            value_of(all, key@) == value_of(all.skip(i as int), key@),
        decreases pairs.len() - i,
    {
        assert(all.skip(i as int)[0] == all[i as int]);
        if pairs[i].0 == *key {
            return Some(i);
        }
        assert(all.skip(i as int).skip(1) =~= all.skip(i + 1));
        i += 1;
    }
    None
}

/// Says which chapters the document that is written has: one for each item
/// of the spine that the resources have a path for, in the order of the
/// spine, with the content that was worked on where there is such content.
pub fn plan_chapters(
    spine: &Vec<String>,
    resources: &Vec<(String, String)>,
    edited: &Vec<(String, String)>,
) -> (chapters: Vec<Chapter>)
    ensures
        chapter_views(chapters@) == chapters_of(
            spine.deep_view(),
            pair_views(resources@),
            pair_views(edited@),
        ),
{
    let ghost items = spine.deep_view();
    let mut chapters: Vec<Chapter> = Vec::new();
    let mut s: usize = 0;
    assert(items.take(0) =~= Seq::empty());
    assert(chapter_views(chapters@) =~= Seq::empty());
    while s < spine.len()
        invariant
            s <= spine.len(),
            items == spine.deep_view(),
            chapter_views(chapters@) == chapters_of(
                items.take(s as int),
                pair_views(resources@),
                pair_views(edited@),
            ),
        decreases spine.len() - s,
    {
        proof {
            assert(items.take(s + 1).drop_last() =~= items.take(s as int));
            assert(items.take(s + 1).last() == spine[s as int]@);
        }
        match find_value(resources, &spine[s]) {
            Some(r) => {
                let source = match find_value(edited, &spine[s]) {
                    Some(e) => ChapterSource::Edited { content: edited[e].1.clone() },
                    None => ChapterSource::Unchanged,
                };
                let ghost before = chapter_views(chapters@);
                let chapter = Chapter {
                    id: spine[s].clone(),
                    path: resources[r].1.clone(),
                    source,
                };
                chapters.push(chapter);
                assert(chapter_views(chapters@) =~= before.push(chapter@));
            },
            None => {},
        }
        s += 1;
    }
    assert(items.take(s as int) =~= items);
    chapters
}

/// The name of metadata field `i` among those that are kept.
pub open spec fn kept_field(i: int) -> Seq<char> {
    if i == 0 {
        "title"@
    } else if i == 1 {
        "contributor"@
    } else if i == 2 {
        "description"@
    } else {
        "subject"@
    }
}

/// The number of metadata fields that are kept.
pub const KEPT_FIELDS: usize = 4;

/// The entries of the first `count` kept fields: for each field, in the
/// order of the fields, its values among the metadata of the source, in
/// their order.
pub open spec fn kept_metadata(metadata: Seq<(Seq<char>, Seq<char>)>, count: int) -> Seq<
    (Seq<char>, Seq<char>),
>
    decreases count,
{
    if count <= 0 {
        Seq::empty()
    } else {
        kept_metadata(metadata, count - 1) + metadata.filter(
            |entry: (Seq<char>, Seq<char>)| entry.0 == kept_field(count - 1),
        )
    }
}

/// The name of metadata field `i` among those that are kept.
fn field_name(i: usize) -> (name: String)
    requires
        i < KEPT_FIELDS,
    ensures
        name@ == kept_field(i as int),
{
    if i == 0 {
        "title".to_owned()
    } else if i == 1 {
        "contributor".to_owned()
    } else if i == 2 {
        "description".to_owned()
    } else {
        "subject".to_owned()
    }
}

/// Picks the metadata that the document that is written keeps: the titles,
/// the contributors, the descriptions and the subjects, field after field
/// in this order, and within a field in the order of the source.
pub fn metadata_to_keep(metadata: &Vec<(String, String)>) -> (kept: Vec<(String, String)>)
    ensures
        pair_views(kept@) == kept_metadata(pair_views(metadata@), KEPT_FIELDS as int),
{
    let ghost all = pair_views(metadata@);
    let mut kept: Vec<(String, String)> = Vec::new();
    let mut f: usize = 0;
    assert(pair_views(kept@) =~= Seq::empty());
    while f < KEPT_FIELDS
        invariant
            f <= KEPT_FIELDS,
            all == pair_views(metadata@),
            pair_views(kept@) == kept_metadata(all, f as int),
        decreases KEPT_FIELDS - f,
    {
        let name = field_name(f);
        let ghost wanted = |entry: (Seq<char>, Seq<char>)| entry.0 == kept_field(f as int);
        let ghost before = pair_views(kept@);
        let mut i: usize = 0;
        assert(all.take(0) =~= Seq::empty());
        assert(before + all.take(0).filter(wanted) =~= before) by {
            reveal(Seq::filter);
        }
        while i < metadata.len()
            invariant
                i <= metadata.len(),
                all == pair_views(metadata@),
                name@ == kept_field(f as int),
                wanted == |entry: (Seq<char>, Seq<char>)| entry.0 == kept_field(f as int),
                pair_views(kept@) == before + all.take(i as int).filter(wanted),
            decreases metadata.len() - i,
        {
            let ghost so_far = pair_views(kept@);
            proof {
                assert(all.take(i + 1).drop_last() =~= all.take(i as int));
                assert(all.take(i + 1).last() == all[i as int]);
                reveal(Seq::filter);
            }
            if metadata[i].0 == name {
                let entry = (metadata[i].0.clone(), metadata[i].1.clone());
                kept.push(entry);
                assert(pair_views(kept@) =~= so_far.push(all[i as int]));
            }
            i += 1;
        }
        assert(all.take(i as int) =~= all);
        f += 1;
    }
    kept
}

} // verus!
