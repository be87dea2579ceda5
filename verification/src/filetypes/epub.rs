//! Markup documents: the text between the tags is taken out, and put back
//! translated, while the tags stay as they are.

use vstd::prelude::*;
use vstd::string::*;
use vstd::utf8::encode_utf8;
use crate::filetypes::markup::{
    mapping_of, protected, replace_special_tags, restore_outcome, restore_special_tags,
    special_tags, IntegrityError,
};

verus! {

/// A markup document as the crate `tl` holds it after parsing.
#[verifier::external_type_specification]
#[verifier::external_body]
pub struct ExVDom<'a>(tl::VDom<'a>);

/// A run of bytes as the crate `tl` holds it.
#[verifier::external_type_specification]
#[verifier::external_body]
pub struct ExBytes<'a>(tl::Bytes<'a>);

/// The error of the crate `tl` for a document that is too long to parse.
#[verifier::external_type_specification]
#[verifier::external_body]
pub struct ExParseError(tl::ParseError);

/// The error of the crate `tl` for a text that is too long to hold.
#[verifier::external_type_specification]
#[verifier::external_body]
pub struct ExSetBytesError(tl::errors::SetBytesError);

/// The number of bytes that a text takes.
pub open spec fn byte_len(text: Seq<char>) -> nat {
    encode_utf8(text).len()
}

/// The longest text, in bytes, that can be parsed or put into a node.
pub const MAX_BYTES: usize = 0xffff_ffff;

/// The nodes of a parsed document in the order of the document: for a node
/// of plain text its text, for any other node `None`.
pub uninterp spec fn dom_nodes(dom: tl::VDom) -> Seq<Option<Seq<char>>>;

/// The nodes of the document that parsing a text gives.
pub uninterp spec fn parsed_nodes(html: Seq<char>) -> Seq<Option<Seq<char>>>;

/// The markup that a parsed document is written out as.
pub uninterp spec fn dom_markup(dom: tl::VDom) -> Seq<char>;

/// The text that a run of bytes holds.
pub uninterp spec fn bytes_text(bytes: tl::Bytes) -> Seq<char>;

/// Calls `tl::parse` with the default options. It fails on a text of more
/// than `u32::MAX` bytes and on no other. The contract states that, gives
/// the nodes of the parsed document the name `parsed_nodes`, and claims
/// nothing else of them.
#[verifier::external_body]
fn parse_markup<'a>(html: &'a str) -> (parsed: Result<tl::VDom<'a>, tl::ParseError>)
    ensures
        parsed is Err <==> byte_len(html@) > MAX_BYTES,
        parsed matches Ok(dom) ==> dom_nodes(dom) == parsed_nodes(html@),
{
    tl::parse(html, tl::ParserOptions::default())
}

/// Calls `tl::VDom::nodes`, which hands out all nodes of the document, for
/// their number. The contract says that it is the number of the nodes that
/// `dom_nodes` names.
#[verifier::external_body]
fn node_count(dom: &tl::VDom) -> (count: usize)
    ensures
        count == dom_nodes(*dom).len(),
{
    dom.nodes().len()
}

/// Calls `tl::Parser::resolve_node_id`, which hands out the node with the
/// given number if there is one, and takes the text of a node of plain
/// text. The contract says that the answer is what `dom_nodes` names at
/// that place, and `None` where there is no such place.
#[verifier::external_body]
fn raw_text(dom: &tl::VDom, id: u32) -> (text: Option<String>)
    ensures
        match text {
            Some(text) => id < dom_nodes(*dom).len() && dom_nodes(*dom)[id as int] == Some(text@),
            None => id >= dom_nodes(*dom).len() || dom_nodes(*dom)[id as int] is None,
        },
{
    match dom.parser().resolve_node_id(id) {
        Some(tl::Node::Raw(bytes)) => Some(bytes.as_utf8_str().to_string()),
        _ => None,
    }
}

/// Calls `tl::Bytes::set` on an empty run of bytes, which takes a copy of
/// the text. It fails on a text of more than `u32::MAX` bytes and on no
/// other. The contract states that, and that the bytes hold the text.
#[verifier::external_body]
fn owned_bytes(text: &str) -> (made: Result<tl::Bytes<'static>, tl::errors::SetBytesError>)
    ensures
        made is Err <==> byte_len(text@) > MAX_BYTES,
        made matches Ok(bytes) ==> bytes_text(bytes) == text@,
{
    let mut bytes = tl::Bytes::new();
    bytes.set(text.as_bytes())?;
    Ok(bytes)
}

/// Calls `tl::Parser::resolve_node_id_mut`, which hands out the node with
/// the given number if there is one, and puts a node of plain text with the
/// given bytes in its place. The contract says that the nodes are as before
/// but for that one, which now is plain text with the text of the bytes,
/// and that a number that no node has changes nothing.
#[verifier::external_body]
fn replace_node<'a>(dom: &mut tl::VDom<'a>, id: u32, bytes: tl::Bytes<'a>)
    ensures
        dom_nodes(*final(dom)) == if id < dom_nodes(*old(dom)).len() {
            dom_nodes(*old(dom)).update(id as int, Some(bytes_text(bytes)))
        } else {
            dom_nodes(*old(dom))
        },
{
    if let Some(node) = dom.parser_mut().resolve_node_id_mut(id) {
        *node = tl::Node::Raw(bytes);
    }
}

/// Calls `tl::VDom::outer_html`, which writes the document out as markup.
/// The contract gives the markup the name `dom_markup` and claims nothing
/// else of it.
#[verifier::external_body]
fn outer_html(dom: &tl::VDom) -> (markup: String)
    ensures
        markup@ == dom_markup(*dom),
{
    dom.outer_html()
}

/// A piece of text of a markup document, and the node that holds it.
#[derive(Debug)]
pub struct TextNode {
    /// The number of the node in the document.
    pub id: u32,
    /// The text of the node.
    pub text: String,
}

impl View for TextNode {
    type V = (u32, Seq<char>);

    open spec fn view(&self) -> (u32, Seq<char>) {
        (self.id, self.text@)
    }
}

/// The text nodes as mathematical values.
pub open spec fn text_node_views(nodes: Seq<TextNode>) -> Seq<(u32, Seq<char>)> {
    nodes.map_values(|node: TextNode| node@)
}

/// The nodes of plain text among the first `end` nodes, each with its
/// number, in the order of the document.
pub open spec fn text_nodes_upto(nodes: Seq<Option<Seq<char>>>, end: int) -> Seq<(u32, Seq<char>)>
    decreases end,
{
    if end <= 0 {
        Seq::empty()
    } else {
        let before = text_nodes_upto(nodes, end - 1);
        match nodes[end - 1] {
            Some(text) => before.push(((end - 1) as u32, text)),
            None => before,
        }
    }
}

/// The number of nodes that can be told apart by their numbers.
pub open spec fn reach(nodes: Seq<Option<Seq<char>>>) -> int {
    if nodes.len() <= MAX_BYTES {
        nodes.len() as int
    } else {
        MAX_BYTES as int + 1
    }
}

/// The nodes of plain text, each with its number, in the order of the
/// document.
pub open spec fn text_nodes(nodes: Seq<Option<Seq<char>>>) -> Seq<(u32, Seq<char>)> {
    text_nodes_upto(nodes, reach(nodes))
}

/// The texts of the nodes of plain text, in the order of the document.
pub open spec fn snippets_of(nodes: Seq<Option<Seq<char>>>) -> Seq<Seq<char>> {
    text_nodes(nodes).map_values(|node: (u32, Seq<char>)| node.1)
}

/// The nodes after the first `count` texts were put into the nodes with the
/// given numbers, text `j` into node `ids[j]`. A number that no node has
/// changes nothing.
pub open spec fn written(
    nodes: Seq<Option<Seq<char>>>,
    ids: Seq<u32>,
    texts: Seq<Seq<char>>,
    count: int,
) -> Seq<Option<Seq<char>>>
    decreases count,
{
    if count <= 0 {
        nodes
    } else {
        let before = written(nodes, ids, texts, count - 1);
        if ids[count - 1] < before.len() {
            before.update(ids[count - 1] as int, Some(texts[count - 1]))
        } else {
            before
        }
    }
}

/// What the nodes of plain text among the first `end` nodes are like: each
/// has a number below `end` at which the nodes hold its text, and the
/// numbers grow.
pub proof fn lemma_text_nodes(nodes: Seq<Option<Seq<char>>>, end: int)
    requires
        0 <= end <= reach(nodes),
    ensures
        text_nodes_upto(nodes, end).len() <= end,
        forall|j: int|
            0 <= j < text_nodes_upto(nodes, end).len() ==> (#[trigger] text_nodes_upto(
                nodes,
                end,
            )[j]).0 < end && nodes[text_nodes_upto(nodes, end)[j].0 as int] == Some(
                text_nodes_upto(nodes, end)[j].1,
            ),
        forall|j: int, k: int|
            0 <= j < k < text_nodes_upto(nodes, end).len() ==> (#[trigger] text_nodes_upto(
                nodes,
                end,
            )[j]).0 < (#[trigger] text_nodes_upto(nodes, end)[k]).0,
    decreases end,
{
    if end > 0 {
        lemma_text_nodes(nodes, end - 1);
        let before = text_nodes_upto(nodes, end - 1);
        let here = text_nodes_upto(nodes, end);
        assert forall|j: int| 0 <= j < here.len() implies (#[trigger] here[j]).0 < end
            && nodes[here[j].0 as int] == Some(here[j].1) by {
            if j < before.len() {
                assert(here[j] == before[j]);
            }
        }
        assert forall|j: int, k: int| 0 <= j < k < here.len() implies (#[trigger] here[j]).0 < (
        #[trigger] here[k]).0 by {
            assert(here[j] == before[j]);
            if k < before.len() {
                assert(here[k] == before[k]);
            }
        }
    }
}

/// What writing does: the nodes stay as many; a node whose number is not
/// among the first `count` numbers stays as it is.
pub proof fn lemma_written_keeps(
    nodes: Seq<Option<Seq<char>>>,
    ids: Seq<u32>,
    texts: Seq<Seq<char>>,
    count: int,
    n: int,
)
    requires
        0 <= count <= ids.len(),
        0 <= n < nodes.len(),
        forall|j: int| 0 <= j < count ==> #[trigger] ids[j] != n,
    ensures
        written(nodes, ids, texts, count).len() == nodes.len(),
        written(nodes, ids, texts, count)[n] == nodes[n],
    decreases count,
{
    if count > 0 {
        lemma_written_keeps(nodes, ids, texts, count - 1, n);
        assert(ids[count - 1] != n);
    }
}

/// What writing does: the nodes stay as many, and where the numbers differ
/// from one another and are numbers of nodes, the node with number `j` of
/// the first `count` holds text `j`.
pub proof fn lemma_written_holds(
    nodes: Seq<Option<Seq<char>>>,
    ids: Seq<u32>,
    texts: Seq<Seq<char>>,
    count: int,
    j: int,
)
    requires
        0 <= j < count <= ids.len(),
        forall|a: int| 0 <= a < ids.len() ==> (#[trigger] ids[a]) < nodes.len(),
        forall|a: int, b: int| 0 <= a < b < ids.len() ==> #[trigger] ids[a] != #[trigger] ids[b],
    ensures
        written(nodes, ids, texts, count).len() == nodes.len(),
        written(nodes, ids, texts, count)[ids[j] as int] == Some(texts[j]),
    decreases count,
{
    lemma_written_len(nodes, ids, texts, count - 1);
    if j < count - 1 {
        lemma_written_holds(nodes, ids, texts, count - 1, j);
        assert(ids[j] != ids[count - 1]);
    }
}

/// Writing leaves the nodes as many as they were.
pub proof fn lemma_written_len(
    nodes: Seq<Option<Seq<char>>>,
    ids: Seq<u32>,
    texts: Seq<Seq<char>>,
    count: int,
)
    ensures
        written(nodes, ids, texts, count).len() == nodes.len(),
    decreases count,
{
    if count > 0 {
        lemma_written_len(nodes, ids, texts, count - 1);
    }
}

/// Text `i` goes to the `i`th node of plain text: after the texts were
/// written into the nodes of plain text of a document, one text for each
/// in the order of the document, the `i`th node of plain text holds text
/// `i`.
pub proof fn lemma_texts_are_written_in_order(
    nodes: Seq<Option<Seq<char>>>,
    texts: Seq<Seq<char>>,
    i: int,
)
    requires
        text_nodes(nodes).len() == texts.len(),
        0 <= i < texts.len(),
    ensures
        ({
            let targets = text_nodes(nodes);
            let after = written(nodes, ids_of(targets), texts, texts.len() as int);
            &&& after.len() == nodes.len()
            &&& targets[i].0 < nodes.len()
            &&& nodes[targets[i].0 as int] == Some(targets[i].1)
            &&& after[targets[i].0 as int] == Some(texts[i])
        }),
{
    let targets = text_nodes(nodes);
    let ids = ids_of(targets);
    lemma_text_nodes(nodes, reach(nodes));
    assert forall|a: int| 0 <= a < ids.len() implies (#[trigger] ids[a]) < nodes.len() by {
        assert(ids[a] == targets[a].0);
    }
    assert forall|a: int, b: int| 0 <= a < b < ids.len() implies #[trigger] ids[a]
        != #[trigger] ids[b] by {
        assert(ids[a] == targets[a].0 && ids[b] == targets[b].0);
    }
    lemma_written_holds(nodes, ids, texts, texts.len() as int, i);
    assert(ids[i] == targets[i].0);
}

/// A node that is no plain text is left as it is when the texts are
/// written.
pub proof fn lemma_other_nodes_stay(nodes: Seq<Option<Seq<char>>>, texts: Seq<Seq<char>>, n: int)
    requires
        text_nodes(nodes).len() == texts.len(),
        0 <= n < nodes.len(),
        nodes[n] is None,
    ensures
        written(nodes, ids_of(text_nodes(nodes)), texts, texts.len() as int)[n] is None,
{
    let targets = text_nodes(nodes);
    let ids = ids_of(targets);
    lemma_text_nodes(nodes, reach(nodes));
    assert forall|j: int| 0 <= j < texts.len() implies #[trigger] ids[j] != n by {
        assert(ids[j] == targets[j].0);
        assert(nodes[targets[j].0 as int] is Some);
    }
    lemma_written_keeps(nodes, ids, texts, texts.len() as int, n);
}

/// Why a markup document could not be worked on.
#[derive(Clone, Copy, Debug, PartialEq, Eq, Structural)]
pub enum MarkupError {
    /// The document is too long to parse.
    TooLong,
    /// There is not one text for each node of plain text.
    SnippetCount { expected: usize, found: usize },
    /// The text with this index is too long to put into a node.
    TextTooLong { snippet: usize },
    /// The placeholders did not come through.
    Integrity(IntegrityError),
}

/// Collects the nodes of plain text, each with its number, in the order of
/// the document.
pub fn collect_text_nodes(dom: &tl::VDom) -> (found: Vec<TextNode>)
    ensures
        text_node_views(found@) == text_nodes(dom_nodes(*dom)),
{
    let count = node_count(dom);
    let ghost nodes = dom_nodes(*dom);
    let mut found: Vec<TextNode> = Vec::new();
    let mut id: u32 = 0;
    while (id as usize) < count
        invariant
            nodes == dom_nodes(*dom),
            count == nodes.len(),
            id <= reach(nodes),
            text_node_views(found@) == text_nodes_upto(nodes, id as int),
        decreases reach(nodes) - id,
    {
        let ghost before = text_node_views(found@);
        match raw_text(dom, id) {
            Some(text) => {
                found.push(TextNode { id, text });
                assert(text_node_views(found@) =~= before.push((id, text@)));
            },
            None => {},
        }
        if id == u32::MAX {
            return found;
        }
        id += 1;
    }
    found
}

/// The first text that is too long to put into a node, if there is one.
pub open spec fn first_too_long(texts: Seq<Seq<char>>, from: int) -> Option<int>
    decreases texts.len() - from,
{
    if from < 0 || from >= texts.len() {
        None
    } else if byte_len(texts[from]) > MAX_BYTES {
        Some(from)
    } else {
        first_too_long(texts, from + 1)
    }
}

/// Puts the texts into the nodes with the given numbers, text `j` into node
/// `ids[j]`, one after the other. It stops before the first text that is
/// too long, and its index is the answer.
fn write_text_nodes(dom: &mut tl::VDom, ids: &Vec<u32>, texts: &Vec<String>) -> (done: Result<
    (),
    usize,
>)
    requires
        ids.len() == texts.len(),
    ensures
        match done {
            Ok(_) => first_too_long(texts.deep_view(), 0) is None && dom_nodes(*final(dom))
                == written(dom_nodes(*old(dom)), ids@, texts.deep_view(), texts.len() as int),
            Err(j) => first_too_long(texts.deep_view(), 0) == Some(j as int) && j < texts.len()
                && dom_nodes(*final(dom)) == written(
                dom_nodes(*old(dom)),
                ids@,
                texts.deep_view(),
                j as int,
            ),
        },
{
    let ghost start = dom_nodes(*dom);
    let ghost all = texts.deep_view();
    let mut j: usize = 0;
    while j < texts.len()
        invariant
            j <= texts.len(),
            start == dom_nodes(*old(dom)),
            ids.len() == texts.len(),
            all == texts.deep_view(),
            first_too_long(all, 0) == first_too_long(all, j as int),
            dom_nodes(*dom) == written(start, ids@, all, j as int),
        decreases texts.len() - j,
    {
        assert(all[j as int] == texts[j as int]@);
        match owned_bytes(texts[j].as_str()) {
            Ok(bytes) => {
                replace_node(dom, ids[j], bytes);
            },
            Err(_) => {
                return Err(j);
            },
        }
        j += 1;
    }
    Ok(())
}

/// The texts of a markup document that are to be translated: its structural
/// tags give way to placeholders, the rest is parsed, and the text of each
/// node of plain text is taken, in the order of the document.
pub fn html_snippets(html: &str) -> (found: Result<Vec<String>, MarkupError>)
    ensures
        match found {
            Ok(texts) => byte_len(protected(html@)) <= MAX_BYTES
                && texts.deep_view() == snippets_of(
                parsed_nodes(protected(html@)),
            ),
            Err(fault) => byte_len(protected(html@)) > MAX_BYTES && fault
                == MarkupError::TooLong,
        },
{
    let (guarded, _) = replace_special_tags(html);
    let dom = match parse_markup(guarded.as_str()) {
        Ok(dom) => dom,
        Err(_) => {
            return Err(MarkupError::TooLong);
        },
    };
    let nodes = collect_text_nodes(&dom);
    let mut texts: Vec<String> = Vec::new();
    let mut i: usize = 0;
    while i < nodes.len()
        invariant
            i <= nodes.len(),
            texts.len() == i,
            forall|j: int| 0 <= j < i ==> (#[trigger] texts[j])@ == nodes[j].text@,
        decreases nodes.len() - i,
    {
        texts.push(nodes[i].text.clone());
        i += 1;
    }
    assert(texts.deep_view() =~= snippets_of(dom_nodes(dom))) by {
        assert forall|j: int| 0 <= j < texts.len() implies texts.deep_view()[j] == snippets_of(
            dom_nodes(dom),
        )[j] by {
            assert(text_node_views(nodes@)[j] == nodes[j]@);
        }
    }
    Ok(texts)
}

/// The numbers of the text nodes.
pub open spec fn ids_of(nodes: Seq<(u32, Seq<char>)>) -> Seq<u32> {
    nodes.map_values(|node: (u32, Seq<char>)| node.0)
}

/// What `edit_html` answers where the document, once the texts are put into
/// it, is written out as `markup`.
pub open spec fn edited(markup: Seq<char>, tags: Seq<Seq<char>>) -> Result<Seq<char>, MarkupError> {
    match restore_outcome(markup, mapping_of(tags)) {
        Ok(text) => Ok(text),
        Err(fault) => Err(MarkupError::Integrity(fault)),
    }
}

/// Puts the translated texts into a markup document: its structural tags
/// give way to placeholders, the rest is parsed, text `j` takes the place of
/// the `j`th node of plain text, the document is written out again, and the
/// tags are put back in the place of their placeholders.
///
/// There must be one text for each node of plain text, none of them too
/// long, and each placeholder must come through exactly once: else the
/// answer says what is wrong.
pub fn edit_html(html: &str, translated: &Vec<String>) -> (done: Result<String, MarkupError>)
    ensures
        ({
            let tags = special_tags(html@);
            let guarded = protected(html@);
            let nodes = parsed_nodes(guarded);
            let targets = text_nodes(nodes);
            let texts = translated.deep_view();
            if byte_len(guarded) > MAX_BYTES {
                done == Err::<String, MarkupError>(MarkupError::TooLong)
            } else if targets.len() != texts.len() {
                done == Err::<String, MarkupError>(
                    MarkupError::SnippetCount {
                        expected: targets.len() as usize,
                        found: texts.len() as usize,
                    },
                )
            } else if first_too_long(texts, 0) is Some {
                done == Err::<String, MarkupError>(
                    MarkupError::TextTooLong { snippet: first_too_long(texts, 0)->Some_0 as usize },
                )
            } else {
                exists|dom: tl::VDom|
                    dom_nodes(dom) == written(nodes, ids_of(targets), texts, texts.len() as int)
                        && match done {
                        Ok(text) => edited(#[trigger] dom_markup(dom), tags) == Ok::<
                            Seq<char>,
                            MarkupError,
                        >(text@),
                        Err(fault) => edited(dom_markup(dom), tags) == Err::<
                            Seq<char>,
                            MarkupError,
                        >(fault),
                    }
            }
        }),
{
    let (guarded, mapping) = replace_special_tags(html);
    let ghost tags = special_tags(html@);
    let mut dom = match parse_markup(guarded.as_str()) {
        Ok(dom) => dom,
        Err(_) => {
            return Err(MarkupError::TooLong);
        },
    };
    let ghost nodes = dom_nodes(dom);
    let targets = collect_text_nodes(&dom);
    if targets.len() != translated.len() {
        return Err(
            MarkupError::SnippetCount { expected: targets.len(), found: translated.len() },
        );
    }
    let mut ids: Vec<u32> = Vec::new();
    let mut i: usize = 0;
    while i < targets.len()
        invariant
            i <= targets.len(),
            ids@ == ids_of(text_node_views(targets@)).take(i as int),
        decreases targets.len() - i,
    {
        ids.push(targets[i].id);
        assert(ids_of(text_node_views(targets@)).take(i + 1) =~= ids_of(
            text_node_views(targets@),
        ).take(i as int).push(targets[i as int].id));
        i += 1;
    }
    assert(ids_of(text_node_views(targets@)).take(i as int) =~= ids_of(text_node_views(targets@)));
    match write_text_nodes(&mut dom, &ids, translated) {
        Ok(_) => {},
        Err(snippet) => {
            return Err(MarkupError::TextTooLong { snippet });
        },
    }
    let markup = outer_html(&dom);
    match restore_special_tags(markup, mapping) {
        Ok(text) => Ok(text),
        Err(fault) => Err(MarkupError::Integrity(fault)),
    }
}

/// Tells whether a resource of the given type is a markup document whose
/// text is translated.
pub fn is_markup(mime: &str) -> (is: bool)
    ensures
        is == (mime@ == "application/xhtml+xml"@),
{
    let kind = "application/xhtml+xml".to_owned();
    mime.to_owned() == kind
}

} // verus!
