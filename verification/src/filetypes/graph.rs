//! The objects of a document that is being put together, each under an
//! identifier of its own.

use vstd::prelude::*;
use crate::filetypes::content::ObjectId;

verus! {

/// Why a document could not be put together.
#[derive(Clone, Copy, Debug, PartialEq, Eq, Structural)]
pub enum AssemblyError {
    /// The object numbers are used up.
    ObjectIdOverflow,
    /// The instructions of the page with this index could not be encoded.
    Encoding { page: usize },
}

/// A name that stands for an object.
#[derive(Debug)]
pub struct NamedReference {
    pub name: String,
    pub id: ObjectId,
}

impl View for NamedReference {
    type V = (Seq<char>, ObjectId);

    open spec fn view(&self) -> (Seq<char>, ObjectId) {
        (self.name@, self.id)
    }
}

/// The named references as mathematical values.
pub open spec fn table_view(table: Seq<NamedReference>) -> Seq<(Seq<char>, ObjectId)> {
    table.map_values(|entry: NamedReference| entry@)
}

/// What stands behind a key of a dictionary.
#[derive(Debug)]
pub enum Value {
    /// A whole number.
    Integer(i64),
    /// A name.
    Name(String),
    /// The object with this identifier.
    Reference(ObjectId),
    /// An array of whole numbers.
    Integers(Vec<i64>),
    /// An array of names.
    Names(Vec<String>),
    /// An array of objects, given by their identifiers.
    References(Vec<ObjectId>),
    /// A dictionary that gives names to objects.
    Table(Vec<NamedReference>),
}

/// A `Value` as a mathematical value.
pub enum ValueView {
    Integer(i64),
    Name(Seq<char>),
    Reference(ObjectId),
    Integers(Seq<i64>),
    Names(Seq<Seq<char>>),
    References(Seq<ObjectId>),
    Table(Seq<(Seq<char>, ObjectId)>),
}

impl View for Value {
    type V = ValueView;

    open spec fn view(&self) -> ValueView {
        match self {
            Value::Integer(number) => ValueView::Integer(*number),
            Value::Name(name) => ValueView::Name(name@),
            Value::Reference(id) => ValueView::Reference(*id),
            Value::Integers(numbers) => ValueView::Integers(numbers@),
            Value::Names(names) => ValueView::Names(names.deep_view()),
            Value::References(ids) => ValueView::References(ids@),
            Value::Table(table) => ValueView::Table(table_view(table@)),
        }
    }
}

/// A key of a dictionary and what stands behind it.
#[derive(Debug)]
pub struct Entry {
    pub key: String,
    pub value: Value,
}

impl View for Entry {
    type V = (Seq<char>, ValueView);

    open spec fn view(&self) -> (Seq<char>, ValueView) {
        (self.key@, self.value@)
    }
}

/// The entries of a dictionary as mathematical values.
pub open spec fn entries_view(entries: Seq<Entry>) -> Seq<(Seq<char>, ValueView)> {
    entries.map_values(|entry: Entry| entry@)
}

/// An object of a document.
#[derive(Debug)]
pub enum Object {
    /// A dictionary: its entries in the order in which they were written.
    Dictionary(Vec<Entry>),
    /// A stream: a dictionary that describes the data, and the data. The
    /// length of the data is not among the entries: whoever writes the
    /// document out adds it.
    Stream { dictionary: Vec<Entry>, content: Vec<u8> },
}

/// An `Object` as a mathematical value.
pub enum ObjectView {
    Dictionary(Seq<(Seq<char>, ValueView)>),
    Stream { dictionary: Seq<(Seq<char>, ValueView)>, content: Seq<u8> },
}

impl View for Object {
    type V = ObjectView;

    open spec fn view(&self) -> ObjectView {
        match self {
            Object::Dictionary(entries) => ObjectView::Dictionary(entries_view(entries@)),
            Object::Stream { dictionary, content } => ObjectView::Stream {
                dictionary: entries_view(dictionary@),
                content: content@,
            },
        }
    }
}

/// An object under its identifier.
#[derive(Debug)]
pub struct Slot {
    pub id: ObjectId,
    pub object: Object,
}

impl View for Slot {
    type V = (ObjectId, ObjectView);

    open spec fn view(&self) -> (ObjectId, ObjectView) {
        (self.id, self.object@)
    }
}

/// A document that is being put together, as a mathematical value.
pub struct GraphView {
    /// The version of the format that the document keeps to.
    pub version: Seq<char>,
    /// The objects under their identifiers, in the order in which they came.
    pub objects: Seq<(ObjectId, ObjectView)>,
    /// The highest object number that was given out.
    pub max_id: u32,
    /// The identifier of the root object, once it is set.
    pub root: Option<ObjectId>,
}

impl GraphView {
    /// A document without objects.
    pub open spec fn empty(version: Seq<char>) -> Self {
        GraphView { version, objects: Seq::empty(), max_id: 0, root: None }
    }

    /// No identifier stands twice, and none is beyond those given out.
    pub open spec fn wf(self) -> bool {
        &&& forall|i: int, j: int|
            0 <= i < j < self.objects.len() ==> (#[trigger] self.objects[i]).0 != (
            #[trigger] self.objects[j]).0
        &&& forall|i: int|
            0 <= i < self.objects.len() ==> (#[trigger] self.objects[i]).0.0 <= self.max_id
    }

    /// The identifier that is given out next.
    pub open spec fn next_id(self) -> ObjectId {
        ((self.max_id + 1) as u32, 0u16)
    }

    /// The document after the next identifier has been given out.
    pub open spec fn reserve(self) -> Self {
        GraphView { max_id: (self.max_id + 1) as u32, ..self }
    }

    /// The document after an object came in under the next identifier.
    pub open spec fn add(self, object: ObjectView) -> Self {
        GraphView {
            max_id: (self.max_id + 1) as u32,
            objects: self.objects.push((self.next_id(), object)),
            ..self
        }
    }

    /// The place, from `from` on, of the first object that stands under
    /// `id`, if there is one.
    pub open spec fn position_from(self, id: ObjectId, from: int) -> Option<int>
        decreases self.objects.len() - from,
    {
        if from < 0 || from >= self.objects.len() {
            None
        } else if self.objects[from].0 == id {
            Some(from)
        } else {
            self.position_from(id, from + 1)
        }
    }

    /// The place of the first object that stands under `id`, if there is
    /// one.
    pub open spec fn position(self, id: ObjectId) -> Option<int> {
        self.position_from(id, 0)
    }

    /// The object that stands under `id`, if any.
    pub open spec fn object(self, id: ObjectId) -> Option<ObjectView> {
        match self.position(id) {
            Some(i) => Some(self.objects[i].1),
            None => None,
        }
    }

    /// The document after an object was put under `id`: in the place of the
    /// one that stood there, or else behind all others.
    pub open spec fn set(self, id: ObjectId, object: ObjectView) -> Self {
        match self.position(id) {
            Some(i) => GraphView { objects: self.objects.update(i, (id, object)), ..self },
            None => GraphView { objects: self.objects.push((id, object)), ..self },
        }
    }

    /// The document with `id` as its root.
    pub open spec fn with_root(self, id: ObjectId) -> Self {
        GraphView { root: Some(id), ..self }
    }
}

/// A document that is being put together: objects come in, each under an
/// identifier, and none leaves.
#[derive(Debug)]
pub struct DocumentGraph {
    /// The version of the format that the document keeps to.
    pub version: String,
    /// The objects under their identifiers, in the order in which they came.
    pub objects: Vec<Slot>,
    /// The highest object number that was given out.
    pub max_id: u32,
    /// The identifier of the root object, once it is set.
    pub root: Option<ObjectId>,
}

impl View for DocumentGraph {
    type V = GraphView;

    open spec fn view(&self) -> GraphView {
        GraphView {
            version: self.version@,
            objects: self.objects@.map_values(|slot: Slot| slot@),
            max_id: self.max_id,
            root: self.root,
        }
    }
}

impl DocumentGraph {
    /// A document of the given version without objects.
    pub fn with_version(version: &str) -> (graph: Self)
        ensures
            graph@ == GraphView::empty(version@),
            graph@.wf(),
    {
        let graph = DocumentGraph {
            version: version.to_owned(),
            objects: Vec::new(),
            max_id: 0,
            root: None,
        };
        assert(graph@.objects =~= Seq::empty());
        graph
    }

    /// Gives out the next identifier, for an object that comes in later.
    pub fn new_object_id(&mut self) -> (id: Result<ObjectId, AssemblyError>)
        requires
            old(self)@.wf(),
        ensures
            final(self)@.wf(),
            match id {
                Ok(id) => {
                    &&& old(self).max_id < u32::MAX
                    &&& id == old(self)@.next_id()
                    &&& final(self)@ == old(self)@.reserve()
                },
                Err(fault) => {
                    &&& old(self).max_id == u32::MAX
                    &&& fault == AssemblyError::ObjectIdOverflow
                    &&& final(self)@ == old(self)@
                },
            },
    {
        if self.max_id == u32::MAX {
            return Err(AssemblyError::ObjectIdOverflow);
        }
        self.max_id = self.max_id + 1;
        Ok((self.max_id, 0))
    }

    /// Takes an object in under the next identifier.
    pub fn add_object(&mut self, object: Object) -> (id: Result<ObjectId, AssemblyError>)
        requires
            old(self)@.wf(),
        ensures
            final(self)@.wf(),
            match id {
                Ok(id) => {
                    &&& old(self).max_id < u32::MAX
                    &&& id == old(self)@.next_id()
                    &&& final(self)@ == old(self)@.add(object@)
                },
                Err(fault) => {
                    &&& old(self).max_id == u32::MAX
                    &&& fault == AssemblyError::ObjectIdOverflow
                    &&& final(self)@ == old(self)@
                },
            },
    {
        if self.max_id == u32::MAX {
            return Err(AssemblyError::ObjectIdOverflow);
        }
        self.max_id = self.max_id + 1;
        let id = (self.max_id, 0u16);
        self.objects.push(Slot { id, object });
        assert(self@.objects =~= old(self)@.add(object@).objects);
        Ok(id)
    }

    /// Puts an object under an identifier that was given out: in the place of
    /// the one that stands there, or else behind all others.
    pub fn set_object(&mut self, id: ObjectId, object: Object)
        requires
            old(self)@.wf(),
            id.0 <= old(self).max_id,
        ensures
            final(self)@.wf(),
            final(self)@ == old(self)@.set(id, object@),
    {
        let ghost before = self@;
        let mut i: usize = 0;
        while i < self.objects.len()
            invariant
                i <= self.objects.len(),
                self@ == before,
                before == old(self)@,
                before.wf(),
                id.0 <= before.max_id,
                before.position(id) == before.position_from(id, i as int),
            decreases self.objects.len() - i,
        {
            let here = self.objects[i].id;
            if here.0 == id.0 && here.1 == id.1 {
                assert(before.objects[i as int].0 == id);
                self.objects.set(i, Slot { id, object });
                assert(self@.objects =~= before.set(id, object@).objects);
                return ;
            }
            assert(before.objects[i as int].0 != id);
            i += 1;
        }
        proof {
            Self::lemma_position(before, id, 0);
        }
        self.objects.push(Slot { id, object });
        assert(self@.objects =~= before.set(id, object@).objects);
    }

    /// The place that `position` gives is a place of the document, and the
    /// object there stands under `id`.
    pub proof fn lemma_position(graph: GraphView, id: ObjectId, from: int)
        requires
            0 <= from,
        ensures
            match graph.position_from(id, from) {
                Some(p) => from <= p < graph.objects.len() && graph.objects[p].0 == id,
                None => forall|q: int| from <= q < graph.objects.len() ==> (
                #[trigger] graph.objects[q]).0 != id,
            },
        decreases graph.objects.len() - from,
    {
        if from < graph.objects.len() && graph.objects[from].0 != id {
            Self::lemma_position(graph, id, from + 1);
        }
    }

    /// An object that came in is found under its identifier, and what was
    /// found before is found as before.
    pub proof fn lemma_added_is_found(graph: GraphView, object: ObjectView, other: ObjectId)
        requires
            graph.wf(),
            graph.max_id < u32::MAX,
        ensures
            graph.add(object).object(graph.next_id()) == Some(object),
            other != graph.next_id() ==> graph.add(object).object(other) == graph.object(other),
    {
        let after = graph.add(object);
        Self::lemma_position(graph, graph.next_id(), 0);
        Self::lemma_position(after, graph.next_id(), 0);
        Self::lemma_position(graph, other, 0);
        Self::lemma_position(after, other, 0);
        let new_place = graph.objects.len() as int;
        assert(after.objects[new_place] == (graph.next_id(), object));
        assert forall|q: int| 0 <= q < graph.objects.len() implies (#[trigger] after.objects[q])
            == graph.objects[q] by {}
        match after.position(graph.next_id()) {
            Some(p) => {
                if p < new_place {
                    assert(graph.objects[p].0.0 <= graph.max_id);
                }
            },
            None => {
                assert(after.objects[new_place].0 == graph.next_id());
            },
        }
        if other != graph.next_id() {
            match (graph.position(other), after.position(other)) {
                (Some(p), Some(q)) => {
                    assert(after.objects[p].0 == other);
                    if q < p {
                        assert(graph.objects[q].0 == other);
                        assert(graph.objects[q].0 != graph.objects[p].0);
                    } else if p < q {
                        assert(after.objects[p].0 != after.objects[q].0) by {
                            if q < new_place {
                                assert(graph.objects[p].0 != graph.objects[q].0);
                            }
                        }
                    }
                },
                (Some(p), None) => {
                    assert(after.objects[p].0 == other);
                },
                (None, Some(q)) => {
                    if q < new_place {
                        assert(graph.objects[q].0 == other);
                    }
                },
                (None, None) => {},
            }
        }
    }

    /// Makes the object under `id` the root of the document.
    pub fn set_root(&mut self, id: ObjectId)
        ensures
            final(self)@ == old(self)@.with_root(id),
    {
        self.root = Some(id);
    }
}

} // verus!
