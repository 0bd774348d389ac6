//! Transforms from one rope to another, and their plain form, in which the inserted
//! ropes are strings.

use crate::leaf::Leaf;
use crate::leaves::bulk_leaves;
use crate::tree::Node;
use vstd::prelude::*;
use vstd::string::*;
use vstd::utf8::*;

verus! {

/// An element of a delta.
pub enum DeltaElement {
    /// Represents a range of text in the base document: the start and the end of it.
    Copy(usize, usize),
    /// The text to be put in.
    Insert(Node),
}

/// Represents changes to a document by describing the new document in terms of the old.
pub struct Delta {
    pub els: Vec<DeltaElement>,
    pub base_len: usize,
}

/// Represents a transform from one rope to another.
pub type RopeDelta = Delta;

/// An element in a `RopeDelta`.
pub type RopeDeltaElement = DeltaElement;

/// An element of a delta, with a string for the inserted rope.
pub enum PlainElement {
    Copy(usize, usize),
    Insert(String),
}

/// A delta with strings for the inserted ropes.
pub struct PlainDelta {
    pub els: Vec<PlainElement>,
    pub base_len: usize,
}

/// What an element of a delta means.
pub enum ElementModel {
    Copy(usize, usize),
    Insert(Seq<char>),
}

/// What a delta means.
pub struct DeltaModel {
    pub els: Seq<ElementModel>,
    pub base_len: usize,
}

impl View for DeltaElement {
    type V = ElementModel;

    open spec fn view(&self) -> ElementModel {
        match self {
            DeltaElement::Copy(start, end) => ElementModel::Copy(*start, *end),
            DeltaElement::Insert(rope) => ElementModel::Insert(rope@),
        }
    }
}

impl View for PlainElement {
    type V = ElementModel;

    open spec fn view(&self) -> ElementModel {
        match self {
            PlainElement::Copy(start, end) => ElementModel::Copy(*start, *end),
            PlainElement::Insert(s) => ElementModel::Insert(s@),
        }
    }
}

impl View for Delta {
    type V = DeltaModel;

    open spec fn view(&self) -> DeltaModel {
        DeltaModel {
            els: self.els@.map_values(|el: DeltaElement| el@),
            base_len: self.base_len,
        }
    }
}

impl View for PlainDelta {
    type V = DeltaModel;

    open spec fn view(&self) -> DeltaModel {
        DeltaModel {
            els: self.els@.map_values(|el: PlainElement| el@),
            base_len: self.base_len,
        }
    }
}

/// An element and its plain form copy the same range, or insert the same bytes.
pub open spec fn same_element(el: DeltaElement, plain: PlainElement) -> bool {
    match el {
        DeltaElement::Copy(start, end) => plain == PlainElement::Copy(start, end),
        DeltaElement::Insert(rope) => {
            &&& plain matches PlainElement::Insert(s)
            &&& encode_utf8(s@) == rope.bytes()
        },
    }
}

/// The rope that an element inserts is cut into leaves as a string in bulk is.
pub open spec fn inserts_in_bulk(made: DeltaElement, el: PlainElement) -> bool {
    made matches DeltaElement::Insert(rope) ==> {
        &&& el matches PlainElement::Insert(s)
        &&& rope.leaves() == bulk_leaves(s.utf8())
    }
}

impl From<&PlainElement> for DeltaElement {
    fn from(el: &PlainElement) -> (made: DeltaElement)
        ensures
            made@ == el@,
            same_element(made, *el),
            inserts_in_bulk(made, *el),
    {
        match el {
            PlainElement::Copy(start, end) => DeltaElement::Copy(*start, *end),
            PlainElement::Insert(s) => DeltaElement::Insert(Node::from(s)),
        }
    }
}

impl vstd::std_specs::convert::FromSpecImpl<&PlainElement> for DeltaElement {
    open spec fn obeys_from_spec() -> bool {
        false
    }

    open spec fn from_spec(el: &PlainElement) -> DeltaElement {
        arbitrary()
    }
}

impl From<&DeltaElement> for PlainElement {
    fn from(el: &DeltaElement) -> (made: PlainElement)
        ensures
            made@ == el@,
            same_element(*el, made),
    {
        match el {
            DeltaElement::Copy(start, end) => PlainElement::Copy(*start, *end),
            DeltaElement::Insert(rope) => PlainElement::Insert(String::from(rope)),
        }
    }
}

impl vstd::std_specs::convert::FromSpecImpl<&DeltaElement> for PlainElement {
    open spec fn obeys_from_spec() -> bool {
        false
    }

    open spec fn from_spec(el: &DeltaElement) -> PlainElement {
        arbitrary()
    }
}

impl From<PlainDelta> for Delta {
    fn from(delta: PlainDelta) -> (made: Delta)
        ensures
            made@ == delta@,
            made.base_len == delta.base_len,
            made.els@.len() == delta.els@.len(),
            forall|j: int|
                0 <= j < made.els@.len() ==> same_element(#[trigger] made.els@[j], delta.els@[j]),
            forall|j: int|
                0 <= j < made.els@.len() ==> inserts_in_bulk(
                    #[trigger] made.els@[j],
                    delta.els@[j],
                ),
    {
        let mut els: Vec<DeltaElement> = Vec::new();
        let mut i: usize = 0;
        while i < delta.els.len()
            invariant
                i <= delta.els@.len(),
                els@.len() == i,
                forall|j: int| 0 <= j < i ==> (#[trigger] els@[j])@ == delta.els@[j]@,
                forall|j: int| 0 <= j < i ==> same_element(#[trigger] els@[j], delta.els@[j]),
                forall|j: int| 0 <= j < i ==> inserts_in_bulk(#[trigger] els@[j], delta.els@[j]),
            decreases delta.els@.len() - i,
        {
            els.push(DeltaElement::from(&delta.els[i]));
            i = i + 1;
        }
        let made = Delta { els, base_len: delta.base_len };
        assert(made@.els =~= delta@.els);
        made
    }
}

impl vstd::std_specs::convert::FromSpecImpl<PlainDelta> for Delta {
    open spec fn obeys_from_spec() -> bool {
        false
    }

    open spec fn from_spec(delta: PlainDelta) -> Delta {
        arbitrary()
    }
}

impl From<&Delta> for PlainDelta {
    fn from(delta: &Delta) -> (made: PlainDelta)
        ensures
            made@ == delta@,
            made.base_len == delta.base_len,
            made.els@.len() == delta.els@.len(),
            forall|j: int|
                0 <= j < made.els@.len() ==> same_element(delta.els@[j], #[trigger] made.els@[j]),
    {
        let mut els: Vec<PlainElement> = Vec::new();
        let mut i: usize = 0;
        while i < delta.els.len()
            invariant
                i <= delta.els@.len(),
                els@.len() == i,
                forall|j: int| 0 <= j < i ==> (#[trigger] els@[j])@ == delta.els@[j]@,
                forall|j: int| 0 <= j < i ==> same_element(delta.els@[j], #[trigger] els@[j]),
            decreases delta.els@.len() - i,
        {
            els.push(PlainElement::from(&delta.els[i]));
            i = i + 1;
        }
        let made = PlainDelta { els, base_len: delta.base_len };
        assert(made@.els =~= delta@.els);
        made
    }
}

impl vstd::std_specs::convert::FromSpecImpl<&Delta> for PlainDelta {
    open spec fn obeys_from_spec() -> bool {
        false
    }

    open spec fn from_spec(delta: &Delta) -> PlainDelta {
        arbitrary()
    }
}

} // verus!
