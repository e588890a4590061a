//! Node payloads and their mathematical models.

use vstd::prelude::*;

verus! {

/// One attribute of an element: a name and a value.
pub struct Attribute {
    pub name: String,
    pub value: String,
}

/// Model of an [`Attribute`]: both fields as character sequences.
#[verifier::ext_equal]
pub struct AttrV {
    pub name: Seq<char>,
    pub value: Seq<char>,
}

impl View for Attribute {
    type V = AttrV;

    open spec fn view(&self) -> AttrV {
        AttrV { name: self.name@, value: self.value@ }
    }
}

/// The payload of a node: which kind of node it is, and its data.
pub enum NodeEnum {
    /// The tree root; exactly one per parse.
    Document,
    /// A doctype declaration: name, public identifier, system identifier.
    Doctype(String, String, String),
    /// A comment; leaf.
    Comment(String),
    /// A text run; leaf, coalesced in place.
    Text(String),
    /// An element: qualified name and ordered attributes with unique names.
    Element(String, Vec<Attribute>),
}

/// Model of a [`NodeEnum`]: every string as a character sequence.
#[verifier::ext_equal]
pub enum PayloadV {
    Document,
    Doctype { name: Seq<char>, public_id: Seq<char>, system_id: Seq<char> },
    Comment { text: Seq<char> },
    Text { text: Seq<char> },
    Element { name: Seq<char>, attrs: Seq<AttrV> },
}

impl View for NodeEnum {
    type V = PayloadV;

    open spec fn view(&self) -> PayloadV {
        match self {
            NodeEnum::Document => PayloadV::Document,
            NodeEnum::Doctype(name, public_id, system_id) => PayloadV::Doctype {
                name: name@,
                public_id: public_id@,
                system_id: system_id@,
            },
            NodeEnum::Comment(text) => PayloadV::Comment { text: text@ },
            NodeEnum::Text(text) => PayloadV::Text { text: text@ },
            NodeEnum::Element(name, attrs) => PayloadV::Element {
                name: name@,
                attrs: attrs@.map_values(|a: Attribute| a@),
            },
        }
    }
}

impl Attribute {
    /// A copy of this attribute with the same name and value.
    pub fn duplicate(&self) -> (r: Attribute)
        ensures
            r@ == self@,
    {
        Attribute { name: self.name.clone(), value: self.value.clone() }
    }
}

/// A copy of an attribute list with the same model.
pub fn duplicate_attrs(attrs: &Vec<Attribute>) -> (r: Vec<Attribute>)
    ensures
        r@.map_values(|a: Attribute| a@) == attrs@.map_values(|a: Attribute| a@),
        r@.len() == attrs@.len(),
{
    let mut r: Vec<Attribute> = Vec::new();
    let mut i: usize = 0;
    while i < attrs.len()
        invariant
            i <= attrs@.len(),
            r@.len() == i,
            forall|k: int| 0 <= k < i ==> r@[k]@ == attrs@[k]@,
        decreases attrs@.len() - i,
    {
        r.push(attrs[i].duplicate());
        i = i + 1;
    }
    proof {
        assert(r@.map_values(|a: Attribute| a@) =~= attrs@.map_values(|a: Attribute| a@));
    }
    r
}

impl NodeEnum {
    /// A copy of this payload with the same model.
    pub fn duplicate(&self) -> (r: NodeEnum)
        ensures
            r@ == self@,
    {
        match self {
            NodeEnum::Document => NodeEnum::Document,
            NodeEnum::Doctype(name, public_id, system_id) => NodeEnum::Doctype(
                name.clone(),
                public_id.clone(),
                system_id.clone(),
            ),
            NodeEnum::Comment(text) => NodeEnum::Comment(text.clone()),
            NodeEnum::Text(text) => NodeEnum::Text(text.clone()),
            NodeEnum::Element(name, attrs) => NodeEnum::Element(
                name.clone(),
                duplicate_attrs(attrs),
            ),
        }
    }
}

/// The quirks-mode flag attached to a document.
#[derive(PartialEq, Eq, Structural, Clone, Copy, Debug)]
pub enum QuirksMode {
    NoQuirks,
    LimitedQuirks,
    Quirks,
}

} // verus!
