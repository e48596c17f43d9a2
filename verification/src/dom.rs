//! HTML documents as the sequence of steps of a depth-first walk: each node
//! opens with `Start` and closes with `End` after its children.  Parsing and
//! serializing are kuchiki's; rewriting the walk is this module's.
use html5ever::{Prefix, QualName};
use kuchiki::iter::NodeEdge;
use kuchiki::traits::TendrilSink;
use kuchiki::{Attribute, ElementData, ExpandedName, NodeData, NodeRef};
use vstd::prelude::*;

verus! {

#[verifier::external_type_specification]
#[verifier::external_body]
pub struct ExNodeRef(kuchiki::NodeRef);

#[verifier::external_type_specification]
#[verifier::external_body]
pub struct ExElementData(kuchiki::ElementData);

#[verifier::external_type_specification]
#[verifier::external_body]
#[verifier::reject_recursive_types(T)]
pub struct ExNodeEdge<T>(kuchiki::iter::NodeEdge<T>);

/// An attribute: its namespace URL, prefix, local name and value.
pub struct HtmlAttr {
    pub ns: String,
    pub prefix: Option<String>,
    pub name: String,
    pub value: String,
}

/// A node of a document, without its children.
pub enum HtmlNode {
    Document,
    Fragment,
    Doctype { name: String, public_id: String, system_id: String },
    Element { ns: String, name: String, attrs: Vec<HtmlAttr> },
    Text(String),
    Comment(String),
    Instruction { target: String, data: String },
}

/// A step of the walk: a node opens, or the last open node closes.
pub enum HtmlEvent {
    Start(HtmlNode),
    End,
}

/// An attribute as values.
pub struct AttrView {
    pub ns: Seq<char>,
    pub prefix: Option<Seq<char>>,
    pub name: Seq<char>,
    pub value: Seq<char>,
}

/// A node as values.
pub enum NodeView {
    Document,
    Fragment,
    Doctype(Seq<char>, Seq<char>, Seq<char>),
    Element(Seq<char>, Seq<char>, Seq<AttrView>),
    Text(Seq<char>),
    Comment(Seq<char>),
    Instruction(Seq<char>, Seq<char>),
}

/// A step as values.
pub enum EventView {
    Start(NodeView),
    End,
}

impl View for HtmlAttr {
    type V = AttrView;

    open spec fn view(&self) -> AttrView {
        AttrView {
            ns: self.ns@,
            prefix: match &self.prefix {
                Some(p) => Some(p@),
                None => None,
            },
            name: self.name@,
            value: self.value@,
        }
    }
}

/// The values of a list of attributes.
pub open spec fn attrs_view(attrs: Seq<HtmlAttr>) -> Seq<AttrView> {
    Seq::new(attrs.len(), |i: int| attrs[i]@)
}

impl View for HtmlNode {
    type V = NodeView;

    open spec fn view(&self) -> NodeView {
        match self {
            HtmlNode::Document => NodeView::Document,
            HtmlNode::Fragment => NodeView::Fragment,
            HtmlNode::Doctype { name, public_id, system_id } => NodeView::Doctype(
                name@,
                public_id@,
                system_id@,
            ),
            HtmlNode::Element { ns, name, attrs } => NodeView::Element(
                ns@,
                name@,
                attrs_view(attrs@),
            ),
            HtmlNode::Text(t) => NodeView::Text(t@),
            HtmlNode::Comment(t) => NodeView::Comment(t@),
            HtmlNode::Instruction { target, data } => NodeView::Instruction(target@, data@),
        }
    }
}

impl View for HtmlEvent {
    type V = EventView;

    open spec fn view(&self) -> EventView {
        match self {
            HtmlEvent::Start(n) => EventView::Start(n@),
            HtmlEvent::End => EventView::End,
        }
    }
}

/// The values of a walk.
pub open spec fn events_view(ev: Seq<HtmlEvent>) -> Seq<EventView> {
    Seq::new(ev.len(), |i: int| ev[i]@)
}

/// The walk of the document that kuchiki's HTML parser builds from a text.
pub uninterp spec fn html_document(source: Seq<char>) -> Seq<EventView>;

/// The walk of the document that kuchiki builds from a text parsed as a fragment
/// in the context of a `div` element.
pub uninterp spec fn html_fragment(value: Seq<char>) -> Seq<EventView>;

/// The HTML text that kuchiki serializes for the document a walk describes.
pub uninterp spec fn html_serialized(ev: Seq<EventView>) -> Seq<char>;

/// `kuchiki::parse_html().one(source)`, its nodes listed by `traverse_inclusive`
/// as the walk's steps, each node's data moved over as it is.  The contract names
/// the walk, a function of the text alone.
#[verifier::external_body]
pub(crate) fn parse_document_events(source: &str) -> (r: Vec<HtmlEvent>)
    ensures
        events_view(r@) == html_document(source@),
{
    kuchiki::parse_html().one(source).traverse_inclusive().map(event_of_edge).collect()
}

/// `kuchiki::parse_fragment` in the context of an XHTML `div`, the text given to
/// `one`, its nodes listed by `traverse_inclusive` as the walk's steps.  The
/// contract names the walk, a function of the text alone.
#[verifier::external_body]
pub(crate) fn parse_fragment_events(value: &str) -> (r: Vec<HtmlEvent>)
    ensures
        events_view(r@) == html_fragment(value@),
{
    let context = html5ever::QualName::new(
        None,
        html5ever::Namespace::from("http://www.w3.org/1999/xhtml"),
        html5ever::LocalName::from("div"),
    );
    kuchiki::parse_fragment(context, vec![]).one(value).traverse_inclusive().map(
        event_of_edge,
    ).collect()
}

/// One step of kuchiki's `traverse_inclusive` as a step of the walk.
#[verifier::external_body]
fn event_of_edge(edge: NodeEdge<NodeRef>) -> HtmlEvent {
    match edge {
        NodeEdge::End(_) => HtmlEvent::End,
        NodeEdge::Start(node) => HtmlEvent::Start(node_value(&node)),
    }
}

/// A kuchiki node's data moved over as it is, without its children (one arm for
/// each kind of node).
#[verifier::external_body]
fn node_value(node: &NodeRef) -> HtmlNode {
    match node.data() {
        NodeData::Element(e) => element_value(e),
        NodeData::Text(t) => HtmlNode::Text(t.borrow().clone()),
        NodeData::Comment(t) => HtmlNode::Comment(t.borrow().clone()),
        NodeData::Doctype(d) => HtmlNode::Doctype {
            name: d.name.clone(),
            public_id: d.public_id.clone(),
            system_id: d.system_id.clone(),
        },
        NodeData::ProcessingInstruction(p) => {
            HtmlNode::Instruction { target: p.borrow().0.clone(), data: p.borrow().1.clone() }
        },
        NodeData::Document(_) => HtmlNode::Document,
        NodeData::DocumentFragment => HtmlNode::Fragment,
    }
}

/// An element's name and attributes moved over as they are.
#[verifier::external_body]
fn element_value(e: &ElementData) -> HtmlNode {
    let attrs = e.attributes.borrow().map.iter().map(
        |(k, a)| HtmlAttr {
            ns: k.ns.to_string(),
            prefix: a.prefix.as_ref().map(|p| p.to_string()),
            name: k.local.to_string(),
            value: a.value.clone(),
        },
    ).collect();
    HtmlNode::Element { ns: e.name.ns.to_string(), name: e.name.local.to_string(), attrs }
}

/// The walk turned back into a kuchiki tree under a new document node (each
/// `Start` appends a new node to the innermost open node, or to the document when
/// none is open, and opens it; each `End` closes the innermost open node, if any)
/// and serialized with `to_string`.  The contract names the text, a function of
/// the walk alone.
#[verifier::external_body]
pub(crate) fn serialize_events(ev: &Vec<HtmlEvent>) -> (r: String)
    ensures
        r@ == html_serialized(events_view(ev@)),
{
    let root = NodeRef::new_document();
    let mut open: Vec<NodeRef> = Vec::new();
    for e in ev {
        match e {
            HtmlEvent::End => {
                open.pop();
            },
            HtmlEvent::Start(n) => {
                let node = node_of(n);
                open.last().unwrap_or(&root).append(node.clone());
                open.push(node);
            },
        }
    }
    root.to_string()
}

/// A kuchiki node, without children, holding the data of `n` as it is (one arm
/// for each kind of node).
#[verifier::external_body]
fn node_of(n: &HtmlNode) -> NodeRef {
    match n {
        HtmlNode::Document => NodeRef::new_document(),
        HtmlNode::Fragment => NodeRef::new(NodeData::DocumentFragment),
        HtmlNode::Doctype { name, public_id, system_id } => {
            NodeRef::new_doctype(name.clone(), public_id.clone(), system_id.clone())
        },
        HtmlNode::Element { ns, name, attrs } => element_node(ns, name, attrs),
        HtmlNode::Text(t) => NodeRef::new_text(t.clone()),
        HtmlNode::Comment(t) => NodeRef::new_comment(t.clone()),
        HtmlNode::Instruction { target, data } => {
            NodeRef::new_processing_instruction(target.clone(), data.clone())
        },
    }
}

/// A kuchiki element, without children, with this name and these attributes.
#[verifier::external_body]
fn element_node(ns: &String, name: &String, attrs: &Vec<HtmlAttr>) -> NodeRef {
    let attributes = attrs.iter().map(
        |a| (ExpandedName::new(a.ns.as_str(), a.name.as_str()), Attribute { prefix: a.prefix.as_deref().map(Prefix::from), value: a.value.clone() }),
    );
    NodeRef::new_element(QualName::new(None, ns.as_str().into(), name.as_str().into()), attributes)
}

} // verus!
