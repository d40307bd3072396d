//! The document tree that the rest of the library reads, and its construction
//! from the HTML parser's tree.
use html5ever::tendril::TendrilSink;
use markup5ever_rcdom::{Node, NodeData, RcDom};
use std::rc::Rc;
use vstd::prelude::*;

verus! {

/// One attribute of an element: its local name and its value.
pub struct Attribute {
    pub name: String,
    pub value: String,
}

/// A node of a parsed HTML document.
///
/// Element names are local names (the namespace is dropped). Comments,
/// doctypes and processing instructions are `Other`.
pub enum DomNode {
    Document { children: Vec<DomNode> },
    Element { name: String, attrs: Vec<Attribute>, children: Vec<DomNode> },
    Text { contents: String },
    Other { children: Vec<DomNode> },
}

impl DomNode {
    /// The children of the node (a text node has none).
    pub open spec fn kids(self) -> Seq<DomNode> {
        match self {
            DomNode::Document { children } => children@,
            DomNode::Element { children, .. } => children@,
            DomNode::Text { .. } => Seq::empty(),
            DomNode::Other { children } => children@,
        }
    }

    /// Whether the node is an element with the local name `tag`.
    pub open spec fn is_element_named(self, tag: Seq<char>) -> bool {
        match self {
            DomNode::Element { name, .. } => name@ == tag,
            _ => false,
        }
    }
}

/// Whether `name` reads `lit`.
pub fn name_is(name: &String, lit: &str) -> (r: bool)
    ensures
        r == (name@ == lit@),
{
    let owned = lit.to_owned();
    *name == owned
}

/// The HTML parser's node type (`markup5ever_rcdom::Node`).
#[verifier::external_type_specification]
#[verifier::external_body]
pub struct ExRcdomNode(Node);

/// The tree that html5ever builds from `html`, copied into a `DomNode`
/// (the document node and everything under it).
pub uninterp spec fn spec_parsed_document(html: Seq<char>) -> DomNode;

/// Copies the subtree of html5ever's `RcDom` under `h` into a `DomNode`, one
/// node for one node: `NodeData` variants are told apart one arm each,
/// tendrils and local names become `String`s, and children are copied in
/// order. Only the parser wrapper below calls it, while the `RcDom` is alive
/// (dropping the `RcDom` empties its nodes). Nothing is stated of it on its
/// own: the tree lives behind `RefCell`s.
#[verifier::external_body]
fn copy_rcdom_node(h: &Rc<Node>) -> DomNode {
    let children = h.children.borrow().iter().map(copy_rcdom_node).collect();
    match &h.data {
        NodeData::Document => DomNode::Document { children },
        NodeData::Text { contents } => DomNode::Text { contents: contents.borrow().to_string() },
        NodeData::Element { name, attrs, .. } => DomNode::Element {
            name: name.local.to_string(),
            attrs: attrs.borrow().iter().map(|a| Attribute { name: a.name.local.to_string(), value: a.value.to_string() }).collect(),
            children,
        },
        NodeData::Doctype { .. } => DomNode::Other { children },
        NodeData::Comment { .. } => DomNode::Other { children },
        NodeData::ProcessingInstruction { .. } => DomNode::Other { children },
    }
}

/// Parses `html` with `html5ever::parse_document` into an `RcDom`, read
/// through tendril's `TendrilSink::read_from` from an in-memory
/// `std::io::Cursor`, and copies its document node with `copy_rcdom_node`.
/// The tree depends on `html` alone and is named `spec_parsed_document`.
/// `read_from` fails only when its reader does, and reading from memory does
/// not fail, so the result is always `Ok`; the copied root is the `RcDom`'s
/// document node, whose data is `NodeData::Document`.
#[verifier::external_body]
fn parse_rcdom(html: &str) -> (r: Result<DomNode, String>)
    ensures
        r is Ok,
        r->Ok_0 == spec_parsed_document(html@),
        r->Ok_0 is Document,
{
    html5ever::parse_document(RcDom::default(), html5ever::ParseOpts::default())
        .from_utf8()
        .read_from(&mut std::io::Cursor::new(html.as_bytes()))
        .map(|dom| copy_rcdom_node(&dom.document))
        .map_err(|e| e.to_string())
}

/// Parses an HTML document into its tree, rooted at the `Document` node.
/// Parsing always succeeds: the HTML parser recovers from any input.
pub fn parse_html(html: &str) -> (r: Result<DomNode, String>)
    ensures
        r == Ok::<DomNode, String>(spec_parsed_document(html@)),
        spec_parsed_document(html@) is Document,
{
    parse_rcdom(html)
}

} // verus!
