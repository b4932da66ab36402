//! The calls into `xmltree` that reading a settings document needs.
//!
//! An `xmltree` tree is held behind [`XmlTree`], whose contents Verus does not
//! see; it is taken apart one element at a time into plain values, and what
//! it holds is named as an [`XmlElementView`].

use vstd::prelude::*;

verus! {

/// A parsed `xmltree` element, opaque to verification.
#[verifier::external_body]
pub struct XmlTree {
    tree: xmltree::Element,
}

/// One child node of an `xmltree` element, by kind.
pub enum RawNode {
    Element(XmlTree),
    Text(String),
    CData(String),
    Comment(String),
    Instruction(String, Option<String>),
}

/// An element as `xmltree` holds it: its local name, its attributes (a hash
/// map in `xmltree`, so each name once and no order) and its child nodes in
/// document order.
pub struct XmlElementView {
    pub name: Seq<char>,
    pub attributes: Map<Seq<char>, Seq<char>>,
    pub nodes: Seq<XmlNodeView>,
}

/// A child node as `xmltree` holds it: an element, character data (text or
/// CDATA), or something that carries no setting (a comment or a processing
/// instruction).
pub enum XmlNodeView {
    Element(XmlElementView),
    Data(Seq<char>),
    Other,
}

/// The root element `xmltree::Element::parse` reads from `contents`, or
/// `None` where it rejects them.
pub uninterp spec fn xml_document(contents: Seq<char>) -> Option<XmlElementView>;

/// What an `xmltree` element holds, down to its leaves.
pub uninterp spec fn xml_tree_view(element: XmlTree) -> XmlElementView;

/// Whether `xmltree::Element::parse` accepts `contents` as a document.
pub open spec fn xml_accepts(contents: Seq<char>) -> bool {
    xml_document(contents) is Some
}

/// How a child node taken out of an element stands for the node it was.
pub open spec fn node_stands_for(node: RawNode, v: XmlNodeView) -> bool {
    match node {
        RawNode::Element(child) => v == XmlNodeView::Element(xml_tree_view(child)),
        RawNode::Text(t) => v == XmlNodeView::Data(t@),
        RawNode::CData(t) => v == XmlNodeView::Data(t@),
        RawNode::Comment(_) => v == XmlNodeView::Other,
        RawNode::Instruction(_, _) => v == XmlNodeView::Other,
    }
}

/// Parses `contents` with `xmltree::Element::parse`, keeping the error's
/// `Display` text: the tree it gives is the document the contents hold.
/// What the error text says is not stated.
#[verifier::external_body]
pub(crate) fn xml_tree_parse(contents: &str) -> (r: Result<XmlTree, String>)
    ensures
        r.is_ok() == xml_accepts(contents@),
        r matches Ok(t) ==> xml_document(contents@) == Some(xml_tree_view(t)),
{
    match xmltree::Element::parse(contents.as_bytes()) {
        Ok(tree) => Ok(XmlTree { tree }),
        Err(error) => Err(error.to_string()),
    }
}

/// Takes an `xmltree` element apart into its local name, its attributes (in
/// the map's own iteration order, which is not stated; each pair is one of
/// the map's, and every name of the map comes out) and its children, each by
/// kind, in order.
#[verifier::external_body]
pub(crate) fn xml_into_parts(element: XmlTree) -> (r: (String, Vec<(String, String)>, Vec<RawNode>))
    ensures
        r.0@ == xml_tree_view(element).name,
        forall|i: int|
            0 <= i < r.1@.len() ==> xml_tree_view(element).attributes.contains_key((#[trigger] r.1@[i]).0@)
                && xml_tree_view(element).attributes[r.1@[i].0@] == r.1@[i].1@,
        forall|k: Seq<char>|
            #[trigger] xml_tree_view(element).attributes.contains_key(k) ==> exists|i: int| 0 <= i < r.1@.len() && r.1@[i].0@ == k,
        r.2@.len() == xml_tree_view(element).nodes.len(),
        forall|i: int| 0 <= i < r.2@.len() ==> node_stands_for(#[trigger] r.2@[i], xml_tree_view(element).nodes[i]),
{
    let tree = element.tree;
    let children = tree.children.into_iter().map(|node| match node {
        xmltree::XMLNode::Element(child) => RawNode::Element(XmlTree { tree: child }),
        xmltree::XMLNode::Text(text) => RawNode::Text(text),
        xmltree::XMLNode::CData(text) => RawNode::CData(text),
        xmltree::XMLNode::Comment(text) => RawNode::Comment(text),
        xmltree::XMLNode::ProcessingInstruction(name, data) => RawNode::Instruction(name, data),
    }).collect();
    (tree.name, tree.attributes.into_iter().collect(), children)
}

} // verus!
