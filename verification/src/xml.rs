//! Reading and writing documents as XML. The parser and the writer are those
//! of the `xmltree` crate; this module hands their trees over, node for node.

use crate::document::{well_formed, Attribute, ElementNode, ElementView, Node};
use crate::error::ReplaceError;
use vstd::prelude::*;

verus! {

/// `xmltree::ParseError`, why the parser rejected its input: carried
/// through, never looked into.
#[verifier::external_type_specification]
#[verifier::external_body]
pub struct ExParseError(xmltree::ParseError);

/// `xmltree::Error`, why the writer failed: carried through, never looked
/// into.
#[verifier::external_type_specification]
#[verifier::external_body]
pub struct ExWriteError(xmltree::Error);

/// `xmltree::Element`, the parser's element: handed over to an element of
/// this crate before any logic sees it.
#[verifier::external_type_specification]
#[verifier::external_body]
pub struct ExXmlElement(xmltree::Element);

/// `xmltree::XMLNode`, the parser's node: handed over to a node of this
/// crate before any logic sees it.
#[verifier::external_type_specification]
#[verifier::external_body]
pub struct ExXmlNode(xmltree::XMLNode);

/// The tree that `xmltree::Element::parse` builds from `bytes`; `None` where
/// it rejects them. The attributes of an element stand in the order of the
/// document: the parser keeps them in a map that preserves insertion order.
pub uninterp spec fn parsed_document(bytes: Seq<u8>) -> Option<ElementView>;

/// The bytes that `xmltree::Element::write` emits for `root`; `None` where
/// it fails.
pub uninterp spec fn written_document(root: ElementView) -> Option<Seq<u8>>;

/// Hands an `xmltree::Element` over as an element of this crate: every
/// field moves as it is, the attribute map as its entries in the map's order,
/// the namespace map as its entries. Nothing is claimed of the result.
#[verifier::external_body]
fn element_from_xml(e: xmltree::Element) -> ElementNode {
    ElementNode {
        prefix: e.prefix,
        namespace: e.namespace,
        namespaces: e.namespaces.map(|n| n.0.into_iter().collect()),
        tag: e.name,
        attributes: e.attributes.into_iter().map(|(name, value)| Attribute { name, value }).collect(),
        children: e.children.into_iter().map(node_from_xml).collect(),
    }
}

/// Hands an `xmltree::XMLNode` over as a node of this crate, variant for
/// variant. Nothing is claimed of the result.
#[verifier::external_body]
fn node_from_xml(n: xmltree::XMLNode) -> Node {
    match n {
        xmltree::XMLNode::Element(e) => Node::Element(element_from_xml(e)),
        xmltree::XMLNode::Comment(s) => Node::Comment(s),
        xmltree::XMLNode::CData(s) => Node::CData(s),
        xmltree::XMLNode::Text(s) => Node::Text(s),
        xmltree::XMLNode::ProcessingInstruction(n, d) => Node::ProcessingInstruction(n, d),
    }
}

/// Builds the `xmltree::Element` that holds what `e` holds, field for
/// field. Nothing is claimed of the result.
#[verifier::external_body]
fn element_to_xml(e: &ElementNode) -> xmltree::Element {
    xmltree::Element {
        prefix: e.prefix.clone(),
        namespace: e.namespace.clone(),
        namespaces: e.namespaces.clone().map(|v| xmltree::Namespace(v.into_iter().collect())),
        name: e.tag.clone(),
        attributes: e.attributes.iter().map(|a| (a.name.clone(), a.value.clone())).collect(),
        children: e.children.iter().map(node_to_xml).collect(),
    }
}

/// Builds the `xmltree::XMLNode` that holds what `n` holds, variant for
/// variant. Nothing is claimed of the result.
#[verifier::external_body]
fn node_to_xml(n: &Node) -> xmltree::XMLNode {
    match n {
        Node::Element(e) => xmltree::XMLNode::Element(element_to_xml(e)),
        Node::Comment(s) => xmltree::XMLNode::Comment(s.clone()),
        Node::CData(s) => xmltree::XMLNode::CData(s.clone()),
        Node::Text(s) => xmltree::XMLNode::Text(s.clone()),
        Node::ProcessingInstruction(n, d) => xmltree::XMLNode::ProcessingInstruction(
            n.clone(),
            d.clone(),
        ),
    }
}

/// `xmltree::Element::parse` on a byte slice. The contract gives the call's
/// outcome its name: the same bytes give the same tree, or are rejected. It
/// claims one thing more of a tree: the parser collects the attributes of
/// each element in a map keyed by name, so no element has a name twice.
#[verifier::external_body]
fn xml_parse(bytes: &[u8]) -> (r: Result<ElementNode, xmltree::ParseError>)
    ensures
        r matches Ok(e) ==> parsed_document(bytes@) == Some(e@) && well_formed(e@),
        r is Err ==> parsed_document(bytes@) is None,
{
    xmltree::Element::parse(bytes).map(element_from_xml)
}

/// `xmltree::Element::write` into a byte vector, with the writer's default
/// configuration. The contract gives the call's outcome its name and claims
/// no more: the same tree gives the same bytes, or fails.
#[verifier::external_body]
fn xml_write(root: &ElementNode) -> (r: Result<Vec<u8>, xmltree::Error>)
    ensures
        r matches Ok(b) ==> written_document(root@) == Some(b@),
        r is Err ==> written_document(root@) is None,
{
    let mut out = Vec::new();
    element_to_xml(root).write(&mut out).map(|_| out)
}

/// What `parse` returns for what the XML parser made of the input.
pub open spec fn parse_outcome(parsed: Option<ElementView>) -> Result<ElementView, ReplaceError> {
    match parsed {
        Some(e) => Ok(e),
        None => Err(ReplaceError::XmlParse),
    }
}

/// What `serialize` returns for what the XML writer made of the tree.
pub open spec fn serialize_outcome(written: Option<Seq<u8>>) -> Result<Seq<u8>, ReplaceError> {
    match written {
        Some(b) => Ok(b),
        None => Err(ReplaceError::Serialize),
    }
}

/// Parses a document. Fails with `XmlParse` where the input is not
/// well-formed.
pub fn parse(bytes: &[u8]) -> (r: Result<ElementNode, ReplaceError>)
    ensures
        (match r {
            Ok(e) => Ok(e@),
            Err(e) => Err(e),
        }) == parse_outcome(parsed_document(bytes@)),
        r matches Ok(e) ==> well_formed(e@),
{
    match xml_parse(bytes) {
        Ok(e) => Ok(e),
        Err(_) => Err(ReplaceError::XmlParse),
    }
}

/// Writes a document out. Fails with `Serialize` where the writer does.
pub fn serialize(root: &ElementNode) -> (r: Result<Vec<u8>, ReplaceError>)
    ensures
        (match r {
            Ok(b) => Ok(b@),
            Err(e) => Err(e),
        }) == serialize_outcome(written_document(root@)),
{
    match xml_write(root) {
        Ok(b) => Ok(b),
        Err(_) => Err(ReplaceError::Serialize),
    }
}

} // verus!
