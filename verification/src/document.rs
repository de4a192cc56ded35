//! The document tree: elements with ordered attributes and ordered children,
//! and the mathematical view that contracts speak of.

use crate::text::same_text;
use vstd::prelude::*;

verus! {

/// One attribute of an element.
#[derive(Debug, PartialEq, Eq)]
pub struct Attribute {
    pub name: String,
    pub value: String,
}

/// An element: its qualified name, its attributes in insertion order and its
/// children in document order.
#[derive(Debug, PartialEq, Eq)]
pub struct ElementNode {
    pub prefix: Option<String>,
    pub namespace: Option<String>,
    /// Prefix-to-URI bindings in scope at this element, ordered by prefix.
    pub namespaces: Option<Vec<(String, String)>>,
    pub tag: String,
    pub attributes: Vec<Attribute>,
    pub children: Vec<Node>,
}

/// A node of the document tree.
#[derive(Debug, PartialEq, Eq)]
pub enum Node {
    Element(ElementNode),
    Comment(String),
    CData(String),
    Text(String),
    ProcessingInstruction(String, Option<String>),
}

/// A string as contracts see it.
pub type Text = Seq<char>;

/// An attribute as contracts see it: name, then value.
pub type AttributeView = (Text, Text);

/// An element as contracts see it.
pub struct ElementView {
    pub prefix: Option<Text>,
    pub namespace: Option<Text>,
    pub namespaces: Option<Seq<(Text, Text)>>,
    pub tag: Text,
    pub attributes: Seq<AttributeView>,
    pub children: Seq<NodeView>,
}

/// A node as contracts see it.
pub enum NodeView {
    Element(ElementView),
    Comment(Text),
    CData(Text),
    Text(Text),
    ProcessingInstruction(Text, Option<Text>),
}

/// The view of a string that may be absent.
pub open spec fn option_text(s: Option<String>) -> Option<Text> {
    match s {
        Some(t) => Some(t@),
        None => None,
    }
}

/// The view of the namespace bindings: each prefix with its URI.
pub open spec fn bindings_view(b: Option<Vec<(String, String)>>) -> Option<Seq<(Text, Text)>> {
    match b {
        Some(v) => Some(Seq::new(v@.len(), |i: int| (v@[i].0@, v@[i].1@))),
        None => None,
    }
}

impl View for Attribute {
    type V = AttributeView;

    open spec fn view(&self) -> AttributeView {
        (self.name@, self.value@)
    }
}

/// The view of an element: each string by its characters, each child by its
/// own view.
pub open spec fn element_view(e: ElementNode) -> ElementView
    decreases e,
{
    ElementView {
        prefix: option_text(e.prefix),
        namespace: option_text(e.namespace),
        namespaces: bindings_view(e.namespaces),
        tag: e.tag@,
        attributes: Seq::new(e.attributes@.len(), |i: int| e.attributes@[i]@),
        children: Seq::new(
            e.children@.len(),
            |i: int|
                if 0 <= i < e.children@.len() {
                    node_view(e.children@[i])
                } else {
                    NodeView::Text(Seq::empty())
                },
        ),
    }
}

/// The view of a node.
pub open spec fn node_view(n: Node) -> NodeView
    decreases n,
{
    match n {
        Node::Element(e) => NodeView::Element(element_view(e)),
        Node::Comment(s) => NodeView::Comment(s@),
        Node::CData(s) => NodeView::CData(s@),
        Node::Text(s) => NodeView::Text(s@),
        Node::ProcessingInstruction(n, d) => NodeView::ProcessingInstruction(n@, option_text(d)),
    }
}

impl View for ElementNode {
    type V = ElementView;

    open spec fn view(&self) -> ElementView {
        element_view(*self)
    }
}

impl View for Node {
    type V = NodeView;

    open spec fn view(&self) -> NodeView {
        node_view(*self)
    }
}

/// The views of a run of attributes.
pub open spec fn attributes_view(v: Seq<Attribute>) -> Seq<AttributeView> {
    Seq::new(v.len(), |i: int| v[i]@)
}

/// The views of a run of nodes.
pub open spec fn nodes_view(v: Seq<Node>) -> Seq<NodeView> {
    Seq::new(v.len(), |i: int| v[i]@)
}

/// The index of the first attribute named `name`, or the number of
/// attributes if none is.
pub open spec fn attribute_index(attrs: Seq<AttributeView>, name: Text) -> int
    decreases attrs.len(),
{
    if attrs.len() == 0 || attrs[0].0 == name {
        0
    } else {
        1 + attribute_index(attrs.drop_first(), name)
    }
}

/// The value of the attribute named `name`.
pub open spec fn find_attribute(attrs: Seq<AttributeView>, name: Text) -> Option<Text> {
    if attribute_index(attrs, name) < attrs.len() {
        Some(attrs[attribute_index(attrs, name)].1)
    } else {
        None
    }
}

/// The attributes after `name` is set to `value`: an attribute of that name
/// keeps its place and takes the value; otherwise a new one is added last.
pub open spec fn with_attribute(attrs: Seq<AttributeView>, name: Text, value: Text) -> Seq<
    AttributeView,
> {
    if attribute_index(attrs, name) < attrs.len() {
        attrs.update(attribute_index(attrs, name), (name, value))
    } else {
        attrs.push((name, value))
    }
}

/// No two attributes share a name.
pub open spec fn distinct_names(attrs: Seq<AttributeView>) -> bool {
    forall|i: int, j: int| 0 <= i < j < attrs.len() ==> (#[trigger] attrs[i]).0 != (#[trigger] attrs[j]).0
}

/// An element is well-formed when its attributes are a mapping, no name
/// occurring twice, and so are those of every element below it.
pub open spec fn well_formed(e: ElementView) -> bool
    decreases e, 0int,
{
    &&& distinct_names(e.attributes)
    &&& forall|k: int|
        0 <= k < e.children.len() ==> node_well_formed(#[trigger] e.children[k])
}

/// A node is well-formed when it is no element or a well-formed one.
pub open spec fn node_well_formed(n: NodeView) -> bool
    decreases n, 0int,
{
    match n {
        NodeView::Element(c) => well_formed(c),
        _ => true,
    }
}

/// Where no attribute before the `k`-th is named `name`, the first that is
/// stands at `k` or after it.
pub proof fn lemma_attribute_index(attrs: Seq<AttributeView>, name: Text, k: int)
    requires
        0 <= k <= attrs.len(),
        forall|j: int| 0 <= j < k ==> (#[trigger] attrs[j]).0 != name,
    ensures
        k <= attribute_index(attrs, name) <= attrs.len(),
        (k == attrs.len() || attrs[k].0 == name) ==> attribute_index(attrs, name) == k,
        attribute_index(attrs, name) < attrs.len() ==> attrs[attribute_index(attrs, name)].0
            == name,
        forall|j: int| 0 <= j < attribute_index(attrs, name) ==> (#[trigger] attrs[j]).0 != name,
    decreases attrs.len(),
{
    if attrs.len() == 0 || attrs[0].0 == name {
    } else {
        let rest = attrs.drop_first();
        assert forall|j: int| 0 <= j < k - 1 implies (#[trigger] rest[j]).0 != name by {
            assert(rest[j] == attrs[j + 1]);
        }
        if k == 0 {
            lemma_attribute_index(rest, name, 0);
        } else {
            lemma_attribute_index(rest, name, k - 1);
        }
        assert forall|j: int| 0 <= j < attribute_index(attrs, name) implies (#[trigger] attrs[j]).0
            != name by {
            if j > 0 {
                assert(rest[j - 1] == attrs[j]);
            }
        }
    }
}

/// Setting an attribute keeps the names distinct, and reading it back gives
/// the value that was set.
pub proof fn lemma_with_attribute(attrs: Seq<AttributeView>, name: Text, value: Text)
    ensures
        find_attribute(with_attribute(attrs, name, value), name) == Some(value),
        distinct_names(attrs) ==> distinct_names(with_attribute(attrs, name, value)),
        forall|other: Text|
            other != name ==> #[trigger] find_attribute(with_attribute(attrs, name, value), other)
                == find_attribute(attrs, other),
{
    let k = attribute_index(attrs, name);
    let out = with_attribute(attrs, name, value);
    lemma_attribute_index(attrs, name, 0);
    assert forall|j: int| 0 <= j < k implies (#[trigger] out[j]).0 != name by {
        assert(out[j] == attrs[j]);
    }
    lemma_attribute_index(out, name, k);
    if distinct_names(attrs) {
        assert forall|i: int, j: int| 0 <= i < j < out.len() implies (#[trigger] out[i]).0 != (
        #[trigger] out[j]).0 by {
            if k < attrs.len() {
                assert(out[i].0 == attrs[i].0);
                assert(out[j].0 == attrs[j].0);
            } else if j == attrs.len() {
                assert(out[i] == attrs[i]);
            } else {
                assert(out[i] == attrs[i]);
                assert(out[j] == attrs[j]);
            }
        }
    }
    assert forall|other: Text| other != name implies #[trigger] find_attribute(out, other)
        == find_attribute(attrs, other) by {
        let m = attribute_index(attrs, other);
        lemma_attribute_index(attrs, other, 0);
        assert forall|j: int| 0 <= j < m implies (#[trigger] out[j]).0 != other by {
            if j < attrs.len() && j != k {
                assert(out[j] == attrs[j]);
            }
        }
        if m < attrs.len() {
            assert(out[m] == attrs[m]);
            lemma_attribute_index(out, other, m);
        } else {
            if k < attrs.len() {
                lemma_attribute_index(out, other, m);
            } else {
                lemma_attribute_index(out, other, m + 1);
            }
        }
    }
}

/// The value of the first attribute named `name`.
pub fn get_attribute<'a>(attrs: &'a Vec<Attribute>, name: &str) -> (r: Option<&'a String>)
    ensures
        (match r {
            Some(v) => Some(v@),
            None => None,
        }) == find_attribute(attributes_view(attrs@), name@),
{
    let ghost model = attributes_view(attrs@);
    let mut i: usize = 0;
    while i < attrs.len()
        invariant
            i <= attrs.len(),
            model == attributes_view(attrs@),
            forall|j: int| 0 <= j < i ==> (#[trigger] model[j]).0 != name@,
        decreases attrs.len() - i,
    {
        if same_text(attrs[i].name.as_str(), name) {
            proof {
                lemma_attribute_index(model, name@, i as int);
            }
            return Some(&attrs[i].value);
        }
        i += 1;
    }
    proof {
        lemma_attribute_index(model, name@, i as int);
    }
    None
}

/// Sets the attribute named `name` to `value`: in place where there is one,
/// as a new last attribute otherwise.
pub fn set_attribute(attrs: &mut Vec<Attribute>, name: &str, value: String)
    ensures
        attributes_view(final(attrs)@) == with_attribute(
            attributes_view(old(attrs)@),
            name@,
            value@,
        ),
        distinct_names(attributes_view(old(attrs)@)) ==> distinct_names(
            attributes_view(final(attrs)@),
        ),
{
    proof {
        lemma_with_attribute(attributes_view(attrs@), name@, value@);
    }
    let ghost model = attributes_view(attrs@);
    let mut i: usize = 0;
    while i < attrs.len()
        invariant
            i <= attrs.len(),
            attrs@ == old(attrs)@,
            model == attributes_view(attrs@),
            forall|j: int| 0 <= j < i ==> (#[trigger] model[j]).0 != name@,
        decreases attrs.len() - i,
    {
        if same_text(attrs[i].name.as_str(), name) {
            proof {
                lemma_attribute_index(model, name@, i as int);
            }
            attrs[i].value = value;
            assert(attributes_view(attrs@) =~= with_attribute(model, name@, value@));
            return ;
        }
        i += 1;
    }
    proof {
        lemma_attribute_index(model, name@, i as int);
    }
    attrs.push(Attribute { name: name.to_owned(), value });
    assert(attributes_view(attrs@) =~= with_attribute(model, name@, value@));
}

/// The view of an element, field by field.
pub proof fn lemma_element_view(e: ElementNode)
    ensures
        e@.prefix == option_text(e.prefix),
        e@.namespace == option_text(e.namespace),
        e@.namespaces == bindings_view(e.namespaces),
        e@.tag == e.tag@,
        e@.attributes == attributes_view(e.attributes@),
        e@.children == nodes_view(e.children@),
{
    assert(e@.attributes =~= attributes_view(e.attributes@));
    assert(e@.children =~= nodes_view(e.children@));
}

impl ElementNode {
    /// An element named `tag`, without attributes or children.
    pub fn new(tag: &str) -> (e: ElementNode)
        ensures
            e@ == (ElementView {
                prefix: None,
                namespace: None,
                namespaces: None,
                tag: tag@,
                attributes: Seq::empty(),
                children: Seq::empty(),
            }),
            well_formed(e@),
    {
        let e = ElementNode {
            prefix: None,
            namespace: None,
            namespaces: None,
            tag: tag.to_owned(),
            attributes: Vec::new(),
            children: Vec::new(),
        };
        assert(e@.attributes =~= Seq::empty());
        assert(e@.children =~= Seq::empty());
        e
    }

    /// The value of the attribute named `name`.
    pub fn attribute(&self, name: &str) -> (r: Option<&String>)
        ensures
            (match r {
                Some(v) => Some(v@),
                None => None,
            }) == find_attribute(self@.attributes, name@),
    {
        assert(self@.attributes =~= attributes_view(self.attributes@));
        get_attribute(&self.attributes, name)
    }
}

} // verus!
