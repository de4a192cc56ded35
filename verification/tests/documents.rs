use svg_replace::document::{Attribute, ElementNode, Node};
use svg_replace::error::ReplaceError;
use svg_replace::xml::{parse, serialize};

fn el(tag: &str, attrs: &[(&str, &str)], children: Vec<Node>) -> ElementNode {
    let mut e = ElementNode::new(tag);
    for (name, value) in attrs {
        e.attributes.push(Attribute { name: name.to_string(), value: value.to_string() });
    }
    e.children = children;
    e
}

#[test]
fn a_new_element_is_empty() {
    let e = ElementNode::new("svg");
    assert_eq!(e.tag, "svg");
    assert_eq!(e.prefix, None);
    assert_eq!(e.namespace, None);
    assert_eq!(e.namespaces, None);
    assert!(e.attributes.is_empty());
    assert!(e.children.is_empty());
}

#[test]
fn parsing_builds_the_tree_in_document_order() {
    let root = parse(b"<a z=\"1\" y=\"2\" x=\"3\"><b>hi</b><!--c-->\n  <c/><![CDATA[d]]>tail</a>").unwrap();
    let expected = el(
        "a",
        &[("z", "1"), ("y", "2"), ("x", "3")],
        vec![
            Node::Element(el("b", &[], vec![Node::Text("hi".to_string())])),
            Node::Comment("c".to_string()),
            Node::Element(el("c", &[], vec![])),
            Node::CData("d".to_string()),
            Node::Text("tail".to_string()),
        ],
    );
    assert_eq!(root, expected);
}

#[test]
fn parsing_keeps_the_namespace() {
    let root = parse(b"<svg xmlns=\"http://www.w3.org/2000/svg\" width=\"4\"><g/></svg>").unwrap();
    assert_eq!(root.tag, "svg");
    assert_eq!(root.namespace, Some("http://www.w3.org/2000/svg".to_string()));
    let bindings = root.namespaces.clone().unwrap();
    assert!(bindings.contains(&("".to_string(), "http://www.w3.org/2000/svg".to_string())));
    assert_eq!(root.attributes, vec![Attribute { name: "width".to_string(), value: "4".to_string() }]);
}

#[test]
fn malformed_input_is_rejected() {
    assert_eq!(parse(b"<a><b></a>"), Err(ReplaceError::XmlParse));
    assert_eq!(parse(b""), Err(ReplaceError::XmlParse));
    assert_eq!(parse(b"no markup"), Err(ReplaceError::XmlParse));
    assert_eq!(parse(b"<a x=1/>"), Err(ReplaceError::XmlParse));
    assert_eq!(parse(b"<!-- only a comment -->"), Err(ReplaceError::XmlParse));
}

#[test]
fn writing_emits_the_markup() {
    let root = el("a", &[("x", "1"), ("y", "<2>")], vec![Node::Element(el("b", &[], vec![Node::Text("h&i".to_string())]))]);
    let bytes = serialize(&root).unwrap();
    let out = String::from_utf8(bytes).unwrap();
    assert!(out.starts_with("<?xml"), "{}", out);
    assert!(out.ends_with("<a x=\"1\" y=\"&lt;2&gt;\"><b>h&amp;i</b></a>"), "{}", out);
}

#[test]
fn parsing_what_was_written_gives_the_tree_back() {
    let source = b"<svg xmlns=\"http://www.w3.org/2000/svg\" width=\"400\" height=\"100\" viewBox=\"0 0 400 100\"><g id=\"w\"><text x=\"20\" y=\"60\">Systems</text><text x=\"20\" y=\"90\">Engineering &amp; more</text></g></svg>";
    let root = parse(source).unwrap();
    let again = parse(&serialize(&root).unwrap()).unwrap();
    assert_eq!(root, again);
    assert_eq!(root.attributes.len(), 3);
    assert_eq!(root.attributes[2].name, "viewBox");
}
