use svg_replace::document::{Attribute, ElementNode, Node};
use svg_replace::error::ReplaceError;
use svg_replace::substitute::{replace_text_leaves, substitute, usable_slots};

fn el(tag: &str, attrs: &[(&str, &str)], children: Vec<Node>) -> ElementNode {
    let mut e = ElementNode::new(tag);
    for (name, value) in attrs {
        e.attributes.push(Attribute { name: name.to_string(), value: value.to_string() });
    }
    e.children = children;
    e
}

fn text(s: &str) -> Node {
    Node::Text(s.to_string())
}

fn logo() -> ElementNode {
    el(
        "svg",
        &[("width", "400")],
        vec![
            Node::Comment("Systems".to_string()),
            text("\n  "),
            Node::Element(el(
                "g",
                &[],
                vec![
                    Node::Element(el("text", &[("x", "20"), ("font-weight", "700"), ("y", "1")], vec![text("Systems")])),
                    Node::CData("Engineering".to_string()),
                    Node::Element(el("text", &[("x", "20")], vec![text(" "), text("Engineering")])),
                ],
            )),
            text("tail"),
            Node::Element(el("text", &[], vec![text("more")])),
        ],
    )
}

fn logo_with(first: &str, second: &str, weight: &str) -> ElementNode {
    el(
        "svg",
        &[("width", "400")],
        vec![
            Node::Comment("Systems".to_string()),
            text("\n  "),
            Node::Element(el(
                "g",
                &[],
                vec![
                    Node::Element(el("text", &[("x", "20"), ("font-weight", weight), ("y", "1")], vec![text(first)])),
                    Node::CData("Engineering".to_string()),
                    Node::Element(el("text", &[("x", "20")], vec![text(" "), text(second)])),
                ],
            )),
            text("tail"),
            Node::Element(el("text", &[], vec![text("more")])),
        ],
    )
}

#[test]
fn replaces_the_first_two_slots_and_stops() {
    let mut root = logo();
    assert_eq!(substitute(&mut root, "Verified", "Software", false), Ok(()));
    assert_eq!(root, logo_with("Verified", "Software", "700"));
}

#[test]
fn later_leaves_and_other_nodes_stay() {
    let mut root = logo();
    substitute(&mut root, "a", "b", false).unwrap();
    assert_eq!(root.children[0], Node::Comment("Systems".to_string()));
    assert_eq!(root.children[1], text("\n  "));
    assert_eq!(root.children[3], text("tail"));
    assert_eq!(root.children[4], Node::Element(el("text", &[], vec![text("more")])));
}

#[test]
fn lightening_overwrites_the_weight_of_the_first_parent_in_place() {
    let mut root = logo();
    assert_eq!(substitute(&mut root, "Verified", "Software", true), Ok(()));
    assert_eq!(root, logo_with("Verified", "Software", "200"));
}

#[test]
fn lightening_adds_the_weight_where_there_is_none() {
    let mut root = el("svg", &[("width", "1")], vec![text("one"), Node::Element(el("t", &[], vec![text("two")]))]);
    assert_eq!(substitute(&mut root, "A", "B", true), Ok(()));
    let expected = el(
        "svg",
        &[("width", "1"), ("font-weight", "200")],
        vec![text("A"), Node::Element(el("t", &[], vec![text("B")]))],
    );
    assert_eq!(root, expected);
}

#[test]
fn only_the_parent_of_the_first_slot_is_lightened() {
    let mut root = el(
        "svg",
        &[],
        vec![Node::Element(el("a", &[], vec![text("one")])), text("two"), text("three")],
    );
    assert_eq!(substitute(&mut root, "A", "B", true), Ok(()));
    let expected = el(
        "svg",
        &[],
        vec![Node::Element(el("a", &[("font-weight", "200")], vec![text("A")])), text("B"), text("three")],
    );
    assert_eq!(root, expected);
}

#[test]
fn one_slot_is_too_few() {
    let mut root = el("svg", &[], vec![text("  "), Node::Element(el("t", &[], vec![text("only")])), text("\n")]);
    assert_eq!(substitute(&mut root, "A", "B", true), Err(ReplaceError::InsufficientTextNodes));
    let same = el("svg", &[], vec![text("  "), Node::Element(el("t", &[], vec![text("only")])), text("\n")]);
    assert_eq!(root, same);
}

#[test]
fn no_slot_is_too_few() {
    let mut root = el("svg", &[], vec![Node::CData("x".to_string()), Node::Comment("y".to_string())]);
    assert_eq!(substitute(&mut root, "A", "B", false), Err(ReplaceError::InsufficientTextNodes));
    assert_eq!(root, el("svg", &[], vec![Node::CData("x".to_string()), Node::Comment("y".to_string())]));
}

#[test]
fn counts_slots_as_far_as_two() {
    assert_eq!(usable_slots(&el("svg", &[], vec![])), 0);
    assert_eq!(usable_slots(&el("svg", &[], vec![text(" "), text("a")])), 1);
    assert_eq!(usable_slots(&el("svg", &[], vec![text("a"), Node::Element(el("b", &[], vec![text("c")]))])), 2);
    assert_eq!(usable_slots(&logo()), 2);
}

#[test]
fn the_number_of_overwritten_leaves_is_the_lesser_of_two_and_the_slots() {
    let mut none = el("svg", &[], vec![text(" ")]);
    assert_eq!(replace_text_leaves(&mut none, "A", "B", true), 0);
    assert_eq!(none, el("svg", &[], vec![text(" ")]));

    let mut one = el("svg", &[], vec![Node::Element(el("t", &[], vec![text("x")]))]);
    assert_eq!(replace_text_leaves(&mut one, "A", "B", false), 1);
    assert_eq!(one, el("svg", &[], vec![Node::Element(el("t", &[], vec![text("A")]))]));

    let mut two = el("svg", &[], vec![text("x"), text("y")]);
    assert_eq!(replace_text_leaves(&mut two, "A", "B", false), 2);
    assert_eq!(two, el("svg", &[], vec![text("A"), text("B")]));

    let mut four = el("svg", &[], vec![text("x"), text("y"), text("z"), text("w")]);
    assert_eq!(replace_text_leaves(&mut four, "A", "B", false), 2);
    assert_eq!(four, el("svg", &[], vec![text("A"), text("B"), text("z"), text("w")]));
}

#[test]
fn the_walk_is_depth_first() {
    let mut root = el(
        "svg",
        &[],
        vec![
            Node::Element(el("a", &[], vec![Node::Element(el("b", &[], vec![text(" "), text("deep")]))])),
            text("shallow"),
            Node::Element(el("c", &[], vec![text("late")])),
        ],
    );
    assert_eq!(substitute(&mut root, "1", "2", true), Ok(()));
    let expected = el(
        "svg",
        &[],
        vec![
            Node::Element(el(
                "a",
                &[],
                vec![Node::Element(el("b", &[("font-weight", "200")], vec![text(" "), text("1")]))],
            )),
            text("2"),
            Node::Element(el("c", &[], vec![text("late")])),
        ],
    );
    assert_eq!(root, expected);
}

fn nested(depth: usize, innermost: Vec<Node>) -> ElementNode {
    let mut e = el("g", &[], innermost);
    for _ in 0..depth {
        e = el("g", &[], vec![Node::Element(e)]);
    }
    e
}

#[test]
fn deep_documents_are_walked_like_shallow_ones() {
    let mut root = nested(2000, vec![text("one"), text(" "), text("two"), text("three")]);
    assert_eq!(usable_slots(&root), 2);
    assert_eq!(substitute(&mut root, "A", "B", false), Ok(()));
    assert_eq!(root, nested(2000, vec![text("A"), text(" "), text("B"), text("three")]));
}

#[test]
fn a_walk_comes_back_up_for_the_second_slot() {
    let mut root = el(
        "svg",
        &[],
        vec![
            Node::Element(el("a", &[], vec![Node::Element(el("b", &[], vec![text("deep")])), Node::Element(el("c", &[], vec![]))])),
            Node::Comment("between".to_string()),
            Node::Element(el("d", &[], vec![Node::Element(el("e", &[], vec![text("far"), text("last")]))])),
        ],
    );
    assert_eq!(replace_text_leaves(&mut root, "1", "2", true), 2);
    let expected = el(
        "svg",
        &[],
        vec![
            Node::Element(el(
                "a",
                &[],
                vec![
                    Node::Element(el("b", &[("font-weight", "200")], vec![text("1")])),
                    Node::Element(el("c", &[], vec![])),
                ],
            )),
            Node::Comment("between".to_string()),
            Node::Element(el("d", &[], vec![Node::Element(el("e", &[], vec![text("2"), text("last")]))])),
        ],
    );
    assert_eq!(root, expected);
}
