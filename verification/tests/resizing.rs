use svg_replace::document::{get_attribute, set_attribute, Attribute, ElementNode, Node};
use svg_replace::error::ReplaceError;
use svg_replace::resize::{
    apply_width, find_first_x, plan_width, read_canvas_width, read_left_margin, read_view_box,
    resize,
};

const PX: i64 = 1_000_000;

fn el(tag: &str, attrs: &[(&str, &str)], children: Vec<Node>) -> ElementNode {
    let mut e = ElementNode::new(tag);
    for (name, value) in attrs {
        e.attributes.push(Attribute { name: name.to_string(), value: value.to_string() });
    }
    e.children = children;
    e
}

fn artwork(width: &str, view_box: &str) -> ElementNode {
    el(
        "svg",
        &[("width", width), ("height", "100"), ("viewBox", view_box)],
        vec![
            Node::Element(el("rect", &[("width", "100%")], vec![])),
            Node::Element(el("text", &[("x", "20"), ("y", "60")], vec![Node::Text("Systems".to_string())])),
            Node::Element(el("text", &[("x", "25"), ("y", "90")], vec![Node::Text("Engineering".to_string())])),
        ],
    )
}

#[test]
fn attributes_are_found_by_name() {
    let e = el("a", &[("x", "1"), ("y", "2"), ("x", "3")], vec![]);
    assert_eq!(e.attribute("x"), Some(&"1".to_string()));
    assert_eq!(e.attribute("y"), Some(&"2".to_string()));
    assert_eq!(e.attribute("z"), None);
    assert_eq!(get_attribute(&e.attributes, "y"), Some(&"2".to_string()));
}

#[test]
fn setting_an_attribute_keeps_its_place_or_adds_it_last() {
    let mut e = el("a", &[("x", "1"), ("y", "2")], vec![]);
    set_attribute(&mut e.attributes, "x", "9".to_string());
    assert_eq!(e, el("a", &[("x", "9"), ("y", "2")], vec![]));
    set_attribute(&mut e.attributes, "z", "0".to_string());
    assert_eq!(e, el("a", &[("x", "9"), ("y", "2"), ("z", "0")], vec![]));
}

#[test]
fn reads_the_canvas_width_with_and_without_unit() {
    assert_eq!(read_canvas_width(&artwork("400", "0 0 400 100")), Some(400 * PX));
    assert_eq!(read_canvas_width(&artwork("400px", "0 0 400 100")), Some(400 * PX));
    assert_eq!(read_canvas_width(&artwork("400.5pxpx", "0 0 400 100")), Some(400 * PX + 500_000));
    assert_eq!(read_canvas_width(&artwork("100%", "0 0 400 100")), None);
    assert_eq!(read_canvas_width(&artwork(" 400", "0 0 400 100")), None);
    assert_eq!(read_canvas_width(&artwork("px", "0 0 400 100")), None);
    assert_eq!(read_canvas_width(&el("svg", &[("viewBox", "0 0 1 1")], vec![])), None);
}

#[test]
fn reads_a_view_box_of_four_numbers() {
    let four = |v: &[&str]| Some(v.iter().map(|s| s.to_string()).collect::<Vec<String>>());
    assert_eq!(read_view_box(&artwork("1", "0 0 400 100")), four(&["0", "0", "400", "100"]));
    assert_eq!(read_view_box(&artwork("1", " -1.5\t0.0\n400   +7 ")), four(&["-1.5", "0.0", "400", "+7"]));
    assert_eq!(read_view_box(&artwork("1", "0 0 400")), None);
    assert_eq!(read_view_box(&artwork("1", "0 0 400 100 5")), None);
    assert_eq!(read_view_box(&artwork("1", "0 0 wide 100")), None);
    assert_eq!(read_view_box(&artwork("1", "0 0 abc 400 100")), None);
    assert_eq!(read_view_box(&artwork("1", "0,0,400,100")), None);
    assert_eq!(read_view_box(&artwork("1", "")), None);
    assert_eq!(read_view_box(&el("svg", &[("width", "1")], vec![])), None);
}

#[test]
fn the_left_margin_is_the_first_position_in_document_order() {
    assert_eq!(find_first_x(&artwork("400", "0 0 400 100")), Some(20 * PX));
    assert_eq!(read_left_margin(&artwork("400", "0 0 400 100")), 20 * PX);
    let own = el("svg", &[("x", "3")], vec![Node::Element(el("a", &[("x", "4")], vec![]))]);
    assert_eq!(find_first_x(&own), Some(3 * PX));
    let deep = el(
        "svg",
        &[],
        vec![
            Node::Text("x".to_string()),
            Node::Element(el("a", &[], vec![Node::Element(el("b", &[("x", "-7.25")], vec![]))])),
            Node::Element(el("c", &[("x", "9")], vec![])),
        ],
    );
    assert_eq!(find_first_x(&deep), Some(-7_250_000));
}

#[test]
fn a_position_that_is_no_number_is_passed_over() {
    let e = el(
        "svg",
        &[("x", "left")],
        vec![
            Node::Element(el("a", &[("x", "20px")], vec![])),
            Node::Element(el("b", &[("x", "12")], vec![])),
        ],
    );
    assert_eq!(find_first_x(&e), Some(12 * PX));
}

#[test]
fn without_a_position_the_left_margin_is_zero() {
    let e = el("svg", &[("width", "1")], vec![Node::Element(el("a", &[("y", "4")], vec![]))]);
    assert_eq!(find_first_x(&e), None);
    assert_eq!(read_left_margin(&e), 0);
}

#[test]
fn the_new_width_keeps_margin_and_padding() {
    let root = artwork("400", "0 0 400 100");
    // 20 + max(10, 30) + (400 - 20 - 150)
    assert_eq!(plan_width(&root, 10 * PX, 30 * PX, 150 * PX), Ok(280 * PX));
    assert_eq!(plan_width(&root, 30 * PX, 10 * PX, 150 * PX), Ok(280 * PX));
    assert_eq!(plan_width(&root, 70 * PX, 150 * PX, 150 * PX), Ok(400 * PX));
    assert_eq!(plan_width(&root, 0, 0, 500 * PX), Ok(-100 * PX));
}

#[test]
fn planning_fails_without_numeric_geometry() {
    assert_eq!(plan_width(&artwork("wide", "0 0 400 100"), 1, 1, 1), Err(ReplaceError::AttributeParse));
    assert_eq!(plan_width(&artwork("400", "0 0 400"), 1, 1, 1), Err(ReplaceError::AttributeParse));
    assert_eq!(plan_width(&artwork("400", "0 0 x 100"), 1, 1, 1), Err(ReplaceError::AttributeParse));
    assert_eq!(plan_width(&el("svg", &[("viewBox", "0 0 1 1")], vec![]), 1, 1, 1), Err(ReplaceError::AttributeParse));
    assert_eq!(plan_width(&el("svg", &[("width", "1")], vec![]), 1, 1, 1), Err(ReplaceError::AttributeParse));
}

#[test]
fn planning_fails_where_the_width_does_not_fit() {
    let root = artwork("9223372036854.775807", "0 0 400 100");
    assert_eq!(plan_width(&root, 1, 0, 0), Err(ReplaceError::NumericRange));
    assert_eq!(plan_width(&root, 0, 0, 0), Ok(i64::MAX));
    assert_eq!(plan_width(&artwork("0", "0 0 1 1"), i64::MIN, i64::MIN, 1), Err(ReplaceError::NumericRange));
    assert_eq!(plan_width(&artwork("0", "0 0 1 1"), i64::MAX, 0, i64::MIN), Err(ReplaceError::NumericRange));
    assert_eq!(plan_width(&artwork("0", "0 0 1 1"), i64::MAX, i64::MIN, i64::MAX), Ok(0));
}

#[test]
fn resizing_writes_the_width_and_the_third_field() {
    let mut root = artwork("400px", "  0.0 -5.50\t400   100.0 ");
    assert_eq!(resize(&mut root, 10 * PX, 30 * PX, 150 * PX), Ok(()));
    assert_eq!(root, artwork("280", "0.0 -5.50 280 100.0"));
}

#[test]
fn resizing_writes_fractions() {
    let mut root = artwork("400", "0 0 400 100");
    assert_eq!(resize(&mut root, 12_345_678, 0, 150 * PX), Ok(()));
    assert_eq!(root, artwork("262.345678", "0 0 262.345678 100"));
}

#[test]
fn a_failed_resize_changes_nothing() {
    let mut root = artwork("400", "0 0 400");
    assert_eq!(resize(&mut root, 1, 1, 1), Err(ReplaceError::AttributeParse));
    assert_eq!(root, artwork("400", "0 0 400"));
    let mut wide = artwork("9223372036854", "0 0 400 100");
    assert_eq!(resize(&mut wide, PX, 0, 0), Err(ReplaceError::NumericRange));
    assert_eq!(wide, artwork("9223372036854", "0 0 400 100"));
}

#[test]
fn margins_read_from_the_output_are_those_of_the_input() {
    let input = artwork("400px", "0 0 400 100");
    let margin = read_left_margin(&input);
    let padding = read_canvas_width(&input).unwrap() - margin - 150 * PX;
    for (a, b) in [(10 * PX, 30 * PX), (70 * PX, 150 * PX), (333_333_333, 1), (0, 0)] {
        let mut root = artwork("400px", "0 0 400 100");
        assert_eq!(resize(&mut root, a, b, 150 * PX), Ok(()));
        let content = if a >= b { a } else { b };
        assert_eq!(read_left_margin(&root), margin);
        assert_eq!(read_canvas_width(&root).unwrap() - read_left_margin(&root) - content, padding);
        let fields = read_view_box(&root).unwrap();
        assert_eq!(fields[0], "0");
        assert_eq!(fields[1], "0");
        assert_eq!(fields[3], "100");
        assert_eq!(Some(fields[2].clone()), root.attribute("width").cloned());
    }
}

#[test]
fn applying_a_width_needs_only_a_view_box() {
    let mut root = el("svg", &[("viewBox", "1 2 3 4")], vec![]);
    assert_eq!(apply_width(&mut root, 5 * PX), Ok(()));
    assert_eq!(root, el("svg", &[("viewBox", "1 2 5 4"), ("width", "5")], vec![]));
    let mut bare = el("svg", &[("width", "3")], vec![]);
    assert_eq!(apply_width(&mut bare, 5 * PX), Err(ReplaceError::AttributeParse));
    assert_eq!(bare, el("svg", &[("width", "3")], vec![]));
}
