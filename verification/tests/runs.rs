use svg_replace::document::{ElementNode, Node};
use svg_replace::error::ReplaceError;
use svg_replace::metrics::{GlyphEntry, GlyphMetric, KerningEntry, MetricsTable};
use svg_replace::pipeline::{measure, replace, run, transform, Replacement};
use svg_replace::resize::{read_canvas_width, read_left_margin, read_view_box};
use svg_replace::xml::parse;

const PX: i64 = 1_000_000;

const LOGO: &[u8] = b"<?xml version=\"1.0\" encoding=\"UTF-8\"?>\n<svg xmlns=\"http://www.w3.org/2000/svg\" width=\"400\" height=\"100\" viewBox=\"0 0 400 100\">\n  <rect width=\"100%\" height=\"100%\" fill=\"#000\"/>\n  <text x=\"20\" y=\"60\" font-weight=\"700\">Systems</text>\n  <text x=\"20\" y=\"90\">Engineering</text>\n</svg>\n";

/// Every glyph advances by ten pixels and is ten wide, but `g`, whose box is
/// fifty wide: `Engineering` measures 150 pixels, `Systems` 70.
fn metrics() -> MetricsTable {
    let ten = 10_000_000;
    MetricsTable {
        glyphs: vec![GlyphEntry { ch: 'g', metric: GlyphMetric { advance: ten, bbox_left: 0, bbox_width: 5 * ten } }],
        kerning: Vec::<KerningEntry>::new(),
        fallback: GlyphMetric { advance: ten, bbox_left: 0, bbox_width: ten },
    }
}

fn request(first: &str, second: &str, lighten_first: bool) -> Replacement {
    Replacement { first: first.to_string(), second: second.to_string(), lighten_first }
}

fn texts(root: &ElementNode) -> Vec<String> {
    let mut out = Vec::new();
    for child in &root.children {
        match child {
            Node::Text(t) => out.push(t.clone()),
            Node::Element(e) => out.extend(texts(e)),
            _ => {}
        }
    }
    out
}

#[test]
fn the_reference_words_measure_as_the_artwork_was_drawn() {
    assert_eq!(metrics().width_of("Engineering"), Ok(150 * PX));
    assert_eq!(metrics().width_of("Systems"), Ok(70 * PX));
    assert_eq!(measure(&metrics(), &request("Systems", "Engineering", false)), Ok((70 * PX, 150 * PX)));
}

#[test]
fn the_words_of_the_artwork_reproduce_its_width() {
    let out = run(Some(&metrics()), Some(LOGO), &request("Systems", "Engineering", false), 150 * PX).unwrap();
    let root = parse(&out).unwrap();
    assert_eq!(root.attribute("width"), Some(&"400".to_string()));
    assert_eq!(root.attribute("viewBox"), Some(&"0 0 400 100".to_string()));
    assert_eq!(read_canvas_width(&root), Some(400 * PX));
    assert_eq!(texts(&root), vec!["Systems", "Engineering"]);
    let width = read_canvas_width(&root).unwrap() as f64 / PX as f64;
    assert!((width - 400.0).abs() <= 0.01);
}

#[test]
fn short_words_narrow_the_canvas_and_keep_the_margins() {
    let out = run(Some(&metrics()), Some(LOGO), &request("A", "B", false), 150 * PX).unwrap();
    let root = parse(&out).unwrap();
    let width = read_canvas_width(&root).unwrap();
    assert!(width < 400 * PX);
    assert_eq!(width, 260 * PX);
    assert_eq!(read_left_margin(&root), 20 * PX);
    assert_eq!(width - read_left_margin(&root) - 10 * PX, 230 * PX);
    assert_eq!(read_view_box(&root).unwrap(), vec!["0", "0", "260", "100"]);
    assert_eq!(root.attribute("height"), Some(&"100".to_string()));
    assert_eq!(texts(&root), vec!["A", "B"]);
}

#[test]
fn only_the_words_the_weight_and_the_width_differ_from_the_input() {
    let out = run(Some(&metrics()), Some(LOGO), &request("Verified", "Software", true), 150 * PX).unwrap();
    let root = parse(&out).unwrap();
    let mut expected = parse(LOGO).unwrap();
    expected.attributes[0].value = "330".to_string();
    expected.attributes[2].value = "0 0 330 100".to_string();
    match &mut expected.children[1] {
        Node::Element(t) => {
            assert_eq!(t.attributes[2].name, "font-weight");
            t.attributes[2].value = "200".to_string();
            t.children[0] = Node::Text("Verified".to_string());
        }
        _ => panic!("the second child is the first text element"),
    }
    match &mut expected.children[2] {
        Node::Element(t) => t.children[0] = Node::Text("Software".to_string()),
        _ => panic!("the third child is the second text element"),
    }
    assert_eq!(root, expected);
}

#[test]
fn a_missing_font_fails_the_run_before_anything_else() {
    let r = request("A", "B", false);
    assert_eq!(run(None, Some(LOGO), &r, 150 * PX), Err(ReplaceError::FontResolution));
    assert_eq!(run(None, None, &r, 150 * PX), Err(ReplaceError::FontResolution));
    assert_eq!(run(None, Some(b"<broken"), &r, 150 * PX), Err(ReplaceError::FontResolution));
}

#[test]
fn an_unreadable_asset_fails_the_run() {
    assert_eq!(run(Some(&metrics()), None, &request("A", "B", false), 150 * PX), Err(ReplaceError::AssetRead));
}

#[test]
fn a_malformed_asset_fails_the_run() {
    assert_eq!(
        run(Some(&metrics()), Some(b"<svg><text>a</text>"), &request("A", "B", false), 150 * PX),
        Err(ReplaceError::XmlParse)
    );
}

#[test]
fn an_asset_without_geometry_fails_the_run() {
    let no_width = b"<svg viewBox=\"0 0 400 100\"><text>a</text><text>b</text></svg>";
    let no_box = b"<svg width=\"400\"><text>a</text><text>b</text></svg>";
    let r = request("A", "B", false);
    assert_eq!(run(Some(&metrics()), Some(no_width), &r, 150 * PX), Err(ReplaceError::AttributeParse));
    assert_eq!(run(Some(&metrics()), Some(no_box), &r, 150 * PX), Err(ReplaceError::AttributeParse));
}

#[test]
fn an_asset_with_one_text_slot_fails_the_run() {
    let one = b"<svg width=\"400\" viewBox=\"0 0 400 100\"><text x=\"20\">only</text></svg>";
    assert_eq!(
        run(Some(&metrics()), Some(one), &request("A", "B", false), 150 * PX),
        Err(ReplaceError::InsufficientTextNodes)
    );
}

#[test]
fn a_width_out_of_range_fails_the_run() {
    let wide = b"<svg width=\"9223372036854\" viewBox=\"0 0 400 100\"><text>a</text><text>b</text></svg>";
    assert_eq!(
        run(Some(&metrics()), Some(wide), &request("A", "B", false), 0),
        Err(ReplaceError::NumericRange)
    );
}

#[test]
fn a_failed_transform_leaves_the_document_alone() {
    let one = b"<svg width=\"400\" viewBox=\"0 0 400 100\"><text x=\"20\">only</text></svg>";
    let mut root = parse(one).unwrap();
    assert_eq!(
        transform(&mut root, &request("A", "B", true), 10 * PX, 10 * PX, 150 * PX),
        Err(ReplaceError::InsufficientTextNodes)
    );
    assert_eq!(root, parse(one).unwrap());
    assert_eq!(
        replace(&mut root, &request("A", "B", true), &metrics(), 150 * PX),
        Err(ReplaceError::InsufficientTextNodes)
    );
    assert_eq!(root, parse(one).unwrap());
}

#[test]
fn geometry_is_checked_before_the_text_slots() {
    let neither = b"<svg width=\"wide\" viewBox=\"0 0 400 100\"><text>only</text></svg>";
    let mut root = parse(neither).unwrap();
    assert_eq!(
        transform(&mut root, &request("A", "B", false), PX, PX, PX),
        Err(ReplaceError::AttributeParse)
    );
}

#[test]
fn replace_measures_and_transforms() {
    let mut root = parse(LOGO).unwrap();
    assert_eq!(replace(&mut root, &request("Engineering", "A", false), &metrics(), 100 * PX), Ok(()));
    // 20 + 150 + (400 - 20 - 100)
    assert_eq!(read_canvas_width(&root), Some(450 * PX));
    assert_eq!(texts(&root), vec!["Engineering", "A"]);
}

#[test]
fn every_failure_has_a_message() {
    let all = [
        ReplaceError::FontResolution,
        ReplaceError::AssetRead,
        ReplaceError::XmlParse,
        ReplaceError::InsufficientTextNodes,
        ReplaceError::AttributeParse,
        ReplaceError::NumericRange,
        ReplaceError::Serialize,
    ];
    for (i, a) in all.iter().enumerate() {
        assert!(!a.message().is_empty());
        for b in &all[i + 1..] {
            assert_ne!(a.message(), b.message());
        }
    }
    assert_eq!(ReplaceError::XmlParse.message(), "the input document is not well-formed XML");
}
