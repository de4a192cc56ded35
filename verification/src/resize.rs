//! Canvas resizing: the document's width and the width field of its view
//! box follow the measured width of the replacement words, while the left
//! margin and the right padding of the artwork stay what they were.

use crate::document::{
    find_attribute, lemma_element_view, nodes_view, set_attribute, well_formed, with_attribute,
    ElementNode, ElementView, Node, NodeView, Text,
};
use crate::laws::law_resize_keeps_well_formed;
use crate::walk::{survey, Probe};
use crate::error::ReplaceError;
use crate::number::{format_number, number_text, parse_number, parsed_number};
use crate::text::{push_text, split_whitespace, texts_of, tokens, trim_px, without_px};
use vstd::prelude::*;

verus! {

/// The name of the attribute that holds the canvas width.
pub open spec fn width_name() -> Text {
    "width"@
}

/// The name of the attribute that holds the view box.
pub open spec fn view_box_name() -> Text {
    "viewBox"@
}

/// The name of the attribute that holds an element's horizontal position.
pub open spec fn x_name() -> Text {
    "x"@
}

/// The canvas width that the element states: its `width` attribute, a
/// number that may be followed by `px`.
pub open spec fn canvas_width(e: ElementView) -> Option<i64> {
    match find_attribute(e.attributes, width_name()) {
        Some(v) => parsed_number(without_px(v)),
        None => None,
    }
}

/// Four fields, each a number.
pub open spec fn are_view_box_fields(fields: Seq<Text>) -> bool {
    &&& fields.len() == 4
    &&& forall|i: int| 0 <= i < 4 ==> (#[trigger] parsed_number(fields[i])) is Some
}

/// The fields of the element's view box: the tokens of its `viewBox`
/// attribute, where they are four numbers.
pub open spec fn view_box_fields(e: ElementView) -> Option<Seq<Text>> {
    match find_attribute(e.attributes, view_box_name()) {
        Some(v) => if are_view_box_fields(tokens(v)) {
            Some(tokens(v))
        } else {
            None
        },
        None => None,
    }
}

/// The horizontal position that the element itself states.
pub open spec fn own_x(e: ElementView) -> Option<i64> {
    match find_attribute(e.attributes, x_name()) {
        Some(v) => parsed_number(v),
        None => None,
    }
}

/// The horizontal position of the first element, in document order, that
/// states one: the element itself, or else the first found below it.
pub open spec fn first_x(e: ElementView) -> Option<i64>
    decreases e, 0int,
{
    if own_x(e) is Some {
        own_x(e)
    } else {
        first_x_among(e.children, 0)
    }
}

/// The first horizontal position stated in the subtrees of the children
/// from `from` on.
pub open spec fn first_x_among(children: Seq<NodeView>, from: int) -> Option<i64>
    decreases children, children.len() - from,
{
    if from < 0 || from >= children.len() {
        None
    } else {
        match children[from] {
            NodeView::Element(c) => if first_x(c) is Some {
                first_x(c)
            } else {
                first_x_among(children, from + 1)
            },
            _ => first_x_among(children, from + 1),
        }
    }
}

/// The left margin of the artwork: the first stated horizontal position,
/// or zero where no element states one.
pub open spec fn left_margin(e: ElementView) -> int {
    match first_x(e) {
        Some(x) => x as int,
        None => 0,
    }
}

/// What lies between content of width `content` and the right edge of a
/// canvas of width `width`.
pub open spec fn padding_right_of(width: int, margin: int, content: int) -> int {
    width - margin - content
}

/// The wider of the two words.
pub open spec fn content_width(first_width: int, second_width: int) -> int {
    if first_width >= second_width {
        first_width
    } else {
        second_width
    }
}

/// The width of the canvas that holds the new content between the old left
/// margin and the old right padding. `baseline` is the width of the content
/// that the canvas was drawn for.
pub open spec fn new_width(e: ElementView, first_width: int, second_width: int, baseline: int) -> int {
    left_margin(e) + content_width(first_width, second_width) + padding_right_of(
        canvas_width(e).unwrap() as int,
        left_margin(e),
        baseline,
    )
}

/// The view box with its width field replaced: the four fields, separated by
/// single spaces.
pub open spec fn view_box_text(fields: Seq<Text>, width: int) -> Text {
    fields[0] + seq![' '] + fields[1] + seq![' '] + number_text(width) + seq![' '] + fields[3]
}

/// The element on a canvas of width `width`: its `width` attribute and the
/// third field of its view box state the new width, and nothing else differs.
pub open spec fn resized(e: ElementView, width: int) -> ElementView {
    ElementView {
        prefix: e.prefix,
        namespace: e.namespace,
        namespaces: e.namespaces,
        tag: e.tag,
        attributes: with_attribute(
            with_attribute(e.attributes, width_name(), number_text(width)),
            view_box_name(),
            view_box_text(view_box_fields(e).unwrap(), width),
        ),
        children: e.children,
    }
}

/// Whether the element states a canvas width and a view box.
pub open spec fn has_geometry(e: ElementView) -> bool {
    canvas_width(e) is Some && view_box_fields(e) is Some
}

/// What planning the new width returns.
pub open spec fn planned(e: ElementView, first_width: int, second_width: int, baseline: int) -> Result<
    i64,
    ReplaceError,
> {
    if !has_geometry(e) {
        Err(ReplaceError::AttributeParse)
    } else if i64::MIN <= new_width(e, first_width, second_width, baseline) <= i64::MAX {
        Ok(new_width(e, first_width, second_width, baseline) as i64)
    } else {
        Err(ReplaceError::NumericRange)
    }
}

fn option_view(r: Option<&String>) -> (s: Option<&str>)
    ensures
        (match s {
            Some(v) => Some(v@),
            None => None,
        }) == (match r {
            Some(v) => Some(v@),
            None => None,
        }),
{
    match r {
        Some(v) => Some(v.as_str()),
        None => None,
    }
}

/// Reads the canvas width that the document states.
pub fn read_canvas_width(root: &ElementNode) -> (r: Option<i64>)
    ensures
        r == canvas_width(root@),
{
    match option_view(root.attribute("width")) {
        Some(v) => {
            let bare = trim_px(v);
            parse_number(bare.as_str())
        },
        None => None,
    }
}

/// Reads the four fields of the document's view box.
pub fn read_view_box(root: &ElementNode) -> (r: Option<Vec<String>>)
    ensures
        (match r {
            Some(v) => Some(texts_of(v@)),
            None => None,
        }) == view_box_fields(root@),
{
    match option_view(root.attribute("viewBox")) {
        Some(v) => {
            let fields = split_whitespace(v);
            if fields.len() != 4 {
                return None;
            }
            let mut i: usize = 0;
            while i < 4
                invariant
                    i <= 4,
                    fields.len() == 4,
                    texts_of(fields@) == tokens(v@),
                    find_attribute(root@.attributes, view_box_name()) == Some(v@),
                    forall|k: int| 0 <= k < i ==> (#[trigger] parsed_number(tokens(v@)[k])) is Some,
                decreases 4 - i,
            {
                assert(texts_of(fields@)[i as int] == fields@[i as int]@);
                if parse_number(fields[i].as_str()).is_none() {
                    assert(parsed_number(tokens(v@)[i as int]) is None);
                    return None;
                }
                i += 1;
            }
            Some(fields)
        },
        None => None,
    }
}

/// Finds the first horizontal position that an element of the document
/// states, in document order.
pub fn find_first_x(root: &ElementNode) -> (r: Option<i64>)
    ensures
        r == first_x(root@),
{
    survey(root, Probe::Position).position
}

/// The left margin of the artwork, in units.
pub fn read_left_margin(root: &ElementNode) -> (m: i64)
    ensures
        m == left_margin(root@),
{
    match find_first_x(root) {
        Some(x) => x,
        None => 0,
    }
}

/// Computes the canvas width for words of the given widths. Fails with
/// `AttributeParse` where the document states no numeric width or no view
/// box of four numbers, and with `NumericRange` where the new width does not
/// fit.
pub fn plan_width(root: &ElementNode, first_width: i64, second_width: i64, baseline: i64) -> (r:
    Result<i64, ReplaceError>)
    ensures
        r == planned(root@, first_width as int, second_width as int, baseline as int),
{
    let width = match read_canvas_width(root) {
        Some(w) => w,
        None => {
            return Err(ReplaceError::AttributeParse);
        },
    };
    if read_view_box(root).is_none() {
        return Err(ReplaceError::AttributeParse);
    }
    let margin = read_left_margin(root);
    let content = if first_width >= second_width {
        first_width
    } else {
        second_width
    };
    let padding: i128 = width as i128 - margin as i128 - baseline as i128;
    let wide: i128 = margin as i128 + content as i128 + padding;
    if wide < i64::MIN as i128 || wide > i64::MAX as i128 {
        Err(ReplaceError::NumericRange)
    } else {
        Ok(wide as i64)
    }
}

/// What writing a width into the document returns: the resized document,
/// where it has a view box to write into.
pub open spec fn applied(e: ElementView, width: int) -> Result<ElementView, ReplaceError> {
    if view_box_fields(e) is Some {
        Ok(resized(e, width))
    } else {
        Err(ReplaceError::AttributeParse)
    }
}

/// Writes `width` into the document's `width` attribute and into the third
/// field of its view box. Fails with `AttributeParse`, leaving the document
/// as it was, where it has no view box of four numbers.
pub fn apply_width(root: &mut ElementNode, width: i64) -> (r: Result<(), ReplaceError>)
    ensures
        match applied(old(root)@, width as int) {
            Ok(v) => r is Ok && final(root)@ == v,
            Err(e) => r == Err::<(), ReplaceError>(e) && *final(root) == *old(root),
        },
        well_formed(old(root)@) ==> well_formed(final(root)@),
{
    proof {
        if well_formed(root@) {
            law_resize_keeps_well_formed(root@, width as int);
        }
    }
    let fields = match read_view_box(root) {
        Some(f) => f,
        None => {
            return Err(ReplaceError::AttributeParse);
        },
    };
    let text = format_number(width);
    let mut view_box = String::new();
    push_text(&mut view_box, fields[0].as_str());
    view_box.push(' ');
    push_text(&mut view_box, fields[1].as_str());
    view_box.push(' ');
    push_text(&mut view_box, text.as_str());
    view_box.push(' ');
    push_text(&mut view_box, fields[3].as_str());
    proof {
        let f = view_box_fields(old(root)@).unwrap();
        assert(f[0] == fields@[0]@);
        assert(f[1] == fields@[1]@);
        assert(f[3] == fields@[3]@);
        assert(view_box@ =~= view_box_text(f, width as int));
        lemma_element_view(*root);
    }
    set_attribute(&mut root.attributes, "width", text);
    set_attribute(&mut root.attributes, "viewBox", view_box);
    proof {
        lemma_element_view(*root);
        lemma_element_view(*old(root));
        assert(root@.children =~= old(root)@.children);
    }
    Ok(())
}

/// Resizes the canvas for words of the given widths: the new width keeps
/// the left margin and the right padding that the old one left around
/// content of width `baseline`. On failure the document is left as it was.
pub fn resize(root: &mut ElementNode, first_width: i64, second_width: i64, baseline: i64) -> (r:
    Result<(), ReplaceError>)
    ensures
        match planned(old(root)@, first_width as int, second_width as int, baseline as int) {
            Ok(w) => r is Ok && final(root)@ == resized(old(root)@, w as int),
            Err(e) => r == Err::<(), ReplaceError>(e) && *final(root) == *old(root),
        },
        well_formed(old(root)@) ==> well_formed(final(root)@),
{
    match plan_width(root, first_width, second_width, baseline) {
        Ok(w) => apply_width(root, w),
        Err(e) => Err(e),
    }
}

} // verus!
