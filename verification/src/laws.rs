//! What holds of substitution and resizing together: the geometry that one
//! reads is the geometry that the other wrote, and the margins of the
//! artwork survive both.

use crate::document::{
    find_attribute, lemma_with_attribute, node_well_formed, well_formed, with_attribute,
    AttributeView, ElementView, NodeView, Text,
};
use crate::error::ReplaceError;
use crate::pipeline::{run_outcome, transformed, ReplacementView};
use crate::number::{
    is_digit, lemma_number_round_trip, lemma_number_text_shape, number_text, parsed_number,
};
use crate::resize::{
    are_view_box_fields, canvas_width, content_width, first_x, first_x_among, has_geometry,
    left_margin, new_width, own_x, padding_right_of, planned, resized, view_box_fields,
    view_box_name, view_box_text, width_name, x_name,
};
use crate::substitute::{
    node_slots, slot_count, slots_before, substituted, substituted_node, up_to_two, weight_name,
    weight_value, word_for,
};
use crate::text::{
    ends_with_px, is_blank, is_whitespace, is_word, lemma_tokens_are_words, lemma_tokens_of_joined,
    tokens, without_px,
};
use vstd::prelude::*;

verus! {

/// The attribute names that the library reads and writes are four different
/// names.
pub proof fn lemma_names_differ()
    ensures
        width_name() != view_box_name(),
        width_name() != x_name(),
        width_name() != weight_name(),
        view_box_name() != x_name(),
        view_box_name() != weight_name(),
        x_name() != weight_name(),
{
    reveal_strlit("width");
    reveal_strlit("viewBox");
    reveal_strlit("x");
    reveal_strlit("font-weight");
    assert(width_name().len() == 5);
    assert(view_box_name().len() == 7);
    assert(x_name().len() == 1);
    assert(weight_name().len() == 11);
}

/// A written quantity is a word, carries no unit, and reads back as itself.
pub proof fn lemma_number_text_reads_back(w: int)
    requires
        i64::MIN <= w <= i64::MAX,
    ensures
        is_word(number_text(w)),
        without_px(number_text(w)) == number_text(w),
        parsed_number(number_text(w)) == Some(w as i64),
{
    let t = number_text(w);
    lemma_number_text_shape(w);
    lemma_number_round_trip(w);
    assert forall|i: int| 0 <= i < t.len() implies !is_whitespace(#[trigger] t[i]) by {
        let c = t[i];
        assert(is_digit(c) || c == '-' || c == '.');
    }
    assert(!ends_with_px(t));
}

/// The view box that resizing writes has the old fields around the new
/// width.
pub proof fn lemma_view_box_text_fields(fields: Seq<Text>, w: int)
    requires
        are_view_box_fields(fields),
        forall|k: int| 0 <= k < 4 ==> is_word(#[trigger] fields[k]),
        i64::MIN <= w <= i64::MAX,
    ensures
        tokens(view_box_text(fields, w)) == fields.update(2, number_text(w)),
        are_view_box_fields(fields.update(2, number_text(w))),
{
    let t = number_text(w);
    let space = seq![' '];
    lemma_number_text_reads_back(w);
    assert(is_word(fields[0]) && is_word(fields[1]) && is_word(fields[3]));
    let tail3 = fields[3];
    let tail2 = t + space + tail3;
    let tail1 = fields[1] + space + tail2;
    let whole = fields[0] + space + tail1;
    lemma_tokens_of_joined(tail3, Seq::empty());
    lemma_tokens_of_joined(t, tail3);
    lemma_tokens_of_joined(fields[1], tail2);
    lemma_tokens_of_joined(fields[0], tail1);
    assert(whole =~= view_box_text(fields, w));
    let out = fields.update(2, t);
    assert(tokens(whole) =~= out);
    assert forall|i: int| 0 <= i < 4 implies (#[trigger] parsed_number(out[i])) is Some by {
        if i != 2 {
            assert(out[i] == fields[i]);
            assert(parsed_number(fields[i]) is Some);
        }
    }
}

/// After resizing, the document states the new width, its view box has the
/// old fields around the new width, and its left margin is the old one.
pub proof fn law_resized_geometry(e: ElementView, w: int)
    requires
        has_geometry(e),
        i64::MIN <= w <= i64::MAX,
    ensures
        canvas_width(resized(e, w)) == Some(w as i64),
        view_box_fields(resized(e, w)) == Some(view_box_fields(e).unwrap().update(2, number_text(w))),
        first_x(resized(e, w)) == first_x(e),
        left_margin(resized(e, w)) == left_margin(e),
{
    let fields = view_box_fields(e).unwrap();
    let t = number_text(w);
    let v = view_box_text(fields, w);
    let a1 = with_attribute(e.attributes, width_name(), t);
    let a2 = with_attribute(a1, view_box_name(), v);
    let out = resized(e, w);
    lemma_names_differ();
    lemma_with_attribute(e.attributes, width_name(), t);
    lemma_with_attribute(a1, view_box_name(), v);
    lemma_number_text_reads_back(w);
    assert(find_attribute(a2, width_name()) == find_attribute(a1, width_name()));
    assert(find_attribute(a2, x_name()) == find_attribute(a1, x_name()));
    assert(find_attribute(a1, x_name()) == find_attribute(e.attributes, x_name()));
    lemma_tokens_are_words(find_attribute(e.attributes, view_box_name()).unwrap(), Seq::empty());
    lemma_view_box_text_fields(fields, w);
    assert(own_x(out) == own_x(e));
}

/// Resizing keeps the margins of the artwork: the left margin read from
/// the resized document is the old one, and the padding that its new width
/// leaves to the right of the new content is the padding that the old width
/// left to the right of the baseline content.
pub proof fn law_resize_keeps_margins(e: ElementView, first_width: int, second_width: int, baseline: int)
    requires
        planned(e, first_width, second_width, baseline) is Ok,
    ensures
        ({
            let w = new_width(e, first_width, second_width, baseline);
            let out = resized(e, w);
            &&& planned(e, first_width, second_width, baseline) == Ok::<i64, ReplaceError>(w as i64)
            &&& canvas_width(out) == Some(w as i64)
            &&& left_margin(out) == left_margin(e)
            &&& padding_right_of(
                canvas_width(out).unwrap() as int,
                left_margin(out),
                content_width(first_width, second_width),
            ) == padding_right_of(canvas_width(e).unwrap() as int, left_margin(e), baseline)
        }),
{
    let w = new_width(e, first_width, second_width, baseline);
    law_resized_geometry(e, w);
}

/// Setting the weight of an element leaves its geometry attributes alone.
pub proof fn lemma_weight_keeps_geometry(attrs: Seq<AttributeView>)
    ensures
        find_attribute(with_attribute(attrs, weight_name(), weight_value()), width_name())
            == find_attribute(attrs, width_name()),
        find_attribute(with_attribute(attrs, weight_name(), weight_value()), view_box_name())
            == find_attribute(attrs, view_box_name()),
        find_attribute(with_attribute(attrs, weight_name(), weight_value()), x_name())
            == find_attribute(attrs, x_name()),
{
    lemma_names_differ();
    lemma_with_attribute(attrs, weight_name(), weight_value());
}

/// Substitution leaves the geometry alone: the stated width, the view box
/// and the first horizontal position are what they were.
pub proof fn law_substitution_keeps_geometry(
    e: ElementView,
    done: nat,
    first: Text,
    second: Text,
    lighten: bool,
)
    ensures
        canvas_width(substituted(e, done, first, second, lighten)) == canvas_width(e),
        view_box_fields(substituted(e, done, first, second, lighten)) == view_box_fields(e),
        own_x(substituted(e, done, first, second, lighten)) == own_x(e),
        first_x(substituted(e, done, first, second, lighten)) == first_x(e),
        left_margin(substituted(e, done, first, second, lighten)) == left_margin(e),
    decreases e, e.children.len() + 1,
{
    lemma_weight_keeps_geometry(e.attributes);
    lemma_first_x_among_substituted(e, done, first, second, lighten, 0);
}

proof fn lemma_first_x_among_substituted(
    e: ElementView,
    done: nat,
    first: Text,
    second: Text,
    lighten: bool,
    from: int,
)
    requires
        0 <= from,
    ensures
        first_x_among(substituted(e, done, first, second, lighten).children, from) == first_x_among(
            e.children,
            from,
        ),
    decreases e, e.children.len() - from,
{
    let out = substituted(e, done, first, second, lighten);
    if from < e.children.len() {
        lemma_first_x_among_substituted(e, done, first, second, lighten, from + 1);
        match e.children[from] {
            NodeView::Element(c) => {
                law_substitution_keeps_geometry(
                    c,
                    up_to_two(done + slots_before(e.children, from)),
                    first,
                    second,
                    lighten,
                );
            },
            _ => {},
        }
    }
}

/// A run keeps the margins of the artwork. Where it succeeds, the document
/// that comes out states the planned width, its left margin is the one read
/// from the input, and the padding that it leaves to the right of the new
/// content is the padding that the input left to the right of the baseline
/// content.
pub proof fn law_transform_keeps_margins(
    e: ElementView,
    request: ReplacementView,
    first_width: int,
    second_width: int,
    baseline: int,
)
    requires
        transformed(e, request, first_width, second_width, baseline) is Ok,
    ensures
        ({
            let out = transformed(e, request, first_width, second_width, baseline).unwrap();
            &&& canvas_width(out) == Some(new_width(e, first_width, second_width, baseline) as i64)
            &&& left_margin(out) == left_margin(e)
            &&& padding_right_of(
                canvas_width(out).unwrap() as int,
                left_margin(out),
                content_width(first_width, second_width),
            ) == padding_right_of(canvas_width(e).unwrap() as int, left_margin(e), baseline)
            &&& view_box_fields(out) == Some(
                view_box_fields(e).unwrap().update(
                    2,
                    number_text(new_width(e, first_width, second_width, baseline)),
                ),
            )
        }),
{
    let w = new_width(e, first_width, second_width, baseline);
    let mid = substituted(e, 0, request.first, request.second, request.lighten_first);
    law_substitution_keeps_geometry(e, 0, request.first, request.second, request.lighten_first);
    law_resized_geometry(mid, w);
}

/// The text leaves of the subtree of `e`, in document order.
pub open spec fn text_leaves(e: ElementView) -> Seq<Text>
    decreases e, 0int,
{
    leaves_before(e.children, e.children.len() as int)
}

/// The text leaves that `n` holds: itself, or those of its subtree.
pub open spec fn node_leaves(n: NodeView) -> Seq<Text>
    decreases n, 0int,
{
    match n {
        NodeView::Text(t) => seq![t],
        NodeView::Element(e) => text_leaves(e),
        _ => Seq::empty(),
    }
}

/// The text leaves in the first `k` of `children` and their subtrees.
pub open spec fn leaves_before(children: Seq<NodeView>, k: int) -> Seq<Text>
    decreases children, k,
{
    if k <= 0 || k > children.len() {
        Seq::empty()
    } else {
        leaves_before(children, k - 1) + node_leaves(children[k - 1])
    }
}

/// The number of texts among `ts` that are not blank.
pub open spec fn count_slots(ts: Seq<Text>) -> nat
    decreases ts.len(),
{
    if ts.len() == 0 {
        0
    } else if is_blank(ts.last()) {
        count_slots(ts.drop_last())
    } else {
        count_slots(ts.drop_last()) + 1
    }
}

/// Whether the walk overwrites the `i`-th of the texts `ts`, `done`
/// substitutions having been made before the first of them: it is not blank,
/// and fewer than two substitutions were made before it.
pub open spec fn is_overwritten(ts: Seq<Text>, done: nat, i: int) -> bool {
    !is_blank(ts[i]) && done + count_slots(ts.take(i)) < 2
}

/// The texts after the walk.
pub open spec fn overwritten(ts: Seq<Text>, done: nat, first: Text, second: Text) -> Seq<Text> {
    Seq::new(
        ts.len(),
        |i: int|
            if is_overwritten(ts, done, i) {
                word_for(done + count_slots(ts.take(i)), first, second)
            } else {
                ts[i]
            },
    )
}

/// The number of texts among the first `n` of `ts` that the walk overwrites.
pub open spec fn overwrites(ts: Seq<Text>, done: nat, n: int) -> nat
    decreases n,
{
    if n <= 0 {
        0
    } else if is_overwritten(ts, done, n - 1) {
        overwrites(ts, done, n - 1) + 1
    } else {
        overwrites(ts, done, n - 1)
    }
}

/// Two elements that differ at most in the content of text leaves that are
/// not blank and in the weight attribute: tags, names, the other attributes
/// and their order, the other nodes and the order of the children agree.
pub open spec fn same_outline(a: ElementView, b: ElementView) -> bool
    decreases a, 0int,
{
    &&& a.prefix == b.prefix
    &&& a.namespace == b.namespace
    &&& a.namespaces == b.namespaces
    &&& a.tag == b.tag
    &&& (b.attributes == a.attributes || b.attributes == with_attribute(
        a.attributes,
        weight_name(),
        weight_value(),
    ))
    &&& a.children.len() == b.children.len()
    &&& forall|k: int|
        0 <= k < a.children.len() ==> same_outline_node(#[trigger] a.children[k], b.children[k])
}

/// Two nodes of the same kind that agree but for the content of a text leaf
/// that is not blank, or for what `same_outline` lets two elements differ in.
pub open spec fn same_outline_node(x: NodeView, y: NodeView) -> bool
    decreases x, 0int,
{
    match x {
        NodeView::Text(s) => y is Text && (is_blank(s) ==> y == x),
        NodeView::Element(c) => y is Element && same_outline(c, y->Element_0),
        _ => y == x,
    }
}

/// The slots of two runs of texts are those of the one and of the other.
pub proof fn lemma_count_slots_concat(a: Seq<Text>, b: Seq<Text>)
    ensures
        count_slots(a + b) == count_slots(a) + count_slots(b),
    decreases b.len(),
{
    if b.len() == 0 {
        assert(a + b =~= a);
    } else {
        lemma_count_slots_concat(a, b.drop_last());
        assert((a + b).drop_last() =~= a + b.drop_last());
        assert((a + b).last() == b.last());
    }
}

/// The walk over two runs of texts is the walk over the first, then the walk
/// over the second with the substitutions of the first made.
pub proof fn lemma_overwritten_concat(a: Seq<Text>, b: Seq<Text>, done: nat, first: Text, second: Text)
    ensures
        overwritten(a + b, done, first, second) == overwritten(a, done, first, second) + overwritten(
            b,
            up_to_two(done + count_slots(a)),
            first,
            second,
        ),
{
    let whole = overwritten(a + b, done, first, second);
    let left = overwritten(a, done, first, second);
    let next = up_to_two(done + count_slots(a));
    let right = overwritten(b, next, first, second);
    assert forall|i: int| 0 <= i < whole.len() implies whole[i] == (left + right)[i] by {
        if i < a.len() {
            assert((a + b).take(i) =~= a.take(i));
        } else {
            let j = i - a.len();
            assert((a + b).take(i) =~= a + b.take(j));
            lemma_count_slots_concat(a, b.take(j));
            assert((a + b)[i] == b[j]);
            assert((left + right)[i] == right[j]);
        }
    }
    assert(whole =~= left + right);
}

/// The slots of a subtree are its text leaves that are not blank, and the
/// walk overwrites its text leaves as it overwrites them in a row.
pub proof fn law_substitution_overwrites_leaves(
    e: ElementView,
    done: nat,
    first: Text,
    second: Text,
    lighten: bool,
)
    ensures
        slot_count(e) == count_slots(text_leaves(e)),
        text_leaves(substituted(e, done, first, second, lighten)) == overwritten(
            text_leaves(e),
            done,
            first,
            second,
        ),
    decreases e, e.children.len() + 1,
{
    lemma_leaves_before_substituted(e, done, first, second, lighten, e.children.len() as int);
}

proof fn lemma_leaves_before_substituted(
    e: ElementView,
    done: nat,
    first: Text,
    second: Text,
    lighten: bool,
    k: int,
)
    requires
        0 <= k <= e.children.len(),
    ensures
        slots_before(e.children, k) == count_slots(leaves_before(e.children, k)),
        leaves_before(substituted(e, done, first, second, lighten).children, k) == overwritten(
            leaves_before(e.children, k),
            done,
            first,
            second,
        ),
    decreases e, k,
{
    let out = substituted(e, done, first, second, lighten).children;
    if k == 0 {
        assert(overwritten(Seq::<Text>::empty(), done, first, second) =~= Seq::<Text>::empty());
    } else {
        lemma_leaves_before_substituted(e, done, first, second, lighten, k - 1);
        let child = e.children[k - 1];
        let before = leaves_before(e.children, k - 1);
        let here = up_to_two(done + slots_before(e.children, k - 1));
        assert(out[k - 1] == substituted_node(child, here, first, second, lighten));
        match child {
            NodeView::Element(c) => {
                law_substitution_overwrites_leaves(c, here, first, second, lighten);
            },
            NodeView::Text(t) => {
                let one = seq![t];
                assert(one.drop_last() =~= Seq::<Text>::empty());
                assert(one.take(0) =~= Seq::<Text>::empty());
                assert(count_slots(Seq::<Text>::empty()) == 0);
                assert(one.last() == t);
                assert(count_slots(one) == node_slots(child));
                assert(overwritten(one, here, first, second) =~= node_leaves(out[k - 1]));
            },
            _ => {
                assert(overwritten(Seq::<Text>::empty(), here, first, second) =~= Seq::<
                    Text,
                >::empty());
            },
        }
        assert(node_leaves(out[k - 1]) == overwritten(node_leaves(child), here, first, second));
        assert(node_slots(child) == count_slots(node_leaves(child)));
        assert(slots_before(e.children, k) == slots_before(e.children, k - 1) + node_slots(child));
        lemma_count_slots_concat(before, node_leaves(child));
        lemma_overwritten_concat(before, node_leaves(child), done, first, second);
    }
}

/// The walk overwrites as many leaves as there are slots, but no more than
/// bring the substitutions to two.
pub proof fn law_overwrites_up_to_two(ts: Seq<Text>, done: nat, n: int)
    requires
        done <= 2,
        0 <= n <= ts.len(),
    ensures
        done + overwrites(ts, done, n) == up_to_two(done + count_slots(ts.take(n))),
    decreases n,
{
    if n == 0 {
        assert(ts.take(0) =~= Seq::<Text>::empty());
    } else {
        law_overwrites_up_to_two(ts, done, n - 1);
        assert(ts.take(n).drop_last() =~= ts.take(n - 1));
        assert(ts.take(n).last() == ts[n - 1]);
    }
}

/// On a whole document the walk overwrites two leaves, or every slot where
/// there are fewer.
pub proof fn law_overwritten_count(e: ElementView)
    ensures
        overwrites(text_leaves(e), 0, text_leaves(e).len() as int) == up_to_two(slot_count(e)),
{
    let ts = text_leaves(e);
    law_overwrites_up_to_two(ts, 0, ts.len() as int);
    assert(ts.take(ts.len() as int) =~= ts);
    law_substitution_overwrites_leaves(e, 0, Seq::empty(), Seq::empty(), false);
}

/// Substitution keeps the outline of the document: it changes the content
/// of text leaves that are not blank and the weight attribute, and nothing
/// else.
pub proof fn law_substitution_keeps_outline(
    e: ElementView,
    done: nat,
    first: Text,
    second: Text,
    lighten: bool,
)
    ensures
        same_outline(e, substituted(e, done, first, second, lighten)),
        !lighten ==> substituted(e, done, first, second, lighten).attributes == e.attributes,
    decreases e,
{
    let out = substituted(e, done, first, second, lighten);
    assert forall|k: int| 0 <= k < e.children.len() implies same_outline_node(
        #[trigger] e.children[k],
        out.children[k],
    ) by {
        let here = up_to_two(done + slots_before(e.children, k));
        match e.children[k] {
            NodeView::Element(c) => {
                law_substitution_keeps_outline(c, here, first, second, lighten);
            },
            _ => {},
        }
    }
}

/// Substitution keeps a well-formed document well-formed.
pub proof fn law_substitution_keeps_well_formed(
    e: ElementView,
    done: nat,
    first: Text,
    second: Text,
    lighten: bool,
)
    requires
        well_formed(e),
    ensures
        well_formed(substituted(e, done, first, second, lighten)),
    decreases e,
{
    let out = substituted(e, done, first, second, lighten);
    lemma_with_attribute(e.attributes, weight_name(), weight_value());
    assert forall|k: int| 0 <= k < out.children.len() implies node_well_formed(
        #[trigger] out.children[k],
    ) by {
        let here = up_to_two(done + slots_before(e.children, k));
        assert(node_well_formed(e.children[k]));
        match e.children[k] {
            NodeView::Element(c) => {
                law_substitution_keeps_well_formed(c, here, first, second, lighten);
            },
            _ => {},
        }
    }
}

/// Resizing keeps a well-formed document well-formed.
pub proof fn law_resize_keeps_well_formed(e: ElementView, w: int)
    requires
        well_formed(e),
    ensures
        well_formed(resized(e, w)),
{
    let a1 = with_attribute(e.attributes, width_name(), number_text(w));
    lemma_with_attribute(e.attributes, width_name(), number_text(w));
    lemma_with_attribute(a1, view_box_name(), view_box_text(view_box_fields(e).unwrap(), w));
    assert forall|k: int| 0 <= k < e.children.len() implies node_well_formed(
        #[trigger] resized(e, w).children[k],
    ) by {
        assert(node_well_formed(e.children[k]));
    }
}

/// The elements of the subtree of `e` in document order: the element
/// itself, then those of its children, child by child.
pub open spec fn elements_of(e: ElementView) -> Seq<ElementView>
    decreases e, e.children.len() + 1,
{
    seq![e] + elements_from(e.children, 0)
}

/// The elements in the subtrees of the children from `from` on, in document
/// order.
pub open spec fn elements_from(children: Seq<NodeView>, from: int) -> Seq<ElementView>
    decreases children, children.len() - from,
{
    if from < 0 || from >= children.len() {
        Seq::empty()
    } else {
        match children[from] {
            NodeView::Element(c) => elements_of(c) + elements_from(children, from + 1),
            _ => elements_from(children, from + 1),
        }
    }
}

/// The first horizontal position that one of the elements states.
pub open spec fn first_stated_x(es: Seq<ElementView>) -> Option<i64>
    decreases es.len(),
{
    if es.len() == 0 {
        None
    } else if own_x(es[0]) is Some {
        own_x(es[0])
    } else {
        first_stated_x(es.drop_first())
    }
}

/// The first position stated in two runs of elements is that of the first
/// run, or else that of the second.
pub proof fn lemma_first_stated_x_concat(a: Seq<ElementView>, b: Seq<ElementView>)
    ensures
        first_stated_x(a + b) == (if first_stated_x(a) is Some {
            first_stated_x(a)
        } else {
            first_stated_x(b)
        }),
    decreases a.len(),
{
    if a.len() == 0 {
        assert(a + b =~= b);
    } else {
        assert((a + b)[0] == a[0]);
        assert((a + b).drop_first() =~= a.drop_first() + b);
        lemma_first_stated_x_concat(a.drop_first(), b);
    }
}

/// The left margin is read in document order: the first stated position is
/// that of the first element, among all elements of the document in
/// document order, that states one.
pub proof fn law_first_x_is_first_in_document_order(e: ElementView)
    ensures
        first_x(e) == first_stated_x(elements_of(e)),
    decreases e, e.children.len() + 1,
{
    lemma_first_x_among_in_order(e, 0);
    let one = seq![e];
    lemma_first_stated_x_concat(one, elements_from(e.children, 0));
    assert(one[0] == e);
    assert(one.drop_first() =~= Seq::<ElementView>::empty());
    assert(first_stated_x(one.drop_first()) is None);
    assert(first_stated_x(one) == own_x(e));
}

proof fn lemma_first_x_among_in_order(e: ElementView, from: int)
    requires
        0 <= from,
    ensures
        first_x_among(e.children, from) == first_stated_x(elements_from(e.children, from)),
    decreases e, e.children.len() - from,
{
    if from < e.children.len() {
        lemma_first_x_among_in_order(e, from + 1);
        match e.children[from] {
            NodeView::Element(c) => {
                law_first_x_is_first_in_document_order(c);
                lemma_first_stated_x_concat(elements_of(c), elements_from(e.children, from + 1));
            },
            _ => {},
        }
    }
}

/// A run on a document with sound geometry and fewer than two text slots
/// fails for want of text slots, whatever the words are.
pub proof fn law_too_few_slots_fail_the_run(
    e: ElementView,
    request: ReplacementView,
    first_width: int,
    second_width: int,
    baseline: int,
)
    requires
        planned(e, first_width, second_width, baseline) is Ok,
        slot_count(e) < 2,
    ensures
        transformed(e, request, first_width, second_width, baseline) == Err::<
            ElementView,
            ReplaceError,
        >(ReplaceError::InsufficientTextNodes),
{
}

/// Without the font a run fails before anything else is looked at.
pub proof fn law_missing_font_fails_the_run(
    asset_read: bool,
    parsed: Option<ElementView>,
    request: ReplacementView,
    baseline: int,
)
    ensures
        run_outcome(None, asset_read, parsed, request, baseline) == Err::<Seq<u8>, ReplaceError>(
            ReplaceError::FontResolution,
        ),
{
}

} // verus!
