//! Text substitution: the first two text leaves that are not blank, in
//! document order, take the two words, and nothing after them is touched.

use crate::document::{well_formed, with_attribute, ElementNode, ElementView, NodeView, Text};
use crate::laws::law_substitution_keeps_well_formed;
use crate::walk::{overwrite_slots, survey, Probe};
use crate::error::ReplaceError;
use crate::text::is_blank;
use vstd::prelude::*;

verus! {

/// A slot is a text leaf that is not blank.
pub open spec fn is_slot(n: NodeView) -> bool {
    n matches NodeView::Text(t) && !is_blank(t)
}

/// The number of slots in the subtree of `e`.
pub open spec fn slot_count(e: ElementView) -> nat
    decreases e, 0int,
{
    slots_before(e.children, e.children.len() as int)
}

/// The number of slots that `n` holds: itself, or those of its subtree.
pub open spec fn node_slots(n: NodeView) -> nat
    decreases n, 0int,
{
    match n {
        NodeView::Text(t) => if is_blank(t) {
            0
        } else {
            1
        },
        NodeView::Element(e) => slot_count(e),
        _ => 0,
    }
}

/// The number of slots in the first `k` of `children` and their subtrees.
pub open spec fn slots_before(children: Seq<NodeView>, k: int) -> nat
    decreases children, k,
{
    if k <= 0 || k > children.len() {
        0
    } else {
        slots_before(children, k - 1) + node_slots(children[k - 1])
    }
}

/// Two substitutions are all there are.
pub open spec fn up_to_two(n: nat) -> nat {
    if n >= 2 {
        2
    } else {
        n
    }
}

/// The word that the next substitution writes once `done` have been made.
pub open spec fn word_for(done: nat, first: Text, second: Text) -> Text {
    if done == 0 {
        first
    } else {
        second
    }
}

/// Whether a slot among the first `n` of `children` is the first slot of the
/// whole run: a text leaf with no slot before it.
pub open spec fn leads_with_text(children: Seq<NodeView>, n: int) -> bool
    decreases n,
{
    if n <= 0 {
        false
    } else {
        leads_with_text(children, n - 1) || (is_slot(children[n - 1]) && slots_before(
            children,
            n - 1,
        ) == 0)
    }
}

/// The name of the attribute that makes the first word lighter.
pub open spec fn weight_name() -> Text {
    "font-weight"@
}

/// The value that it is set to.
pub open spec fn weight_value() -> Text {
    "200"@
}

/// The node after the walk has passed it, `done` substitutions having been
/// made before it is reached.
pub open spec fn substituted_node(
    n: NodeView,
    done: nat,
    first: Text,
    second: Text,
    lighten: bool,
) -> NodeView
    decreases n, 0int,
{
    match n {
        NodeView::Text(t) => if done < 2 && !is_blank(t) {
            NodeView::Text(word_for(done, first, second))
        } else {
            n
        },
        NodeView::Element(e) => NodeView::Element(substituted(e, done, first, second, lighten)),
        _ => n,
    }
}

/// The element after the walk has passed it, `done` substitutions having
/// been made before it is reached. Each child sees the substitutions made in
/// the children before it; the element whose own text leaf takes the first
/// word gets the lighter weight, where that is asked for.
pub open spec fn substituted(
    e: ElementView,
    done: nat,
    first: Text,
    second: Text,
    lighten: bool,
) -> ElementView
    decreases e, 0int,
{
    ElementView {
        prefix: e.prefix,
        namespace: e.namespace,
        namespaces: e.namespaces,
        tag: e.tag,
        attributes: if lighten && done == 0 && leads_with_text(
            e.children,
            e.children.len() as int,
        ) {
            with_attribute(e.attributes, weight_name(), weight_value())
        } else {
            e.attributes
        },
        children: Seq::new(
            e.children.len(),
            |k: int|
                if 0 <= k < e.children.len() {
                    substituted_node(
                        e.children[k],
                        up_to_two(done + slots_before(e.children, k)),
                        first,
                        second,
                        lighten,
                    )
                } else {
                    NodeView::Text(Seq::empty())
                },
        ),
    }
}

/// Once two substitutions are made the walk changes nothing.
pub proof fn lemma_substituted_after_two(e: ElementView, done: nat, first: Text, second: Text, lighten: bool)
    requires
        done >= 2,
    ensures
        substituted(e, done, first, second, lighten) == e,
    decreases e,
{
    let out = substituted(e, done, first, second, lighten);
    assert forall|k: int| 0 <= k < e.children.len() implies out.children[k] == e.children[k] by {
        match e.children[k] {
            NodeView::Element(c) => {
                lemma_substituted_after_two(c, 2, first, second, lighten);
            },
            _ => {},
        }
    }
    assert(out.children =~= e.children);
}

/// Counting further never counts fewer.
pub proof fn lemma_slots_before_grows(children: Seq<NodeView>, n: int)
    requires
        0 <= n <= children.len(),
    ensures
        forall|k: int| 0 <= k <= n ==> #[trigger] slots_before(children, k) <= slots_before(children, n),
    decreases n,
{
    if n > 0 {
        lemma_slots_before_grows(children, n - 1);
    }
}

/// Once a slot has been met, no later child is the first.
pub proof fn lemma_lead_settles(children: Seq<NodeView>, k: int, n: int)
    requires
        0 <= k <= n <= children.len(),
        slots_before(children, k) > 0,
    ensures
        leads_with_text(children, n) == leads_with_text(children, k),
    decreases n - k,
{
    if k < n {
        lemma_lead_settles(children, k, n - 1);
        lemma_slots_before_grows(children, n - 1);
    }
}

/// The number of text leaves of the document that are not blank, counted as
/// far as two.
pub fn usable_slots(root: &ElementNode) -> (n: usize)
    ensures
        n == up_to_two(slot_count(root@)),
{
    survey(root, Probe::TextSlots).slots
}

/// Overwrites the first text leaves that are not blank, in document order:
/// the first with `first`, the second with `second`, and no more. Where
/// `lighten` is set, the element whose own text leaf took `first` gets the
/// attribute `font-weight` with the value `200`. Returns how many leaves
/// were overwritten.
pub fn replace_text_leaves(root: &mut ElementNode, first: &str, second: &str, lighten: bool) -> (n:
    usize)
    ensures
        final(root)@ == substituted(old(root)@, 0, first@, second@, lighten),
        n == up_to_two(slot_count(old(root)@)),
        well_formed(old(root)@) ==> well_formed(final(root)@),
{
    proof {
        if well_formed(root@) {
            law_substitution_keeps_well_formed(root@, 0, first@, second@, lighten);
        }
    }
    overwrite_slots(root, first, second, lighten)
}

/// Puts the two words into the document's first two text slots. Fails with
/// `InsufficientTextNodes`, leaving the document as it was, where it has
/// fewer than two.
pub fn substitute(root: &mut ElementNode, first: &str, second: &str, lighten: bool) -> (r: Result<
    (),
    ReplaceError,
>)
    ensures
        r is Ok <==> slot_count(old(root)@) >= 2,
        r is Ok ==> final(root)@ == substituted(old(root)@, 0, first@, second@, lighten),
        r is Err ==> r == Err::<(), ReplaceError>(ReplaceError::InsufficientTextNodes),
        r is Err ==> *final(root) == *old(root),
        well_formed(old(root)@) ==> well_formed(final(root)@),
{
    if usable_slots(root) < 2 {
        return Err(ReplaceError::InsufficientTextNodes);
    }
    let _ = replace_text_leaves(root, first, second, lighten);
    Ok(())
}

} // verus!
