//! Walks over the document in document order. A walk keeps the elements
//! that it has entered and not yet left on a stack of its own, so that the
//! depth of a document is no matter of the call stack, and it stops as soon
//! as it has what it came for.

use crate::document::{
    attributes_view, bindings_view, lemma_element_view, option_text, set_attribute,
    with_attribute, ElementNode, ElementView, Node, NodeView, Text,
};
use crate::substitute::{
    is_slot, leads_with_text, lemma_lead_settles, lemma_slots_before_grows,
    lemma_substituted_after_two, node_slots, slot_count, slots_before, substituted,
    substituted_node, up_to_two, weight_name, weight_value,
};
use crate::number::parse_number;
use crate::resize::{first_x, first_x_among, own_x};
use crate::text::str_is_blank;
use vstd::prelude::*;

verus! {

/// An element that the walk has entered and not yet left, while the walk is
/// in the subtree of one of its children: that child is taken out, and a
/// placeholder stands at `hole` in its stead.
struct Frame {
    element: ElementNode,
    hole: usize,
}

/// The nodes in the subtree of `n`, counted twice where they are elements:
/// once for entering and once for leaving.
spec fn node_work(n: NodeView) -> nat
    decreases n, 0int,
{
    match n {
        NodeView::Element(e) => 2 + rest_work(e.children, 0),
        _ => 1,
    }
}

/// The work that the children from `from` on hold.
spec fn rest_work(children: Seq<NodeView>, from: int) -> nat
    decreases children, children.len() - from,
{
    if from < 0 || from >= children.len() {
        0
    } else {
        node_work(children[from]) + rest_work(children, from + 1)
    }
}

/// The work that is left when the walk stands before the child `nexts[j]`
/// of each open element `origs[j]`.
spec fn work_left(origs: Seq<ElementView>, nexts: Seq<int>) -> nat
    decreases origs.len(),
{
    if origs.len() == 0 {
        0
    } else {
        work_left(origs.drop_last(), nexts.drop_last()) + 1 + rest_work(
            origs.last().children,
            nexts.last(),
        )
    }
}

/// The header of `e` is that of `orig`, but for the weight where the walk
/// has set it: that is where the first word went into one of the first
/// `upto` children.
spec fn header_walked(
    e: ElementNode,
    orig: ElementView,
    done: nat,
    upto: int,
    lighten: bool,
) -> bool {
    &&& option_text(e.prefix) == orig.prefix
    &&& option_text(e.namespace) == orig.namespace
    &&& bindings_view(e.namespaces) == orig.namespaces
    &&& e.tag@ == orig.tag
    &&& e.children@.len() == orig.children.len()
    &&& attributes_view(e.attributes@) == (if lighten && done == 0 && leads_with_text(
        orig.children,
        upto,
    ) {
        with_attribute(orig.attributes, weight_name(), weight_value())
    } else {
        orig.attributes
    })
}

/// The `t`-th child of `e` is as the walk leaves it.
spec fn child_walked(
    e: ElementNode,
    orig: ElementView,
    done: nat,
    t: int,
    first: Text,
    second: Text,
    lighten: bool,
) -> bool {
    e.children@[t]@ == substituted_node(
        orig.children[t],
        up_to_two(done + slots_before(orig.children, t)),
        first,
        second,
        lighten,
    )
}

/// The walk has passed the first `upto` children of `e` and has not touched
/// the others.
spec fn walked_to(
    e: ElementNode,
    orig: ElementView,
    done: nat,
    upto: int,
    first: Text,
    second: Text,
    lighten: bool,
) -> bool {
    &&& header_walked(e, orig, done, upto, lighten)
    &&& 0 <= upto <= orig.children.len()
    &&& forall|t: int| 0 <= t < upto ==> #[trigger] child_walked(e, orig, done, t, first, second, lighten)
    &&& forall|t: int| upto <= t < orig.children.len() ==> (#[trigger] e.children@[t])@ == orig.children[t]
}

/// The walk has passed the children of the frame's element before the hole,
/// has taken out the child at the hole, and has not touched the others.
spec fn frame_walked(
    f: Frame,
    orig: ElementView,
    done: nat,
    first: Text,
    second: Text,
    lighten: bool,
) -> bool {
    &&& header_walked(f.element, orig, done, f.hole as int, lighten)
    &&& 0 <= f.hole < orig.children.len()
    &&& orig.children[f.hole as int] is Element
    &&& forall|t: int|
        0 <= t < f.hole ==> #[trigger] child_walked(f.element, orig, done, t, first, second, lighten)
    &&& forall|t: int|
        f.hole < t < orig.children.len() ==> (#[trigger] f.element.children@[t])@ == orig.children[t]
}

/// The `j`-th frame is walked, and the element above it is the child taken
/// out of it, entered with the substitutions made before that child.
spec fn linked(
    stack: Seq<Frame>,
    origs: Seq<ElementView>,
    dones: Seq<nat>,
    j: int,
    first: Text,
    second: Text,
    lighten: bool,
) -> bool {
    &&& frame_walked(stack[j], origs[j], dones[j], first, second, lighten)
    &&& NodeView::Element(origs[j + 1]) == origs[j].children[stack[j].hole as int]
    &&& dones[j + 1] == up_to_two(
        dones[j] + slots_before(origs[j].children, stack[j].hole as int),
    )
}

/// The places at which the walk stands in the open elements: behind the hole
/// of each frame, and at `i` in the topmost.
spec fn places(stack: Seq<Frame>, i: int) -> Seq<int> {
    Seq::new(stack.len() + 1, |j: int| if j < stack.len() { stack[j].hole + 1 } else { i })
}

proof fn lemma_no_lead_without_slots(children: Seq<NodeView>, n: int)
    requires
        0 <= n <= children.len(),
        slots_before(children, n) == 0,
    ensures
        !leads_with_text(children, n),
    decreases n,
{
    if n > 0 {
        assert(slots_before(children, n) == slots_before(children, n - 1) + node_slots(
            children[n - 1],
        ));
        lemma_no_lead_without_slots(children, n - 1);
    }
}

/// An element that the walk has passed, or has left at two substitutions,
/// is what the walk makes of it.
proof fn lemma_walked_is_substituted(
    e: ElementNode,
    orig: ElementView,
    done: nat,
    upto: int,
    first: Text,
    second: Text,
    lighten: bool,
)
    requires
        walked_to(e, orig, done, upto, first, second, lighten),
        upto == orig.children.len() || up_to_two(done + slots_before(orig.children, upto)) == 2,
    ensures
        e@ == substituted(orig, done, first, second, lighten),
        up_to_two(done + slots_before(orig.children, upto)) == up_to_two(done + slot_count(orig)),
{
    let goal = substituted(orig, done, first, second, lighten);
    let n = orig.children.len() as int;
    lemma_element_view(e);
    lemma_slots_before_grows(orig.children, n);
    assert forall|t: int| 0 <= t < n implies e@.children[t] == goal.children[t] by {
        if t < upto {
            assert(child_walked(e, orig, done, t, first, second, lighten));
        } else {
            lemma_slots_before_grows(orig.children, t);
            assert(slots_before(orig.children, upto) <= slots_before(orig.children, t));
            assert(e.children@[t]@ == orig.children[t]);
            match orig.children[t] {
                NodeView::Element(c) => {
                    lemma_substituted_after_two(c, 2, first, second, lighten);
                },
                _ => {},
            }
        }
    }
    assert(e@.children =~= goal.children);
    if upto < n && done == 0 {
        lemma_lead_settles(orig.children, upto, n);
    }
}

proof fn lemma_work_step(children: Seq<NodeView>, from: int)
    requires
        0 <= from < children.len(),
    ensures
        rest_work(children, from) == node_work(children[from]) + rest_work(children, from + 1),
        node_work(children[from]) >= 1,
{
}

proof fn lemma_work_left_top(origs: Seq<ElementView>, nexts: Seq<int>, next: int)
    requires
        origs.len() > 0,
        origs.len() == nexts.len(),
    ensures
        work_left(origs, nexts.update(nexts.len() - 1, next)) + rest_work(
            origs.last().children,
            nexts.last(),
        ) == work_left(origs, nexts) + rest_work(origs.last().children, next),
{
    let moved = nexts.update(nexts.len() - 1, next);
    assert(moved.drop_last() =~= nexts.drop_last());
    assert(moved.last() == next);
}

/// Walks the document in document order and overwrites the text slots that
/// it meets: the first with `first`, the second with `second`. It stops at
/// two. Where `lighten` is set, the element whose own text leaf took `first`
/// gets the lighter weight. Returns how many slots were overwritten.
pub fn overwrite_slots(root: &mut ElementNode, first: &str, second: &str, lighten: bool) -> (now: usize)
    ensures
        final(root)@ == substituted(old(root)@, 0, first@, second@, lighten),
        now == up_to_two(slot_count(old(root)@)),
{
    let mut cur = ElementNode::new("");
    std::mem::swap(root, &mut cur);
    let mut stack: Vec<Frame> = Vec::new();
    let mut now: usize = 0;
    let mut i: usize = 0;
    let ghost mut origs: Seq<ElementView> = seq![cur@];
    let ghost mut dones: Seq<nat> = seq![0nat];
    proof {
        lemma_element_view(cur);
        lemma_no_lead_without_slots(cur@.children, 0);
    }
    loop
        invariant
            origs.len() == stack.len() + 1,
            dones.len() == stack.len() + 1,
            origs[0] == old(root)@,
            dones[0] == 0,
            forall|j: int|
                0 <= j < stack.len() ==> #[trigger] linked(
                    stack@,
                    origs,
                    dones,
                    j,
                    first@,
                    second@,
                    lighten,
                ),
            walked_to(cur, origs.last(), dones.last(), i as int, first@, second@, lighten),
            now == up_to_two(dones.last() + slots_before(origs.last().children, i as int)),
        ensures
            cur@ == substituted(old(root)@, 0, first@, second@, lighten),
            now == up_to_two(slot_count(old(root)@)),
        decreases work_left(origs, places(stack@, i as int)),
    {
        let ghost orig = origs.last();
        let ghost done = dones.last();
        let ghost before_work = work_left(origs, places(stack@, i as int));
        if now < 2 && i < cur.children.len() {
            let ghost child = orig.children[i as int];
            proof {
                assert(cur.children@[i as int]@ == child);
                assert(slots_before(orig.children, i + 1) == slots_before(orig.children, i as int)
                    + node_slots(child));
                lemma_work_step(orig.children, i as int);
                lemma_work_left_top(origs, places(stack@, i as int), i + 1);
                assert(places(stack@, i as int).update(stack.len() as int, i + 1) =~= places(
                    stack@,
                    i + 1,
                ));
            }
            let kind: u8 = match &cur.children[i] {
                Node::Text(t) => if str_is_blank(t.as_str()) {
                    0
                } else {
                    1
                },
                Node::Element(_) => 2,
                _ => 0,
            };
            if kind == 1 {
                let word = if now == 0 {
                    first.to_owned()
                } else {
                    second.to_owned()
                };
                let ghost was = cur;
                cur.children[i] = Node::Text(word);
                if lighten && now == 0 {
                    proof {
                        lemma_no_lead_without_slots(orig.children, i as int);
                    }
                    set_attribute(&mut cur.attributes, "font-weight", "200".to_owned());
                }
                proof {
                    assert(is_slot(child));
                    assert forall|t: int| 0 <= t < i + 1 implies #[trigger] child_walked(
                        cur,
                        orig,
                        done,
                        t,
                        first@,
                        second@,
                        lighten,
                    ) by {
                        if t < i {
                            assert(child_walked(was, orig, done, t, first@, second@, lighten));
                            assert(cur.children@[t] == was.children@[t]);
                        }
                    }
                    assert forall|t: int| i + 1 <= t < orig.children.len() implies (
                    #[trigger] cur.children@[t])@ == orig.children[t] by {
                        assert(cur.children@[t] == was.children@[t]);
                    }
                }
                now = now + 1;
                i = i + 1;
                proof {
                    assert(header_walked(cur, orig, done, i as int, lighten));
                    assert(walked_to(cur, orig, done, i as int, first@, second@, lighten));
                    assert(work_left(origs, places(stack@, i as int)) < before_work);
                }
            } else if kind == 2 {
                let ghost was = cur;
                let mut taken = Node::Comment(String::new());
                let ghost placeholder = taken;
                std::mem::swap(&mut cur.children[i], &mut taken);
                match taken {
                    Node::Element(below) => {
                        let frame = Frame { element: cur, hole: i };
                        proof {
                            assert(frame.element.children@ == was.children@.update(
                                i as int,
                                placeholder,
                            ));
                            assert forall|t: int| 0 <= t < i implies #[trigger] child_walked(
                                frame.element,
                                orig,
                                done,
                                t,
                                first@,
                                second@,
                                lighten,
                            ) by {
                                assert(child_walked(was, orig, done, t, first@, second@, lighten));
                            }
                            assert(frame_walked(frame, orig, done, first@, second@, lighten));
                            lemma_element_view(below);
                            lemma_no_lead_without_slots(below@.children, 0);
                        }
                        let ghost old_stack = stack@;
                        let ghost old_origs = origs;
                        let ghost old_dones = dones;
                        stack.push(frame);
                        cur = below;
                        i = 0;
                        proof {
                            origs = origs.push(cur@);
                            dones = dones.push(now as nat);
                            assert forall|j: int| 0 <= j < stack.len() implies #[trigger] linked(
                                stack@,
                                origs,
                                dones,
                                j,
                                first@,
                                second@,
                                lighten,
                            ) by {
                                if j < old_stack.len() {
                                    assert(linked(
                                        old_stack,
                                        old_origs,
                                        old_dones,
                                        j,
                                        first@,
                                        second@,
                                        lighten,
                                    ));
                                }
                            }
                            assert(origs.drop_last() =~= old_origs);
                            assert(origs.last() == cur@);
                            assert(places(stack@, 0).drop_last() =~= places(
                                old_stack,
                                frame.hole + 1,
                            ));
                            assert(places(stack@, 0).last() == 0);
                            assert(child == NodeView::Element(cur@));
                            assert(node_work(child) == 2 + rest_work(cur@.children, 0));
                            assert(work_left(origs, places(stack@, 0)) < before_work);
                            assert(walked_to(cur, cur@, now as nat, 0, first@, second@, lighten));
                        }
                    },
                    _ => {
                        assert(false);
                    },
                }
            } else {
                proof {
                    assert(node_slots(child) == 0);
                    assert(substituted_node(child, now as nat, first@, second@, lighten) == child);
                    assert forall|t: int| 0 <= t < i + 1 implies #[trigger] child_walked(
                        cur,
                        orig,
                        done,
                        t,
                        first@,
                        second@,
                        lighten,
                    ) by {}
                    assert(leads_with_text(orig.children, i + 1) == leads_with_text(
                        orig.children,
                        i as int,
                    ));
                }
                i = i + 1;
                proof {
                    assert(walked_to(cur, orig, done, i as int, first@, second@, lighten));
                    assert(work_left(origs, places(stack@, i as int)) < before_work);
                }
            }
        } else {
            proof {
                lemma_walked_is_substituted(cur, orig, done, i as int, first@, second@, lighten);
            }
            let ghost old_stack = stack@;
            let ghost old_i = i;
            match stack.pop() {
                None => {
                    break ;
                },
                Some(frame) => {
                    let ghost old_origs = origs;
                    let ghost old_dones = dones;
                    let Frame { element: mut parent, hole } = frame;
                    let ghost parent_orig = origs[origs.len() - 2];
                    let ghost parent_done = dones[dones.len() - 2];
                    let ghost was = parent;
                    let ghost closed = cur@;
                    proof {
                        assert(frame == old_stack[old_stack.len() - 1]);
                        assert(linked(
                            old_stack,
                            origs,
                            dones,
                            old_stack.len() - 1,
                            first@,
                            second@,
                            lighten,
                        ));
                        assert(frame_walked(frame, parent_orig, parent_done, first@, second@, lighten));
                        assert(slots_before(parent_orig.children, hole + 1) == slots_before(
                            parent_orig.children,
                            hole as int,
                        ) + node_slots(parent_orig.children[hole as int]));
                    }
                    assert(hole < parent.children.len());
                    parent.children[hole] = Node::Element(cur);
                    cur = parent;
                    i = hole + 1;
                    proof {
                        origs = origs.drop_last();
                        dones = dones.drop_last();
                        assert(origs.last() == parent_orig);
                        assert(dones.last() == parent_done);
                        assert(cur.children@[hole as int]@ == NodeView::Element(closed));
                        assert forall|t: int| 0 <= t < i implies #[trigger] child_walked(
                            cur,
                            parent_orig,
                            parent_done,
                            t,
                            first@,
                            second@,
                            lighten,
                        ) by {
                            if t < hole {
                                assert(child_walked(
                                    was,
                                    parent_orig,
                                    parent_done,
                                    t,
                                    first@,
                                    second@,
                                    lighten,
                                ));
                                assert(cur.children@[t] == was.children@[t]);
                            }
                        }
                        assert forall|t: int| i <= t < parent_orig.children.len() implies (
                        #[trigger] cur.children@[t])@ == parent_orig.children[t] by {
                            assert(cur.children@[t] == was.children@[t]);
                        }
                        assert(leads_with_text(parent_orig.children, hole + 1) == leads_with_text(
                            parent_orig.children,
                            hole as int,
                        ));
                        assert(walked_to(cur, parent_orig, parent_done, i as int, first@, second@, lighten));
                        assert forall|j: int| 0 <= j < stack.len() implies #[trigger] linked(
                            stack@,
                            origs,
                            dones,
                            j,
                            first@,
                            second@,
                            lighten,
                        ) by {
                            assert(linked(old_stack, old_origs, old_dones, j, first@, second@, lighten));
                        }
                        assert(places(old_stack, old_i as int).drop_last() =~= places(
                            stack@,
                            i as int,
                        ));
                        assert(work_left(origs, places(stack@, i as int)) < before_work);
                    }
                },
            }
        }
    }
    std::mem::swap(root, &mut cur);
    now
}

/// What a survey of the document looks for.
#[derive(Clone, Copy, Debug, PartialEq, Eq, Structural)]
pub enum Probe {
    /// The text leaves that are not blank, as far as two.
    TextSlots,
    /// The first element that states a horizontal position.
    Position,
}

/// What a survey found.
#[derive(Clone, Copy, Debug, PartialEq, Eq, Structural)]
pub struct Survey {
    /// The number of text slots met.
    pub slots: usize,
    /// The horizontal position met.
    pub position: Option<i64>,
}

/// An element that a survey has entered and not yet left, while it is in
/// the subtree of the child before `next`.
struct Visit<'a> {
    element: &'a ElementNode,
    next: usize,
}

/// The places at which a survey stands in the open elements.
spec fn visit_places(stack: Seq<Visit>, i: int) -> Seq<int> {
    Seq::new(stack.len() + 1, |j: int| if j < stack.len() { stack[j].next as int } else { i })
}

/// The `j`-th open element is the one it was, and the element above it is
/// its child before `next`, entered with the slots counted before that
/// child.
spec fn visited(stack: Seq<Visit>, origs: Seq<ElementView>, dones: Seq<nat>, j: int) -> bool {
    &&& stack[j].element@ == origs[j]
    &&& 1 <= stack[j].next <= origs[j].children.len()
    &&& NodeView::Element(origs[j + 1]) == origs[j].children[stack[j].next - 1]
    &&& dones[j + 1] == up_to_two(dones[j] + slots_before(origs[j].children, stack[j].next - 1))
}

/// The first horizontal position stated in what a survey has still before
/// it: in the rest of the topmost open element, or else in the rest of those
/// below.
spec fn pending_x(origs: Seq<ElementView>, nexts: Seq<int>) -> Option<i64>
    decreases origs.len(),
{
    if origs.len() == 0 {
        None
    } else if first_x_among(origs.last().children, nexts.last()) is Some {
        first_x_among(origs.last().children, nexts.last())
    } else {
        pending_x(origs.drop_last(), nexts.drop_last())
    }
}

/// Walks the document in document order, looking for what `probe` names,
/// and stops as soon as it is found: at the second text slot, or at the
/// first element that states a horizontal position.
pub fn survey(root: &ElementNode, probe: Probe) -> (r: Survey)
    ensures
        probe is TextSlots ==> r.slots == up_to_two(slot_count(root@)) && r.position is None,
        probe is Position ==> r.position == first_x(root@) && r.slots == 0,
{
    let mut found = Survey { slots: 0, position: None };
    if probe == Probe::Position {
        let own = own_position(root);
        if own.is_some() {
            found.position = own;
            return found;
        }
    }
    let mut stack: Vec<Visit> = Vec::new();
    let mut cur: &ElementNode = root;
    let mut i: usize = 0;
    let ghost mut origs: Seq<ElementView> = seq![root@];
    let ghost mut dones: Seq<nat> = seq![0nat];
    proof {
        lemma_element_view(*root);
        assert(origs.drop_last() =~= Seq::<ElementView>::empty());
        assert(pending_x(origs.drop_last(), visit_places(stack@, 0).drop_last()) is None);
    }
    loop
        invariant_except_break
            found.position is None,
        invariant
            origs.len() == stack.len() + 1,
            dones.len() == stack.len() + 1,
            origs[0] == root@,
            dones[0] == 0,
            forall|j: int| 0 <= j < stack.len() ==> #[trigger] visited(stack@, origs, dones, j),
            cur@ == origs.last(),
            i <= cur.children.len(),
            found.slots <= 2,
            probe is Position ==> found.slots == 0,
            probe is TextSlots ==> found.slots == up_to_two(
                dones.last() + slots_before(origs.last().children, i as int),
            ),
            probe is Position ==> own_x(root@) is None && pending_x(
                origs,
                visit_places(stack@, i as int),
            ) == first_x_among(root@.children, 0),
        ensures
            probe is TextSlots ==> found.slots == up_to_two(slot_count(root@)),
            probe is TextSlots ==> found.position is None,
            probe is Position ==> found.position == first_x(root@),
        decreases work_left(origs, visit_places(stack@, i as int)),
    {
        let ghost orig = origs.last();
        let ghost done = dones.last();
        let ghost places_before = visit_places(stack@, i as int);
        let ghost before_work = work_left(origs, places_before);
        proof {
            lemma_element_view(*cur);
            lemma_slots_before_grows(orig.children, orig.children.len() as int);
        }
        if found.slots < 2 && i < cur.children.len() {
            let ghost child = orig.children[i as int];
            proof {
                assert(cur.children@[i as int]@ == child);
                assert(slots_before(orig.children, i + 1) == slots_before(orig.children, i as int)
                    + node_slots(child));
                lemma_work_step(orig.children, i as int);
                lemma_work_left_top(origs, places_before, i + 1);
                assert(places_before.update(stack.len() as int, i + 1) =~= visit_places(
                    stack@,
                    i + 1,
                ));
                assert(visit_places(stack@, i + 1).drop_last() =~= places_before.drop_last());
            }
            match &cur.children[i] {
                Node::Text(t) => {
                    if probe == Probe::TextSlots && !str_is_blank(t.as_str()) {
                        found.slots = found.slots + 1;
                    }
                    i = i + 1;
                    proof {
                        assert(pending_x(origs, visit_places(stack@, i as int)) == pending_x(
                            origs,
                            places_before,
                        ));
                    }
                },
                Node::Element(below) => {
                    let own = if probe == Probe::Position {
                        own_position(below)
                    } else {
                        None
                    };
                    proof {
                        lemma_element_view(*below);
                        assert(child == NodeView::Element(below@));
                    }
                    if own.is_some() {
                        found.position = own;
                        proof {
                            assert(first_x(below@) == own);
                            assert(first_x_among(orig.children, i as int) == own);
                            assert(pending_x(origs, places_before) == own);
                        }
                        break ;
                    }
                    let ghost old_stack = stack@;
                    let ghost old_origs = origs;
                    let ghost old_dones = dones;
                    stack.push(Visit { element: cur, next: i + 1 });
                    proof {
                        lemma_element_view(*below);
                        origs = origs.push(below@);
                        dones = dones.push(up_to_two(done + slots_before(orig.children, i as int)));
                        assert forall|j: int| 0 <= j < stack.len() implies #[trigger] visited(
                            stack@,
                            origs,
                            dones,
                            j,
                        ) by {
                            if j < old_stack.len() {
                                assert(visited(old_stack, old_origs, old_dones, j));
                            }
                        }
                        assert(origs.drop_last() =~= old_origs);
                        assert(visit_places(stack@, 0).drop_last() =~= visit_places(
                            old_stack,
                            i + 1,
                        ));
                        assert(child == NodeView::Element(below@));
                        assert(node_work(child) == 2 + rest_work(below@.children, 0));
                        assert(work_left(origs, visit_places(stack@, 0)) < before_work);
                        if probe is Position {
                            assert(first_x(below@) == first_x_among(below@.children, 0));
                            assert(visit_places(stack@, 0).last() == 0);
                            assert(pending_x(old_origs, visit_places(old_stack, i + 1))
                                == if first_x_among(orig.children, i + 1) is Some {
                                first_x_among(orig.children, i + 1)
                            } else {
                                pending_x(old_origs.drop_last(), places_before.drop_last())
                            });
                            assert(pending_x(origs, visit_places(stack@, 0)) == pending_x(
                                old_origs,
                                places_before,
                            ));
                        }
                    }
                    cur = below;
                    i = 0;
                },
                _ => {
                    i = i + 1;
                    proof {
                        assert(pending_x(origs, visit_places(stack@, i as int)) == pending_x(
                            origs,
                            places_before,
                        ));
                    }
                },
            }
        } else {
            let ghost old_stack = stack@;
            let ghost old_i = i;
            match stack.pop() {
                None => {
                    proof {
                        assert(origs.drop_last() =~= Seq::<ElementView>::empty());
                        if probe is Position {
                            assert(first_x_among(orig.children, i as int) is None);
                            assert(pending_x(origs.drop_last(), places_before.drop_last()) is None);
                            assert(pending_x(origs, places_before) is None);
                            assert(first_x(root@) == first_x_among(root@.children, 0));
                        }
                    }
                    break ;
                },
                Some(visit) => {
                    let ghost old_origs = origs;
                    let ghost old_dones = dones;
                    proof {
                        assert(visit == old_stack[old_stack.len() - 1]);
                        assert(visited(old_stack, origs, dones, old_stack.len() - 1));
                        let parent_orig = origs[origs.len() - 2];
                        assert(slots_before(parent_orig.children, visit.next as int)
                            == slots_before(parent_orig.children, visit.next - 1) + node_slots(
                            parent_orig.children[visit.next - 1],
                        ));
                        origs = origs.drop_last();
                        dones = dones.drop_last();
                        assert forall|j: int| 0 <= j < stack.len() implies #[trigger] visited(
                            stack@,
                            origs,
                            dones,
                            j,
                        ) by {
                            assert(visited(old_stack, old_origs, old_dones, j));
                        }
                        assert(places_before.drop_last() =~= visit_places(
                            stack@,
                            visit.next as int,
                        ));
                        if probe is Position {
                            assert(first_x_among(orig.children, old_i as int) is None);
                            assert(pending_x(old_origs, places_before) == pending_x(
                                origs,
                                visit_places(stack@, visit.next as int),
                            ));
                        }
                    }
                    cur = visit.element;
                    i = visit.next;
                },
            }
        }
    }
    found
}

/// Reads the horizontal position that an element itself states.
fn own_position(e: &ElementNode) -> (r: Option<i64>)
    ensures
        r == own_x(e@),
{
    match e.attribute("x") {
        Some(v) => parse_number(v.as_str()),
        None => None,
    }
}

} // verus!
