//! What every step of a traversal preserves.

use vstd::prelude::*;
use vstd::set_lib::{lemma_int_range, lemma_len_subset, set_int_range};
use crate::invariants::{same_children_slots, without_pending_preserves};
use crate::model::{Slot, TreeView};
use crate::traverse_model::{item_of, Event, Node, TraversalView};

verus! {

/// The slot of the tree at which `node` records its child at position `at`.
pub open spec fn slot_of(node: Node, at: int) -> Slot {
    match node {
        Node::Root(i) => Slot::OfRoot { item: i as int, at },
        Node::Child(i) => Slot::OfChild { item: i as int, at },
    }
}

/// A delta has one base.
pub proof fn base_is_unique<T>(t: TraversalView<T>, a: Node, b: Node, child: usize)
    requires
        t.tree().exclusive(),
        t.is_base_of(a, child),
        t.is_base_of(b, child),
    ensures
        a == b,
{
    let i = choose|at: int|
        0 <= at < t.item(a).children.len() && #[trigger] t.item(a).children[at] as int == child;
    let j = choose|at: int|
        0 <= at < t.item(b).children.len() && #[trigger] t.item(b).children[at] as int == child;
    let x = slot_of(a, i);
    let y = slot_of(b, j);
    assert(t.tree().has_slot(x) && t.tree().slot_value(x) == child);
    assert(t.tree().has_slot(y) && t.tree().slot_value(y) == child);
    assert(x == y);
}

/// The base of a delta is an item of the tree, and so is the delta.
pub proof fn dependent_is_a_node<T>(t: TraversalView<T>, base: Node, child: usize)
    requires
        t.tree().in_bounds(),
        t.is_base_of(base, child),
    ensures
        t.has_node(base),
        t.has_node(Node::Child(child)),
{
    let i = choose|at: int|
        0 <= at < t.item(base).children.len() && #[trigger] t.item(base).children[at] as int
            == child;
    let x = slot_of(base, i);
    assert(t.tree().has_slot(x) && t.tree().slot_value(x) == child);
}

/// The children of an item at different positions are different deltas.
pub proof fn dependents_are_distinct<T>(t: TraversalView<T>, node: Node, a: int, b: int)
    requires
        t.tree().exclusive(),
        t.has_node(node),
        0 <= a < b < t.item(node).children.len(),
    ensures
        t.item(node).children[a] != t.item(node).children[b],
        t.is_base_of(node, t.item(node).children[a] as usize),
        t.is_base_of(node, t.item(node).children[b] as usize),
{
    let x = slot_of(node, a);
    let y = slot_of(node, b);
    assert(t.tree().has_slot(x) && t.tree().has_slot(y));
    assert(x != y);
    assert(t.item(node).children[a] as int == t.item(node).children[a] as usize);
    assert(t.item(node).children[b] as int == t.item(node).children[b] as usize);
}

/// A traversal starts in a state of which the invariant holds.
pub proof fn start_is_sound<T>(tree: TreeView<T>)
    requires
        tree.wf(),
        tree.roots.len() <= usize::MAX,
        tree.children.len() <= usize::MAX,
    ensures
        TraversalView::start(tree).inv(),
{
    let t = TraversalView::start(tree);
    without_pending_preserves(tree);
    same_children_slots(tree.without_pending(), t.tree());
    assert forall|i: usize| #[trigger] t.history.contains(Node::Root(i)) <==> i
        < t.next_root by {
        if t.history.contains(Node::Root(i)) {
            let k = choose|k: int| 0 <= k < t.history.len() && t.history[k] == Node::Root(i);
        }
    }
}

/// A sequence without duplicates, without one of its elements, is without
/// duplicates, one shorter, and holds what it held but that element.
pub proof fn removing_a_value(list: Seq<Node>, node: Node)
    requires
        list.no_duplicates(),
        list.contains(node),
    ensures
        list.remove_value(node).no_duplicates(),
        list.remove_value(node).len() == list.len() - 1,
        forall|other: Node| #[trigger]
            list.remove_value(node).contains(other) <==> (list.contains(other) && other != node),
{
    list.index_of_first_ensures(node);
    let at = list.index_of_first(node).unwrap();
    let rest = list.remove(at);
    assert forall|i: int, j: int| 0 <= i < rest.len() && 0 <= j < rest.len() && i
        != j implies rest[i] != rest[j] by {
        let a = if i < at { i } else { i + 1 };
        let b = if j < at { j } else { j + 1 };
        assert(rest[i] == list[a]);
        assert(rest[j] == list[b]);
    }
    assert forall|other: Node| #[trigger]
        rest.contains(other) <==> (list.contains(other) && other != node) by {
        if rest.contains(other) {
            let i = choose|i: int| 0 <= i < rest.len() && rest[i] == other;
            let a = if i < at { i } else { i + 1 };
            assert(rest[i] == list[a]);
            assert(a != at);
        }
        if list.contains(other) && other != node {
            let a = choose|a: int| 0 <= a < list.len() && list[a] == other;
            let i = if a < at { a } else { a - 1 };
            assert(rest[i] == list[a]);
        }
    }
}

/// A finite set of indices below `limit`, with one more such index, has one
/// element more and at most `limit` elements.
pub proof fn room_for_one_more(done: Set<int>, index: int, limit: nat)
    requires
        done.finite(),
        forall|i: int| #[trigger] done.contains(i) ==> 0 <= i < limit,
        0 <= index < limit,
        !done.contains(index),
    ensures
        done.insert(index).len() == done.len() + 1,
        done.len() + 1 <= limit,
{
    let all = set_int_range(0, limit as int);
    lemma_int_range(0, limit as int);
    assert(done.insert(index).subset_of(all));
    lemma_len_subset(done.insert(index), all);
}

/// Where a step leaves the items and the decoded entries as they were and keeps
/// scheduled what was scheduled, the dependents of what was decoded stay scheduled.
pub proof fn scheduling_carries_over<T>(t: TraversalView<T>, r: TraversalView<T>)
    requires
        t.roots == r.roots,
        t.children == r.children,
        r.roots_done == t.roots_done,
        r.children_done == t.children_done,
        forall|node: Node, child: usize|
            t.succeeded(node) && #[trigger] t.is_base_of(node, child) ==> t.is_scheduled(child),
        forall|child: usize| t.is_scheduled(child) ==> #[trigger] r.is_scheduled(child),
    ensures
        forall|node: Node, child: usize|
            r.succeeded(node) && #[trigger] r.is_base_of(node, child) ==> r.is_scheduled(child),
{
    assert forall|node: Node, child: usize|
        r.succeeded(node) && #[trigger] r.is_base_of(node, child) implies r.is_scheduled(
        child,
    ) by {
        assert(t.succeeded(node));
        assert(t.is_base_of(node, child));
        assert(t.is_scheduled(child));
    }
}

/// Where a step leaves the items, the history and the decoded entries as they
/// were, what holds of the history goes on to hold.
pub proof fn history_carries_over<T>(t: TraversalView<T>, r: TraversalView<T>)
    requires
        t.inv(),
        t.roots == r.roots,
        t.children == r.children,
        t.history == r.history,
        forall|node: Node| t.succeeded(node) ==> #[trigger] r.succeeded(node),
    ensures
        forall|at: int| 0 <= at < r.history.len() ==> #[trigger] r.base_came_before(at),
{
    assert forall|at: int| 0 <= at < r.history.len() implies #[trigger] r.base_came_before(
        at,
    ) by {
        assert(t.base_came_before(at));
        if t.history[at] is Child {
            let before = choose|before: int|
                0 <= before < at && t.is_base_of(
                    #[trigger] t.history[before],
                    t.history[at]->Child_0,
                ) && t.succeeded(t.history[before]);
            assert(r.is_base_of(r.history[before], r.history[at]->Child_0));
            assert(r.succeeded(r.history[before]));
        }
    }
}

/// Taking note that an entry in flight was decoded keeps the invariant.
#[verifier::rlimit(40)]
pub proof fn decoded_is_sound<T>(t: TraversalView<T>, node: Node)
    requires
        t.inv(),
        t.in_flight.contains(node),
    ensures
        t.decoded(node).inv(),
{
    let r = t.decoded(node);
    let had = t.ready.len() as int;
    assert(r.tree() == t.tree());
    let flying = choose|at: int| 0 <= at < t.in_flight.len() && t.in_flight[at] == node;
    assert(t.history.contains(t.in_flight[flying]));
    let handed = choose|at: int| 0 <= at < t.history.len() && t.history[at] == node;
    assert(t.has_node(t.history[handed]));
    assert(!t.succeeded(node));
    removing_a_value(t.in_flight, node);
    match node {
        Node::Root(i) => {
            room_for_one_more(t.roots_done, i as int, t.roots.len());
        },
        Node::Child(i) => {
            room_for_one_more(t.children_done, i as int, t.children.len());
        },
    }
    assert forall|other: Node| #[trigger] r.succeeded(other) <==> (t.succeeded(other) || other
        == node) by {}
    history_carries_over(t, r);
    assert forall|at: int| 0 <= at < r.ready.len() implies #[trigger] r.ready_is_due(at) by {
        if at < had {
            assert(t.ready_is_due(at));
            assert(r.ready[at] == t.ready[at]);
        } else {
            let k = at - had;
            let child = t.item(node).children[k] as usize;
            assert(r.ready[at] == (child, node));
            assert(t.item(node).children[k] as int == child);
            assert(r.is_base_of(node, child));
            if t.history.contains(Node::Child(child)) {
                let pos = choose|pos: int|
                    0 <= pos < t.history.len() && t.history[pos] == Node::Child(child);
                assert(t.base_came_before(pos));
                let before = choose|before: int|
                    0 <= before < pos && t.is_base_of(
                        #[trigger] t.history[before],
                        t.history[pos]->Child_0,
                    ) && t.succeeded(t.history[before]);
                base_is_unique(t, t.history[before], node, child);
                assert(false);
            }
        }
    }
    assert forall|a: int, b: int| 0 <= a < b < r.ready.len() implies (#[trigger] r.ready[a]).0 != (
    #[trigger] r.ready[b]).0 by {
        if b < had {
            assert(r.ready[a] == t.ready[a]);
            assert(r.ready[b] == t.ready[b]);
        } else if a >= had {
            dependents_are_distinct(t, node, a - had, b - had);
        } else {
            assert(t.ready_is_due(a));
            assert(r.ready[a] == t.ready[a]);
            let child = t.item(node).children[b - had] as usize;
            assert(t.item(node).children[b - had] as int == child);
            assert(t.is_base_of(node, child));
            if t.ready[a].0 == child {
                base_is_unique(t, t.ready[a].1, node, child);
                assert(false);
            }
        }
    }
    assert forall|at: int| 0 <= at < r.in_flight.len() implies r.history.contains(
        #[trigger] r.in_flight[at],
    ) by {
        assert(r.in_flight.contains(r.in_flight[at]));
        let other = r.in_flight[at];
        let was = choose|was: int| 0 <= was < t.in_flight.len() && t.in_flight[was] == other;
        assert(t.history.contains(t.in_flight[was]));
    }
    assert forall|other: Node, child: usize|
        r.succeeded(other) && #[trigger] r.is_base_of(other, child) implies r.is_scheduled(
        child,
    ) by {
        if other == node {
            let at = choose|at: int|
                0 <= at < item_of(t.roots, t.children, node).children.len() && #[trigger] item_of(
                    t.roots,
                    t.children,
                    node,
                ).children[at] as int == child;
            assert(r.ready[had + at].0 == child);
        } else {
            assert(t.succeeded(other));
            assert(t.is_base_of(other, child));
            assert(t.is_scheduled(child));
            if !t.history.contains(Node::Child(child)) {
                let at = choose|at: int|
                    0 <= at < t.ready.len() && (#[trigger] t.ready[at]).0 == child;
                assert(r.ready[at].0 == child);
            }
        }
    }
}

/// Taking note that an entry in flight failed keeps the invariant.
pub proof fn failed_is_sound<T>(t: TraversalView<T>, node: Node)
    requires
        t.inv(),
        t.in_flight.contains(node),
    ensures
        t.failed(node).inv(),
{
    let r = t.failed(node);
    assert(r.tree() == t.tree());
    removing_a_value(t.in_flight, node);
    assert forall|other: Node| #[trigger] r.succeeded(other) <==> t.succeeded(other) by {}
    history_carries_over(t, r);
    assert forall|at: int| 0 <= at < r.ready.len() implies #[trigger] r.ready_is_due(at) by {
        assert(t.ready_is_due(at));
    }
    assert forall|at: int| 0 <= at < r.in_flight.len() implies r.history.contains(
        #[trigger] r.in_flight[at],
    ) by {
        assert(r.in_flight.contains(r.in_flight[at]));
        let other = r.in_flight[at];
        let was = choose|was: int| 0 <= was < t.in_flight.len() && t.in_flight[was] == other;
        assert(t.history.contains(t.in_flight[was]));
    }
    assert forall|child: usize| t.is_scheduled(child) implies #[trigger] r.is_scheduled(
        child,
    ) by {
        if !t.history.contains(Node::Child(child)) {
            let at = choose|at: int| 0 <= at < t.ready.len() && (#[trigger] t.ready[at]).0 == child;
            assert(r.ready[at].0 == child);
        }
    }
    scheduling_carries_over(t, r);
}

/// Taking note of an event keeps the invariant.
pub proof fn settled_is_sound<T>(t: TraversalView<T>, event: Event)
    requires
        t.inv(),
    ensures
        t.settled(event).inv(),
{
    match event {
        Event::Decoded(node) => {
            if t.in_flight.contains(node) {
                decoded_is_sound(t, node);
            }
        },
        Event::Failed(node) => {
            if t.in_flight.contains(node) {
                failed_is_sound(t, node);
            }
        },
        Event::Nothing => {},
    }
}

/// Taking note of a request to interrupt keeps the invariant.
pub proof fn flagged_is_sound<T>(t: TraversalView<T>, should_interrupt: bool)
    requires
        t.inv(),
    ensures
        t.flagged(should_interrupt).inv(),
{
    let r = t.flagged(should_interrupt);
    assert(r.tree() == t.tree());
    assert forall|other: Node| #[trigger] r.succeeded(other) <==> t.succeeded(other) by {}
    history_carries_over(t, r);
    assert forall|at: int| 0 <= at < r.ready.len() implies #[trigger] r.ready_is_due(at) by {
        assert(t.ready_is_due(at));
    }
    assert forall|child: usize| t.is_scheduled(child) implies #[trigger] r.is_scheduled(
        child,
    ) by {
        if !t.history.contains(Node::Child(child)) {
            let at = choose|at: int| 0 <= at < t.ready.len() && (#[trigger] t.ready[at]).0 == child;
            assert(r.ready[at].0 == child);
        }
    }
    scheduling_carries_over(t, r);
}

/// Pushing an element that a sequence does not hold leaves it without duplicates,
/// and the new sequence holds what the old one held, and the element.
pub proof fn push_of_a_new_element(history: Seq<Node>, node: Node)
    requires
        history.no_duplicates(),
        !history.contains(node),
    ensures
        history.push(node).no_duplicates(),
        forall|other: Node| #[trigger]
            history.push(node).contains(other) <==> (history.contains(other) || other == node),
{
    let pushed = history.push(node);
    assert forall|i: int, j: int| 0 <= i < pushed.len() && 0 <= j < pushed.len() && i
        != j implies pushed[i] != pushed[j] by {
        if i < history.len() && j < history.len() {
            assert(history[i] != history[j]);
        } else if i < history.len() {
            assert(history[i] == pushed[i]);
            assert(history.contains(history[i]));
        } else {
            assert(history[j] == pushed[j]);
            assert(history.contains(history[j]));
        }
    }
    assert forall|other: Node| #[trigger]
        pushed.contains(other) <==> (history.contains(other) || other == node) by {
        if pushed.contains(other) {
            let k = choose|k: int| 0 <= k < pushed.len() && pushed[k] == other;
            if k < history.len() {
                assert(history[k] == other);
            }
        }
        if history.contains(other) {
            let k = choose|k: int| 0 <= k < history.len() && history[k] == other;
            assert(pushed[k] == other);
        }
        if other == node {
            assert(pushed[history.len() as int] == other);
        }
    }
}

/// Handing out an entry that was not handed out before, whose base, if it has
/// one, was handed out and decoded, keeps what holds of the history and of the
/// entries in flight.
pub proof fn handing_out_keeps_history<T>(t: TraversalView<T>, r: TraversalView<T>, node: Node)
    requires
        t.inv(),
        t.roots == r.roots,
        t.children == r.children,
        t.roots_done == r.roots_done,
        t.children_done == r.children_done,
        r.history == t.history.push(node),
        r.in_flight == t.in_flight.push(node),
        !t.history.contains(node),
        t.has_node(node),
        node is Child ==> exists|before: int|
            0 <= before < t.history.len() && t.is_base_of(
                #[trigger] t.history[before],
                node->Child_0,
            ) && t.succeeded(t.history[before]),
    ensures
        r.history.no_duplicates(),
        r.in_flight.no_duplicates(),
        forall|other: Node| #[trigger]
            r.history.contains(other) <==> (t.history.contains(other) || other == node),
        forall|at: int| 0 <= at < r.history.len() ==> r.has_node(#[trigger] r.history[at]),
        forall|at: int| 0 <= at < r.history.len() ==> #[trigger] r.base_came_before(at),
        forall|other: Node| #[trigger]
            r.succeeded(other) ==> r.history.contains(other) && !r.in_flight.contains(other),
        forall|at: int|
            0 <= at < r.in_flight.len() ==> r.history.contains(#[trigger] r.in_flight[at]),
{
    push_of_a_new_element(t.history, node);
    if t.in_flight.contains(node) {
        let at = choose|at: int| 0 <= at < t.in_flight.len() && t.in_flight[at] == node;
        assert(t.history.contains(t.in_flight[at]));
    }
    push_of_a_new_element(t.in_flight, node);
    assert forall|at: int| 0 <= at < r.history.len() implies r.has_node(
        #[trigger] r.history[at],
    ) by {
        if at < t.history.len() {
            assert(r.history[at] == t.history[at]);
        }
    }
    assert forall|at: int| 0 <= at < r.history.len() implies #[trigger] r.base_came_before(
        at,
    ) by {
        if at < t.history.len() {
            assert(t.base_came_before(at));
            assert(r.history[at] == t.history[at]);
            if t.history[at] is Child {
                let before = choose|before: int|
                    0 <= before < at && t.is_base_of(
                        #[trigger] t.history[before],
                        t.history[at]->Child_0,
                    ) && t.succeeded(t.history[before]);
                assert(r.history[before] == t.history[before]);
            }
        } else if node is Child {
            let before = choose|before: int|
                0 <= before < t.history.len() && t.is_base_of(
                    #[trigger] t.history[before],
                    node->Child_0,
                ) && t.succeeded(t.history[before]);
            assert(r.history[before] == t.history[before]);
        }
    }
    assert forall|other: Node| #[trigger] r.succeeded(other) implies r.history.contains(other)
        && !r.in_flight.contains(other) by {
        assert(t.succeeded(other));
    }
    assert forall|at: int| 0 <= at < r.in_flight.len() implies r.history.contains(
        #[trigger] r.in_flight[at],
    ) by {
        if at < t.in_flight.len() {
            assert(r.in_flight[at] == t.in_flight[at]);
            assert(t.history.contains(t.in_flight[at]));
        }
    }
}

/// Handing out the delta that is due next keeps the invariant.
#[verifier::rlimit(40)]
pub proof fn handed_out_child_is_sound<T>(t: TraversalView<T>)
    requires
        t.inv(),
        t.ready.len() > 0,
    ensures
        t.handed_out().inv(),
{
    let r = t.handed_out();
    let last = t.ready.len() - 1;
    let child = t.ready[last].0;
    let base = t.ready[last].1;
    let node = Node::Child(child);
    assert(t.ready_is_due(last));
    assert(r.tree() == t.tree());
    dependent_is_a_node(t, base, child);
    let came = choose|came: int| 0 <= came < t.history.len() && t.history[came] == base;
    assert(t.is_base_of(t.history[came], child) && t.succeeded(t.history[came]));
    handing_out_keeps_history(t, r, node);
    assert forall|i: usize| #[trigger] r.history.contains(Node::Root(i)) <==> i
        < r.next_root by {
        assert(t.history.contains(Node::Root(i)) <==> i < t.next_root);
    }
    assert forall|at: int| 0 <= at < r.ready.len() implies #[trigger] r.ready_is_due(at) by {
        assert(t.ready_is_due(at));
        assert(r.ready[at] == t.ready[at]);
        assert(t.ready[at].0 != t.ready[last].0);
    }
    assert forall|a: int, b: int| 0 <= a < b < r.ready.len() implies (#[trigger] r.ready[a]).0 != (
    #[trigger] r.ready[b]).0 by {
        assert(r.ready[a] == t.ready[a]);
        assert(r.ready[b] == t.ready[b]);
    }
    assert forall|other: usize| t.is_scheduled(other) implies #[trigger] r.is_scheduled(
        other,
    ) by {
        if !t.history.contains(Node::Child(other)) {
            let at = choose|at: int| 0 <= at < t.ready.len() && (#[trigger] t.ready[at]).0 == other;
            if at < last {
                assert(r.ready[at].0 == other);
            } else {
                assert(other == child);
                assert(r.history.contains(node));
            }
        } else {
            assert(r.history.contains(Node::Child(other)));
        }
    }
    scheduling_carries_over(t, r);
}

/// Handing out the next full object keeps the invariant.
#[verifier::rlimit(40)]
pub proof fn handed_out_root_is_sound<T>(t: TraversalView<T>)
    requires
        t.inv(),
        t.ready.len() == 0,
        t.next_root < t.roots.len(),
    ensures
        t.handed_out().inv(),
{
    let r = t.handed_out();
    let node = Node::Root(t.next_root as usize);
    assert(r.tree() == t.tree());
    assert(!t.history.contains(node));
    handing_out_keeps_history(t, r, node);
    assert forall|i: usize| #[trigger] r.history.contains(Node::Root(i)) <==> i
        < r.next_root by {
        assert(t.history.contains(Node::Root(i)) <==> i < t.next_root);
    }
    assert forall|other: usize| t.is_scheduled(other) implies #[trigger] r.is_scheduled(
        other,
    ) by {
        if t.history.contains(Node::Child(other)) {
            assert(r.history.contains(Node::Child(other)));
        }
    }
    scheduling_carries_over(t, r);
}

/// A step keeps the invariant.
pub proof fn step_is_sound<T>(t: TraversalView<T>, event: Event, should_interrupt: bool)
    requires
        t.inv(),
    ensures
        t.settled(event).inv(),
        t.settled(event).flagged(should_interrupt).inv(),
        t.after(event, should_interrupt).inv(),
{
    settled_is_sound(t, event);
    flagged_is_sound(t.settled(event), should_interrupt);
    let noted = t.settled(event).flagged(should_interrupt);
    if noted.can_hand_out() {
        if noted.ready.len() > 0 {
            handed_out_child_is_sound(noted);
        } else {
            handed_out_root_is_sound(noted);
        }
    }
}

/// No more entries were decoded than the tree has.
pub proof fn decoded_is_bounded<T>(t: TraversalView<T>)
    requires
        t.inv(),
    ensures
        t.decoded_roots <= t.roots.len(),
        t.decoded_children <= t.children.len(),
{
    lemma_int_range(0, t.roots.len() as int);
    assert(t.roots_done.subset_of(set_int_range(0, t.roots.len() as int)));
    lemma_len_subset(t.roots_done, set_int_range(0, t.roots.len() as int));
    lemma_int_range(0, t.children.len() as int);
    assert(t.children_done.subset_of(set_int_range(0, t.children.len() as int)));
    lemma_len_subset(t.children_done, set_int_range(0, t.children.len() as int));
}

/// Whatever was handed out, the base of a delta was handed out before the delta
/// and reported as decoded, and no entry was handed out twice.
pub proof fn base_is_decoded_before_dependent<T>(t: TraversalView<T>, at: int, base: Node)
    requires
        t.inv(),
        0 <= at < t.history.len(),
        t.history[at] is Child,
        t.is_base_of(base, t.history[at]->Child_0),
    ensures
        exists|before: int| 0 <= before < at && #[trigger] t.history[before] == base,
        t.succeeded(base),
        t.history.no_duplicates(),
{
    assert(t.base_came_before(at));
    let before = choose|before: int|
        0 <= before < at && t.is_base_of(#[trigger] t.history[before], t.history[at]->Child_0)
            && t.succeeded(t.history[before]);
    base_is_unique(t, t.history[before], base, t.history[at]->Child_0);
}

/// Once a traversal that was not interrupted can hand out nothing more, every
/// full object and every dependent of a decoded entry was handed out: nothing was
/// skipped.
pub proof fn nothing_is_skipped<T>(t: TraversalView<T>)
    requires
        t.inv(),
        !t.interrupted,
        !t.can_hand_out(),
    ensures
        forall|i: usize| i < t.roots.len() ==> #[trigger] t.history.contains(Node::Root(i)),
        forall|node: Node, child: usize|
            t.succeeded(node) && #[trigger] t.is_base_of(node, child) ==> t.history.contains(
                Node::Child(child),
            ),
{
    assert forall|node: Node, child: usize|
        t.succeeded(node) && #[trigger] t.is_base_of(node, child) implies t.history.contains(
        Node::Child(child),
    ) by {
        assert(t.is_scheduled(child));
    }
}

} // verus!
